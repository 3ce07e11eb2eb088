//! The engine's connection to Redis, on which it publishes its replies.
use crate::redis_client::{open_client, redis_client_for, redis_url_opens};
use vstd::prelude::*;

verus! {

/// The Redis URL the engine connects to.
pub open spec fn engine_redis_url() -> Seq<char> {
    ""@
}

#[derive(Debug)]
pub struct RedisManager {
    redis_client: redis::Client,
}

impl RedisManager {
    /// The client the manager holds.
    pub closed spec fn spec_client(&self) -> redis::Client {
        self.redis_client
    }

    /// A manager with a client for the engine's Redis URL; callable where
    /// that URL is accepted.
    pub fn new() -> (r: RedisManager)
        requires
            redis_url_opens(engine_redis_url()),
        ensures
            r.spec_client() == redis_client_for(engine_redis_url()),
    {
        let redis_client = open_client("").unwrap();
        RedisManager { redis_client }
    }

    /// `new()` where the engine's Redis URL is accepted, `None` where it is not.
    pub fn try_new() -> (r: Option<RedisManager>)
        ensures
            r is Some <==> redis_url_opens(engine_redis_url()),
            r matches Some(m) ==> m.spec_client() == redis_client_for(engine_redis_url()),
    {
        if open_client("").is_ok() {
            Some(RedisManager::new())
        } else {
            None
        }
    }

    /// The client, for publishing.
    pub fn client(&self) -> (r: &redis::Client)
        ensures
            *r == self.spec_client(),
    {
        &self.redis_client
    }
}

} // verus!
