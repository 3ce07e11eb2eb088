//! The API's connections to Redis: one to receive the engine's replies, one
//! to push requests to the engine.
use crate::ids::{is_uuid_v4_text, uuid_v4_string};
use crate::redis_client::{open_client, redis_client_for, redis_url_opens};
use vstd::prelude::*;

verus! {

/// The Redis URL the API connects to.
pub open spec fn api_redis_url() -> Seq<char> {
    "redis://localhost:6379"@
}

pub struct RedisManager {
    pub receiver: redis::Client,
    pub publisher: redis::Client,
}

impl RedisManager {
    /// A manager with a receiving and a publishing client for the API's
    /// Redis URL; callable where that URL is accepted.
    pub fn new() -> (r: RedisManager)
        requires
            redis_url_opens(api_redis_url()),
        ensures
            r.receiver == redis_client_for(api_redis_url()),
            r.publisher == redis_client_for(api_redis_url()),
    {
        let receiver = open_client("redis://localhost:6379").unwrap();
        let publisher = open_client("redis://localhost:6379").unwrap();
        RedisManager { receiver, publisher }
    }

    /// `new()` where the API's Redis URL is accepted, `None` where it is not.
    pub fn try_new() -> (r: Option<RedisManager>)
        ensures
            r is Some <==> redis_url_opens(api_redis_url()),
            r matches Some(m) ==> m.receiver == redis_client_for(api_redis_url()) && m.publisher
                == redis_client_for(api_redis_url()),
    {
        if open_client("redis://localhost:6379").is_ok() {
            Some(RedisManager::new())
        } else {
            None
        }
    }

    /// A fresh id under which a request and its reply travel: a random
    /// version-4 UUID in lowercase hyphenated form.
    pub fn client_id(&self) -> (r: String)
        ensures
            is_uuid_v4_text(r@),
    {
        uuid_v4_string()
    }
}

} // verus!
