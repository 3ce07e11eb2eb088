//! The Redis client that both sides use to exchange messages.
use vstd::prelude::*;

verus! {

/// `redis::Client`: a handle holding the parsed connection settings.
#[verifier::external_type_specification]
#[verifier::external_body]
pub struct ExClient(redis::Client);

/// `redis::RedisError`.
#[verifier::external_type_specification]
#[verifier::external_body]
pub struct ExRedisError(redis::RedisError);

/// Whether `redis::Client::open` accepts the connection URL `url`.  It only
/// parses the URL (nothing is connected), so the answer depends on the URL alone.
pub uninterp spec fn redis_url_opens(url: Seq<char>) -> bool;

/// The client `redis::Client::open` builds for the connection URL `url`: it
/// holds the connection settings parsed from the URL alone.
pub uninterp spec fn redis_client_for(url: Seq<char>) -> redis::Client;

/// Calls `redis::Client::open(url)`.  Claimed: it succeeds exactly when the
/// named predicate `redis_url_opens` holds of the URL, and the client it then
/// returns is the named client `redis_client_for` of the URL (it only parses
/// the URL, so the client depends on the URL alone).
#[verifier::external_body]
pub(crate) fn open_client(url: &str) -> (r: Result<redis::Client, redis::RedisError>)
    ensures
        r is Ok <==> redis_url_opens(url@),
        r matches Ok(c) ==> c == redis_client_for(url@),
{
    redis::Client::open(url)
}

} // verus!
