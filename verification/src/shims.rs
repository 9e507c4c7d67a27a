use vstd::prelude::*;

verus! {

/// Relies on uuid::Uuid::new_v4, read through Uuid::as_u128: a freshly drawn
/// random version-4 identifier. Randomness admits no promise about the value.
#[verifier::external_body]
pub(crate) fn fresh_task_id() -> u128 {
    uuid::Uuid::new_v4().as_u128()
}

/// Relies on chrono::Utc::now, read through DateTime::timestamp_millis: the
/// wall clock as milliseconds since the Unix epoch. The clock admits no
/// promise about the value.
#[verifier::external_body]
pub(crate) fn now_millis() -> i64 {
    chrono::Utc::now().timestamp_millis()
}

/// Relies on std's String::push: appends one character at the end.
#[verifier::external_body]
pub(crate) fn string_push(s: &mut String, c: char)
    ensures
        final(s)@ == old(s)@.push(c),
{
    s.push(c)
}

/// The type of the client handle that the durable backends hold. The
/// library carries it as an opaque value; every operation on it happens
/// outside.
#[verifier::external_type_specification]
#[verifier::external_body]
pub struct ExRedisClient(redis::Client);

/// The type of the error the client library reports when an address does
/// not parse. The library carries it as an opaque value.
#[verifier::external_type_specification]
#[verifier::external_body]
pub struct ExRedisError(redis::RedisError);

/// Whether a text parses as an address of the external key/value server;
/// the parse depends on the text alone.
pub uninterp spec fn redis_url_ok(url: Seq<char>) -> bool;

/// Relies on redis::Client::open: parses the address and builds a client
/// handle without connecting, succeeding exactly when the address parses;
/// the parse is a function of the address text alone.
#[verifier::external_body]
pub(crate) fn redis_client_open(url: &str) -> (r: Result<redis::Client, redis::RedisError>)
    ensures
        r is Ok <==> redis_url_ok(url@),
{
    redis::Client::open(url)
}

/// Relies on std's char::from_u32: `Some` exactly for the code points outside
/// the surrogate range and at most 0x10FFFF, and the returned character is
/// that code point.
pub assume_specification[ char::from_u32 ](n: u32) -> (r: Option<char>)
    ensures
        r matches Some(c) ==> c as u32 == n,
        r is Some <==> (n < 0xD800 || (0xDFFF < n && n <= 0x10FFFF)),
;

} // verus!
