//! Server configuration: heartbeat timing, the session cookie, and the
//! default session-id generator.
use vstd::prelude::*;

use crypto::digest::Digest;

verus! {

/// The knobs of a server. Durations are in milliseconds.
pub struct Config {
    /// How long after the last pong a session counts as dead (60 s).
    pub ping_timeout: u64,
    /// How long after the last ping a new ping goes out (25 s).
    pub ping_interval: u64,
    /// The name of the cookie that carries the sid back to the client;
    /// `None` sends no cookie.
    pub cookie: Option<String>,
    /// The path attribute of that cookie; `None` sends none.
    pub cookie_path: Option<String>,
}

impl Default for Config {
    /// The defaults: 60 s pong timeout, 25 s ping interval, a cookie named
    /// `io` with no path.
    fn default() -> (r: Config)
        ensures
            r.ping_timeout == 60000,
            r.ping_interval == 25000,
            r.cookie matches Some(c) && c@ == "io"@,
            r.cookie_path is None,
    {
        Config {
            ping_timeout: 60000,
            ping_interval: 25000,
            cookie: Some(String::from_str("io")),
            cookie_path: None,
        }
    }
}

/// The default session-id generator. Relies on rust-crypto's `Sha256`
/// (through the `Digest` trait, whose `result_str` is the hex digest: 64
/// characters for 256 bits) and on `rand::random`, which draws from the
/// thread's generator; the 32 random bits make the result unpredictable, so
/// nothing more than its length is stated.
#[verifier::external_body]
pub fn generate_id(addr: &str) -> (r: String)
    ensures
        r@.len() == 64,
{
    let mut hasher = crypto::sha2::Sha256::new();
    hasher.input_str(&format!("{}{}", addr, rand::random::<u32>()));
    hasher.result_str()
}

} // verus!
