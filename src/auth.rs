//! The header that authenticates a request to the server.

use vstd::prelude::*;
use vstd::string::StringExecFns;
use crate::messages::{decimal, decimal_text};

verus! {

pub open spec fn authorization_text(client_id: Seq<char>, timestamp_millis: u64, signature: Seq<char>) -> Seq<char> {
    "Nonce "@ + client_id + " "@ + decimal(timestamp_millis as nat) + " "@ + signature
}

/// `Nonce <client id> <timestamp in ms> <signature of the timestamp's decimal text>`.
pub fn authorization_header(client_id: &String, timestamp_millis: u64, signature: &String) -> (r: String)
    ensures
        r@ == authorization_text(client_id@, timestamp_millis, signature@),
{
    let mut s = String::from_str("Nonce ");
    s.append(client_id.as_str());
    s.append(" ");
    s.append(decimal_text(timestamp_millis).as_str());
    s.append(" ");
    s.append(signature.as_str());
    s
}

/// The text the client signs for a request made at `timestamp_millis`.
pub fn nonce_text(timestamp_millis: u64) -> (r: String)
    ensures
        r@ == decimal(timestamp_millis as nat),
{
    decimal_text(timestamp_millis)
}

} // verus!
