//! The object cache: entries with a content type and an expiry, stored in
//! files named after the digest of their key.

use vstd::prelude::*;
use vstd::string::StringSliceAdditionalSpecFns;

verus! {

/// Seconds an entry stays fresh.
pub const CACHE_LIFETIME_SECS: u64 = 86400;

/// The MD5 digest of a byte string.
pub uninterp spec fn md5_of(data: Seq<u8>) -> Seq<u8>;

/// Relies on md5::compute: the 16-byte digest of the bytes, a function of
/// the bytes alone.
#[verifier::external_body]
fn md5_digest(data: &[u8]) -> (r: Vec<u8>)
    ensures
        r@ == md5_of(data@),
        r@.len() == 16,
{
    md5::compute(data).0.to_vec()
}

pub open spec fn hex_char(d: int) -> char {
    if d == 0 { '0' } else if d == 1 { '1' } else if d == 2 { '2' } else if d == 3 { '3' } else if d
        == 4 { '4' } else if d == 5 { '5' } else if d == 6 { '6' } else if d == 7 { '7' } else if d
        == 8 { '8' } else if d == 9 { '9' } else if d == 10 { 'a' } else if d == 11 { 'b' } else if d
        == 12 { 'c' } else if d == 13 { 'd' } else if d == 14 { 'e' } else { 'f' }
}

/// Lowercase hexadecimal text of bytes: two digits per byte, high nibble first.
pub open spec fn hex_of(b: Seq<u8>) -> Seq<char>
    decreases b.len(),
{
    if b.len() == 0 {
        Seq::empty()
    } else {
        hex_of(b.drop_last()).push(hex_char(b.last() as int / 16)).push(hex_char(b.last() as int % 16))
    }
}

/// Relies on hex::encode: lowercase digits, two per byte, high nibble first.
#[verifier::external_body]
fn hex_encode(b: &Vec<u8>) -> (r: String)
    ensures
        r@ == hex_of(b@),
{
    hex::encode(b)
}

/// Name of the file that holds the entry of `key`: the hex text of the MD5
/// digest of the key's UTF-8 bytes.
pub fn cache_file_name(key: &str) -> (r: String)
    ensures
        r@ == hex_of(md5_of(key.spec_bytes())),
{
    let digest = md5_digest(key.as_bytes());
    hex_encode(&digest)
}

/// A cached server response.
pub struct ObjectCache {
    pub content_type: String,
    pub body: Vec<u8>,
    pub expiry: u64,
}

impl ObjectCache {
    /// An entry stored at `now` (seconds since the epoch), fresh for a day.
    pub fn new(content_type: String, body: Vec<u8>, now: u64) -> (r: Self)
        ensures
            r.content_type@ == content_type@,
            r.body@ == body@,
            r.expiry as int == (if now as int + CACHE_LIFETIME_SECS > u64::MAX {
                u64::MAX as int
            } else {
                now as int + CACHE_LIFETIME_SECS
            }),
    {
        ObjectCache { content_type, body, expiry: now.saturating_add(CACHE_LIFETIME_SECS) }
    }

    /// Whether the entry is stale at `now` (seconds since the epoch).
    pub fn has_expired(&self, now: u64) -> (r: bool)
        ensures
            r == (self.expiry < now),
    {
        self.expiry < now
    }
}

} // verus!
