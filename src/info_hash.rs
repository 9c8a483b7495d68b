use vstd::prelude::*;
use vstd::string::*;
use sha1::Digest;
use crate::value::{Val, Value, entries_view};
use crate::codec::{decode_error, canon, lemma_canon_wf, decode, decode_spec, enc, encode, ParseError, DEFAULT_MAX_DEPTH};
use crate::metainfo::{find, lookup, lemma_lookup_member, SchemaError};

verus! {

/// The SHA-1 digest of a byte string.
pub uninterp spec fn sha1_of(data: Seq<u8>) -> Seq<u8>;

/// Relies on sha1's `Sha1::digest`: the 20-byte SHA-1 digest of the input.
#[verifier::external_body]
fn sha1_digest(data: &[u8]) -> (r: Vec<u8>)
    ensures
        r@ == sha1_of(data@),
        r@.len() == 20,
{
    sha1::Sha1::digest(data).to_vec()
}

pub open spec fn hex_digit(n: u8) -> char {
    if n < 10 {
        (48 + n) as char
    } else {
        (87 + n) as char
    }
}

/// Two lowercase hex digits per byte, high nibble first.
pub open spec fn hex_text(b: Seq<u8>) -> Seq<char>
    decreases b.len(),
{
    if b.len() == 0 {
        Seq::empty()
    } else {
        seq![hex_digit(b[0] / 16), hex_digit(b[0] % 16)] + hex_text(b.drop_first())
    }
}

/// Relies on hex's `encode`: lowercase digits, two per byte, high nibble first.
#[verifier::external_body]
fn hex_lower(b: &[u8]) -> (r: String)
    ensures
        r@ == hex_text(b@),
{
    hex::encode(b)
}

/// The "info" subtree of a metainfo buffer, exactly as decoded.
pub open spec fn info_subtree(buf: Seq<u8>) -> Option<Val> {
    match decode_spec(buf, DEFAULT_MAX_DEPTH as nat) {
        Some(Val::Dict(d)) => lookup(d, "info".spec_bytes()),
        _ => None,
    }
}

/// The info hash of a metainfo buffer: SHA-1 over the canonical encoding of
/// its "info" subtree.
pub open spec fn info_digest(buf: Seq<u8>) -> Option<Seq<u8>> {
    match info_subtree(buf) {
        Some(v) => Some(sha1_of(enc(v))),
        None => None,
    }
}

/// A torrent's identifier: the raw digest and its hex rendering.
#[derive(Debug, Clone, PartialEq, Eq)]
pub struct InfoHash {
    pub digest: Vec<u8>,
    pub hex: String,
}

#[derive(Debug, Clone, Copy, PartialEq, Eq)]
pub enum LoadError {
    Parse(ParseError),
    Schema(SchemaError),
}

/// Hashes an already decoded "info" value.
pub fn hash_info_value(info: &Value) -> (r: InfoHash)
    ensures
        r.digest@ == sha1_of(enc(canon(info@))),
        r.digest@.len() == 20,
        r.hex@ == hex_text(r.digest@),
{
    let bytes = encode(info);
    let digest = sha1_digest(bytes.as_slice());
    let hex = hex_lower(digest.as_slice());
    InfoHash { digest, hex }
}

/// Decodes `buf` on its own and hashes the canonical re-encoding of its
/// "info" subtree.
pub fn info_hash(buf: &[u8]) -> (r: Result<InfoHash, LoadError>)
    ensures
        match r {
            Ok(h) => info_digest(buf@) == Some(h.digest@) && h.digest@.len() == 20
                && h.hex@ == hex_text(h.digest@),
            Err(e) => info_digest(buf@) is None && match e {
                LoadError::Parse(pe) => decode_spec(buf@, DEFAULT_MAX_DEPTH as nat) is None
                    && pe.kind == decode_error(buf@, DEFAULT_MAX_DEPTH as nat),
                LoadError::Schema(se) => decode_spec(buf@, DEFAULT_MAX_DEPTH as nat) is Some
                    && match decode_spec(buf@, DEFAULT_MAX_DEPTH as nat)->0 {
                        Val::Dict(_) => se == SchemaError::MissingKey("info"),
                        _ => se == SchemaError::NotAMapping("root"),
                    },
            },
        },
{
    let root = match decode(buf, DEFAULT_MAX_DEPTH) {
        Ok(v) => v,
        Err(e) => {
            return Err(LoadError::Parse(e));
        },
    };
    match &root {
        Value::Dict(es) => {
            assert(root@->Dict_0 =~= entries_view(es@));
            match find(es, "info".as_bytes()) {
                Some(info) => {
                    proof {
                        lemma_lookup_member(root@->Dict_0, "info".spec_bytes());
                        lemma_canon_wf(info@);
                    }
                    Ok(hash_info_value(info))
                },
                None => Err(LoadError::Schema(SchemaError::MissingKey("info"))),
            }
        },
        _ => Err(LoadError::Schema(SchemaError::NotAMapping("root"))),
    }
}


/// The info hash is a function of the decoded "info" subtree alone: two
/// buffers whose "info" subtrees decode equal (the same buffer twice, or
/// buffers that differ only outside "info") hash to the same digest.
pub proof fn lemma_hash_stability(b1: Seq<u8>, b2: Seq<u8>)
    requires
        info_subtree(b1) is Some,
        info_subtree(b1) == info_subtree(b2),
    ensures
        info_digest(b1) is Some,
        info_digest(b1) == info_digest(b2),
{
}

} // verus!
