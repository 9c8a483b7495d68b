use vstd::prelude::*;
use crate::codec::{decode_error, decode, decode_spec, DEFAULT_MAX_DEPTH};
use crate::info_hash::{info_digest, info_hash, hex_text, LoadError, InfoHash};
use crate::metainfo::{meta_error, meta_val, project_metainfo, Metainfo};

verus! {

/// The typed fields of a metainfo buffer.
pub open spec fn meta_of(buf: Seq<u8>) -> Option<crate::metainfo::MetaModel> {
    match decode_spec(buf, DEFAULT_MAX_DEPTH as nat) {
        Some(v) => meta_val(v),
        None => None,
    }
}

/// A loaded torrent: its typed fields and its info hash, fixed at load.
#[derive(Debug, Clone, PartialEq, Eq)]
pub struct Torrent {
    pub meta: Metainfo,
    pub info_hash: InfoHash,
}

/// Decodes and projects a metainfo buffer, then hashes its "info" subtree
/// in a second, independent decode.
pub fn load_torrent(buf: &[u8]) -> (r: Result<Torrent, LoadError>)
    ensures
        match r {
            Ok(t) => meta_of(buf@) == Some(t.meta@) && info_digest(buf@) == Some(t.info_hash.digest@)
                && t.info_hash.digest@.len() == 20
                && t.info_hash.hex@ == hex_text(t.info_hash.digest@),
            Err(e) => meta_of(buf@) is None && match e {
                LoadError::Parse(pe) => decode_spec(buf@, DEFAULT_MAX_DEPTH as nat) is None
                    && pe.kind == decode_error(buf@, DEFAULT_MAX_DEPTH as nat),
                LoadError::Schema(se) => decode_spec(buf@, DEFAULT_MAX_DEPTH as nat) is Some
                    && meta_error(decode_spec(buf@, DEFAULT_MAX_DEPTH as nat)->0) == se,
            },
        },
{
    let root = match decode(buf, DEFAULT_MAX_DEPTH) {
        Ok(v) => v,
        Err(e) => {
            return Err(LoadError::Parse(e));
        },
    };
    let meta = match project_metainfo(&root) {
        Ok(m) => m,
        Err(e) => {
            return Err(LoadError::Schema(e));
        },
    };
    let hash = match info_hash(buf) {
        Ok(h) => h,
        Err(e) => {
            return Err(e);
        },
    };
    Ok(Torrent { meta, info_hash: hash })
}

} // verus!
