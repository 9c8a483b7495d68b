use vstd::prelude::*;
use vstd::string::*;
use vstd::utf8::*;
use crate::codec::{is_digit, nat_text, push_nat, push_bytes};
use crate::metainfo::utf8_text;
use crate::torrent::Torrent;

verus! {

pub open spec fn is_ascii_bytes(s: Seq<u8>) -> bool {
    forall|i: int| 0 <= i < s.len() ==> #[trigger] s[i] < 128
}

/// Bytes that stay as they are in a URL query: letters, digits and `-._~`.
pub open spec fn unreserved(b: u8) -> bool {
    is_digit(b) || (65 <= b <= 90) || (97 <= b <= 122) || b == 45 || b == 46 || b == 95 || b == 126
}

pub open spec fn hex_upper(n: u8) -> u8 {
    if n < 10 {
        (48 + n) as u8
    } else {
        (55 + n) as u8
    }
}

/// `%` and two uppercase hex digits.
pub open spec fn pct_byte(b: u8) -> Seq<u8> {
    seq![37u8, hex_upper(b / 16), hex_upper(b % 16)]
}

/// Every byte written as `%XX`.
pub open spec fn pct_all(s: Seq<u8>) -> Seq<u8>
    decreases s.len(),
{
    if s.len() == 0 {
        Seq::empty()
    } else {
        pct_byte(s[0]) + pct_all(s.drop_first())
    }
}

/// Unreserved bytes as they are, the others as `%XX`.
pub open spec fn url_text(s: Seq<u8>) -> Seq<u8>
    decreases s.len(),
{
    if s.len() == 0 {
        Seq::empty()
    } else {
        (if unreserved(s[0]) { seq![s[0]] } else { pct_byte(s[0]) }) + url_text(s.drop_first())
    }
}

/// Relies on urlencoding's `encode_binary`: keeps ASCII letters, digits and
/// `-._~`, writes every other byte as `%` and two uppercase hex digits.
#[verifier::external_body]
fn url_encode(b: &[u8]) -> (r: Vec<u8>)
    ensures
        r@ == url_text(b@),
{
    urlencoding::encode_binary(b).into_owned().into_bytes()
}

pub open spec fn hex_val(c: u8) -> int {
    if 48 <= c <= 57 {
        c - 48
    } else if 65 <= c <= 70 {
        c - 55
    } else if 97 <= c <= 102 {
        c - 87
    } else {
        0
    }
}

/// Percent-decoding: `%XX` becomes the byte it names, other bytes stay.
pub open spec fn pct_decode(s: Seq<u8>) -> Seq<u8>
    decreases s.len(),
{
    if s.len() == 0 {
        Seq::empty()
    } else if s[0] == 37 && s.len() >= 3 {
        seq![(hex_val(s[1]) * 16 + hex_val(s[2])) as u8] + pct_decode(s.subrange(3, s.len() as int))
    } else {
        seq![s[0]] + pct_decode(s.drop_first())
    }
}

proof fn lemma_pct_all_concat(a: Seq<u8>, b: Seq<u8>)
    ensures
        pct_all(a + b) == pct_all(a) + pct_all(b),
    decreases a.len(),
{
    if a.len() > 0 {
        assert((a + b).drop_first() =~= a.drop_first() + b);
        lemma_pct_all_concat(a.drop_first(), b);
        assert(pct_all(a + b) =~= pct_all(a) + pct_all(b));
    } else {
        assert(a + b =~= b);
    }
}

proof fn lemma_pct_all_ascii(s: Seq<u8>)
    ensures
        is_ascii_bytes(pct_all(s)),
        pct_all(s).len() == 3 * s.len(),
    decreases s.len(),
{
    if s.len() > 0 {
        lemma_pct_all_ascii(s.drop_first());
    }
}

proof fn lemma_url_text_ascii(s: Seq<u8>)
    ensures
        is_ascii_bytes(url_text(s)),
    decreases s.len(),
{
    if s.len() > 0 {
        lemma_url_text_ascii(s.drop_first());
    }
}

proof fn lemma_nat_text_ascii(n: nat)
    ensures
        is_ascii_bytes(nat_text(n)),
    decreases n,
{
    if n >= 10 {
        lemma_nat_text_ascii(n / 10);
    }
}

proof fn lemma_ascii_valid_utf8(b: Seq<u8>)
    requires
        is_ascii_bytes(b),
    ensures
        valid_utf8(b),
    decreases b.len(),
{
    if b.len() > 0 {
        let x = b[0];
        assert(x & 0x7f == x) by (bit_vector)
            requires x < 128u8;
        let t = b.drop_first();
        assert(pop_first_scalar(b) =~= t);
        lemma_ascii_valid_utf8(t);
    }
}

/// Writes every byte as `%XX`, printable ones included.
pub fn percent_encode_all(b: &[u8]) -> (r: Vec<u8>)
    ensures
        r@ == pct_all(b@),
{
    let mut out: Vec<u8> = Vec::new();
    let mut i: usize = 0;
    while i < b.len()
        invariant
            i <= b@.len(),
            out@ == pct_all(b@.take(i as int)),
        decreases b@.len() - i,
    {
        let x = b[i];
        let hi: u8 = x / 16;
        let lo: u8 = x % 16;
        out.push(37u8);
        out.push(if hi < 10 { 48 + hi } else { 55 + hi });
        out.push(if lo < 10 { 48 + lo } else { 55 + lo });
        proof {
            assert(b@.take(i + 1) =~= b@.take(i as int) + seq![x]);
            lemma_pct_all_concat(b@.take(i as int), seq![x]);
            assert(seq![x].drop_first() =~= Seq::<u8>::empty());
            assert(pct_all(seq![x].drop_first()) == Seq::<u8>::empty());
            assert(pct_all(seq![x]) =~= pct_byte(x) + pct_all(seq![x].drop_first()));
            assert(pct_all(seq![x]) =~= pct_byte(x));
        }
        i = i + 1;
        assert(out@ =~= pct_all(b@.take(i as int)));
    }
    assert(b@.take(i as int) =~= b@);
    out
}

fn decimal(n: u64) -> (r: Vec<u8>)
    ensures
        r@ == nat_text(n as nat),
{
    let mut out: Vec<u8> = Vec::new();
    push_nat(&mut out, n);
    assert(out@ =~= nat_text(n as nat));
    out
}

fn push_valid(out: &mut Vec<u8>, piece: &[u8])
    requires
        valid_utf8(old(out)@),
        valid_utf8(piece@),
    ensures
        final(out)@ == old(out)@ + piece@,
        valid_utf8(final(out)@),
{
    proof {
        valid_utf8_concat(old(out)@, piece@);
    }
    push_bytes(out, piece);
}

/// What a tracker is told a client is doing.
#[derive(Debug, Clone, Copy, PartialEq, Eq)]
pub enum Event {
    Started,
    Stopped,
    Completed,
}

impl Event {
    pub fn text(&self) -> (r: &'static str)
        ensures
            r@ == self.spec_text(),
    {
        match self {
            Event::Started => "started",
            Event::Stopped => "stopped",
            Event::Completed => "completed",
        }
    }

    pub open spec fn spec_text(&self) -> Seq<char> {
        match self {
            Event::Started => "started"@,
            Event::Stopped => "stopped"@,
            Event::Completed => "completed"@,
        }
    }
}

/// The client's side of an announce request.
#[derive(Debug, Clone, PartialEq, Eq)]
pub struct AnnounceParams {
    pub peer_id: Vec<u8>,
    pub port: u16,
    pub uploaded: u64,
    pub downloaded: u64,
    pub left: u64,
    pub compact: bool,
    pub event: Event,
}

#[derive(Debug, Clone, Copy, PartialEq, Eq)]
pub enum ConfigurationError {
    NoAnnounceUrl,
    InvalidAnnounceUrl,
    InvalidInfoHash,
}

/// Whether a text parses as an absolute URL.
pub uninterp spec fn url_parses(s: Seq<char>) -> bool;

/// Relies on reqwest's `Url::parse` (the url crate's parser): whether the
/// text parses as an absolute URL.
#[verifier::external_body]
fn parses_as_url(s: &str) -> (r: bool)
    ensures
        r == url_parses(s@),
{
    reqwest::Url::parse(s).is_ok()
}

/// `&` when the base already holds a query, `?` otherwise.
pub open spec fn query_sep(announce: Seq<char>) -> u8 {
    if encode_utf8(announce).contains(63u8) {
        38u8
    } else {
        63u8
    }
}

fn has_byte(b: &[u8], x: u8) -> (r: bool)
    ensures
        r == b@.contains(x),
{
    let mut i: usize = 0;
    while i < b.len()
        invariant
            i <= b@.len(),
            forall|j: int| 0 <= j < i ==> b@[j] != x,
        decreases b@.len() - i,
    {
        if b[i] == x {
            assert(b@[i as int] == x);
            return true;
        }
        i = i + 1;
    }
    false
}

/// The announce URL: the base, `?` (or `&` after an existing query), then the query, whose `info_hash`
/// value is the raw digest written `%XX` byte for byte and whose other
/// values are percent-encoded as text.
pub open spec fn url_bytes(announce: Seq<char>, digest: Seq<u8>, p: AnnounceParams) -> Seq<u8> {
    encode_utf8(announce) + seq![query_sep(announce)]
        + "info_hash=".spec_bytes() + pct_all(digest)
        + "&peer_id=".spec_bytes() + url_text(p.peer_id@)
        + "&port=".spec_bytes() + nat_text(p.port as nat)
        + "&uploaded=".spec_bytes() + nat_text(p.uploaded as nat)
        + "&downloaded=".spec_bytes() + nat_text(p.downloaded as nat)
        + "&left=".spec_bytes() + nat_text(p.left as nat)
        + "&compact=".spec_bytes() + (if p.compact { "1".spec_bytes() } else { "0".spec_bytes() })
        + "&event=".spec_bytes() + encode_utf8(p.event.spec_text())
}

fn push_text(out: &mut Vec<u8>, t: &str)
    requires
        valid_utf8(old(out)@),
    ensures
        final(out)@ == old(out)@ + t.spec_bytes(),
        valid_utf8(final(out)@),
{
    proof {
        encode_utf8_valid_utf8(t@);
    }
    push_valid(out, t.as_bytes());
}

fn push_ascii(out: &mut Vec<u8>, piece: &[u8])
    requires
        valid_utf8(old(out)@),
        is_ascii_bytes(piece@),
    ensures
        final(out)@ == old(out)@ + piece@,
        valid_utf8(final(out)@),
{
    proof {
        lemma_ascii_valid_utf8(piece@);
    }
    push_valid(out, piece);
}

fn push_sep(out: &mut Vec<u8>, c: u8)
    requires
        valid_utf8(old(out)@),
        c < 128,
    ensures
        final(out)@ == old(out)@ + seq![c],
        valid_utf8(final(out)@),
{
    let q: Vec<u8> = vec![c];
    assert(q@ =~= seq![c]);
    push_ascii(out, q.as_slice());
}

fn push_pct(out: &mut Vec<u8>, b: &[u8])
    requires
        valid_utf8(old(out)@),
    ensures
        final(out)@ == old(out)@ + pct_all(b@),
        valid_utf8(final(out)@),
{
    let v = percent_encode_all(b);
    proof {
        lemma_pct_all_ascii(b@);
    }
    push_ascii(out, v.as_slice());
}

fn push_url_text(out: &mut Vec<u8>, b: &[u8])
    requires
        valid_utf8(old(out)@),
    ensures
        final(out)@ == old(out)@ + url_text(b@),
        valid_utf8(final(out)@),
{
    let v = url_encode(b);
    proof {
        lemma_url_text_ascii(b@);
    }
    push_ascii(out, v.as_slice());
}

fn push_decimal(out: &mut Vec<u8>, n: u64)
    requires
        valid_utf8(old(out)@),
    ensures
        final(out)@ == old(out)@ + nat_text(n as nat),
        valid_utf8(final(out)@),
{
    let v = decimal(n);
    proof {
        lemma_nat_text_ascii(n as nat);
    }
    push_ascii(out, v.as_slice());
}

/// Builds the tracker announce URL of a torrent; fails when the torrent
/// names no announce URL, when that URL does not parse, or when the digest
/// is not 20 bytes long.
pub fn build_announce_url(t: &Torrent, p: &AnnounceParams) -> (r: Result<String, ConfigurationError>)
    ensures
        match r {
            Ok(u) => t.meta.announce is Some && url_parses(t.meta.announce->0@)
                && t.info_hash.digest@.len() == 20
                && u@ == decode_utf8(url_bytes(t.meta.announce->0@, t.info_hash.digest@, *p)),
            Err(e) => (t.meta.announce is None && e == ConfigurationError::NoAnnounceUrl)
                || (t.meta.announce is Some && !url_parses(t.meta.announce->0@)
                    && e == ConfigurationError::InvalidAnnounceUrl)
                || (t.meta.announce is Some && url_parses(t.meta.announce->0@)
                    && t.info_hash.digest@.len() != 20 && e == ConfigurationError::InvalidInfoHash),
        },
{
    let announce = match &t.meta.announce {
        Some(a) => a,
        None => {
            return Err(ConfigurationError::NoAnnounceUrl);
        },
    };
    if !parses_as_url(announce.as_str()) {
        return Err(ConfigurationError::InvalidAnnounceUrl);
    }
    if t.info_hash.digest.len() != 20 {
        return Err(ConfigurationError::InvalidInfoHash);
    }
    let mut out: Vec<u8> = Vec::new();
    assert(valid_utf8(out@));
    push_text(&mut out, announce.as_str());
    let sep: u8 = if has_byte(announce.as_str().as_bytes(), 63u8) { 38u8 } else { 63u8 };
    push_sep(&mut out, sep);
    push_text(&mut out, "info_hash=");
    push_pct(&mut out, t.info_hash.digest.as_slice());
    push_text(&mut out, "&peer_id=");
    push_url_text(&mut out, p.peer_id.as_slice());
    push_text(&mut out, "&port=");
    push_decimal(&mut out, p.port as u64);
    push_text(&mut out, "&uploaded=");
    push_decimal(&mut out, p.uploaded);
    push_text(&mut out, "&downloaded=");
    push_decimal(&mut out, p.downloaded);
    push_text(&mut out, "&left=");
    push_decimal(&mut out, p.left);
    push_text(&mut out, "&compact=");
    if p.compact {
        push_text(&mut out, "1");
    } else {
        push_text(&mut out, "0");
    }
    push_text(&mut out, "&event=");
    push_text(&mut out, p.event.text());
    match utf8_text(out.as_slice()) {
        Some(u) => Ok(u),
        None => Err(ConfigurationError::NoAnnounceUrl),
    }
}

/// Percent-decoding the `%XX` form of a byte string gives back exactly
/// those bytes, printable ones included; the form takes three characters
/// per byte.
pub proof fn lemma_percent_round_trip(h: Seq<u8>)
    ensures
        pct_decode(pct_all(h)) == h,
        pct_all(h).len() == 3 * h.len(),
    decreases h.len(),
{
    lemma_pct_all_ascii(h);
    if h.len() > 0 {
        let x = h[0];
        let t = h.drop_first();
        lemma_percent_round_trip(t);
        let s = pct_all(h);
        assert(s.subrange(3, s.len() as int) =~= pct_all(t));
        let hi = x / 16;
        let lo = x % 16;
        assert(hex_val(hex_upper(hi)) == hi);
        assert(hex_val(hex_upper(lo)) == lo);
        assert(s[0] == 37 && s[1] == hex_upper(hi) && s[2] == hex_upper(lo));
        assert((hi * 16 + lo) as u8 == x);
        assert(pct_decode(s) =~= seq![x] + pct_decode(pct_all(t)));
        assert(h =~= seq![x] + t);
    }
}

} // verus!
