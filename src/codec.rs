use vstd::prelude::*;
use crate::value::{Val, Value, has_key, insert_sorted, entries_view, keys_sorted, dict_insert, dict_has_key, values_view, lemma_insert_sorted, lemma_sorted_unique, lemma_sorted_split, lemma_insert_at_end};

verus! {

pub open spec fn is_digit(b: u8) -> bool {
    48 <= b <= 57
}

/// Decimal text of a natural number, without leading zeros.
pub open spec fn nat_text(n: nat) -> Seq<u8>
    decreases n,
{
    if n < 10 {
        seq![(n + 48) as u8]
    } else {
        nat_text(n / 10) + seq![((n % 10) + 48) as u8]
    }
}

pub open spec fn int_text(n: int) -> Seq<u8> {
    if n < 0 {
        seq![45u8] + nat_text((-n) as nat)
    } else {
        nat_text(n as nat)
    }
}

pub open spec fn enc_str(s: Seq<u8>) -> Seq<u8> {
    nat_text(s.len()) + seq![58u8] + s
}

/// The encoding of a value; mapping entries are written in the order held.
pub open spec fn enc(v: Val) -> Seq<u8>
    decreases v,
{
    match v {
        Val::Int(n) => seq![105u8] + int_text(n) + seq![101u8],
        Val::Str(s) => enc_str(s),
        Val::List(l) => seq![108u8] + enc_list(l) + seq![101u8],
        Val::Dict(d) => seq![100u8] + enc_dict(d) + seq![101u8],
    }
}

pub open spec fn enc_list(l: Seq<Val>) -> Seq<u8>
    decreases l,
{
    if l.len() == 0 {
        Seq::empty()
    } else {
        enc_list(l.drop_last()) + enc(l.last())
    }
}

pub open spec fn enc_dict(d: Seq<(Seq<u8>, Val)>) -> Seq<u8>
    decreases d,
{
    if d.len() == 0 {
        Seq::empty()
    } else {
        enc_dict(d.drop_last()) + enc_str(d.last().0) + enc(d.last().1)
    }
}

pub(crate) fn push_nat(out: &mut Vec<u8>, n: u64)
    ensures
        final(out)@ == old(out)@ + nat_text(n as nat),
    decreases n,
{
    if n >= 10 {
        push_nat(out, n / 10);
    }
    out.push((n % 10) as u8 + 48);
    assert(final(out)@ =~= old(out)@ + nat_text(n as nat));
}

pub(crate) fn push_bytes(out: &mut Vec<u8>, b: &[u8])
    ensures
        final(out)@ == old(out)@ + b@,
{
    let mut i: usize = 0;
    while i < b.len()
        invariant
            i <= b@.len(),
            out@ == old(out)@ + b@.subrange(0, i as int),
        decreases b@.len() - i,
    {
        out.push(b[i]);
        i = i + 1;
        assert(out@ =~= old(out)@ + b@.subrange(0, i as int));
    }
    assert(b@.subrange(0, i as int) =~= b@);
}

fn push_str(out: &mut Vec<u8>, b: &[u8])
    ensures
        final(out)@ == old(out)@ + enc_str(b@),
{
    push_nat(out, b.len() as u64);
    out.push(58u8);
    push_bytes(out, b);
    assert(final(out)@ =~= old(out)@ + enc_str(b@));
}

fn encode_into(v: &Value, out: &mut Vec<u8>)
    ensures
        final(out)@ == old(out)@ + enc(v@),
    decreases v,
{
    match v {
        Value::Integer(n) => {
            out.push(105u8);
            if *n < 0 {
                out.push(45u8);
                let m: u64 = (0i128 - (*n as i128)) as u64;
                push_nat(out, m);
            } else {
                push_nat(out, *n as u64);
            }
            out.push(101u8);
            assert(final(out)@ =~= old(out)@ + enc(v@));
        },
        Value::Bytes(b) => {
            push_str(out, b.as_slice());
        },
        Value::List(items) => {
            out.push(108u8);
            let ghost start = out@;
            let ghost l = v@->List_0;
            assert forall|j: int| 0 <= j < items@.len() implies decreases_to!(v => #[trigger] items@[j]) by {
                assert(decreases_to!(items@ => items@[j]));
                assert(decreases_to!(*items => items@));
                assert(decreases_to!(v => v->List_0));
            }
            let mut i: usize = 0;
            while i < items.len()
                invariant
                    forall|j: int| 0 <= j < items@.len() ==> decreases_to!(v => #[trigger] items@[j]),
                    i <= items@.len(),
                    l.len() == items@.len(),
                    forall|j: int| 0 <= j < items@.len() ==> l[j] == #[trigger] items@[j]@,
                    out@ == start + enc_list(l.subrange(0, i as int)),
                decreases items@.len() - i,
            {
                encode_into(&items[i], out);
                proof {
                    let p = l.subrange(0, i + 1);
                    assert(p.drop_last() =~= l.subrange(0, i as int));
                }
                i = i + 1;
            }
            assert(l.subrange(0, i as int) =~= l);
            out.push(101u8);
            assert(final(out)@ =~= old(out)@ + enc(v@));
        },
        Value::Dict(es) => {
            out.push(100u8);
            let ghost start = out@;
            let ghost d = v@->Dict_0;
            assert forall|j: int| 0 <= j < es@.len() implies decreases_to!(v => #[trigger] es@[j].1) by {
                assert(decreases_to!(es@ => es@[j]));
                assert(decreases_to!(es@[j] => es@[j].1));
                assert(decreases_to!(*es => es@));
                assert(decreases_to!(v => v->Dict_0));
            }
            let mut i: usize = 0;
            while i < es.len()
                invariant
                    forall|j: int| 0 <= j < es@.len() ==> decreases_to!(v => #[trigger] es@[j].1),
                    i <= es@.len(),
                    d.len() == es@.len(),
                    forall|j: int| 0 <= j < es@.len() ==> d[j] == (#[trigger] es@[j].0@, es@[j].1@),
                    out@ == start + enc_dict(d.subrange(0, i as int)),
                decreases es@.len() - i,
            {
                push_str(out, es[i].0.as_slice());
                encode_into(&es[i].1, out);
                proof {
                    let p = d.subrange(0, i + 1);
                    assert(p.drop_last() =~= d.subrange(0, i as int));
                }
                i = i + 1;
            }
            assert(d.subrange(0, i as int) =~= d);
            out.push(101u8);
            assert(final(out)@ =~= old(out)@ + enc(v@));
        },
    }
}

/// The value with every mapping's entries in ascending key order; where a
/// key repeats, its last binding stands.
pub open spec fn canon(v: Val) -> Val
    decreases v,
{
    match v {
        Val::Int(n) => Val::Int(n),
        Val::Str(b) => Val::Str(b),
        Val::List(l) => Val::List(canon_list(l)),
        Val::Dict(e) => Val::Dict(canon_entries(e)),
    }
}

pub open spec fn canon_list(l: Seq<Val>) -> Seq<Val>
    decreases l,
{
    if l.len() == 0 {
        Seq::empty()
    } else {
        canon_list(l.drop_last()).push(canon(l.last()))
    }
}

pub open spec fn canon_entries(e: Seq<(Seq<u8>, Val)>) -> Seq<(Seq<u8>, Val)>
    decreases e,
{
    if e.len() == 0 {
        Seq::empty()
    } else {
        insert_sorted(canon_entries(e.drop_last()), e.last().0, canon(e.last().1))
    }
}

/// A copy of the value with every mapping sorted by key.
pub fn canonical(v: &Value) -> (r: Value)
    ensures
        r@ == canon(v@),
        r@.wf(),
    decreases v,
{
    match v {
        Value::Integer(n) => Value::Integer(*n),
        Value::Bytes(b) => Value::Bytes(b.clone()),
        Value::List(items) => {
            let ghost l = v@->List_0;
            assert forall|j: int| 0 <= j < items@.len() implies decreases_to!(v => #[trigger] items@[j]) by {
                assert(decreases_to!(items@ => items@[j]));
                assert(decreases_to!(*items => items@));
                assert(decreases_to!(v => v->List_0));
            }
            let mut out: Vec<Value> = Vec::new();
            let mut i: usize = 0;
            while i < items.len()
                invariant
                    forall|j: int| 0 <= j < items@.len() ==> decreases_to!(v => #[trigger] items@[j]),
                    i <= items@.len(),
                    l.len() == items@.len(),
                    forall|j: int| 0 <= j < items@.len() ==> l[j] == #[trigger] items@[j]@,
                    values_view(out@) == canon_list(l.subrange(0, i as int)),
                    forall|j: int| 0 <= j < out@.len() ==> (#[trigger] out@[j])@.wf(),
                decreases items@.len() - i,
            {
                let c = canonical(&items[i]);
                proof {
                    let p = l.subrange(0, i + 1);
                    assert(p.drop_last() =~= l.subrange(0, i as int));
                }
                out.push(c);
                assert(values_view(out@) =~= canon_list(l.subrange(0, i + 1)));
                i = i + 1;
            }
            assert(l.subrange(0, i as int) =~= l);
            let r = Value::List(out);
            assert(values_view(out@) =~= r@->List_0);
            r
        },
        Value::Dict(es) => {
            let ghost e = v@->Dict_0;
            assert forall|j: int| 0 <= j < es@.len() implies decreases_to!(v => #[trigger] es@[j].1) by {
                assert(decreases_to!(es@ => es@[j]));
                assert(decreases_to!(es@[j] => es@[j].1));
                assert(decreases_to!(*es => es@));
                assert(decreases_to!(v => v->Dict_0));
            }
            let mut out: Vec<(Vec<u8>, Value)> = Vec::new();
            assert(entries_view(out@) =~= Seq::<(Seq<u8>, Val)>::empty());
            let mut i: usize = 0;
            while i < es.len()
                invariant
                    forall|j: int| 0 <= j < es@.len() ==> decreases_to!(v => #[trigger] es@[j].1),
                    i <= es@.len(),
                    e.len() == es@.len(),
                    forall|j: int| 0 <= j < es@.len() ==> e[j] == (#[trigger] es@[j].0@, es@[j].1@),
                    entries_view(out@) == canon_entries(e.subrange(0, i as int)),
                    keys_sorted(entries_view(out@)),
                    forall|j: int| 0 <= j < out@.len() ==> (#[trigger] out@[j]).1@.wf(),
                decreases es@.len() - i,
            {
                let c = canonical(&es[i].1);
                let k = es[i].0.clone();
                let ghost old_out = out@;
                let ghost kv = k@;
                let ghost cv = c@;
                proof {
                    lemma_insert_sorted(entries_view(old_out), kv, cv);
                    let p = e.subrange(0, i + 1);
                    assert(p.drop_last() =~= e.subrange(0, i as int));
                }
                dict_insert(&mut out, k, c);
                proof {
                    let nv = entries_view(out@);
                    assert forall|j: int| 0 <= j < out@.len() implies (#[trigger] out@[j]).1@.wf() by {
                        assert(nv.contains(nv[j]));
                        if nv[j] != (kv, cv) {
                            let ov = entries_view(old_out);
                            let m = choose|m: int| 0 <= m < ov.len() && ov[m] == nv[j];
                            assert(old_out[m].1@.wf());
                        }
                    }
                }
                i = i + 1;
            }
            assert(e.subrange(0, i as int) =~= e);
            let r = Value::Dict(out);
            assert(entries_view(out@) =~= r@->Dict_0);
            r
        },
    }
}

/// Canonical form leaves a well-formed value as it is.
pub proof fn lemma_canon_wf(v: Val)
    requires
        v.wf(),
    ensures
        canon(v) == v,
    decreases v,
{
    match v {
        Val::List(l) => {
            lemma_canon_list_wf(l);
        },
        Val::Dict(e) => {
            lemma_canon_entries_wf(e);
        },
        _ => {},
    }
}

proof fn lemma_canon_list_wf(l: Seq<Val>)
    requires
        forall|i: int| 0 <= i < l.len() ==> (#[trigger] l[i]).wf(),
    ensures
        canon_list(l) == l,
    decreases l,
{
    if l.len() == 0 {
        assert(canon_list(l) =~= l);
    } else {
        let t = l.drop_last();
        assert forall|i: int| 0 <= i < t.len() implies (#[trigger] t[i]).wf() by {
            assert(t[i] == l[i]);
        }
        lemma_canon_list_wf(t);
        lemma_canon_wf(l.last());
        assert(canon_list(l) =~= l);
    }
}

proof fn lemma_canon_entries_wf(e: Seq<(Seq<u8>, Val)>)
    requires
        keys_sorted(e),
        forall|i: int| 0 <= i < e.len() ==> (#[trigger] e[i]).1.wf(),
    ensures
        canon_entries(e) == e,
    decreases e,
{
    if e.len() == 0 {
        assert(canon_entries(e) =~= e);
    } else {
        let t = e.drop_last();
        let last = seq![e.last()];
        assert(t + last =~= e);
        lemma_sorted_split(t, last);
        assert forall|i: int| 0 <= i < t.len() implies (#[trigger] t[i]).1.wf() by {
            assert(t[i] == e[i]);
        }
        lemma_canon_entries_wf(t);
        lemma_canon_wf(e.last().1);
        lemma_insert_at_end(t, e.last().0, e.last().1);
        assert(t.push((e.last().0, e.last().1)) =~= e);
    }
}

/// Writes the canonical encoding of a value: mappings in ascending key
/// order whatever the order in which their entries are held.
pub fn encode(v: &Value) -> (r: Vec<u8>)
    ensures
        r@ == enc(canon(v@)),
{
    let c = canonical(v);
    let mut out: Vec<u8> = Vec::new();
    encode_into(&c, &mut out);
    assert(out@ =~= enc(c@));
    out
}


/// Canonical determinism: two sorted mappings holding the same entries,
/// however they were built, encode to the same bytes.
pub proof fn lemma_canonical_encoding(d1: Seq<(Seq<u8>, Val)>, d2: Seq<(Seq<u8>, Val)>)
    requires
        keys_sorted(d1),
        keys_sorted(d2),
        forall|e: (Seq<u8>, Val)| d1.contains(e) <==> d2.contains(e),
    ensures
        enc(Val::Dict(d1)) == enc(Val::Dict(d2)),
{
    lemma_sorted_unique(d1, d2);
}

/// Nesting depth that `decode` accepts.
pub const DEFAULT_MAX_DEPTH: usize = 64;

/// Why a buffer failed to decode.
#[derive(Debug, Clone, Copy, PartialEq, Eq)]
pub enum ParseErrorKind {
    UnexpectedEnd,
    UnexpectedByte,
    LeadingZero,
    IntegerOutOfRange,
    LengthPastEnd,
    DuplicateKey,
    TooDeep,
    TrailingData,
}

/// A decode failure and the offset at which it was found.
#[derive(Debug, Clone, Copy, PartialEq, Eq)]
pub struct ParseError {
    pub offset: usize,
    pub kind: ParseErrorKind,
}

pub open spec fn rest(s: Seq<u8>, p: int) -> Seq<u8> {
    s.subrange(p, s.len() as int)
}

/// Number of decimal digits at the start of `s`.
pub open spec fn digit_run(s: Seq<u8>) -> nat
    decreases s.len(),
{
    if s.len() > 0 && is_digit(s[0]) {
        1 + digit_run(s.drop_first())
    } else {
        0
    }
}

pub open spec fn digits_val(t: Seq<u8>) -> nat
    decreases t.len(),
{
    if t.len() == 0 {
        0
    } else {
        digits_val(t.drop_last()) * 10 + (t.last() - 48) as nat
    }
}

/// The decimal number at the start of `s` (no leading zero unless it is `0`):
/// its value and its number of digits.
pub open spec fn parse_nat(s: Seq<u8>) -> Option<(nat, nat)> {
    let c = digit_run(s);
    if c == 0 || (c > 1 && s[0] == 48) {
        None
    } else {
        Some((digits_val(s.take(c as int)), c))
    }
}

/// An integer body after its `i`: optional minus sign, digits, `e`;
/// `-0` is refused and the value must fit 64 signed bits.
pub open spec fn parse_int(s: Seq<u8>) -> Option<(int, nat)> {
    let neg = s.len() > 0 && s[0] == 45;
    let t = if neg { s.drop_first() } else { s };
    match parse_nat(t) {
        None => None,
        Some((n, c)) => {
            let k = if neg { c + 1 } else { c };
            let v = if neg { -n } else { n as int };
            if k < s.len() && s[k as int] == 101 && !(neg && n == 0) && i64::MIN <= v <= i64::MAX {
                Some((v, k + 1))
            } else {
                None
            }
        },
    }
}

/// A byte string: length, `:`, that many bytes.
pub open spec fn parse_str(s: Seq<u8>) -> Option<(Seq<u8>, nat)> {
    match parse_nat(s) {
        None => None,
        Some((n, c)) => if c < s.len() && s[c as int] == 58 && c + 1 + n <= s.len() {
            Some((s.subrange(c + 1 as int, c + 1 + n as int), c + 1 + n))
        } else {
            None
        },
    }
}

/// The value at the start of `s`, containers nested at most `d` deep, and
/// the number of bytes it takes.
pub open spec fn parse(s: Seq<u8>, d: nat) -> Option<(Val, nat)>
    decreases s.len(), 0nat,
{
    if s.len() == 0 {
        None
    } else if s[0] == 105 {
        match parse_int(s.drop_first()) {
            Some((n, c)) => Some((Val::Int(n), c + 1)),
            None => None,
        }
    } else if is_digit(s[0]) {
        match parse_str(s) {
            Some((b, c)) => Some((Val::Str(b), c)),
            None => None,
        }
    } else if s[0] == 108 && d > 0 {
        match parse_items(s.drop_first(), (d - 1) as nat, Seq::empty()) {
            Some((l, c)) => Some((Val::List(l), c + 1)),
            None => None,
        }
    } else if s[0] == 100 && d > 0 {
        match parse_entries(s.drop_first(), (d - 1) as nat, Seq::empty()) {
            Some((e, c)) => Some((Val::Dict(e), c + 1)),
            None => None,
        }
    } else {
        None
    }
}

/// List items up to and including the closing `e`, appended to `acc`.
pub open spec fn parse_items(s: Seq<u8>, d: nat, acc: Seq<Val>) -> Option<(Seq<Val>, nat)>
    decreases s.len(), 1nat,
{
    if s.len() == 0 {
        None
    } else if s[0] == 101 {
        Some((acc, 1))
    } else {
        match parse(s, d) {
            None => None,
            Some((v, c)) => if 0 < c <= s.len() {
                match parse_items(rest(s, c as int), d, acc.push(v)) {
                    Some((l, c2)) => Some((l, c + c2)),
                    None => None,
                }
            } else {
                None
            },
        }
    }
}

/// Mapping entries up to and including the closing `e`, inserted into `acc`
/// in any order; a repeated key is refused.
pub open spec fn parse_entries(s: Seq<u8>, d: nat, acc: Seq<(Seq<u8>, Val)>) -> Option<(Seq<(Seq<u8>, Val)>, nat)>
    decreases s.len(), 1nat,
{
    if s.len() == 0 {
        None
    } else if s[0] == 101 {
        Some((acc, 1))
    } else if !is_digit(s[0]) {
        None
    } else {
        match parse_str(s) {
            None => None,
            Some((k, kc)) => if 0 < kc <= s.len() {
                let r = rest(s, kc as int);
                match parse(r, d) {
                    None => None,
                    Some((v, vc)) => if 0 < vc <= r.len() && !has_key(acc, k) {
                        match parse_entries(rest(r, vc as int), d, insert_sorted(acc, k, v)) {
                            Some((e, c3)) => Some((e, kc + vc + c3)),
                            None => None,
                        }
                    } else {
                        None
                    },
                }
            } else {
                None
            },
        }
    }
}

/// The value that fills the whole buffer.
pub open spec fn decode_spec(s: Seq<u8>, d: nat) -> Option<Val> {
    match parse(s, d) {
        Some((v, c)) => if c == s.len() { Some(v) } else { None },
        None => None,
    }
}

/// Which failure the digits at the start of `s` meet, read against `limit`:
/// no digit, a value above the limit, else a leading zero.
pub open spec fn nat_error(s: Seq<u8>, limit: int) -> ParseErrorKind {
    let c = digit_run(s);
    if c == 0 {
        if s.len() == 0 { ParseErrorKind::UnexpectedEnd } else { ParseErrorKind::UnexpectedByte }
    } else if digits_val(s.take(c as int)) > limit {
        ParseErrorKind::IntegerOutOfRange
    } else {
        ParseErrorKind::LeadingZero
    }
}

pub open spec fn nat_fails(s: Seq<u8>, limit: int) -> bool {
    parse_nat(s) is None || parse_nat(s).unwrap().0 > limit
}

/// The failure of an integer body after its `i`.
pub open spec fn int_error(u: Seq<u8>) -> ParseErrorKind {
    let neg = u.len() > 0 && u[0] == 45;
    let t = if neg { u.drop_first() } else { u };
    let limit: int = if neg { 9223372036854775808 } else { 9223372036854775807 };
    if nat_fails(t, limit) {
        nat_error(t, limit)
    } else {
        let k: int = if neg { parse_nat(t).unwrap().1 + 1int } else { parse_nat(t).unwrap().1 as int };
        if k >= u.len() {
            ParseErrorKind::UnexpectedEnd
        } else if u[k] != 101 {
            ParseErrorKind::UnexpectedByte
        } else {
            ParseErrorKind::LeadingZero
        }
    }
}

/// The failure of a byte string.
pub open spec fn str_error(s: Seq<u8>) -> ParseErrorKind {
    if nat_fails(s, s.len() as int) {
        if nat_error(s, s.len() as int) == ParseErrorKind::IntegerOutOfRange {
            ParseErrorKind::LengthPastEnd
        } else {
            nat_error(s, s.len() as int)
        }
    } else {
        let c = parse_nat(s).unwrap().1 as int;
        if c >= s.len() {
            ParseErrorKind::UnexpectedEnd
        } else if s[c] != 58 {
            ParseErrorKind::UnexpectedByte
        } else {
            ParseErrorKind::LengthPastEnd
        }
    }
}

/// The first failure met in reading a value at the start of `s`.
pub open spec fn parse_error(s: Seq<u8>, d: nat) -> ParseErrorKind
    decreases s.len(), 0nat,
{
    if s.len() == 0 {
        ParseErrorKind::UnexpectedEnd
    } else if s[0] == 105 {
        int_error(s.drop_first())
    } else if is_digit(s[0]) {
        str_error(s)
    } else if s[0] == 108 && d > 0 {
        items_error(s.drop_first(), (d - 1) as nat)
    } else if s[0] == 100 && d > 0 {
        entries_error(s.drop_first(), (d - 1) as nat, Seq::empty())
    } else if s[0] == 108 || s[0] == 100 {
        ParseErrorKind::TooDeep
    } else {
        ParseErrorKind::UnexpectedByte
    }
}

pub open spec fn items_error(s: Seq<u8>, d: nat) -> ParseErrorKind
    decreases s.len(), 1nat,
{
    if s.len() == 0 || s[0] == 101 {
        ParseErrorKind::UnexpectedEnd
    } else {
        match parse(s, d) {
            None => parse_error(s, d),
            Some((v, c)) => if 0 < c <= s.len() {
                items_error(rest(s, c as int), d)
            } else {
                ParseErrorKind::UnexpectedEnd
            },
        }
    }
}

pub open spec fn entries_error(s: Seq<u8>, d: nat, acc: Seq<(Seq<u8>, Val)>) -> ParseErrorKind
    decreases s.len(), 1nat,
{
    if s.len() == 0 || s[0] == 101 {
        ParseErrorKind::UnexpectedEnd
    } else if !is_digit(s[0]) {
        ParseErrorKind::UnexpectedByte
    } else {
        match parse_str(s) {
            None => str_error(s),
            Some((k, kc)) => if 0 < kc <= s.len() {
                let r = rest(s, kc as int);
                match parse(r, d) {
                    None => parse_error(r, d),
                    Some((v, vc)) => if 0 < vc <= r.len() {
                        if has_key(acc, k) {
                            ParseErrorKind::DuplicateKey
                        } else {
                            entries_error(rest(r, vc as int), d, insert_sorted(acc, k, v))
                        }
                    } else {
                        ParseErrorKind::UnexpectedEnd
                    },
                }
            } else {
                ParseErrorKind::UnexpectedEnd
            },
        }
    }
}

/// The failure met in reading a whole buffer as one value.
pub open spec fn decode_error(s: Seq<u8>, d: nat) -> ParseErrorKind {
    if parse(s, d) is None {
        parse_error(s, d)
    } else {
        ParseErrorKind::TrailingData
    }
}

proof fn lemma_digit_run(s: Seq<u8>, k: int)
    requires
        0 <= k <= s.len(),
        forall|j: int| 0 <= j < k ==> is_digit(#[trigger] s[j]),
        k == s.len() || !is_digit(s[k]),
    ensures
        digit_run(s) == k,
    decreases k,
{
    if k > 0 {
        let t = s.drop_first();
        assert forall|j: int| 0 <= j < k - 1 implies is_digit(#[trigger] t[j]) by {
            assert(t[j] == s[j + 1]);
        }
        lemma_digit_run(t, k - 1);
    }
}

proof fn lemma_digit_run_facts(s: Seq<u8>)
    ensures
        digit_run(s) <= s.len(),
        forall|m: int| 0 <= m < digit_run(s) ==> is_digit(#[trigger] s[m]),
        digit_run(s) == s.len() || !is_digit(s[digit_run(s) as int]),
    decreases s.len(),
{
    if s.len() > 0 && is_digit(s[0]) {
        let t = s.drop_first();
        lemma_digit_run_facts(t);
        assert forall|m: int| 0 <= m < digit_run(s) implies is_digit(#[trigger] s[m]) by {
            if m > 0 {
                assert(s[m] == t[m - 1]);
            }
        }
    }
}

proof fn lemma_digits_val_mono(s: Seq<u8>, i: int, j: int)
    requires
        0 <= i <= j <= s.len(),
        forall|m: int| 0 <= m < j ==> is_digit(#[trigger] s[m]),
    ensures
        digits_val(s.take(i)) <= digits_val(s.take(j)),
    decreases j - i,
{
    if i < j {
        lemma_digits_val_mono(s, i, j - 1);
        assert(s.take(j).drop_last() =~= s.take(j - 1));
        let x = digits_val(s.take(j - 1));
        assert(x <= x * 10) by (nonlinear_arith);
    }
}

/// Reads the digits at `pos`, refusing an empty run, a leading zero, or a
/// value above `limit`.
fn read_nat(buf: &[u8], pos: usize, limit: u64) -> (r: Result<(u64, usize), ParseErrorKind>)
    requires
        pos <= buf@.len(),
    ensures
        match r {
            Ok((n, end)) => pos < end <= buf@.len() && n <= limit
                && parse_nat(rest(buf@, pos as int)) == Some((n as nat, (end - pos) as nat)),
            Err(k) => nat_fails(rest(buf@, pos as int), limit as int)
                && k == nat_error(rest(buf@, pos as int), limit as int),
        },
{
    let ghost s = rest(buf@, pos as int);
    let mut i: usize = pos;
    let mut acc: u64 = 0;
    while i < buf.len() && 48 <= buf[i] && buf[i] <= 57
        invariant
            pos <= i <= buf@.len(),
            s == rest(buf@, pos as int),
            acc <= limit,
            forall|m: int| 0 <= m < i - pos ==> is_digit(#[trigger] s[m]),
            acc as nat == digits_val(s.take(i - pos)),
        decreases buf@.len() - i,
    {
        let d: u64 = (buf[i] - 48) as u64;
        proof {
            assert(s[i - pos] == buf@[i as int]);
            assert(s.take(i - pos + 1).drop_last() =~= s.take(i - pos));
        }
        let too_big: bool = if d > limit || acc > limit / 10 {
            true
        } else {
            assert(acc * 10 <= limit) by (nonlinear_arith)
                requires acc <= limit / 10;
            acc * 10 > limit - d
        };
        if too_big {
            proof {
                assert forall|m: int| 0 <= m < i + 1 - pos implies is_digit(#[trigger] s[m]) by {}
                lemma_digit_run_facts(s);
                let e = digit_run(s) as int;
                lemma_digits_val_mono(s, i + 1 - pos, e);
                if acc > limit / 10 {
                    assert(acc * 10 > limit) by (nonlinear_arith)
                        requires acc > limit / 10;
                }
            }
            return Err(ParseErrorKind::IntegerOutOfRange);
        }
        acc = acc * 10 + d;
        i = i + 1;
    }
    proof {
        lemma_digit_run(s, i - pos);
    }
    if i == pos {
        return Err(if i == buf.len() { ParseErrorKind::UnexpectedEnd } else { ParseErrorKind::UnexpectedByte });
    }
    if i - pos > 1 && buf[pos] == 48 {
        assert(s[0] == buf@[pos as int]);
        return Err(ParseErrorKind::LeadingZero);
    }
    Ok((acc, i))
}


pub open spec fn shift<A>(o: Option<(A, nat)>, k: int) -> Option<(A, nat)> {
    match o {
        Some((a, c)) => Some((a, (c + k) as nat)),
        None => None,
    }
}

fn copy_range(buf: &[u8], a: usize, b: usize) -> (r: Vec<u8>)
    requires
        a <= b <= buf@.len(),
    ensures
        r@ == buf@.subrange(a as int, b as int),
{
    let mut out: Vec<u8> = Vec::new();
    let mut i: usize = a;
    while i < b
        invariant
            a <= i <= b <= buf@.len(),
            out@ == buf@.subrange(a as int, i as int),
        decreases b - i,
    {
        out.push(buf[i]);
        i = i + 1;
        assert(out@ =~= buf@.subrange(a as int, i as int));
    }
    out
}

fn decode_str(buf: &[u8], pos: usize) -> (r: Result<(Vec<u8>, usize), ParseError>)
    requires
        pos <= buf@.len(),
    ensures
        match r {
            Ok((b, end)) => pos < end <= buf@.len()
                && parse_str(rest(buf@, pos as int)) == Some((b@, (end - pos) as nat)),
            Err(e) => parse_str(rest(buf@, pos as int)) is None && e.kind == str_error(rest(buf@, pos as int)),
        },
{
    let ghost s = rest(buf@, pos as int);
    let limit: u64 = (buf.len() - pos) as u64;
    match read_nat(buf, pos, limit) {
        Err(ParseErrorKind::IntegerOutOfRange) => Err(ParseError { offset: pos, kind: ParseErrorKind::LengthPastEnd }),
        Err(kind) => Err(ParseError { offset: pos, kind }),
        Ok((n, c_end)) => {
            if c_end >= buf.len() {
                return Err(ParseError { offset: c_end, kind: ParseErrorKind::UnexpectedEnd });
            }
            assert(s[c_end - pos] == buf@[c_end as int]);
            if buf[c_end] != 58 {
                return Err(ParseError { offset: c_end, kind: ParseErrorKind::UnexpectedByte });
            }
            let n_us: usize = n as usize;
            if n_us > buf.len() - c_end - 1 {
                return Err(ParseError { offset: c_end, kind: ParseErrorKind::LengthPastEnd });
            }
            let start: usize = c_end + 1;
            let stop: usize = start + n_us;
            let bytes = copy_range(buf, start, stop);
            assert(bytes@ =~= s.subrange(c_end - pos + 1, c_end - pos + 1 + n));
            Ok((bytes, stop))
        },
    }
}

#[verifier::rlimit(80)]
fn decode_value(buf: &[u8], pos: usize, depth: usize) -> (r: Result<(Value, usize), ParseError>)
    requires
        pos <= buf@.len(),
    ensures
        match r {
            Ok((v, end)) => pos < end <= buf@.len() && v@.wf()
                && parse(rest(buf@, pos as int), depth as nat) == Some((v@, (end - pos) as nat)),
            Err(e) => parse(rest(buf@, pos as int), depth as nat) is None
                && e.kind == parse_error(rest(buf@, pos as int), depth as nat),
        },
    decreases buf@.len() - pos,
{
    let ghost s = rest(buf@, pos as int);
    if pos == buf.len() {
        return Err(ParseError { offset: pos, kind: ParseErrorKind::UnexpectedEnd });
    }
    let b = buf[pos];
    assert(s[0] == b);
    assert(s.drop_first() =~= rest(buf@, pos + 1));
    if b == 105 {
        let body_at: usize = pos + 1;
        let ghost u = rest(buf@, body_at as int);
        let neg: bool = body_at < buf.len() && buf[body_at] == 45;
        if neg {
            assert(u[0] == buf@[body_at as int]);
            assert(u.drop_first() =~= rest(buf@, body_at + 1));
        }
        let digits_at: usize = if neg { body_at + 1 } else { body_at };
        let limit: u64 = if neg { 9223372036854775808u64 } else { 9223372036854775807u64 };
        match read_nat(buf, digits_at, limit) {
            Err(kind) => Err(ParseError { offset: digits_at, kind }),
            Ok((n, end)) => {
                if end >= buf.len() {
                    return Err(ParseError { offset: end, kind: ParseErrorKind::UnexpectedEnd });
                }
                assert(u[end - body_at] == buf@[end as int]);
                if buf[end] != 101 {
                    return Err(ParseError { offset: end, kind: ParseErrorKind::UnexpectedByte });
                }
                if neg && n == 0 {
                    return Err(ParseError { offset: body_at, kind: ParseErrorKind::LeadingZero });
                }
                let val: i64 = if neg { (0i128 - n as i128) as i64 } else { n as i64 };
                Ok((Value::Integer(val), end + 1))
            },
        }
    } else if 48 <= b && b <= 57 {
        match decode_str(buf, pos) {
            Err(e) => Err(e),
            Ok((bytes, end)) => Ok((Value::Bytes(bytes), end)),
        }
    } else if b == 108 && depth > 0 {
        let ghost d = (depth - 1) as nat;
        let mut items: Vec<Value> = Vec::new();
        let mut p: usize = pos + 1;
        assert(values_view(items@) =~= Seq::<Val>::empty());
        loop
            invariant
                pos < p <= buf@.len(),
                s == rest(buf@, pos as int),
                depth > 0,
                d == depth - 1,
                s[0] == 108,
                s.drop_first() == rest(buf@, pos + 1),
                forall|j: int| 0 <= j < items@.len() ==> (#[trigger] items@[j])@.wf(),
                parse_items(rest(buf@, pos + 1), d, Seq::empty())
                    == shift(parse_items(rest(buf@, p as int), d, values_view(items@)), p - pos - 1),
                items_error(rest(buf@, pos + 1), d) == items_error(rest(buf@, p as int), d),
            decreases buf@.len() - p,
        {
            let ghost t = rest(buf@, p as int);
            if p == buf.len() {
                return Err(ParseError { offset: p, kind: ParseErrorKind::UnexpectedEnd });
            }
            assert(t[0] == buf@[p as int]);
            if buf[p] == 101 {
                let v = Value::List(items);
                assert(values_view(items@) =~= v@->List_0);
                return Ok((v, p + 1));
            }
            match decode_value(buf, p, depth - 1) {
                Err(e) => {
                    return Err(e);
                },
                Ok((v, end)) => {
                    proof {
                        assert(rest(t, end - p) =~= rest(buf@, end as int));
                        assert(values_view(items@.push(v)) =~= values_view(items@).push(v@));
                    }
                    items.push(v);
                    p = end;
                },
            }
        }
    } else if b == 100 && depth > 0 {
        let ghost d = (depth - 1) as nat;
        let mut es: Vec<(Vec<u8>, Value)> = Vec::new();
        let mut p: usize = pos + 1;
        assert(entries_view(es@) =~= Seq::<(Seq<u8>, Val)>::empty());
        loop
            invariant
                pos < p <= buf@.len(),
                s == rest(buf@, pos as int),
                depth > 0,
                d == depth - 1,
                s[0] == 100,
                s.drop_first() == rest(buf@, pos + 1),
                keys_sorted(entries_view(es@)),
                forall|j: int| 0 <= j < es@.len() ==> (#[trigger] es@[j]).1@.wf(),
                parse_entries(rest(buf@, pos + 1), d, Seq::empty())
                    == shift(parse_entries(rest(buf@, p as int), d, entries_view(es@)), p - pos - 1),
                entries_error(rest(buf@, pos + 1), d, Seq::empty())
                    == entries_error(rest(buf@, p as int), d, entries_view(es@)),
            decreases buf@.len() - p,
        {
            let ghost t = rest(buf@, p as int);
            if p == buf.len() {
                return Err(ParseError { offset: p, kind: ParseErrorKind::UnexpectedEnd });
            }
            assert(t[0] == buf@[p as int]);
            if buf[p] == 101 {
                let v = Value::Dict(es);
                assert(entries_view(es@) =~= v@->Dict_0);
                return Ok((v, p + 1));
            }
            if !(48 <= buf[p] && buf[p] <= 57) {
                return Err(ParseError { offset: p, kind: ParseErrorKind::UnexpectedByte });
            }
            let (k, kend) = match decode_str(buf, p) {
                Err(e) => {
                    return Err(e);
                },
                Ok(x) => x,
            };
            let ghost r1 = rest(t, kend - p);
            assert(r1 =~= rest(buf@, kend as int));
            let (v, vend) = match decode_value(buf, kend, depth - 1) {
                Err(e) => {
                    return Err(e);
                },
                Ok(x) => x,
            };
            if dict_has_key(&es, k.as_slice()) {
                return Err(ParseError { offset: p, kind: ParseErrorKind::DuplicateKey });
            }
            assert(rest(r1, vend - kend) =~= rest(buf@, vend as int));
            let ghost old_es = es@;
            let ghost kv = k@;
            let ghost vv = v@;
            proof {
                lemma_insert_sorted(entries_view(old_es), kv, vv);
            }
            dict_insert(&mut es, k, v);
            proof {
                let nv = entries_view(es@);
                assert forall|j: int| 0 <= j < es@.len() implies (#[trigger] es@[j]).1@.wf() by {
                    assert(nv.contains(nv[j]));
                    if nv[j] != (kv, vv) {
                        let ov = entries_view(old_es);
                        let m = choose|m: int| 0 <= m < ov.len() && ov[m] == nv[j];
                        assert(old_es[m].1@.wf());
                    }
                }
            }
            p = vend;
        }
    } else {
        if b == 108 || b == 100 {
            Err(ParseError { offset: pos, kind: ParseErrorKind::TooDeep })
        } else {
            Err(ParseError { offset: pos, kind: ParseErrorKind::UnexpectedByte })
        }
    }
}

/// Decodes the value that starts at `offset`, with containers nested at
/// most `max_depth` deep; returns it with the number of bytes it takes.
pub fn decode_at(buf: &[u8], offset: usize, max_depth: usize) -> (r: Result<(Value, usize), ParseError>)
    ensures
        offset > buf@.len() ==> r is Err,
        offset <= buf@.len() ==> match r {
            Ok((v, n)) => v@.wf() && parse(rest(buf@, offset as int), max_depth as nat) == Some((v@, n as nat)),
            Err(e) => parse(rest(buf@, offset as int), max_depth as nat) is None
                && e.kind == parse_error(rest(buf@, offset as int), max_depth as nat),
        },
{
    if offset > buf.len() {
        return Err(ParseError { offset, kind: ParseErrorKind::UnexpectedEnd });
    }
    match decode_value(buf, offset, max_depth) {
        Ok((v, end)) => Ok((v, end - offset)),
        Err(e) => Err(e),
    }
}

/// Decodes a buffer that holds exactly one value.
pub fn decode(buf: &[u8], max_depth: usize) -> (r: Result<Value, ParseError>)
    ensures
        match r {
            Ok(v) => v@.wf() && decode_spec(buf@, max_depth as nat) == Some(v@),
            Err(e) => decode_spec(buf@, max_depth as nat) is None && e.kind == decode_error(buf@, max_depth as nat),
        },
{
    assert(rest(buf@, 0) =~= buf@);
    match decode_value(buf, 0, max_depth) {
        Ok((v, end)) => {
            if end == buf.len() {
                Ok(v)
            } else {
                Err(ParseError { offset: end, kind: ParseErrorKind::TrailingData })
            }
        },
        Err(e) => Err(e),
    }
}


/// Containers nested at most `d` deep.
pub open spec fn within_depth(v: Val, d: nat) -> bool
    decreases v,
{
    match v {
        Val::Int(_) => true,
        Val::Str(_) => true,
        Val::List(l) => d > 0 && forall|i: int| 0 <= i < l.len() ==> within_depth(#[trigger] l[i], (d - 1) as nat),
        Val::Dict(e) => d > 0 && forall|i: int| 0 <= i < e.len() ==> within_depth((#[trigger] e[i]).1, (d - 1) as nat),
    }
}

proof fn lemma_nat_text_facts(n: nat)
    ensures
        nat_text(n).len() > 0,
        forall|j: int| 0 <= j < nat_text(n).len() ==> is_digit(#[trigger] nat_text(n)[j]),
        digits_val(nat_text(n)) == n,
        nat_text(n).len() > 1 ==> nat_text(n)[0] != 48,
        n >= 10 ==> nat_text(n).len() > 1,
    decreases n,
{
    let s = nat_text(n);
    if n < 10 {
        assert(s.drop_last() =~= Seq::<u8>::empty());
        assert(digits_val(Seq::<u8>::empty()) == 0);
        assert(s.last() == (n + 48) as u8);
    } else {
        let t = nat_text(n / 10);
        lemma_nat_text_facts(n / 10);
        assert(s.drop_last() =~= t);
        assert(s.last() == ((n % 10) + 48) as u8);
        assert(n == (n / 10) * 10 + n % 10);
        assert forall|j: int| 0 <= j < s.len() implies is_digit(#[trigger] s[j]) by {
            if j < t.len() {
                assert(s[j] == t[j]);
            }
        }
        assert(s[0] == t[0]);
    }
}

proof fn lemma_parse_nat_text(n: nat, r: Seq<u8>)
    requires
        r.len() == 0 || !is_digit(r[0]),
    ensures
        parse_nat(nat_text(n) + r) == Some((n, nat_text(n).len())),
{
    let t = nat_text(n);
    let s = t + r;
    lemma_nat_text_facts(n);
    assert forall|j: int| 0 <= j < t.len() implies is_digit(#[trigger] s[j]) by {
        assert(s[j] == t[j]);
    }
    if r.len() > 0 {
        assert(s[t.len() as int] == r[0]);
    }
    lemma_digit_run(s, t.len() as int);
    assert(s.take(t.len() as int) =~= t);
}

proof fn lemma_parse_int_text(n: int, r: Seq<u8>)
    requires
        i64::MIN <= n <= i64::MAX,
    ensures
        parse_int(int_text(n) + seq![101u8] + r) == Some((n, int_text(n).len() + 1)),
{
    let s = int_text(n) + seq![101u8] + r;
    if n < 0 {
        let m = (-n) as nat;
        lemma_parse_nat_text(m, seq![101u8] + r);
        assert(s.drop_first() =~= nat_text(m) + (seq![101u8] + r));
        assert(s[nat_text(m).len() + 1 as int] == 101);
    } else {
        let m = n as nat;
        lemma_nat_text_facts(m);
        lemma_parse_nat_text(m, seq![101u8] + r);
        assert(s =~= nat_text(m) + (seq![101u8] + r));
        assert(s[0] == nat_text(m)[0]);
        assert(s[nat_text(m).len() as int] == 101);
    }
}

proof fn lemma_parse_str_enc(b: Seq<u8>, r: Seq<u8>)
    ensures
        parse_str(enc_str(b) + r) == Some((b, enc_str(b).len())),
{
    let t = nat_text(b.len());
    let s = enc_str(b) + r;
    lemma_parse_nat_text(b.len(), seq![58u8] + b + r);
    assert(s =~= t + (seq![58u8] + b + r));
    assert(s[t.len() as int] == 58);
    assert(s.subrange(t.len() + 1 as int, t.len() + 1 + b.len() as int) =~= b);
}

proof fn lemma_enc_first(v: Val)
    ensures
        enc(v).len() > 0,
        enc(v)[0] == 105 || enc(v)[0] == 108 || enc(v)[0] == 100 || is_digit(enc(v)[0]),
{
    if let Val::Str(b) = v {
        lemma_nat_text_facts(b.len());
        assert(enc(v)[0] == nat_text(b.len())[0]);
    }
}

proof fn lemma_enc_list_cons(l: Seq<Val>)
    requires
        l.len() > 0,
    ensures
        enc_list(l) == enc(l[0]) + enc_list(l.drop_first()),
    decreases l.len(),
{
    if l.len() == 1 {
        assert(l.drop_last() =~= Seq::<Val>::empty());
        assert(l.drop_first() =~= Seq::<Val>::empty());
        assert(enc_list(l) =~= enc(l[0]) + enc_list(l.drop_first()));
    } else {
        lemma_enc_list_cons(l.drop_last());
        assert(l.drop_last().drop_first() =~= l.drop_first().drop_last());
        assert(l.drop_first().last() == l.last());
        assert(enc_list(l) =~= enc(l[0]) + enc_list(l.drop_first()));
    }
}

proof fn lemma_enc_dict_cons(e: Seq<(Seq<u8>, Val)>)
    requires
        e.len() > 0,
    ensures
        enc_dict(e) == enc_str(e[0].0) + enc(e[0].1) + enc_dict(e.drop_first()),
    decreases e.len(),
{
    if e.len() == 1 {
        assert(e.drop_last() =~= Seq::<(Seq<u8>, Val)>::empty());
        assert(e.drop_first() =~= Seq::<(Seq<u8>, Val)>::empty());
        assert(enc_dict(e) =~= enc_str(e[0].0) + enc(e[0].1) + enc_dict(e.drop_first()));
    } else {
        lemma_enc_dict_cons(e.drop_last());
        assert(e.drop_last().drop_first() =~= e.drop_first().drop_last());
        assert(e.drop_first().last() == e.last());
        assert(enc_dict(e) =~= enc_str(e[0].0) + enc(e[0].1) + enc_dict(e.drop_first()));
    }
}

proof fn lemma_parse_enc(v: Val, d: nat, r: Seq<u8>)
    requires
        v.wf(),
        within_depth(v, d),
    ensures
        parse(enc(v) + r, d) == Some((v, enc(v).len())),
    decreases v,
{
    let s = enc(v) + r;
    match v {
        Val::Int(n) => {
            assert(s.drop_first() =~= int_text(n) + seq![101u8] + r);
            lemma_parse_int_text(n, r);
        },
        Val::Str(b) => {
            lemma_enc_first(v);
            assert(s[0] == enc(v)[0]);
            lemma_parse_str_enc(b, r);
        },
        Val::List(l) => {
            assert(s.drop_first() =~= enc_list(l) + seq![101u8] + r);
            lemma_parse_items_enc(l, (d - 1) as nat, r, Seq::empty());
            assert(Seq::<Val>::empty() + l =~= l);
        },
        Val::Dict(e) => {
            assert(s.drop_first() =~= enc_dict(e) + seq![101u8] + r);
            assert(Seq::<(Seq<u8>, Val)>::empty() + e =~= e);
            lemma_parse_entries_enc(e, (d - 1) as nat, r, Seq::empty());
        },
    }
}

proof fn lemma_parse_items_enc(l: Seq<Val>, d: nat, r: Seq<u8>, acc: Seq<Val>)
    requires
        forall|i: int| 0 <= i < l.len() ==> (#[trigger] l[i]).wf() && within_depth(l[i], d),
    ensures
        parse_items(enc_list(l) + seq![101u8] + r, d, acc) == Some((acc + l, enc_list(l).len() + 1)),
    decreases l,
{
    let s = enc_list(l) + seq![101u8] + r;
    if l.len() == 0 {
        assert(s =~= seq![101u8] + r);
        assert(acc + l =~= acc);
    } else {
        let t = l.drop_first();
        let tail = enc_list(t) + seq![101u8] + r;
        lemma_enc_list_cons(l);
        assert(s =~= enc(l[0]) + tail);
        lemma_parse_enc(l[0], d, tail);
        lemma_enc_first(l[0]);
        assert(s[0] == enc(l[0])[0]);
        assert(rest(s, enc(l[0]).len() as int) =~= tail);
        assert forall|i: int| 0 <= i < t.len() implies (#[trigger] t[i]).wf() && within_depth(t[i], d) by {
            assert(t[i] == l[i + 1]);
        }
        lemma_parse_items_enc(t, d, r, acc.push(l[0]));
        assert(acc.push(l[0]) + t =~= acc + l);
    }
}

#[verifier::rlimit(40)]
proof fn lemma_parse_entries_enc(e: Seq<(Seq<u8>, Val)>, d: nat, r: Seq<u8>, acc: Seq<(Seq<u8>, Val)>)
    requires
        keys_sorted(acc + e),
        forall|i: int| 0 <= i < e.len() ==> (#[trigger] e[i]).1.wf() && within_depth(e[i].1, d),
    ensures
        parse_entries(enc_dict(e) + seq![101u8] + r, d, acc) == Some((acc + e, enc_dict(e).len() + 1)),
    decreases e,
{
    let s = enc_dict(e) + seq![101u8] + r;
    if e.len() == 0 {
        assert(s =~= seq![101u8] + r);
        assert(acc + e =~= acc);
    } else {
        let k = e[0].0;
        let v = e[0].1;
        let t = e.drop_first();
        let tail = enc_dict(t) + seq![101u8] + r;
        lemma_enc_dict_cons(e);
        assert(s =~= enc_str(k) + (enc(v) + tail));
        lemma_nat_text_facts(k.len());
        assert(s[0] == nat_text(k.len())[0]);
        lemma_parse_str_enc(k, enc(v) + tail);
        let r1 = rest(s, enc_str(k).len() as int);
        assert(r1 =~= enc(v) + tail);
        assert(decreases_to!(e => e[0]));
        lemma_parse_enc(v, d, tail);
        assert(rest(r1, enc(v).len() as int) =~= tail);
        lemma_sorted_split(acc, e);
        lemma_insert_at_end(acc, k, v);
        assert(acc.push(e[0]) + t =~= acc + e);
        assert forall|i: int| 0 <= i < t.len() implies (#[trigger] t[i]).1.wf() && within_depth(t[i].1, d) by {
            assert(t[i] == e[i + 1]);
        }
        lemma_parse_entries_enc(t, d, r, acc.push((k, v)));
    }
}

/// Round trip: a well-formed value whose containers nest at most `d` deep
/// decodes, under that depth limit, from its own encoding.
pub proof fn lemma_round_trip(v: Val, d: nat)
    requires
        v.wf(),
        within_depth(v, d),
    ensures
        decode_spec(enc(v), d) == Some(v),
{
    lemma_parse_enc(v, d, Seq::empty());
    assert(enc(v) + Seq::<u8>::empty() =~= enc(v));
}

} // verus!
