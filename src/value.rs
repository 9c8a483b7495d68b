use vstd::prelude::*;

verus! {

/// The mathematical model of an encoded value.
pub enum Val {
    Int(int),
    Str(Seq<u8>),
    List(Seq<Val>),
    Dict(Seq<(Seq<u8>, Val)>),
}


/// Strict byte-wise lexicographic order on byte strings.
pub open spec fn lex_lt(a: Seq<u8>, b: Seq<u8>) -> bool
    decreases a.len(),
{
    if a.len() == 0 {
        b.len() > 0
    } else if b.len() == 0 {
        false
    } else if a[0] != b[0] {
        a[0] < b[0]
    } else {
        lex_lt(a.drop_first(), b.drop_first())
    }
}

/// Keys strictly ascending, hence unique.
pub open spec fn keys_sorted(d: Seq<(Seq<u8>, Val)>) -> bool {
    forall|i: int, j: int| 0 <= i < j < d.len() ==> lex_lt(#[trigger] d[i].0, #[trigger] d[j].0)
}

impl Val {
    /// Every mapping in the tree keeps its keys in ascending order, and every
    /// integer fits 64 signed bits.
    pub open spec fn wf(self) -> bool
        decreases self,
    {
        match self {
            Val::Int(n) => i64::MIN <= n <= i64::MAX,
            Val::Str(_) => true,
            Val::List(l) => forall|i: int| 0 <= i < l.len() ==> (#[trigger] l[i]).wf(),
            Val::Dict(d) => keys_sorted(d) && forall|i: int| 0 <= i < d.len() ==> (#[trigger] d[i]).1.wf(),
        }
    }
}


/// Index of the first entry whose key is not below `k`.
pub open spec fn key_pos(d: Seq<(Seq<u8>, Val)>, k: Seq<u8>) -> nat
    decreases d.len(),
{
    if d.len() > 0 && lex_lt(d[0].0, k) {
        1 + key_pos(d.drop_first(), k)
    } else {
        0
    }
}

pub open spec fn has_key(d: Seq<(Seq<u8>, Val)>, k: Seq<u8>) -> bool {
    exists|j: int| 0 <= j < d.len() && (#[trigger] d[j]).0 == k
}

/// The mapping with `k` bound to `v`, keeping keys ascending.
pub open spec fn insert_sorted(d: Seq<(Seq<u8>, Val)>, k: Seq<u8>, v: Val) -> Seq<(Seq<u8>, Val)> {
    let p = key_pos(d, k) as int;
    if p < d.len() && d[p].0 == k {
        d.update(p, (k, v))
    } else {
        d.insert(p, (k, v))
    }
}

pub open spec fn entries_view(es: Seq<(Vec<u8>, Value)>) -> Seq<(Seq<u8>, Val)> {
    Seq::new(es.len(), |i: int| (es[i].0@, es[i].1@))
}

pub proof fn lemma_lex_irreflexive(a: Seq<u8>)
    ensures
        !lex_lt(a, a),
    decreases a.len(),
{
    if a.len() > 0 {
        lemma_lex_irreflexive(a.drop_first());
    }
}

pub proof fn lemma_lex_transitive(a: Seq<u8>, b: Seq<u8>, c: Seq<u8>)
    requires
        lex_lt(a, b),
        lex_lt(b, c),
    ensures
        lex_lt(a, c),
    decreases a.len(),
{
    if a.len() > 0 && b.len() > 0 && c.len() > 0 && a[0] == b[0] && b[0] == c[0] {
        lemma_lex_transitive(a.drop_first(), b.drop_first(), c.drop_first());
    }
}

pub proof fn lemma_lex_total(a: Seq<u8>, b: Seq<u8>)
    requires
        a != b,
    ensures
        lex_lt(a, b) || lex_lt(b, a),
    decreases a.len(),
{
    if a.len() > 0 && b.len() > 0 && a[0] == b[0] {
        if a.drop_first() == b.drop_first() {
            assert(a =~= seq![a[0]] + a.drop_first());
            assert(b =~= seq![b[0]] + b.drop_first());
        }
        lemma_lex_total(a.drop_first(), b.drop_first());
    } else if a.len() == 0 && b.len() == 0 {
        assert(a =~= b);
    }
}

pub proof fn lemma_lex_asymmetric(a: Seq<u8>, b: Seq<u8>)
    requires
        lex_lt(a, b),
    ensures
        !lex_lt(b, a),
{
    if lex_lt(b, a) {
        lemma_lex_transitive(a, b, a);
        lemma_lex_irreflexive(a);
    }
}

/// What the position of a key tells about a sorted mapping.
pub proof fn lemma_key_pos(d: Seq<(Seq<u8>, Val)>, k: Seq<u8>)
    requires
        keys_sorted(d),
    ensures
        key_pos(d, k) <= d.len(),
        forall|j: int| 0 <= j < key_pos(d, k) ==> lex_lt(#[trigger] d[j].0, k),
        forall|j: int| key_pos(d, k) <= j < d.len() ==> !lex_lt(#[trigger] d[j].0, k),
        has_key(d, k) <==> (key_pos(d, k) < d.len() && d[key_pos(d, k) as int].0 == k),
    decreases d.len(),
{
    let p = key_pos(d, k) as int;
    if d.len() > 0 && lex_lt(d[0].0, k) {
        let t = d.drop_first();
        assert forall|i: int, j: int| 0 <= i < j < t.len() implies lex_lt(#[trigger] t[i].0, #[trigger] t[j].0) by {
            assert(t[i] == d[i + 1] && t[j] == d[j + 1]);
        }
        lemma_key_pos(t, k);
        assert forall|j: int| 0 <= j < p implies lex_lt(#[trigger] d[j].0, k) by {
            if j > 0 {
                assert(d[j] == t[j - 1]);
            }
        }
        assert forall|j: int| p <= j < d.len() implies !lex_lt(#[trigger] d[j].0, k) by {
            assert(d[j] == t[j - 1]);
        }
    } else {
        assert forall|j: int| p <= j < d.len() implies !lex_lt(#[trigger] d[j].0, k) by {
            if j > 0 && lex_lt(d[j].0, k) {
                lemma_lex_transitive(d[0].0, d[j].0, k);
            }
        }
    }
    if has_key(d, k) {
        let j = choose|j: int| 0 <= j < d.len() && (#[trigger] d[j]).0 == k;
        lemma_lex_irreflexive(k);
        if j > p {
            assert(lex_lt(d[p].0, d[j].0));
        }
    }
}

/// Inserting into a sorted mapping keeps it sorted.
pub proof fn lemma_insert_sorted(d: Seq<(Seq<u8>, Val)>, k: Seq<u8>, v: Val)
    requires
        keys_sorted(d),
    ensures
        keys_sorted(insert_sorted(d, k, v)),
        forall|e: (Seq<u8>, Val)| #[trigger] insert_sorted(d, k, v).contains(e) <==> (e == (k, v) || (d.contains(e) && e.0 != k)),
{
    lemma_key_pos(d, k);
    let p = key_pos(d, k) as int;
    let r = insert_sorted(d, k, v);
    if p < d.len() && d[p].0 == k {
        assert forall|i: int, j: int| 0 <= i < j < r.len() implies lex_lt(#[trigger] r[i].0, #[trigger] r[j].0) by {
            assert(r[i].0 == d[i].0 && r[j].0 == d[j].0);
        }
        assert forall|e: (Seq<u8>, Val)| #[trigger] r.contains(e) <==> (e == (k, v) || (d.contains(e) && e.0 != k)) by {
            if r.contains(e) {
                let j = choose|j: int| 0 <= j < r.len() && r[j] == e;
                if j != p {
                    assert(d[j] == e);
                    if e.0 == k {
                        if j < p { lemma_lex_irreflexive(k); } else { assert(lex_lt(d[p].0, d[j].0)); lemma_lex_irreflexive(k); }
                    }
                }
            }
            if e == (k, v) {
                assert(r[p] == e);
            } else if d.contains(e) && e.0 != k {
                let j = choose|j: int| 0 <= j < d.len() && d[j] == e;
                assert(r[j] == e);
            }
        }
    } else {
        assert forall|i: int, j: int| 0 <= i < j < r.len() implies lex_lt(#[trigger] r[i].0, #[trigger] r[j].0) by {
            if j == p {
                assert(r[i] == d[i]);
            } else if i == p {
                assert(r[j] == d[j - 1]);
                if d[p].0 != k {
                    lemma_lex_total(d[p].0, k);
                }
                if j - 1 > p {
                    lemma_lex_transitive(k, d[p].0, d[j - 1].0);
                }
            } else if i < p && j > p {
                assert(r[i] == d[i] && r[j] == d[j - 1]);
            } else if j < p {
                assert(r[i] == d[i] && r[j] == d[j]);
            } else {
                assert(r[i] == d[i - 1] && r[j] == d[j - 1]);
            }
        }
        assert forall|e: (Seq<u8>, Val)| #[trigger] r.contains(e) <==> (e == (k, v) || (d.contains(e) && e.0 != k)) by {
            if r.contains(e) {
                let j = choose|j: int| 0 <= j < r.len() && r[j] == e;
                if j < p {
                    assert(d[j] == e);
                    lemma_lex_irreflexive(k);
                } else if j > p {
                    assert(d[j - 1] == e);
                    if e.0 == k {
                        assert(has_key(d, k));
                    }
                }
            }
            if e == (k, v) {
                assert(r[p] == e);
            } else if d.contains(e) && e.0 != k {
                let j = choose|j: int| 0 <= j < d.len() && d[j] == e;
                if j < p {
                    assert(r[j] == e);
                } else {
                    assert(r[j + 1] == e);
                }
            }
        }
    }
}


/// Two sorted mappings that hold the same entries are the same sequence.
pub proof fn lemma_sorted_unique(d1: Seq<(Seq<u8>, Val)>, d2: Seq<(Seq<u8>, Val)>)
    requires
        keys_sorted(d1),
        keys_sorted(d2),
        forall|e: (Seq<u8>, Val)| d1.contains(e) <==> d2.contains(e),
    ensures
        d1 == d2,
    decreases d1.len(),
{
    if d1.len() == 0 {
        if d2.len() > 0 {
            assert(d2.contains(d2[0]));
        }
        assert(d1 =~= d2);
    } else {
        assert(d1.contains(d1[0]));
        let j = choose|j: int| 0 <= j < d2.len() && d2[j] == d1[0];
        assert(d2.contains(d2[0]));
        let i = choose|i: int| 0 <= i < d1.len() && d1[i] == d2[0];
        if j > 0 {
            if i > 0 {
                lemma_lex_asymmetric(d2[0].0, d2[j].0);
            } else {
                lemma_lex_irreflexive(d2[0].0);
            }
        }
        let t1 = d1.drop_first();
        let t2 = d2.drop_first();
        assert forall|i: int, j: int| 0 <= i < j < t1.len() implies lex_lt(#[trigger] t1[i].0, #[trigger] t1[j].0) by {
            assert(t1[i] == d1[i + 1] && t1[j] == d1[j + 1]);
        }
        assert forall|i: int, j: int| 0 <= i < j < t2.len() implies lex_lt(#[trigger] t2[i].0, #[trigger] t2[j].0) by {
            assert(t2[i] == d2[i + 1] && t2[j] == d2[j + 1]);
        }
        assert forall|e: (Seq<u8>, Val)| t1.contains(e) <==> t2.contains(e) by {
            if t1.contains(e) {
                let a = choose|a: int| 0 <= a < t1.len() && t1[a] == e;
                assert(d1[a + 1] == e);
                assert(d1.contains(e));
                let b = choose|b: int| 0 <= b < d2.len() && d2[b] == e;
                if b == 0 {
                    lemma_lex_irreflexive(e.0);
                    assert(lex_lt(d1[0].0, d1[a + 1].0));
                }
                assert(t2[b - 1] == e);
            }
            if t2.contains(e) {
                let a = choose|a: int| 0 <= a < t2.len() && t2[a] == e;
                assert(d2[a + 1] == e);
                assert(d2.contains(e));
                let b = choose|b: int| 0 <= b < d1.len() && d1[b] == e;
                if b == 0 {
                    lemma_lex_irreflexive(e.0);
                    assert(lex_lt(d2[0].0, d2[a + 1].0));
                }
                assert(t1[b - 1] == e);
            }
        }
        lemma_sorted_unique(t1, t2);
        assert(d1 =~= seq![d1[0]] + t1);
        assert(d2 =~= seq![d2[0]] + t2);
    }
}

/// Inserting two different keys gives the same mapping in either order.
pub proof fn lemma_insert_commutes(d: Seq<(Seq<u8>, Val)>, k1: Seq<u8>, v1: Val, k2: Seq<u8>, v2: Val)
    requires
        keys_sorted(d),
        k1 != k2,
    ensures
        insert_sorted(insert_sorted(d, k1, v1), k2, v2) == insert_sorted(insert_sorted(d, k2, v2), k1, v1),
{
    let a = insert_sorted(d, k1, v1);
    let b = insert_sorted(d, k2, v2);
    lemma_insert_sorted(d, k1, v1);
    lemma_insert_sorted(d, k2, v2);
    lemma_insert_sorted(a, k2, v2);
    lemma_insert_sorted(b, k1, v1);
    let x = insert_sorted(a, k2, v2);
    let y = insert_sorted(b, k1, v1);
    assert forall|e: (Seq<u8>, Val)| x.contains(e) <==> y.contains(e) by {
        assert(x.contains(e) == (e == (k2, v2) || (a.contains(e) && e.0 != k2)));
        assert(y.contains(e) == (e == (k1, v1) || (b.contains(e) && e.0 != k1)));
        assert(a.contains(e) == (e == (k1, v1) || (d.contains(e) && e.0 != k1)));
        assert(b.contains(e) == (e == (k2, v2) || (d.contains(e) && e.0 != k2)));
    }
    lemma_sorted_unique(x, y);
}


/// A key above every key of a sorted mapping is new and goes at the end.
pub proof fn lemma_insert_at_end(d: Seq<(Seq<u8>, Val)>, k: Seq<u8>, v: Val)
    requires
        keys_sorted(d),
        forall|j: int| 0 <= j < d.len() ==> lex_lt(#[trigger] d[j].0, k),
    ensures
        !has_key(d, k),
        insert_sorted(d, k, v) == d.push((k, v)),
{
    lemma_key_pos(d, k);
    if key_pos(d, k) < d.len() {
        assert(lex_lt(d[key_pos(d, k) as int].0, k));
    }
    if has_key(d, k) {
        lemma_lex_irreflexive(k);
    }
    assert(insert_sorted(d, k, v) =~= d.push((k, v)));
}

/// The entries before a given one in a sorted sequence form a sorted
/// mapping whose keys all lie below its key.
pub proof fn lemma_sorted_split(a: Seq<(Seq<u8>, Val)>, e: Seq<(Seq<u8>, Val)>)
    requires
        keys_sorted(a + e),
        e.len() > 0,
    ensures
        keys_sorted(a),
        forall|j: int| 0 <= j < a.len() ==> lex_lt(#[trigger] a[j].0, e[0].0),
{
    let all = a + e;
    assert forall|i: int, j: int| 0 <= i < j < a.len() implies lex_lt(#[trigger] a[i].0, #[trigger] a[j].0) by {
        assert(a[i] == all[i] && a[j] == all[j]);
    }
    assert forall|j: int| 0 <= j < a.len() implies lex_lt(#[trigger] a[j].0, e[0].0) by {
        assert(a[j] == all[j] && all[a.len() as int] == e[0]);
    }
}

/// A decoded value: an integer, a raw byte string, a list, or a mapping
/// from byte-string keys to values whose entries are kept in ascending
/// byte-wise key order.
#[derive(Debug, PartialEq, Eq)]
pub enum Value {
    Integer(i64),
    Bytes(Vec<u8>),
    List(Vec<Value>),
    Dict(Vec<(Vec<u8>, Value)>),
}

impl Value {
    pub open spec fn view(&self) -> Val
        decreases self,
    {
        match self {
            Value::Integer(n) => Val::Int(*n as int),
            Value::Bytes(b) => Val::Str(b@),
            Value::List(items) => Val::List(
                Seq::new(items@.len(), |i: int| if 0 <= i < items@.len() { items@[i].view() } else { Val::Int(0) }),
            ),
            Value::Dict(es) => Val::Dict(
                Seq::new(es@.len(), |i: int| if 0 <= i < es@.len() { (es@[i].0@, es@[i].1.view()) } else { (Seq::empty(), Val::Int(0)) }),
            ),
        }
    }
}


/// Compares two byte strings in byte-wise lexicographic order.
pub fn bytes_lt(a: &[u8], b: &[u8]) -> (r: bool)
    ensures
        r == lex_lt(a@, b@),
{
    let mut i: usize = 0;
    assert(a@.subrange(0, a@.len() as int) =~= a@);
    assert(b@.subrange(0, b@.len() as int) =~= b@);
    while i < a.len() && i < b.len() && a[i] == b[i]
        invariant
            i <= a@.len(),
            i <= b@.len(),
            lex_lt(a@, b@) == lex_lt(a@.subrange(i as int, a@.len() as int), b@.subrange(i as int, b@.len() as int)),
        decreases a@.len() - i,
    {
        proof {
            let x = a@.subrange(i as int, a@.len() as int);
            let y = b@.subrange(i as int, b@.len() as int);
            assert(x.drop_first() =~= a@.subrange(i + 1, a@.len() as int));
            assert(y.drop_first() =~= b@.subrange(i + 1, b@.len() as int));
        }
        i = i + 1;
    }
    if i == a.len() {
        i < b.len()
    } else if i == b.len() {
        false
    } else {
        a[i] < b[i]
    }
}

/// Position in a sorted mapping at which `k` stands or would stand.
pub fn find_key_pos(d: &Vec<(Vec<u8>, Value)>, k: &[u8]) -> (r: usize)
    requires
        keys_sorted(entries_view(d@)),
    ensures
        r == key_pos(entries_view(d@), k@),
{
    let ghost e = entries_view(d@);
    let mut i: usize = 0;
    assert(e.subrange(0, e.len() as int) =~= e);
    while i < d.len() && bytes_lt(d[i].0.as_slice(), k)
        invariant
            i <= d@.len(),
            e == entries_view(d@),
            key_pos(e, k@) == i + key_pos(e.subrange(i as int, e.len() as int), k@),
        decreases d@.len() - i,
    {
        proof {
            let t = e.subrange(i as int, e.len() as int);
            assert(t.drop_first() =~= e.subrange(i + 1, e.len() as int));
        }
        i = i + 1;
    }
    i
}

/// Binds `k` to `v` in a sorted mapping, replacing an earlier binding of `k`.
pub fn dict_insert(d: &mut Vec<(Vec<u8>, Value)>, k: Vec<u8>, v: Value)
    requires
        keys_sorted(entries_view(old(d)@)),
    ensures
        entries_view(final(d)@) == insert_sorted(entries_view(old(d)@), k@, v@),
        keys_sorted(entries_view(final(d)@)),
{
    let p = find_key_pos(d, k.as_slice());
    proof {
        lemma_key_pos(entries_view(d@), k@);
        lemma_insert_sorted(entries_view(d@), k@, v@);
    }
    let ghost kv = k@;
    let ghost vv = v@;
    if p < d.len() && !bytes_lt(k.as_slice(), d[p].0.as_slice()) {
        proof {
            if d@[p as int].0@ != kv {
                lemma_lex_total(d@[p as int].0@, kv);
            }
        }
        d.remove(p);
        d.insert(p, (k, v));
        assert(entries_view(d@) =~= insert_sorted(entries_view(old(d)@), kv, vv));
    } else {
        proof {
            if p < old(d)@.len() && old(d)@[p as int].0@ == kv {
                lemma_lex_irreflexive(kv);
            }
        }
        d.insert(p, (k, v));
        assert(entries_view(d@) =~= insert_sorted(entries_view(old(d)@), kv, vv));
    }
}


pub open spec fn values_view(items: Seq<Value>) -> Seq<Val> {
    Seq::new(items.len(), |i: int| items[i]@)
}

/// Whether a sorted mapping binds `k`.
pub fn dict_has_key(d: &Vec<(Vec<u8>, Value)>, k: &[u8]) -> (r: bool)
    requires
        keys_sorted(entries_view(d@)),
    ensures
        r == has_key(entries_view(d@), k@),
{
    let p = find_key_pos(d, k);
    proof {
        lemma_key_pos(entries_view(d@), k@);
    }
    if p < d.len() && !bytes_lt(k, d[p].0.as_slice()) {
        proof {
            if d@[p as int].0@ != k@ {
                lemma_lex_total(d@[p as int].0@, k@);
            }
        }
        true
    } else {
        proof {
            if p < d@.len() && d@[p as int].0@ == k@ {
                lemma_lex_irreflexive(k@);
            }
        }
        false
    }
}

} // verus!
