//! Text keys in the order that `str` compares them, and the maps keyed by
//! text that are kept in that order, as a `BTreeMap<String, _>` iterates.
use vstd::prelude::*;
use crate::text::{str_chars, str_eq};

verus! {

/// `a` sorts before `b`: the first differing character decides by its code
/// point, and a proper prefix sorts first. On UTF-8 this is the byte order
/// by which `str` compares.
pub open spec fn text_lt(a: Seq<char>, b: Seq<char>) -> bool
    decreases a.len(),
{
    if b.len() == 0 {
        false
    } else if a.len() == 0 {
        true
    } else if a[0] != b[0] {
        a[0] < b[0]
    } else {
        text_lt(a.skip(1), b.skip(1))
    }
}

/// The order is strict: no text sorts before itself, and of two texts at
/// most one sorts first.
pub proof fn lemma_text_lt_asymmetric(a: Seq<char>, b: Seq<char>)
    ensures
        text_lt(a, b) ==> !text_lt(b, a),
    decreases a.len(),
{
    if a.len() > 0 && b.len() > 0 && a[0] == b[0] {
        lemma_text_lt_asymmetric(a.skip(1), b.skip(1));
    }
}

/// The order is transitive.
pub proof fn lemma_text_lt_transitive(a: Seq<char>, b: Seq<char>, c: Seq<char>)
    requires
        text_lt(a, b),
        text_lt(b, c),
    ensures
        text_lt(a, c),
    decreases a.len(),
{
    if a.len() > 0 && a[0] == b[0] && b[0] == c[0] {
        lemma_text_lt_transitive(a.skip(1), b.skip(1), c.skip(1));
    }
}

/// The order is total: of two different texts one sorts first.
pub proof fn lemma_text_lt_total(a: Seq<char>, b: Seq<char>)
    requires
        a != b,
    ensures
        text_lt(a, b) || text_lt(b, a),
    decreases a.len(),
{
    if a.len() > 0 && b.len() > 0 {
        if a[0] == b[0] {
            if a.skip(1) == b.skip(1) {
                assert(a =~= seq![a[0]] + a.skip(1));
                assert(b =~= seq![b[0]] + b.skip(1));
            }
            lemma_text_lt_total(a.skip(1), b.skip(1));
        }
    } else if a.len() == 0 && b.len() == 0 {
        assert(a =~= b);
    }
}

/// Whether `a` sorts before `b`.
pub fn text_less(a: &str, b: &str) -> (r: bool)
    ensures
        r == text_lt(a@, b@),
{
    let x = str_chars(a);
    let y = str_chars(b);
    let mut i: usize = 0;
    assert(a@.skip(0) =~= a@ && b@.skip(0) =~= b@);
    while i < x.len() && i < y.len()
        invariant
            i <= x@.len(),
            i <= y@.len(),
            x@ == a@,
            y@ == b@,
            text_lt(a@, b@) == text_lt(a@.skip(i as int), b@.skip(i as int)),
        decreases x.len() - i,
    {
        proof {
            assert(a@.skip(i as int)[0] == x@[i as int]);
            assert(b@.skip(i as int)[0] == y@[i as int]);
            assert(a@.skip(i as int).skip(1) =~= a@.skip(i + 1));
            assert(b@.skip(i as int).skip(1) =~= b@.skip(i + 1));
        }
        if x[i] != y[i] {
            return x[i] < y[i];
        }
        i += 1;
    }
    i < y.len()
}

/// A vector of strings as values.
pub open spec fn texts_view(v: Seq<String>) -> Seq<Seq<char>> {
    v.map_values(|t: String| t@)
}

/// `x` added to a set of texts kept in ascending order, as a
/// `BTreeSet<String>` iterates.
pub open spec fn text_set_insert(s: Seq<Seq<char>>, x: Seq<char>) -> Seq<Seq<char>>
    decreases s.len(),
{
    if s.len() == 0 {
        seq![x]
    } else if s[0] == x {
        s
    } else if text_lt(x, s[0]) {
        seq![x] + s
    } else {
        seq![s[0]] + text_set_insert(s.skip(1), x)
    }
}

/// Adds `x` to a set of strings kept in ascending order.
pub fn text_set_add(v: &mut Vec<String>, x: String)
    ensures
        texts_view(final(v)@) == text_set_insert(texts_view(old(v)@), x@),
{
    let ghost o = texts_view(v@);
    let mut i: usize = 0;
    proof {
        assert(o.skip(0) =~= o);
        assert(o.take(0) + o =~= o);
    }
    while i < v.len()
        invariant
            i <= v@.len(),
            v@ == old(v)@,
            o == texts_view(v@),
            text_set_insert(o, x@) == o.take(i as int) + text_set_insert(o.skip(i as int), x@),
        decreases v@.len() - i,
    {
        proof {
            assert(o[i as int] == v@[i as int]@);
            assert(o.skip(i as int)[0] == o[i as int]);
            assert(o.skip(i as int).skip(1) =~= o.skip(i + 1));
            assert(o.take(i + 1) =~= o.take(i as int) + seq![o[i as int]]);
        }
        if str_eq(v[i].as_str(), x.as_str()) {
            assert(o.take(i as int) + o.skip(i as int) =~= o);
            return;
        }
        if text_less(x.as_str(), v[i].as_str()) {
            let ghost xv = x@;
            v.insert(i, x);
            assert(texts_view(v@) =~= o.take(i as int) + (seq![xv] + o.skip(i as int)));
            return;
        }
        i += 1;
    }
    let ghost xv = x@;
    v.push(x);
    assert(o.skip(o.len() as int) =~= Seq::<Seq<char>>::empty());
    assert(o.take(o.len() as int) =~= o);
    assert(texts_view(v@) =~= o.take(o.len() as int) + seq![xv]);
}

/// Texts strictly ascending, as a `BTreeSet` holds them.
pub open spec fn texts_ascending(s: Seq<Seq<char>>) -> bool {
    forall|i: int, j: int| 0 <= i < j < s.len() ==> text_lt(#[trigger] s[i], #[trigger] s[j])
}

/// Adding a text keeps a set strictly ascending.
pub proof fn lemma_set_insert_ascending(s: Seq<Seq<char>>, x: Seq<char>)
    requires
        texts_ascending(s),
    ensures
        texts_ascending(text_set_insert(s, x)),
        forall|i: int| 0 <= i < text_set_insert(s, x).len() ==>
            #[trigger] text_set_insert(s, x)[i] == x || s.contains(text_set_insert(s, x)[i]),
    decreases s.len(),
{
    let t = text_set_insert(s, x);
    if s.len() == 0 {
    } else if s[0] == x {
        assert forall|i: int| 0 <= i < t.len() implies #[trigger] t[i] == x || s.contains(t[i]) by {
            assert(t[i] == s[i]);
        }
    } else if text_lt(x, s[0]) {
        assert forall|i: int, j: int| 0 <= i < j < t.len() implies text_lt(#[trigger] t[i], #[trigger] t[j]) by {
            assert(t[j] == s[j - 1]);
            if i > 0 {
                assert(t[i] == s[i - 1]);
            } else if j > 1 {
                assert(text_lt(s[0], s[j - 1]));
                lemma_text_lt_transitive(x, s[0], s[j - 1]);
            }
        }
        assert forall|i: int| 0 <= i < t.len() implies #[trigger] t[i] == x || s.contains(t[i]) by {
            if i > 0 {
                assert(t[i] == s[i - 1]);
            }
        }
    } else {
        let r = s.skip(1);
        assert forall|i: int, j: int| 0 <= i < j < r.len() implies text_lt(#[trigger] r[i], #[trigger] r[j]) by {
            assert(r[i] == s[i + 1] && r[j] == s[j + 1]);
        }
        lemma_set_insert_ascending(r, x);
        let tr = text_set_insert(r, x);
        assert(t =~= seq![s[0]] + tr);
        lemma_text_lt_total(x, s[0]);
        assert forall|i: int, j: int| 0 <= i < j < t.len() implies text_lt(#[trigger] t[i], #[trigger] t[j]) by {
            if i > 0 {
                assert(t[i] == tr[i - 1] && t[j] == tr[j - 1]);
            } else {
                assert(t[j] == tr[j - 1]);
                if tr[j - 1] != x {
                    assert(r.contains(tr[j - 1]));
                    let m = choose|m: int| 0 <= m < r.len() && r[m] == tr[j - 1];
                    assert(r[m] == s[m + 1]);
                    assert(text_lt(s[0], s[m + 1]));
                }
            }
        }
        assert forall|i: int| 0 <= i < t.len() implies #[trigger] t[i] == x || s.contains(t[i]) by {
            if i > 0 {
                assert(t[i] == tr[i - 1]);
                if tr[i - 1] != x {
                    assert(r.contains(tr[i - 1]));
                    let m = choose|m: int| 0 <= m < r.len() && r[m] == tr[i - 1];
                    assert(s[m + 1] == r[m]);
                }
            } else {
                assert(s[0] == t[0]);
            }
        }
    }
}

/// A vector of keyed entries as values.
pub open spec fn keyed_view<V: View>(v: Seq<(String, V)>) -> Seq<(Seq<char>, V::V)> {
    v.map_values(|e: (String, V)| (e.0@, e.1@))
}

/// Keys strictly ascending, as a `BTreeMap` holds them.
pub open spec fn keys_ascending<V>(s: Seq<(Seq<char>, V)>) -> bool {
    forall|i: int, j: int| 0 <= i < j < s.len() ==> text_lt(#[trigger] s[i].0, #[trigger] s[j].0)
}

/// Key `k` set to `v` in a map kept in ascending key order: an entry with
/// key `k` is replaced, else the entry goes before the first larger key.
pub open spec fn text_map_put<V>(s: Seq<(Seq<char>, V)>, k: Seq<char>, v: V) -> Seq<(Seq<char>, V)>
    decreases s.len(),
{
    if s.len() == 0 {
        seq![(k, v)]
    } else if s[0].0 == k {
        seq![(k, v)] + s.skip(1)
    } else if text_lt(k, s[0].0) {
        seq![(k, v)] + s
    } else {
        seq![s[0]] + text_map_put(s.skip(1), k, v)
    }
}

/// The value of key `k` in a map kept in ascending key order; the search
/// stops at the first larger key.
pub open spec fn text_map_get<V>(s: Seq<(Seq<char>, V)>, k: Seq<char>) -> Option<V>
    decreases s.len(),
{
    if s.len() == 0 {
        None
    } else if s[0].0 == k {
        Some(s[0].1)
    } else if text_lt(k, s[0].0) {
        None
    } else {
        text_map_get(s.skip(1), k)
    }
}

/// Reading a key after setting one: the key set gives the new value, every
/// other key what it gave before.
pub proof fn lemma_put_get<V>(s: Seq<(Seq<char>, V)>, k2: Seq<char>, v: V, k: Seq<char>)
    ensures
        text_map_get(text_map_put(s, k2, v), k) == (if k == k2 { Some(v) } else { text_map_get(s, k) }),
    decreases s.len(),
{
    let t = text_map_put(s, k2, v);
    if s.len() == 0 {
        if k != k2 {
            assert(t.skip(1) =~= Seq::<(Seq<char>, V)>::empty());
            assert(text_map_get(t.skip(1), k) is None);
        }
    } else if s[0].0 == k2 {
        assert(t.skip(1) =~= s.skip(1));
        if k != k2 && text_lt(k, k2) {
            assert(t[0].0 == k2);
        }
    } else if text_lt(k2, s[0].0) {
        assert(t.skip(1) =~= s);
        if k != k2 && text_lt(k, k2) {
            lemma_text_lt_transitive(k, k2, s[0].0);
            if s[0].0 == k {
                lemma_text_lt_asymmetric(k, k2);
            }
        }
    } else {
        assert(t[0] == s[0]);
        assert(t.skip(1) =~= text_map_put(s.skip(1), k2, v));
        lemma_put_get(s.skip(1), k2, v, k);
    }
}

/// Setting a key keeps the keys strictly ascending.
pub proof fn lemma_put_ascending<V>(s: Seq<(Seq<char>, V)>, k: Seq<char>, v: V)
    requires
        keys_ascending(s),
    ensures
        keys_ascending(text_map_put(s, k, v)),
        forall|i: int| 0 <= i < text_map_put(s, k, v).len() ==>
            #[trigger] text_map_put(s, k, v)[i].0 == k || s.contains(text_map_put(s, k, v)[i]),
    decreases s.len(),
{
    let t = text_map_put(s, k, v);
    if s.len() == 0 {
    } else if s[0].0 == k {
        assert forall|i: int, j: int| 0 <= i < j < t.len() implies text_lt(#[trigger] t[i].0, #[trigger] t[j].0) by {
            assert(t[j] == s[j]);
            if i > 0 {
                assert(t[i] == s[i]);
            } else {
                assert(s[0].0 == t[0].0);
            }
        }
        assert forall|i: int| 0 <= i < t.len() implies #[trigger] t[i].0 == k || s.contains(t[i]) by {
            if i > 0 {
                assert(t[i] == s[i]);
            }
        }
    } else if text_lt(k, s[0].0) {
        assert forall|i: int, j: int| 0 <= i < j < t.len() implies text_lt(#[trigger] t[i].0, #[trigger] t[j].0) by {
            assert(t[j] == s[j - 1]);
            if i > 0 {
                assert(t[i] == s[i - 1]);
            } else if j > 1 {
                assert(text_lt(s[0].0, s[j - 1].0));
                lemma_text_lt_transitive(k, s[0].0, s[j - 1].0);
            }
        }
        assert forall|i: int| 0 <= i < t.len() implies #[trigger] t[i].0 == k || s.contains(t[i]) by {
            if i > 0 {
                assert(t[i] == s[i - 1]);
            }
        }
    } else {
        let r = s.skip(1);
        assert forall|i: int, j: int| 0 <= i < j < r.len() implies text_lt(#[trigger] r[i].0, #[trigger] r[j].0) by {
            assert(r[i] == s[i + 1] && r[j] == s[j + 1]);
        }
        lemma_put_ascending(r, k, v);
        let tr = text_map_put(r, k, v);
        assert(t =~= seq![s[0]] + tr);
        lemma_text_lt_total(k, s[0].0);
        assert forall|i: int, j: int| 0 <= i < j < t.len() implies text_lt(#[trigger] t[i].0, #[trigger] t[j].0) by {
            if i > 0 {
                assert(t[i] == tr[i - 1] && t[j] == tr[j - 1]);
            } else {
                assert(t[j] == tr[j - 1]);
                if tr[j - 1].0 != k {
                    assert(s.contains(tr[j - 1]) || r.contains(tr[j - 1]));
                    assert(r.contains(tr[j - 1]));
                    let m = choose|m: int| 0 <= m < r.len() && r[m] == tr[j - 1];
                    assert(r[m] == s[m + 1]);
                    assert(text_lt(s[0].0, s[m + 1].0));
                }
            }
        }
        assert forall|i: int| 0 <= i < t.len() implies #[trigger] t[i].0 == k || s.contains(t[i]) by {
            if i > 0 {
                assert(t[i] == tr[i - 1]);
                if tr[i - 1].0 != k {
                    assert(r.contains(tr[i - 1]));
                    let m = choose|m: int| 0 <= m < r.len() && r[m] == tr[i - 1];
                    assert(s[m + 1] == r[m]);
                }
            } else {
                assert(s[0] == t[0]);
            }
        }
    }
}

/// The search for `k` passes every entry before position `i` when none of
/// them has key `k` or a larger one.
pub proof fn lemma_slot_prefix<V>(s: Seq<(Seq<char>, V)>, i: int, k: Seq<char>, v: V)
    requires
        0 <= i <= s.len(),
        forall|j: int| 0 <= j < i ==> #[trigger] s[j].0 != k && !text_lt(k, s[j].0),
    ensures
        text_map_put(s, k, v) == s.take(i) + text_map_put(s.skip(i), k, v),
        text_map_get(s, k) == text_map_get(s.skip(i), k),
    decreases i,
{
    if i == 0 {
        assert(s.skip(0) =~= s);
        assert(s.take(0) + s =~= s);
    } else {
        let r = s.skip(1);
        assert forall|j: int| 0 <= j < i - 1 implies #[trigger] r[j].0 != k && !text_lt(k, r[j].0) by {
            assert(r[j] == s[j + 1]);
        }
        lemma_slot_prefix(r, i - 1, k, v);
        assert(s[0].0 != k && !text_lt(k, s[0].0));
        assert(r.skip(i - 1) =~= s.skip(i));
        assert(seq![s[0]] + r.take(i - 1) =~= s.take(i));
    }
}

/// Where key `k` stands, or would be inserted, in a keyed vector: every
/// entry before the returned position has a smaller or unrelated key that
/// the search passes; the flag tells whether the position holds `k`.
pub fn text_slot<V: View>(v: &Vec<(String, V)>, k: &str) -> (r: (usize, bool))
    ensures
        r.0 <= v@.len(),
        forall|j: int| 0 <= j < r.0 ==> #[trigger] keyed_view(v@)[j].0 != k@ && !text_lt(k@, keyed_view(v@)[j].0),
        r.1 ==> r.0 < v@.len() && keyed_view(v@)[r.0 as int].0 == k@,
        !r.1 && r.0 < v@.len() ==> keyed_view(v@)[r.0 as int].0 != k@ && text_lt(k@, keyed_view(v@)[r.0 as int].0),
{
    let ghost kv = keyed_view(v@);
    let mut i: usize = 0;
    while i < v.len()
        invariant
            i <= v@.len(),
            kv == keyed_view(v@),
            forall|j: int| 0 <= j < i ==> #[trigger] kv[j].0 != k@ && !text_lt(k@, kv[j].0),
        decreases v.len() - i,
    {
        assert(kv[i as int].0 == v@[i as int].0@);
        if str_eq(v[i].0.as_str(), k) {
            return (i, true);
        }
        if text_less(k, v[i].0.as_str()) {
            return (i, false);
        }
        i += 1;
    }
    (i, false)
}

/// Sets key `k` to `value` in a vector kept in ascending key order.
pub fn text_map_set<V: View>(v: &mut Vec<(String, V)>, k: String, value: V)
    ensures
        keyed_view(final(v)@) == text_map_put(keyed_view(old(v)@), k@, value@),
{
    let ghost kv = keyed_view(v@);
    let (i, found) = text_slot(v, k.as_str());
    proof {
        lemma_slot_prefix(kv, i as int, k@, value@);
    }
    if found {
        proof {
            assert(kv.skip(i as int)[0] == kv[i as int]);
        }
        v.set(i, (k, value));
        assert(keyed_view(v@) =~= kv.take(i as int) + (seq![(k@, value@)] + kv.skip(i as int).skip(1)));
    } else {
        proof {
            if i < kv.len() {
                assert(kv.skip(i as int)[0] == kv[i as int]);
            } else {
                assert(kv.skip(i as int) =~= Seq::<(Seq<char>, V::V)>::empty());
            }
        }
        v.insert(i, (k, value));
        assert(keyed_view(v@) =~= kv.take(i as int) + (seq![(k@, value@)] + kv.skip(i as int)));
    }
}

/// The value of key `k` in a vector kept in ascending key order.
pub fn text_map_lookup<V: View + Copy>(v: &Vec<(String, V)>, k: &str) -> (r: Option<V>)
    ensures
        match text_map_get(keyed_view(v@), k@) {
            Some(x) => r matches Some(y) && y@ == x,
            None => r is None,
        },
{
    let ghost kv = keyed_view(v@);
    let (i, found) = text_slot(v, k);
    proof {
        lemma_slot_prefix(kv, i as int, k@, arbitrary());
        if i < kv.len() {
            assert(kv.skip(i as int)[0] == kv[i as int]);
        } else {
            assert(kv.skip(i as int) =~= Seq::<(Seq<char>, V::V)>::empty());
        }
    }
    if found {
        Some(v[i].1)
    } else {
        None
    }
}

} // verus!
