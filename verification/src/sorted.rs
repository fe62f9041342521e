//! The model of the store's contents: a finite map from keys to values, and
//! its listing in key order.

use crate::order::{
    key_le, key_lt, lemma_key_lt_transitive, lemma_key_order_exclusive, lemma_key_order_total,
};
use crate::text::has_substring;
use vstd::prelude::*;

verus! {

/// One entry: a key and its value.
pub type Entry = (Seq<char>, Seq<char>);

/// The keys of `s` rise strictly from each entry to the next.
pub open spec fn strictly_sorted(s: Seq<Entry>) -> bool {
    forall|i: int, j: int|
        #![trigger s[i], s[j]]
        0 <= i < j < s.len() ==> key_lt(s[i].0, s[j].0)
}

/// Some entry of `s` has the key `k`.
pub open spec fn has_key(s: Seq<Entry>, k: Seq<char>) -> bool {
    exists|i: int| 0 <= i < s.len() && #[trigger] s[i].0 == k
}

/// The map that results from putting the entries of `s` one after another
/// into an empty map; of two entries with one key the later one stays.
pub open spec fn map_of(s: Seq<Entry>) -> Map<Seq<char>, Seq<char>>
    decreases s.len(),
{
    if s.len() == 0 {
        Map::empty()
    } else {
        map_of(s.drop_last()).insert(s.last().0, s.last().1)
    }
}

/// `p` is the place of key `k` in `s`: every entry before it has a smaller
/// key and every entry from it on a greater one.
pub open spec fn is_gap(s: Seq<Entry>, k: Seq<char>, p: int) -> bool {
    &&& 0 <= p <= s.len()
    &&& forall|i: int| 0 <= i < p ==> key_lt(#[trigger] s[i].0, k)
    &&& forall|i: int| p <= i < s.len() ==> key_lt(k, #[trigger] s[i].0)
}

/// The keys of the map are the keys of the entries, and they are finitely
/// many.
pub proof fn lemma_map_of_dom(s: Seq<Entry>)
    ensures
        map_of(s).dom().finite(),
        forall|k: Seq<char>|
            #![trigger map_of(s).dom().contains(k)]
            #![trigger has_key(s, k)]
            map_of(s).dom().contains(k) <==> has_key(s, k),
    decreases s.len(),
{
    if s.len() > 0 {
        let t = s.drop_last();
        lemma_map_of_dom(t);
        assert forall|k: Seq<char>| map_of(s).dom().contains(k) <==> has_key(s, k) by {
            if has_key(t, k) {
                let i = choose|i: int| 0 <= i < t.len() && #[trigger] t[i].0 == k;
                assert(s[i].0 == k);
            }
            if k == s.last().0 {
                assert(s[s.len() - 1].0 == k);
            }
            if has_key(s, k) {
                let i = choose|i: int| 0 <= i < s.len() && #[trigger] s[i].0 == k;
                if i < t.len() {
                    assert(t[i].0 == k);
                }
            }
        }
    }
}

/// In a sorted listing every entry is what the map holds under its key.
pub proof fn lemma_map_of_entry(s: Seq<Entry>, i: int)
    requires
        strictly_sorted(s),
        0 <= i < s.len(),
    ensures
        map_of(s).dom().contains(s[i].0),
        map_of(s)[s[i].0] == s[i].1,
    decreases s.len(),
{
    let t = s.drop_last();
    if i < s.len() - 1 {
        assert(strictly_sorted(t)) by {
            assert forall|a: int, b: int| 0 <= a < b < t.len() implies key_lt(
                #[trigger] t[a].0,
                #[trigger] t[b].0,
            ) by {
                assert(key_lt(s[a].0, s[b].0));
            }
        }
        lemma_map_of_entry(t, i);
        assert(key_lt(s[i].0, s[s.len() - 1].0));
        lemma_key_order_exclusive(s[i].0, s.last().0);
        assert(t[i] == s[i]);
    }
}

/// A sorted listing has as many entries as its map has keys.
pub proof fn lemma_map_of_len(s: Seq<Entry>)
    requires
        strictly_sorted(s),
    ensures
        map_of(s).dom().finite(),
        map_of(s).len() == s.len(),
    decreases s.len(),
{
    lemma_map_of_dom(s);
    if s.len() > 0 {
        let t = s.drop_last();
        lemma_sorted_prefix(s, s.len() - 1);
        assert(s.subrange(0, s.len() - 1) == t);
        lemma_map_of_len(t);
        lemma_map_of_dom(t);
        if has_key(t, s.last().0) {
            let i = choose|i: int| 0 <= i < t.len() && #[trigger] t[i].0 == s.last().0;
            assert(key_lt(s[i].0, s[s.len() - 1].0));
            lemma_key_order_exclusive(s[i].0, s.last().0);
        }
    }
}

/// Every part of a sorted listing is sorted.
pub proof fn lemma_sorted_prefix(s: Seq<Entry>, n: int)
    requires
        strictly_sorted(s),
        0 <= n <= s.len(),
    ensures
        strictly_sorted(s.subrange(0, n)),
{
    let t = s.subrange(0, n);
    assert forall|a: int, b: int| 0 <= a < b < t.len() implies key_lt(
        #[trigger] t[a].0,
        #[trigger] t[b].0,
    ) by {
        assert(key_lt(s[a].0, s[b].0));
    }
}

/// Putting an entry into its gap keeps the listing sorted and puts the entry
/// into the map.
pub proof fn lemma_insert_at_gap(s: Seq<Entry>, p: int, k: Seq<char>, v: Seq<char>)
    requires
        strictly_sorted(s),
        is_gap(s, k, p),
    ensures
        strictly_sorted(s.insert(p, (k, v))),
        map_of(s.insert(p, (k, v))) == map_of(s).insert(k, v),
{
    let t = s.insert(p, (k, v));
    assert forall|a: int, b: int| 0 <= a < b < t.len() implies key_lt(
        #[trigger] t[a].0,
        #[trigger] t[b].0,
    ) by {
        if b < p {
            assert(t[a] == s[a] && t[b] == s[b]);
            assert(key_lt(s[a].0, s[b].0));
        } else if b == p {
            assert(t[a] == s[a]);
            assert(key_lt(s[a].0, k));
        } else if a < p {
            assert(t[a] == s[a] && t[b] == s[b - 1]);
            assert(key_lt(s[a].0, k));
            assert(key_lt(k, s[b - 1].0));
            lemma_key_lt_transitive(s[a].0, k, s[b - 1].0);
        } else if a == p {
            assert(t[b] == s[b - 1]);
            assert(key_lt(k, s[b - 1].0));
        } else {
            assert(t[a] == s[a - 1] && t[b] == s[b - 1]);
            assert(key_lt(s[a - 1].0, s[b - 1].0));
        }
    }
    lemma_map_of_dom(s);
    lemma_map_of_dom(t);
    let m = map_of(s).insert(k, v);
    assert forall|x: Seq<char>| map_of(t).dom().contains(x) <==> m.dom().contains(x) by {
        if has_key(t, x) {
            let i = choose|i: int| 0 <= i < t.len() && #[trigger] t[i].0 == x;
            if i < p {
                assert(s[i].0 == x);
            } else if i > p {
                assert(s[i - 1].0 == x);
            }
        }
        if has_key(s, x) {
            let i = choose|i: int| 0 <= i < s.len() && #[trigger] s[i].0 == x;
            if i < p {
                assert(t[i].0 == x);
            } else {
                assert(t[i + 1].0 == x);
            }
        }
        if x == k {
            assert(t[p].0 == x);
        }
    }
    assert forall|x: Seq<char>| map_of(t).dom().contains(x) implies #[trigger] map_of(t)[x]
        == m[x] by {
        let i = choose|i: int| 0 <= i < t.len() && #[trigger] t[i].0 == x;
        lemma_map_of_entry(t, i);
        if i < p {
            assert(t[i] == s[i]);
            lemma_map_of_entry(s, i);
            lemma_key_order_exclusive(s[i].0, k);
        } else if i > p {
            assert(t[i] == s[i - 1]);
            lemma_map_of_entry(s, i - 1);
            lemma_key_order_exclusive(k, s[i - 1].0);
        }
    }
    assert(map_of(t) =~= m);
}

/// Giving an entry a new value keeps the listing sorted and puts the value
/// into the map.
pub proof fn lemma_update_at(s: Seq<Entry>, p: int, v: Seq<char>)
    requires
        strictly_sorted(s),
        0 <= p < s.len(),
    ensures
        strictly_sorted(s.update(p, (s[p].0, v))),
        map_of(s.update(p, (s[p].0, v))) == map_of(s).insert(s[p].0, v),
{
    let k = s[p].0;
    let t = s.update(p, (k, v));
    assert forall|a: int, b: int| 0 <= a < b < t.len() implies key_lt(
        #[trigger] t[a].0,
        #[trigger] t[b].0,
    ) by {
        assert(key_lt(s[a].0, s[b].0));
    }
    lemma_map_of_dom(s);
    lemma_map_of_dom(t);
    let m = map_of(s).insert(k, v);
    assert forall|x: Seq<char>| map_of(t).dom().contains(x) <==> m.dom().contains(x) by {
        if has_key(t, x) {
            let i = choose|i: int| 0 <= i < t.len() && #[trigger] t[i].0 == x;
            assert(s[i].0 == x);
        }
        if has_key(s, x) {
            let i = choose|i: int| 0 <= i < s.len() && #[trigger] s[i].0 == x;
            assert(t[i].0 == x);
        }
        if x == k {
            assert(t[p].0 == x);
        }
    }
    assert forall|x: Seq<char>| map_of(t).dom().contains(x) implies #[trigger] map_of(t)[x]
        == m[x] by {
        let i = choose|i: int| 0 <= i < t.len() && #[trigger] t[i].0 == x;
        lemma_map_of_entry(t, i);
        if i != p {
            assert(t[i] == s[i]);
            lemma_map_of_entry(s, i);
            if i < p {
                assert(key_lt(s[i].0, s[p].0));
                lemma_key_order_exclusive(s[i].0, k);
            } else {
                assert(key_lt(s[p].0, s[i].0));
                lemma_key_order_exclusive(k, s[i].0);
            }
        }
    }
    assert(map_of(t) =~= m);
}

/// Taking an entry out keeps the listing sorted and takes its key out of the
/// map.
pub proof fn lemma_remove_at(s: Seq<Entry>, p: int)
    requires
        strictly_sorted(s),
        0 <= p < s.len(),
    ensures
        strictly_sorted(s.remove(p)),
        map_of(s.remove(p)) == map_of(s).remove(s[p].0),
{
    let k = s[p].0;
    let t = s.remove(p);
    assert forall|a: int, b: int| 0 <= a < b < t.len() implies key_lt(
        #[trigger] t[a].0,
        #[trigger] t[b].0,
    ) by {
        let a0 = if a < p { a } else { a + 1 };
        let b0 = if b < p { b } else { b + 1 };
        assert(t[a] == s[a0] && t[b] == s[b0]);
        assert(key_lt(s[a0].0, s[b0].0));
    }
    lemma_map_of_dom(s);
    lemma_map_of_dom(t);
    let m = map_of(s).remove(k);
    assert forall|x: Seq<char>| map_of(t).dom().contains(x) <==> m.dom().contains(x) by {
        if has_key(t, x) {
            let i = choose|i: int| 0 <= i < t.len() && #[trigger] t[i].0 == x;
            let i0 = if i < p { i } else { i + 1 };
            assert(s[i0].0 == x);
            if i0 < p {
                assert(key_lt(s[i0].0, s[p].0));
                lemma_key_order_exclusive(s[i0].0, k);
            } else {
                assert(key_lt(s[p].0, s[i0].0));
                lemma_key_order_exclusive(k, s[i0].0);
            }
        }
        if has_key(s, x) && x != k {
            let i = choose|i: int| 0 <= i < s.len() && #[trigger] s[i].0 == x;
            if i < p {
                assert(t[i].0 == x);
            } else {
                assert(t[i - 1].0 == x);
            }
        }
    }
    assert forall|x: Seq<char>| map_of(t).dom().contains(x) implies #[trigger] map_of(t)[x]
        == m[x] by {
        let i = choose|i: int| 0 <= i < t.len() && #[trigger] t[i].0 == x;
        lemma_map_of_entry(t, i);
        let i0 = if i < p { i } else { i + 1 };
        assert(t[i] == s[i0]);
        lemma_map_of_entry(s, i0);
    }
    assert(map_of(t) =~= m);
}

/// A map has at most one sorted listing.
pub proof fn lemma_sorted_unique(a: Seq<Entry>, b: Seq<Entry>)
    requires
        strictly_sorted(a),
        strictly_sorted(b),
        map_of(a) == map_of(b),
    ensures
        a == b,
    decreases a.len(),
{
    lemma_map_of_len(a);
    lemma_map_of_len(b);
    if a.len() == 0 {
        assert(a =~= b);
    } else {
        let n = a.len() - 1;
        lemma_map_of_dom(a);
        lemma_map_of_dom(b);
        lemma_map_of_entry(a, n);
        lemma_map_of_entry(b, n);
        let j = choose|j: int| 0 <= j < b.len() && #[trigger] b[j].0 == a[n].0;
        let i = choose|i: int| 0 <= i < a.len() && #[trigger] a[i].0 == b[n].0;
        if j < n {
            assert(key_lt(b[j].0, b[n].0));
            lemma_key_order_exclusive(b[j].0, b[n].0);
            if i < n {
                assert(key_lt(a[i].0, a[n].0));
            }
            assert(false);
        }
        assert(a[n] == b[n]);
        lemma_remove_at(a, n);
        lemma_remove_at(b, n);
        assert(a.remove(n) =~= a.drop_last());
        assert(b.remove(n) =~= b.drop_last());
        lemma_sorted_unique(a.drop_last(), b.drop_last());
        assert(a =~= a.drop_last().push(a[n]));
        assert(b =~= b.drop_last().push(b[n]));
    }
}

/// The entries of `m` listed in key order.
pub open spec fn in_key_order(m: Map<Seq<char>, Seq<char>>) -> Seq<Entry> {
    choose|s: Seq<Entry>| strictly_sorted(s) && map_of(s) == m
}

/// A sorted listing is the listing in key order of its own map.
pub proof fn lemma_in_key_order_of(s: Seq<Entry>)
    requires
        strictly_sorted(s),
    ensures
        in_key_order(map_of(s)) == s,
{
    lemma_sorted_unique(in_key_order(map_of(s)), s);
}

/// A key that a sorted listing does not hold has a gap in it.
pub proof fn lemma_gap_exists(s: Seq<Entry>, k: Seq<char>)
    requires
        strictly_sorted(s),
        !has_key(s, k),
    ensures
        exists|p: int| is_gap(s, k, p),
    decreases s.len(),
{
    if s.len() == 0 {
        assert(is_gap(s, k, 0));
    } else {
        let n = s.len() - 1;
        let t = s.drop_last();
        lemma_key_order_total(s[n].0, k);
        assert(s[n].0 != k);
        if key_lt(s[n].0, k) {
            assert forall|i: int| 0 <= i < s.len() implies key_lt(#[trigger] s[i].0, k) by {
                if i < n {
                    assert(key_lt(s[i].0, s[n].0));
                    lemma_key_lt_transitive(s[i].0, s[n].0, k);
                }
            }
            assert(is_gap(s, k, s.len() as int));
        } else {
            lemma_sorted_prefix(s, n);
            assert(s.subrange(0, n) == t);
            if has_key(t, k) {
                let i = choose|i: int| 0 <= i < t.len() && #[trigger] t[i].0 == k;
                assert(s[i].0 == k);
            }
            lemma_gap_exists(t, k);
            let p = choose|p: int| is_gap(t, k, p);
            assert forall|i: int| 0 <= i < p implies key_lt(#[trigger] s[i].0, k) by {
                assert(t[i] == s[i]);
            }
            assert forall|i: int| p <= i < s.len() implies key_lt(k, #[trigger] s[i].0) by {
                if i < n {
                    assert(t[i] == s[i]);
                }
            }
            assert(is_gap(s, k, p));
        }
    }
}

/// Every finite map has a sorted listing.
pub proof fn lemma_listing_exists(m: Map<Seq<char>, Seq<char>>)
    requires
        m.dom().finite(),
    ensures
        exists|s: Seq<Entry>| strictly_sorted(s) && map_of(s) == m,
    decreases m.dom().len(),
{
    if m.dom().len() == 0 {
        let s = Seq::<Entry>::empty();
        assert(m.dom() =~= Set::<Seq<char>>::empty());
        assert(map_of(s) =~= m);
        assert(strictly_sorted(s));
    } else {
        let k = m.dom().choose();
        let rest = m.remove(k);
        lemma_listing_exists(rest);
        let t = choose|t: Seq<Entry>| strictly_sorted(t) && map_of(t) == rest;
        lemma_map_of_dom(t);
        lemma_gap_exists(t, k);
        let p = choose|p: int| is_gap(t, k, p);
        lemma_insert_at_gap(t, p, k, m[k]);
        let s = t.insert(p, (k, m[k]));
        assert(map_of(s) =~= m);
    }
}

/// The listing in key order of a finite map is sorted and holds exactly the
/// entries of the map.
pub proof fn lemma_in_key_order(m: Map<Seq<char>, Seq<char>>)
    requires
        m.dom().finite(),
    ensures
        strictly_sorted(in_key_order(m)),
        map_of(in_key_order(m)) == m,
        in_key_order(m).len() == m.len(),
{
    lemma_listing_exists(m);
    lemma_map_of_len(in_key_order(m));
}

/// A key that has a gap in a sorted listing is not in its map.
pub proof fn lemma_gap_absent(s: Seq<Entry>, k: Seq<char>, p: int)
    requires
        is_gap(s, k, p),
    ensures
        !map_of(s).dom().contains(k),
        map_of(s).remove(k) == map_of(s),
{
    lemma_map_of_dom(s);
    if has_key(s, k) {
        let i = choose|i: int| 0 <= i < s.len() && #[trigger] s[i].0 == k;
        if i < p {
            assert(key_lt(s[i].0, k));
        } else {
            assert(key_lt(k, s[i].0));
        }
        lemma_key_order_exclusive(k, k);
    }
    assert(map_of(s).remove(k) =~= map_of(s));
}

/// The entries whose key lies between `start` and `end`, both included.
pub open spec fn within(start: Seq<char>, end: Seq<char>) -> spec_fn(Entry) -> bool {
    |e: Entry| key_le(start, e.0) && key_le(e.0, end)
}

/// The entries whose key holds `needle`.
pub open spec fn key_has(needle: Seq<char>) -> spec_fn(Entry) -> bool {
    |e: Entry| has_substring(e.0, needle)
}

/// The entries whose value holds `needle`.
pub open spec fn value_has(needle: Seq<char>) -> spec_fn(Entry) -> bool {
    |e: Entry| has_substring(e.1, needle)
}

/// The entries of `m` with a key from `start` to `end`, in key order.  There
/// are none where `end` sorts before `start`.
pub open spec fn range_of(m: Map<Seq<char>, Seq<char>>, start: Seq<char>, end: Seq<char>) -> Seq<
    Entry,
> {
    in_key_order(m).filter(within(start, end))
}

/// The keys of `m` that hold `needle`, in key order.
pub open spec fn keys_of(m: Map<Seq<char>, Seq<char>>, needle: Seq<char>) -> Seq<Seq<char>> {
    in_key_order(m).filter(key_has(needle)).map_values(|e: Entry| e.0)
}

/// The values of `m` that hold `needle`, in the order of their keys.
pub open spec fn values_of(m: Map<Seq<char>, Seq<char>>, needle: Seq<char>) -> Seq<Seq<char>> {
    in_key_order(m).filter(value_has(needle)).map_values(|e: Entry| e.1)
}

/// Where exactly the entries from `lo` up to `hi` pass a test, they are what
/// the test keeps.
pub proof fn lemma_filter_run(s: Seq<Entry>, p: spec_fn(Entry) -> bool, lo: int, hi: int)
    requires
        0 <= lo <= hi <= s.len(),
        forall|j: int| 0 <= j < s.len() ==> (p(#[trigger] s[j]) <==> lo <= j < hi),
    ensures
        s.filter(p) == s.subrange(lo, hi),
    decreases s.len(),
{
    reveal(Seq::filter);
    if s.len() > 0 {
        let n = s.len() - 1;
        let t = s.drop_last();
        let lo1 = if lo < n { lo } else { n };
        let hi1 = if hi < n { hi } else { n };
        assert forall|j: int| 0 <= j < t.len() implies (p(#[trigger] t[j]) <==> lo1 <= j < hi1) by {
            assert(t[j] == s[j]);
        }
        lemma_filter_run(t, p, lo1, hi1);
        if p(s[n]) {
            assert(s.subrange(lo, hi) =~= t.subrange(lo1, hi1).push(s[n]));
        } else {
            assert(s.subrange(lo, hi) =~= t.subrange(lo1, hi1));
        }
    } else {
        assert(s.subrange(lo, hi) =~= s);
    }
}

} // verus!
