//! Bodies are matched between the world that writes a timeline and the world
//! that plays it by a 64-bit key: rows are put in ascending key order, equal
//! keys keeping the order in which the world listed them.

use vstd::prelude::*;

verus! {

/// Row `a` comes before row `b`: a smaller key, or an equal key listed earlier.
pub open spec fn key_before(keys: Seq<u64>, a: int, b: int) -> bool {
    keys[a] < keys[b] || (keys[a] == keys[b] && a < b)
}

/// `order` lists every row index once, in ascending key order, ties kept in
/// their listed order.
pub open spec fn is_stable_order(keys: Seq<u64>, order: Seq<usize>) -> bool {
    &&& order.len() == keys.len()
    &&& forall|i: int| 0 <= i < order.len() ==> (#[trigger] order[i]) < keys.len()
    &&& forall|k: int| 0 <= k < keys.len() ==> #[trigger] order.contains(k as usize)
    &&& forall|i: int, j: int|
        0 <= i < j < order.len() ==> key_before(keys, #[trigger] order[i] as int, #[trigger] order[j] as int)
}

/// The stable ascending order of the rows (unique: see `law_stable_order_unique`).
pub open spec fn stable_order(keys: Seq<u64>) -> Seq<usize> {
    choose|o: Seq<usize>| is_stable_order(keys, o)
}

proof fn lemma_orders_agree_up_to(keys: Seq<u64>, o1: Seq<usize>, o2: Seq<usize>, k: int)
    requires
        is_stable_order(keys, o1),
        is_stable_order(keys, o2),
        0 <= k <= o1.len(),
    ensures
        forall|i: int| 0 <= i < k ==> o1[i] == o2[i],
    decreases k,
{
    if k > 0 {
        lemma_orders_agree_up_to(keys, o1, o2, k - 1);
        let i = k - 1;
        let a = o1[i];
        let b = o2[i];
        if a != b {
            let bi: int = b as int;
            assert(0 <= bi < keys.len());
            assert(o1.contains(bi as usize));
            let j = choose|j: int| 0 <= j < o1.len() && o1[j] == b;
            if j < i {
                assert(o2[j] == b);
                assert(key_before(keys, o2[j] as int, o2[i] as int));
            }
            assert(j > i);
            assert(key_before(keys, a as int, b as int));
            let ai: int = a as int;
            assert(0 <= ai < keys.len());
            assert(o2.contains(ai as usize));
            let m = choose|m: int| 0 <= m < o2.len() && o2[m] == a;
            if m < i {
                assert(o1[m] == a);
                assert(key_before(keys, o1[m] as int, o1[i] as int));
            }
            assert(m > i);
            assert(key_before(keys, b as int, a as int));
        }
    }
}

/// There is only one stable ascending order of a list of keys: the world
/// that writes a timeline and the world that plays it, given the same keys
/// in the same listing, put the rows in the same places.
pub proof fn law_stable_order_unique(keys: Seq<u64>, o1: Seq<usize>, o2: Seq<usize>)
    requires
        is_stable_order(keys, o1),
        is_stable_order(keys, o2),
    ensures
        o1 == o2,
{
    lemma_orders_agree_up_to(keys, o1, o2, o1.len() as int);
    assert(o1 =~= o2);
}

/// The stable ascending order of `keys`, by insertion.
pub fn stable_order_by_key(keys: &Vec<u64>) -> (order: Vec<usize>)
    ensures
        is_stable_order(keys@, order@),
        order@ == stable_order(keys@),
{
    let n = keys.len();
    let mut order: Vec<usize> = Vec::new();
    let mut i: usize = 0;
    while i < n
        invariant
            n == keys.len(),
            i <= n,
            order.len() == i,
            forall|q: int| 0 <= q < i ==> (#[trigger] order@[q]) < i,
            forall|k: int| 0 <= k < i ==> #[trigger] order@.contains(k as usize),
            forall|a: int, b: int|
                0 <= a < b < i ==> key_before(keys@, #[trigger] order@[a] as int, #[trigger] order@[b] as int),
        decreases n - i,
    {
        let mut p: usize = 0;
        while p < order.len() && keys[order[p]] <= keys[i]
            invariant
                n == keys.len(),
                i < n,
                order.len() == i,
                p <= order.len(),
                forall|q: int| 0 <= q < i ==> (#[trigger] order@[q]) < i,
                forall|q: int| 0 <= q < p ==> keys@[#[trigger] order@[q] as int] <= keys@[i as int],
            decreases order.len() - p,
        {
            p += 1;
        }
        let ghost old_order = order@;
        order.insert(p, i);
        proof {
            let new_order = order@;
            assert(new_order == old_order.insert(p as int, i));
            assert forall|q: int| 0 <= q < i + 1 implies (#[trigger] new_order[q]) < i + 1 by {
                if q < p {
                    assert(new_order[q] == old_order[q]);
                } else if q > p {
                    assert(new_order[q] == old_order[q - 1]);
                }
            }
            assert forall|k: int| 0 <= k < i + 1 implies #[trigger] new_order.contains(k as usize) by {
                if k == i {
                    assert(new_order[p as int] == i);
                } else {
                    assert(old_order.contains(k as usize));
                    let w = choose|w: int| 0 <= w < old_order.len() && old_order[w] == k as usize;
                    if w < p {
                        assert(new_order[w] == k as usize);
                    } else {
                        assert(new_order[w + 1] == k as usize);
                    }
                }
            }
            assert forall|a: int, b: int| 0 <= a < b < i + 1 implies key_before(
                keys@,
                #[trigger] new_order[a] as int,
                #[trigger] new_order[b] as int,
            ) by {
                if b < p {
                    assert(new_order[a] == old_order[a] && new_order[b] == old_order[b]);
                } else if b == p {
                    assert(new_order[a] == old_order[a]);
                    assert(keys@[old_order[a] as int] <= keys@[i as int]);
                } else if a < p {
                    assert(new_order[a] == old_order[a] && new_order[b] == old_order[b - 1]);
                } else if a == p {
                    assert(new_order[b] == old_order[b - 1]);
                    assert(p < old_order.len());
                    assert(keys@[old_order[p as int] as int] > keys@[i as int]);
                    if b - 1 > p {
                        assert(key_before(keys@, old_order[p as int] as int, old_order[b - 1] as int));
                    }
                } else {
                    assert(new_order[a] == old_order[a - 1] && new_order[b] == old_order[b - 1]);
                }
            }
        }
        i += 1;
    }
    proof {
        assert(is_stable_order(keys@, order@));
        law_stable_order_unique(keys@, order@, stable_order(keys@));
    }
    order
}


pub open spec fn all_distinct(keys: Seq<u64>) -> bool {
    forall|i: int, j: int| 0 <= i < j < keys.len() ==> keys[i] != keys[j]
}

/// `k` is carried by two different rows.
pub open spec fn is_duplicated(keys: Seq<u64>, k: u64) -> bool {
    exists|i: int, j: int| 0 <= i < j < keys.len() && keys[i] == k && keys[j] == k
}

/// `k` is the smallest key carried by two different rows.
pub open spec fn is_smallest_duplicate(keys: Seq<u64>, k: u64) -> bool {
    &&& is_duplicated(keys, k)
    &&& forall|x: u64| is_duplicated(keys, x) ==> k <= x
}

/// The keys of rows of `(key, payload)`.
pub open spec fn row_keys<P>(rows: Seq<(u64, P)>) -> Seq<u64> {
    rows.map_values(|r: (u64, P)| r.0)
}

/// The rows listed in the given order of their indices.
pub open spec fn rows_in_order<P>(rows: Seq<(u64, P)>, order: Seq<usize>) -> Seq<(u64, P)> {
    order.map_values(|k: usize| rows[k as int])
}

/// The rows in stable ascending key order.
pub open spec fn sorted_rows<P>(rows: Seq<(u64, P)>) -> Seq<(u64, P)> {
    rows_in_order(rows, stable_order(row_keys(rows)))
}

/// Along a stable order the keys never decrease.
proof fn lemma_order_keys_nondecreasing(keys: Seq<u64>, order: Seq<usize>, a: int, b: int)
    requires
        is_stable_order(keys, order),
        0 <= a <= b < order.len(),
    ensures
        keys[order[a] as int] <= keys[order[b] as int],
{
    if a < b {
        assert(key_before(keys, order[a] as int, order[b] as int));
    }
}

/// Two rows with one key make two neighbours with that key in the order.
proof fn lemma_duplicate_is_adjacent(keys: Seq<u64>, order: Seq<usize>, i: int, j: int) -> (lo: int)
    requires
        is_stable_order(keys, order),
        keys.len() <= usize::MAX,
        0 <= i < j < keys.len(),
        keys[i] == keys[j],
    ensures
        0 <= lo < order.len() - 1,
        keys[order[lo] as int] == keys[i],
        keys[order[lo + 1] as int] == keys[i],
{
    assert(order.contains(i as usize));
    assert(order.contains(j as usize));
    let pi = choose|p: int| 0 <= p < order.len() && order[p] == i as usize;
    let pj = choose|p: int| 0 <= p < order.len() && order[p] == j as usize;
    let lo = if pi < pj { pi } else { pj };
    let hi = if pi < pj { pj } else { pi };
    assert(lo < hi);
    lemma_order_keys_nondecreasing(keys, order, lo, lo + 1);
    lemma_order_keys_nondecreasing(keys, order, lo + 1, hi);
    lo
}

/// The smallest key that two rows share, read off neighbours in a stable order.
pub fn first_duplicate_in_order(keys: &Vec<u64>, order: &Vec<usize>) -> (r: Option<u64>)
    requires
        is_stable_order(keys@, order@),
    ensures
        r is None <==> all_distinct(keys@),
        r matches Some(k) ==> is_smallest_duplicate(keys@, k),
{
    let n = order.len();
    let mut t: usize = 0;
    while n > 0 && t < n - 1
        invariant
            n == order.len(),
            is_stable_order(keys@, order@),
            t < n || n == 0,
            forall|s: int| 0 <= s < t ==> keys@[#[trigger] order@[s] as int] != keys@[order@[s + 1] as int],
        decreases n - t,
    {
        if keys[order[t]] == keys[order[t + 1]] {
            let k = keys[order[t]];
            proof {
                let a = order@[t as int] as int;
                let b = order@[t + 1] as int;
                assert(key_before(keys@, a, b));
                if a < b {
                    assert(keys@[a] == k && keys@[b] == k);
                } else {
                    assert(keys@[b] == k && keys@[a] == k);
                }
                assert(is_duplicated(keys@, k));
                assert forall|x: u64| is_duplicated(keys@, x) implies k <= x by {
                    let (i, j) = choose|i: int, j: int|
                        0 <= i < j < keys@.len() && keys@[i] == x && keys@[j] == x;
                    let lo = lemma_duplicate_is_adjacent(keys@, order@, i, j);
                    assert(lo >= t);
                    lemma_order_keys_nondecreasing(keys@, order@, t as int, lo);
                }
                assert(!all_distinct(keys@));
            }
            return Some(k);
        }
        t += 1;
    }
    proof {
        assert forall|i: int, j: int| 0 <= i < j < keys@.len() implies keys@[i] != keys@[j] by {
            if keys@[i] == keys@[j] {
                let lo = lemma_duplicate_is_adjacent(keys@, order@, i, j);
            }
        }
    }
    None
}

/// The rows in stable ascending key order.
pub fn sort_rows_by_key<P: Copy>(rows: &Vec<(u64, P)>) -> (r: Vec<(u64, P)>)
    ensures
        r@ == sorted_rows(rows@),
        is_stable_order(row_keys(rows@), stable_order(row_keys(rows@))),
{
    let keys = row_keys_of(rows);
    let order = stable_order_by_key(&keys);
    rows_by_order(rows, &order)
}

/// The keys of the rows.
pub fn row_keys_of<P: Copy>(rows: &Vec<(u64, P)>) -> (keys: Vec<u64>)
    ensures
        keys@ == row_keys(rows@),
{
    let mut keys: Vec<u64> = Vec::new();
    let mut i: usize = 0;
    while i < rows.len()
        invariant
            i <= rows.len(),
            keys@ =~= row_keys(rows@).subrange(0, i as int),
        decreases rows.len() - i,
    {
        keys.push(rows[i].0);
        i += 1;
    }
    keys
}

/// The rows picked in the given order.
pub fn rows_by_order<P: Copy>(rows: &Vec<(u64, P)>, order: &Vec<usize>) -> (r: Vec<(u64, P)>)
    requires
        forall|i: int| 0 <= i < order.len() ==> (#[trigger] order@[i]) < rows.len(),
    ensures
        r@ == rows_in_order(rows@, order@),
{
    let mut out: Vec<(u64, P)> = Vec::new();
    let mut i: usize = 0;
    while i < order.len()
        invariant
            i <= order.len(),
            forall|q: int| 0 <= q < order.len() ==> (#[trigger] order@[q]) < rows.len(),
            out@ =~= rows_in_order(rows@, order@).subrange(0, i as int),
        decreases order.len() - i,
    {
        out.push(rows[order[i]]);
        i += 1;
    }
    out
}

/// The rows in ascending key order, refused when two rows share a key: the
/// error names the smallest shared key.
pub fn sort_distinct_rows<P: Copy>(rows: &Vec<(u64, P)>) -> (r: Result<Vec<(u64, P)>, u64>)
    ensures
        r is Ok <==> all_distinct(row_keys(rows@)),
        r matches Ok(v) ==> v@ == sorted_rows(rows@),
        is_stable_order(row_keys(rows@), stable_order(row_keys(rows@))),
        r matches Err(k) ==> is_smallest_duplicate(row_keys(rows@), k),
{
    let keys = row_keys_of(rows);
    let order = stable_order_by_key(&keys);
    match first_duplicate_in_order(&keys, &order) {
        Some(k) => Err(k),
        None => Ok(rows_by_order(rows, &order)),
    }
}


/// Rows with distinct keys, once sorted, have strictly ascending keys.
pub proof fn lemma_sorted_distinct_ascending<P>(rows: Seq<(u64, P)>)
    requires
        all_distinct(row_keys(rows)),
        rows.len() <= usize::MAX,
    ensures
        crate::timeline::strictly_ascending(row_keys(sorted_rows(rows))),
        sorted_rows(rows).len() == rows.len(),
{
    let keys = row_keys(rows);
    lemma_stable_order_exists(keys);
    let o = stable_order(keys);
    let s = sorted_rows(rows);
    assert forall|i: int, j: int| 0 <= i < j < row_keys(s).len() implies row_keys(s)[i] < row_keys(s)[j] by {
        assert(key_before(keys, o[i] as int, o[j] as int));
        assert(row_keys(s)[i] == keys[o[i] as int]);
        assert(row_keys(s)[j] == keys[o[j] as int]);
        if keys[o[i] as int] == keys[o[j] as int] {
            assert(o[i] < o[j]);
        }
    }
}


/// Every listing of keys has a stable ascending order.
pub proof fn lemma_stable_order_exists(keys: Seq<u64>)
    requires
        keys.len() <= usize::MAX,
    ensures
        is_stable_order(keys, stable_order(keys)),
{
    broadcast use vstd::seq_lib::group_to_multiset_ensures;

    let n = keys.len();
    let ids = Seq::new(n, |i: int| i as usize);
    let leq = |a: usize, b: usize|
        keys[a as int] < keys[b as int] || (keys[a as int] == keys[b as int] && a <= b);
    assert(vstd::relations::total_ordering(leq)) by {
        assert(vstd::relations::reflexive(leq));
        assert(vstd::relations::antisymmetric(leq));
        assert(vstd::relations::transitive(leq));
        assert(vstd::relations::strongly_connected(leq));
    }
    ids.lemma_sort_by_ensures(leq);
    let o = ids.sort_by(leq);
    assert(ids.no_duplicates());
    ids.lemma_multiset_has_no_duplicates();
    assert forall|x: usize| o.to_multiset().contains(x) implies o.to_multiset().count(x) == 1 by {
        assert(ids.to_multiset().contains(x));
    }
    o.lemma_multiset_has_no_duplicates_conv();
    assert(o.len() == n) by {
        assert(o.to_multiset().len() == ids.to_multiset().len());
    }
    assert forall|i: int| 0 <= i < o.len() implies (#[trigger] o[i]) < keys.len() by {
        assert(o.contains(o[i]));
        if !ids.contains(o[i]) {
            assert(!o.contains(o[i]));
        }
    }
    assert forall|k: int| 0 <= k < keys.len() implies #[trigger] o.contains(k as usize) by {
        assert(ids[k] == k as usize);
        assert(ids.contains(k as usize));
        assert(ids.to_multiset().count(k as usize) > 0);
    }
    assert forall|i: int, j: int| 0 <= i < j < o.len() implies key_before(
        keys,
        #[trigger] o[i] as int,
        #[trigger] o[j] as int,
    ) by {
        assert(leq(o[i], o[j]));
        assert(o[i] != o[j]);
    }
    assert(is_stable_order(keys, o));
}

/// Two strictly ascending key lists with the same members are one list.
proof fn lemma_ascending_same_members(s: Seq<u64>, t: Seq<u64>, k: int)
    requires
        crate::timeline::strictly_ascending(s),
        crate::timeline::strictly_ascending(t),
        s.len() == t.len(),
        forall|x: u64| s.contains(x) <==> t.contains(x),
        0 <= k <= s.len(),
    ensures
        forall|i: int| 0 <= i < k ==> s[i] == t[i],
    decreases k,
{
    if k > 0 {
        lemma_ascending_same_members(s, t, k - 1);
        let i = k - 1;
        if s[i] < t[i] {
            assert(s.contains(s[i]));
            let m = choose|m: int| 0 <= m < t.len() && t[m] == s[i];
            if m >= i {
                if m > i {
                    assert(t[i] < t[m]);
                }
            } else {
                assert(s[m] == t[m]);
            }
        } else if t[i] < s[i] {
            assert(t.contains(t[i]));
            let m = choose|m: int| 0 <= m < s.len() && s[m] == t[i];
            if m >= i {
                if m > i {
                    assert(s[i] < s[m]);
                }
            } else {
                assert(s[m] == t[m]);
            }
        }
    }
}

/// Two listings of the same distinct keys, each put in stable order, read
/// the same keys position by position.
pub proof fn lemma_same_keys_same_order(a: Seq<u64>, b: Seq<u64>)
    requires
        a.no_duplicates(),
        b.no_duplicates(),
        a.to_set() == b.to_set(),
        b.len() <= usize::MAX,
    ensures
        a.len() == b.len(),
        is_stable_order(a, stable_order(a)),
        is_stable_order(b, stable_order(b)),
        forall|i: int|
            0 <= i < a.len() ==> a[stable_order(a)[i] as int] == b[#[trigger] stable_order(b)[i] as int],
{
    a.unique_seq_to_set();
    b.unique_seq_to_set();
    lemma_stable_order_exists(a);
    lemma_stable_order_exists(b);
    let oa = stable_order(a);
    let ob = stable_order(b);
    let s = Seq::new(a.len(), |i: int| a[oa[i] as int]);
    let t = Seq::new(b.len(), |i: int| b[ob[i] as int]);
    assert forall|i: int, j: int| 0 <= i < j < s.len() implies s[i] < s[j] by {
        assert(key_before(a, oa[i] as int, oa[j] as int));
        if a[oa[i] as int] == a[oa[j] as int] {
            assert(oa[i] != oa[j]);
        }
    }
    assert forall|i: int, j: int| 0 <= i < j < t.len() implies t[i] < t[j] by {
        assert(key_before(b, ob[i] as int, ob[j] as int));
        if b[ob[i] as int] == b[ob[j] as int] {
            assert(ob[i] != ob[j]);
        }
    }
    assert forall|x: u64| s.contains(x) <==> t.contains(x) by {
        if s.contains(x) {
            let i = choose|i: int| 0 <= i < s.len() && s[i] == x;
            assert(a.contains(x));
            assert(a.to_set().contains(x));
            assert(b.to_set().contains(x));
            let k = choose|k: int| 0 <= k < b.len() && b[k] == x;
            assert(ob.contains(k as usize));
            let p = choose|p: int| 0 <= p < ob.len() && ob[p] == k as usize;
            assert(t[p] == x);
        }
        if t.contains(x) {
            let p = choose|p: int| 0 <= p < t.len() && t[p] == x;
            assert(b.contains(x));
            assert(b.to_set().contains(x));
            assert(a.to_set().contains(x));
            let w = choose|w: int| 0 <= w < a.len() && a[w] == x;
            assert(oa.contains(w as usize));
            let i = choose|i: int| 0 <= i < oa.len() && oa[i] == w as usize;
            assert(s[i] == x);
        }
    }
    lemma_ascending_same_members(s, t, s.len() as int);
    assert forall|i: int| 0 <= i < a.len() implies a[stable_order(a)[i] as int] == b[#[trigger] stable_order(
        b,
    )[i] as int] by {
        assert(s[i] == t[i]);
    }
}

} // verus!
