//! Ordering object members by key: a stable insertion sort under the UTF-16
//! code-unit order of the keys.

use vstd::prelude::*;
use crate::order::utf16_less;

verus! {

/// Inserts `e` into `sorted` after every member whose key does not sort
/// after `e`'s key (so equal keys keep their order).
pub open spec fn insert_by_key<T>(sorted: Seq<(Seq<char>, T)>, e: (Seq<char>, T)) -> Seq<(Seq<char>, T)>
    decreases sorted.len(),
{
    if sorted.len() == 0 {
        seq![e]
    } else if utf16_less(e.0, sorted.last().0) {
        insert_by_key(sorted.drop_last(), e).push(sorted.last())
    } else {
        sorted.push(e)
    }
}

/// The members of `s` in the stable order of their keys.
pub open spec fn sort_by_key<T>(s: Seq<(Seq<char>, T)>) -> Seq<(Seq<char>, T)>
    decreases s.len(),
{
    if s.len() == 0 {
        s
    } else {
        insert_by_key(sort_by_key(s.drop_last()), s.last())
    }
}

/// Inserts index `j` into the index list `sorted`, comparing by `keys`.
pub open spec fn insert_index(keys: Seq<Seq<char>>, sorted: Seq<int>, j: int) -> Seq<int>
    decreases sorted.len(),
{
    if sorted.len() == 0 {
        seq![j]
    } else if utf16_less(keys[j], keys[sorted.last()]) {
        insert_index(keys, sorted.drop_last(), j).push(sorted.last())
    } else {
        sorted.push(j)
    }
}

/// The indices `0..n` in the stable order of `keys`.
pub open spec fn sorted_indices(keys: Seq<Seq<char>>, n: nat) -> Seq<int>
    decreases n,
{
    if n == 0 {
        seq![]
    } else {
        insert_index(keys, sorted_indices(keys, (n - 1) as nat), n - 1)
    }
}

/// The keys of a member list.
pub open spec fn member_keys<T>(s: Seq<(String, T)>) -> Seq<Seq<char>> {
    Seq::new(s.len(), |i: int| s[i].0@)
}

proof fn lemma_insert_index_maps<T>(keys: Seq<Seq<char>>, s: Seq<(Seq<char>, T)>, p: Seq<int>, j: int)
    requires
        0 <= j < s.len(),
        keys.len() == s.len(),
        forall|i: int| 0 <= i < s.len() ==> keys[i] == #[trigger] s[i].0,
        forall|k: int| 0 <= k < p.len() ==> 0 <= #[trigger] p[k] < s.len(),
    ensures
        insert_index(keys, p, j).map_values(|i: int| s[i]) == insert_by_key(
            p.map_values(|i: int| s[i]),
            s[j],
        ),
        forall|k: int| 0 <= k < insert_index(keys, p, j).len() ==> 0 <= #[trigger] insert_index(keys, p, j)[k] < s.len(),
        insert_index(keys, p, j).len() == p.len() + 1,
    decreases p.len(),
{
    let f = |i: int| s[i];
    if p.len() == 0 {
        assert(insert_index(keys, p, j).map_values(f) =~= seq![s[j]]);
    } else {
        let q = p.map_values(f);
        assert(q.last() == s[p.last()]);
        assert(q.drop_last() =~= p.drop_last().map_values(f));
        if utf16_less(keys[j], keys[p.last()]) {
            lemma_insert_index_maps(keys, s, p.drop_last(), j);
            let r = insert_index(keys, p.drop_last(), j);
            assert(r.push(p.last()).map_values(f) =~= r.map_values(f).push(s[p.last()]));
            assert forall|k: int| 0 <= k < r.push(p.last()).len() implies 0 <= #[trigger] r.push(p.last())[k] < s.len() by {
                if k < r.len() {
                    assert(r.push(p.last())[k] == r[k]);
                }
            }
        } else {
            assert(p.push(j).map_values(f) =~= q.push(s[j]));
        }
    }
}

/// The index order selects the members in their stable key order.
pub proof fn lemma_sorted_indices_select<T>(keys: Seq<Seq<char>>, s: Seq<(Seq<char>, T)>, n: nat)
    requires
        n <= s.len(),
        keys.len() == s.len(),
        forall|i: int| 0 <= i < s.len() ==> keys[i] == #[trigger] s[i].0,
    ensures
        sorted_indices(keys, n).map_values(|i: int| s[i]) == sort_by_key(s.take(n as int)),
        forall|k: int| 0 <= k < sorted_indices(keys, n).len() ==> 0 <= #[trigger] sorted_indices(keys, n)[k] < n,
        sorted_indices(keys, n).len() == n,
    decreases n,
{
    if n == 0 {
        assert(sorted_indices(keys, n).map_values(|i: int| s[i]) =~= s.take(0));
    } else {
        lemma_sorted_indices_select(keys, s, (n - 1) as nat);
        let p = sorted_indices(keys, (n - 1) as nat);
        let t = s.take(n as int);
        assert(t.drop_last() =~= s.take(n - 1));
        assert(t.last() == s[n - 1]);
        lemma_insert_index_maps(keys, s, p, n - 1);
        let r = insert_index(keys, p, n - 1);
        assert forall|k: int| 0 <= k < r.len() implies 0 <= #[trigger] r[k] < n by {
            lemma_insert_index_members(keys, p, n - 1, k);
        }
    }
}

proof fn lemma_insert_index_members(keys: Seq<Seq<char>>, p: Seq<int>, j: int, k: int)
    requires
        0 <= k < insert_index(keys, p, j).len(),
    ensures
        insert_index(keys, p, j)[k] == j || p.contains(insert_index(keys, p, j)[k]),
    decreases p.len(),
{
    if p.len() > 0 {
        if utf16_less(keys[j], keys[p.last()]) {
            let r = insert_index(keys, p.drop_last(), j);
            if k < r.len() {
                lemma_insert_index_members(keys, p.drop_last(), j, k);
                if r[k] != j {
                    let w = choose|w: int| 0 <= w < p.drop_last().len() && p.drop_last()[w] == r[k];
                    assert(p[w] == r[k]);
                }
            } else {
                assert(p[p.len() - 1] == p.last());
            }
        } else {
            if k < p.len() {
                assert(p[k] == p.push(j)[k]);
            }
        }
    }
}

proof fn lemma_insert_index_len(keys: Seq<Seq<char>>, p: Seq<int>, j: int)
    ensures
        insert_index(keys, p, j).len() == p.len() + 1,
    decreases p.len(),
{
    if p.len() > 0 {
        lemma_insert_index_len(keys, p.drop_last(), j);
    }
}

proof fn lemma_sorted_indices_len(keys: Seq<Seq<char>>, n: nat)
    ensures
        sorted_indices(keys, n).len() == n,
    decreases n,
{
    if n > 0 {
        lemma_sorted_indices_len(keys, (n - 1) as nat);
        lemma_insert_index_len(keys, sorted_indices(keys, (n - 1) as nat), n - 1);
    }
}

/// Compares two keys: `true` when `a` sorts strictly before `b`.
fn key_less(a: &String, b: &String) -> (r: bool)
    ensures
        r == utf16_less(a@, b@),
{
    crate::order::utf16_lt(a.as_str(), b.as_str())
}

/// The positions of the members of `m`, in the stable order of their keys.
pub fn member_order<T>(m: &Vec<(String, T)>) -> (order: Vec<usize>)
    ensures
        order@.map_values(|i: usize| i as int) == sorted_indices(member_keys(m@), m.len() as nat),
        forall|k: int| 0 <= k < order.len() ==> #[trigger] order@[k] < m.len(),
{
    let ghost keys = member_keys(m@);
    let mut order: Vec<usize> = Vec::new();
    let mut i: usize = 0;
    while i < m.len()
        invariant
            i <= m.len(),
            keys == member_keys(m@),
            order@.map_values(|x: usize| x as int) == sorted_indices(keys, i as nat),
            forall|k: int| 0 <= k < order.len() ==> #[trigger] order@[k] < i,
        decreases m.len() - i,
    {
        let ghost p = sorted_indices(keys, i as nat);
        proof {
            lemma_sorted_indices_len(keys, i as nat);
        }
        order.push(i);
        let mut j: usize = i;
        assert(order@.map_values(|x: usize| x as int) =~= p.take(j as int) + seq![i as int] + p.skip(j as int));
        assert(p.skip(j as int) =~= Seq::<int>::empty());
        assert(p.take(j as int) =~= p);
        loop
            invariant
                0 <= j <= i < m.len(),
                keys == member_keys(m@),
                p == sorted_indices(keys, i as nat),
                p.len() == i,
                order.len() == i + 1,
                order@.map_values(|x: usize| x as int) == p.take(j as int) + seq![i as int] + p.skip(j as int),
                insert_index(keys, p, i as int) == insert_index(keys, p.take(j as int), i as int) + p.skip(j as int),
                forall|k: int| 0 <= k < order.len() ==> #[trigger] order@[k] <= i,
            ensures
                order@.map_values(|x: usize| x as int) == insert_index(keys, p, i as int),
                forall|k: int| 0 <= k < order.len() ==> #[trigger] order@[k] <= i,
                order.len() == i + 1,
            decreases j,
        {
            if j == 0 {
                assert(insert_index(keys, p.take(0), i as int) =~= p.take(0) + seq![i as int]);
                break;
            }
            let prev = order[j - 1];
            assert(prev as int == p[j - 1]) by {
                assert(order@.map_values(|x: usize| x as int)[j - 1] == prev as int);
            }
            let less = key_less(&m[i].0, &m[prev].0);
            proof {
                let pj = p.take(j as int);
                assert(pj.last() == p[j - 1]);
                assert(keys[i as int] == m@[i as int].0@);
                assert(keys[prev as int] == m@[prev as int].0@);
                assert(less == utf16_less(keys[i as int], keys[pj.last()]));
            }
            if !less {
                assert(insert_index(keys, p.take(j as int), i as int) =~= p.take(j as int) + seq![i as int]);
                break;
            }
            proof {
                let pj = p.take(j as int);
                assert(pj.drop_last() =~= p.take(j - 1));
                assert(p.skip(j - 1) =~= seq![p[j - 1]] + p.skip(j as int));
                assert(insert_index(keys, pj, i as int) == insert_index(keys, p.take(j - 1), i as int).push(p[j - 1]));
                assert(insert_index(keys, p.take(j - 1), i as int).push(p[j - 1]) + p.skip(j as int)
                    =~= insert_index(keys, p.take(j - 1), i as int) + p.skip(j - 1));
            }
            let ghost before = order@;
            order.set(j - 1, i);
            order.set(j, prev);
            proof {
                let target = p.take(j - 1) + seq![i as int] + p.skip(j - 1);
                let now = order@.map_values(|x: usize| x as int);
                let was = before.map_values(|x: usize| x as int);
                assert(was =~= p.take(j as int) + seq![i as int] + p.skip(j as int));
                assert forall|k: int| 0 <= k < now.len() implies now[k] == target[k] by {
                    if k < j - 1 {
                        assert(now[k] == was[k]);
                    } else if k == j - 1 {
                    } else if k == j {
                    } else {
                        assert(now[k] == was[k]);
                    }
                }
                assert(now =~= target);
            }
            j = j - 1;
        }
        assert(order@.map_values(|x: usize| x as int) =~= insert_index(keys, p, i as int));
        i = i + 1;
    }
    order
}

} // verus!
