//! Vectors of `(key, value)` pairs kept in increasing key order, used where
//! the snapshot keeps ordered maps: free space by location, file data by
//! offset.
use vstd::prelude::*;

verus! {

/// Keys strictly increase along the sequence.
pub open spec fn keys_sorted<V>(s: Seq<(u64, V)>) -> bool {
    forall|i: int, j: int| 0 <= i < j < s.len() ==> s[i].0 < s[j].0
}

/// The map that a keyed sequence stands for.
pub open spec fn keyed_map<V>(s: Seq<(u64, V)>) -> Map<u64, V>
    decreases s.len(),
{
    if s.len() == 0 {
        Map::empty()
    } else {
        keyed_map(s.drop_last()).insert(s.last().0, s.last().1)
    }
}

/// `s` with `(k, v)` put in key order: it replaces the pair with key `k`, if
/// there is one, and otherwise goes before the first pair with a larger key.
pub open spec fn sorted_insert<V>(s: Seq<(u64, V)>, k: u64, v: V) -> Seq<(u64, V)>
    decreases s.len(),
{
    if s.len() == 0 {
        seq![(k, v)]
    } else if s[0].0 < k {
        seq![s[0]] + sorted_insert(s.drop_first(), k, v)
    } else if s[0].0 == k {
        seq![(k, v)] + s.drop_first()
    } else {
        seq![(k, v)] + s
    }
}

/// Index of the first pair whose key is at least `k`.
pub open spec fn lower_bound<V>(s: Seq<(u64, V)>, k: u64) -> int
    decreases s.len(),
{
    if s.len() == 0 {
        0
    } else if s[0].0 < k {
        1 + lower_bound(s.drop_first(), k)
    } else {
        0
    }
}

/// Index of the first pair with key `k`, or the length when there is none.
pub open spec fn index_of_key<V>(s: Seq<(u64, V)>, k: u64) -> int
    decreases s.len(),
{
    if s.len() == 0 {
        0
    } else if s[0].0 == k {
        0
    } else {
        1 + index_of_key(s.drop_first(), k)
    }
}

/// Index of the last pair whose key is below `k`, or -1 when there is none.
pub open spec fn last_below<V>(s: Seq<(u64, V)>, k: u64) -> int
    decreases s.len(),
{
    if s.len() == 0 {
        -1
    } else if s.last().0 < k {
        s.len() - 1
    } else {
        last_below(s.drop_last(), k)
    }
}

pub proof fn lemma_lower_bound_range<V>(s: Seq<(u64, V)>, k: u64)
    ensures
        0 <= lower_bound(s, k) <= s.len(),
        forall|i: int| 0 <= i < lower_bound(s, k) ==> s[i].0 < k,
        lower_bound(s, k) < s.len() ==> s[lower_bound(s, k)].0 >= k,
    decreases s.len(),
{
    if s.len() > 0 && s[0].0 < k {
        lemma_lower_bound_range(s.drop_first(), k);
        assert forall|i: int| 0 <= i < lower_bound(s, k) implies s[i].0 < k by {
            if i > 0 {
                assert(s[i] == s.drop_first()[i - 1]);
            }
        }
    }
}

pub proof fn lemma_index_of_key_range<V>(s: Seq<(u64, V)>, k: u64)
    ensures
        0 <= index_of_key(s, k) <= s.len(),
        forall|i: int| 0 <= i < index_of_key(s, k) ==> s[i].0 != k,
        index_of_key(s, k) < s.len() ==> s[index_of_key(s, k)].0 == k,
    decreases s.len(),
{
    if s.len() > 0 && s[0].0 != k {
        lemma_index_of_key_range(s.drop_first(), k);
        assert forall|i: int| 0 <= i < index_of_key(s, k) implies s[i].0 != k by {
            if i > 0 {
                assert(s[i] == s.drop_first()[i - 1]);
            }
        }
    }
}

pub proof fn lemma_last_below_range<V>(s: Seq<(u64, V)>, k: u64)
    ensures
        -1 <= last_below(s, k) < s.len(),
        last_below(s, k) >= 0 ==> s[last_below(s, k)].0 < k,
        forall|i: int| last_below(s, k) < i < s.len() ==> s[i].0 >= k,
    decreases s.len(),
{
    if s.len() > 0 && !(s.last().0 < k) {
        let t = s.drop_last();
        lemma_last_below_range(t, k);
        assert forall|i: int| last_below(s, k) < i < s.len() implies s[i].0 >= k by {
            if i < t.len() {
                assert(s[i] == t[i]);
            }
        }
        if last_below(s, k) >= 0 {
            assert(s[last_below(s, k)] == t[last_below(t, k)]);
        }
    }
}

/// Inserting at the lower bound: the prefix below `k` stays, then `(k, v)`,
/// then the rest without a pair that had key `k`.
pub proof fn lemma_sorted_insert_split<V>(s: Seq<(u64, V)>, k: u64, v: V)
    ensures
        ({
            let j = lower_bound(s, k);
            sorted_insert(s, k, v) == if j < s.len() && s[j].0 == k {
                s.subrange(0, j) + seq![(k, v)] + s.subrange(j + 1, s.len() as int)
            } else {
                s.subrange(0, j) + seq![(k, v)] + s.subrange(j, s.len() as int)
            }
        }),
    decreases s.len(),
{
    let j = lower_bound(s, k);
    if s.len() == 0 {
        assert(s.subrange(0, 0) + seq![(k, v)] + s.subrange(0, 0) =~= seq![(k, v)]);
    } else if s[0].0 < k {
        let t = s.drop_first();
        lemma_sorted_insert_split(t, k, v);
        lemma_lower_bound_range(t, k);
        let jt = lower_bound(t, k);
        assert(j == jt + 1);
        if jt < t.len() && t[jt].0 == k {
            assert(seq![s[0]] + (t.subrange(0, jt) + seq![(k, v)] + t.subrange(
                jt + 1,
                t.len() as int,
            )) =~= s.subrange(0, j) + seq![(k, v)] + s.subrange(j + 1, s.len() as int));
        } else {
            assert(seq![s[0]] + (t.subrange(0, jt) + seq![(k, v)] + t.subrange(
                jt,
                t.len() as int,
            )) =~= s.subrange(0, j) + seq![(k, v)] + s.subrange(j, s.len() as int));
        }
    } else if s[0].0 == k {
        assert(seq![(k, v)] + s.drop_first() =~= s.subrange(0, 0) + seq![(k, v)] + s.subrange(
            1,
            s.len() as int,
        ));
    } else {
        assert(seq![(k, v)] + s =~= s.subrange(0, 0) + seq![(k, v)] + s.subrange(
            0,
            s.len() as int,
        ));
    }
}

/// Inserting keeps keys in order.
pub proof fn lemma_sorted_insert_sorted<V>(s: Seq<(u64, V)>, k: u64, v: V)
    requires
        keys_sorted(s),
    ensures
        keys_sorted(sorted_insert(s, k, v)),
{
    lemma_sorted_insert_split(s, k, v);
    lemma_lower_bound_range(s, k);
}

/// Removing a pair keeps keys in order.
pub proof fn lemma_remove_sorted<V>(s: Seq<(u64, V)>, i: int)
    requires
        keys_sorted(s),
        0 <= i < s.len(),
    ensures
        keys_sorted(s.remove(i)),
{
    let r = s.remove(i);
    assert forall|a: int, b: int| 0 <= a < b < r.len() implies r[a].0 < r[b].0 by {
        let a2 = if a < i {
            a
        } else {
            a + 1
        };
        let b2 = if b < i {
            b
        } else {
            b + 1
        };
        assert(r[a] == s[a2] && r[b] == s[b2]);
    }
}

/// Finds the lower bound of `k`.
pub fn find_lower_bound<V: Copy>(v: &Vec<(u64, V)>, k: u64) -> (r: usize)
    ensures
        r == lower_bound(v@, k),
{
    proof {
        lemma_lower_bound_range(v@, k);
    }
    let mut i: usize = 0;
    while i < v.len() && v[i].0 < k
        invariant
            0 <= i <= v@.len(),
            forall|j: int| 0 <= j < i ==> v@[j].0 < k,
            lower_bound(v@, k) >= i,
        decreases v@.len() - i,
    {
        proof {
            lemma_lower_bound_skip(v@, k, i as int);
        }
        i += 1;
    }
    proof {
        lemma_lower_bound_at(v@, k, i as int);
    }
    i
}

proof fn lemma_lower_bound_skip<V>(s: Seq<(u64, V)>, k: u64, i: int)
    requires
        0 <= i < s.len(),
        forall|j: int| 0 <= j <= i ==> s[j].0 < k,
    ensures
        lower_bound(s, k) >= i + 1,
    decreases i,
{
    lemma_lower_bound_range(s.drop_first(), k);
    if i > 0 {
        assert forall|j: int| 0 <= j <= i - 1 implies s.drop_first()[j].0 < k by {
            assert(s.drop_first()[j] == s[j + 1]);
        }
        lemma_lower_bound_skip(s.drop_first(), k, i - 1);
    }
}

pub proof fn lemma_lower_bound_at<V>(s: Seq<(u64, V)>, k: u64, i: int)
    requires
        0 <= i <= s.len(),
        forall|j: int| 0 <= j < i ==> s[j].0 < k,
        i == s.len() || s[i].0 >= k,
    ensures
        lower_bound(s, k) == i,
    decreases i,
{
    if i > 0 {
        assert forall|j: int| 0 <= j < i - 1 implies s.drop_first()[j].0 < k by {
            assert(s.drop_first()[j] == s[j + 1]);
        }
        if i < s.len() {
            assert(s.drop_first()[i - 1] == s[i]);
        }
        lemma_lower_bound_at(s.drop_first(), k, i - 1);
    }
}

/// Finds the first pair with key `k`.
pub fn find_key<V: Copy>(v: &Vec<(u64, V)>, k: u64) -> (r: usize)
    ensures
        r == index_of_key(v@, k),
{
    let mut i: usize = 0;
    while i < v.len() && v[i].0 != k
        invariant
            0 <= i <= v@.len(),
            forall|j: int| 0 <= j < i ==> v@[j].0 != k,
        decreases v@.len() - i,
    {
        i += 1;
    }
    proof {
        lemma_index_of_key_at(v@, k, i as int);
    }
    i
}

pub proof fn lemma_index_of_key_at<V>(s: Seq<(u64, V)>, k: u64, i: int)
    requires
        0 <= i <= s.len(),
        forall|j: int| 0 <= j < i ==> s[j].0 != k,
        i == s.len() || s[i].0 == k,
    ensures
        index_of_key(s, k) == i,
    decreases i,
{
    if i > 0 {
        assert forall|j: int| 0 <= j < i - 1 implies s.drop_first()[j].0 != k by {
            assert(s.drop_first()[j] == s[j + 1]);
        }
        if i < s.len() {
            assert(s.drop_first()[i - 1] == s[i]);
        }
        lemma_index_of_key_at(s.drop_first(), k, i - 1);
    }
}

/// Finds the last pair whose key is below `k`.
pub fn find_last_below<V: Copy>(v: &Vec<(u64, V)>, k: u64) -> (r: Option<usize>)
    ensures
        r matches Some(i) ==> i == last_below(v@, k),
        r is None ==> last_below(v@, k) == -1,
{
    let mut i: usize = v.len();
    assert(v@.subrange(0, i as int) =~= v@);
    while i > 0 && v[i - 1].0 >= k
        invariant
            0 <= i <= v@.len(),
            last_below(v@, k) == last_below(v@.subrange(0, i as int), k),
        decreases i,
    {
        proof {
            let t = v@.subrange(0, i as int);
            assert(t.drop_last() =~= v@.subrange(0, i - 1));
        }
        i -= 1;
    }
    proof {
        let t = v@.subrange(0, i as int);
        if i == 0 {
            assert(t.len() == 0);
        }
    }
    if i == 0 {
        None
    } else {
        Some(i - 1)
    }
}

/// Puts `(k, val)` in key order, replacing a pair with key `k`.
pub fn insert_sorted<V: Copy>(v: &mut Vec<(u64, V)>, k: u64, val: V)
    ensures
        final(v)@ == sorted_insert(old(v)@, k, val),
{
    let j = find_lower_bound(v, k);
    proof {
        lemma_sorted_insert_split(v@, k, val);
        lemma_lower_bound_range(v@, k);
    }
    let ghost s = v@;
    if j < v.len() && v[j].0 == k {
        v.set(j, (k, val));
        assert(v@ =~= s.subrange(0, j as int) + seq![(k, val)] + s.subrange(
            j + 1,
            s.len() as int,
        ));
    } else {
        v.insert(j, (k, val));
        assert(v@ =~= s.subrange(0, j as int) + seq![(k, val)] + s.subrange(j as int, s.len() as int));
    }
}

} // verus!
