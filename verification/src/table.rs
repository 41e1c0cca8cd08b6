//! Association lists keyed by 64-bit identifiers, kept in strictly
//! ascending key order so that each key appears at most once and the
//! representation of a given key/value mapping is canonical.

use vstd::prelude::*;

verus! {

/// Keys appear in strictly increasing order, hence each at most once.
pub open spec fn keys_strictly_sorted<V>(s: Seq<(u64, V)>) -> bool {
    forall|i: int, j: int| 0 <= i < j < s.len() ==> s[i].0 < s[j].0
}

/// The value stored under `k`, or `None` when `k` is absent: the list
/// read as a map.
pub open spec fn spec_lookup<V>(s: Seq<(u64, V)>, k: u64) -> Option<V>
    decreases s.len(),
{
    if s.len() == 0 {
        None
    } else if s[0].0 == k {
        Some(s[0].1)
    } else {
        spec_lookup(s.drop_first(), k)
    }
}

/// A key held by no entry looks up to `None`.
pub proof fn lemma_lookup_absent<V>(s: Seq<(u64, V)>, k: u64)
    requires
        forall|j: int| 0 <= j < s.len() ==> (#[trigger] s[j]).0 != k,
    ensures
        spec_lookup(s, k) is None,
    decreases s.len(),
{
    if s.len() > 0 {
        assert(forall|j: int|
            0 <= j < s.drop_first().len() ==> (#[trigger] s.drop_first()[j]).0 != k);
        lemma_lookup_absent(s.drop_first(), k);
    }
}

/// In a sorted list, the entry at index `i` is what its key looks up to.
pub proof fn lemma_lookup_at<V>(s: Seq<(u64, V)>, i: int)
    requires
        keys_strictly_sorted(s),
        0 <= i < s.len(),
    ensures
        spec_lookup(s, s[i].0) == Some(s[i].1),
    decreases s.len(),
{
    if i > 0 {
        assert(s[0].0 < s[i].0);
        assert(keys_strictly_sorted(s.drop_first()));
        lemma_lookup_at(s.drop_first(), i - 1);
        assert(s.drop_first()[i - 1] == s[i]);
    }
}

/// Replacing the value at index `i` (key unchanged) leaves every other
/// key's lookup untouched.
proof fn lemma_lookup_update_other<V>(s: Seq<(u64, V)>, i: int, v: V, k: u64)
    requires
        0 <= i < s.len(),
        k != s[i].0,
    ensures
        spec_lookup(s.update(i, (s[i].0, v)), k) == spec_lookup(s, k),
    decreases s.len(),
{
    let s2 = s.update(i, (s[i].0, v));
    assert(s2.len() == s.len());
    if i == 0 {
        assert(s2[0].0 == s[0].0);
        assert(s2.drop_first() =~= s.drop_first());
    } else {
        assert(s2[0] == s[0]);
        if s[0].0 != k {
            let t = s.drop_first().update(i - 1, (s.drop_first()[i - 1].0, v));
            assert(s.drop_first()[i - 1] == s[i]);
            assert(s2.drop_first() =~= t);
            lemma_lookup_update_other(s.drop_first(), i - 1, v, k);
        }
    }
}

/// Replacing the value at index `i` (key unchanged) keeps the order and
/// changes only that key's lookup.
pub proof fn lemma_lookup_update<V>(s: Seq<(u64, V)>, i: int, v: V)
    requires
        keys_strictly_sorted(s),
        0 <= i < s.len(),
    ensures
        keys_strictly_sorted(s.update(i, (s[i].0, v))),
        spec_lookup(s.update(i, (s[i].0, v)), s[i].0) == Some(v),
        forall|k: u64| k != s[i].0
            ==> #[trigger] spec_lookup(s.update(i, (s[i].0, v)), k) == spec_lookup(s, k),
{
    let s2 = s.update(i, (s[i].0, v));
    assert(keys_strictly_sorted(s2));
    lemma_lookup_at(s2, i);
    assert forall|k: u64| k != s[i].0 implies #[trigger] spec_lookup(s2, k) == spec_lookup(s, k) by {
        lemma_lookup_update_other(s, i, v, k);
    }
}

/// Inserting an entry at position `i` leaves the lookup of every key
/// other than the inserted one untouched.
proof fn lemma_lookup_insert_other<V>(s: Seq<(u64, V)>, i: int, k: u64, v: V, k2: u64)
    requires
        0 <= i <= s.len(),
        k2 != k,
    ensures
        spec_lookup(s.insert(i, (k, v)), k2) == spec_lookup(s, k2),
    decreases s.len(),
{
    let s2 = s.insert(i, (k, v));
    s.insert_ensures(i, (k, v));
    if i == 0 {
        assert(s2[0].0 == k);
        assert(s2.drop_first() =~= s);
    } else {
        assert(s2[0] == s[0]);
        if s.len() > 0 && s[0].0 != k2 {
            let t = s.drop_first().insert(i - 1, (k, v));
            assert(s2.drop_first() =~= t);
            lemma_lookup_insert_other(s.drop_first(), i - 1, k, v, k2);
        }
    }
}

/// Inserting a fresh key at its ordered position keeps the order, makes
/// that key look up to the new value, and changes no other lookup.
pub proof fn lemma_lookup_insert<V>(s: Seq<(u64, V)>, i: int, k: u64, v: V)
    requires
        keys_strictly_sorted(s),
        0 <= i <= s.len(),
        forall|j: int| 0 <= j < i ==> (#[trigger] s[j]).0 < k,
        forall|j: int| i <= j < s.len() ==> (#[trigger] s[j]).0 > k,
    ensures
        keys_strictly_sorted(s.insert(i, (k, v))),
        spec_lookup(s.insert(i, (k, v)), k) == Some(v),
        forall|k2: u64| k2 != k
            ==> #[trigger] spec_lookup(s.insert(i, (k, v)), k2) == spec_lookup(s, k2),
{
    let s2 = s.insert(i, (k, v));
    s.insert_ensures(i, (k, v));
    assert forall|a: int, b: int| 0 <= a < b < s2.len() implies s2[a].0 < s2[b].0 by {
        if a < i && b == i {
            assert(s2[a] == s[a]);
        } else if a == i && b > i {
            assert(s2[b] == s[b - 1]);
        } else if a < i && b > i {
            assert(s2[a] == s[a]);
            assert(s2[b] == s[b - 1]);
            if b - 1 == a {
                assert(s[a].0 < k);
                assert(s[b - 1].0 > k);
            }
        } else if a > i && b > i {
            assert(s2[a] == s[a - 1]);
            assert(s2[b] == s[b - 1]);
        } else if a < i && b < i {
            assert(s2[a] == s[a]);
            assert(s2[b] == s[b]);
        }
    }
    lemma_lookup_at(s2, i);
    assert forall|k2: u64| k2 != k implies #[trigger] spec_lookup(s2, k2) == spec_lookup(s, k2) by {
        lemma_lookup_insert_other(s, i, k, v, k2);
    }
}

/// Removing the entry at index `i` leaves the lookup of every other key
/// untouched.
proof fn lemma_lookup_remove_other<V>(s: Seq<(u64, V)>, i: int, k: u64)
    requires
        0 <= i < s.len(),
        k != s[i].0,
    ensures
        spec_lookup(s.remove(i), k) == spec_lookup(s, k),
    decreases s.len(),
{
    let s2 = s.remove(i);
    s.remove_ensures(i);
    if i == 0 {
        assert(s2 =~= s.drop_first());
    } else {
        assert(s2[0] == s[0]);
        if s[0].0 != k {
            let t = s.drop_first().remove(i - 1);
            assert(s.drop_first()[i - 1] == s[i]);
            assert(s2.drop_first() =~= t);
            lemma_lookup_remove_other(s.drop_first(), i - 1, k);
        }
    }
}

/// Removing the entry at index `i` keeps the order, makes its key
/// absent, and changes no other lookup.
pub proof fn lemma_lookup_remove<V>(s: Seq<(u64, V)>, i: int)
    requires
        keys_strictly_sorted(s),
        0 <= i < s.len(),
    ensures
        keys_strictly_sorted(s.remove(i)),
        spec_lookup(s.remove(i), s[i].0) is None,
        forall|k: u64| k != s[i].0
            ==> #[trigger] spec_lookup(s.remove(i), k) == spec_lookup(s, k),
{
    let s2 = s.remove(i);
    s.remove_ensures(i);
    assert forall|a: int, b: int| 0 <= a < b < s2.len() implies s2[a].0 < s2[b].0 by {
        if b < i {
            assert(s2[a] == s[a]);
            assert(s2[b] == s[b]);
        } else if a < i && b >= i {
            assert(s2[a] == s[a]);
            assert(s2[b] == s[b + 1]);
        } else {
            assert(s2[a] == s[a + 1]);
            assert(s2[b] == s[b + 1]);
        }
    }
    assert forall|j: int| 0 <= j < s2.len() implies (#[trigger] s2[j]).0 != s[i].0 by {
        if j < i {
            assert(s2[j] == s[j]);
            assert(s[j].0 < s[i].0);
        } else {
            assert(s2[j] == s[j + 1]);
            assert(s[i].0 < s[j + 1].0);
        }
    }
    lemma_lookup_absent(s2, s[i].0);
    assert forall|k: u64| k != s[i].0 implies #[trigger] spec_lookup(s2, k) == spec_lookup(s, k) by {
        lemma_lookup_remove_other(s, i, k);
    }
}

/// Sorted lists are canonical: two of them holding the same mapping are
/// the same list. In particular, revoking a grant leaves the very list
/// that never granting it would have left.
pub proof fn lemma_sorted_lookup_canonical<V>(s1: Seq<(u64, V)>, s2: Seq<(u64, V)>)
    requires
        keys_strictly_sorted(s1),
        keys_strictly_sorted(s2),
        forall|k: u64| #[trigger] spec_lookup(s1, k) == spec_lookup(s2, k),
    ensures
        s1 == s2,
    decreases s1.len() + s2.len(),
{
    if s1.len() == 0 && s2.len() == 0 {
        assert(s1 =~= s2);
    } else if s1.len() == 0 {
        lemma_lookup_at(s2, 0);
        lemma_lookup_absent(s1, s2[0].0);
    } else if s2.len() == 0 {
        lemma_lookup_at(s1, 0);
        lemma_lookup_absent(s2, s1[0].0);
    } else {
        lemma_lookup_at(s1, 0);
        lemma_lookup_at(s2, 0);
        if s1[0].0 < s2[0].0 {
            assert forall|j: int| 0 <= j < s2.len() implies (#[trigger] s2[j]).0 != s1[0].0 by {
                if j > 0 {
                    assert(s2[0].0 < s2[j].0);
                }
            }
            lemma_lookup_absent(s2, s1[0].0);
        } else if s2[0].0 < s1[0].0 {
            assert forall|j: int| 0 <= j < s1.len() implies (#[trigger] s1[j]).0 != s2[0].0 by {
                if j > 0 {
                    assert(s1[0].0 < s1[j].0);
                }
            }
            lemma_lookup_absent(s1, s2[0].0);
        } else {
            let k0 = s1[0].0;
            assert(spec_lookup(s1, k0) == Some(s1[0].1));
            assert(spec_lookup(s2, k0) == Some(s2[0].1));
            assert(s1[0].1 == s2[0].1);
            assert(keys_strictly_sorted(s1.drop_first()));
            assert(keys_strictly_sorted(s2.drop_first()));
            assert forall|k: u64| true implies #[trigger] spec_lookup(s1.drop_first(), k)
                == spec_lookup(s2.drop_first(), k) by {
                if k == k0 {
                    assert forall|j: int| 0 <= j < s1.drop_first().len()
                        implies (#[trigger] s1.drop_first()[j]).0 != k by {
                        assert(s1.drop_first()[j] == s1[j + 1]);
                        assert(s1[0].0 < s1[j + 1].0);
                    }
                    lemma_lookup_absent(s1.drop_first(), k);
                    assert forall|j: int| 0 <= j < s2.drop_first().len()
                        implies (#[trigger] s2.drop_first()[j]).0 != k by {
                        assert(s2.drop_first()[j] == s2[j + 1]);
                        assert(s2[0].0 < s2[j + 1].0);
                    }
                    lemma_lookup_absent(s2.drop_first(), k);
                } else {
                    assert(spec_lookup(s1, k) == spec_lookup(s1.drop_first(), k));
                    assert(spec_lookup(s2, k) == spec_lookup(s2.drop_first(), k));
                }
            }
            lemma_sorted_lookup_canonical(s1.drop_first(), s2.drop_first());
            assert forall|j: int| 0 <= j < s1.len() implies s1[j] == s2[j] by {
                if j > 0 {
                    assert(s1[j] == s1.drop_first()[j - 1]);
                    assert(s2[j] == s2.drop_first()[j - 1]);
                }
            }
            assert(s1 =~= s2);
        }
    }
}

/// Removing an entry and inserting a replacement at the same position
/// is the same as updating that position in place.
pub proof fn lemma_remove_insert_is_update<V>(s: Seq<(u64, V)>, i: int, e: (u64, V))
    requires
        0 <= i < s.len(),
    ensures
        s.remove(i).insert(i, e) == s.update(i, e),
{
    s.remove_ensures(i);
    s.remove(i).insert_ensures(i, e);
    assert forall|j: int| 0 <= j < s.len() implies s.remove(i).insert(i, e)[j] == s.update(
        i,
        e,
    )[j] by {
        if j < i {
            assert(s.remove(i).insert(i, e)[j] == s.remove(i)[j]);
        } else if j > i {
            assert(s.remove(i).insert(i, e)[j] == s.remove(i)[j - 1]);
            assert(s.remove(i)[j - 1] == s[j]);
        }
    }
    assert(s.remove(i).insert(i, e) =~= s.update(i, e));
}

/// Finds the entry holding `k`: `Ok(i)` when entry `i` holds it,
/// otherwise `Err(i)` with `i` the position where `k` would be inserted
/// to keep the order.
pub(crate) fn locate_key<V>(entries: &Vec<(u64, V)>, k: u64) -> (r: Result<usize, usize>)
    requires
        keys_strictly_sorted(entries@),
    ensures
        match r {
            Ok(i) => 0 <= i < entries@.len() && entries@[i as int].0 == k,
            Err(i) => {
                &&& i <= entries@.len()
                &&& forall|j: int| 0 <= j < entries@.len() ==> (#[trigger] entries@[j]).0 != k
                &&& forall|j: int| 0 <= j < i ==> (#[trigger] entries@[j]).0 < k
                &&& forall|j: int| i <= j < entries@.len() ==> (#[trigger] entries@[j]).0 > k
            },
        },
{
    let n = entries.len();
    let mut i: usize = 0;
    while i < n
        invariant
            i <= n,
            n == entries@.len(),
            keys_strictly_sorted(entries@),
            forall|j: int| 0 <= j < i ==> (#[trigger] entries@[j]).0 < k,
        decreases n - i,
    {
        let key = entries[i].0;
        if key == k {
            return Ok(i);
        }
        if key > k {
            assert forall|j: int| i <= j < entries@.len()
                implies (#[trigger] entries@[j]).0 > k by {
                if j > i {
                    assert(entries@[i as int].0 < entries@[j].0);
                }
            }
            return Err(i);
        }
        i = i + 1;
    }
    Err(n)
}

} // verus!
