//! Association lists keyed by chunk position.
//!
//! Both the terrain store and the evicted-entity store are maps from a
//! [`ChunkPosition`] to per-chunk data, kept as vectors of key/value pairs
//! with unique keys.  The spec functions here give such a list its lookup
//! and removal semantics; the lemmas characterize them positionally, which
//! is the form the executable searches establish.

use vstd::prelude::*;

use crate::coords::ChunkPosition;

verus! {

/// First value stored under key `c`, if any.
pub open spec fn assoc_find<V>(s: Seq<(ChunkPosition, V)>, c: ChunkPosition) -> Option<V>
    decreases s.len(),
{
    if s.len() == 0 {
        None
    } else if s[0].0 == c {
        Some(s[0].1)
    } else {
        assoc_find(s.drop_first(), c)
    }
}

/// Whether some entry carries key `c`.
pub open spec fn assoc_has<V>(s: Seq<(ChunkPosition, V)>, c: ChunkPosition) -> bool {
    assoc_find(s, c) is Some
}

/// The list with the first entry keyed `c` taken out.
pub open spec fn assoc_remove<V>(s: Seq<(ChunkPosition, V)>, c: ChunkPosition) -> Seq<
    (ChunkPosition, V),
>
    decreases s.len(),
{
    if s.len() == 0 {
        s
    } else if s[0].0 == c {
        s.drop_first()
    } else {
        seq![s[0]] + assoc_remove(s.drop_first(), c)
    }
}

/// Keys are pairwise distinct.
pub open spec fn keys_unique<V>(s: Seq<(ChunkPosition, V)>) -> bool {
    forall|i: int, j: int|
        0 <= i < j < s.len() ==> (#[trigger] s[i]).0 != (#[trigger] s[j]).0
}

/// If the first entry keyed `c` sits at index `i`, lookup returns its value
/// and removal removes exactly that index.
pub proof fn lemma_assoc_at<V>(s: Seq<(ChunkPosition, V)>, c: ChunkPosition, i: int)
    requires
        0 <= i < s.len(),
        s[i].0 == c,
        forall|j: int| 0 <= j < i ==> (#[trigger] s[j]).0 != c,
    ensures
        assoc_find(s, c) == Some(s[i].1),
        assoc_remove(s, c) == s.remove(i),
    decreases s.len(),
{
    if i == 0 {
        assert(assoc_remove(s, c) =~= s.remove(0));
    } else {
        lemma_assoc_at(s.drop_first(), c, i - 1);
        assert(s.drop_first()[i - 1] == s[i]);
        assert(assoc_remove(s, c) =~= s.remove(i)) by {
            assert(assoc_remove(s, c) == seq![s[0]] + assoc_remove(s.drop_first(), c));
            assert(assoc_remove(s.drop_first(), c) == s.drop_first().remove(i - 1));
            assert((seq![s[0]] + s.drop_first().remove(i - 1)) =~= s.remove(i));
        }
    }
}

/// If no entry carries key `c`, lookup misses and removal is the identity.
pub proof fn lemma_assoc_absent<V>(s: Seq<(ChunkPosition, V)>, c: ChunkPosition)
    requires
        forall|j: int| 0 <= j < s.len() ==> (#[trigger] s[j]).0 != c,
    ensures
        assoc_find(s, c) == None::<V>,
        assoc_remove(s, c) == s,
    decreases s.len(),
{
    if s.len() > 0 {
        lemma_assoc_absent(s.drop_first(), c);
        assert(assoc_remove(s, c) =~= s);
    }
}

/// Lookup hits exactly when some entry carries the key.
pub proof fn lemma_assoc_has_exists<V>(s: Seq<(ChunkPosition, V)>, c: ChunkPosition)
    ensures
        assoc_has(s, c) <==> exists|j: int| 0 <= j < s.len() && (#[trigger] s[j]).0 == c,
    decreases s.len(),
{
    if s.len() > 0 {
        lemma_assoc_has_exists(s.drop_first(), c);
        if s[0].0 != c {
            assert forall|j: int|
                0 <= j < s.drop_first().len() && (#[trigger] s.drop_first()[j]).0
                    == c implies exists|j2: int| 0 <= j2 < s.len() && (#[trigger] s[j2]).0 == c by {
                assert(s[j + 1].0 == c);
            }
            if exists|j: int| 0 <= j < s.len() && (#[trigger] s[j]).0 == c {
                let j = choose|j: int| 0 <= j < s.len() && (#[trigger] s[j]).0 == c;
                assert(s.drop_first()[j - 1].0 == c);
            }
        }
    }
}

/// Lookup in a concatenation scans the front part first.
pub proof fn lemma_assoc_append<V>(
    s1: Seq<(ChunkPosition, V)>,
    s2: Seq<(ChunkPosition, V)>,
    c: ChunkPosition,
)
    ensures
        assoc_find(s1 + s2, c) == if assoc_has(s1, c) {
            assoc_find(s1, c)
        } else {
            assoc_find(s2, c)
        },
    decreases s1.len(),
{
    if s1.len() == 0 {
        assert(s1 + s2 =~= s2);
    } else {
        lemma_assoc_append(s1.drop_first(), s2, c);
        assert((s1 + s2).drop_first() =~= s1.drop_first() + s2);
    }
}

/// With unique keys, removing key `c` keeps the other entries' lookups and
/// the uniqueness of keys, and drops `c`'s own lookup.
pub proof fn lemma_assoc_remove_props<V>(s: Seq<(ChunkPosition, V)>, c: ChunkPosition)
    requires
        keys_unique(s),
    ensures
        keys_unique(assoc_remove(s, c)),
        forall|d: ChunkPosition|
            #[trigger] assoc_find(assoc_remove(s, c), d) == if d == c {
                None::<V>
            } else {
                assoc_find(s, d)
            },
    decreases s.len(),
{
    if s.len() > 0 {
        if s[0].0 == c {
            assert forall|d: ChunkPosition|
                #[trigger] assoc_find(assoc_remove(s, c), d) == (if d == c {
                    None::<V>
                } else {
                    assoc_find(s, d)
                }) by {
                if d == c {
                    lemma_assoc_has_exists(s.drop_first(), c);
                    if assoc_has(s.drop_first(), c) {
                        let j = choose|j: int|
                            0 <= j < s.drop_first().len() && (#[trigger] s.drop_first()[j]).0 == c;
                        assert(s[j + 1].0 == c && s[0].0 == c);
                    }
                }
            }
        } else {
            assert(keys_unique(s.drop_first()));
            lemma_assoc_remove_props(s.drop_first(), c);
            let r = assoc_remove(s, c);
            assert(r == seq![s[0]] + assoc_remove(s.drop_first(), c));
            assert forall|d: ChunkPosition|
                #[trigger] assoc_find(r, d) == (if d == c {
                    None::<V>
                } else {
                    assoc_find(s, d)
                }) by {
                assert(r.len() > 0);
                assert(r[0] == s[0]);
                assert(r.drop_first() =~= assoc_remove(s.drop_first(), c));
                if s[0].0 == d {
                    assert(assoc_find(r, d) == Some(s[0].1));
                    assert(assoc_find(s, d) == Some(s[0].1));
                } else {
                    assert(assoc_find(r, d) == assoc_find(assoc_remove(s.drop_first(), c), d));
                    assert(assoc_find(s, d) == assoc_find(s.drop_first(), d));
                }
            }
            assert forall|i: int, j: int| 0 <= i < j < r.len() implies (#[trigger] r[i]).0 != (
            #[trigger] r[j]).0 by {
                let r2 = assoc_remove(s.drop_first(), c);
                if i == 0 {
                    assert(r[j] == r2[j - 1]);
                    lemma_assoc_has_exists(r2, r2[j - 1].0);
                    assert(assoc_has(r2, r2[j - 1].0));
                    assert(assoc_find(r2, r2[j - 1].0) == assoc_find(s.drop_first(), r2[j - 1].0));
                    lemma_assoc_has_exists(s.drop_first(), r2[j - 1].0);
                    let k = choose|k: int|
                        0 <= k < s.drop_first().len() && (#[trigger] s.drop_first()[k]).0 == r2[j
                            - 1].0;
                    assert(s[k + 1].0 == r2[j - 1].0);
                } else {
                    assert(r[i] == r2[i - 1] && r[j] == r2[j - 1]);
                }
            }
        }
    }
}

/// Index of the first entry keyed `c`, scanning front to back.
pub fn assoc_index_of<V>(s: &Vec<(ChunkPosition, V)>, c: &ChunkPosition) -> (r: Option<usize>)
    ensures
        match r {
            Some(i) => i < s@.len() && s@[i as int].0 == c && (forall|j: int|
                0 <= j < i ==> (#[trigger] s@[j]).0 != c),
            None => forall|j: int| 0 <= j < s@.len() ==> (#[trigger] s@[j]).0 != c,
        },
{
    let mut i: usize = 0;
    while i < s.len()
        invariant
            0 <= i <= s@.len(),
            forall|j: int| 0 <= j < i ==> (#[trigger] s@[j]).0 != c,
        decreases s@.len() - i,
    {
        if s[i].0 == *c {
            return Some(i);
        }
        i = i + 1;
    }
    None
}

/// Whether the list of chunk positions holds `c`.
pub fn chunk_list_contains(s: &Vec<ChunkPosition>, c: &ChunkPosition) -> (r: bool)
    ensures
        r == s@.contains(*c),
{
    let mut i: usize = 0;
    while i < s.len()
        invariant
            0 <= i <= s@.len(),
            forall|j: int| 0 <= j < i ==> s@[j] != c,
        decreases s@.len() - i,
    {
        if s[i] == *c {
            assert(s@.contains(*c));
            return true;
        }
        i = i + 1;
    }
    false
}

} // verus!
