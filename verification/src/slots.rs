//! The mathematical model of the backing buffer: a sequence of slots, each
//! either a key or a gap, with counting, ordering and membership lemmas.
use vstd::prelude::*;

verus! {

/// The slot at `i` holds a key.
pub open spec fn slot_full(s: Seq<Option<i32>>, i: int) -> bool {
    s[i] is Some
}

/// The key held at `i` (meaningful only when the slot is full).
pub open spec fn key_at(s: Seq<Option<i32>>, i: int) -> i32 {
    s[i]->0
}

/// Occupied slots, read left to right ignoring gaps, hold strictly ascending keys.
pub open spec fn keys_sorted(s: Seq<Option<i32>>) -> bool {
    forall|i: int, j: int|
        0 <= i < j < s.len() && slot_full(s, i) && slot_full(s, j) ==> key_at(s, i) < key_at(
            s,
            j,
        )
}

/// Some slot holds the key `v`.
pub open spec fn has_key(s: Seq<Option<i32>>, v: i32) -> bool {
    exists|i: int| 0 <= i < s.len() && s[i] == Some(v)
}

/// The number of occupied slots with index in `[a, b)`.
pub open spec fn occ_in(s: Seq<Option<i32>>, a: int, b: int) -> int
    decreases b - a,
{
    if a >= b {
        0
    } else {
        occ_in(s, a, b - 1) + if slot_full(s, b - 1) {
            1int
        } else {
            0int
        }
    }
}

pub proof fn lemma_occ_in_bounds(s: Seq<Option<i32>>, a: int, b: int)
    ensures
        0 <= occ_in(s, a, b),
        a <= b ==> occ_in(s, a, b) <= b - a,
    decreases b - a,
{
    if a < b {
        lemma_occ_in_bounds(s, a, b - 1);
    }
}

pub proof fn lemma_occ_in_split(s: Seq<Option<i32>>, a: int, b: int, c: int)
    requires
        a <= b <= c,
    ensures
        occ_in(s, a, c) == occ_in(s, a, b) + occ_in(s, b, c),
    decreases c - b,
{
    if b < c {
        lemma_occ_in_split(s, a, b, c - 1);
    }
}

pub proof fn lemma_occ_in_agree(s1: Seq<Option<i32>>, s2: Seq<Option<i32>>, a: int, b: int)
    requires
        forall|k: int| a <= k < b ==> s1[k] == s2[k],
    ensures
        occ_in(s1, a, b) == occ_in(s2, a, b),
    decreases b - a,
{
    if a < b {
        lemma_occ_in_agree(s1, s2, a, b - 1);
    }
}

pub proof fn lemma_occ_in_update(s: Seq<Option<i32>>, i: int, v: Option<i32>, a: int, b: int)
    requires
        0 <= i < s.len(),
        0 <= a,
        b <= s.len(),
    ensures
        occ_in(s.update(i, v), a, b) == occ_in(s, a, b) + if a <= i < b {
            (if v is Some {
                1int
            } else {
                0int
            }) - (if slot_full(s, i) {
                1int
            } else {
                0int
            })
        } else {
            0int
        },
    decreases b - a,
{
    if a < b {
        lemma_occ_in_update(s, i, v, a, b - 1);
    }
}

pub proof fn lemma_occ_in_all_full(s: Seq<Option<i32>>, a: int, b: int)
    requires
        a <= b,
        forall|k: int| a <= k < b ==> slot_full(s, k),
    ensures
        occ_in(s, a, b) == b - a,
    decreases b - a,
{
    if a < b {
        lemma_occ_in_all_full(s, a, b - 1);
    }
}

pub proof fn lemma_occ_in_all_empty(s: Seq<Option<i32>>, a: int, b: int)
    requires
        forall|k: int| a <= k < b ==> !slot_full(s, k),
    ensures
        occ_in(s, a, b) == 0,
    decreases b - a,
{
    if a < b {
        lemma_occ_in_all_empty(s, a, b - 1);
    }
}

/// A range with fewer keys than slots has a gap somewhere.
pub proof fn lemma_sparse_range_has_gap(s: Seq<Option<i32>>, a: int, b: int)
    requires
        a <= b,
        occ_in(s, a, b) < b - a,
    ensures
        exists|k: int| a <= k < b && !slot_full(s, k),
    decreases b - a,
{
    if a < b {
        if slot_full(s, b - 1) {
            lemma_sparse_range_has_gap(s, a, b - 1);
            let k = choose|k: int| a <= k < b - 1 && !slot_full(s, k);
            assert(a <= k < b && !slot_full(s, k));
        } else {
            assert(a <= b - 1 < b && !slot_full(s, b - 1));
        }
    }
}

/// Instantiates `keys_sorted` for one pair of occupied slots.
pub proof fn lemma_sorted_pair(s: Seq<Option<i32>>, i: int, j: int)
    requires
        keys_sorted(s),
        0 <= i < j < s.len(),
        slot_full(s, i),
        slot_full(s, j),
    ensures
        key_at(s, i) < key_at(s, j),
{
}

/// In a sorted buffer a key occupies at most one slot.
pub proof fn lemma_sorted_key_unique(s: Seq<Option<i32>>, i: int, j: int)
    requires
        keys_sorted(s),
        0 <= i < s.len(),
        0 <= j < s.len(),
        s[i] == s[j],
        slot_full(s, i),
    ensures
        i == j,
{
    assert(slot_full(s, j));
    assert(key_at(s, i) == key_at(s, j));
    if i < j {
        assert(key_at(s, i) < key_at(s, j));
    } else if j < i {
        assert(key_at(s, j) < key_at(s, i));
    }
}

/// Moving the key at `r` to the empty slot `t`, crossing only gaps, keeps the
/// order of keys and the set of keys.
pub proof fn lemma_move_slot(s: Seq<Option<i32>>, r: int, t: int)
    requires
        0 <= r < s.len(),
        0 <= t < s.len(),
        r != t,
        slot_full(s, r),
        !slot_full(s, t),
        forall|k: int|
            (if r < t {
                r < k < t
            } else {
                t < k < r
            }) ==> !slot_full(s, k),
    ensures
        keys_sorted(s) ==> keys_sorted(s.update(t, s[r]).update(r, None)),
        forall|v: i32| has_key(s.update(t, s[r]).update(r, None), v) == has_key(s, v),
{
    let s2 = s.update(t, s[r]).update(r, None);
    assert(s2.len() == s.len());
    assert(s2[t] == s[r]);
    assert(s2[r] is None);
    assert(forall|k: int| 0 <= k < s.len() && k != r && k != t ==> s2[k] == s[k]);
    if keys_sorted(s) {
        assert forall|i: int, j: int|
            0 <= i < j < s2.len() && slot_full(s2, i) && slot_full(s2, j) implies key_at(s2, i)
            < key_at(s2, j) by {
            assert(i != r && j != r);
            let si: int = if i == t {
                r
            } else {
                i
            };
            let sj: int = if j == t {
                r
            } else {
                j
            };
            assert(s2[i] == s[si]);
            assert(s2[j] == s[sj]);
            if i == t {
                // the key now at t came from r; every full slot right of t was right of r
                if j < r {
                    assert(t < j < r);
                    assert(!slot_full(s, j));
                    assert(false);
                }
            } else if j == t {
                if r < i {
                    assert(t > i && r < i < t);
                    assert(!slot_full(s, i));
                    assert(false);
                }
            }
            assert(si < sj);
            assert(slot_full(s, si) && slot_full(s, sj));
            assert(key_at(s, si) < key_at(s, sj));
            assert(key_at(s2, i) == key_at(s, si));
            assert(key_at(s2, j) == key_at(s, sj));
        }
    }
    assert forall|v: i32| has_key(s2, v) implies has_key(s, v) by {
        let i = choose|i: int| 0 <= i < s2.len() && s2[i] == Some(v);
        if i == t {
            assert(s[r] == Some(v));
        } else {
            assert(s[i] == Some(v));
        }
    }
    assert forall|v: i32| has_key(s, v) implies has_key(s2, v) by {
        let i = choose|i: int| 0 <= i < s.len() && s[i] == Some(v);
        if i == r {
            assert(s2[t] == Some(v));
        } else if i == t {
            assert(false);
        } else {
            assert(s2[i] == Some(v));
        }
    }
}

} // verus!
