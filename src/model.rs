//! The mathematical model of the index: a finite map from keys to values,
//! obtained from the ascending sequence of entries stored in the leaves.
use vstd::prelude::*;

verus! {

/// Why a tree could not be built.
#[derive(Debug, Clone, Copy, PartialEq, Eq, Structural)]
pub enum TreeError {
    /// The maximum degree is below three, too small to keep the minimum and
    /// maximum occupancy apart.
    InvalidConfiguration,
}

/// One stored association: a key and its value.
pub type Entry = (u32, u32);

/// The keys of `s` are strictly ascending (hence unique).
pub open spec fn sorted_by_key(s: Seq<Entry>) -> bool {
    forall|i: int, j: int| 0 <= i < j < s.len() ==> #[trigger] s[i].0 < #[trigger] s[j].0
}

/// Some entry of `s` has the key `k`.
pub open spec fn has_key(s: Seq<Entry>, k: u32) -> bool {
    exists|i: int| 0 <= i < s.len() && #[trigger] s[i].0 == k
}

/// The map that a sequence of entries describes.
pub open spec fn to_map(s: Seq<Entry>) -> Map<u32, u32> {
    Map::new(
        |k: u32| has_key(s, k),
        |k: u32| s[choose|i: int| 0 <= i < s.len() && #[trigger] s[i].0 == k].1,
    )
}

/// The value behind an optional reference.
pub open spec fn copied(o: Option<&u32>) -> Option<u32> {
    match o {
        Some(v) => Some(*v),
        None => None,
    }
}

/// What a lookup of `k` in `m` gives.
pub open spec fn lookup(m: Map<u32, u32>, k: u32) -> Option<u32> {
    if m.contains_key(k) {
        Some(m[k])
    } else {
        None
    }
}

/// The map after inserting `k` with `v`: a key that is already present keeps
/// the value it already has.
pub open spec fn inserted(m: Map<u32, u32>, k: u32, v: u32) -> Map<u32, u32> {
    if m.contains_key(k) {
        m
    } else {
        m.insert(k, v)
    }
}

/// The map after removing `k`.
pub open spec fn removed(m: Map<u32, u32>, k: u32) -> Map<u32, u32> {
    m.remove(k)
}

/// The map after inserting each of `ks` in turn, each key as its own value.
pub open spec fn inserted_all(m: Map<u32, u32>, ks: Seq<u32>) -> Map<u32, u32>
    decreases ks.len(),
{
    if ks.len() == 0 {
        m
    } else {
        inserted(inserted_all(m, ks.drop_last()), ks.last(), ks.last())
    }
}

/// In a sorted sequence, an entry found under key `k` gives the value that
/// the map holds for `k`.
pub proof fn lemma_to_map_at(s: Seq<Entry>, i: int)
    requires
        sorted_by_key(s),
        0 <= i < s.len(),
    ensures
        to_map(s).contains_key(s[i].0),
        to_map(s)[s[i].0] == s[i].1,
{
    let k = s[i].0;
    assert(has_key(s, k));
    let j = choose|j: int| 0 <= j < s.len() && #[trigger] s[j].0 == k;
    if j < i {
        assert(s[j].0 < s[i].0);
    } else if i < j {
        assert(s[i].0 < s[j].0);
    }
}

/// Inserting an absent key at its place in a sorted sequence inserts it into
/// the map.
pub proof fn lemma_to_map_insert(s: Seq<Entry>, p: int, e: Entry)
    requires
        0 <= p <= s.len(),
        sorted_by_key(s.insert(p, e)),
    ensures
        sorted_by_key(s),
        !to_map(s).contains_key(e.0),
        to_map(s.insert(p, e)) == to_map(s).insert(e.0, e.1),
{
    let t = s.insert(p, e);
    assert forall|i: int, j: int| 0 <= i < j < s.len() implies #[trigger] s[i].0 < #[trigger] s[j].0 by {
        let i2 = if i < p { i } else { i + 1 };
        let j2 = if j < p { j } else { j + 1 };
        assert(t[i2] == s[i] && t[j2] == s[j]);
    }
    if has_key(s, e.0) {
        let i = choose|i: int| 0 <= i < s.len() && #[trigger] s[i].0 == e.0;
        let i2 = if i < p { i } else { i + 1 };
        assert(t[i2] == s[i] && t[p] == e);
    }
    assert forall|k: u32| #[trigger] to_map(t).contains_key(k) == to_map(s).insert(e.0, e.1).contains_key(k) by {
        if k == e.0 {
            assert(t[p] == e);
        }
        if has_key(s, k) {
            let i = choose|i: int| 0 <= i < s.len() && #[trigger] s[i].0 == k;
            let i2 = if i < p { i } else { i + 1 };
            assert(t[i2] == s[i]);
        }
        if has_key(t, k) {
            let i = choose|i: int| 0 <= i < t.len() && #[trigger] t[i].0 == k;
            if i < p {
                assert(s[i] == t[i]);
            } else if i > p {
                assert(s[i - 1] == t[i]);
            }
        }
    }
    assert forall|k: u32| #[trigger] to_map(t).contains_key(k) implies to_map(t)[k] == to_map(s).insert(e.0, e.1)[k] by {
        let i = choose|i: int| 0 <= i < t.len() && #[trigger] t[i].0 == k;
        lemma_to_map_at(t, i);
        if i < p {
            assert(s[i] == t[i]);
            lemma_to_map_at(s, i);
        } else if i > p {
            assert(s[i - 1] == t[i]);
            lemma_to_map_at(s, i - 1);
        }
    }
    assert(to_map(t) =~= to_map(s).insert(e.0, e.1));
}

/// Removing the entry at `p` of a sorted sequence removes its key from the map.
pub proof fn lemma_to_map_remove(s: Seq<Entry>, p: int)
    requires
        sorted_by_key(s),
        0 <= p < s.len(),
    ensures
        sorted_by_key(s.remove(p)),
        to_map(s.remove(p)) == to_map(s).remove(s[p].0),
        to_map(s).contains_key(s[p].0),
        to_map(s)[s[p].0] == s[p].1,
{
    let t = s.remove(p);
    lemma_to_map_at(s, p);
    assert forall|i: int, j: int| 0 <= i < j < t.len() implies #[trigger] t[i].0 < #[trigger] t[j].0 by {
        let i2 = if i < p { i } else { i + 1 };
        let j2 = if j < p { j } else { j + 1 };
        assert(t[i] == s[i2] && t[j] == s[j2]);
    }
    lemma_to_map_insert(t, p, s[p]);
    assert(t.insert(p, s[p]) =~= s);
    assert(to_map(s).remove(s[p].0) =~= to_map(t));
}

/// After `insert(k, v)`, a lookup of `k` gives `v`, unless `k` was already
/// present, in which case it gives the value stored first; other keys are
/// untouched.
pub proof fn lemma_get_after_insert(m: Map<u32, u32>, k: u32, v: u32, other: u32)
    ensures
        lookup(inserted(m, k, v), k) == (if m.contains_key(k) {
            Some(m[k])
        } else {
            Some(v)
        }),
        other != k ==> lookup(inserted(m, k, v), other) == lookup(m, other),
{
}

/// After `remove(k)`, a lookup of `k` finds nothing, and every other key keeps
/// its value.
pub proof fn lemma_get_after_remove(m: Map<u32, u32>, k: u32, other: u32)
    ensures
        lookup(removed(m, k), k) == None::<u32>,
        other != k ==> lookup(removed(m, k), other) == lookup(m, other),
{
}

} // verus!
