//! Properties that relate binding, building and lookup.

use vstd::prelude::*;

use crate::key::{lemma_bytes_injective, Key, Locks};
use crate::order::lemma_sorted_unique;
use crate::table::{
    bind_entries, conflicting, fst_image, is_layout, layout_of, lemma_layout_exists,
    lock_variants_spec, lookup_in, represents,
};

verus! {

/// Two chords bound to commands 0 and 1, whose lock variants are all
/// different chords, can be built into one table; in it the first chord finds
/// command 0, the second command 1, and a chord that is none of their
/// variants finds nothing.
pub proof fn law_two_bindings_lookup(locks: Locks, c1: Key, c2: Key, c3: Key, t: Map<Seq<u8>, u64>)
    requires
        forall|i: int, j: int|
            0 <= i < 4 && 0 <= j < 4 ==> #[trigger] lock_variants_spec(locks, c1)[i]
                != #[trigger] lock_variants_spec(locks, c2)[j],
        forall|i: int|
            0 <= i < 4 ==> c3 != #[trigger] lock_variants_spec(locks, c1)[i] && c3
                != lock_variants_spec(locks, c2)[i],
        represents(t, bind_entries(locks, c1, 0) + bind_entries(locks, c2, 1)),
    ensures
        !conflicting(bind_entries(locks, c1, 0) + bind_entries(locks, c2, 1)),
        lookup_in(t, 2, c1) == Some(0usize),
        lookup_in(t, 2, c2) == Some(1usize),
        lookup_in(t, 2, c3) is None,
{
    let v1 = lock_variants_spec(locks, c1);
    let v2 = lock_variants_spec(locks, c2);
    let e1 = bind_entries(locks, c1, 0);
    let e2 = bind_entries(locks, c2, 1);
    let s = e1 + e2;
    assert forall|i: int, j: int|
        0 <= i < s.len() && 0 <= j < s.len() && #[trigger] s[i].0 == #[trigger] s[j].0 implies s[i].1
        == s[j].1 by {
        if i < 4 && j >= 4 {
            lemma_bytes_injective(v1[i], v2[j - 4]);
        } else if i >= 4 && j < 4 {
            lemma_bytes_injective(v1[j], v2[i - 4]);
        }
    }
    assert(s[0] == (c1.spec_bytes(), 0u64));
    assert(s.contains((c1.spec_bytes(), 0u64)));
    assert(s[4] == (c2.spec_bytes(), 1u64));
    assert(s.contains((c2.spec_bytes(), 1u64)));
    if t.contains_key(c3.spec_bytes()) {
        let v = t[c3.spec_bytes()];
        assert(s.contains((c3.spec_bytes(), v)));
        let i = choose|i: int| 0 <= i < s.len() && s[i] == (c3.spec_bytes(), v);
        if i < 4 {
            lemma_bytes_injective(c3, v1[i]);
        } else {
            lemma_bytes_injective(c3, v2[i - 4]);
        }
    }
}

/// Binding one chord to two different commands in one build makes the
/// entries conflict, so the build fails.
pub proof fn law_rebinding_conflicts(
    locks: Locks,
    before: Seq<(Seq<u8>, u64)>,
    between: Seq<(Seq<u8>, u64)>,
    key: Key,
    i: u64,
    j: u64,
)
    requires
        i != j,
    ensures
        conflicting(before + bind_entries(locks, key, i) + between + bind_entries(locks, key, j)),
{
    let s = before + bind_entries(locks, key, i) + between + bind_entries(locks, key, j);
    let a = before.len() as int;
    let b = before.len() + 4 + between.len() as int;
    assert(s[a] == (key.spec_bytes(), i));
    assert(s[b] == (key.spec_bytes(), j));
    assert(s[a].0 == s[b].0 && s[a].1 != s[b].1);
}

/// Where the lock keys add no modifier, the four lock variants of a chord are
/// the chord itself: binding it alone does not conflict, and every variant
/// finds its command.
pub proof fn law_unlocked_variants_collapse(locks: Locks, key: Key, t: Map<Seq<u8>, u64>)
    requires
        locks.num_mask() == 0,
        locks.caps_mask() == 0,
        represents(t, bind_entries(locks, key, 0)),
    ensures
        !conflicting(bind_entries(locks, key, 0)),
        forall|i: int|
            0 <= i < 4 ==> lookup_in(t, 1, #[trigger] lock_variants_spec(locks, key)[i]) == Some(
                0usize,
            ),
{
    let m = key.mask;
    assert(m | 0 == m && m | 0 | 0 == m) by (bit_vector);
    let s = bind_entries(locks, key, 0);
    assert(lock_variants_spec(locks, key) =~= seq![key, key, key, key]);
    assert(s[0] == (key.spec_bytes(), 0u64));
    assert(s.contains((key.spec_bytes(), 0u64)));
}

/// Entries that hold the same bindings, in whatever order they were made, are
/// laid out alike, so their tables serialize to the same bytes; in particular
/// building twice from one sequence of bindings gives the same bytes.
pub proof fn law_finish_deterministic(s1: Seq<(Seq<u8>, u64)>, s2: Seq<(Seq<u8>, u64)>)
    requires
        !conflicting(s1),
        s1.to_set() == s2.to_set(),
    ensures
        layout_of(s1) == layout_of(s2),
        fst_image(layout_of(s1)) == fst_image(layout_of(s2)),
{
    lemma_layout_exists(s1);
    assert(is_layout(layout_of(s1), s2));
    lemma_sorted_unique(layout_of(s1), layout_of(s2));
}

} // verus!
