//! The opening that a tree gives of some of its leaves shows them to lie
//! under the tree's root.

use crate::algebraic_hasher::AlgebraicHasher;
use crate::digest::Digest;
use crate::merkle_tree::{
    authentication_structure_spec, covered_spec, determined_spec, mark_siblings_spec, node_spec,
    opened_spec, partial_path_spec, place_path_spec, placed_leaves_spec, placed_paths_spec,
    root_spec, seen_spec, sibling_spec, verify_spec,
};
use crate::power_of_two::{
    is_power_of_two_spec, lemma_log_2_floor_unique, log_2_ceil_spec, log_2_floor_spec,
};
use vstd::arithmetic::power2::{lemma_pow2_pos, lemma_pow2_unfold};
use vstd::prelude::*;

verus! {

/// Whether node `k` lies on the way from node `x` up to the root.
pub open spec fn on_path_spec(x: nat, k: nat) -> bool
    decreases x,
{
    x >= 1 && (x == k || on_path_spec(x / 2, k))
}

/// Whether each digest that `state` holds is that of its node in the tree
/// over `leaves`.
pub open spec fn entries_are_true<H: AlgebraicHasher>(
    state: Seq<Option<Digest>>,
    leaves: Seq<Digest>,
) -> bool {
    forall|k: int|
        0 <= k < state.len() ==> (#[trigger] state[k] is None || state[k] == Some(
            node_spec::<H>(leaves, k as nat),
        ))
}

/// Whether `state` holds the digest of each node that is flagged in `seen`
/// and is not covered.
pub open spec fn seen_are_given<H: AlgebraicHasher>(
    state: Seq<Option<Digest>>,
    seen: Seq<bool>,
    opened: Seq<bool>,
    leaves: Seq<Digest>,
) -> bool {
    forall|k: int|
        2 <= k < state.len() && #[trigger] seen[k] && !covered_spec(opened, k as nat) ==> state[k]
            == Some(node_spec::<H>(leaves, k as nat))
}

/// A partial path has one entry for each step from its leaf to the root.
pub proof fn lemma_partial_path_len<H: AlgebraicHasher>(
    leaves: Seq<Digest>,
    opened: Seq<bool>,
    seen: Seq<bool>,
    x: nat,
)
    ensures
        partial_path_spec::<H>(leaves, opened, seen, x).len() == log_2_floor_spec(x),
    decreases x,
{
    if x > 1 {
        lemma_partial_path_len::<H>(leaves, opened, seen, x / 2);
    }
}

/// Marking siblings sets flags and clears none, and keeps the number of
/// flags.
pub proof fn lemma_mark_siblings_keeps(seen: Seq<bool>, x: nat)
    requires
        x < seen.len(),
        seen.len() % 2 == 0,
    ensures
        mark_siblings_spec(seen, x).len() == seen.len(),
        forall|k: int| 0 <= k < seen.len() && seen[k] ==> #[trigger] mark_siblings_spec(seen, x)[k],
    decreases x,
{
    if x > 1 {
        lemma_mark_siblings_keeps(seen.update(sibling_spec(x) as int, true), x / 2);
    }
}

/// Marking the siblings along the way from `x` flags the sibling of each
/// node on the way, but for the root.
pub proof fn lemma_mark_siblings_marks(seen: Seq<bool>, x: nat, k: nat)
    requires
        x < seen.len(),
        seen.len() % 2 == 0,
        on_path_spec(x, k),
        k >= 2,
    ensures
        mark_siblings_spec(seen, x)[sibling_spec(k) as int],
    decreases x,
{
    if x > 1 {
        let next = seen.update(sibling_spec(x) as int, true);
        if x == k {
            lemma_mark_siblings_keeps(next, x / 2);
            assert(next[sibling_spec(k) as int]);
            assert(mark_siblings_spec(next, x / 2)[sibling_spec(k) as int]);
        } else {
            lemma_mark_siblings_marks(next, x / 2, k);
        }
    } else {
        assert(!on_path_spec(x / 2, k));
    }
}

/// The flags of the siblings seen have the tree's size, and stay set once
/// they are set.
pub proof fn lemma_seen_grows(indices: Seq<usize>, n: nat, count: nat, later: nat)
    requires
        count <= later <= indices.len(),
        n >= 1,
        forall|j: int| 0 <= j < indices.len() ==> indices[j] < n,
    ensures
        seen_spec(indices, n, count).len() == 2 * n,
        seen_spec(indices, n, later).len() == 2 * n,
        forall|k: int|
            0 <= k < 2 * n && seen_spec(indices, n, count)[k] ==> #[trigger] seen_spec(
                indices,
                n,
                later,
            )[k],
    decreases later,
{
    if later > 0 {
        if count < later {
            lemma_seen_grows(indices, n, count, (later - 1) as nat);
        } else {
            lemma_seen_grows(indices, n, (later - 1) as nat, (later - 1) as nat);
        }
        lemma_mark_siblings_keeps(
            seen_spec(indices, n, (later - 1) as nat),
            n + indices[later - 1] as nat,
        );
    }
}

/// The flags of the opened leaves have the tree's size; a flag is set
/// just where a leaf with one of the indices stands.
pub proof fn lemma_opened(indices: Seq<usize>, n: nat, count: nat)
    requires
        count <= indices.len(),
        forall|j: int| 0 <= j < indices.len() ==> indices[j] < n,
    ensures
        opened_spec(indices, n, count).len() == 2 * n,
        forall|k: int|
            0 <= k < 2 * n ==> (#[trigger] opened_spec(indices, n, count)[k] <==> exists|j: int|
                0 <= j < count && n + indices[j] == k),
    decreases count,
{
    if count > 0 {
        lemma_opened(indices, n, (count - 1) as nat);
        let before = opened_spec(indices, n, (count - 1) as nat);
        let after = opened_spec(indices, n, count);
        assert forall|k: int| 0 <= k < 2 * n implies (#[trigger] after[k] <==> exists|j: int|
            0 <= j < count && n + indices[j] == k) by {
            if after[k] {
                if k == n + indices[count - 1] {
                    assert(0 <= count - 1 < count && n + indices[count - 1] == k);
                } else {
                    assert(before[k]);
                    let j = choose|j: int| 0 <= j < count - 1 && n + indices[j] == k;
                    assert(0 <= j < count && n + indices[j] == k);
                }
            }
            if exists|j: int| 0 <= j < count && n + indices[j] == k {
                let j = choose|j: int| 0 <= j < count && n + indices[j] == k;
                if j < count - 1 {
                    assert(0 <= j < count - 1 && n + indices[j] == k);
                }
            }
        }
    }
}

/// A node on the way from one node to the root has its parent on the way
/// too.
pub proof fn lemma_on_path_parent(x: nat, k: nat)
    requires
        on_path_spec(x, k),
        k >= 2,
    ensures
        on_path_spec(x, k / 2),
    decreases x,
{
    if x != k {
        lemma_on_path_parent(x / 2, k);
    } else {
        assert(on_path_spec(x / 2, k / 2));
    }
}

/// A covered node lies on the way from an opened leaf to the root.
pub proof fn lemma_covered_has_leaf(opened: Seq<bool>, k: nat) -> (x: nat)
    requires
        opened.len() % 2 == 0,
        1 <= k < opened.len(),
        covered_spec(opened, k),
    ensures
        opened.len() / 2 <= x < opened.len(),
        opened[x as int],
        on_path_spec(x, k),
    decreases opened.len() - k,
{
    if 2 * k >= opened.len() {
        k
    } else if covered_spec(opened, 2 * k) {
        let x = lemma_covered_has_leaf(opened, 2 * k);
        lemma_on_path_parent(x, 2 * k);
        x
    } else {
        let x = lemma_covered_has_leaf(opened, 2 * k + 1);
        lemma_on_path_parent(x, 2 * k + 1);
        x
    }
}

/// Each node on the way from an opened leaf to the root is covered.
pub proof fn lemma_path_is_covered(opened: Seq<bool>, x: nat, k: nat)
    requires
        opened.len() % 2 == 0,
        1 <= x < opened.len(),
        covered_spec(opened, x),
        on_path_spec(x, k),
    ensures
        covered_spec(opened, k),
    decreases x,
{
    if x != k {
        if x == 1 {
            assert(!on_path_spec(0, k));
        }
        assert(x == 2 * (x / 2) || x == 2 * (x / 2) + 1);
        assert(covered_spec(opened, x / 2));
        lemma_path_is_covered(opened, x / 2, k);
    }
}

/// Placing the path that the tree gives for the leaf of node `x` keeps
/// all digests true, and gives the digest of each sibling that is newly
/// seen and not covered.
#[verifier::rlimit(50)]
pub proof fn lemma_place_true_path<H: AlgebraicHasher>(
    leaves: Seq<Digest>,
    opened: Seq<bool>,
    seen: Seq<bool>,
    state: Seq<Option<Digest>>,
    marks: Seq<bool>,
    path: Seq<Option<Digest>>,
    x: nat,
    level: nat,
)
    requires
        1 <= x < state.len(),
        state.len() % 2 == 0,
        marks.len() == state.len(),
        seen.len() == state.len(),
        level <= path.len(),
        path.subrange(level as int, path.len() as int) == partial_path_spec::<H>(
            leaves,
            opened,
            seen,
            x,
        ),
        entries_are_true::<H>(state, leaves),
        seen_are_given::<H>(state, marks, opened, leaves),
        x >= 2 ==> forall|k: int| 2 <= k <= x + 1 && k < state.len() ==> marks[k] == seen[k],
    ensures
        place_path_spec(state, path, x, level).len() == state.len(),
        entries_are_true::<H>(place_path_spec(state, path, x, level), leaves),
        seen_are_given::<H>(
            place_path_spec(state, path, x, level),
            mark_siblings_spec(marks, x),
            opened,
            leaves,
        ),
    decreases x,
{
    let rest = partial_path_spec::<H>(leaves, opened, seen, x);
    lemma_partial_path_len::<H>(leaves, opened, seen, x);
    if x > 1 {
        let s = sibling_spec(x);
        let entry = path[level as int];
        assert(entry == rest[0]);
        let next_state = if entry is Some {
            state.update(s as int, entry)
        } else {
            state
        };
        let next_marks = marks.update(s as int, true);
        assert(path.subrange(level as int + 1, path.len() as int) =~= partial_path_spec::<H>(
            leaves,
            opened,
            seen,
            x / 2,
        )) by {
            assert(rest.subrange(1, rest.len() as int) =~= partial_path_spec::<H>(
                leaves,
                opened,
                seen,
                x / 2,
            ));
            assert(path.subrange(level as int + 1, path.len() as int) =~= rest.subrange(
                1,
                rest.len() as int,
            ));
        };
        assert(entries_are_true::<H>(next_state, leaves));
        assert(seen_are_given::<H>(next_state, next_marks, opened, leaves)) by {
            assert forall|k: int|
                2 <= k < next_state.len() && #[trigger] next_marks[k] && !covered_spec(
                    opened,
                    k as nat,
                ) implies next_state[k] == Some(node_spec::<H>(leaves, k as nat)) by {
                if k == s {
                    if seen[s as int] {
                        assert(marks[s as int]);
                    }
                } else {
                    assert(marks[k]);
                }
            }
        };
        lemma_place_true_path::<H>(
            leaves,
            opened,
            seen,
            next_state,
            next_marks,
            path,
            x / 2,
            level + 1,
        );
    }
}

/// Placing the first `count` paths that the tree gives keeps all digests
/// true, and gives the digest of each sibling that was seen and is not
/// covered.
pub proof fn lemma_placed_true_paths<H: AlgebraicHasher>(
    leaves: Seq<Digest>,
    indices: Seq<usize>,
    count: nat,
)
    requires
        leaves.len() >= 1,
        count <= indices.len(),
        forall|j: int| 0 <= j < indices.len() ==> indices[j] < leaves.len(),
    ensures
        ({
            let n = leaves.len();
            let paths = authentication_structure_spec::<H>(leaves, indices);
            let state = placed_paths_spec(paths, indices, n, count);
            &&& state.len() == 2 * n
            &&& entries_are_true::<H>(state, leaves)
            &&& seen_are_given::<H>(
                state,
                seen_spec(indices, n, count),
                opened_spec(indices, n, indices.len()),
                leaves,
            )
        }),
    decreases count,
{
    let n = leaves.len();
    let paths = authentication_structure_spec::<H>(leaves, indices);
    let opened = opened_spec(indices, n, indices.len());
    if count > 0 {
        let j = (count - 1) as nat;
        lemma_placed_true_paths::<H>(leaves, indices, j);
        lemma_seen_grows(indices, n, j, j);
        let state = placed_paths_spec(paths, indices, n, j);
        let seen = seen_spec(indices, n, j);
        let x = n + indices[j as int] as nat;
        assert(paths[j as int].subrange(0, paths[j as int].len() as int) =~= paths[j as int]);
        lemma_place_true_path::<H>(leaves, opened, seen, state, seen, paths[j as int], x, 0);
    }
}

/// After the leaves are placed, each opened leaf has its digest, and each
/// other node what it had.
pub proof fn lemma_placed_leaves<H: AlgebraicHasher>(
    state: Seq<Option<Digest>>,
    leaves: Seq<Digest>,
    indices: Seq<usize>,
    count: nat,
)
    requires
        state.len() == 2 * leaves.len(),
        count <= indices.len(),
        forall|j: int| 0 <= j < indices.len() ==> indices[j] < leaves.len(),
    ensures
        ({
            let n = leaves.len();
            let shown = Seq::new(indices.len(), |j: int| leaves[indices[j] as int]);
            let given = placed_leaves_spec(state, shown, indices, n, count);
            let opened = opened_spec(indices, n, count);
            &&& given.len() == 2 * n
            &&& forall|k: int|
                0 <= k < 2 * n ==> #[trigger] given[k] == if opened[k] {
                    Some(node_spec::<H>(leaves, k as nat))
                } else {
                    state[k]
                }
        }),
    decreases count,
{
    lemma_opened(indices, leaves.len(), count);
    if count > 0 {
        lemma_placed_leaves::<H>(state, leaves, indices, (count - 1) as nat);
        lemma_opened(indices, leaves.len(), (count - 1) as nat);
    }
}

/// The digest that the opening determines for a covered node is the
/// node's digest in the tree.
#[verifier::rlimit(50)]
pub proof fn lemma_covered_is_determined<H: AlgebraicHasher>(
    leaves: Seq<Digest>,
    indices: Seq<usize>,
    k: nat,
)
    requires
        leaves.len() >= 1,
        forall|j: int| 0 <= j < indices.len() ==> indices[j] < leaves.len(),
        1 <= k < 2 * leaves.len(),
        covered_spec(opened_spec(indices, leaves.len(), indices.len()), k),
    ensures
        ({
            let n = leaves.len();
            let paths = authentication_structure_spec::<H>(leaves, indices);
            let shown = Seq::new(indices.len(), |j: int| leaves[indices[j] as int]);
            let given = placed_leaves_spec(
                placed_paths_spec(paths, indices, n, indices.len()),
                shown,
                indices,
                n,
                indices.len(),
            );
            determined_spec::<H>(given, opened_spec(indices, n, indices.len()), k) == Some(
                node_spec::<H>(leaves, k),
            )
        }),
    decreases 2 * leaves.len() - k,
{
    let n = leaves.len();
    let count = indices.len();
    let paths = authentication_structure_spec::<H>(leaves, indices);
    let shown = Seq::new(count, |j: int| leaves[indices[j] as int]);
    let placed = placed_paths_spec(paths, indices, n, count);
    let given = placed_leaves_spec(placed, shown, indices, n, count);
    let opened = opened_spec(indices, n, count);
    let seen = seen_spec(indices, n, count);
    lemma_placed_true_paths::<H>(leaves, indices, count);
    lemma_placed_leaves::<H>(placed, leaves, indices, count);
    lemma_opened(indices, n, count);
    if 2 * k >= 2 * n {
        assert(opened[k as int]);
        assert(given[k as int] == Some(node_spec::<H>(leaves, k)));
    } else {
        assert(covered_spec(opened, 2 * k) || covered_spec(opened, 2 * k + 1));
        assert forall|c: nat| c == 2 * k || c == 2 * k + 1 implies determined_spec::<H>(
            given,
            opened,
            c,
        ) == Some(node_spec::<H>(leaves, c)) by {
            if covered_spec(opened, c) {
                lemma_covered_is_determined::<H>(leaves, indices, c);
            } else {
                // The other child is covered, so this one was seen as a
                // sibling on the way from an opened leaf.
                let other = sibling_spec(c);
                assert(covered_spec(opened, other));
                let x = lemma_covered_has_leaf(opened, other);
                let j = choose|j: int| 0 <= j < count && n + indices[j] == x;
                lemma_seen_grows(indices, n, j as nat, j as nat);
                lemma_mark_siblings_marks(seen_spec(indices, n, j as nat), x, other);
                lemma_seen_grows(indices, n, (j + 1) as nat, count);
                assert(seen_spec(indices, n, (j + 1) as nat)[c as int]);
                assert(seen[c as int]);
                assert(placed[c as int] == Some(node_spec::<H>(leaves, c)));
                if c < n {
                    assert(!opened[c as int]) by {
                        if opened[c as int] {
                            let i = choose|i: int| 0 <= i < count && n + indices[i] == c;
                        }
                    };
                }
                assert(given[c as int] == placed[c as int]);
                assert(determined_spec::<H>(given, opened, c) == given[c as int]);
            }
        }
        assert(determined_spec::<H>(given, opened, 2 * k) == Some(
            node_spec::<H>(leaves, 2 * k),
        ));
        assert(determined_spec::<H>(given, opened, 2 * k + 1) == Some(
            node_spec::<H>(leaves, 2 * k + 1),
        ));
    }
}

/// The opening that the tree over `leaves` gives of the leaves with the
/// indices `indices`, of which there is at least one, shows these leaves
/// to lie under the tree's root.
pub proof fn lemma_opening_verifies<H: AlgebraicHasher>(leaves: Seq<Digest>, indices: Seq<usize>)
    requires
        is_power_of_two_spec(leaves.len()),
        indices.len() >= 1,
        forall|j: int| 0 <= j < indices.len() ==> indices[j] < leaves.len(),
    ensures
        verify_spec::<H>(
            root_spec::<H>(leaves),
            leaves.len(),
            indices,
            authentication_structure_spec::<H>(leaves, indices),
            Seq::new(indices.len(), |j: int| leaves[indices[j] as int]),
        ),
{
    let n = leaves.len();
    let count = indices.len();
    let paths = authentication_structure_spec::<H>(leaves, indices);
    let shown = Seq::new(count, |j: int| leaves[indices[j] as int]);
    let placed = placed_paths_spec(paths, indices, n, count);
    let given = placed_leaves_spec(placed, shown, indices, n, count);
    let opened = opened_spec(indices, n, count);
    let m = log_2_ceil_spec(n);
    lemma_pow2_pos(m);
    lemma_pow2_unfold(m + 1);
    lemma_placed_true_paths::<H>(leaves, indices, count);
    lemma_placed_leaves::<H>(placed, leaves, indices, count);
    lemma_opened(indices, n, count);
    lemma_log_2_floor_unique(n, m);
    assert forall|j: int| 0 <= j < count implies (#[trigger] paths[j]).len() == log_2_floor_spec(
        n,
    ) by {
        lemma_partial_path_len::<H>(
            leaves,
            opened,
            seen_spec(indices, n, j as nat),
            n + indices[j] as nat,
        );
        lemma_log_2_floor_unique(n + indices[j] as nat, m);
    }
    assert forall|j: int| 0 <= j < count implies #[trigger] given[n + indices[j]] == Some(
        shown[j],
    ) by {
        assert(0 <= j < count && n + indices[j] == n + indices[j]);
        assert(opened[n + indices[j]]);
    }
    // The first leaf is opened, so the root is covered.
    let x = n + indices[0] as nat;
    assert(0 <= 0 < count && n + indices[0] == x);
    assert(opened[x as int]);
    lemma_root_is_on_path(x);
    lemma_path_is_covered(opened, x, 1);
    lemma_covered_is_determined::<H>(leaves, indices, 1);
}

/// The root lies on the way from each node to the root.
pub proof fn lemma_root_is_on_path(x: nat)
    requires
        x >= 1,
    ensures
        on_path_spec(x, 1),
    decreases x,
{
    if x > 1 {
        lemma_root_is_on_path(x / 2);
    }
}

} // verus!
