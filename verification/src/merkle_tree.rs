//! Merkle trees over a power of two of leaves, with openings of several
//! leaves at once in which no node is given twice, nor any node that the
//! opened leaves determine.
//!
//! The nodes are numbered as in a heap: the root is node 1, the children of
//! node `k` are the nodes `2k` and `2k + 1`, and leaf `i` of `n` leaves is
//! node `n + i`.

use crate::algebraic_hasher::{AlgebraicHasher, hash_pair, hash_pair_spec};
use crate::digest::Digest;
use crate::power_of_two::{
    is_power_of_two, is_power_of_two_spec, log_2_ceil_spec, log_2_floor, log_2_floor_spec,
};
use std::marker::PhantomData;
use vstd::arithmetic::power2::lemma_pow2_pos;
use vstd::prelude::*;

verus! {

pub struct MerkleTree<H: AlgebraicHasher> {
    nodes: Vec<Digest>,
    _hasher: PhantomData<H>,
}

/// The part of the path from one leaf to the root that an opening of
/// several leaves holds: the siblings along the path, lowest first, with
/// `None` for each sibling that the opened leaves determine or that an
/// earlier path of the opening holds.
#[derive(Debug, Clone)]
pub struct PartialAuthenticationPath(pub Vec<Option<Digest>>);

/// The other child of the parent of node `x`.
pub open spec fn sibling_spec(x: nat) -> nat {
    if x % 2 == 0 {
        x + 1
    } else {
        (x - 1) as nat
    }
}

/// The digest of node `k` of the tree over `leaves`.
pub open spec fn node_spec<H: AlgebraicHasher>(leaves: Seq<Digest>, k: nat) -> Digest
    decreases 2 * leaves.len() - k,
{
    if k >= leaves.len() {
        leaves[k - leaves.len()]
    } else if k == 0 {
        node_spec::<H>(leaves, 1)
    } else {
        hash_pair_spec::<H>(node_spec::<H>(leaves, 2 * k), node_spec::<H>(leaves, 2 * k + 1))
    }
}

/// The root of the tree over `leaves`.
pub open spec fn root_spec<H: AlgebraicHasher>(leaves: Seq<Digest>) -> Digest {
    node_spec::<H>(leaves, 1)
}

/// One flag for each node of a tree of `n` leaves, set for the leaves with
/// the first `count` indices of `indices`.
pub open spec fn opened_spec(indices: Seq<usize>, n: nat, count: nat) -> Seq<bool>
    decreases count,
{
    if count == 0 {
        Seq::new(2 * n, |k: int| false)
    } else {
        opened_spec(indices, n, (count - 1) as nat).update(n + indices[count - 1], true)
    }
}

/// Whether node `k` is an opened leaf or has one below it, where `opened`
/// flags the opened leaves: whether the opened leaves determine its digest.
pub open spec fn covered_spec(opened: Seq<bool>, k: nat) -> bool
    decreases opened.len() - k,
{
    if k == 0 || 2 * k >= opened.len() {
        k < opened.len() && opened[k as int]
    } else {
        covered_spec(opened, 2 * k) || covered_spec(opened, 2 * k + 1)
    }
}

/// `seen`, with the flags set of the siblings along the path from node `x`
/// to the root.
pub open spec fn mark_siblings_spec(seen: Seq<bool>, x: nat) -> Seq<bool>
    decreases x,
{
    if x <= 1 {
        seen
    } else {
        mark_siblings_spec(seen.update(sibling_spec(x) as int, true), x / 2)
    }
}

/// One flag for each node of a tree of `n` leaves, set for the siblings
/// along the paths of the leaves with the first `count` indices of
/// `indices`.
pub open spec fn seen_spec(indices: Seq<usize>, n: nat, count: nat) -> Seq<bool>
    decreases count,
{
    if count == 0 {
        Seq::new(2 * n, |k: int| false)
    } else {
        mark_siblings_spec(
            seen_spec(indices, n, (count - 1) as nat),
            n + indices[count - 1] as nat,
        )
    }
}

/// The siblings along the path from node `x` to the root, lowest first,
/// each as `None` where its node is covered or seen.
pub open spec fn partial_path_spec<H: AlgebraicHasher>(
    leaves: Seq<Digest>,
    opened: Seq<bool>,
    seen: Seq<bool>,
    x: nat,
) -> Seq<Option<Digest>>
    decreases x,
{
    if x <= 1 {
        Seq::empty()
    } else {
        let s = sibling_spec(x);
        let entry = if covered_spec(opened, s) || seen[s as int] {
            None
        } else {
            Some(node_spec::<H>(leaves, s))
        };
        seq![entry] + partial_path_spec::<H>(leaves, opened, seen, x / 2)
    }
}

/// The opening of the leaves with the indices `indices` in the tree over
/// `leaves`: one partial path for each index, in order.
pub open spec fn authentication_structure_spec<H: AlgebraicHasher>(
    leaves: Seq<Digest>,
    indices: Seq<usize>,
) -> Seq<Seq<Option<Digest>>> {
    let n = leaves.len();
    Seq::new(
        indices.len(),
        |j: int|
            partial_path_spec::<H>(
                leaves,
                opened_spec(indices, n, indices.len()),
                seen_spec(indices, n, j as nat),
                n + indices[j] as nat,
            ),
    )
}

/// `state`, with the digests that `path` holds from level `level` on put
/// at the siblings along the path from node `x` to the root.
pub open spec fn place_path_spec(
    state: Seq<Option<Digest>>,
    path: Seq<Option<Digest>>,
    x: nat,
    level: nat,
) -> Seq<Option<Digest>>
    decreases path.len() - level,
{
    if level >= path.len() || x <= 1 {
        state
    } else {
        let next = if path[level as int] is Some {
            state.update(sibling_spec(x) as int, path[level as int])
        } else {
            state
        };
        place_path_spec(next, path, x / 2, level + 1)
    }
}

/// The digests that the first `count` paths of an opening hold, each at
/// its node, for a tree of `n` leaves.
pub open spec fn placed_paths_spec(
    paths: Seq<Seq<Option<Digest>>>,
    indices: Seq<usize>,
    n: nat,
    count: nat,
) -> Seq<Option<Digest>>
    decreases count,
{
    if count == 0 {
        Seq::new(2 * n, |k: int| None)
    } else {
        place_path_spec(
            placed_paths_spec(paths, indices, n, (count - 1) as nat),
            paths[count - 1],
            n + indices[count - 1] as nat,
            0,
        )
    }
}

/// `state`, with the first `count` digests of `leaves` put at the leaves
/// with the first `count` indices of `indices`.
pub open spec fn placed_leaves_spec(
    state: Seq<Option<Digest>>,
    leaves: Seq<Digest>,
    indices: Seq<usize>,
    n: nat,
    count: nat,
) -> Seq<Option<Digest>>
    decreases count,
{
    if count == 0 {
        state
    } else {
        placed_leaves_spec(state, leaves, indices, n, (count - 1) as nat).update(
            n + indices[count - 1],
            Some(leaves[count - 1]),
        )
    }
}

/// The digest of node `k` as an opening determines it: for a covered node
/// above the leaves the hash of its two children, if both are determined;
/// for any other node what `given` holds for it.
pub open spec fn determined_spec<H: AlgebraicHasher>(
    given: Seq<Option<Digest>>,
    opened: Seq<bool>,
    k: nat,
) -> Option<Digest>
    decreases given.len() - k,
{
    if k == 0 || 2 * k >= given.len() {
        if k < given.len() {
            given[k as int]
        } else {
            None
        }
    } else if covered_spec(opened, 2 * k) || covered_spec(opened, 2 * k + 1) {
        match (
            determined_spec::<H>(given, opened, 2 * k),
            determined_spec::<H>(given, opened, 2 * k + 1),
        ) {
            (Some(left), Some(right)) => Some(hash_pair_spec::<H>(left, right)),
            _ => None,
        }
    } else {
        given[k as int]
    }
}

/// Whether an opening shows that the leaves with the indices `indices`
/// have the digests `leaves` in a tree of `n` leaves with the root `root`.
///
/// There is one path for each index, and each path has one entry for each
/// level below the root. The digests that the paths hold are put at their
/// nodes, and then those of the leaves at theirs; leaves given twice have
/// the same digest. The root that this determines is `root`.
pub open spec fn verify_spec<H: AlgebraicHasher>(
    root: Digest,
    n: nat,
    indices: Seq<usize>,
    paths: Seq<Seq<Option<Digest>>>,
    leaves: Seq<Digest>,
) -> bool {
    let given = placed_leaves_spec(
        placed_paths_spec(paths, indices, n, indices.len()),
        leaves,
        indices,
        n,
        indices.len(),
    );
    let opened = opened_spec(indices, n, indices.len());
    &&& is_power_of_two_spec(n)
    &&& paths.len() == indices.len()
    &&& leaves.len() == indices.len()
    &&& forall|j: int| 0 <= j < indices.len() ==> indices[j] < n
    &&& forall|j: int| 0 <= j < indices.len() ==> (#[trigger] paths[j]).len() == log_2_floor_spec(n)
    &&& forall|j: int|
        0 <= j < indices.len() ==> #[trigger] given[n + indices[j]] == Some(leaves[j])
    &&& determined_spec::<H>(given, opened, 1) == Some(root)
}

/// The paths of an opening, as sequences.
pub open spec fn paths_view(paths: Seq<PartialAuthenticationPath>) -> Seq<Seq<Option<Digest>>> {
    Seq::new(paths.len(), |j: int| paths[j].0@)
}

/// The other child of the parent of node `x`.
fn sibling(x: usize) -> (res: usize)
    requires
        x < usize::MAX,
        x >= 1,
    ensures
        res == sibling_spec(x as nat),
{
    if x % 2 == 0 {
        x + 1
    } else {
        x - 1
    }
}

/// `count` flags, none of them set.
fn cleared_flags(count: usize) -> (res: Vec<bool>)
    ensures
        res@ == Seq::new(count as nat, |k: int| false),
{
    let mut res: Vec<bool> = Vec::new();
    let mut i: usize = 0;
    while i < count
        invariant
            i <= count,
            res@.len() == i,
            forall|k: int| 0 <= k < i ==> !res@[k],
        decreases count - i,
    {
        res.push(false);
        i = i + 1;
    }
    assert(res@ =~= Seq::new(count as nat, |k: int| false));
    res
}

/// The flags of the leaves with the indices `indices`, for a tree of `n`
/// leaves.
fn opened_flags(indices: &[usize], n: usize) -> (res: Vec<bool>)
    requires
        2 * n <= usize::MAX,
        forall|j: int| 0 <= j < indices@.len() ==> indices@[j] < n,
    ensures
        res@ == opened_spec(indices@, n as nat, indices@.len()),
        res@.len() == 2 * n,
{
    let mut res = cleared_flags(2 * n);
    let mut j: usize = 0;
    while j < indices.len()
        invariant
            j <= indices@.len(),
            2 * n <= usize::MAX,
            forall|j: int| 0 <= j < indices@.len() ==> indices@[j] < n,
            res@.len() == 2 * n,
            res@ == opened_spec(indices@, n as nat, j as nat),
        decreases indices@.len() - j,
    {
        res.set(n + indices[j], true);
        j = j + 1;
    }
    res
}

/// Turns the flags of the opened leaves into the flags of the covered
/// nodes.
fn cover(flags: &mut Vec<bool>, n: usize)
    requires
        old(flags)@.len() == 2 * n,
        2 * n <= usize::MAX,
        n >= 1,
    ensures
        final(flags)@.len() == 2 * n,
        forall|k: int|
            1 <= k < 2 * n ==> #[trigger] final(flags)@[k] == covered_spec(old(flags)@, k as nat),
{
    let ghost opened = flags@;
    let mut k: usize = n;
    while k > 1
        invariant
            1 <= k <= n,
            2 * n <= usize::MAX,
            flags@.len() == 2 * n,
            opened.len() == 2 * n,
            forall|j: int| k <= j < 2 * n ==> #[trigger] flags@[j] == covered_spec(opened, j as nat),
        decreases k,
    {
        k = k - 1;
        let both = flags[2 * k] || flags[2 * k + 1];
        flags.set(k, both);
    }
}

impl<H: AlgebraicHasher> MerkleTree<H> {
    #[verifier::type_invariant]
    spec fn well_formed(self) -> bool {
        let n = self.nodes@.len() / 2;
        &&& is_power_of_two_spec(n as nat)
        &&& n >= 1
        &&& self.nodes@.len() == 2 * n
        &&& forall|k: int|
            0 <= k < 2 * n ==> #[trigger] self.nodes@[k] == node_spec::<H>(
                self.nodes@.subrange(n as int, 2 * n as int),
                k as nat,
            )
    }

    /// The digests of the leaves that the tree was built over.
    pub closed spec fn leaves_spec(self) -> Seq<Digest> {
        self.nodes@.subrange(self.nodes@.len() as int / 2, self.nodes@.len() as int)
    }

    /// The tree over the leaves with the digests `digests`.
    pub fn from_digests(digests: &[Digest]) -> (tree: Self)
        requires
            is_power_of_two_spec(digests@.len()),
            2 * digests@.len() <= usize::MAX,
        ensures
            tree.leaves_spec() == digests@,
    {
        let n = digests.len();
        proof {
            lemma_pow2_pos(log_2_ceil_spec(n as nat));
        }
        let mut nodes: Vec<Digest> = Vec::new();
        let mut i: usize = 0;
        while i < n
            invariant
                i <= n,
                n == digests@.len(),
                n >= 1,
                nodes@.len() == i,
            decreases n - i,
        {
            nodes.push(digests[0]);
            i = i + 1;
        }
        let mut i: usize = 0;
        while i < n
            invariant
                i <= n,
                n == digests@.len(),
                2 * n <= usize::MAX,
                nodes@.len() == n + i,
                forall|j: int| 0 <= j < i ==> #[trigger] nodes@[n + j] == digests@[j],
            decreases n - i,
        {
            nodes.push(digests[i]);
            i = i + 1;
        }
        proof {
            assert forall|j: int| n <= j < 2 * n implies #[trigger] nodes@[j] == node_spec::<H>(
                digests@,
                j as nat,
            ) by {
                assert(nodes@[n + (j - n)] == digests@[j - n]);
            }
        }
        let mut k: usize = n;
        while k > 1
            invariant
                1 <= k <= n,
                n == digests@.len(),
                2 * n <= usize::MAX,
                nodes@.len() == 2 * n,
                forall|j: int| 0 <= j < n ==> #[trigger] nodes@[n + j] == digests@[j],
                forall|j: int|
                    k <= j < 2 * n ==> #[trigger] nodes@[j] == node_spec::<H>(digests@, j as nat),
            decreases k,
        {
            k = k - 1;
            let left = nodes[2 * k];
            let right = nodes[2 * k + 1];
            let digest = hash_pair::<H>(&left, &right);
            nodes.set(k, digest);
        }
        let root = nodes[1];
        nodes.set(0, root);
        proof {
            assert(nodes@.subrange(n as int, 2 * n) =~= digests@);
            assert(nodes@.len() / 2 == n);
        }
        MerkleTree { nodes, _hasher: PhantomData }
    }

    pub fn get_root(&self) -> (root: Digest)
        ensures
            root == root_spec::<H>(self.leaves_spec()),
    {
        proof {
            use_type_invariant(self);
        }
        self.nodes[1]
    }

    pub fn get_leaf_count(&self) -> (count: usize)
        ensures
            count == self.leaves_spec().len(),
            is_power_of_two_spec(count as nat),
            2 * count <= usize::MAX,
    {
        proof {
            use_type_invariant(self);
        }
        self.nodes.len() / 2
    }

    /// The opening of the leaves with the indices `indices`: for each index
    /// the siblings along the path from its leaf to the root, without those
    /// that the opened leaves determine and those that an earlier path
    /// holds.
    #[verifier::rlimit(50)]
    pub fn get_authentication_structure(&self, indices: &[usize]) -> (res: Vec<
        PartialAuthenticationPath,
    >)
        requires
            forall|j: int| 0 <= j < indices@.len() ==> indices@[j] < self.leaves_spec().len(),
        ensures
            res@.len() == indices@.len(),
            forall|j: int|
                0 <= j < indices@.len() ==> (#[trigger] res@[j]).0@
                    == authentication_structure_spec::<H>(self.leaves_spec(), indices@)[j],
    {
        proof {
            use_type_invariant(self);
        }
        let n = self.nodes.len() / 2;
        let ghost leaves = self.leaves_spec();
        let ghost opened = opened_spec(indices@, n as nat, indices@.len());
        let mut covered = opened_flags(indices, n);
        cover(&mut covered, n);
        let mut seen = cleared_flags(2 * n);
        let mut res: Vec<PartialAuthenticationPath> = Vec::new();
        let mut j: usize = 0;
        while j < indices.len()
            invariant
                j <= indices@.len(),
                n >= 1,
                2 * n == self.nodes@.len(),
                2 * n <= usize::MAX,
                forall|j: int| 0 <= j < indices@.len() ==> indices@[j] < n,
                leaves == self.leaves_spec(),
                leaves.len() == n,
                opened == opened_spec(indices@, n as nat, indices@.len()),
                covered@.len() == 2 * n,
                forall|k: int|
                    1 <= k < 2 * n ==> #[trigger] covered@[k] == covered_spec(opened, k as nat),
                forall|k: int|
                    0 <= k < 2 * n ==> #[trigger] self.nodes@[k] == node_spec::<H>(
                        leaves,
                        k as nat,
                    ),
                seen@ == seen_spec(indices@, n as nat, j as nat),
                seen@.len() == 2 * n,
                res@.len() == j,
                forall|i: int|
                    0 <= i < j ==> (#[trigger] res@[i]).0@ == authentication_structure_spec::<H>(
                        leaves,
                        indices@,
                    )[i],
            decreases indices@.len() - j,
        {
            let start = n + indices[j];
            let ghost whole = partial_path_spec::<H>(leaves, opened, seen@, start as nat);
            let mut path: Vec<Option<Digest>> = Vec::new();
            let mut x: usize = start;
            while x > 1
                invariant
                    1 <= x < 2 * n,
                    2 * n == self.nodes@.len(),
                    2 * n <= usize::MAX,
                    covered@.len() == 2 * n,
                    seen@.len() == 2 * n,
                    forall|k: int|
                        1 <= k < 2 * n ==> #[trigger] covered@[k] == covered_spec(
                            opened,
                            k as nat,
                        ),
                    forall|k: int|
                        0 <= k < 2 * n ==> #[trigger] self.nodes@[k] == node_spec::<H>(
                            leaves,
                            k as nat,
                        ),
                    path@ + partial_path_spec::<H>(leaves, opened, seen@, x as nat) == whole,
                decreases x,
            {
                let s = sibling(x);
                let entry = if covered[s] || seen[s] {
                    None
                } else {
                    Some(self.nodes[s])
                };
                proof {
                    let rest = partial_path_spec::<H>(leaves, opened, seen@, (x / 2) as nat);
                    assert(path@.push(entry) + rest =~= path@ + (seq![entry] + rest));
                }
                path.push(entry);
                x = x / 2;
            }
            proof {
                assert(path@ + Seq::<Option<Digest>>::empty() =~= path@);
            }
            let mut x: usize = start;
            let ghost before = seen@;
            while x > 1
                invariant
                    1 <= x < 2 * n,
                    2 * n <= usize::MAX,
                    seen@.len() == 2 * n,
                    mark_siblings_spec(seen@, x as nat) == mark_siblings_spec(
                        before,
                        start as nat,
                    ),
                decreases x,
            {
                let s = sibling(x);
                seen.set(s, true);
                x = x / 2;
            }
            res.push(PartialAuthenticationPath(path));
            j = j + 1;
        }
        res
    }

    /// Whether the opening `paths` shows that the leaves with the indices
    /// `indices` have the digests `leaf_digests`, in a tree of `num_leaves`
    /// leaves with the root `root`.
    #[verifier::rlimit(50)]
    pub fn verify_authentication_structure(
        root: Digest,
        num_leaves: usize,
        indices: &[usize],
        paths: &[PartialAuthenticationPath],
        leaf_digests: &[Digest],
    ) -> (res: bool)
        requires
            2 * num_leaves <= usize::MAX,
        ensures
            res == verify_spec::<H>(
                root,
                num_leaves as nat,
                indices@,
                paths_view(paths@),
                leaf_digests@,
            ),
    {
        let n = num_leaves;
        let ghost path_seqs = paths_view(paths@);
        let ghost leaves = leaf_digests@;
        if !is_power_of_two(n as u64) || indices.len() != paths.len() || indices.len()
            != leaf_digests.len() {
            return false;
        }
        proof {
            lemma_pow2_pos(log_2_ceil_spec(n as nat));
        }
        let height = log_2_floor(n as u64);
        let mut j: usize = 0;
        while j < indices.len()
            invariant
                j <= indices@.len(),
                indices@.len() == paths@.len(),
                indices@.len() == leaf_digests@.len(),
                path_seqs == paths_view(paths@),
                n == num_leaves,
                height == log_2_floor_spec(n as nat),
                forall|i: int| 0 <= i < j ==> indices@[i] < n,
                forall|i: int| 0 <= i < j ==> (#[trigger] path_seqs[i]).len() == height,
            decreases indices@.len() - j,
        {
            if indices[j] >= n || paths[j].0.len() as u64 != height {
                proof {
                    assert(path_seqs[j as int].len() == paths@[j as int].0@.len());
                    assert(!(indices@[j as int] < n) || path_seqs[j as int].len() != log_2_floor_spec(
                        n as nat,
                    ));
                }
                return false;
            }
            proof {
                assert(path_seqs[j as int].len() == paths@[j as int].0@.len());
            }
            j = j + 1;
        }
        // The digests that the paths hold, each at its node.
        let mut given: Vec<Option<Digest>> = Vec::new();
        let mut k: usize = 0;
        while k < 2 * n
            invariant
                k <= 2 * n,
                2 * n <= usize::MAX,
                given@.len() == k,
                forall|i: int| 0 <= i < k ==> given@[i] is None,
            decreases 2 * n - k,
        {
            given.push(None);
            k = k + 1;
        }
        proof {
            assert(given@ =~= placed_paths_spec(path_seqs, indices@, n as nat, 0));
        }
        let mut j: usize = 0;
        while j < indices.len()
            invariant
                j <= indices@.len(),
                n >= 1,
                2 * n <= usize::MAX,
                indices@.len() == paths@.len(),
                indices@.len() == leaf_digests@.len(),
                path_seqs == paths_view(paths@),
                forall|i: int| 0 <= i < indices@.len() ==> indices@[i] < n,
                given@.len() == 2 * n,
                given@ == placed_paths_spec(path_seqs, indices@, n as nat, j as nat),
            decreases indices@.len() - j,
        {
            let start = n + indices[j];
            let ghost before = given@;
            let ghost path = path_seqs[j as int];
            let mut x: usize = start;
            let mut level: usize = 0;
            while level < paths[j].0.len() && x > 1
                invariant
                    j < indices@.len(),
                    indices@.len() == paths@.len(),
                indices@.len() == leaf_digests@.len(),
                    path == paths@[j as int].0@,
                    1 <= x < 2 * n,
                    2 * n <= usize::MAX,
                    level <= path.len(),
                    given@.len() == 2 * n,
                    place_path_spec(given@, path, x as nat, level as nat) == place_path_spec(
                        before,
                        path,
                        start as nat,
                        0,
                    ),
                decreases path.len() - level,
            {
                let s = sibling(x);
                match paths[j].0[level] {
                    Some(digest) => {
                        given.set(s, Some(digest));
                    },
                    None => {},
                }
                x = x / 2;
                level = level + 1;
            }
            j = j + 1;
        }
        // The digests of the leaves, each at its node.
        let ghost placed = given@;
        let mut j: usize = 0;
        while j < indices.len()
            invariant
                j <= indices@.len(),
                2 * n <= usize::MAX,
                indices@.len() == paths@.len(),
                indices@.len() == leaf_digests@.len(),
                leaves == leaf_digests@,
                forall|i: int| 0 <= i < indices@.len() ==> indices@[i] < n,
                given@.len() == 2 * n,
                given@ == placed_leaves_spec(placed, leaves, indices@, n as nat, j as nat),
            decreases indices@.len() - j,
        {
            given.set(n + indices[j], Some(leaf_digests[j]));
            j = j + 1;
        }
        let ghost at_start = given@;
        let mut j: usize = 0;
        while j < indices.len()
            invariant
                j <= indices@.len(),
                2 * n <= usize::MAX,
                indices@.len() == paths@.len(),
                indices@.len() == leaf_digests@.len(),
                leaves == leaf_digests@,
                forall|i: int| 0 <= i < indices@.len() ==> indices@[i] < n,
                given@.len() == 2 * n,
                given@ == at_start,
                n == num_leaves,
                path_seqs == paths_view(paths@),
                at_start == placed_leaves_spec(
                    placed_paths_spec(path_seqs, indices@, n as nat, indices@.len()),
                    leaves,
                    indices@,
                    n as nat,
                    indices@.len(),
                ),
                forall|i: int|
                    0 <= i < j ==> #[trigger] at_start[n + indices@[i]] == Some(leaves[i]),
            decreases indices@.len() - j,
        {
            let same = match given[n + indices[j]] {
                Some(digest) => digest == leaf_digests[j],
                None => false,
            };
            if !same {
                proof {
                    assert(at_start[n + indices@[j as int]] != Some(leaves[j as int]));
                }
                return false;
            }
            j = j + 1;
        }
        // The digests of the covered nodes, from the leaves up.
        let ghost opened = opened_spec(indices@, n as nat, indices@.len());
        let mut covered = opened_flags(indices, n);
        cover(&mut covered, n);
        let mut k: usize = n;
        while k > 1
            invariant
                1 <= k <= n,
                2 * n <= usize::MAX,
                given@.len() == 2 * n,
                at_start.len() == 2 * n,
                covered@.len() == 2 * n,
                opened.len() == 2 * n,
                forall|i: int|
                    1 <= i < 2 * n ==> #[trigger] covered@[i] == covered_spec(opened, i as nat),
                forall|i: int| 0 <= i < k ==> #[trigger] given@[i] == at_start[i],
                forall|i: int|
                    k <= i < 2 * n ==> #[trigger] given@[i] == determined_spec::<H>(
                        at_start,
                        opened,
                        i as nat,
                    ),
            decreases k,
        {
            k = k - 1;
            if covered[2 * k] || covered[2 * k + 1] {
                let digest = match (given[2 * k], given[2 * k + 1]) {
                    (Some(left), Some(right)) => Some(hash_pair::<H>(&left, &right)),
                    _ => None,
                };
                given.set(k, digest);
            }
        }
        match given[1] {
            Some(digest) => digest == root,
            None => false,
        }
    }
}

} // verus!
