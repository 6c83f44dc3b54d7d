use vstd::prelude::*;
use crate::lemmas::{lemma_ancestor_in_range, lemma_fold_reaches_root, lemma_tree_unique};
use crate::model::{
    ancestor, combined, combines, deterministic, fold_path, parent_ok, path_from, path_steps, step_ok,
};
use crate::tree::MerkleTree;

verus! {

/// Building a tree twice over the same leaves with the same deterministic
/// function gives the same layers, and so the same root.
pub proof fn lemma_build_deterministic<F: Fn(&String, &String) -> Result<String, String>>(
    t1: MerkleTree<F>,
    t2: MerkleTree<F>,
)
    requires
        t1.wf(),
        t2.wf(),
        t1.leaves() == t2.leaves(),
        t1.combine_fn() == t2.combine_fn(),
        deterministic(t1.combine_fn()),
    ensures
        t1.layers() == t2.layers(),
        t1.root_value() == t2.root_value(),
{
    lemma_tree_unique(t1.combine_fn(), t1.leaves(), t1.layers(), t2.layers());
}

/// A verifier that folds the inclusion path of leaf `i` into the leaf's hash,
/// combining on the side given by the position's parity at each layer and
/// carrying the hash where the node has no sibling, reaches the root; the
/// fold takes every entry of the path.
pub proof fn lemma_path_verifies<F: Fn(&String, &String) -> Result<String, String>>(
    t: MerkleTree<F>,
    i: int,
)
    requires
        t.wf(),
        deterministic(t.combine_fn()),
        0 <= i < t.leaves().len(),
    ensures
        fold_path(
            t.combine_fn(),
            t.leaves().len() as nat,
            i as nat,
            t.leaves()[i],
            path_from(t.layers(), 0, i),
        ) == t.root_value(),
        path_from(t.layers(), 0, i).len() == path_steps(t.leaves().len() as nat, i as nat),
{
    lemma_fold_reaches_root(t.combine_fn(), t.leaves(), t.layers(), 0, i);
}

/// After leaf `i` is updated, every node below the root on the way up from a
/// leaf `j` whose ancestors differ from those of `i` at every such layer is
/// unchanged.
pub proof fn lemma_update_keeps_other_paths<F: Fn(&String, &String) -> Result<String, String>>(
    before: MerkleTree<F>,
    after: MerkleTree<F>,
    i: int,
    v: String,
    j: int,
)
    requires
        before.wf(),
        0 <= i < before.leaves().len(),
        after.is_update_of(before, i, v),
        0 <= j < before.leaves().len(),
        forall|k: nat|
            k < before.layers().len() - 1 ==> #[trigger] ancestor(j, k) != ancestor(i, k),
    ensures
        forall|k: int|
            #![trigger before.layers()[k]]
            0 <= k < before.layers().len() - 1 ==> after.layers()[k][ancestor(j, k as nat)]
                == before.layers()[k][ancestor(j, k as nat)],
{
    assert forall|k: int|
        #![trigger before.layers()[k]]
        0 <= k < before.layers().len() - 1 implies after.layers()[k][ancestor(j, k as nat)]
        == before.layers()[k][ancestor(j, k as nat)] by {
        lemma_ancestor_in_range(
            before.combine_fn(),
            before.leaves(),
            before.layers(),
            j,
            k as nat,
        );
        assert(ancestor(j, k as nat) != ancestor(i, k as nat));
        assert(after.layers()[k].len() == before.layers()[k].len());
    }
}

/// Updating leaf `i` to `v` gives the tree that a fresh build over the leaves
/// with leaf `i` replaced by `v` gives, and so the same root.
pub proof fn lemma_update_matches_rebuild<F: Fn(&String, &String) -> Result<String, String>>(
    before: MerkleTree<F>,
    after: MerkleTree<F>,
    rebuilt: MerkleTree<F>,
    i: int,
    v: String,
)
    requires
        before.wf(),
        after.is_update_of(before, i, v),
        rebuilt.wf(),
        rebuilt.leaves() == before.leaves().update(i, v),
        rebuilt.combine_fn() == before.combine_fn(),
        deterministic(before.combine_fn()),
    ensures
        after.layers() == rebuilt.layers(),
        after.root_value() == rebuilt.root_value(),
{
    lemma_tree_unique(before.combine_fn(), rebuilt.leaves(), after.layers(), rebuilt.layers());
}

/// A tree over one leaf is that leaf: the leaf is the root and its path is
/// empty.
pub proof fn lemma_single_leaf<F: Fn(&String, &String) -> Result<String, String>>(t: MerkleTree<F>)
    requires
        t.wf(),
        t.leaves().len() == 1,
    ensures
        t.layers().len() == 1,
        t.root_value() == t.leaves()[0],
        path_from(t.layers(), 0, 0) == Seq::<String>::empty(),
{
    if t.layers().len() > 1 {
        assert(step_ok(t.combine_fn(), t.layers(), 0));
    }
}

/// Over four leaves `[a, b, c, d]` the root is the hash of the hashes of
/// `(a, b)` and of `(c, d)`, each of these hashes a value that the function
/// gives on its pair.
pub proof fn lemma_four_leaves<F: Fn(&String, &String) -> Result<String, String>>(
    t: MerkleTree<F>,
)
    requires
        t.wf(),
        t.leaves().len() == 4,
        deterministic(t.combine_fn()),
    ensures
        t.layers().len() == 3,
        ({
            let (f, l) = (t.combine_fn(), t.leaves());
            &&& combines(f, l[0], l[1], combined(f, l[0], l[1]))
            &&& combines(f, l[2], l[3], combined(f, l[2], l[3]))
            &&& combines(f, combined(f, l[0], l[1]), combined(f, l[2], l[3]), t.root_value())
            &&& t.root_value() == combined(f, combined(f, l[0], l[1]), combined(f, l[2], l[3]))
        }),
{
    let (f, l, ls) = (t.combine_fn(), t.leaves(), t.layers());
    assert(step_ok(f, ls, 0));
    assert(step_ok(f, ls, 1));
    if ls.len() > 3 {
        assert(step_ok(f, ls, 2));
    }
    assert(parent_ok(f, ls[0], ls[1][0], 0));
    assert(parent_ok(f, ls[0], ls[1][1], 1));
    assert(parent_ok(f, ls[1], ls[2][0], 0));
    assert(combines(f, l[0], l[1], combined(f, l[0], l[1])));
    assert(combines(f, l[2], l[3], combined(f, l[2], l[3])));
    assert(combines(f, ls[1][0], ls[1][1], combined(f, ls[1][0], ls[1][1])));
}

/// Over three leaves `[a, b, c]` the middle layer is the hash of `(a, b)`
/// beside `c` carried up unchanged, and the root is the hash of those two;
/// both hashes are values that the function gives on their pairs.
pub proof fn lemma_three_leaves<F: Fn(&String, &String) -> Result<String, String>>(
    t: MerkleTree<F>,
)
    requires
        t.wf(),
        t.leaves().len() == 3,
        deterministic(t.combine_fn()),
    ensures
        t.layers().len() == 3,
        ({
            let (f, l) = (t.combine_fn(), t.leaves());
            &&& combines(f, l[0], l[1], combined(f, l[0], l[1]))
            &&& combines(f, combined(f, l[0], l[1]), l[2], t.root_value())
            &&& t.layers()[2] == seq![t.root_value()]
            &&& t.layers()[1] == seq![combined(f, l[0], l[1]), l[2]]
            &&& t.root_value() == combined(f, combined(f, l[0], l[1]), l[2])
        }),
{
    let (f, l, ls) = (t.combine_fn(), t.leaves(), t.layers());
    assert(step_ok(f, ls, 0));
    assert(step_ok(f, ls, 1));
    if ls.len() > 3 {
        assert(step_ok(f, ls, 2));
    }
    assert(parent_ok(f, ls[0], ls[1][0], 0));
    assert(parent_ok(f, ls[0], ls[1][1], 1));
    assert(parent_ok(f, ls[1], ls[2][0], 0));
    assert(combines(f, l[0], l[1], combined(f, l[0], l[1])));
    assert(combines(f, ls[1][0], ls[1][1], combined(f, ls[1][0], ls[1][1])));
    assert(ls[1] =~= seq![combined(f, l[0], l[1]), l[2]]);
    assert(ls[2] =~= seq![t.root_value()]);
}

} // verus!
