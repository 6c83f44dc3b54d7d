use vstd::prelude::*;
use crate::model::{
    ancestor, combined, combines, deterministic, fold_path, is_parent_layer, is_tree, layers_from,
    parent_ok, path_from, path_steps, path_values_ok, sibling, step_ok, with_path_values,
};

verus! {

/// The ancestor of a leaf at each layer is a node of that layer.
pub proof fn lemma_ancestor_in_range<F: Fn(&String, &String) -> Result<String, String>>(
    f: F,
    leaves: Seq<String>,
    layers: Seq<Seq<String>>,
    i: int,
    k: nat,
)
    requires
        is_tree(f, leaves, layers),
        0 <= i < leaves.len(),
        k < layers.len(),
    ensures
        0 <= ancestor(i, k) < layers[k as int].len(),
    decreases k,
{
    if k > 0 {
        lemma_ancestor_in_range(f, leaves, layers, i, (k - 1) as nat);
        assert(step_ok(f, layers, k - 1));
    }
}

/// One layer of the rebuilt tree: after the ancestors of leaf `i` are set,
/// layer `k + 1` is still the layer built from layer `k`.
proof fn lemma_path_values_step<F: Fn(&String, &String) -> Result<String, String>>(
    f: F,
    leaves: Seq<String>,
    layers: Seq<Seq<String>>,
    i: int,
    vals: Seq<String>,
    k: int,
)
    requires
        is_tree(f, leaves, layers),
        0 <= i < leaves.len(),
        vals.len() == layers.len(),
        path_values_ok(f, layers, i, vals),
        0 <= k < layers.len() - 1,
    ensures
        is_parent_layer(
            f,
            layers[k].update(ancestor(i, k as nat), vals[k]),
            layers[k + 1].update(ancestor(i, (k + 1) as nat), vals[k + 1]),
        ),
{
    assert(step_ok(f, layers, k));
    lemma_ancestor_in_range(f, leaves, layers, i, k as nat);
    lemma_ancestor_in_range(f, leaves, layers, i, (k + 1) as nat);
    let a = ancestor(i, k as nat);
    let up = ancestor(i, (k + 1) as nat);
    let low = layers[k].update(a, vals[k]);
    let high = layers[k + 1].update(up, vals[k + 1]);
    assert(up == a / 2);
    assert(parent_ok(f, low, vals[k + 1], up));
    assert forall|j: int| 0 <= j < high.len() implies #[trigger] parent_ok(
        f,
        low,
        high[j],
        j,
    ) by {
        if j != up {
            assert(parent_ok(f, layers[k], layers[k + 1][j], j));
            assert(2 * j != a && 2 * j + 1 != a);
            assert(low[2 * j] == layers[k][2 * j]);
            if 2 * j + 1 < low.len() {
                assert(low[2 * j + 1] == layers[k][2 * j + 1]);
            }
        }
    }
}

/// Setting the ancestors of leaf `i` to values that are rebuilt from each
/// other, bottom up, gives the tree of the leaves with leaf `i` replaced.
pub proof fn lemma_path_values_give_tree<F: Fn(&String, &String) -> Result<String, String>>(
    f: F,
    leaves: Seq<String>,
    layers: Seq<Seq<String>>,
    i: int,
    vals: Seq<String>,
)
    requires
        is_tree(f, leaves, layers),
        0 <= i < leaves.len(),
        vals.len() == layers.len(),
        path_values_ok(f, layers, i, vals),
    ensures
        is_tree(f, leaves.update(i, vals[0]), with_path_values(layers, i, vals)),
{
    let nl = with_path_values(layers, i, vals);
    assert(nl[0] =~= leaves.update(i, vals[0]));
    assert forall|k: int| 0 <= k < nl.len() - 1 implies #[trigger] step_ok(f, nl, k) by {
        assert(step_ok(f, layers, k));
        lemma_path_values_step(f, leaves, layers, i, vals, k);
        lemma_ancestor_in_range(f, leaves, layers, i, k as nat);
        lemma_ancestor_in_range(f, leaves, layers, i, (k + 1) as nat);
        assert(nl[k] == layers[k].update(ancestor(i, k as nat), vals[k]));
        assert(nl[k + 1] == layers[k + 1].update(ancestor(i, (k + 1) as nat), vals[k + 1]));
    }
    assert(nl.len() >= 1);
    assert(nl[0] == leaves.update(i, vals[0]));
    assert(layers_from(f, leaves.update(i, vals[0]), nl));
    lemma_ancestor_in_range(f, leaves, layers, i, (layers.len() - 1) as nat);
    assert(nl.last().len() == layers.last().len());
}

/// Layers built from the same leaves with the same deterministic function
/// agree at every layer that both have.
proof fn lemma_layers_agree<F: Fn(&String, &String) -> Result<String, String>>(
    f: F,
    leaves: Seq<String>,
    l1: Seq<Seq<String>>,
    l2: Seq<Seq<String>>,
    k: nat,
)
    requires
        deterministic(f),
        layers_from(f, leaves, l1),
        layers_from(f, leaves, l2),
        k < l1.len(),
        k < l2.len(),
    ensures
        l1[k as int] == l2[k as int],
    decreases k,
{
    if k > 0 {
        let b = k - 1;
        lemma_layers_agree(f, leaves, l1, l2, b as nat);
        assert(step_ok(f, l1, b));
        assert(step_ok(f, l2, b));
        assert forall|j: int| 0 <= j < l1[k as int].len() implies l1[k as int][j]
            == l2[k as int][j] by {
            assert(parent_ok(f, l1[b], l1[k as int][j], j));
            assert(parent_ok(f, l2[b], l2[k as int][j], j));
        }
        assert(l1[k as int] =~= l2[k as int]);
    }
}

/// With a deterministic function, the leaves fix the whole tree.
pub proof fn lemma_tree_unique<F: Fn(&String, &String) -> Result<String, String>>(
    f: F,
    leaves: Seq<String>,
    l1: Seq<Seq<String>>,
    l2: Seq<Seq<String>>,
)
    requires
        deterministic(f),
        is_tree(f, leaves, l1),
        is_tree(f, leaves, l2),
    ensures
        l1 == l2,
{
    if l1.len() < l2.len() {
        lemma_layers_agree(f, leaves, l1, l2, (l1.len() - 1) as nat);
        assert(step_ok(f, l2, l1.len() - 1));
    } else if l2.len() < l1.len() {
        lemma_layers_agree(f, leaves, l1, l2, (l2.len() - 1) as nat);
        assert(step_ok(f, l1, l2.len() - 1));
    }
    assert forall|k: int| 0 <= k < l1.len() implies l1[k] == l2[k] by {
        lemma_layers_agree(f, leaves, l1, l2, k as nat);
    }
    assert(l1 =~= l2);
}

/// Folding the inclusion path of node `idx` of layer `k` into that node's
/// hash reaches the root.
pub proof fn lemma_fold_reaches_root<F: Fn(&String, &String) -> Result<String, String>>(
    f: F,
    leaves: Seq<String>,
    layers: Seq<Seq<String>>,
    k: int,
    idx: int,
)
    requires
        deterministic(f),
        is_tree(f, leaves, layers),
        0 <= k < layers.len(),
        0 <= idx < layers[k].len(),
    ensures
        fold_path(f, layers[k].len() as nat, idx as nat, layers[k][idx], path_from(layers, k, idx))
            == layers.last()[0],
        path_from(layers, k, idx).len() == path_steps(layers[k].len() as nat, idx as nat),
    decreases layers.len() - k,
{
    if k + 1 < layers.len() {
        assert(step_ok(f, layers, k));
        lemma_fold_reaches_root(f, leaves, layers, k + 1, idx / 2);
        let n = layers[k].len();
        let j = idx / 2;
        assert(parent_ok(f, layers[k], layers[k + 1][j], j));
        if !(idx % 2 == 0 && idx + 1 >= n) {
            let rest = path_from(layers, k + 1, idx / 2);
            let path = path_from(layers, k, idx);
            assert(path == seq![layers[k][sibling(idx)]] + rest);
            assert(path.drop_first() =~= rest);
            let l = layers[k][2 * j];
            let r = layers[k][2 * j + 1];
            assert(combines(f, l, r, layers[k + 1][j]));
            assert(combines(f, l, r, combined(f, l, r)));
        }
    } else {
        assert(layers[k].len() == 1);
    }
}

} // verus!
