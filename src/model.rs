use vstd::prelude::*;

verus! {

/// `h` is a value that `f` may return on the pair `(a, b)`.
pub open spec fn combines<F: Fn(&String, &String) -> Result<String, String>>(
    f: F,
    a: String,
    b: String,
    h: String,
) -> bool {
    f.ensures((&a, &b), Ok(h))
}

/// `f` may be called on any pair of hashes.
pub open spec fn callable<F: Fn(&String, &String) -> Result<String, String>>(f: F) -> bool {
    forall|a: String, b: String| #[trigger] f.requires((&a, &b))
}

/// `f` never reports an error.
pub open spec fn never_fails<F: Fn(&String, &String) -> Result<String, String>>(f: F) -> bool {
    forall|a: String, b: String, r: Result<String, String>|
        #[trigger] f.ensures((&a, &b), r) ==> r is Ok
}

/// `f` is a function of its two inputs: it never gives two different hashes
/// for the same pair.
pub open spec fn deterministic<F: Fn(&String, &String) -> Result<String, String>>(f: F) -> bool {
    forall|a: String, b: String, h1: String, h2: String|
        #[trigger] combines(f, a, b, h1) && #[trigger] combines(f, a, b, h2) ==> h1 == h2
}

/// The hash that `f` gives for `(a, b)`, when it gives one.
pub open spec fn combined<F: Fn(&String, &String) -> Result<String, String>>(
    f: F,
    a: String,
    b: String,
) -> String {
    choose|h: String| combines(f, a, b, h)
}

/// Node `j` one layer above `layer` is `h`: the two children `2j` and `2j + 1`
/// combined by `f`, or the child `2j` itself where it has no right sibling.
pub open spec fn parent_ok<F: Fn(&String, &String) -> Result<String, String>>(
    f: F,
    layer: Seq<String>,
    h: String,
    j: int,
) -> bool {
    if 2 * j + 1 < layer.len() {
        combines(f, layer[2 * j], layer[2 * j + 1], h)
    } else {
        h == layer[2 * j]
    }
}

/// `up` is the layer built from `layer`: one node per consecutive pair, and a
/// trailing lone node carried up unchanged.
pub open spec fn is_parent_layer<F: Fn(&String, &String) -> Result<String, String>>(
    f: F,
    layer: Seq<String>,
    up: Seq<String>,
) -> bool {
    &&& up.len() == (layer.len() + 1) / 2
    &&& forall|j: int| 0 <= j < up.len() ==> #[trigger] parent_ok(f, layer, up[j], j)
}

/// Layer `k + 1` of `layers` is built from layer `k`, which has more than one
/// node.
pub open spec fn step_ok<F: Fn(&String, &String) -> Result<String, String>>(
    f: F,
    layers: Seq<Seq<String>>,
    k: int,
) -> bool {
    layers[k].len() > 1 && is_parent_layer(f, layers[k], layers[k + 1])
}

/// `layers` starts with `leaves`, each further layer is built from the one
/// below it, and every layer below the last has more than one node.
pub open spec fn layers_from<F: Fn(&String, &String) -> Result<String, String>>(
    f: F,
    leaves: Seq<String>,
    layers: Seq<Seq<String>>,
) -> bool {
    &&& layers.len() >= 1
    &&& layers[0] == leaves
    &&& forall|k: int| 0 <= k < layers.len() - 1 ==> #[trigger] step_ok(f, layers, k)
}

/// `layers` is the complete tree over the non-empty `leaves`: it ends in a
/// layer that holds the root alone.
pub open spec fn is_tree<F: Fn(&String, &String) -> Result<String, String>>(
    f: F,
    leaves: Seq<String>,
    layers: Seq<Seq<String>>,
) -> bool {
    &&& leaves.len() >= 1
    &&& layers_from(f, leaves, layers)
    &&& layers.last().len() == 1
}

/// Position of the ancestor of node `i` of the leaf layer at layer `k`.
pub open spec fn ancestor(i: int, k: nat) -> int
    decreases k,
{
    if k == 0 {
        i
    } else {
        ancestor(i, (k - 1) as nat) / 2
    }
}

/// The sibling of node `idx`: the other child of its parent.
pub open spec fn sibling(idx: int) -> int {
    if idx % 2 == 0 {
        idx + 1
    } else {
        idx - 1
    }
}

/// The inclusion path of node `idx` of layer `k`: the siblings of it and of
/// its ancestors, lowest first, skipping each layer where the node has no
/// sibling.
pub open spec fn path_from(layers: Seq<Seq<String>>, k: int, idx: int) -> Seq<String>
    decreases layers.len() - k,
{
    if k + 1 >= layers.len() {
        seq![]
    } else {
        let rest = path_from(layers, k + 1, idx / 2);
        if sibling(idx) < layers[k].len() {
            seq![layers[k][sibling(idx)]] + rest
        } else {
            rest
        }
    }
}

/// The hash that a verifier reaches from hash `h` at position `idx` of a
/// layer of `n` nodes by combining it with the entries of `path` in turn, left
/// or right by the position's parity, and carrying it where it has no sibling.
pub open spec fn fold_path<F: Fn(&String, &String) -> Result<String, String>>(
    f: F,
    n: nat,
    idx: nat,
    h: String,
    path: Seq<String>,
) -> String
    decreases n,
{
    if n <= 1 {
        h
    } else if idx % 2 == 0 && idx + 1 >= n {
        fold_path(f, ((n + 1) / 2) as nat, idx / 2, h, path)
    } else {
        let p = if idx % 2 == 0 {
            combined(f, h, path[0])
        } else {
            combined(f, path[0], h)
        };
        fold_path(f, ((n + 1) / 2) as nat, idx / 2, p, path.drop_first())
    }
}

/// How many entries of a path `fold_path` takes from hash position `idx` of
/// a layer of `n` nodes: one for each layer where the node has a sibling.
pub open spec fn path_steps(n: nat, idx: nat) -> nat
    decreases n,
{
    if n <= 1 {
        0
    } else if idx % 2 == 0 && idx + 1 >= n {
        path_steps(((n + 1) / 2) as nat, idx / 2)
    } else {
        1 + path_steps(((n + 1) / 2) as nat, idx / 2)
    }
}

/// Layers `layers` with the ancestor of leaf `i` at each layer `k` set to
/// `vals[k]`.
pub open spec fn with_path_values(
    layers: Seq<Seq<String>>,
    i: int,
    vals: Seq<String>,
) -> Seq<Seq<String>> {
    Seq::new(layers.len(), |k: int| layers[k].update(ancestor(i, k as nat), vals[k]))
}

/// `vals[k + 1]` is what the parent of leaf `i`'s ancestor at layer `k` becomes
/// once that ancestor holds `vals[k]`, for every layer that `vals` reaches.
pub open spec fn path_values_ok<F: Fn(&String, &String) -> Result<String, String>>(
    f: F,
    layers: Seq<Seq<String>>,
    i: int,
    vals: Seq<String>,
) -> bool {
    forall|k: int|
        #![trigger vals[k + 1]]
        0 <= k < vals.len() - 1 ==> parent_ok(
            f,
            layers[k].update(ancestor(i, k as nat), vals[k]),
            vals[k + 1],
            ancestor(i, (k + 1) as nat),
        )
}

/// `f` may refuse the pair of nodes `2j` and `2j + 1` of `layer` with the
/// error `e`.
pub open spec fn pair_fails<F: Fn(&String, &String) -> Result<String, String>>(
    f: F,
    layer: Seq<String>,
    j: int,
    e: String,
) -> bool {
    &&& 0 <= j
    &&& 2 * j + 1 < layer.len()
    &&& f.ensures((&layer[2 * j], &layer[2 * j + 1]), Err(e))
}

/// Building the tree over `leaves` can come to a pair that `f` refuses with
/// `e`: some partly built tree has such a pair in its top layer.
pub open spec fn build_fails_with<F: Fn(&String, &String) -> Result<String, String>>(
    f: F,
    leaves: Seq<String>,
    e: String,
) -> bool {
    exists|layers: Seq<Seq<String>>, j: int|
        #![trigger layers_from(f, leaves, layers), pair_fails(f, layers.last(), j, e)]
        layers_from(f, leaves, layers) && pair_fails(f, layers.last(), j, e)
}

/// `f` may refuse hash `h` at position `idx` of `layer` and its sibling,
/// taken in the order that the parity of `idx` sets, with the error `e`.
pub open spec fn step_fails<F: Fn(&String, &String) -> Result<String, String>>(
    f: F,
    layer: Seq<String>,
    idx: int,
    h: String,
    e: String,
) -> bool {
    &&& 0 <= sibling(idx) < layer.len()
    &&& if idx % 2 == 0 {
        f.ensures((&h, &layer[sibling(idx)]), Err(e))
    } else {
        f.ensures((&layer[sibling(idx)], &h), Err(e))
    }
}

/// Rebuilding the ancestors of leaf `i` after it is set to `v` can come to a
/// pair that `f` refuses with `e`: the new hashes `vals` of the lowest
/// ancestors, rebuilt from each other, end in one that `f` refuses together
/// with its sibling.
pub open spec fn update_fails_with<F: Fn(&String, &String) -> Result<String, String>>(
    f: F,
    layers: Seq<Seq<String>>,
    i: int,
    v: String,
    e: String,
) -> bool {
    exists|vals: Seq<String>|
        #![trigger path_values_ok(f, layers, i, vals)]
        {
            &&& 1 <= vals.len() < layers.len()
            &&& vals[0] == v
            &&& path_values_ok(f, layers, i, vals)
            &&& step_fails(
                f,
                layers[vals.len() - 1],
                ancestor(i, (vals.len() - 1) as nat),
                vals.last(),
                e,
            )
        }
}

} // verus!
