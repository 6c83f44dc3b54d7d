use vstd::prelude::*;
use crate::error::MerkleError;
use crate::lemmas::{lemma_ancestor_in_range, lemma_path_values_give_tree};
use crate::model::{
    ancestor, build_fails_with, callable, pair_fails, step_fails, update_fails_with, is_parent_layer, is_tree, layers_from, never_fails,
    parent_ok, path_from, path_values_ok, step_ok, with_path_values,
};

verus! {

/// The views of a list of layers.
pub open spec fn layer_views(t: Seq<Vec<String>>) -> Seq<Seq<String>> {
    t.map_values(|l: Vec<String>| l@)
}

/// A Merkle tree over an ordered, non-empty list of leaf hashes. Layer 0 holds
/// the leaves; each further layer holds one node for each pair of the layer
/// below (a trailing lone node is carried up unchanged); the last layer holds
/// the root alone.
pub struct MerkleTree<F> {
    leaf_nodes: Vec<String>,
    tree: Vec<Vec<String>>,
    combine: F,
}

impl<F: Fn(&String, &String) -> Result<String, String>> MerkleTree<F> {
    /// The leaf hashes, in order.
    pub closed spec fn leaves(&self) -> Seq<String> {
        self.leaf_nodes@
    }

    /// All layers, the leaves first and the root's layer last.
    pub closed spec fn layers(&self) -> Seq<Seq<String>> {
        layer_views(self.tree@)
    }

    /// The function that joins two hashes into one.
    pub closed spec fn combine_fn(&self) -> F {
        self.combine
    }

    /// The tree's layers are those built from its leaves with its function.
    pub open spec fn wf(&self) -> bool {
        &&& callable(self.combine_fn())
        &&& is_tree(self.combine_fn(), self.leaves(), self.layers())
    }

    /// The single node of the last layer.
    pub open spec fn root_value(&self) -> String {
        self.layers().last()[0]
    }

    /// `self` is `before` with leaf `index` set to `v` and the ancestors of
    /// that leaf rebuilt; no other node has changed.
    pub open spec fn is_update_of(&self, before: Self, index: int, v: String) -> bool {
        &&& self.wf()
        &&& self.combine_fn() == before.combine_fn()
        &&& self.leaves() == before.leaves().update(index, v)
        &&& self.layers().len() == before.layers().len()
        &&& forall|k: int|
            #![trigger self.layers()[k]]
            0 <= k < self.layers().len() ==> self.layers()[k].len() == before.layers()[k].len()
        &&& forall|k: int, p: int|
            0 <= k < self.layers().len() && 0 <= p < self.layers()[k].len() && p != ancestor(
                index,
                k as nat,
            ) ==> #[trigger] self.layers()[k][p] == before.layers()[k][p]
    }

    /// Builds the tree over `leaf_data`, layer by layer, with `combine`.
    pub fn new(leaf_data: Vec<String>, combine: F) -> (r: Result<Self, MerkleError>)
        requires
            callable(combine),
        ensures
            leaf_data@.len() == 0 <==> r matches Err(MerkleError::InvalidInput),
            r matches Ok(t) ==> t.wf() && t.leaves() == leaf_data@ && t.combine_fn() == combine,
            r matches Err(MerkleError::HashError(e)) ==> build_fails_with(combine, leaf_data@, e),
            !(r matches Err(MerkleError::IndexOutOfRange(_))),
            leaf_data@.len() > 0 && never_fails(combine) ==> r is Ok,
            leaf_data@.len() == 1 ==> r is Ok,
    {
        if leaf_data.len() == 0 {
            return Err(MerkleError::InvalidInput);
        }
        let mut tree: Vec<Vec<String>> = Vec::new();
        tree.push(copy_layer(&leaf_data));
        assert(layer_views(tree@) =~= seq![leaf_data@]);
        while tree[tree.len() - 1].len() > 1
            invariant
                callable(combine),
                leaf_data@.len() > 0,
                leaf_data@.len() > 1 || tree@.len() == 1,
                tree@.len() >= 1,
                tree@.last()@.len() >= 1,
                layers_from(combine, leaf_data@, layer_views(tree@)),
            decreases tree@.last()@.len(),
        {
            let prev = &tree[tree.len() - 1];
            let m = prev.len();
            let half = m / 2 + m % 2;
            let mut next: Vec<String> = Vec::new();
            let mut j: usize = 0;
            while j < half
                invariant
                    callable(combine),
                    leaf_data@.len() > 1,
                    layers_from(combine, leaf_data@, layer_views(tree@)),
                    prev@ == layer_views(tree@).last(),
                    m == prev@.len(),
                    m > 1,
                    half == (m + 1) / 2,
                    j <= half,
                    next@.len() == j,
                    forall|q: int| 0 <= q < j ==> #[trigger] parent_ok(combine, prev@, next@[q], q),
                decreases half - j,
            {
                let h = if 2 * j + 1 < m {
                    match combine(&prev[2 * j], &prev[2 * j + 1]) {
                        Ok(h) => h,
                        Err(e) => {
                            assert(combine.ensures(
                                (&prev@[2 * j as int], &prev@[2 * j + 1]),
                                Err::<String, String>(e),
                            ));
                            assert(pair_fails(combine, prev@, j as int, e));
                            assert(layer_views(tree@).last() == prev@);
                            assert(build_fails_with(combine, leaf_data@, e));
                            return Err(MerkleError::HashError(e));
                        },
                    }
                } else {
                    prev[2 * j].clone()
                };
                next.push(h);
                j += 1;
            }
            assert(is_parent_layer(combine, prev@, next@));
            let ghost before = layer_views(tree@);
            tree.push(next);
            assert(layer_views(tree@) =~= before.push(next@));
            let ghost after = layer_views(tree@);
            assert forall|k: int| 0 <= k < after.len() - 1 implies #[trigger] step_ok(
                combine,
                after,
                k,
            ) by {
                if k < before.len() - 1 {
                    assert(step_ok(combine, before, k));
                }
            }
        }
        let leaf_nodes = leaf_data;
        Ok(MerkleTree { leaf_nodes, tree, combine })
    }

    /// The root hash.
    pub fn root(&self) -> (r: &String)
        requires
            self.wf(),
        ensures
            *r == self.root_value(),
    {
        let last = self.tree.len() - 1;
        &self.tree[last][0]
    }

    /// The inclusion path of leaf `index`: the siblings of the leaf and of its
    /// ancestors, lowest first, skipping each layer where the node was
    /// carried up without a sibling.
    pub fn merkle_path(&self, index: usize) -> (r: Result<Vec<String>, MerkleError>)
        requires
            self.wf(),
        ensures
            match r {
                Ok(p) => index < self.leaves().len() && p@ == path_from(
                    self.layers(),
                    0,
                    index as int,
                ),
                Err(e) => index >= self.leaves().len() && e == MerkleError::IndexOutOfRange(index),
            },
    {
        if index >= self.leaf_nodes.len() {
            return Err(MerkleError::IndexOutOfRange(index));
        }
        let ghost layers = self.layers();
        let n_layers = self.tree.len();
        let mut path: Vec<String> = Vec::new();
        let mut idx = index;
        let mut k: usize = 0;
        while k + 1 < n_layers
            invariant
                self.wf(),
                layers == self.layers(),
                n_layers == layers.len(),
                k < n_layers,
                idx < layers[k as int].len(),
                path@ + path_from(layers, k as int, idx as int) == path_from(
                    layers,
                    0,
                    index as int,
                ),
            decreases n_layers - k,
        {
            let level = &self.tree[k];
            assert(level@ == layers[k as int]);
            assert(step_ok(self.combine, layers, k as int));
            let sib = if idx % 2 == 0 {
                idx + 1
            } else {
                idx - 1
            };
            let ghost old_path = path@;
            if sib < level.len() {
                path.push(level[sib].clone());
                assert(path@ + path_from(layers, k + 1, (idx / 2) as int) =~= old_path + path_from(
                    layers,
                    k as int,
                    idx as int,
                ));
            }
            idx = idx / 2;
            k += 1;
        }
        assert(path@ =~= path@ + path_from(layers, k as int, idx as int));
        Ok(path)
    }

    /// Sets leaf `index` to `new_data` and rebuilds the ancestors of that
    /// leaf, and nothing else. The new ancestor hashes are all computed before
    /// any node is written, so on an error the tree is left as it was.
    pub fn update_leaf(&mut self, index: usize, new_data: String) -> (r: Result<(), MerkleError>)
        requires
            old(self).wf(),
        ensures
            match r {
                Ok(()) => index < old(self).leaves().len() && final(self).is_update_of(
                    *old(self),
                    index as int,
                    new_data,
                ),
                Err(e) => *final(self) == *old(self) && match e {
                    MerkleError::IndexOutOfRange(i) => i == index && index >= old(
                        self,
                    ).leaves().len(),
                    MerkleError::HashError(msg) => index < old(self).leaves().len()
                        && update_fails_with(
                        old(self).combine_fn(),
                        old(self).layers(),
                        index as int,
                        new_data,
                        msg,
                    ),
                    MerkleError::InvalidInput => false,
                },
            },
            index < old(self).leaves().len() && never_fails(old(self).combine_fn()) ==> r is Ok,
            index < old(self).leaves().len() && old(self).leaves().len() == 1 ==> r is Ok,
    {
        if index >= self.leaf_nodes.len() {
            return Err(MerkleError::IndexOutOfRange(index));
        }
        let ghost layers = self.layers();
        let ghost leaves = self.leaves();
        let ghost f = self.combine;
        let n_layers = self.tree.len();
        proof {
            lemma_ancestor_in_range(f, self.leaves(), layers, index as int, 0);
            if leaves.len() == 1 && layers.len() > 1 {
                assert(step_ok(f, layers, 0));
            }
        }
        // The new hashes of the leaf's ancestors, lowest first.
        let mut fresh: Vec<String> = Vec::new();
        let mut cur = new_data;
        let mut idx = index;
        let mut k: usize = 0;
        while k + 1 < n_layers
            invariant
                self.wf(),
                *self == *old(self),
                layers == self.layers(),
                f == self.combine,
                n_layers == layers.len(),
                index < self.leaves().len(),
                k < n_layers,
                fresh@.len() == k,
                idx == ancestor(index as int, k as nat),
                idx < layers[k as int].len(),
                fresh@.push(cur)[0] == new_data,
                path_values_ok(f, layers, index as int, fresh@.push(cur)),
                leaves == old(self).leaves(),
                leaves.len() == 1 ==> n_layers == 1,
            decreases n_layers - k,
        {
            let level = &self.tree[k];
            assert(level@ == layers[k as int]);
            assert(step_ok(f, layers, k as int));
            let ghost low = layers[k as int].update(idx as int, cur);
            let sib = if idx % 2 == 0 {
                idx + 1
            } else {
                idx - 1
            };
            let next = if sib < level.len() {
                let res = if idx % 2 == 0 {
                    (self.combine)(&cur, &level[sib])
                } else {
                    (self.combine)(&level[sib], &cur)
                };
                match res {
                    Ok(h) => h,
                    Err(e) => {
                        proof {
                            if idx % 2 == 0 {
                                assert(f.ensures((&cur, &level@[sib as int]), Err::<String, String>(e)));
                            } else {
                                assert(f.ensures((&level@[sib as int], &cur), Err::<String, String>(e)));
                            }
                            let vals = fresh@.push(cur);
                            assert(vals.len() - 1 == k);
                            assert(vals.last() == cur);
                            assert(step_fails(f, layers[k as int], idx as int, cur, e));
                            assert(update_fails_with(f, layers, index as int, new_data, e));
                        }
                        return Err(MerkleError::HashError(e));
                    },
                }
            } else {
                cur.clone()
            };
            proof {
                assert(parent_ok(f, low, next, (idx / 2) as int));
            }
            let ghost prev_vals = fresh@.push(cur);
            fresh.push(cur);
            cur = next;
            idx = idx / 2;
            k += 1;
            proof {
                let vals = fresh@.push(cur);
                assert(vals =~= prev_vals.push(next));
                assert forall|q: int| 0 <= q < vals.len() - 1 implies #[trigger] parent_ok(
                    f,
                    layers[q].update(ancestor(index as int, q as nat), vals[q]),
                    vals[q + 1],
                    ancestor(index as int, (q + 1) as nat),
                ) by {
                    if q < prev_vals.len() - 1 {
                        assert(prev_vals[q + 1] == vals[q + 1]);
                    }
                }
                assert(path_values_ok(f, layers, index as int, vals));
                assert(step_ok(f, layers, k - 1));
            }
        }
        fresh.push(cur);
        proof {
            lemma_path_values_give_tree(f, self.leaves(), layers, index as int, fresh@);
        }
        let ghost target = with_path_values(layers, index as int, fresh@);
        // Write the new hashes into the tree.
        let mut idx = index;
        let mut k: usize = 0;
        while k < n_layers
            invariant
                n_layers == layers.len(),
                fresh@.len() == n_layers,
                target == with_path_values(layers, index as int, fresh@),
                self.tree@.len() == n_layers,
                k <= n_layers,
                idx == ancestor(index as int, k as nat),
                is_tree(f, leaves, layers),
                index < leaves.len(),
                self.leaf_nodes@ == leaves,
                self.combine == f,
                callable(f),
                fresh@[0] == new_data,
                forall|q: int|
                    #![trigger self.tree@[q]]
                    0 <= q < n_layers ==> self.tree@[q]@ == if q < k {
                        target[q]
                    } else {
                        layers[q]
                    },
            decreases n_layers - k,
        {
            proof {
                lemma_ancestor_in_range(f, leaves, layers, index as int, k as nat);
                assert(self.tree@[k as int]@ == layers[k as int]);
            }
            let ghost before = self.tree@;
            let v = fresh[k].clone();
            self.tree[k][idx] = v;
            proof {
                assert forall|q: int|
                    #![trigger self.tree@[q]]
                    0 <= q < n_layers && q != k implies self.tree@[q] == before[q] by {}
                assert(self.tree@[k as int]@ =~= target[k as int]);
            }
            idx = idx / 2;
            k += 1;
        }
        self.leaf_nodes[index] = fresh[0].clone();
        proof {
            assert(self.layers() =~= target);
            assert(self.leaves() =~= leaves.update(index as int, fresh@[0]));
            assert forall|q: int, p: int|
                0 <= q < self.layers().len() && 0 <= p < self.layers()[q].len() && p != ancestor(
                    index as int,
                    q as nat,
                ) implies #[trigger] self.layers()[q][p] == layers[q][p] by {
                lemma_ancestor_in_range(f, leaves, layers, index as int, q as nat);
            }
            assert forall|q: int|
                #![trigger self.layers()[q]]
                0 <= q < self.layers().len() implies self.layers()[q].len() == layers[q].len() by {
                lemma_ancestor_in_range(f, leaves, layers, index as int, q as nat);
            }
            assert(self.wf());
            assert(self.is_update_of(*old(self), index as int, new_data));
        }
        Ok(())
    }
}

/// A copy of `v`, hash by hash.
fn copy_layer(v: &Vec<String>) -> (r: Vec<String>)
    ensures
        r@ == v@,
{
    let mut r: Vec<String> = Vec::new();
    let mut i: usize = 0;
    while i < v.len()
        invariant
            i <= v@.len(),
            r@ == v@.subrange(0, i as int),
        decreases v@.len() - i,
    {
        r.push(v[i].clone());
        i += 1;
        assert(r@ =~= v@.subrange(0, i as int));
    }
    assert(v@.subrange(0, v@.len() as int) =~= v@);
    r
}

} // verus!
