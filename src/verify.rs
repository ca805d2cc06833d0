use vstd::prelude::*;

use crate::hash::{combine, digest_eq, hash_pair, Digest};
use crate::height::{lemma_pow2_positive, pow2};
use crate::tree::{strictly_ascending, MerkleError, Node, PositionalMerkleTree};

verus! {

/// `m` after inserting `nodes` from first to last; a later node at a
/// position replaces an earlier one.
pub open spec fn insert_nodes(m: Map<int, Seq<u8>>, nodes: Seq<Node>) -> Map<int, Seq<u8>>
    decreases nodes.len(),
{
    if nodes.len() == 0 {
        m
    } else {
        insert_nodes(m, nodes.drop_last()).insert(
            nodes.last().position as int,
            nodes.last().hash@,
        )
    }
}

/// The proven leaves as a map from position to digest: leaf `indices[k]`
/// sits at `first + indices[k]` with digest `values[k]`, later entries winning.
pub open spec fn seed_leaves(first: int, indices: Seq<usize>, values: Seq<Digest>) -> Map<
    int,
    Seq<u8>,
>
    decreases indices.len(),
{
    if indices.len() == 0 {
        Map::empty()
    } else {
        seed_leaves(first, indices.drop_last(), values.take(indices.len() - 1)).insert(
            first + indices.last(),
            values[indices.len() - 1]@,
        )
    }
}

/// The parents of the known positions of `m`: both children known are
/// combined, a lone known child is carried up unchanged.
pub open spec fn lift(m: Map<int, Seq<u8>>) -> Map<int, Seq<u8>> {
    Map::new(
        |q: int| m.contains_key(2 * q) || m.contains_key(2 * q + 1),
        |q: int|
            if m.contains_key(2 * q) && m.contains_key(2 * q + 1) {
                combine(m[2 * q], m[2 * q + 1])
            } else if m.contains_key(2 * q) {
                m[2 * q]
            } else {
                m[2 * q + 1]
            },
    )
}

/// Replays a layered proof on the known positions `m`: from the last layer
/// to the first, add the layer's nodes and move up one level.
pub open spec fn replay(m: Map<int, Seq<u8>>, proof: Seq<Vec<Node>>) -> Map<int, Seq<u8>>
    decreases proof.len(),
{
    if proof.len() == 0 {
        m
    } else {
        replay(lift(insert_nodes(m, proof.last()@)), proof.drop_last())
    }
}

/// Whether the replay ended on the root alone, holding `root`.
pub open spec fn accepts(m: Map<int, Seq<u8>>, root: Seq<u8>) -> bool {
    m.dom() =~= set![1int] && m[1] == root
}

/// `nodes`, in ascending position order, lists exactly the entries of `m`.
pub open spec fn lists_map(nodes: Seq<Node>, m: Map<int, Seq<u8>>) -> bool {
    &&& strictly_ascending(nodes)
    &&& forall|j: int|
        0 <= j < nodes.len() ==> m.contains_key(#[trigger] nodes[j].position as int)
            && m[nodes[j].position as int] == nodes[j].hash@
    &&& forall|k: int|
        #[trigger] m.contains_key(k) ==> exists|j: int|
            0 <= j < nodes.len() && nodes[j].position as int == k
}

/// Adds `node` to the position-ordered list `cur`, replacing the entry at the
/// same position if there is one.
fn insert_node(cur: &mut Vec<Node>, node: Node, Ghost(m): Ghost<Map<int, Seq<u8>>>)
    requires
        lists_map(old(cur)@, m),
    ensures
        lists_map(final(cur)@, m.insert(node.position as int, node.hash@)),
{
    let ghost m2 = m.insert(node.position as int, node.hash@);
    let mut i: usize = 0;
    while i < cur.len() && cur[i].position < node.position
        invariant
            i <= cur@.len(),
            forall|j: int| 0 <= j < i ==> cur@[j].position < node.position,
        decreases cur@.len() - i,
    {
        i = i + 1;
    }
    let ghost prev = cur@;
    if i < cur.len() && cur[i].position == node.position {
        cur.set(i, node);
        assert forall|k: int| #[trigger] m2.contains_key(k) implies exists|j: int|
            0 <= j < cur@.len() && cur@[j].position as int == k by {
            if k != node.position as int {
                let j = choose|j: int| 0 <= j < prev.len() && prev[j].position as int == k;
                assert(cur@[j] == prev[j]);
            } else {
                assert(cur@[i as int].position as int == k);
            }
        }
    } else {
        cur.insert(i, node);
        assert(cur@[i as int] == node);
        assert forall|a: int, b: int| 0 <= a < b < cur@.len() implies cur@[a].position
            < cur@[b].position by {
            if b < i {
                assert(cur@[a] == prev[a] && cur@[b] == prev[b]);
            } else if a > i {
                assert(cur@[a] == prev[a - 1] && cur@[b] == prev[b - 1]);
            } else if a == i {
                assert(cur@[b] == prev[b - 1]);
                assert(prev[i as int].position <= prev[b - 1].position);
            } else {
                assert(cur@[a] == prev[a]);
                if b > i {
                    assert(cur@[b] == prev[b - 1]);
                }
            }
        }
        assert forall|j: int| 0 <= j < cur@.len() implies m2.contains_key(
            #[trigger] cur@[j].position as int,
        ) && m2[cur@[j].position as int] == cur@[j].hash@ by {
            if j < i {
                assert(cur@[j] == prev[j]);
            } else if j > i {
                assert(cur@[j] == prev[j - 1]);
            }
        }
        assert forall|k: int| #[trigger] m2.contains_key(k) implies exists|j: int|
            0 <= j < cur@.len() && cur@[j].position as int == k by {
            if k != node.position as int {
                let j = choose|j: int| 0 <= j < prev.len() && prev[j].position as int == k;
                if j < i {
                    assert(cur@[j] == prev[j]);
                } else {
                    assert(cur@[j + 1] == prev[j]);
                }
            }
        }
    }
}

/// The parent level of the position-ordered list `cur` (see `lift`).
fn lift_level(cur: &Vec<Node>, Ghost(m): Ghost<Map<int, Seq<u8>>>) -> (r: Vec<Node>)
    requires
        lists_map(cur@, m),
    ensures
        lists_map(r@, lift(m)),
{
    let ghost lm = lift(m);
    let mut out: Vec<Node> = Vec::new();
    let mut i: usize = 0;
    while i < cur.len()
        invariant
            lists_map(cur@, m),
            lm == lift(m),
            i <= cur@.len(),
            strictly_ascending(out@),
            forall|t: int|
                0 <= t < out@.len() ==> lm.contains_key(#[trigger] out@[t].position as int)
                    && lm[out@[t].position as int] == out@[t].hash@,
            forall|j: int|
                0 <= j < i ==> exists|t: int|
                    0 <= t < out@.len() && out@[t].position == #[trigger] cur@[j].position / 2,
            i == 0 <==> out@.len() == 0,
            i > 0 ==> out@[out@.len() - 1].position == cur@[i - 1].position / 2,
        decreases cur@.len() - i,
    {
        let p = cur[i].position;
        let q = p / 2;
        let ghost prev = out@;
        if out.len() == 0 || out[out.len() - 1].position != q {
            proof {
                if i > 0 {
                    assert(cur@[i - 1].position < p);
                }
            }
            let hash = if p % 2 == 0 {
                if i + 1 < cur.len() && cur[i + 1].position == p + 1 {
                    hash_pair(&cur[i].hash, &cur[i + 1].hash)
                } else {
                    proof {
                        if m.contains_key(p + 1) {
                            let j = choose|j: int|
                                0 <= j < cur@.len() && cur@[j].position as int == p + 1;
                            if j > i + 1 {
                                assert(cur@[i + 1].position < cur@[j].position);
                            }
                        }
                    }
                    cur[i].hash
                }
            } else {
                proof {
                    if m.contains_key(p - 1) {
                        let j = choose|j: int|
                            0 <= j < cur@.len() && cur@[j].position as int == p - 1;
                        if j < i - 1 {
                            assert(cur@[j].position < cur@[i - 1].position);
                        }
                    }
                }
                cur[i].hash
            };
            out.push(Node { hash, position: q });
            assert(out@[out@.len() - 1].position == q);
            assert forall|j: int| 0 <= j < i + 1 implies exists|t: int|
                0 <= t < out@.len() && out@[t].position == #[trigger] cur@[j].position / 2 by {
                if j < i {
                    let t = choose|t: int|
                        0 <= t < prev.len() && prev[t].position == cur@[j].position / 2;
                    assert(out@[t] == prev[t]);
                }
            }
        }
        i = i + 1;
    }
    assert forall|k: int| #[trigger] lm.contains_key(k) implies exists|t: int|
        0 <= t < out@.len() && out@[t].position as int == k by {
        if m.contains_key(2 * k) {
            let j = choose|j: int| 0 <= j < cur@.len() && cur@[j].position as int == 2 * k;
            assert(cur@[j].position / 2 == k);
        } else {
            let j = choose|j: int| 0 <= j < cur@.len() && cur@[j].position as int == 2 * k + 1;
            assert(cur@[j].position / 2 == k);
        }
    }
    out
}

impl PositionalMerkleTree {
    /// Checks a layered proof for the leaves `leaf_values` at `leaf_indices`
    /// against `root` in a tree of height `tree_height`, without the tree:
    /// the proven leaves are placed at `2^tree_height + index`, then, from the
    /// last layer to the first, the layer's nodes are added and every known
    /// position is replaced by its parent. The proof is accepted when only
    /// position 1 is left and it holds `root`. Indices and values of unequal
    /// length are an `InvalidProof`.
    pub fn verify_multi_proof(
        root: Digest,
        leaf_indices: &[usize],
        leaf_values: &[Digest],
        proof: &[Vec<Node>],
        tree_height: usize,
    ) -> (r: Result<bool, MerkleError>)
        requires
            pow2(tree_height as nat) <= usize::MAX,
            forall|k: int|
                0 <= k < leaf_indices@.len() ==> pow2(tree_height as nat) + #[trigger] leaf_indices@[k]
                    <= usize::MAX,
        ensures
            r is Err <==> leaf_indices@.len() != leaf_values@.len(),
            r is Err ==> r->Err_0 is InvalidProof,
            r is Ok ==> r->Ok_0 == accepts(
                replay(
                    seed_leaves(pow2(tree_height as nat) as int, leaf_indices@, leaf_values@),
                    proof@,
                ),
                root@,
            ),
    {
        if leaf_indices.len() != leaf_values.len() {
            return Err(MerkleError::InvalidProof("mismatched leaves and indices"));
        }
        let mut first_leaf_pos: usize = 1;
        let mut e: usize = 0;
        while e < tree_height
            invariant
                e <= tree_height,
                first_leaf_pos == pow2(e as nat),
                pow2(tree_height as nat) <= usize::MAX,
            decreases tree_height - e,
        {
            proof {
                crate::height::lemma_pow2_monotone(e as nat + 1, tree_height as nat);
            }
            first_leaf_pos = first_leaf_pos * 2;
            e = e + 1;
        }
        let ghost first = first_leaf_pos as int;
        let mut cur: Vec<Node> = Vec::new();
        let mut k: usize = 0;
        while k < leaf_indices.len()
            invariant
                k <= leaf_indices@.len(),
                leaf_indices@.len() == leaf_values@.len(),
                first_leaf_pos == pow2(tree_height as nat),
                first == first_leaf_pos,
                forall|k: int|
                    0 <= k < leaf_indices@.len() ==> pow2(tree_height as nat)
                        + #[trigger] leaf_indices@[k] <= usize::MAX,
                lists_map(
                    cur@,
                    seed_leaves(first, leaf_indices@.take(k as int), leaf_values@.take(k as int)),
                ),
            decreases leaf_indices@.len() - k,
        {
            let ghost m = seed_leaves(first, leaf_indices@.take(k as int), leaf_values@.take(k as int));
            assert(leaf_indices@.take(k + 1).drop_last() =~= leaf_indices@.take(k as int));
            assert(leaf_values@.take(k + 1).take(k as int) =~= leaf_values@.take(k as int));
            let position = first_leaf_pos + leaf_indices[k];
            assert(leaf_indices@.take(k + 1).len() == k + 1);
            assert(leaf_indices@.take(k + 1).last() == leaf_indices@[k as int]);
            assert(leaf_indices@.take(k + 1).len() != 0);
            assert(leaf_values@.take(k + 1)[k as int] == leaf_values@[k as int]);
            assert(seed_leaves(first, leaf_indices@.take(k + 1), leaf_values@.take(k + 1)) == m.insert(
                position as int,
                leaf_values@[k as int]@,
            ));
            insert_node(&mut cur, Node { hash: leaf_values[k], position }, Ghost(m));
            k = k + 1;
        }
        assert(leaf_indices@.take(k as int) =~= leaf_indices@);
        assert(leaf_values@.take(k as int) =~= leaf_values@);
        let ghost target = replay(seed_leaves(first, leaf_indices@, leaf_values@), proof@);
        let ghost mut m = seed_leaves(first, leaf_indices@, leaf_values@);
        let mut level: usize = proof.len();
        assert(proof@.take(level as int) =~= proof@);
        while level > 0
            invariant
                level <= proof@.len(),
                lists_map(cur@, m),
                replay(m, proof@.take(level as int)) == target,
            decreases level,
        {
            assert(proof@.take(level as int).drop_last() =~= proof@.take(level - 1));
            let layer = &proof[level - 1];
            let ghost m0 = m;
            let mut j: usize = 0;
            while j < layer.len()
                invariant
                    j <= layer@.len(),
                    lists_map(cur@, insert_nodes(m0, layer@.take(j as int))),
                decreases layer@.len() - j,
            {
                assert(layer@.take(j + 1).drop_last() =~= layer@.take(j as int));
                insert_node(&mut cur, layer[j], Ghost(insert_nodes(m0, layer@.take(j as int))));
                j = j + 1;
            }
            assert(layer@.take(j as int) =~= layer@);
            cur = lift_level(&cur, Ghost(insert_nodes(m0, layer@)));
            proof {
                m = lift(insert_nodes(m0, layer@));
            }
            level = level - 1;
        }
        assert(proof@.take(0) =~= Seq::<Vec<Node>>::empty());
        if cur.len() == 1 && cur[0].position == 1 {
            let same = digest_eq(&cur[0].hash, &root);
            assert(m.dom() =~= set![1int]) by {
                assert forall|k: int| m.contains_key(k) implies k == 1 by {
                    let j = choose|j: int| 0 <= j < cur@.len() && cur@[j].position as int == k;
                }
                assert(m.contains_key(cur@[0].position as int));
            }
            Ok(same)
        } else {
            proof {
                if m.dom() =~= set![1int] {
                    assert(m.contains_key(1));
                    let j = choose|j: int| 0 <= j < cur@.len() && cur@[j].position as int == 1;
                    if cur@.len() > 1 {
                        let a: int = if j == 0 { 1 } else { 0 };
                        assert(m.contains_key(cur@[a].position as int));
                    }
                    assert(cur@.len() == 1);
                }
            }
            Ok(false)
        }
    }
}

} // verus!
