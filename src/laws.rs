use vstd::prelude::*;

use crate::hash::Digest;
use crate::height::{height_of, lemma_height_bounds, lemma_pow2_monotone, lemma_pow2_positive, pow2};
use crate::tree::{
    covers, first_leaf, in_layer, index_set, is_layered_proof, lemma_covered_populated, node_at,
    tree_node, tree_root, Node,
};
use crate::verify::{accepts, insert_nodes, lift, replay, seed_leaves};

verus! {

/// The covered positions at depth `d` of the tree over `leaves`, with their
/// digests.
pub open spec fn covered_level(leaves: Seq<Seq<u8>>, idx: Set<int>, d: nat) -> Map<int, Seq<u8>> {
    Map::new(
        |q: int| pow2(d) <= q < pow2(d + 1) && covers(idx, first_leaf(leaves.len()), q),
        |q: int| tree_node(leaves, q)->Some_0,
    )
}

/// The covered positions at depth `d` together with the proof layer for
/// that depth.
pub open spec fn known_level(leaves: Seq<Seq<u8>>, idx: Set<int>, d: nat) -> Map<int, Seq<u8>> {
    Map::new(
        |q: int|
            pow2(d) <= q < pow2(d + 1) && (covers(idx, first_leaf(leaves.len()), q) || in_layer(
                leaves,
                idx,
                (d - 1) as nat,
                q,
            )),
        |q: int| tree_node(leaves, q)->Some_0,
    )
}

/// Inserting nodes whose digests agree with `f` into a map that agrees with
/// `f` adds their positions to the domain.
proof fn lemma_insert_nodes(m: Map<int, Seq<u8>>, nodes: Seq<Node>, f: spec_fn(int) -> Seq<u8>)
    requires
        forall|k: int| #[trigger] m.contains_key(k) ==> m[k] == f(k),
        forall|j: int| 0 <= j < nodes.len() ==> (#[trigger] nodes[j]).hash@ == f(nodes[j].position as int),
    ensures
        insert_nodes(m, nodes) =~= Map::new(
            |k: int| m.contains_key(k) || exists|j: int| 0 <= j < nodes.len() && nodes[j].position as int == k,
            |k: int| f(k),
        ),
    decreases nodes.len(),
{
    if nodes.len() > 0 {
        let s = nodes.drop_last();
        assert forall|j: int| 0 <= j < s.len() implies (#[trigger] s[j]).hash@ == f(s[j].position as int) by {
            assert(s[j] == nodes[j]);
        }
        lemma_insert_nodes(m, s, f);
        let r = insert_nodes(m, nodes);
        assert forall|k: int| r.contains_key(k) <==> (m.contains_key(k) || exists|j: int|
            0 <= j < nodes.len() && nodes[j].position as int == k) by {
            if exists|j: int| 0 <= j < nodes.len() && nodes[j].position as int == k {
                let j = choose|j: int| 0 <= j < nodes.len() && nodes[j].position as int == k;
                if j < s.len() {
                    assert(s[j] == nodes[j]);
                }
            }
            if exists|j: int| 0 <= j < s.len() && s[j].position as int == k {
                let j = choose|j: int| 0 <= j < s.len() && s[j].position as int == k;
                assert(s[j] == nodes[j]);
            }
        }
    }
}

/// The proven leaves, placed by index, are the covered positions of the leaf
/// level.
proof fn lemma_seed(leaves: Seq<Seq<u8>>, indices: Seq<usize>, values: Seq<Digest>)
    requires
        leaves.len() >= 1,
        values.len() == indices.len(),
        forall|k: int| 0 <= k < indices.len() ==> #[trigger] indices[k] < leaves.len(),
        forall|k: int| 0 <= k < indices.len() ==> (#[trigger] values[k])@ == leaves[indices[k] as int],
    ensures
        seed_leaves(first_leaf(leaves.len()) as int, indices, values) =~= covered_level(
            leaves,
            index_set(indices),
            height_of(leaves.len()),
        ),
{
    let first = first_leaf(leaves.len());
    let h = height_of(leaves.len());
    lemma_height_bounds(leaves.len());
    assert(pow2(h + 1) == 2 * first);
    lemma_seed_prefix(leaves, indices, values, indices.len() as int);
    assert(indices.take(indices.len() as int) =~= indices);
    assert(values.take(indices.len() as int) =~= values);
    let cl = covered_level(leaves, index_set(indices), h);
    let s = seed_leaves(first as int, indices, values);
    assert forall|q: int| s.contains_key(q) <==> cl.contains_key(q) by {
        if first <= q < 2 * first {
            assert(covers(index_set(indices), first, q) == index_set(indices).contains(q - first));
        }
        if s.contains_key(q) {
            let k = choose|k: int| 0 <= k < indices.len() && first + indices[k] == q;
            assert(index_set(indices).contains(q - first));
        }
        if cl.contains_key(q) {
            let k = choose|k: int| 0 <= k < indices.len() && indices[k] as int == q - first;
        }
    }
    assert forall|q: int| s.contains_key(q) implies s[q] == cl[q] by {
        let k = choose|k: int| 0 <= k < indices.len() && first + indices[k] == q;
    }
}

proof fn lemma_seed_prefix(leaves: Seq<Seq<u8>>, indices: Seq<usize>, values: Seq<Digest>, n: int)
    requires
        0 <= n <= indices.len(),
        values.len() == indices.len(),
        forall|k: int| 0 <= k < indices.len() ==> #[trigger] indices[k] < leaves.len(),
        forall|k: int| 0 <= k < indices.len() ==> (#[trigger] values[k])@ == leaves[indices[k] as int],
    ensures
        forall|q: int|
            #[trigger] seed_leaves(first_leaf(leaves.len()) as int, indices.take(n), values.take(n)).contains_key(q)
                <==> exists|k: int| 0 <= k < n && first_leaf(leaves.len()) + indices[k] == q,
        forall|q: int|
            #[trigger] seed_leaves(first_leaf(leaves.len()) as int, indices.take(n), values.take(n)).contains_key(q)
                ==> seed_leaves(first_leaf(leaves.len()) as int, indices.take(n), values.take(n))[q]
                == leaves[q - first_leaf(leaves.len())],
    decreases n,
{
    let first = first_leaf(leaves.len()) as int;
    if n > 0 {
        lemma_seed_prefix(leaves, indices, values, n - 1);
        let i1 = indices.take(n);
        let v1 = values.take(n);
        assert(i1.drop_last() =~= indices.take(n - 1));
        assert(v1.take(n - 1) =~= values.take(n - 1));
        assert(i1.last() == indices[n - 1]);
        assert(v1[n - 1] == values[n - 1]);
        let prev = seed_leaves(first, indices.take(n - 1), values.take(n - 1));
        let m = seed_leaves(first, i1, v1);
        assert(m == prev.insert(first + indices[n - 1], values[n - 1]@));
        assert forall|q: int| #[trigger] m.contains_key(q) <==> exists|k: int|
            0 <= k < n && first + indices[k] == q by {
            if exists|k: int| 0 <= k < n && first + indices[k] == q {
                let k = choose|k: int| 0 <= k < n && first + indices[k] == q;
                if k < n - 1 {
                    assert(prev.contains_key(q));
                }
            }
            if prev.contains_key(q) {
                let k = choose|k: int| 0 <= k < n - 1 && first + indices[k] == q;
            }
        }
        assert forall|q: int| #[trigger] m.contains_key(q) implies m[q] == leaves[q - first] by {
            if q != first + indices[n - 1] {
                assert(prev.contains_key(q));
            }
        }
    } else {
        assert(indices.take(0).len() == 0);
    }
}

/// The parent level of the covered positions and proof layer at depth `d`
/// is the covered positions at depth `d - 1`, with the tree's digests.
proof fn lemma_lift_level(leaves: Seq<Seq<u8>>, idx: Set<int>, d: nat)
    requires
        leaves.len() >= 1,
        1 <= d <= height_of(leaves.len()),
        forall|i: int| idx.contains(i) ==> 0 <= i < leaves.len(),
    ensures
        lift(known_level(leaves, idx, d)) =~= covered_level(leaves, idx, (d - 1) as nat),
{
    let first = first_leaf(leaves.len());
    let k = known_level(leaves, idx, d);
    let c = covered_level(leaves, idx, (d - 1) as nat);
    let l = lift(k);
    lemma_pow2_monotone(d, height_of(leaves.len()));
    lemma_pow2_positive((d - 1) as nat);
    assert(pow2(d) == 2 * pow2((d - 1) as nat));
    assert(pow2(d + 1) == 2 * pow2(d));
    assert forall|q: int| l.contains_key(q) <==> c.contains_key(q) by {
        if pow2((d - 1) as nat) <= q < pow2(d) {
            assert(covers(idx, first, q) == (covers(idx, first, 2 * q) || covers(idx, first, 2 * q + 1)));
        }
    }
    assert forall|q: int| l.contains_key(q) implies l[q] == c[q] by {
        assert(covers(idx, first, q) == (covers(idx, first, 2 * q) || covers(idx, first, 2 * q + 1)));
        assert(node_at(leaves, first, q) == crate::tree::join(
            node_at(leaves, first, 2 * q),
            node_at(leaves, first, 2 * q + 1),
        ));
        if covers(idx, first, 2 * q) {
            lemma_covered_populated(leaves, idx, first, 2 * q);
        }
        if covers(idx, first, 2 * q + 1) {
            lemma_covered_populated(leaves, idx, first, 2 * q + 1);
        }
        assert(crate::tree::sibling(2 * q) == 2 * q + 1);
        assert(crate::tree::sibling(2 * q + 1) == 2 * q);
    }
}

/// Replaying the generated proof layers from depth `d` up leaves the root
/// alone.
pub(crate) proof fn lemma_replay_levels(leaves: Seq<Seq<u8>>, idx: Set<int>, proof: Seq<Vec<Node>>, d: nat)
    requires
        leaves.len() >= 1,
        d <= height_of(leaves.len()),
        forall|i: int| idx.contains(i) ==> 0 <= i < leaves.len(),
        is_layered_proof(proof, leaves, idx),
        exists|q: int| covered_level(leaves, idx, d).contains_key(q),
    ensures
        replay(covered_level(leaves, idx, d), proof.take(d as int)) == covered_level(leaves, idx, 0),
        exists|q: int| covered_level(leaves, idx, 0).contains_key(q),
    decreases d,
{
    let cl = covered_level(leaves, idx, d);
    let q0 = choose|q: int| cl.contains_key(q);
    if d == 0 {
        assert(proof.take(0) =~= Seq::<Vec<Node>>::empty());
    } else {
        let s = proof.take(d as int);
        assert(s.drop_last() =~= proof.take(d - 1));
        assert(s.last() == proof[d - 1]);
        let layer = proof[d - 1]@;
        assert(crate::tree::is_layer(layer, leaves, idx, (d - 1) as nat));
        let f = |q: int| tree_node(leaves, q)->Some_0;
        lemma_insert_nodes(cl, layer, f);
        assert(insert_nodes(cl, layer) =~= known_level(leaves, idx, d)) by {
            assert forall|q: int| (exists|j: int| 0 <= j < layer.len() && layer[j].position as int == q)
                <==> #[trigger] in_layer(leaves, idx, (d - 1) as nat, q) by {
                if exists|j: int| 0 <= j < layer.len() && layer[j].position as int == q {
                    let j = choose|j: int| 0 <= j < layer.len() && layer[j].position as int == q;
                    assert(in_layer(leaves, idx, (d - 1) as nat, layer[j].position as int));
                }
            }
        }
        lemma_lift_level(leaves, idx, d);
        let up = covered_level(leaves, idx, (d - 1) as nat);
        assert(known_level(leaves, idx, d).contains_key(q0));
        assert(lift(known_level(leaves, idx, d)).contains_key(q0 / 2));
        assert(up.contains_key(q0 / 2));
        lemma_replay_levels(leaves, idx, proof, (d - 1) as nat);
    }
}

/// Round trip: for a tree over a non-empty `leaves`, the layered proof
/// generated for a non-empty list of valid leaf indices, checked with the
/// proven leaves' own digests against the tree's root and height, is
/// accepted.
pub proof fn lemma_round_trip(
    leaves: Seq<Seq<u8>>,
    indices: Seq<usize>,
    values: Seq<Digest>,
    proof: Seq<Vec<Node>>,
)
    requires
        leaves.len() >= 1,
        indices.len() >= 1,
        values.len() == indices.len(),
        forall|k: int| 0 <= k < indices.len() ==> #[trigger] indices[k] < leaves.len(),
        forall|k: int| 0 <= k < indices.len() ==> (#[trigger] values[k])@ == leaves[indices[k] as int],
        is_layered_proof(proof, leaves, index_set(indices)),
    ensures
        accepts(
            replay(seed_leaves(pow2(height_of(leaves.len())) as int, indices, values), proof),
            tree_root(leaves),
        ),
{
    let idx = index_set(indices);
    let h = height_of(leaves.len());
    let first = first_leaf(leaves.len());
    assert forall|i: int| idx.contains(i) implies 0 <= i < leaves.len() by {
        let k = choose|k: int| 0 <= k < indices.len() && indices[k] as int == i;
    }
    lemma_seed(leaves, indices, values);
    lemma_height_bounds(leaves.len());
    assert(pow2(h + 1) == 2 * first);
    assert(covered_level(leaves, idx, h).contains_key(first + indices[0])) by {
        assert(idx.contains(indices[0] as int));
        assert(covers(idx, first, first + indices[0]));
    }
    assert(proof.take(h as int) =~= proof);
    lemma_replay_levels(leaves, idx, proof, h);
    let top = covered_level(leaves, idx, 0);
    assert(pow2(0) == 1 && pow2(1) == 2);
    let q = choose|q: int| top.contains_key(q);
    assert(q == 1);
    lemma_covered_populated(leaves, idx, first, 1);
    assert(top.dom() =~= set![1int]);
}

/// A generated proof is accepted against the tree's root only: checked
/// against any other claimed root, it is rejected.
pub proof fn lemma_other_root_rejected(
    leaves: Seq<Seq<u8>>,
    indices: Seq<usize>,
    values: Seq<Digest>,
    proof: Seq<Vec<Node>>,
    claimed: Seq<u8>,
)
    requires
        leaves.len() >= 1,
        indices.len() >= 1,
        values.len() == indices.len(),
        forall|k: int| 0 <= k < indices.len() ==> #[trigger] indices[k] < leaves.len(),
        forall|k: int| 0 <= k < indices.len() ==> (#[trigger] values[k])@ == leaves[indices[k] as int],
        is_layered_proof(proof, leaves, index_set(indices)),
        claimed != tree_root(leaves),
    ensures
        !accepts(
            replay(seed_leaves(pow2(height_of(leaves.len())) as int, indices, values), proof),
            claimed,
        ),
{
    lemma_round_trip(leaves, indices, values, proof);
}

/// A tree over one leaf has height 0, that leaf as its root, and a layered
/// proof without layers.
pub proof fn lemma_single_leaf(h: Seq<u8>, idx: Set<int>, proof: Seq<Vec<Node>>)
    requires
        is_layered_proof(proof, seq![h], idx),
    ensures
        height_of(1) == 0,
        tree_root(seq![h]) == h,
        proof.len() == 0,
{
    assert(pow2(0) == 1);
    assert(first_leaf(1) == 1);
    assert(node_at(seq![h], 1, 1) == Some(h));
}

} // verus!
