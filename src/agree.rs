use vstd::prelude::*;

use crate::balanced::{balanced_root, entries, pass, reconstruct};
use crate::hash::combine;
use crate::height::{height_of, lemma_height_bounds, lemma_pow2_monotone, lemma_pow2_positive, pow2};
use crate::laws::{covered_level, lemma_replay_levels};
use crate::tree::{
    covers, first_leaf, in_layer, is_layer, is_layered_proof, join, lemma_covered_populated,
    node_at, sibling, tree_node, tree_root, Node,
};

verus! {

/// Populated positions are packed to the left of each level: if `q` is
/// populated, so is every position left of it at the same depth.
pub proof fn lemma_left_packed(leaves: Seq<Seq<u8>>, d: nat, a: int, q: int)
    requires
        d <= height_of(leaves.len()),
        pow2(d) <= a < q < pow2(d + 1),
        tree_node(leaves, q) is Some,
    ensures
        tree_node(leaves, a) is Some,
    decreases height_of(leaves.len()) - d,
{
    let h = height_of(leaves.len());
    let first = first_leaf(leaves.len());
    lemma_pow2_positive(d);
    assert(pow2(d + 1) == 2 * pow2(d));
    if d < h {
        lemma_pow2_monotone(d + 1, h);
        assert(pow2(d + 2) == 2 * pow2(d + 1));
        assert(node_at(leaves, first, q) == join(node_at(leaves, first, 2 * q), node_at(leaves, first, 2 * q + 1)));
        assert(node_at(leaves, first, a) == join(node_at(leaves, first, 2 * a), node_at(leaves, first, 2 * a + 1)));
        if tree_node(leaves, 2 * q) is Some {
            lemma_left_packed(leaves, d + 1, 2 * a, 2 * q);
        } else {
            lemma_left_packed(leaves, d + 1, 2 * a, 2 * q + 1);
        }
    } else {
        if d > h {
            lemma_pow2_monotone(h + 1, d);
        }
        assert(d == h);
    }
}

/// The proof layers concatenated from the deepest to the shallowest.
pub open spec fn flatten(proof: Seq<Vec<Node>>) -> Seq<Node>
    decreases proof.len(),
{
    if proof.len() == 0 {
        seq![]
    } else {
        proof.last()@ + flatten(proof.drop_last())
    }
}

/// `cur` lists, in ascending position order, the covered positions at depth
/// `d` with their digests in the tree.
pub open spec fn lists_level(cur: Seq<(int, Seq<u8>)>, leaves: Seq<Seq<u8>>, idx: Set<int>, d: nat) -> bool {
    &&& forall|i: int, j: int| 0 <= i < j < cur.len() ==> cur[i].0 < cur[j].0
    &&& forall|j: int|
        0 <= j < cur.len() ==> covered_level(leaves, idx, d).contains_key((#[trigger] cur[j]).0)
            && cur[j].1 == tree_node(leaves, cur[j].0)->Some_0
    &&& forall|q: int| #[trigger]
        covered_level(leaves, idx, d).contains_key(q) ==> exists|j: int| 0 <= j < cur.len() && cur[j].0 == q
}

/// The parents produced so far from the first `r` nodes of `cur`.
spec fn parents_so_far(
    acc: Seq<(int, Seq<u8>)>,
    cur: Seq<(int, Seq<u8>)>,
    r: int,
    leaves: Seq<Seq<u8>>,
    idx: Set<int>,
    d: nat,
) -> bool {
    &&& forall|i: int, j: int| 0 <= i < j < acc.len() ==> acc[i].0 < acc[j].0
    &&& forall|t: int|
        0 <= t < acc.len() ==> covered_level(leaves, idx, (d - 1) as nat).contains_key((#[trigger] acc[t]).0)
            && acc[t].1 == tree_node(leaves, acc[t].0)->Some_0
    &&& r == 0 ==> acc.len() == 0
    &&& r > 0 ==> forall|t: int| 0 <= t < acc.len() ==> (#[trigger] acc[t]).0 <= cur[r - 1].0 / 2
    &&& forall|j: int| 0 <= j < r ==> exists|t: int| 0 <= t < acc.len() && acc[t].0 == (#[trigger] cur[j]).0 / 2
}

/// Every proof node of a layer has its parent among the parents of `cur`
/// from index `r2` on, once the parents up to `q` are done.
proof fn lemma_next_partition(
    leaves: Seq<Seq<u8>>,
    idx: Set<int>,
    d: nat,
    cur: Seq<(int, Seq<u8>)>,
    layer: Seq<Node>,
    r2: int,
    j2: int,
    q: int,
)
    requires
        1 <= d,
        lists_level(cur, leaves, idx, d),
        is_layer(layer, leaves, idx, (d - 1) as nat),
        0 <= r2 <= cur.len(),
        r2 > 0 ==> cur[r2 - 1].0 / 2 <= q,
        0 <= j2 <= layer.len(),
        forall|i: int| j2 <= i < layer.len() ==> (#[trigger] layer[i]).position / 2 > q,
    ensures
        r2 < cur.len() ==> forall|i: int|
            j2 <= i < layer.len() ==> (#[trigger] layer[i]).position / 2 >= cur[r2].0 / 2,
        r2 == cur.len() ==> j2 == layer.len(),
{
    assert(pow2(d) == 2 * pow2((d - 1) as nat));
    assert(pow2(d + 1) == 2 * pow2(d));
    lemma_pow2_positive((d - 1) as nat);
    assert forall|i: int| j2 <= i < layer.len() implies exists|k: int|
        r2 <= k < cur.len() && cur[k].0 / 2 == (#[trigger] layer[i]).position / 2 by {
        let e = layer[i].position as int;
        assert(in_layer(leaves, idx, (d - 1) as nat, e));
        let s = sibling(e);
        assert(covered_level(leaves, idx, d).contains_key(s));
        let k = choose|k: int| 0 <= k < cur.len() && cur[k].0 == s;
        if k < r2 {
            if k < r2 - 1 {
                assert(cur[k].0 < cur[r2 - 1].0);
            }
        }
    }
    if r2 < cur.len() {
        assert forall|i: int| j2 <= i < layer.len() implies (#[trigger] layer[i]).position / 2 >= cur[r2].0 / 2 by {
            let k = choose|k: int| r2 <= k < cur.len() && cur[k].0 / 2 == layer[i].position / 2;
            if k > r2 {
                assert(cur[r2].0 < cur[k].0);
            }
        }
    } else if j2 < layer.len() {
        assert(layer[j2].position / 2 > q);
    }
}

/// One level of the reconstruction, run on the covered positions at depth
/// `d` and a stream holding the proof layer for that depth at `base`,
/// consumes exactly that layer and yields the covered positions one level up.
proof fn lemma_pass(
    leaves: Seq<Seq<u8>>,
    idx: Set<int>,
    d: nat,
    cur: Seq<(int, Seq<u8>)>,
    pf: Seq<(int, Seq<u8>)>,
    layer: Seq<Node>,
    base: int,
    r: int,
    pr: int,
    acc: Seq<(int, Seq<u8>)>,
)
    requires
        leaves.len() >= 1,
        1 <= d <= height_of(leaves.len()),
        forall|i: int| idx.contains(i) ==> 0 <= i < leaves.len(),
        lists_level(cur, leaves, idx, d),
        is_layer(layer, leaves, idx, (d - 1) as nat),
        0 <= base,
        base + layer.len() <= pf.len(),
        forall|i: int| 0 <= i < layer.len() ==> pf[base + i] == ((#[trigger] layer[i]).position as int, layer[i].hash@),
        forall|i: int| base + layer.len() <= i < pf.len() ==> (#[trigger] pf[i]).0 < pow2(d),
        0 <= r <= cur.len(),
        base <= pr <= base + layer.len(),
        r < cur.len() ==> forall|i: int| 0 <= i < pr - base ==> (#[trigger] layer[i]).position / 2 < cur[r].0 / 2,
        r < cur.len() ==> forall|i: int|
            pr - base <= i < layer.len() ==> (#[trigger] layer[i]).position / 2 >= cur[r].0 / 2,
        r == cur.len() ==> pr == base + layer.len(),
        0 < r < cur.len() ==> cur[r - 1].0 / 2 < cur[r].0 / 2,
        parents_so_far(acc, cur, r, leaves, idx, d),
    ensures
        pass(cur, pf, r, pr, acc) is Ok,
        pass(cur, pf, r, pr, acc)->Ok_0.1 == base + layer.len(),
        lists_level(pass(cur, pf, r, pr, acc)->Ok_0.0, leaves, idx, (d - 1) as nat),
    decreases cur.len() - r,
{
    let first = first_leaf(leaves.len());
    let h = height_of(leaves.len());
    lemma_pow2_monotone(d, h);
    lemma_pow2_positive((d - 1) as nat);
    lemma_height_bounds(leaves.len());
    assert(pow2(d) == 2 * pow2((d - 1) as nat));
    assert(pow2(d + 1) == 2 * pow2(d));
    if r == cur.len() {
        assert forall|q: int| #[trigger] covered_level(leaves, idx, (d - 1) as nat).contains_key(q) implies exists|t: int|
            0 <= t < acc.len() && acc[t].0 == q by {
            assert(covers(idx, first, q) == (covers(idx, first, 2 * q) || covers(idx, first, 2 * q + 1)));
            let c = if covers(idx, first, 2 * q) { 2 * q } else { 2 * q + 1 };
            assert(covered_level(leaves, idx, d).contains_key(c));
            let j = choose|j: int| 0 <= j < cur.len() && cur[j].0 == c;
            assert(cur[j].0 / 2 == q);
        }
    } else {
        let pos = cur[r].0;
        let q = pos / 2;
        let jr = pr - base;
        assert(covered_level(leaves, idx, d).contains_key(cur[r].0));
        assert(covers(idx, first, q) == (covers(idx, first, 2 * q) || covers(idx, first, 2 * q + 1)));
        assert(node_at(leaves, first, q) == join(node_at(leaves, first, 2 * q), node_at(leaves, first, 2 * q + 1)));
        lemma_covered_populated(leaves, idx, first, pos);
        assert(sibling(2 * q) == 2 * q + 1 && sibling(2 * q + 1) == 2 * q);
        assert(covered_level(leaves, idx, (d - 1) as nat).contains_key(q));
        if r > 0 {
            assert forall|t: int| 0 <= t < acc.len() implies (#[trigger] acc[t]).0 < q by {
                assert(acc[t].0 <= cur[r - 1].0 / 2);
            }
        }
        let l1 = (d - 1) as nat;
        let (r2, pr2, hq): (int, int, Seq<u8>) = if pos % 2 == 0 {
            if in_layer(leaves, idx, l1, 2 * q + 1) {
                let j = choose|j: int| 0 <= j < layer.len() && layer[j].position as int == 2 * q + 1;
                if j < jr {
                    assert(layer[j].position / 2 < q);
                }
                if j > jr {
                    assert(layer[jr].position < layer[j].position);
                    assert(in_layer(leaves, idx, l1, layer[jr].position as int));
                }
                assert(pf[pr] == (2 * q + 1, layer[j].hash@));
                assert forall|i: int| jr + 1 <= i < layer.len() implies (#[trigger] layer[i]).position / 2 > q by {
                    assert(layer[j].position < layer[i].position);
                }
                assert forall|i: int| 0 <= i < jr + 1 implies (#[trigger] layer[i]).position / 2 <= q by {}
                if r + 1 < cur.len() {
                    assert(cur[r].0 < cur[r + 1].0);
                    assert(covered_level(leaves, idx, d).contains_key(cur[r + 1].0));
                }
                (r + 1, pr + 1, combine(cur[r].1, pf[pr].1))
            } else {
                assert(!(0 <= pr < pf.len() && pf[pr].0 == pos + 1)) by {
                    if pr < base + layer.len() && pf[pr].0 == pos + 1 {
                        assert(in_layer(leaves, idx, l1, layer[jr].position as int));
                    }
                }
                assert forall|i: int| jr <= i < layer.len() implies (#[trigger] layer[i]).position / 2 > q by {
                    assert(in_layer(leaves, idx, l1, layer[i].position as int));
                }
                if r + 1 < cur.len() && cur[r + 1].0 == pos + 1 {
                    assert(covered_level(leaves, idx, d).contains_key(cur[r + 1].0));
                    lemma_covered_populated(leaves, idx, first, pos + 1);
                    if r + 2 < cur.len() {
                        assert(cur[r + 1].0 < cur[r + 2].0);
                    }
                    (r + 2, pr, combine(cur[r].1, cur[r + 1].1))
                } else {
                    assert(!covers(idx, first, 2 * q + 1)) by {
                        if covers(idx, first, 2 * q + 1) {
                            assert(covered_level(leaves, idx, d).contains_key(2 * q + 1));
                            let k = choose|k: int| 0 <= k < cur.len() && cur[k].0 == 2 * q + 1;
                            if k > r + 1 {
                                assert(cur[r + 1].0 < cur[k].0);
                            }
                            if k <= r {
                                if k < r {
                                    assert(cur[k].0 < cur[r].0);
                                }
                            }
                        }
                    }
                    assert(tree_node(leaves, 2 * q + 1) is None);
                    if r + 1 < cur.len() {
                        assert(cur[r].0 < cur[r + 1].0);
                    }
                    (r + 1, pr, cur[r].1)
                }
            }
        } else {
            assert(!covers(idx, first, 2 * q)) by {
                if covers(idx, first, 2 * q) {
                    assert(covered_level(leaves, idx, d).contains_key(2 * q));
                    let k = choose|k: int| 0 <= k < cur.len() && cur[k].0 == 2 * q;
                    if k < r - 1 {
                        assert(cur[k].0 < cur[r - 1].0);
                    }
                    if k >= r {
                        if k > r {
                            assert(cur[r].0 < cur[k].0);
                        }
                    }
                }
            }
            lemma_left_packed(leaves, d, 2 * q, 2 * q + 1);
            assert(in_layer(leaves, idx, l1, 2 * q));
            let j = choose|j: int| 0 <= j < layer.len() && layer[j].position as int == 2 * q;
            if j < jr {
                assert(layer[j].position / 2 < q);
            }
            if j > jr {
                assert(layer[jr].position < layer[j].position);
            }
            assert(pf[pr] == (2 * q, layer[j].hash@));
            assert forall|i: int| jr + 1 <= i < layer.len() implies (#[trigger] layer[i]).position / 2 > q by {
                assert(layer[j].position < layer[i].position);
                assert(in_layer(leaves, idx, l1, layer[i].position as int));
            }
            assert forall|i: int| 0 <= i < jr + 1 implies (#[trigger] layer[i]).position / 2 <= q by {}
            if r + 1 < cur.len() {
                assert(cur[r].0 < cur[r + 1].0);
            }
            (r + 1, pr + 1, combine(pf[pr].1, cur[r].1))
        };
        assert(hq == tree_node(leaves, q)->Some_0);
        let acc2 = acc.push((q, hq));
        assert(pass(cur, pf, r, pr, acc) == pass(cur, pf, r2, pr2, acc2));
        lemma_next_partition(leaves, idx, d, cur, layer, r2, pr2 - base, q);
        assert forall|j: int| 0 <= j < r2 implies exists|t: int|
            0 <= t < acc2.len() && acc2[t].0 == (#[trigger] cur[j]).0 / 2 by {
            if j < r {
                let t = choose|t: int| 0 <= t < acc.len() && acc[t].0 == cur[j].0 / 2;
                assert(acc2[t] == acc[t]);
            } else {
                assert(acc2[acc.len() as int].0 == q);
            }
        }
        assert(parents_so_far(acc2, cur, r2, leaves, idx, d));
        lemma_pass(leaves, idx, d, cur, pf, layer, base, r2, pr2, acc2);
    }
}

/// Every node of the first `k` layers lies above depth `k + 1`.
proof fn lemma_flatten_positions(leaves: Seq<Seq<u8>>, idx: Set<int>, proof: Seq<Vec<Node>>, k: int)
    requires
        is_layered_proof(proof, leaves, idx),
        0 <= k <= proof.len(),
    ensures
        forall|i: int|
            0 <= i < flatten(proof.take(k)).len() ==> (#[trigger] flatten(proof.take(k))[i]).position
                < pow2((k + 1) as nat),
    decreases k,
{
    if k > 0 {
        lemma_flatten_positions(leaves, idx, proof, k - 1);
        let s = proof.take(k);
        assert(s.drop_last() =~= proof.take(k - 1));
        assert(s.last() == proof[k - 1]);
        let layer = proof[k - 1]@;
        assert(is_layer(layer, leaves, idx, (k - 1) as nat));
        let f = flatten(proof.take(k));
        let rest = flatten(proof.take(k - 1));
        assert(f == layer + rest);
        assert(pow2((k + 1) as nat) == 2 * pow2(k as nat));
        lemma_pow2_positive(k as nat);
        assert forall|i: int| 0 <= i < f.len() implies (#[trigger] f[i]).position < pow2((k + 1) as nat) by {
            if i < layer.len() {
                assert(in_layer(leaves, idx, (k - 1) as nat, layer[i].position as int));
            } else {
                assert(f[i] == rest[i - layer.len()]);
            }
        }
    } else {
        assert(proof.take(0).len() == 0);
    }
}

/// The reconstruction from the covered positions at depth `d`, with the
/// stream at `p` holding the flattened first `d` layers, ends on the root.
proof fn lemma_reconstruct(
    leaves: Seq<Seq<u8>>,
    idx: Set<int>,
    proof: Seq<Vec<Node>>,
    cur: Seq<(int, Seq<u8>)>,
    pf: Seq<(int, Seq<u8>)>,
    p: int,
    d: nat,
)
    requires
        leaves.len() >= 1,
        forall|i: int| idx.contains(i) ==> 0 <= i < leaves.len(),
        covers(idx, first_leaf(leaves.len()), 1),
        is_layered_proof(proof, leaves, idx),
        d <= height_of(leaves.len()),
        lists_level(cur, leaves, idx, d),
        0 <= p,
        pf.len() == p + flatten(proof.take(d as int)).len(),
        forall|i: int|
            0 <= i < flatten(proof.take(d as int)).len() ==> pf[p + i] == (
                (#[trigger] flatten(proof.take(d as int))[i]).position as int,
                flatten(proof.take(d as int))[i].hash@,
            ),
    ensures
        reconstruct(cur, pf, p, d) == Ok::<Seq<u8>, Option<int>>(tree_root(leaves)),
    decreases d,
{
    let first = first_leaf(leaves.len());
    if d == 0 {
        assert(pow2(0) == 1 && pow2(1) == 2);
        assert(covered_level(leaves, idx, 0).contains_key(1));
        let j = choose|j: int| 0 <= j < cur.len() && cur[j].0 == 1;
        if cur.len() > 1 {
            let o: int = if j == 0 { 1 } else { 0 };
            assert(covered_level(leaves, idx, 0).contains_key(cur[o].0));
        }
        lemma_covered_populated(leaves, idx, first, 1);
    } else {
        let s = proof.take(d as int);
        assert(s.drop_last() =~= proof.take(d - 1));
        assert(s.last() == proof[d - 1]);
        let layer = proof[d - 1]@;
        let rest = flatten(proof.take(d - 1));
        let f = flatten(s);
        assert(f == layer + rest);
        assert(is_layer(layer, leaves, idx, (d - 1) as nat));
        lemma_flatten_positions(leaves, idx, proof, d - 1);
        assert forall|i: int| 0 <= i < layer.len() implies pf[p + i] == (
            (#[trigger] layer[i]).position as int,
            layer[i].hash@,
        ) by {
            assert(f[i] == layer[i]);
        }
        assert forall|i: int| p + layer.len() <= i < pf.len() implies (#[trigger] pf[i]).0 < pow2(d) by {
            assert(f[i - p] == rest[i - p - layer.len()]);
        }
        lemma_next_partition(leaves, idx, d, cur, layer, 0, 0, -1);
        lemma_pass(leaves, idx, d, cur, pf, layer, p, 0, p, seq![]);
        let res = pass(cur, pf, 0, p, seq![]);
        let next = res->Ok_0.0;
        assert forall|i: int| 0 <= i < rest.len() implies pf[p + layer.len() + i] == (
            (#[trigger] rest[i]).position as int,
            rest[i].hash@,
        ) by {
            assert(f[layer.len() + i] == rest[i]);
        }
        lemma_reconstruct(leaves, idx, proof, next, pf, p + layer.len(), (d - 1) as nat);
    }
}

/// Cross-algorithm agreement: for a tree over a non-empty `leaves` and a
/// non-empty set `idx` of valid leaf indices, the reconstruction from the
/// generated layered proof, flattened from the deepest layer up, and the
/// proven leaves at their positions in ascending order, yields the tree's
/// root.
pub proof fn lemma_balanced_root_agrees(
    leaves: Seq<Seq<u8>>,
    idx: Set<int>,
    proof: Seq<Vec<Node>>,
    proven: Seq<Node>,
)
    requires
        leaves.len() >= 1,
        exists|i: int| idx.contains(i),
        forall|i: int| idx.contains(i) ==> 0 <= i < leaves.len(),
        is_layered_proof(proof, leaves, idx),
        lists_level(entries(proven), leaves, idx, height_of(leaves.len())),
    ensures
        balanced_root(flatten(proof), proven, leaves.len()) == Ok::<Seq<u8>, Option<int>>(tree_root(leaves)),
{
    let h = height_of(leaves.len());
    let first = first_leaf(leaves.len());
    lemma_height_bounds(leaves.len());
    assert(pow2(h + 1) == 2 * first);
    let i0 = choose|i: int| idx.contains(i);
    assert(covers(idx, first, first + i0));
    assert(covered_level(leaves, idx, h).contains_key(first + i0));
    lemma_replay_levels(leaves, idx, proof, h);
    assert(pow2(0) == 1 && pow2(1) == 2);
    let q = choose|q: int| covered_level(leaves, idx, 0).contains_key(q);
    assert(q == 1);
    assert(proof.take(h as int) =~= proof);
    let pf = entries(flatten(proof));
    lemma_reconstruct(leaves, idx, proof, entries(proven), pf, 0, h);
}

} // verus!
