use vstd::prelude::*;

use crate::hash::{combine, hash_pair, Digest};
use crate::height::{height_of, tree_height};
use crate::tree::{MerkleError, Node};

verus! {

/// The abstract values of `nodes`: position and digest of each.
pub open spec fn entries(nodes: Seq<Node>) -> Seq<(int, Seq<u8>)> {
    nodes.map_values(|n: Node| (n.position as int, n.hash@))
}

/// One level of the reconstruction: pairs the nodes of `cur` from index `r`
/// on, taking siblings from the proof stream at cursor `p` or from the next
/// node of `cur`, and appends the parents to `acc`. An even position with no
/// right sibling is carried up unchanged; an odd position with no left
/// sibling fails with that position. The result is the parent level and the
/// new proof cursor.
pub open spec fn pass(
    cur: Seq<(int, Seq<u8>)>,
    proof: Seq<(int, Seq<u8>)>,
    r: int,
    p: int,
    acc: Seq<(int, Seq<u8>)>,
) -> Result<(Seq<(int, Seq<u8>)>, int), int>
    decreases cur.len() - r,
{
    if r < 0 || r >= cur.len() {
        Ok((acc, p))
    } else {
        let pos = cur[r].0;
        let h = cur[r].1;
        if pos % 2 == 0 {
            if 0 <= p < proof.len() && proof[p].0 == pos + 1 {
                pass(cur, proof, r + 1, p + 1, acc.push((pos / 2, combine(h, proof[p].1))))
            } else if r + 1 < cur.len() && cur[r + 1].0 == pos + 1 {
                pass(cur, proof, r + 2, p, acc.push((pos / 2, combine(h, cur[r + 1].1))))
            } else {
                pass(cur, proof, r + 1, p, acc.push((pos / 2, h)))
            }
        } else {
            if 0 <= p < proof.len() && proof[p].0 == pos - 1 {
                pass(cur, proof, r + 1, p + 1, acc.push((pos / 2, combine(proof[p].1, h))))
            } else if r + 1 < cur.len() && cur[r + 1].0 == pos - 1 {
                pass(cur, proof, r + 2, p, acc.push((pos / 2, combine(cur[r + 1].1, h))))
            } else {
                Err(pos)
            }
        }
    }
}

/// Runs `d` levels of `pass` from `cur` with proof cursor `p`. Success needs
/// a single node at position 1 at the end; its digest is the root. A failed
/// level gives `Some` of the position without a left sibling, a final level
/// other than the root alone gives `None`.
pub open spec fn reconstruct(
    cur: Seq<(int, Seq<u8>)>,
    proof: Seq<(int, Seq<u8>)>,
    p: int,
    d: nat,
) -> Result<Seq<u8>, Option<int>>
    decreases d,
{
    if d == 0 {
        if cur.len() == 1 && cur[0].0 == 1 {
            Ok(cur[0].1)
        } else {
            Err(None)
        }
    } else {
        match pass(cur, proof, 0, p, seq![]) {
            Err(pos) => Err(Some(pos)),
            Ok((next, p2)) => reconstruct(next, proof, p2, (d - 1) as nat),
        }
    }
}

/// The root reconstructed from a flattened proof and position-sorted proven
/// leaves in a tree over `num_leaves` leaves.
pub open spec fn balanced_root(proof: Seq<Node>, leaves: Seq<Node>, num_leaves: nat) -> Result<
    Seq<u8>,
    Option<int>,
> {
    reconstruct(entries(leaves), entries(proof), 0, height_of(num_leaves))
}

/// One level of the reconstruction (see `pass`), advancing the proof cursor.
fn level_pass(cur: &Vec<Node>, proof: &[Node], p: &mut usize) -> (r: Result<Vec<Node>, usize>)
    requires
        *old(p) <= proof@.len(),
    ensures
        *final(p) <= proof@.len(),
        match pass(entries(cur@), entries(proof@), 0, *old(p) as int, seq![]) {
            Ok(res) => r is Ok && entries(r->Ok_0@) == res.0 && *final(p) as int == res.1,
            Err(pos) => r is Err && r->Err_0 as int == pos,
        },
{
    let ghost c = entries(cur@);
    let ghost pf = entries(proof@);
    let ghost target = pass(c, pf, 0, *p as int, seq![]);
    let mut out: Vec<Node> = Vec::new();
    let mut r: usize = 0;
    assert(entries(out@) =~= seq![]);
    while r < cur.len()
        invariant
            r <= cur@.len() + 1,
            *p <= proof@.len(),
            c == entries(cur@),
            pf == entries(proof@),
            pass(c, pf, r as int, *p as int, entries(out@)) == target,
            target == pass(entries(cur@), entries(proof@), 0, *old(p) as int, seq![]),
        decreases cur@.len() + 1 - r,
    {
        let pos = cur[r].position;
        let h = cur[r].hash;
        let ghost acc = entries(out@);
        assert(c.len() == cur@.len() && pf.len() == proof@.len());
        assert(c[r as int] == (pos as int, h@));
        assert(*p < pf.len() ==> pf[*p as int] == (proof@[*p as int].position as int, proof@[*p as int].hash@));
        assert(r + 1 < c.len() ==> c[r + 1] == (cur@[r + 1].position as int, cur@[r + 1].hash@));
        let node;
        if pos % 2 == 0 {
            if *p < proof.len() && proof[*p].position > 0 && proof[*p].position - 1 == pos {
                node = Node { hash: hash_pair(&h, &proof[*p].hash), position: pos / 2 };
                *p = *p + 1;
            } else if r + 1 < cur.len() && cur[r + 1].position > 0 && cur[r + 1].position - 1 == pos {
                node = Node { hash: hash_pair(&h, &cur[r + 1].hash), position: pos / 2 };
                r = r + 1;
            } else {
                node = Node { hash: h, position: pos / 2 };
            }
        } else {
            if *p < proof.len() && proof[*p].position == pos - 1 {
                node = Node { hash: hash_pair(&proof[*p].hash, &h), position: pos / 2 };
                *p = *p + 1;
            } else if r + 1 < cur.len() && cur[r + 1].position == pos - 1 {
                node = Node { hash: hash_pair(&cur[r + 1].hash, &h), position: pos / 2 };
                r = r + 1;
            } else {
                return Err(pos);
            }
        }
        out.push(node);
        assert(entries(out@) =~= acc.push((node.position as int, node.hash@)));
        r = r + 1;
    }
    assert(entries(cur@).len() == cur@.len());
    Ok(out)
}

/// Reconstructs the root of a tree over `num_leaves` leaves from a flattened
/// proof (the proof layers from the deepest to the shallowest, each in
/// ascending position order) and the proven leaves in ascending position
/// order, pairing nodes level by level by their positions alone. A
/// right-hand node without a left sibling is a `MissingLeftSibling` error;
/// input that does not end on the root alone is an `InvalidProof`.
pub fn calculate_balanced_root(proof: &[Node], leaves: &[Node], num_leaves: u64) -> (r: Result<
    Digest,
    MerkleError,
>)
    ensures
        match balanced_root(proof@, leaves@, num_leaves as nat) {
            Ok(root) => r is Ok && r->Ok_0@ == root,
            Err(Some(pos)) => r is Err && r->Err_0 == MerkleError::MissingLeftSibling(pos as usize),
            Err(None) => r is Err && r->Err_0 is InvalidProof,
        },
{
    let height = tree_height(num_leaves);
    let ghost pf = entries(proof@);
    let ghost target = balanced_root(proof@, leaves@, num_leaves as nat);
    let mut cur: Vec<Node> = Vec::new();
    let mut i: usize = 0;
    while i < leaves.len()
        invariant
            i <= leaves@.len(),
            cur@ == leaves@.take(i as int),
        decreases leaves@.len() - i,
    {
        cur.push(leaves[i]);
        i = i + 1;
        assert(cur@ =~= leaves@.take(i as int));
    }
    assert(cur@ =~= leaves@);
    let mut p: usize = 0;
    let mut d: u64 = height;
    while d > 0
        invariant
            p <= proof@.len(),
            pf == entries(proof@),
            reconstruct(entries(cur@), pf, p as int, d as nat) == target,
            target == balanced_root(proof@, leaves@, num_leaves as nat),
        decreases d,
    {
        match level_pass(&cur, proof, &mut p) {
            Ok(next) => {
                cur = next;
            },
            Err(pos) => {
                assert(pos as int as usize == pos);
                return Err(MerkleError::MissingLeftSibling(pos));
            },
        }
        d = d - 1;
    }
    if cur.len() == 1 && cur[0].position == 1 {
        Ok(cur[0].hash)
    } else {
        Err(MerkleError::InvalidProof("reconstruction did not end on the root"))
    }
}

} // verus!
