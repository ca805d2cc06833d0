use vstd::prelude::*;

use crate::hash::{combine, hash_pair, Digest};
use crate::height::{height_of, lemma_height_bounds, lemma_pow2_positive, pow2, tree_height};

verus! {

/// A node of the tree, identified by its position: the root is at 1 and the
/// children of `n` are at `2n` and `2n + 1`.
#[derive(Clone, Copy, Debug, PartialEq, Eq)]
pub struct Node {
    /// Digest held at this position.
    pub hash: Digest,
    /// 1-based position in the implicit complete binary tree.
    pub position: usize,
}

/// Errors of tree construction, proof generation and proof checking.
#[derive(Debug)]
pub enum MerkleError {
    /// A tree needs at least one leaf.
    EmptyTree,
    /// A leaf index at or past the number of leaves.
    InvalidIndex(usize),
    /// The proof is malformed.
    InvalidProof(&'static str),
    /// A right-hand node at the given position found no left sibling.
    MissingLeftSibling(usize),
}

/// The digest of a position that may be empty.
pub open spec fn opt_view(o: Option<Digest>) -> Option<Seq<u8>> {
    match o {
        Some(d) => Some(d@),
        None => None,
    }
}

/// The promotion rule: two children are combined, a lone child is carried up
/// unchanged, and no child means no node.
pub open spec fn join(left: Option<Seq<u8>>, right: Option<Seq<u8>>) -> Option<Seq<u8>> {
    match (left, right) {
        (Some(l), Some(r)) => Some(combine(l, r)),
        (Some(l), None) => Some(l),
        (None, Some(r)) => Some(r),
        (None, None) => None,
    }
}

/// Position of leaf 0 in a tree over `n` leaves.
pub open spec fn first_leaf(n: nat) -> nat {
    pow2(height_of(n))
}

/// The digest at position `pos` of the tree whose leaf 0 sits at `first`,
/// if that position is populated.
pub open spec fn node_at(leaves: Seq<Seq<u8>>, first: nat, pos: int) -> Option<Seq<u8>>
    decreases (if 0 < pos < first { first - pos } else { 0 }),
{
    if pos <= 0 {
        None
    } else if pos >= first {
        if pos - first < leaves.len() {
            Some(leaves[pos - first])
        } else {
            None
        }
    } else {
        join(node_at(leaves, first, 2 * pos), node_at(leaves, first, 2 * pos + 1))
    }
}

/// The node at `pos` of the tree built over `leaves`.
pub open spec fn tree_node(leaves: Seq<Seq<u8>>, pos: int) -> Option<Seq<u8>> {
    node_at(leaves, first_leaf(leaves.len()), pos)
}

/// The all-zero digest, root of a tree without leaves.
pub open spec fn zero_digest() -> Seq<u8> {
    Seq::new(32, |i: int| 0u8)
}

/// The root digest of the tree built over `leaves`.
pub open spec fn tree_root(leaves: Seq<Seq<u8>>) -> Seq<u8> {
    match tree_node(leaves, 1) {
        Some(h) => h,
        None => zero_digest(),
    }
}

/// Whether the subtree at `pos` holds a leaf whose index is in `idx`.
pub open spec fn covers(idx: Set<int>, first: nat, pos: int) -> bool
    decreases (if 0 < pos < first { first - pos } else { 0 }),
{
    if pos <= 0 {
        false
    } else if pos >= first {
        idx.contains(pos - first)
    } else {
        covers(idx, first, 2 * pos) || covers(idx, first, 2 * pos + 1)
    }
}

/// A covered position of a tree over `leaves`, whose covering leaves all
/// exist, is populated.
pub proof fn lemma_covered_populated(leaves: Seq<Seq<u8>>, idx: Set<int>, first: nat, pos: int)
    requires
        forall|i: int| idx.contains(i) ==> 0 <= i < leaves.len(),
        covers(idx, first, pos),
    ensures
        node_at(leaves, first, pos) is Some,
    decreases (if 0 < pos < first { first - pos } else { 0 }),
{
    if 0 < pos < first {
        if covers(idx, first, 2 * pos) {
            lemma_covered_populated(leaves, idx, first, 2 * pos);
        } else {
            lemma_covered_populated(leaves, idx, first, 2 * pos + 1);
        }
    }
}

/// A tree over a non-empty leaf sequence has a root.
pub proof fn lemma_root_populated(leaves: Seq<Seq<u8>>)
    requires
        leaves.len() >= 1,
    ensures
        tree_node(leaves, 1) is Some,
{
    let first = first_leaf(leaves.len());
    lemma_pow2_positive(height_of(leaves.len()));
    let idx = set![0int];
    assert(covers(idx, first, 1)) by {
        lemma_covers_first_leaf(idx, first, 1);
    }
    lemma_covered_populated(leaves, idx, first, 1);
}

/// Position 1 covers leaf 0: following left children from any position below
/// `first` that is a power of two reaches `first`.
proof fn lemma_covers_first_leaf(idx: Set<int>, first: nat, pos: int)
    requires
        idx.contains(0),
        pos >= 1,
        exists|e: nat| pow2(e) * pos == first,
    ensures
        covers(idx, first, pos),
    decreases (if 0 < pos < first { first - pos } else { 0 }),
{
    let e = choose|e: nat| pow2(e) * pos == first;
    if pos < first {
        assert(e > 0) by {
            if e == 0 {
                assert(pow2(0) == 1);
                assert(pow2(e) * pos == pos) by (nonlinear_arith)
                    requires
                        pow2(e) == 1,
                ;
            }
        }
        assert(pow2((e - 1) as nat) * (2 * pos) == first) by (nonlinear_arith)
            requires
                pow2(e) == 2 * pow2((e - 1) as nat),
                pow2(e) * pos == first,
        ;
        lemma_covers_first_leaf(idx, first, 2 * pos);
    } else {
        lemma_pow2_positive(e);
        assert(pos == first) by (nonlinear_arith)
            requires
                pow2(e) >= 1,
                pow2(e) * pos == first,
                pos >= first,
                pos >= 1,
        ;
    }
}

/// The set of leaf indices named in `indices`.
pub open spec fn index_set(indices: Seq<usize>) -> Set<int> {
    Set::new(|i: int| exists|k: int| 0 <= k < indices.len() && indices[k] as int == i)
}

/// The other child of the parent of `q`.
pub open spec fn sibling(q: int) -> int {
    if q % 2 == 0 {
        q + 1
    } else {
        q - 1
    }
}

/// Whether position `q` belongs to layer `level` of the proof for the leaf
/// indices `idx`: it lies at depth `level + 1`, is populated, is not covered
/// by a proven leaf, and its sibling is.
pub open spec fn in_layer(leaves: Seq<Seq<u8>>, idx: Set<int>, level: nat, q: int) -> bool {
    let first = first_leaf(leaves.len());
    &&& pow2(level + 1) <= q < pow2(level + 2)
    &&& !covers(idx, first, q)
    &&& covers(idx, first, sibling(q))
    &&& tree_node(leaves, q) is Some
}

/// Whether the positions of `nodes` strictly ascend.
pub open spec fn strictly_ascending(nodes: Seq<Node>) -> bool {
    forall|i: int, j: int| 0 <= i < j < nodes.len() ==> nodes[i].position < nodes[j].position
}

/// `layer` lists, in ascending position order, exactly the nodes of layer
/// `level` of the proof for `idx`, each with its digest in the tree.
pub open spec fn is_layer(layer: Seq<Node>, leaves: Seq<Seq<u8>>, idx: Set<int>, level: nat) -> bool {
    &&& strictly_ascending(layer)
    &&& forall|j: int|
        0 <= j < layer.len() ==> in_layer(leaves, idx, level, #[trigger] layer[j].position as int)
            && tree_node(leaves, layer[j].position as int) == Some(layer[j].hash@)
    &&& forall|q: int|
        #[trigger] in_layer(leaves, idx, level, q) ==> exists|j: int|
            0 <= j < layer.len() && layer[j].position as int == q
}

/// Whether `proof` is the layered proof for `idx` in the tree over `leaves`:
/// one layer per level, from the root's children down to the leaves.
pub open spec fn is_layered_proof(proof: Seq<Vec<Node>>, leaves: Seq<Seq<u8>>, idx: Set<int>) -> bool {
    &&& proof.len() == height_of(leaves.len())
    &&& forall|l: int| 0 <= l < proof.len() ==> is_layer(#[trigger] proof[l]@, leaves, idx, l as nat)
}

/// The first `k` entries of `indices` are all below `n`.
pub open spec fn indices_below(indices: Seq<usize>, n: nat, k: int) -> bool {
    forall|j: int| 0 <= j < k ==> #[trigger] indices[j] < n
}

/// A hash tree whose nodes are stored by position. Leaf `i` sits at position
/// `first_leaf_pos + i`; positions without a populated subtree stay empty.
pub struct PositionalMerkleTree {
    /// The digest at each position, `None` where the position is empty.
    nodes: Vec<Option<Digest>>,
    /// Number of leaves.
    leaf_count: usize,
    /// Height of the tree: the least `h` with `leaf_count <= 2^h`.
    height: usize,
    /// Position of leaf 0, `2^height`.
    first_leaf_pos: usize,
    /// The leaf digests the tree was built over.
    leaves: Ghost<Seq<Seq<u8>>>,
}

impl View for PositionalMerkleTree {
    type V = Seq<Seq<u8>>;

    /// A tree is the sequence of its leaf digests.
    closed spec fn view(&self) -> Seq<Seq<u8>> {
        self.leaves@
    }
}

impl PositionalMerkleTree {
    /// The tree is well formed: its height and first leaf position follow
    /// from the leaf count, and every position holds the digest the
    /// promotion rule gives it.
    pub closed spec fn wf(&self) -> bool {
        &&& 1 <= self.leaf_count
        &&& self.leaf_count == self.leaves@.len()
        &&& self.height == height_of(self.leaf_count as nat)
        &&& self.first_leaf_pos == pow2(self.height as nat)
        &&& self.nodes@.len() == 2 * self.first_leaf_pos
        &&& self.nodes@.len() <= usize::MAX
        &&& forall|p: int|
            0 <= p < self.nodes@.len() ==> #[trigger] opt_view(self.nodes@[p]) == node_at(
                self.leaves@,
                self.first_leaf_pos as nat,
                p,
            )
    }

    /// Builds the tree over `leaves`; fails with `EmptyTree` when there are none.
    pub fn new(leaves: &[Digest]) -> (r: Result<Self, MerkleError>)
        requires
            leaves@.len() <= usize::MAX / 4,
        ensures
            leaves@.len() == 0 <==> r is Err,
            r is Err ==> r->Err_0 is EmptyTree,
            r is Ok ==> r->Ok_0.wf() && r->Ok_0@ == leaves@.map_values(|d: Digest| d@),
    {
        if leaves.len() == 0 {
            return Err(MerkleError::EmptyTree);
        }
        let leaf_count = leaves.len();
        let ghost lv = leaves@.map_values(|d: Digest| d@);
        let height = tree_height(leaf_count as u64) as usize;
        proof {
            lemma_height_bounds(leaf_count as nat);
            lemma_pow2_positive(height as nat);
        }
        let mut first_leaf_pos: usize = 1;
        let mut e: usize = 0;
        while e < height
            invariant
                e <= height,
                height == height_of(leaf_count as nat),
                first_leaf_pos == pow2(e as nat),
                leaf_count <= pow2(height as nat),
                height > 0 ==> pow2((height - 1) as nat) < leaf_count,
                leaf_count <= usize::MAX / 4,
            decreases height - e,
        {
            proof {
                crate::height::lemma_pow2_monotone(e as nat, (height - 1) as nat);
            }
            first_leaf_pos = first_leaf_pos * 2;
            e = e + 1;
        }
        let size = 2 * first_leaf_pos;
        let mut nodes: Vec<Option<Digest>> = Vec::new();
        let mut p: usize = 0;
        while p < size
            invariant
                p <= size,
                size == 2 * first_leaf_pos,
                first_leaf_pos >= leaf_count,
                leaf_count == leaves@.len(),
                lv == leaves@.map_values(|d: Digest| d@),
                nodes@.len() == p,
                forall|q: int|
                    first_leaf_pos <= q < p ==> #[trigger] opt_view(nodes@[q]) == node_at(
                        lv,
                        first_leaf_pos as nat,
                        q,
                    ),
                forall|q: int| 0 <= q < p && q < first_leaf_pos ==> nodes@[q] is None,
            decreases size - p,
        {
            if p >= first_leaf_pos && p - first_leaf_pos < leaf_count {
                nodes.push(Some(leaves[p - first_leaf_pos]));
            } else {
                nodes.push(None);
            }
            p = p + 1;
        }
        let mut tree = PositionalMerkleTree {
            nodes,
            leaf_count,
            height,
            first_leaf_pos,
            leaves: Ghost(lv),
        };
        tree.build_internal_nodes();
        Ok(tree)
    }

    /// Fills every internal position from its children, deepest first.
    fn build_internal_nodes(&mut self)
        requires
            old(self).first_leaf_pos >= 1,
            old(self).nodes@.len() == 2 * old(self).first_leaf_pos,
            forall|q: int|
                old(self).first_leaf_pos <= q < old(self).nodes@.len() ==> #[trigger] opt_view(
                    old(self).nodes@[q],
                ) == node_at(old(self).leaves@, old(self).first_leaf_pos as nat, q),
            old(self).nodes@[0] is None,
            old(self).nodes@.len() <= usize::MAX,
        ensures
            final(self).leaves == old(self).leaves,
            final(self).leaf_count == old(self).leaf_count,
            final(self).height == old(self).height,
            final(self).first_leaf_pos == old(self).first_leaf_pos,
            final(self).nodes@.len() == old(self).nodes@.len(),
            forall|q: int|
                0 <= q < final(self).nodes@.len() ==> #[trigger] opt_view(final(self).nodes@[q])
                    == node_at(final(self).leaves@, final(self).first_leaf_pos as nat, q),
    {
        let first = self.first_leaf_pos;
        let ghost lv = self.leaves@;
        let mut pos: usize = first;
        while pos > 1
            invariant
                1 <= pos <= first,
                first == self.first_leaf_pos,
                lv == self.leaves@,
                self.leaves == old(self).leaves,
                self.leaf_count == old(self).leaf_count,
                self.height == old(self).height,
                self.first_leaf_pos == old(self).first_leaf_pos,
                self.nodes@.len() == 2 * first,
                self.nodes@.len() <= usize::MAX,
                self.nodes@[0] is None,
                forall|q: int|
                    pos <= q < self.nodes@.len() ==> #[trigger] opt_view(self.nodes@[q])
                        == node_at(lv, first as nat, q),
            decreases pos,
        {
            pos = pos - 1;
            let left = self.nodes[2 * pos];
            let right = self.nodes[2 * pos + 1];
            let node = match (left, right) {
                (Some(l), Some(r)) => Some(hash_pair(&l, &r)),
                (Some(l), None) => Some(l),
                (None, Some(r)) => Some(r),
                (None, None) => None,
            };
            assert(opt_view(self.nodes@[2 * pos]) == node_at(lv, first as nat, 2 * pos));
            assert(opt_view(self.nodes@[2 * pos + 1]) == node_at(lv, first as nat, 2 * pos + 1));
            self.nodes.set(pos, node);
        }
        assert(opt_view(self.nodes@[0]) == node_at(lv, first as nat, 0));
    }

    /// The layered proof for the leaves at `indices`: layer `l` holds, in
    /// ascending position order, the populated siblings at depth `l + 1` that
    /// the proven leaves do not cover. The first index at or past the number
    /// of leaves is reported as `InvalidIndex`.
    pub fn generate_multi_proof(&self, indices: &[usize]) -> (r: Result<Vec<Vec<Node>>, MerkleError>)
        requires
            self.wf(),
        ensures
            r is Ok <==> indices_below(indices@, self@.len(), indices@.len() as int),
            r is Err ==> exists|k: int|
                0 <= k < indices@.len() && indices@[k] >= self@.len() && indices_below(
                    indices@,
                    self@.len(),
                    k,
                ) && r->Err_0 == MerkleError::InvalidIndex(indices@[k]),
            r is Ok ==> is_layered_proof(r->Ok_0@, self@, index_set(indices@)),
    {
        let n = self.leaf_count;
        let mut k: usize = 0;
        while k < indices.len()
            invariant
                k <= indices@.len(),
                n == self@.len(),
                indices_below(indices@, n as nat, k as int),
            decreases indices@.len() - k,
        {
            if indices[k] >= n {
                return Err(MerkleError::InvalidIndex(indices[k]));
            }
            k = k + 1;
        }
        let ghost idx = index_set(indices@);
        let ghost lv = self.leaves@;
        let first = self.first_leaf_pos;
        let size = self.nodes.len();
        proof {
            lemma_pow2_positive(self.height as nat);
            lemma_height_bounds(n as nat);
        }
        let mut cov: Vec<bool> = Vec::new();
        let mut p: usize = 0;
        while p < size
            invariant
                p <= size,
                cov@.len() == p,
                forall|q: int| 0 <= q < p ==> !cov@[q],
            decreases size - p,
        {
            cov.push(false);
            p = p + 1;
        }
        k = 0;
        while k < indices.len()
            invariant
                self.wf(),
                first == self.first_leaf_pos,
                size == self.nodes@.len(),
                n == self@.len(),
                k <= indices@.len(),
                cov@.len() == size,
                indices_below(indices@, n as nat, indices@.len() as int),
                n <= first,
                size == 2 * first,
                forall|q: int| 0 <= q < first ==> !cov@[q],
                forall|q: int|
                    first <= q < size ==> cov@[q] == exists|j: int|
                        0 <= j < k && indices@[j] as int == q - first,
            decreases indices@.len() - k,
        {
            assert(indices@[k as int] < n);
            cov.set(first + indices[k], true);
            k = k + 1;
        }
        assert forall|q: int| first <= q < size implies cov@[q] == covers(idx, first as nat, q) by {
            if cov@[q] {
                let j = choose|j: int| 0 <= j < k && indices@[j] as int == q - first;
                assert(idx.contains(q - first));
            }
            if idx.contains(q - first) {
                let j = choose|j: int| 0 <= j < indices@.len() && indices@[j] as int == q - first;
                assert(0 <= j < k && indices@[j] as int == q - first);
            }
        }
        let mut pos: usize = first;
        while pos > 1
            invariant
                1 <= pos <= first,
                size == 2 * first,
                size <= usize::MAX,
                cov@.len() == size,
                !cov@[0],
                forall|q: int| pos <= q < size ==> #[trigger] cov@[q] == covers(idx, first as nat, q),
            decreases pos,
        {
            pos = pos - 1;
            let c = cov[2 * pos] || cov[2 * pos + 1];
            assert(cov@[2 * pos] == covers(idx, first as nat, 2 * pos));
            assert(cov@[2 * pos + 1] == covers(idx, first as nat, 2 * pos + 1));
            cov.set(pos, c);
        }
        assert(cov@[0] == covers(idx, first as nat, 0));
        assert(pow2(0) == 1);
        assert(pow2(1) == 2);
        let mut layers: Vec<Vec<Node>> = Vec::new();
        let mut lo: usize = 2;
        let mut level: usize = 0;
        while level < self.height
            invariant
                self.wf(),
                lv == self@,
                first == self.first_leaf_pos,
                first as nat == first_leaf(lv.len()),
                size == self.nodes@.len(),
                size == 2 * first,
                size <= usize::MAX,
                cov@.len() == size,
                forall|q: int| 0 <= q < size ==> #[trigger] cov@[q] == covers(idx, first as nat, q),
                level <= self.height,
                lo == pow2(level as nat + 1),
                layers@.len() == level,
                forall|l: int| 0 <= l < level ==> is_layer(#[trigger] layers@[l]@, lv, idx, l as nat),
            decreases self.height - level,
        {
            proof {
                crate::height::lemma_pow2_monotone(level as nat + 2, self.height as nat + 1);
            }
            let hi = 2 * lo;
            let mut layer: Vec<Node> = Vec::new();
            let mut q: usize = lo;
            while q < hi
                invariant
                    self.wf(),
                    lv == self@,
                    first == self.first_leaf_pos,
                    first as nat == first_leaf(lv.len()),
                    size == self.nodes@.len(),
                    cov@.len() == size,
                    forall|q: int| 0 <= q < size ==> #[trigger] cov@[q] == covers(idx, first as nat, q),
                    lo == pow2(level as nat + 1),
                    hi == pow2(level as nat + 2),
                    hi <= size,
                    lo <= q <= hi,
                    strictly_ascending(layer@),
                    forall|j: int|
                        0 <= j < layer@.len() ==> #[trigger] layer@[j].position < q && in_layer(
                            lv,
                            idx,
                            level as nat,
                            layer@[j].position as int,
                        ) && tree_node(lv, layer@[j].position as int) == Some(layer@[j].hash@),
                    forall|t: int|
                        lo <= t < q && #[trigger] in_layer(lv, idx, level as nat, t) ==> exists|j: int|
                            0 <= j < layer@.len() && layer@[j].position as int == t,
                decreases hi - q,
            {
                let sib = if q % 2 == 0 { q + 1 } else { q - 1 };
                assert(opt_view(self.nodes@[q as int]) == node_at(lv, first as nat, q as int));
                let ghost prev = layer@;
                if !cov[q] && cov[sib] {
                    if let Some(h) = self.nodes[q] {
                        layer.push(Node { hash: h, position: q });
                        assert(layer@[layer@.len() - 1].position == q);
                    }
                }
                assert forall|t: int|
                    lo <= t < q + 1 && #[trigger] in_layer(lv, idx, level as nat, t) implies exists|j: int|
                        0 <= j < layer@.len() && layer@[j].position as int == t by {
                    if t < q {
                        let j = choose|j: int| 0 <= j < prev.len() && prev[j].position as int == t;
                        assert(layer@[j] == prev[j]);
                    } else {
                        assert(cov@[q as int] == covers(idx, first as nat, q as int));
                        assert(cov@[sib as int] == covers(idx, first as nat, sibling(q as int)));
                        assert(layer@[layer@.len() - 1].position == q);
                    }
                }
                q = q + 1;
            }
            layers.push(layer);
            lo = hi;
            level = level + 1;
        }
        Ok(layers)
    }

    /// The digest at position 1.
    pub fn root(&self) -> (r: Digest)
        requires
            self.wf(),
        ensures
            r@ == tree_root(self@),
    {
        proof {
            lemma_root_populated(self@);
            lemma_pow2_positive(self.height as nat);
            assert(opt_view(self.nodes@[1]) == node_at(self.leaves@, self.first_leaf_pos as nat, 1));
        }
        match self.nodes[1] {
            Some(h) => h,
            None => [0u8; 32],
        }
    }

    /// Height of the tree: 0 for a single leaf.
    pub fn height(&self) -> (r: usize)
        requires
            self.wf(),
        ensures
            r == height_of(self@.len()),
            self@.len() <= pow2(r as nat),
            2 * pow2(r as nat) <= usize::MAX,
    {
        proof {
            lemma_height_bounds(self.leaf_count as nat);
        }
        self.height
    }

    /// Number of leaves.
    pub fn leaf_count(&self) -> (r: usize)
        requires
            self.wf(),
        ensures
            r == self@.len(),
    {
        self.leaf_count
    }
}

} // verus!
