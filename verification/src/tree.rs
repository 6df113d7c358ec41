//! Tree construction: the leaf digests are paired and hashed level by level,
//! left to right, until one digest remains. A trailing unpaired digest is
//! promoted to the next level unchanged — it is neither duplicated nor
//! re-hashed.

use vstd::prelude::*;

use crate::hash::digest_of;
use crate::hash::digest_of_pair;
use crate::hash::pair_digest;
use crate::hash::sha256_of;
use crate::inclusion::path_of;
use crate::inclusion::replay;
use crate::inclusion::zip_path;
use crate::inclusion::InclusionProof;
use crate::inclusion::ProofEntry;
use crate::inclusion::Side;

verus! {

/// The one failure the tree reports: a proof was requested for a leaf index
/// outside the block sequence.
#[derive(Clone, Copy, Debug, PartialEq, Eq, Structural)]
pub enum MerkleError {
    InvalidIndex,
}

/// The digests of the leaf level: one per data block, in input order.
pub open spec fn leaf_digests(blocks: Seq<Seq<u8>>) -> Seq<Seq<u8>> {
    blocks.map_values(|b: Seq<u8>| sha256_of(b))
}

/// One pairing pass over a level, left to right: each full pair is hashed
/// into one digest, and a trailing unpaired digest is promoted unchanged.
pub open spec fn combine_level(level: Seq<Seq<u8>>) -> Seq<Seq<u8>>
    decreases level.len(),
{
    if level.len() >= 2 {
        seq![pair_digest(level[0], level[1])] + combine_level(level.skip(2))
    } else {
        level
    }
}

/// The single digest that repeated pairing passes leave of a non-empty level.
pub open spec fn root_of_level(level: Seq<Seq<u8>>) -> Seq<u8>
    recommends
        level.len() >= 1,
    decreases level.len(),
    via root_of_level_decreases
{
    if level.len() <= 1 {
        level[0]
    } else {
        root_of_level(combine_level(level))
    }
}

#[via_fn]
proof fn root_of_level_decreases(level: Seq<Seq<u8>>) {
    if level.len() > 1 {
        lemma_combine_level_len(level);
    }
}

/// The root digest of an ordered block sequence: absent for an empty
/// sequence, else the digest that pairing the leaf digests down to one
/// value yields.
pub open spec fn merkle_root(blocks: Seq<Seq<u8>>) -> Option<Seq<u8>> {
    if blocks.len() == 0 {
        None
    } else {
        Some(root_of_level(leaf_digests(blocks)))
    }
}

/// A pairing pass halves a level, rounding up.
pub proof fn lemma_combine_level_len(level: Seq<Seq<u8>>)
    ensures
        combine_level(level).len() == (level.len() + 1) / 2,
    decreases level.len(),
{
    if level.len() >= 2 {
        lemma_combine_level_len(level.skip(2));
    }
}

/// What each position of a pairing pass holds: position `j` is the hash of
/// the pair at `2j, 2j + 1`, or the promoted digest `level[2j]` when `2j` is
/// the unpaired last position.
pub proof fn lemma_combine_level_index(level: Seq<Seq<u8>>, j: int)
    requires
        0 <= j < combine_level(level).len(),
    ensures
        2 * j < level.len(),
        2 * j + 1 < level.len() ==> combine_level(level)[j] == pair_digest(
            level[2 * j],
            level[2 * j + 1],
        ),
        2 * j + 1 == level.len() ==> combine_level(level)[j] == level[2 * j],
    decreases level.len(),
{
    lemma_combine_level_len(level);
    if level.len() >= 2 && j >= 1 {
        lemma_combine_level_len(level.skip(2));
        lemma_combine_level_index(level.skip(2), j - 1);
    }
}

/// Copies a digest byte by byte.
pub(crate) fn copy_digest(src: &Vec<u8>) -> (r: Vec<u8>)
    ensures
        r@ == src@,
{
    let mut r: Vec<u8> = Vec::new();
    let mut i: usize = 0;
    while i < src.len()
        invariant
            i <= src@.len(),
            r@ =~= src@.take(i as int),
        decreases src@.len() - i,
    {
        r.push(src[i]);
        i = i + 1;
    }
    assert(r@ =~= src@);
    r
}

/// One executable pairing pass over a level of digests.
fn combine(level: &Vec<Vec<u8>>) -> (next: Vec<Vec<u8>>)
    ensures
        next.deep_view() == combine_level(level.deep_view()),
{
    let ghost lv = level.deep_view();
    let mut next: Vec<Vec<u8>> = Vec::new();
    let mut i: usize = 0;
    proof {
        assert(lv.skip(0) =~= lv);
        assert(next.deep_view() =~= Seq::<Seq<u8>>::empty());
    }
    while i < level.len()
        invariant
            i <= lv.len(),
            lv == level.deep_view(),
            lv.len() == level@.len(),
            next.deep_view() + combine_level(lv.skip(i as int)) =~= combine_level(lv),
        decreases lv.len() - i,
    {
        assert(lv[i as int] == level@[i as int]@);
        if i + 1 < level.len() {
            assert(lv[i as int + 1] == level@[i as int + 1]@);
            let parent = digest_of_pair(&level[i], &level[i + 1]);
            let ghost prev = next.deep_view();
            next.push(parent);
            proof {
                assert(next.deep_view() =~~= prev.push(parent@));
                assert(lv.skip(i as int).skip(2) =~= lv.skip(i as int + 2));
                assert(combine_level(lv.skip(i as int)) =~= seq![
                    pair_digest(lv[i as int], lv[i as int + 1]),
                ] + combine_level(lv.skip(i as int + 2)));
                assert(next.deep_view() + combine_level(lv.skip(i as int + 2)) =~= combine_level(
                    lv,
                ));
            }
            i = i + 2;
        } else {
            let promoted = copy_digest(&level[i]);
            let ghost prev = next.deep_view();
            next.push(promoted);
            proof {
                assert(next.deep_view() =~~= prev.push(lv[i as int]));
                assert(lv.skip(i as int) =~= seq![lv[i as int]]);
                assert(combine_level(lv.skip(i as int)) =~= seq![lv[i as int]]);
                assert(lv.skip(i as int + 1) =~= Seq::<Seq<u8>>::empty());
                assert(next.deep_view() + combine_level(lv.skip(i as int + 1)) =~= combine_level(
                    lv,
                ));
            }
            i = i + 1;
        }
    }
    proof {
        assert(lv.skip(lv.len() as int) =~= Seq::<Seq<u8>>::empty());
        assert(next.deep_view() =~= combine_level(lv));
    }
    next
}

/// A Merkle tree, stored as its levels of digests: level 0 holds the leaf
/// digests in input order, each later level is one pairing pass over the
/// level before it, and the last level holds the root digest alone. A tree
/// built from no blocks stores no levels.
pub struct MerkleTree {
    levels: Vec<Vec<Vec<u8>>>,
    blocks: Ghost<Seq<Seq<u8>>>,
}

impl View for MerkleTree {
    type V = Seq<Seq<u8>>;

    closed spec fn view(&self) -> Seq<Seq<u8>> {
        self.blocks@
    }
}

impl MerkleTree {
    /// The stored levels, as mathematical sequences.
    pub(crate) closed spec fn spec_levels(self) -> Seq<Seq<Seq<u8>>> {
        self.levels.deep_view()
    }

    #[verifier::type_invariant]
    pub(crate) closed spec fn wf(self) -> bool {
        let lv = self.spec_levels();
        &&& (self.blocks@.len() == 0 ==> lv.len() == 0)
        &&& (self.blocks@.len() > 0 ==> {
            &&& lv.len() >= 1
            &&& lv[0] == leaf_digests(self.blocks@)
            &&& (forall|k: int|
                0 <= k < lv.len() - 1 ==> lv[k + 1] == #[trigger] combine_level(lv[k]))
            &&& (forall|k: int| 0 <= k < lv.len() - 1 ==> #[trigger] lv[k].len() >= 2)
            &&& lv[lv.len() - 1].len() == 1
        })
    }

    /// Builds the tree from an ordered sequence of data blocks.
    pub fn new(data_blocks: Vec<Vec<u8>>) -> (tree: MerkleTree)
        ensures
            tree@ == data_blocks.deep_view(),
    {
        let ghost gb = data_blocks.deep_view();
        if data_blocks.len() == 0 {
            let tree = MerkleTree { levels: Vec::new(), blocks: Ghost(gb) };
            assert(tree.spec_levels() =~= Seq::<Seq<Seq<u8>>>::empty());
            return tree;
        }
        let mut leaves: Vec<Vec<u8>> = Vec::new();
        let mut i: usize = 0;
        while i < data_blocks.len()
            invariant
                i <= gb.len(),
                gb == data_blocks.deep_view(),
                gb.len() == data_blocks@.len(),
                leaves.deep_view() =~= leaf_digests(gb).take(i as int),
            decreases gb.len() - i,
        {
            assert(gb[i as int] == data_blocks@[i as int]@);
            let d = digest_of(data_blocks[i].as_slice());
            let ghost prev = leaves.deep_view();
            leaves.push(d);
            proof {
                assert(leaves.deep_view() =~~= prev.push(d@));
                assert(leaves.deep_view() =~= leaf_digests(gb).take(i as int + 1));
            }
            i = i + 1;
        }
        assert(leaves.deep_view() =~= leaf_digests(gb));
        let mut levels: Vec<Vec<Vec<u8>>> = Vec::new();
        let ghost first = leaves.deep_view();
        levels.push(leaves);
        proof {
            assert(levels.deep_view() =~~= seq![first]);
        }
        while levels[levels.len() - 1].len() > 1
            invariant
                gb.len() > 0,
                levels.deep_view().len() >= 1,
                levels.deep_view()[0] == leaf_digests(gb),
                forall|k: int|
                    0 <= k < levels.deep_view().len() - 1 ==> levels.deep_view()[k + 1]
                        == #[trigger] combine_level(levels.deep_view()[k]),
                forall|k: int|
                    0 <= k < levels.deep_view().len() - 1 ==> #[trigger] levels.deep_view()[k].len()
                        >= 2,
                levels.deep_view()[levels.deep_view().len() - 1].len() >= 1,
            decreases levels.deep_view()[levels.deep_view().len() - 1].len(),
        {
            let ghost lv = levels.deep_view();
            let last = levels.len() - 1;
            let next = combine(&levels[last]);
            proof {
                lemma_combine_level_len(lv[last as int]);
            }
            let ghost nextv = next.deep_view();
            levels.push(next);
            proof {
                assert(levels.deep_view() =~~= lv.push(nextv));
            }
        }
        let tree = MerkleTree { levels, blocks: Ghost(gb) };
        tree
    }

    /// The root digest, or `None` for a tree built from no blocks.
    pub fn root_hash(&self) -> (r: Option<Vec<u8>>)
        ensures
            r is Some <==> merkle_root(self@) is Some,
            r is Some ==> r.unwrap()@ == merkle_root(self@).unwrap(),
    {
        proof {
            use_type_invariant(self);
            if self.blocks@.len() > 0 {
                lemma_chain_root(self.spec_levels(), 0);
            }
            assert(leaf_digests(self.blocks@).len() == self.blocks@.len());
        }
        if self.levels.len() == 0 {
            None
        } else {
            let last = self.levels.len() - 1;
            Some(copy_digest(&self.levels[last][0]))
        }
    }

    /// The sibling path of the leaf at `leaf_index`, from the leaf level
    /// upward; a level where that path node was promoted unpaired
    /// contributes no entry. An index outside the block sequence — any
    /// index, for a tree built from no blocks — is reported, never clamped.
    pub fn prove(&self, leaf_index: usize) -> (r: Result<InclusionProof, MerkleError>)
        ensures
            r is Ok <==> leaf_index < self@.len(),
            r is Ok ==> r.unwrap()@ == path_of(leaf_digests(self@), leaf_index as int),
            r is Err ==> r.unwrap_err() == MerkleError::InvalidIndex,
    {
        proof {
            use_type_invariant(self);
            assert(leaf_digests(self.blocks@).len() == self.blocks@.len());
        }
        let ghost lv = self.spec_levels();
        if self.levels.len() == 0 {
            return Err(MerkleError::InvalidIndex);
        }
        if leaf_index >= self.levels[0].len() {
            assert(lv[0].len() == self@.len());
            return Err(MerkleError::InvalidIndex);
        }
        let mut entries: Vec<ProofEntry> = Vec::new();
        let mut idx: usize = leaf_index;
        let mut k: usize = 0;
        proof {
            assert(entries@.map_values(|e: ProofEntry| e@) =~= Seq::<(Seq<u8>, Side)>::empty());
            assert(Seq::<(Seq<u8>, Side)>::empty() + path_of(lv[0], leaf_index as int) =~= path_of(
                lv[0],
                leaf_index as int,
            ));
        }
        while k < self.levels.len() - 1
            invariant
                lv == self.spec_levels(),
                lv.len() == self.levels@.len(),
                lv.len() >= 1,
                forall|j: int| 0 <= j < lv.len() - 1 ==> lv[j + 1] == #[trigger] combine_level(
                    lv[j],
                ),
                forall|j: int| 0 <= j < lv.len() - 1 ==> #[trigger] lv[j].len() >= 2,
                lv[lv.len() - 1].len() == 1,
                k <= lv.len() - 1,
                idx < lv[k as int].len(),
                entries@.map_values(|e: ProofEntry| e@) + path_of(lv[k as int], idx as int)
                    =~= path_of(lv[0], leaf_index as int),
            decreases lv.len() - k,
        {
            let ghost prev = entries@.map_values(|e: ProofEntry| e@);
            let ghost cur = lv[k as int];
            proof {
                lemma_combine_level_len(cur);
                assert(lv[k as int + 1] == combine_level(cur));
            }
            let level = &self.levels[k];
            assert(level.deep_view() == cur);
            if idx % 2 == 0 {
                if idx + 1 < level.len() {
                    assert(cur[idx as int + 1] == level@[idx as int + 1]@);
                    let sibling = copy_digest(&level[idx + 1]);
                    entries.push(ProofEntry { sibling, side: Side::Right });
                    proof {
                        assert(entries@.map_values(|e: ProofEntry| e@) =~= prev.push(
                            (cur[idx as int + 1], Side::Right),
                        ));
                        assert(path_of(cur, idx as int) =~= seq![
                            (cur[idx as int + 1], Side::Right),
                        ] + path_of(combine_level(cur), idx as int / 2));
                    }
                } else {
                    proof {
                        assert(path_of(cur, idx as int) =~= path_of(
                            combine_level(cur),
                            idx as int / 2,
                        ));
                    }
                }
            } else {
                assert(cur[idx as int - 1] == level@[idx as int - 1]@);
                let sibling = copy_digest(&level[idx - 1]);
                entries.push(ProofEntry { sibling, side: Side::Left });
                proof {
                    assert(entries@.map_values(|e: ProofEntry| e@) =~= prev.push(
                        (cur[idx as int - 1], Side::Left),
                    ));
                    assert(path_of(cur, idx as int) =~= seq![(cur[idx as int - 1], Side::Left)]
                        + path_of(combine_level(cur), idx as int / 2));
                }
            }
            proof {
                assert(entries@.map_values(|e: ProofEntry| e@) + path_of(
                    combine_level(cur),
                    idx as int / 2,
                ) =~= path_of(lv[0], leaf_index as int));
            }
            idx = idx / 2;
            k = k + 1;
        }
        proof {
            assert(path_of(lv[k as int], idx as int) =~= Seq::<(Seq<u8>, Side)>::empty());
            assert(entries@.map_values(|e: ProofEntry| e@) =~= path_of(lv[0], leaf_index as int));
        }
        Ok(InclusionProof { entries })
    }

    /// Checks a block against this tree's own root: replays the two
    /// parallel sequences — sibling digests, and flags placing each sibling
    /// on the left when true — and compares the outcome to the root digest.
    /// Mismatched lengths, or a tree with no root, verify as false.
    pub fn verify(&self, data: &[u8], proof: &Vec<Vec<u8>>, proof_path: &Vec<bool>) -> (r: bool)
        ensures
            r == (proof@.len() == proof_path@.len() && merkle_root(self@) is Some && replay(
                sha256_of(data@),
                zip_path(proof.deep_view(), proof_path@),
            ) == merkle_root(self@).unwrap()),
    {
        if proof.len() != proof_path.len() {
            return false;
        }
        match self.root_hash() {
            None => false,
            Some(root) => {
                let mut entries: Vec<ProofEntry> = Vec::new();
                let mut i: usize = 0;
                while i < proof.len()
                    invariant
                        i <= proof@.len(),
                        proof@.len() == proof_path@.len(),
                        entries@.map_values(|e: ProofEntry| e@) =~= zip_path(
                            proof.deep_view(),
                            proof_path@,
                        ).take(i as int),
                    decreases proof@.len() - i,
                {
                    let ghost prev = entries@.map_values(|e: ProofEntry| e@);
                    assert(proof.deep_view()[i as int] == proof@[i as int]@);
                    let sibling = copy_digest(&proof[i]);
                    let side = if proof_path[i] {
                        Side::Left
                    } else {
                        Side::Right
                    };
                    entries.push(ProofEntry { sibling, side });
                    proof {
                        assert(entries@.map_values(|e: ProofEntry| e@) =~= prev.push(
                            (proof@[i as int]@, side),
                        ));
                    }
                    i = i + 1;
                }
                let ip = InclusionProof { entries };
                proof {
                    assert(zip_path(proof.deep_view(), proof_path@).take(proof@.len() as int)
                        =~= zip_path(proof.deep_view(), proof_path@));
                    assert(ip@ == entries@.map_values(|e: ProofEntry| e@));
                }
                crate::inclusion::verify(data, &ip, &root)
            },
        }
    }
}

/// In a well-formed chain of levels — each the pairing pass of the one
/// before it, each but the last of length at least two, the last of length
/// one — every level pairs down to the digest the last level holds.
proof fn lemma_chain_root(lv: Seq<Seq<Seq<u8>>>, k: int)
    requires
        0 <= k < lv.len(),
        forall|j: int| 0 <= j < lv.len() - 1 ==> lv[j + 1] == #[trigger] combine_level(lv[j]),
        forall|j: int| 0 <= j < lv.len() - 1 ==> #[trigger] lv[j].len() >= 2,
        lv[lv.len() - 1].len() == 1,
    ensures
        root_of_level(lv[k]) == lv[lv.len() - 1][0],
    decreases lv.len() - k,
{
    if k == lv.len() - 1 {
    } else {
        assert(lv[k].len() >= 2);
        lemma_chain_root(lv, k + 1);
        assert(lv[k + 1] == combine_level(lv[k]));
    }
}

} // verus!
