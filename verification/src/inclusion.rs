//! Inclusion proofs: a sibling path from one leaf to the root, and the
//! verifier that replays such a path against a claimed root digest. The
//! verifier needs only the leaf's data, the path, and the claimed root —
//! never the tree.

use vstd::prelude::*;

use crate::hash::digest_of;
use crate::hash::digest_of_pair;
use crate::hash::pair_digest;
use crate::hash::sha256_of;
use crate::tree::combine_level;
use crate::tree::lemma_combine_level_len;

verus! {

/// Which position a sibling digest occupies in the pair hashed at one level
/// of the path: `Left` means the sibling is the left operand and the digest
/// carried forward is the right one, `Right` the reverse.
#[derive(Clone, Copy, Debug, PartialEq, Eq, Structural)]
pub enum Side {
    Left,
    Right,
}

/// One level of an inclusion proof: the sibling's digest and its position.
#[derive(Debug)]
pub struct ProofEntry {
    pub sibling: Vec<u8>,
    pub side: Side,
}

/// An ordered sibling path, from the leaf level upward. A level at which the
/// path node was promoted unpaired contributes no entry, so the path of a
/// promoted leaf is shorter than the tree height.
#[derive(Debug)]
pub struct InclusionProof {
    pub entries: Vec<ProofEntry>,
}

impl View for ProofEntry {
    type V = (Seq<u8>, Side);

    open spec fn view(&self) -> (Seq<u8>, Side) {
        (self.sibling@, self.side)
    }
}

impl View for InclusionProof {
    type V = Seq<(Seq<u8>, Side)>;

    open spec fn view(&self) -> Seq<(Seq<u8>, Side)> {
        self.entries@.map_values(|e: ProofEntry| e@)
    }
}

/// The digest that replaying a sibling path from a starting digest yields:
/// at each level the carried digest is hashed with the sibling, in the order
/// the side flag gives.
pub open spec fn replay(current: Seq<u8>, path: Seq<(Seq<u8>, Side)>) -> Seq<u8>
    decreases path.len(),
{
    if path.len() == 0 {
        current
    } else {
        let next = match path[0].1 {
            Side::Left => pair_digest(path[0].0, current),
            Side::Right => pair_digest(current, path[0].0),
        };
        replay(next, path.skip(1))
    }
}

/// The sibling path of position `i` of a level: one entry per pairing pass,
/// except at a pass where position `i` is the unpaired last node and is
/// promoted without a sibling.
pub open spec fn path_of(level: Seq<Seq<u8>>, i: int) -> Seq<(Seq<u8>, Side)>
    recommends
        0 <= i < level.len(),
    decreases level.len(),
    via path_of_decreases
{
    if level.len() <= 1 {
        Seq::empty()
    } else {
        let rest = path_of(combine_level(level), i / 2);
        if i % 2 == 0 {
            if i + 1 < level.len() {
                seq![(level[i + 1], Side::Right)] + rest
            } else {
                rest
            }
        } else {
            seq![(level[i - 1], Side::Left)] + rest
        }
    }
}

#[via_fn]
proof fn path_of_decreases(level: Seq<Seq<u8>>, i: int) {
    if level.len() > 1 {
        lemma_combine_level_len(level);
    }
}

/// The sibling path that two parallel sequences describe: one sibling digest
/// and one flag per level, a true flag placing the sibling on the left.
pub open spec fn zip_path(sibs: Seq<Seq<u8>>, flags: Seq<bool>) -> Seq<(Seq<u8>, Side)>
    recommends
        sibs.len() == flags.len(),
{
    Seq::new(sibs.len(), |i: int| (sibs[i], if flags[i] { Side::Left } else { Side::Right }))
}

/// Checks a block against a claimed root digest: hashes the block, replays
/// the sibling path, and compares the outcome to the claim. A path of the
/// wrong shape simply fails the comparison; no input is an error.
pub fn verify(data: &[u8], proof: &InclusionProof, claimed_root: &Vec<u8>) -> (r: bool)
    ensures
        r == (replay(sha256_of(data@), proof@) == claimed_root@),
{
    let mut current = digest_of(data);
    let ghost path = proof@;
    let mut i: usize = 0;
    proof {
        assert(path.skip(0) =~= path);
    }
    while i < proof.entries.len()
        invariant
            i <= path.len(),
            path == proof@,
            path.len() == proof.entries@.len(),
            replay(sha256_of(data@), path) == replay(current@, path.skip(i as int)),
        decreases path.len() - i,
    {
        assert(path[i as int] == proof.entries@[i as int]@);
        let entry = &proof.entries[i];
        let next = match entry.side {
            Side::Left => digest_of_pair(&entry.sibling, &current),
            Side::Right => digest_of_pair(&current, &entry.sibling),
        };
        current = next;
        proof {
            assert(path.skip(i as int).skip(1) =~= path.skip(i as int + 1));
        }
        i = i + 1;
    }
    proof {
        assert(path.skip(path.len() as int) =~= Seq::<(Seq<u8>, Side)>::empty());
    }
    bytes_eq(&current, claimed_root)
}

/// Byte-for-byte equality of two digests.
pub(crate) fn bytes_eq(a: &Vec<u8>, b: &Vec<u8>) -> (r: bool)
    ensures
        r == (a@ == b@),
{
    if a.len() != b.len() {
        return false;
    }
    let mut i: usize = 0;
    while i < a.len()
        invariant
            i <= a@.len(),
            a@.len() == b@.len(),
            forall|j: int| 0 <= j < i ==> a@[j] == b@[j],
        decreases a@.len() - i,
    {
        if a[i] != b[i] {
            return false;
        }
        i = i + 1;
    }
    proof {
        assert(a@ =~= b@);
    }
    true
}

} // verus!
