//! The laws the library states of itself: determinism of the root, the
//! identities for empty and single-block inputs, and the soundness of
//! replaying a generated sibling path against the root.

use vstd::prelude::*;

use crate::hash::sha256_of;
use crate::inclusion::path_of;
use crate::inclusion::replay;
use crate::inclusion::Side;
use crate::tree::combine_level;
use crate::tree::leaf_digests;
use crate::tree::lemma_combine_level_index;
use crate::tree::lemma_combine_level_len;
use crate::tree::merkle_root;
use crate::tree::root_of_level;

verus! {

/// Collision-freedom: no two distinct inputs share a digest. This is the
/// idealization behind every sensitivity and rejection law; a real hash has
/// collisions, so those laws hold only with overwhelming probability, and
/// here they are proved exactly on the runs in which no collision occurs.
pub open spec fn hash_injective() -> bool {
    forall|x: Seq<u8>, y: Seq<u8>|
        #![trigger sha256_of(x), sha256_of(y)]
        sha256_of(x) == sha256_of(y) ==> x == y
}

/// Every digest has the hash function's fixed output length.
pub open spec fn digest_len_fixed() -> bool {
    forall|x: Seq<u8>| (#[trigger] sha256_of(x)).len() == 32
}

/// Equal-length prefixes of equal concatenations match, and so do the tails.
proof fn lemma_concat_split(a: Seq<u8>, b: Seq<u8>, c: Seq<u8>, d: Seq<u8>)
    requires
        a.len() == c.len(),
        a + b == c + d,
    ensures
        a == c,
        b == d,
{
    assert(a =~= (a + b).take(a.len() as int));
    assert(c =~= (c + d).take(c.len() as int));
    assert(b =~= (a + b).skip(a.len() as int));
    assert(d =~= (c + d).skip(c.len() as int));
}

/// Without collisions, a pair digest determines both children, once the left
/// children have one length.
proof fn lemma_pair_digest_inj(a: Seq<u8>, b: Seq<u8>, c: Seq<u8>, d: Seq<u8>)
    requires
        hash_injective(),
        a.len() == c.len(),
        crate::hash::pair_digest(a, b) == crate::hash::pair_digest(c, d),
    ensures
        a == c,
        b == d,
{
    assert(a + b == c + d);
    lemma_concat_split(a, b, c, d);
}

/// A pairing pass over digests of the fixed length yields digests of the
/// fixed length.
proof fn lemma_combine_elem_len(level: Seq<Seq<u8>>)
    requires
        digest_len_fixed(),
        forall|i: int| 0 <= i < level.len() ==> (#[trigger] level[i]).len() == 32,
    ensures
        forall|j: int|
            0 <= j < combine_level(level).len() ==> (#[trigger] combine_level(level)[j]).len()
                == 32,
{
    assert forall|j: int|
        0 <= j < combine_level(level).len() implies (#[trigger] combine_level(level)[j]).len()
        == 32 by {
        lemma_combine_level_index(level, j);
    }
}

/// Two equal-length levels that differ somewhere still differ after one
/// pairing pass, when no collision occurs.
proof fn lemma_combine_differ(l1: Seq<Seq<u8>>, l2: Seq<Seq<u8>>)
    requires
        hash_injective(),
        l1.len() == l2.len(),
        l1.len() >= 2,
        forall|i: int| 0 <= i < l1.len() ==> (#[trigger] l1[i]).len() == 32,
        forall|i: int| 0 <= i < l2.len() ==> (#[trigger] l2[i]).len() == 32,
        l1 != l2,
    ensures
        combine_level(l1) != combine_level(l2),
{
    if forall|i: int| 0 <= i < l1.len() ==> l1[i] == l2[i] {
        assert(l1 =~= l2);
    }
    let i = choose|i: int| 0 <= i < l1.len() && l1[i] != l2[i];
    let j = i / 2;
    lemma_combine_level_len(l1);
    lemma_combine_level_len(l2);
    lemma_combine_level_index(l1, j);
    lemma_combine_level_index(l2, j);
    if combine_level(l1)[j] == combine_level(l2)[j] {
        if 2 * j + 1 < l1.len() {
            lemma_pair_digest_inj(l1[2 * j], l1[2 * j + 1], l2[2 * j], l2[2 * j + 1]);
            assert(false);
        } else {
            assert(l1[2 * j] == l2[2 * j]);
            assert(false);
        }
    }
}

/// Two equal-length non-empty levels that differ somewhere pair down to
/// different digests, when no collision occurs.
proof fn lemma_root_injective(l1: Seq<Seq<u8>>, l2: Seq<Seq<u8>>)
    requires
        hash_injective(),
        digest_len_fixed(),
        l1.len() == l2.len(),
        l1.len() >= 1,
        forall|i: int| 0 <= i < l1.len() ==> (#[trigger] l1[i]).len() == 32,
        forall|i: int| 0 <= i < l2.len() ==> (#[trigger] l2[i]).len() == 32,
        l1 != l2,
    ensures
        root_of_level(l1) != root_of_level(l2),
    decreases l1.len(),
{
    if l1.len() == 1 {
        if l1[0] == l2[0] {
            assert(l1 =~= l2);
        }
    } else {
        lemma_combine_differ(l1, l2);
        lemma_combine_level_len(l1);
        lemma_combine_level_len(l2);
        lemma_combine_elem_len(l1);
        lemma_combine_elem_len(l2);
        lemma_root_injective(combine_level(l1), combine_level(l2));
    }
}

/// Change sensitivity: two equal-length block sequences that differ in some
/// block have different root digests, as long as no hash collision occurs.
/// In particular, changing the content of one block changes the root.
pub proof fn lemma_change_sensitivity(blocks1: Seq<Seq<u8>>, blocks2: Seq<Seq<u8>>, i: int)
    requires
        hash_injective(),
        digest_len_fixed(),
        blocks1.len() == blocks2.len(),
        0 <= i < blocks1.len(),
        blocks1[i] != blocks2[i],
    ensures
        merkle_root(blocks1) != merkle_root(blocks2),
{
    let l1 = leaf_digests(blocks1);
    let l2 = leaf_digests(blocks2);
    assert(l1[i] == sha256_of(blocks1[i]));
    assert(l2[i] == sha256_of(blocks2[i]));
    assert(l1[i] != l2[i]);
    assert(forall|k: int| 0 <= k < l1.len() ==> (#[trigger] l1[k]).len() == 32);
    assert(forall|k: int| 0 <= k < l2.len() ==> (#[trigger] l2[k]).len() == 32);
    lemma_root_injective(l1, l2);
}

/// Order sensitivity: swapping two blocks of distinct content changes the
/// root digest, as long as no hash collision occurs.
pub proof fn lemma_order_sensitivity(blocks: Seq<Seq<u8>>, i: int, j: int)
    requires
        hash_injective(),
        digest_len_fixed(),
        0 <= i < blocks.len(),
        0 <= j < blocks.len(),
        blocks[i] != blocks[j],
    ensures
        merkle_root(blocks) != merkle_root(blocks.update(i, blocks[j]).update(j, blocks[i])),
{
    let swapped = blocks.update(i, blocks[j]).update(j, blocks[i]);
    assert(swapped[i] == blocks[j]);
    lemma_change_sensitivity(blocks, swapped, i);
}

/// Replaying a path keeps the digest at the hash function's fixed length.
proof fn lemma_replay_len(current: Seq<u8>, path: Seq<(Seq<u8>, Side)>)
    requires
        digest_len_fixed(),
        current.len() == 32,
    ensures
        replay(current, path).len() == 32,
    decreases path.len(),
{
    if path.len() > 0 {
        let next = match path[0].1 {
            Side::Left => crate::hash::pair_digest(path[0].0, current),
            Side::Right => crate::hash::pair_digest(current, path[0].0),
        };
        lemma_replay_len(next, path.skip(1));
    }
}

/// Replaying one path from two different starting digests of the fixed
/// length ends in two different digests, when no collision occurs.
proof fn lemma_replay_injective(c1: Seq<u8>, c2: Seq<u8>, path: Seq<(Seq<u8>, Side)>)
    requires
        hash_injective(),
        digest_len_fixed(),
        c1.len() == 32,
        c2.len() == 32,
        c1 != c2,
    ensures
        replay(c1, path) != replay(c2, path),
    decreases path.len(),
{
    if path.len() > 0 {
        let s = path[0].0;
        match path[0].1 {
            Side::Left => {
                let d1 = crate::hash::pair_digest(s, c1);
                let d2 = crate::hash::pair_digest(s, c2);
                if d1 == d2 {
                    lemma_concat_split(s, c1, s, c2);
                }
                lemma_replay_injective(d1, d2, path.skip(1));
            },
            Side::Right => {
                let d1 = crate::hash::pair_digest(c1, s);
                let d2 = crate::hash::pair_digest(c2, s);
                if d1 == d2 {
                    lemma_concat_split(c1, s, c2, s);
                }
                lemma_replay_injective(d1, d2, path.skip(1));
            },
        }
    }
}

/// Replaying a whole path is replaying its first `k` levels and then the
/// rest.
proof fn lemma_replay_split(current: Seq<u8>, path: Seq<(Seq<u8>, Side)>, k: int)
    requires
        0 <= k <= path.len(),
    ensures
        replay(current, path) == replay(replay(current, path.take(k)), path.skip(k)),
    decreases k,
{
    if k == 0 {
        assert(path.take(0) =~= Seq::<(Seq<u8>, Side)>::empty());
        assert(path.skip(0) =~= path);
    } else {
        let next = match path[0].1 {
            Side::Left => crate::hash::pair_digest(path[0].0, current),
            Side::Right => crate::hash::pair_digest(current, path[0].0),
        };
        lemma_replay_split(next, path.skip(1), k - 1);
        assert(path.skip(1).take(k - 1) =~= path.take(k).skip(1));
        assert(path.skip(1).skip(k - 1) =~= path.skip(k));
        assert(path.take(k)[0] == path[0]);
        assert(replay(current, path.take(k)) == replay(next, path.take(k).skip(1)));
    }
}

/// Proof rejection, wrong block: replaying the honest sibling path of leaf
/// `i` from the digest of any other data does not reach the root, when no
/// collision occurs — so verification of that data fails.
pub proof fn lemma_reject_wrong_data(blocks: Seq<Seq<u8>>, i: int, data: Seq<u8>)
    requires
        hash_injective(),
        digest_len_fixed(),
        0 <= i < blocks.len(),
        data != blocks[i],
    ensures
        replay(sha256_of(data), path_of(leaf_digests(blocks), i)) != merkle_root(
            blocks,
        ).unwrap(),
{
    lemma_proof_round_trip(blocks, i);
    assert(sha256_of(data) != sha256_of(blocks[i]));
    lemma_replay_injective(
        sha256_of(data),
        sha256_of(blocks[i]),
        path_of(leaf_digests(blocks), i),
    );
}

/// Proof rejection, mutated sibling: two paths that agree everywhere but in
/// one level's sibling digest replay to different digests from any one
/// starting digest of the fixed length, when no collision occurs.
pub proof fn lemma_reject_mutated_sibling(
    current: Seq<u8>,
    path1: Seq<(Seq<u8>, Side)>,
    path2: Seq<(Seq<u8>, Side)>,
    k: int,
)
    requires
        hash_injective(),
        digest_len_fixed(),
        current.len() == 32,
        path1.len() == path2.len(),
        0 <= k < path1.len(),
        path2[k].1 == path1[k].1,
        path2[k].0 != path1[k].0,
        forall|m: int| 0 <= m < path1.len() && m != k ==> path1[m] == path2[m],
    ensures
        replay(current, path1) != replay(current, path2),
{
    lemma_replay_split(current, path1, k);
    lemma_replay_split(current, path2, k);
    assert(path1.take(k) =~= path2.take(k));
    let c0 = replay(current, path1.take(k));
    lemma_replay_len(current, path1.take(k));
    let s1 = path1[k].0;
    let s2 = path2[k].0;
    let d1 = match path1[k].1 {
        Side::Left => crate::hash::pair_digest(s1, c0),
        Side::Right => crate::hash::pair_digest(c0, s1),
    };
    let d2 = match path2[k].1 {
        Side::Left => crate::hash::pair_digest(s2, c0),
        Side::Right => crate::hash::pair_digest(c0, s2),
    };
    if d1 == d2 {
        match path1[k].1 {
            Side::Left => {
                assert(s1 + c0 == s2 + c0);
                assert(s1.len() == s2.len());
                lemma_concat_split(s1, c0, s2, c0);
            },
            Side::Right => {
                lemma_concat_split(c0, s1, c0, s2);
            },
        }
    }
    assert(path1.skip(k).skip(1) =~= path1.skip(k + 1));
    assert(path2.skip(k).skip(1) =~= path2.skip(k + 1));
    assert(path1.skip(k)[0] == path1[k]);
    assert(path2.skip(k)[0] == path2[k]);
    assert(replay(current, path1) == replay(d1, path1.skip(k + 1)));
    assert(replay(current, path2) == replay(d2, path2.skip(k + 1)));
    assert(path1.skip(k + 1) =~= path2.skip(k + 1));
    lemma_replay_injective(d1, d2, path1.skip(k + 1));
}

/// Proof rejection, flipped side flag: two paths that agree everywhere but
/// in one level's side flag replay to different digests, when no collision
/// occurs — except in the degenerate level where the sibling and the carried
/// digest concatenate to the same input either way round.
pub proof fn lemma_reject_flipped_side(
    current: Seq<u8>,
    path1: Seq<(Seq<u8>, Side)>,
    path2: Seq<(Seq<u8>, Side)>,
    k: int,
)
    requires
        hash_injective(),
        digest_len_fixed(),
        current.len() == 32,
        path1.len() == path2.len(),
        0 <= k < path1.len(),
        path2[k].0 == path1[k].0,
        path2[k].1 != path1[k].1,
        forall|m: int| 0 <= m < path1.len() && m != k ==> path1[m] == path2[m],
        path1[k].0 + replay(current, path1.take(k)) != replay(current, path1.take(k))
            + path1[k].0,
    ensures
        replay(current, path1) != replay(current, path2),
{
    lemma_replay_split(current, path1, k);
    lemma_replay_split(current, path2, k);
    assert(path1.take(k) =~= path2.take(k));
    let c0 = replay(current, path1.take(k));
    lemma_replay_len(current, path1.take(k));
    let s = path1[k].0;
    let d1 = match path1[k].1 {
        Side::Left => crate::hash::pair_digest(s, c0),
        Side::Right => crate::hash::pair_digest(c0, s),
    };
    let d2 = match path2[k].1 {
        Side::Left => crate::hash::pair_digest(s, c0),
        Side::Right => crate::hash::pair_digest(c0, s),
    };
    if d1 == d2 {
        assert(s + c0 == c0 + s);
    }
    assert(path1.skip(k).skip(1) =~= path1.skip(k + 1));
    assert(path2.skip(k).skip(1) =~= path2.skip(k + 1));
    assert(path1.skip(k)[0] == path1[k]);
    assert(path2.skip(k)[0] == path2[k]);
    assert(replay(current, path1) == replay(d1, path1.skip(k + 1)));
    assert(replay(current, path2) == replay(d2, path2.skip(k + 1)));
    assert(path1.skip(k + 1) =~= path2.skip(k + 1));
    lemma_replay_injective(d1, d2, path1.skip(k + 1));
}

/// The root digest is a function of the block sequence alone: two equal
/// sequences have equal root digests, however and whenever each is built.
pub proof fn lemma_root_deterministic(blocks1: Seq<Seq<u8>>, blocks2: Seq<Seq<u8>>)
    requires
        blocks1 == blocks2,
    ensures
        merkle_root(blocks1) == merkle_root(blocks2),
{
}

/// A single-block sequence has the block's own leaf digest as its root: no
/// internal hashing takes place.
pub proof fn lemma_single_block_root(block: Seq<u8>)
    ensures
        merkle_root(seq![block]) == Some(sha256_of(block)),
{
    assert(leaf_digests(seq![block]) =~= seq![sha256_of(block)]);
}

/// An empty block sequence has no root digest.
pub proof fn lemma_empty_root(blocks: Seq<Seq<u8>>)
    requires
        blocks.len() == 0,
    ensures
        merkle_root(blocks) is None,
{
}

/// Four blocks build the balanced two-level tree: the root is the pair
/// digest of the two pair digests of the leaf digests, in input order.
pub proof fn lemma_four_block_root(a: Seq<u8>, b: Seq<u8>, c: Seq<u8>, d: Seq<u8>)
    ensures
        merkle_root(seq![a, b, c, d]) == Some(
            crate::hash::pair_digest(
                crate::hash::pair_digest(sha256_of(a), sha256_of(b)),
                crate::hash::pair_digest(sha256_of(c), sha256_of(d)),
            ),
        ),
{
    reveal_with_fuel(combine_level, 4);
    reveal_with_fuel(root_of_level, 4);
    let ha = sha256_of(a);
    let hb = sha256_of(b);
    let hc = sha256_of(c);
    let hd = sha256_of(d);
    let l0 = leaf_digests(seq![a, b, c, d]);
    assert(l0 =~= seq![ha, hb, hc, hd]);
    let l1 = combine_level(l0);
    assert(l0.skip(2) =~= seq![hc, hd]);
    assert(seq![hc, hd].skip(2) =~= Seq::<Seq<u8>>::empty());
    assert(l1 =~= seq![crate::hash::pair_digest(ha, hb), crate::hash::pair_digest(hc, hd)]);
    let l2 = combine_level(l1);
    assert(l1.skip(2) =~= Seq::<Seq<u8>>::empty());
    assert(l2 =~= seq![
        crate::hash::pair_digest(
            crate::hash::pair_digest(ha, hb),
            crate::hash::pair_digest(hc, hd),
        ),
    ]);
    assert(root_of_level(l0) == root_of_level(l1));
    assert(root_of_level(l1) == root_of_level(l2));
}

/// Three blocks leave the third leaf digest promoted, unchanged, beside the
/// pair digest of the first two; the root pairs those two in that order.
pub proof fn lemma_three_block_root(a: Seq<u8>, b: Seq<u8>, c: Seq<u8>)
    ensures
        merkle_root(seq![a, b, c]) == Some(
            crate::hash::pair_digest(
                crate::hash::pair_digest(sha256_of(a), sha256_of(b)),
                sha256_of(c),
            ),
        ),
{
    reveal_with_fuel(combine_level, 4);
    reveal_with_fuel(root_of_level, 4);
    let ha = sha256_of(a);
    let hb = sha256_of(b);
    let hc = sha256_of(c);
    let l0 = leaf_digests(seq![a, b, c]);
    assert(l0 =~= seq![ha, hb, hc]);
    let l1 = combine_level(l0);
    assert(l0.skip(2) =~= seq![hc]);
    assert(l1 =~= seq![crate::hash::pair_digest(ha, hb), hc]);
    let l2 = combine_level(l1);
    assert(l1.skip(2) =~= Seq::<Seq<u8>>::empty());
    assert(l2 =~= seq![crate::hash::pair_digest(crate::hash::pair_digest(ha, hb), hc)]);
    assert(root_of_level(l0) == root_of_level(l1));
    assert(root_of_level(l1) == root_of_level(l2));
}

/// Replaying the sibling path of any position of a level, starting from the
/// digest at that position, reaches the digest the level pairs down to.
pub proof fn lemma_replay_path(level: Seq<Seq<u8>>, i: int)
    requires
        0 <= i < level.len(),
    ensures
        replay(level[i], path_of(level, i)) == root_of_level(level),
    decreases level.len(),
{
    if level.len() == 1 {
    } else {
        let next = combine_level(level);
        lemma_combine_level_len(level);
        let j = i / 2;
        lemma_combine_level_index(level, j);
        lemma_replay_path(next, j);
        if i % 2 == 0 {
            if i + 1 < level.len() {
                assert(next[j] == crate::hash::pair_digest(level[i], level[i + 1]));
                assert((seq![(level[i + 1], Side::Right)] + path_of(next, j)).skip(1) =~= path_of(
                    next,
                    j,
                ));
            } else {
                assert(next[j] == level[i]);
            }
        } else {
            assert(next[j] == crate::hash::pair_digest(level[i - 1], level[i]));
            assert((seq![(level[i - 1], Side::Left)] + path_of(next, j)).skip(1) =~= path_of(
                next,
                j,
            ));
        }
    }
}

/// Round-trip soundness: for every block sequence and every valid leaf
/// index, replaying the sibling path generated for that leaf, starting from
/// the leaf's digest, yields exactly the sequence's root digest — so
/// verification of an honest proof against the honest root succeeds.
pub proof fn lemma_proof_round_trip(blocks: Seq<Seq<u8>>, i: int)
    requires
        0 <= i < blocks.len(),
    ensures
        merkle_root(blocks) == Some(
            replay(sha256_of(blocks[i]), path_of(leaf_digests(blocks), i)),
        ),
{
    assert(leaf_digests(blocks).len() == blocks.len());
    assert(leaf_digests(blocks)[i] == sha256_of(blocks[i]));
    lemma_replay_path(leaf_digests(blocks), i);
}

} // verus!
