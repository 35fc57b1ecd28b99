//! The chain bookkeeping of the test harness: block hashes, the key a
//! block's hash is stored under, and where a local and a remote chain part.

use vstd::prelude::*;
use crate::byte_map::opt_view;
use crate::bytes::{bytes_eq, vec_views};
use crate::hashing::{sha256, sha256_digest};

verus! {

/// The SHA-256 digest of a block's bytes, which the harness uses as its hash.
pub fn hash_block(block_data: &[u8]) -> (h: [u8; 32])
    ensures h@ == sha256(block_data@),
{
    sha256_digest(block_data)
}

/// The hash of the block at `height` of the remote chain, when it has one.
pub fn get_remote_block_hash(remote_chain: &Vec<Vec<u8>>, height: u32) -> (r: Option<[u8; 32]>)
    ensures
        height < remote_chain@.len() ==> (r matches Some(h) && h@ == sha256(remote_chain@[height as int]@)),
        height >= remote_chain@.len() ==> r is None,
{
    if (height as usize) < remote_chain.len() {
        Some(hash_block(&remote_chain[height as usize]))
    } else {
        None
    }
}

/// The views of a list of optional byte vectors.
pub open spec fn opt_views(s: Seq<Option<Vec<u8>>>) -> Seq<Option<Seq<u8>>> {
    s.map_values(|o: Option<Vec<u8>>| opt_view(o))
}

/// The greatest height `h` not above `top` such that the block below it has
/// the same hash locally and remotely, or 0.
pub open spec fn common_ancestor(local: Seq<Option<Seq<u8>>>, remote: Seq<Seq<u8>>, top: nat) -> nat
    decreases top,
{
    if top == 0 {
        0
    } else if local[top - 1] == Some(sha256(remote[top - 1])) {
        top
    } else {
        common_ancestor(local, remote, (top - 1) as nat)
    }
}

/// Where the local chain, whose stored block hashes are `local_hashes`
/// (one per local block; `None` where none is stored), and the remote chain
/// part: walking down from the lower of the two tips, the first height whose
/// block below has the same hash in both.
pub fn find_common_ancestor(local_hashes: &Vec<Option<Vec<u8>>>, remote_chain: &Vec<Vec<u8>>) -> (r: u32)
    requires
        local_hashes@.len() <= u32::MAX,
        remote_chain@.len() <= u32::MAX,
    ensures
        r == common_ancestor(opt_views(local_hashes@), vec_views(remote_chain@),
            if local_hashes@.len() < remote_chain@.len() { local_hashes@.len() } else { remote_chain@.len() }),
{
    let local_height = local_hashes.len() as u32;
    let remote_height = remote_chain.len() as u32;
    let mut height: u32 = if local_height < remote_height { local_height } else { remote_height };
    let ghost local = opt_views(local_hashes@);
    let ghost remote = vec_views(remote_chain@);
    let ghost top = height as nat;
    loop
        invariant
            height <= local_hashes@.len(),
            height <= remote_chain@.len(),
            local == opt_views(local_hashes@),
            remote == vec_views(remote_chain@),
            top == (if local_hashes@.len() < remote_chain@.len() { local_hashes@.len() } else { remote_chain@.len() }),
            common_ancestor(local, remote, top) == common_ancestor(local, remote, height as nat),
        decreases height,
    {
        if height == 0 {
            return 0;
        }
        let remote_hash = get_remote_block_hash(remote_chain, height - 1);
        match (&local_hashes[(height - 1) as usize], remote_hash) {
            (Some(l), Some(h)) => {
                let same = bytes_eq(l.as_slice(), h.as_slice());
                assert(local[height - 1] == opt_view(local_hashes@[height - 1]));
                assert(remote[height - 1] == remote_chain@[height - 1]@);
                if same {
                    return height;
                }
            },
            _ => {
                assert(local[height - 1] == opt_view(local_hashes@[height - 1]));
            },
        }
        height = height - 1;
    }
}

} // verus!
