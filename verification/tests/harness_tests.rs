use metashrew::harness::{find_common_ancestor, get_remote_block_hash, hash_block};

fn local_hashes(chain: &[&[u8]]) -> Vec<Option<Vec<u8>>> {
    chain.iter().map(|b| Some(hash_block(b).to_vec())).collect()
}

#[test]
fn block_hashes_are_sha256() {
    let h = hash_block(b"abc");
    assert_eq!(h[..4], [0xba, 0x78, 0x16, 0xbf]);
    let remote = vec![b"abc".to_vec()];
    assert_eq!(get_remote_block_hash(&remote, 0), Some(h));
    assert_eq!(get_remote_block_hash(&remote, 1), None);
}

#[test]
fn identical_chains_meet_at_the_tip() {
    let chain: Vec<&[u8]> = vec![b"b0", b"b1", b"b2"];
    let remote: Vec<Vec<u8>> = chain.iter().map(|b| b.to_vec()).collect();
    assert_eq!(find_common_ancestor(&local_hashes(&chain), &remote), 3);
}

#[test]
fn diverging_chains_meet_below_the_fork() {
    let local: Vec<&[u8]> = vec![b"b0", b"b1", b"x2", b"x3"];
    let remote = vec![b"b0".to_vec(), b"b1".to_vec(), b"b2".to_vec()];
    assert_eq!(find_common_ancestor(&local_hashes(&local), &remote), 2);
    let unrelated = vec![b"c0".to_vec()];
    assert_eq!(find_common_ancestor(&local_hashes(&local), &unrelated), 0);
    assert_eq!(find_common_ancestor(&vec![None, None], &remote), 0);
}
