use metashrew::keccak_smt::{Node, SparseMerkleTree};

fn hex(bytes: &[u8]) -> String {
    bytes.iter().map(|b| format!("{:02x}", b)).collect()
}

#[test]
fn empty_tree_root_is_hash_of_nothing() {
    let t = SparseMerkleTree::new();
    assert_eq!(hex(&t.root()), "c5d2460186f7233c927e7db2dcc703c0e500b653ca82273b7bfad8045d85a470");
}

#[test]
fn update_builds_full_path() {
    let mut t = SparseMerkleTree::new();
    let key = [0u8; 32];
    let value = [1u8; 32];
    t.update(key, value);
    let mut depth = 0;
    let mut node: &Node = &t.root;
    while let Node::Branch(b) = node {
        depth += 1;
        node = &b.left;
    }
    assert_eq!(depth, 256);
    let root1 = t.root();
    t.update(key, [2u8; 32]);
    assert_ne!(t.root(), root1);
    t.update(key, value);
    assert_eq!(t.root(), root1);
}

fn leaf_of(t: &SparseMerkleTree, key: &[u8; 32]) -> [u8; 32] {
    let mut node: &Node = &t.root;
    let mut depth = 0usize;
    loop {
        match node {
            Node::Leaf(l) => return l.hash,
            Node::Branch(b) => {
                let bit = (key[depth / 8] >> (depth % 8)) & 1 == 1;
                node = if bit { &b.right } else { &b.left };
                depth += 1;
            }
        }
    }
}

#[test]
fn updating_one_key_keeps_a_key_on_the_other_side() {
    let mut t = SparseMerkleTree::new();
    let a = [0u8; 32];
    let mut b = [0u8; 32];
    b[0] = 1;
    t.update(a, [7u8; 32]);
    let leaf_a = leaf_of(&t, &a);
    t.update(b, [9u8; 32]);
    assert_eq!(leaf_of(&t, &a), leaf_a);
    assert_ne!(leaf_of(&t, &b), leaf_a);
}
