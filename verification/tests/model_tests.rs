use std::collections::BTreeMap;

use bptree::range::KeyBound;
use bptree::tree::BPTree;
use rand::rngs::StdRng;
use rand::{Rng, SeedableRng};

fn run_against_map(seed: u64, block_size: usize, key_space: u64, steps: usize) {
    let mut rng = StdRng::seed_from_u64(seed);
    let mut tree: BPTree<u64, u64> = BPTree::new(block_size);
    let mut model: BTreeMap<u64, u64> = BTreeMap::new();
    for step in 0..steps {
        let op = rng.gen_range(0..100);
        let key = rng.gen_range(0..key_space);
        if op < 45 {
            let value = rng.gen_range(0..1_000_000);
            assert_eq!(tree.insert(key, value), model.insert(key, value), "insert at step {}", step);
        } else if op < 80 {
            assert_eq!(tree.delete(&key), model.remove(&key), "delete at step {}", step);
        } else if op < 90 {
            let value = rng.gen_range(0..1_000_000);
            let expected = match model.get_mut(&key) {
                Some(v) => Some(std::mem::replace(v, value)),
                None => None,
            };
            assert_eq!(tree.update(key, value), expected, "update at step {}", step);
        } else {
            let a = rng.gen_range(0..key_space);
            let b = rng.gen_range(0..key_space);
            let got = tree.range(KeyBound::Included(a), KeyBound::Excluded(b));
            let want: Vec<(u64, u64)> = if a < b { model.range(a..b).map(|(k, v)| (*k, *v)).collect() } else { vec![] };
            assert_eq!(got, want, "range at step {}", step);
        }
        assert_eq!(tree.get(&key), model.get(&key).copied());
        assert_eq!(tree.len(), model.len() as u64);
        if step % 97 == 0 {
            tree.validate().unwrap();
        }
    }
    tree.validate().unwrap();
    let all = tree.range(KeyBound::Unbounded, KeyBound::Unbounded);
    let want: Vec<(u64, u64)> = model.iter().map(|(k, v)| (*k, *v)).collect();
    assert_eq!(all, want);
}

#[test]
fn random_operations_match_a_map_small_blocks() {
    run_against_map(1, 512, 300, 4000);
}

#[test]
fn random_operations_match_a_map_dense_keys() {
    run_against_map(7, 512, 40, 3000);
}

#[test]
fn random_operations_match_a_map_large_blocks() {
    run_against_map(42, 4096, 2000, 3000);
}
