use portable_collections::radix::sharded::{
    apply_op, batch_fits, fold_batch, insert_mono, plan_batch, shard_of, ShardRoot, FNV_OFFSET,
};
use portable_collections::ShardedArtSnapshot;

fn key(inode: u64, h: u64) -> Vec<u8> {
    let mut x = inode.to_be_bytes().to_vec();
    x.extend_from_slice(&h.to_be_bytes());
    x
}

#[test]
fn shard_of_is_fnv1a_of_the_prefix() {
    // FNV-1a of "a" is 12638187200555641996.
    assert_eq!(shard_of(b"a", 8, 1000), 996);
    // The empty prefix hashes to the offset basis.
    assert_eq!(shard_of(b"", 8, 7), (FNV_OFFSET % 7) as usize);
    assert_eq!(shard_of(b"abcdefgh", 8, 16), 13);
    // Only the first `prefix` bytes count.
    assert_eq!(shard_of(b"abcdefghij", 8, 16), 13);
    assert_eq!(shard_of(b"abcdefghij", 10, 16), 2);
    assert_eq!(shard_of(b"abzzz", 2, 3), 0);
    assert_eq!(shard_of(b"anything", 4, 1), 0);
}

#[test]
fn insert_mono_lands_only_newer_stamps() {
    let root: ShardRoot<u32> = ShardRoot::empty();
    let k1 = key(1, 1);
    let r1 = insert_mono(&root, &k1, 10, 5).unwrap();
    assert_eq!(r1.get(&k1), Some(&(5, 10)));
    // An older or equal stamp is superseded: no new tree.
    assert!(insert_mono(&r1, &k1, 11, 5).is_none());
    assert!(insert_mono(&r1, &k1, 11, 4).is_none());
    // A newer stamp lands.
    let r2 = insert_mono(&r1, &k1, 12, 6).unwrap();
    assert_eq!(r2.get(&k1), Some(&(6, 12)));
    // The old tree is untouched.
    assert_eq!(r1.get(&k1), Some(&(5, 10)));
    // A new key lands whatever its stamp.
    let k2 = key(1, 2);
    let r3 = insert_mono(&r2, &k2, 1, 0).unwrap();
    assert_eq!(r3.get(&k2), Some(&(0, 1)));
    assert_eq!(r3.get(&k1), Some(&(6, 12)));
}

#[test]
fn apply_op_keeps_the_tree_when_superseded() {
    let root: ShardRoot<u32> = ShardRoot::empty();
    let k1 = key(2, 9);
    let a = apply_op(&root, &k1, 1, 10);
    let b = apply_op(&a, &k1, 2, 3);
    assert_eq!(b.get(&k1), Some(&(10, 1)));
    let c = apply_op(&b, &k1, 3, 11);
    assert_eq!(c.get(&k1), Some(&(11, 3)));
}

#[test]
fn prefix_lookups_and_may_insert_see_prefix_clashes() {
    let root: ShardRoot<u32> = ShardRoot::empty();
    assert!(root.may_insert(b"abc"));
    let r = insert_mono(&root, b"abcd", 1, 1).unwrap();
    let r = insert_mono(&r, b"abce", 2, 2).unwrap();
    // "abc" is a proper prefix of stored keys: not stored, and not insertable.
    assert_eq!(r.get(b"abc"), None);
    assert!(!r.may_insert(b"abc"));
    // "abcdz" extends a stored key: answered, not insertable.
    assert!(!r.may_insert(b"abcdz"));
    assert_eq!(r.get(b"abcdz"), None);
    // Unrelated keys are fine both ways.
    assert_eq!(r.get(b"abx"), None);
    assert!(r.may_insert(b"abx"));
    assert!(r.may_insert(b"abcf"));
}

#[test]
fn plan_batch_groups_by_shard_in_order() {
    let ops: Vec<(Vec<u8>, u32, u64)> = vec![
        (b"a".to_vec(), 1, 7),
        (b"b".to_vec(), 2, 3),
        (b"a".to_vec(), 3, 9),
    ];
    let (by_shard, maxes, top) = plan_batch(&ops, 8, 1);
    assert_eq!(by_shard, vec![vec![0usize, 1, 2]]);
    assert_eq!(maxes, vec![9u64]);
    assert_eq!(top, 9);
    let n = 4;
    let (by_shard, maxes, top) = plan_batch(&ops, 8, n);
    let sa = shard_of(b"a", 8, n);
    let sb = shard_of(b"b", 8, n);
    assert_eq!(top, 9);
    for s in 0..n {
        let mut want = Vec::new();
        let mut want_max = 0u64;
        for (i, (k, _, seq)) in ops.iter().enumerate() {
            if shard_of(k, 8, n) == s {
                want.push(i);
                want_max = want_max.max(*seq);
            }
        }
        assert_eq!(by_shard[s], want);
        assert_eq!(maxes[s], want_max);
    }
    assert!(by_shard[sa].contains(&0) && by_shard[sb].contains(&1));
    // An empty batch plans nothing.
    let none: Vec<(Vec<u8>, u32, u64)> = Vec::new();
    let (by_shard, maxes, top) = plan_batch(&none, 8, 2);
    assert_eq!(by_shard, vec![Vec::<usize>::new(), Vec::new()]);
    assert_eq!(maxes, vec![0u64, 0]);
    assert_eq!(top, 0);
}

#[test]
fn fold_batch_is_monotone_last_writer_wins() {
    let ops: Vec<(Vec<u8>, u32, u64)> = vec![
        (key(1, 1), 100, 5),
        (key(1, 2), 200, 2),
        (key(1, 1), 101, 3), // older than the first write: superseded
        (key(1, 1), 102, 8),
    ];
    let root: ShardRoot<u32> = ShardRoot::empty();
    let idxs = [0usize, 1, 2, 3];
    assert!(batch_fits(&root, &ops, &idxs));
    let r = fold_batch(&root, &ops, &idxs);
    assert_eq!(r.get(&key(1, 1)), Some(&(8, 102)));
    assert_eq!(r.get(&key(1, 2)), Some(&(2, 200)));
    // Folding in another order gives the same result (stamps are distinct).
    let r2 = fold_batch(&root, &ops, &[3usize, 2, 1, 0]);
    assert_eq!(r2.get(&key(1, 1)), Some(&(8, 102)));
    assert_eq!(r2.get(&key(1, 2)), Some(&(2, 200)));
    // A subset only applies its own ops.
    let r3 = fold_batch(&root, &ops, &[1usize]);
    assert_eq!(r3.get(&key(1, 1)), None);
}

#[test]
fn batch_fits_rejects_bad_positions_and_prefix_clashes() {
    let ops: Vec<(Vec<u8>, u32, u64)> = vec![(b"ab".to_vec(), 1, 1), (b"abc".to_vec(), 2, 2)];
    let root: ShardRoot<u32> = ShardRoot::empty();
    assert!(batch_fits(&root, &ops, &[0usize]));
    assert!(!batch_fits(&root, &ops, &[0usize, 1]));
    assert!(!batch_fits(&root, &ops, &[2usize]));
    let stored = insert_mono(&root, b"a", 0, 0).unwrap();
    assert!(!batch_fits(&stored, &ops, &[0usize]));
}

#[test]
fn sharded_snapshot_reads_the_home_shard() {
    let n = 3;
    let mut roots: Vec<ShardRoot<u32>> = Vec::new();
    for _ in 0..n {
        roots.push(ShardRoot::empty());
    }
    let k1 = key(7, 1);
    let s = shard_of(&k1, 8, n);
    roots[s] = insert_mono(&roots[s], &k1, 42, 1).unwrap();
    let view = ShardedArtSnapshot::new(roots, 8);
    assert_eq!(view.get(&k1), Some(42));
    assert_eq!(view.get(&key(7, 2)), None);
}

#[test]
fn fold_batch_keeps_the_greatest_stamp_per_key() {
    let root: ShardRoot<u32> = ShardRoot::empty();
    let root = insert_mono(&root, &key(2, 1), 7, 6).unwrap();
    let ops: Vec<(Vec<u8>, u32, u64)> = vec![
        (key(2, 1), 1, 4),  // below the resident stamp 6
        (key(2, 2), 2, 9),
        (key(2, 2), 3, 1),  // after the greater stamp 9: ignored
        (key(2, 1), 4, 10), // above the resident stamp: lands
    ];
    let idxs = [0usize, 1, 2, 3];
    assert!(batch_fits(&root, &ops, &idxs));
    let r = fold_batch(&root, &ops, &idxs);
    assert_eq!(r.get(&key(2, 1)), Some(&(10, 4)));
    assert_eq!(r.get(&key(2, 2)), Some(&(9, 2)));
    let only_low = fold_batch(&root, &ops, &[0usize]);
    assert_eq!(only_low.get(&key(2, 1)), Some(&(6, 7)));
}
