use chain_sync::bucket::SyncBucket;
use chain_sync::bucket_set::SyncBucketSet;
use chain_sync::tipset::{Tipset, TipsetKeys};
use num_bigint::BigUint;

fn keys(id: &[u8]) -> TipsetKeys {
    TipsetKeys::new(vec![id.to_vec()])
}

fn create_header(weight: u64, cid_bz: &[u8], _cached_bytes: &[u8]) -> Tipset {
    Tipset::new(
        keys(cid_bz),
        TipsetKeys::new(Vec::new()),
        BigUint::from(weight).to_bytes_be(),
        0,
    )
}

fn tipset(key: &[u8], parent: Option<&[u8]>, weight: u64, epoch: u64) -> Tipset {
    let parents = match parent {
        Some(p) => keys(p),
        None => TipsetKeys::new(Vec::new()),
    };
    Tipset::new(keys(key), parents, BigUint::from(weight).to_bytes_be(), epoch)
}

fn weight_of(t: &Tipset) -> BigUint {
    BigUint::from_bytes_be(t.weight())
}

#[test]
fn base_bucket_constructor() {
    SyncBucket::new(Vec::new());
}

#[test]
fn heaviest_tipset() {
    let l_tip = create_header(1, b"", b"");
    let h_tip = create_header(3, b"", b"");

    // Test the comparison of tipsets
    let bucket = SyncBucket::new(vec![l_tip.clone(), h_tip]);
    assert_eq!(
        weight_of(&bucket.heaviest_tipset().unwrap()),
        BigUint::from(3u8)
    );
    assert_eq!(bucket.len(), 2);

    // assert bucket with just one tipset still resolves
    let bucket = SyncBucket::new(vec![l_tip]);
    assert_eq!(
        weight_of(&bucket.heaviest_tipset().unwrap()),
        BigUint::from(1u8)
    );
}

#[test]
fn sync_bucket_inserts() {
    let mut set = SyncBucketSet::default();
    let tipset1 = create_header(1, b"1", b"1");
    set.insert(tipset1.clone());
    assert_eq!(set.buckets().len(), 1);
    assert_eq!(set.buckets()[0].len(), 1);

    // Assert a tipset on non relating chain is put in another bucket
    let tipset2 = create_header(2, b"2", b"2");
    set.insert(tipset2);
    assert_eq!(
        set.buckets().len(),
        2,
        "Inserting seperate tipset should create new bucket"
    );
    assert_eq!(set.buckets()[1].len(), 1);

    // A tipset with the identity of a member of the first bucket goes to
    // that bucket, which holds each identity once
    let tipset3 = create_header(3, b"1", b"1");
    assert!(tipset1.key().equals(tipset3.key()));
    set.insert(tipset3);
    assert_eq!(
        set.buckets().len(),
        2,
        "Inserting into first chain should not create 3rd bucket"
    );
    assert_eq!(
        set.buckets()[0].len(),
        1,
        "Should be 1 tipset in bucket 0"
    );

    // Assert that tipsets that are already added are not added twice
    set.insert(tipset1);
    assert_eq!(set.buckets().len(), 2);
    assert_eq!(set.buckets()[0].len(), 1);
}

#[test]
fn child_joins_the_bucket_of_its_parent() {
    let mut set = SyncBucketSet::default();
    set.insert(tipset(b"1", None, 1, 0));
    set.insert(tipset(b"9", None, 2, 0));
    set.insert(tipset(b"3", Some(b"1"), 3, 1));
    assert_eq!(set.buckets().len(), 2);
    assert_eq!(set.buckets()[0].len(), 2);
    assert_eq!(set.buckets()[1].len(), 1);
}

#[test]
fn adding_twice_keeps_the_count() {
    let mut bucket = SyncBucket::default();
    assert!(bucket._is_empty());
    bucket.add(tipset(b"a", None, 4, 0));
    assert_eq!(bucket.len(), 1);
    bucket.add(tipset(b"a", None, 4, 0));
    assert_eq!(bucket.len(), 1);
    bucket.add(tipset(b"b", Some(b"a"), 5, 1));
    assert_eq!(bucket.len(), 2);
    bucket.add(tipset(b"b", Some(b"a"), 5, 1));
    assert_eq!(bucket.len(), 2);
    assert!(!bucket._is_empty());
}

#[test]
fn same_chain_is_one_hop() {
    let a = tipset(b"a", None, 1, 0);
    let b = tipset(b"b", Some(b"a"), 2, 1);
    let c = tipset(b"c", Some(b"b"), 3, 2);
    let bucket = SyncBucket::new(vec![a.clone()]);
    // the same tipset
    assert!(bucket.same_chain_as(&a));
    // a child of a member
    assert!(bucket.same_chain_as(&b));
    // two hops away
    assert!(!bucket.same_chain_as(&c));
    // the parent of a member
    let bucket = SyncBucket::new(vec![b.clone()]);
    assert!(bucket.same_chain_as(&a));
    assert!(bucket.same_chain_as(&c));
    assert!(!SyncBucket::default().same_chain_as(&a));
}

#[test]
fn empty_bucket_has_no_heaviest() {
    assert!(SyncBucket::default().heaviest_tipset().is_none());
    assert!(SyncBucketSet::default().heaviest().is_none());
    assert!(SyncBucketSet::default()._pop().is_none());
    assert!(SyncBucketSet::default()._is_empty());
}

#[test]
fn equal_weights_first_inserted_wins() {
    let mut bucket = SyncBucket::default();
    bucket.add(tipset(b"x", None, 5, 0));
    bucket.add(tipset(b"y", Some(b"x"), 5, 1));
    bucket.add(tipset(b"z", Some(b"y"), 5, 2));
    for _ in 0..3 {
        let h = bucket.heaviest_tipset().unwrap();
        assert!(h.key().equals(&keys(b"x")));
    }
    let mut bucket = SyncBucket::default();
    bucket.add(tipset(b"y", Some(b"x"), 5, 1));
    bucket.add(tipset(b"x", None, 5, 0));
    assert!(bucket.heaviest_tipset().unwrap().key().equals(&keys(b"y")));
}

#[test]
fn weights_compare_as_numbers() {
    // 256 against 255: more bytes, smaller first byte
    let big = Tipset::new(keys(b"a"), keys(b"p"), vec![1, 0], 0);
    let small = Tipset::new(keys(b"b"), keys(b"p"), vec![255], 0);
    assert!(big.heavier_than(&small));
    assert!(!small.heavier_than(&big));
    let bucket = SyncBucket::new(vec![small.clone(), big.clone()]);
    assert_eq!(weight_of(&bucket.heaviest_tipset().unwrap()), BigUint::from(256u32));
    // leading zero bytes do not count
    let padded = Tipset::new(keys(b"c"), keys(b"p"), vec![0, 0, 255], 0);
    assert!(!padded.heavier_than(&small));
    assert!(!small.heavier_than(&padded));
    let bucket = SyncBucket::new(vec![padded, small.clone()]);
    assert!(bucket.heaviest_tipset().unwrap().key().equals(&keys(b"c")));
    // a weight beyond 64 bits
    let huge = Tipset::new(keys(b"d"), keys(b"p"), vec![1, 0, 0, 0, 0, 0, 0, 0, 0], 0);
    let max64 = Tipset::new(keys(b"e"), keys(b"p"), u64::MAX.to_be_bytes().to_vec(), 0);
    assert!(huge.heavier_than(&max64));
    // the empty byte string is zero
    let zero = Tipset::new(keys(b"f"), keys(b"p"), Vec::new(), 0);
    assert!(!zero.heavier_than(&zero.clone()));
    assert!(small.heavier_than(&zero));
}

#[test]
fn keys_are_sets() {
    let ab = TipsetKeys::new(vec![b"a".to_vec(), b"b".to_vec()]);
    let ba = TipsetKeys::new(vec![b"b".to_vec(), b"a".to_vec()]);
    let aab = TipsetKeys::new(vec![b"a".to_vec(), b"a".to_vec(), b"b".to_vec()]);
    let a = TipsetKeys::new(vec![b"a".to_vec()]);
    let none = TipsetKeys::new(Vec::new());
    assert!(ab.equals(&ba));
    assert!(ab.equals(&aab));
    assert!(!ab.equals(&a));
    assert!(!a.equals(&ab));
    assert!(a.subset_of(&ab));
    assert!(!ab.subset_of(&a));
    assert!(none.equals(&TipsetKeys::new(Vec::new())));
    assert!(!none.equals(&a));
    assert!(ab.contains(&b"b".to_vec()));
    assert!(!ab.contains(&b"c".to_vec()));
    assert!(ab.clone().equals(&ab));
}

#[test]
fn tipset_accessors() {
    let t = tipset(b"k", Some(b"p"), 77, 12);
    assert!(t.key().equals(&keys(b"k")));
    assert!(t.parents().equals(&keys(b"p")));
    assert_eq!(weight_of(&t), BigUint::from(77u8));
    assert_eq!(t.epoch(), 12);
    assert!(t.same_as(&t.clone()));
    assert!(!t.same_as(&tipset(b"k", Some(b"p"), 78, 12)));
    assert!(!t.same_as(&tipset(b"k", Some(b"p"), 77, 13)));
    assert!(!t.same_as(&tipset(b"k", None, 77, 12)));
    assert!(!t.same_as(&tipset(b"j", Some(b"p"), 77, 12)));
}

fn grouping(order: [usize; 3]) {
    let all = [
        tipset(&[1], None, 1, 0),
        tipset(&[2], Some(&[1]), 2, 1),
        tipset(&[3], None, 5, 0),
    ];
    let mut set = SyncBucketSet::default();
    for i in order {
        set.insert(all[i].clone());
    }
    assert_eq!(set.len(), 2);
    let mut pair = 0;
    let mut single = 0;
    for b in set.buckets() {
        if b.len() == 2 {
            pair += 1;
            assert!(b.contains_key(&all[0]));
            assert!(b.contains_key(&all[1]));
            assert!(!b.contains_key(&all[2]));
        } else {
            single += 1;
            assert_eq!(b.len(), 1);
            assert!(b.contains_key(&all[2]));
        }
    }
    assert_eq!((pair, single), (1, 1));
    let h = set.heaviest().unwrap();
    assert!(h.same_as(&all[2]));
}

#[test]
fn grouping_a_b_c() {
    grouping([0, 1, 2]);
}

#[test]
fn grouping_a_c_b() {
    grouping([0, 2, 1]);
}

#[test]
fn grouping_b_a_c() {
    grouping([1, 0, 2]);
}

#[test]
fn grouping_b_c_a() {
    grouping([1, 2, 0]);
}

#[test]
fn grouping_c_a_b() {
    grouping([2, 0, 1]);
}

#[test]
fn grouping_c_b_a() {
    grouping([2, 1, 0]);
}

#[test]
fn set_heaviest_is_max_of_bucket_heaviest() {
    let mut set = SyncBucketSet::default();
    set.insert(tipset(b"a", None, 4, 0));
    set.insert(tipset(b"b", Some(b"a"), 9, 1));
    set.insert(tipset(b"m", None, 11, 0));
    set.insert(tipset(b"n", Some(b"m"), 6, 1));
    set.insert(tipset(b"x", None, 10, 0));
    assert_eq!(set.len(), 3);
    let mut best: Option<Tipset> = None;
    for b in set.buckets() {
        let h = b.heaviest_tipset().unwrap();
        best = match best {
            Some(cur) => {
                if h.heavier_than(&cur) {
                    Some(h)
                } else {
                    Some(cur)
                }
            }
            None => Some(h),
        };
    }
    let h = set.heaviest().unwrap();
    assert!(h.same_as(&best.unwrap()));
    assert_eq!(weight_of(&h), BigUint::from(11u8));
}

#[test]
fn pop_takes_the_heaviest_bucket() {
    let mut set = SyncBucketSet::default();
    set.insert(tipset(b"a", None, 4, 0));
    set.insert(tipset(b"m", None, 11, 0));
    set.insert(tipset(b"n", Some(b"m"), 6, 1));
    set.insert(tipset(b"x", None, 11, 0));
    let popped = set._pop().unwrap();
    assert_eq!(popped.len(), 2);
    assert!(popped.get(0).unwrap().key().equals(&keys(b"m")));
    assert_eq!(set.len(), 2);
    assert!(set.buckets()[0].get(0).unwrap().key().equals(&keys(b"a")));
    assert!(set.buckets()[1].get(0).unwrap().key().equals(&keys(b"x")));
    let popped = set._pop().unwrap();
    assert!(popped.get(0).unwrap().key().equals(&keys(b"x")));
    let popped = set._pop().unwrap();
    assert!(popped.get(0).unwrap().key().equals(&keys(b"a")));
    assert!(set._pop().is_none());
    assert!(set._is_empty());
}

#[test]
fn remove_drops_the_given_bucket() {
    let mut set = SyncBucketSet::default();
    set.insert(tipset(b"a", None, 4, 0));
    set.insert(tipset(b"m", None, 11, 0));
    set.insert(tipset(b"n", Some(b"m"), 6, 1));
    let second = set.buckets()[1].clone();
    assert!(second.same_as(&set.buckets()[1]));
    assert!(!second.same_as(&set.buckets()[0]));
    set._remove(&second);
    assert_eq!(set.len(), 1);
    assert!(set.buckets()[0].get(0).unwrap().key().equals(&keys(b"a")));
    // a bucket that is not in the set
    set._remove(&second);
    assert_eq!(set.len(), 1);
    let copy = set.clone();
    assert_eq!(copy.len(), 1);
}

#[test]
fn pop_related_drops_the_buckets_on_the_chain() {
    let mut set = SyncBucketSet::default();
    set.insert(tipset(b"a", None, 4, 0));
    set.insert(tipset(b"m", None, 11, 0));
    set.insert(tipset(b"n", Some(b"m"), 6, 1));
    set._pop_related(tipset(b"o", Some(b"n"), 7, 2));
    assert_eq!(set.len(), 1);
    assert!(set.buckets()[0].get(0).unwrap().key().equals(&keys(b"a")));
    set._pop_related(tipset(b"q", Some(b"r"), 7, 2));
    assert_eq!(set.len(), 1);
    set._pop_related(tipset(b"a", None, 4, 0));
    assert!(set._is_empty());
}

#[test]
fn connecting_tipset_merges_buckets() {
    let a = tipset(b"a", None, 1, 0);
    let b = tipset(b"b", Some(b"a"), 2, 1);
    let c = tipset(b"c", Some(b"b"), 3, 2);
    let x = tipset(b"x", None, 9, 0);
    let mut set = SyncBucketSet::default();
    set.insert(a.clone());
    set.insert(x.clone());
    set.insert(c.clone());
    // two hops apart: a and c are in buckets of their own
    assert_eq!(set.len(), 3);
    set.insert(b.clone());
    // b joins the bucket of a, and the bucket of c is merged into it
    assert_eq!(set.len(), 2);
    assert_eq!(set.buckets()[0].len(), 3);
    assert!(set.buckets()[0].get(0).unwrap().same_as(&a));
    assert!(set.buckets()[0].get(1).unwrap().same_as(&b));
    assert!(set.buckets()[0].get(2).unwrap().same_as(&c));
    assert_eq!(set.buckets()[1].len(), 1);
    assert!(set.buckets()[1].get(0).unwrap().same_as(&x));
    // each identity is in one bucket only
    for t in [&a, &b, &c, &x] {
        let holders = set.buckets().iter().filter(|bk| bk.contains_key(t)).count();
        assert_eq!(holders, 1);
    }
}

#[test]
fn chain_groups_the_same_in_any_order() {
    let all = [
        tipset(b"a", None, 1, 0),
        tipset(b"b", Some(b"a"), 2, 1),
        tipset(b"c", Some(b"b"), 3, 2),
        tipset(b"d", Some(b"c"), 4, 3),
    ];
    let orders: [[usize; 4]; 6] = [
        [0, 1, 2, 3],
        [3, 2, 1, 0],
        [0, 2, 1, 3],
        [0, 3, 1, 2],
        [3, 0, 2, 1],
        [1, 3, 0, 2],
    ];
    for order in orders {
        let mut set = SyncBucketSet::default();
        for i in order {
            set.insert(all[i].clone());
        }
        assert_eq!(set.len(), 1);
        assert_eq!(set.buckets()[0].len(), 4);
        assert!(set.heaviest().unwrap().same_as(&all[3]));
    }
}

#[test]
fn absorb_adds_what_is_new() {
    let mut bucket = SyncBucket::new(vec![tipset(b"a", None, 1, 0)]);
    let other = SyncBucket::new(vec![
        tipset(b"b", Some(b"a"), 2, 1),
        tipset(b"a", None, 1, 0),
        tipset(b"c", Some(b"b"), 3, 2),
    ]);
    bucket.absorb(&other);
    assert_eq!(bucket.len(), 3);
    assert!(bucket.get(0).unwrap().key().equals(&keys(b"a")));
    assert!(bucket.get(1).unwrap().key().equals(&keys(b"b")));
    assert!(bucket.get(2).unwrap().key().equals(&keys(b"c")));
}

/// A small deterministic generator for the sampled tests.
struct Lcg(u64);

impl Lcg {
    fn next(&mut self, bound: u64) -> u64 {
        self.0 = self.0.wrapping_mul(6364136223846793005).wrapping_add(1442695040888963407);
        (self.0 >> 33) % bound
    }
}

/// The identities held by each bucket, in a canonical order.
fn partition(set: &SyncBucketSet, all: &[Tipset]) -> Vec<Vec<usize>> {
    let mut groups: Vec<Vec<usize>> = set
        .buckets()
        .iter()
        .map(|b| (0..all.len()).filter(|i| b.contains_key(&all[*i])).collect())
        .collect();
    groups.sort();
    groups
}

#[test]
fn sampled_chains_group_the_same_in_any_order() {
    let mut rng = Lcg(7);
    for _ in 0..40 {
        // each tipset is a root or the child of an earlier one
        let n = 2 + rng.next(9) as usize;
        let mut all: Vec<Tipset> = Vec::new();
        for i in 0..n {
            let key = [b'k', i as u8];
            let parent = if i == 0 || rng.next(3) == 0 {
                [b'r', i as u8]
            } else {
                [b'k', rng.next(i as u64) as u8]
            };
            all.push(tipset(&key, Some(&parent), 1 + rng.next(50), i as u64));
        }
        let mut expected: Option<Vec<Vec<usize>>> = None;
        for _ in 0..6 {
            let mut order: Vec<usize> = (0..n).collect();
            for i in (1..n).rev() {
                order.swap(i, rng.next(i as u64 + 1) as usize);
            }
            let mut set = SyncBucketSet::default();
            for i in order {
                set.insert(all[i].clone());
            }
            let groups = partition(&set, &all);
            // every tipset is in exactly one bucket
            let mut seen: Vec<usize> = groups.iter().flatten().copied().collect();
            seen.sort();
            assert_eq!(seen, (0..n).collect::<Vec<usize>>());
            // no bucket is on the chain of a member of another
            for (i, b) in set.buckets().iter().enumerate() {
                for (j, c) in set.buckets().iter().enumerate() {
                    if i != j {
                        for k in 0..c.len() {
                            assert!(!b.same_chain_as(c.get(k).unwrap()));
                        }
                    }
                }
            }
            // the heaviest of the set is as heavy as the heaviest tipset
            let top = set.heaviest().unwrap();
            assert!(all.iter().all(|t| !t.heavier_than(&top)));
            match &expected {
                Some(e) => assert_eq!(*e, groups),
                None => expected = Some(groups),
            }
        }
    }
}
