use parbench::seq_merge;
use parbench::sort::{merge, sort, DIRECT_THRESHOLD};

fn lcg(seed: &mut u64) -> i32 {
    *seed = seed.wrapping_mul(6364136223846793005).wrapping_add(1442695040888963407);
    ((*seed >> 33) as i32) % 1000 - 500
}

fn random_vec(n: usize, seed: u64) -> Vec<i32> {
    let mut s = seed;
    (0..n).map(|_| lcg(&mut s)).collect()
}

fn sorted_copy(v: &[i32]) -> Vec<i32> {
    let mut w = v.to_vec();
    w.sort();
    w
}

#[test]
fn seq_merge_basic() {
    let mut dest = vec![0; 6];
    seq_merge(&[1, 4, 6], &[2, 3, 7], &mut dest);
    assert_eq!(dest, vec![1, 2, 3, 4, 6, 7]);
}

#[test]
fn seq_merge_empty_sides() {
    let mut dest = vec![9; 3];
    seq_merge(&[1, 2, 3], &[], &mut dest);
    assert_eq!(dest, vec![1, 2, 3]);
    let mut dest = vec![9; 2];
    seq_merge(&[], &[5, 6], &mut dest);
    assert_eq!(dest, vec![5, 6]);
    let mut dest: Vec<i32> = vec![];
    seq_merge(&[], &[], &mut dest);
    assert!(dest.is_empty());
}

// Unsorted inputs are merged front to back, the left element first on ties.
#[test]
fn seq_merge_front_to_back() {
    let mut dest = vec![0; 5];
    seq_merge(&[3, 1, 2], &[2, 0], &mut dest);
    assert_eq!(dest, vec![2, 0, 3, 1, 2]);
    let mut dest = vec![0; 4];
    seq_merge(&[5, 5], &[5, 1], &mut dest);
    assert_eq!(dest, vec![5, 5, 5, 1]);
}

#[test]
fn merge_small_and_large() {
    for (na, nb) in [(0, 0), (3, 5), (5, 3), (0, 10), (20000, 7000), (6000, 15000), (1, 9000)] {
        let a = sorted_copy(&random_vec(na, 1 + na as u64));
        let b = sorted_copy(&random_vec(nb, 7 + nb as u64));
        let mut a2 = a.clone();
        let mut b2 = b.clone();
        let mut dest = vec![0; na + nb];
        merge(&mut a2, &mut b2, &mut dest);
        let mut all = a.clone();
        all.extend_from_slice(&b);
        assert_eq!(dest, sorted_copy(&all));
        assert_eq!(a2, a);
        assert_eq!(b2, b);
        let mut dest2 = vec![0; na + nb];
        seq_merge(&a, &b, &mut dest2);
        assert_eq!(dest, dest2);
    }
}

#[test]
fn sort_in_place_with_buffer() {
    for n in [0usize, 1, 2, 10, DIRECT_THRESHOLD - 1, DIRECT_THRESHOLD, 3 * DIRECT_THRESHOLD + 17] {
        let v = random_vec(n, 42 + n as u64);
        let mut src = v.clone();
        let mut buf = vec![0; n];
        sort(&mut src, &mut buf, true);
        assert_eq!(src, sorted_copy(&v));
        if n < DIRECT_THRESHOLD {
            assert_eq!(buf, vec![0; n]);
        } else {
            let mid = n / 2;
            assert_eq!(&buf[..mid], &sorted_copy(&v[..mid])[..]);
            assert_eq!(&buf[mid..], &sorted_copy(&v[mid..])[..]);
        }
    }
}

#[test]
fn sort_into_buffer() {
    for n in [0usize, 1, 2, 10, 2 * DIRECT_THRESHOLD + 3] {
        let v = random_vec(n, 9 + n as u64);
        let mut src = v.clone();
        let mut buf = vec![0; n];
        sort(&mut src, &mut buf, false);
        assert_eq!(buf, sorted_copy(&v));
        let mid = n / 2;
        assert_eq!(&src[..mid], &sorted_copy(&v[..mid])[..]);
        assert_eq!(&src[mid..], &sorted_copy(&v[mid..])[..]);
    }
}

// Below the direct-sort size the buffer is not used, so it may have any length.
#[test]
fn sort_small_without_buffer() {
    let mut src = vec![5, -1, 3, 3, 0];
    let mut buf: Vec<i32> = Vec::new();
    sort(&mut src, &mut buf, true);
    assert_eq!(src, vec![-1, 0, 3, 3, 5]);
    assert!(buf.is_empty());
}
