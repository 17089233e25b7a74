use parbench::matmul::{join4, join8, quarter_chunks, quarter_chunks_mut, rcopy, LINEAR_CHUNK};

#[test]
fn join4_returns_each_result() {
    let (a, b, c, d) = join4(|| 1u32, || "two", || 3.5f64, || vec![4u8]);
    assert_eq!(a, 1);
    assert_eq!(b, "two");
    assert_eq!(c, 3.5);
    assert_eq!(d, vec![4]);
}

#[test]
fn join8_returns_each_result() {
    let r = join8(|| 1, || 2, || 3, || 4, || 5, || 6, || 7, || ());
    assert_eq!((r.0, r.1, r.2, r.3, r.4, r.5, r.6), (1, 2, 3, 4, 5, 6, 7));
}

#[test]
fn quarter_chunks_split() {
    let v: Vec<u32> = (0..16).collect();
    let (a, b, c, d) = quarter_chunks(&v);
    assert_eq!(a, &[0, 1, 2, 3]);
    assert_eq!(b, &[4, 5, 6, 7]);
    assert_eq!(c, &[8, 9, 10, 11]);
    assert_eq!(d, &[12, 13, 14, 15]);
    let w: Vec<u32> = (0..7).collect();
    let (a, b, c, d) = quarter_chunks(&w);
    assert_eq!(a, &[0]);
    assert_eq!(b, &[1, 2]);
    assert_eq!(c, &[3]);
    assert_eq!(d, &[4, 5, 6]);
}

#[test]
fn quarter_chunks_mut_write_through() {
    let mut v = vec![0u32; 8];
    {
        let (a, b, c, d) = quarter_chunks_mut(&mut v);
        a[0] = 1;
        b[1] = 2;
        c[0] = 3;
        d[1] = 4;
    }
    assert_eq!(v, vec![1, 0, 0, 2, 3, 0, 0, 4]);
}

#[test]
fn rcopy_small_and_large() {
    for n in [0usize, 5, LINEAR_CHUNK, 3 * LINEAR_CHUNK + 11] {
        let src: Vec<u64> = (0..n as u64).map(|x| x * 3 + 1).collect();
        let mut dest = vec![0u64; n];
        rcopy(&src, &mut dest);
        assert_eq!(dest, src);
    }
}
