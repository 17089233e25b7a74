use parbench::splayed::SplayedBitsCounter;

fn collect(mut counter: SplayedBitsCounter) -> Vec<usize> {
    let mut out = Vec::new();
    while let Some(v) = counter.next() {
        out.push(v);
    }
    out
}

#[test]
fn test_splayed_counter() {
    let bits: Vec<usize> = collect(SplayedBitsCounter::new(64));
    assert_eq!(
        vec![0b0, 0b1, 0b100, 0b101, 0b10000, 0b10001, 0b10100, 0b10101],
        bits
    );
}

#[test]
fn splayed_counter_empty_and_single() {
    assert_eq!(collect(SplayedBitsCounter::new(0)), Vec::<usize>::new());
    assert_eq!(collect(SplayedBitsCounter::new(1)), vec![0]);
    assert_eq!(collect(SplayedBitsCounter::new(5)), vec![0, 1, 4]);
}

#[test]
fn splayed_counter_stays_exhausted() {
    let mut c = SplayedBitsCounter::new(2);
    assert_eq!(c.next(), Some(0));
    assert_eq!(c.next(), Some(1));
    assert_eq!(c.next(), None);
    assert_eq!(c.next(), None);
}

// Each value is the least number above the previous one with no odd bit set.
#[test]
fn splayed_counter_is_successor_sequence() {
    let bits = collect(SplayedBitsCounter::new(1 << 20));
    let expected: Vec<usize> = (0..(1usize << 20)).filter(|y| y & 0xaaaa_aaaa == 0).collect();
    assert_eq!(bits, expected);
    assert_eq!(bits.len(), 1 << 10);
}

// The z-order row/column joins of a 8x8 matrix stay below 64.
#[test]
fn zorder_indices_stay_in_bounds() {
    let n = 64usize;
    let ks = collect(SplayedBitsCounter::new(n));
    assert_eq!(ks.len(), 8);
    for ij in 0..n {
        let i = ij & 0xaaaa_aaaa;
        let j = ij & 0x5555_5555;
        for &k in &ks {
            assert!(i | k < n);
            assert!(k << 1 | j < n);
        }
    }
}

// With a bound above every value of the even bits the counter never runs
// out: after the last 32-bit value it starts over at 0.
#[test]
fn splayed_counter_endless_above_even_bits() {
    let mut c = SplayedBitsCounter::new(0x5555_5556);
    let mut last = 0usize;
    for i in 0..(1usize << 16) {
        let v = c.next().expect("never None");
        if i > 0 {
            assert!(v > last);
        }
        last = v;
    }
    assert_eq!(last, 0x5555_5555);
    assert_eq!(c.next(), Some(0));
    assert_eq!(c.next(), Some(1));
}
