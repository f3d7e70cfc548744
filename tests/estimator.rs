use hyperloglog::{HyperLogLog, HyperLogLogError, Regime, MAX_REGISTERS};

const SCALE: f64 = 18446744073709551616.0;

fn estimate(h: &HyperLogLog) -> f64 {
    let m = h.len() as f64;
    match h.regime() {
        Regime::Raw => {
            let (a, b) = HyperLogLog::alpha(h.len());
            let alpha = a as f64 / b as f64;
            let harmonic = h.register_sum() as f64 / SCALE;
            2.0 * alpha * m * m / harmonic
        }
        Regime::LinearCounting(z) => m * (m / z as f64).ln(),
    }
}

fn error_estimate(h: &HyperLogLog) -> f64 {
    1.04 / (h.len() as f64).sqrt()
}

fn assert_close(a: f64, b: f64, err: f64) {
    if (a == 0.) && (b == 0.) {
        return;
    }
    let diff = (a - b).abs();
    let sum = (a.abs() + b.abs()) / 2.;
    assert!(diff / sum < err, "a: {}, b: {}", a, b);
}

#[test]
fn it_works() {
    let mut h = HyperLogLog::new(4).unwrap();
    assert_eq!(estimate(&h), 0.);
    assert_close(error_estimate(&h), 0.52, 1e-7);

    let words = vec![
        "Hello!",
        "World!",
        "Hello!",
        "Something!",
        "Else!",
        "Else!",
        "Hello!",
        "1",
        "2",
        "3",
        "4",
        "3",
        "2",
        "1",
    ];

    for w in words {
        h.add(w);
    }

    for v in h.registers() {
        println!("v: {}", v);
    }

    assert_close(estimate(&h), 8., error_estimate(&h) * 3.);
}

#[test]
fn large_test() {
    let mut h = HyperLogLog::new(1 << 8).unwrap();
    assert_eq!(estimate(&h), 0.);
    assert!(error_estimate(&h) < 0.1);

    let n: i32 = 10_000;

    for i in 1..n {
        h.add(i * 3);
    }

    assert_close(estimate(&h), n as f64, error_estimate(&h) * 3.);

    for _ in 1..10 {
        for i in 1..n {
            h.add(i * 3);
        }
    }

    assert_close(estimate(&h), n as f64, error_estimate(&h) * 3.);
}

#[test]
fn new_rejects_zero_registers() {
    assert_eq!(HyperLogLog::new(0).err(), Some(HyperLogLogError::InvalidArgument));
}

#[test]
fn new_rejects_too_many_registers() {
    assert_eq!(
        HyperLogLog::new(MAX_REGISTERS + 1).err(),
        Some(HyperLogLogError::InvalidArgument)
    );
}

#[test]
fn new_starts_all_zero() {
    let h = HyperLogLog::new(16).unwrap();
    assert_eq!(h.len(), 16);
    assert_eq!(h.registers(), &vec![0u32; 16]);
    assert_eq!(h.zero_count(), 16);
}

#[test]
fn single_register_estimator() {
    let mut h = HyperLogLog::new(1).unwrap();
    h.add_hash(1u64 << 40);
    assert_eq!(h.registers(), &vec![23u32]);
}

#[test]
fn add_hash_raises_slot_to_rank() {
    let mut h = HyperLogLog::new(4).unwrap();
    h.add_hash(7);
    assert_eq!(h.registers(), &vec![0, 0, 0, 61]);
    h.add_hash(0);
    assert_eq!(h.registers(), &vec![64, 0, 0, 61]);
}

#[test]
fn add_hash_never_lowers() {
    let mut h = HyperLogLog::new(4).unwrap();
    h.add_hash(5);
    assert_eq!(h.registers(), &vec![0, 61, 0, 0]);
    h.add_hash((1u64 << 63) | 5);
    assert_eq!(h.registers(), &vec![0, 61, 0, 0]);
}

#[test]
fn registers_hold_max_rank_per_slot() {
    let mut h = HyperLogLog::new(4).unwrap();
    let hashes: [u64; 5] = [(1 << 60) | 2, (1 << 50) | 2, (1 << 62) | 1, 1 << 40, (1 << 55) | 2];
    for x in hashes {
        h.add_hash(x);
    }
    assert_eq!(h.registers(), &vec![23, 1, 13, 0]);
}

#[test]
fn adding_same_item_again_changes_nothing() {
    let mut once = HyperLogLog::new(64).unwrap();
    let mut many = HyperLogLog::new(64).unwrap();
    for i in 0..100u32 {
        once.add(i);
        for _ in 0..3 {
            many.add(i);
        }
    }
    assert_eq!(once.registers(), many.registers());
    assert_eq!(estimate(&once), estimate(&many));
}

#[test]
fn add_hashes_items() {
    let mut h = HyperLogLog::new(64).unwrap();
    h.add("Hello!");
    h.add("World!");
    assert!(h.zero_count() < 64);
}

#[test]
fn zero_count_counts_zero_registers() {
    let mut h = HyperLogLog::new(4).unwrap();
    h.add_hash(7);
    h.add_hash(1u64 << 62);
    assert_eq!(h.zero_count(), 2);
}

#[test]
fn register_sum_of_fresh_estimator() {
    let h = HyperLogLog::new(4).unwrap();
    assert_eq!(h.register_sum(), 4u128 << 64);
}

#[test]
fn register_sum_after_updates() {
    let mut h = HyperLogLog::new(4).unwrap();
    h.add_hash(0);
    h.add_hash((1u64 << 61) | 1);
    assert_eq!(h.register_sum(), 1 + (1u128 << 62) + (2u128 << 64));
}

#[test]
fn alpha_table_values() {
    assert_eq!(HyperLogLog::alpha(16), (673, 1000));
    assert_eq!(HyperLogLog::alpha(32), (697, 1000));
    assert_eq!(HyperLogLog::alpha(64), (709, 1000));
}

#[test]
fn alpha_formula_elsewhere() {
    assert_eq!(HyperLogLog::alpha(4), (28852, 50790));
    assert_eq!(HyperLogLog::alpha(256), (1846528, 2570790));
    let (a, b) = HyperLogLog::alpha(128);
    assert_close(a as f64 / b as f64, 0.7213 / (1.0 + 1.079 / 128.0), 1e-12);
}

#[test]
fn fresh_estimator_uses_linear_counting() {
    let h = HyperLogLog::new(256).unwrap();
    assert_eq!(h.regime(), Regime::LinearCounting(256));
    assert_eq!(estimate(&h), 0.);
}

#[test]
fn small_range_uses_linear_counting() {
    let mut h = HyperLogLog::new(4).unwrap();
    h.add_hash(1u64 << 62);
    assert_eq!(h.registers(), &vec![1, 0, 0, 0]);
    assert_eq!(h.regime(), Regime::LinearCounting(3));
    assert_eq!(estimate(&h), 4.0 * (4.0f64 / 3.0).ln());
}

#[test]
fn large_range_uses_raw_estimate() {
    let mut h = HyperLogLog::new(4).unwrap();
    for j in 0..4u64 {
        h.add_hash((1u64 << 53) | j);
    }
    assert_eq!(h.registers(), &vec![10, 10, 10, 10]);
    assert_eq!(h.regime(), Regime::Raw);
    let alpha = 28852.0 / 50790.0;
    assert_close(estimate(&h), 2.0 * alpha * 16.0 * 1024.0 / 4.0, 1e-12);
}

#[test]
fn no_zero_register_keeps_raw_estimate() {
    let mut h = HyperLogLog::new(4).unwrap();
    for j in 0..4u64 {
        h.add_hash((1u64 << 62) | j);
    }
    assert_eq!(h.registers(), &vec![1, 1, 1, 1]);
    assert_eq!(h.zero_count(), 0);
    assert_eq!(h.regime(), Regime::Raw);
    let alpha = 28852.0 / 50790.0;
    assert_close(estimate(&h), 2.0 * alpha * 16.0 / 2.0, 1e-12);
}

#[test]
fn regime_just_below_and_above_threshold() {
    // m = 16, alpha = 0.673: the raw estimate 2 * 0.673 * 256 * 2^64 / sum
    // exceeds 40 exactly when the scaled sum is below 8.6144 * 2^64.
    let mut h = HyperLogLog::new(16).unwrap();
    for j in 0..15u64 {
        h.add_hash((1u64 << 62) | j);
    }
    // fifteen registers are 1, one is 0: the sum is 8.5 * 2^64
    assert_eq!(h.zero_count(), 1);
    assert_eq!(h.regime(), Regime::Raw);

    let mut g = HyperLogLog::new(16).unwrap();
    for j in 0..14u64 {
        g.add_hash((1u64 << 62) | j);
    }
    // fourteen registers are 1, two are 0: the sum is 9 * 2^64
    assert_eq!(g.regime(), Regime::LinearCounting(2));
    assert_eq!(estimate(&g), 16.0 * (16.0f64 / 2.0).ln());
}

#[test]
fn query_is_repeatable() {
    let mut h = HyperLogLog::new(32).unwrap();
    for i in 0..50u64 {
        h.add(i);
    }
    assert_eq!(estimate(&h).to_bits(), estimate(&h).to_bits());
    assert_eq!(h.regime(), h.regime());
}
