use topfreq::histogram::Histogram;
use topfreq::reservoir::Reservoir;

fn freq(h: &Histogram, value: &str) -> Option<f32> {
    for e in h.entries.iter() {
        if e.value == value {
            return Some(e.count as f32 / h.effective_size as f32);
        }
    }
    None
}

#[test]
fn test_empty() {
    let r = Reservoir::new(15);
    let h = r.to_histogram();
    assert_eq!(0, h.entries.len());
}

#[test]
fn test_single_entry() {
    let mut r = Reservoir::new(15);
    r.add("hello".to_string());
    let h = r.to_histogram();
    assert_eq!(1, h.entries.len());
    assert_eq!(Some(1.0f32), freq(&h, "hello"));
}

#[test]
fn test_single_entry_overflow() {
    let mut r = Reservoir::new(2);
    r.add("hello".to_string());
    r.add("hello".to_string());
    r.add("hello".to_string());
    let h = r.to_histogram();
    assert_eq!(1, h.entries.len());
    assert_eq!(Some(1.0f32), freq(&h, "hello"));
}

#[test]
fn test_many_entries_2_types() {
    // Pin the generator seed so this statistical check is reproducible.
    fastrand::seed(0x7a3d_9b1c_55e0_4f27);
    let mut r = Reservoir::new(100);
    for _ in 0..5000 {
        r.add("hello".to_string());
    }
    for _ in 0..5000 {
        r.add("world".to_string());
    }
    let h = r.to_histogram();
    let hello_freq = freq(&h, "hello").unwrap();
    let world_freq = freq(&h, "world").unwrap();
    assert!((1.0f32 - (hello_freq + world_freq)).abs() < 0.001f32);
    assert!((hello_freq - world_freq).abs() < 0.1f32);
}

#[test]
fn test_merge() {
    // Pin the generator seed so this statistical check is reproducible.
    fastrand::seed(0x7a3d_9b1c_55e0_4f27);
    let mut r1 = Reservoir::new(1000);
    let mut r2 = Reservoir::new(1000);
    for _ in 0..1000 {
        r1.add("hello".to_string());
        r2.add("world".to_string());
    }
    let r3 = Reservoir::merge(&r1, &r2);
    assert_eq!(1000, r3.capacity);
    let h = r3.to_histogram();
    let hello_freq = freq(&h, "hello").unwrap();
    let world_freq = freq(&h, "world").unwrap();
    let dist_result = (1.0f32 - (hello_freq + world_freq)).abs();
    assert!(
        dist_result < 0.001f32,
        "hello_freq == {hello_freq} world_freq == {world_freq} result == {dist_result}"
    );
    assert!((hello_freq - world_freq).abs() < 0.1f32);
}

#[test]
fn pool_below_capacity_is_exact() {
    let mut r = Reservoir::new(10);
    r.add("a".to_string());
    r.add("b".to_string());
    r.add("c".to_string());
    let pool: Vec<&str> = r.pool.iter().map(|s| s.as_str()).collect();
    assert_eq!(vec!["a", "b", "c"], pool);
    assert_eq!(3, r.num_seen);
}

#[test]
fn membership_rate_converges() {
    // Pin the generator seed so this statistical check is reproducible.
    fastrand::seed(0x7a3d_9b1c_55e0_4f27);
    let trials = 2000;
    let mut hits = vec![0u32; 20];
    for _ in 0..trials {
        let mut r = Reservoir::new(5);
        for v in 0..20 {
            r.add(v.to_string());
        }
        for s in r.pool.iter() {
            hits[s.parse::<usize>().unwrap()] += 1;
        }
    }
    for h in hits {
        let rate = h as f64 / trials as f64;
        assert!((rate - 0.25).abs() < 0.08, "rate == {rate}");
    }
}

#[test]
fn histogram_frequencies_sum_to_one() {
    let mut under = Reservoir::new(10);
    under.add("p".to_string());
    under.add("q".to_string());
    under.add("p".to_string());
    let hu = under.to_histogram();
    let total: f32 = hu.entries.iter().map(|e| e.count as f32 / hu.effective_size as f32).sum();
    assert!((total - 1.0f32).abs() < 0.0001f32);

    let mut full = Reservoir::new(10);
    for i in 0..50 {
        full.add((i % 4).to_string());
    }
    let hf = full.to_histogram();
    let total_f: f32 = hf.entries.iter().map(|e| e.count as f32 / hf.effective_size as f32).sum();
    assert!((total_f - 1.0f32).abs() < 0.0001f32);
}

#[test]
fn merge_capacity_and_count() {
    let mut r1 = Reservoir::new(3);
    for i in 0..5 {
        r1.add(i.to_string());
    }
    let mut r2 = Reservoir::new(7);
    for i in 0..2 {
        r2.add(i.to_string());
    }
    let m = Reservoir::merge(&r1, &r2);
    assert_eq!(7, m.capacity);
    assert_eq!(7, m.num_seen);
}

#[test]
fn merge_two_pools_balanced() {
    // Pin the generator seed so this statistical check is reproducible.
    fastrand::seed(0x7a3d_9b1c_55e0_4f27);
    let mut r1 = Reservoir::new(1000);
    let mut r2 = Reservoir::new(1000);
    for _ in 0..5000 {
        r1.add("hello".to_string());
        r2.add("world".to_string());
    }
    let m = Reservoir::merge(&r1, &r2);
    let h = m.to_histogram();
    let hf = freq(&h, "hello").unwrap();
    let wf = freq(&h, "world").unwrap();
    assert!((hf - 0.5f32).abs() < 0.1f32, "hello at {hf}");
    assert!((wf - 0.5f32).abs() < 0.1f32, "world at {wf}");
}

#[test]
fn merge_with_empty_preserves_histogram() {
    let mut r1 = Reservoir::new(50);
    for i in 0..30 {
        r1.add((i % 3).to_string());
    }
    let empty = Reservoir::new(50);
    let m = Reservoir::merge(&r1, &empty);
    assert_eq!(r1.capacity, m.capacity);
    assert_eq!(r1.num_seen, m.num_seen);
    let h1 = r1.to_histogram();
    let hm = m.to_histogram();
    assert_eq!(h1.effective_size, hm.effective_size);
    assert_eq!(h1.entries.len(), hm.entries.len());
    for e in h1.entries.iter() {
        assert_eq!(freq(&h1, &e.value), freq(&hm, &e.value));
    }
    let m2 = Reservoir::merge(&empty, &r1);
    let hm2 = m2.to_histogram();
    assert_eq!(h1.entries.len(), hm2.entries.len());
    for e in h1.entries.iter() {
        assert_eq!(freq(&h1, &e.value), freq(&hm2, &e.value));
    }
}

#[test]
fn merge_associative_statistically() {
    // Pin the generator seed so this statistical check is reproducible.
    fastrand::seed(0x7a3d_9b1c_55e0_4f27);
    let mut a = Reservoir::new(500);
    let mut b = Reservoir::new(500);
    let mut c = Reservoir::new(500);
    for _ in 0..3000 {
        a.add("x".to_string());
        b.add("y".to_string());
        c.add("z".to_string());
    }
    let left = Reservoir::merge(&Reservoir::merge(&a, &b), &c);
    let right = Reservoir::merge(&a, &Reservoir::merge(&b, &c));
    assert_eq!(left.capacity, right.capacity);
    assert_eq!(left.num_seen, right.num_seen);
    let hl = left.to_histogram();
    let hr = right.to_histogram();
    let third = 1.0f32 / 3.0f32;
    for v in ["x", "y", "z"] {
        let fl = freq(&hl, v).unwrap();
        let fr = freq(&hr, v).unwrap();
        assert!((fl - third).abs() < 0.12f32, "{v} left at {fl}");
        assert!((fr - third).abs() < 0.12f32, "{v} right at {fr}");
        assert!((fl - fr).abs() < 0.2f32);
    }
}

#[test]
fn zero_capacity_yields_empty_histogram() {
    let mut r = Reservoir::new(0);
    r.add("a".to_string());
    r.add("b".to_string());
    assert_eq!(2, r.num_seen);
    assert!(r.to_histogram().entries.is_empty());
}
