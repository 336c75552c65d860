use topfreq::histogram::histogram_top_k;
use topfreq::records::{split_by_sep, split_whitespace, RecordProcessor, SampledFields};

#[test]
fn whitespace_split_collapses_runs() {
    let fields = split_whitespace("  a \t b  c ");
    assert_eq!(vec!["a", "b", "c"], fields);
    assert!(split_whitespace("").is_empty());
    assert!(split_whitespace(" \t ").is_empty());
}

#[test]
fn separator_split_keeps_empty_fields() {
    assert_eq!(vec!["a", "", "b"], split_by_sep("a,,b", ","));
    assert_eq!(vec!["", ""], split_by_sep(",", ","));
    assert_eq!(vec![""], split_by_sep("", ","));
    assert_eq!(vec!["x", "y", "z"], split_by_sep("xabyabz", "ab"));
    assert_eq!(vec!["x,1"], split_by_sep("x,1", ";"));
}

#[test]
fn end_to_end_whole_records() {
    let mut p = RecordProcessor::new(10, vec![], None, None);
    for line in ["a", "b", "a", "c", "a"] {
        assert!(p.offer_record(line));
    }
    let sf = p.into_fields();
    assert_eq!(1, sf.reservoirs.len());
    assert_eq!(vec![0u64], sf.missing_field_counts);
    let top = histogram_top_k(&sf.reservoirs[0], 3);
    assert_eq!(3, top.entries.len());
    let got: Vec<(String, f32)> = top
        .entries
        .iter()
        .map(|e| (e.value.clone(), e.count as f32 / top.effective_size as f32))
        .collect();
    assert_eq!(("a".to_string(), 0.6f32), got[0]);
    assert_eq!(("b".to_string(), 0.2f32), got[1]);
    assert_eq!(("c".to_string(), 0.2f32), got[2]);
}

#[test]
fn end_to_end_separated_fields() {
    let mut p = RecordProcessor::new(10, vec![1], Some(",".to_string()), None);
    for line in ["x,1", "y,2", "x,3"] {
        assert!(p.offer_record(line));
    }
    let sf = p.into_fields();
    assert_eq!(vec![0u64], sf.missing_field_counts);
    let mut pool: Vec<String> = sf.reservoirs[0].pool.clone();
    pool.sort();
    assert_eq!(vec!["1", "2", "3"], pool);
    let h = sf.reservoirs[0].to_histogram();
    assert_eq!(3, h.entries.len());
    assert_eq!(3, h.effective_size);
    for e in h.entries.iter() {
        assert_eq!(1, e.count);
        let f = e.count as f32 / h.effective_size as f32;
        assert!((f - 1.0f32 / 3.0f32).abs() < 0.0001f32);
    }
}

#[test]
fn end_to_end_missing_field() {
    let mut p = RecordProcessor::new(10, vec![5], None, None);
    for line in ["a b", "c d", "e f"] {
        assert!(p.offer_record(line));
    }
    let sf = p.into_fields();
    assert_eq!(vec![3u64], sf.missing_field_counts);
    assert_eq!(0, sf.reservoirs[0].num_seen);
    assert!(sf.reservoirs[0].to_histogram().entries.is_empty());
}

#[test]
fn read_limit_stops_consumption() {
    let mut p = RecordProcessor::new(10, vec![], None, Some(4));
    assert!(p.offer_record("aa"));
    assert!(p.offer_record("bb"));
    assert!(!p.offer_record("cc"));
    let sf = p.into_fields();
    assert_eq!(2, sf.reservoirs[0].num_seen);
}

#[test]
fn mergeable_checks_shape() {
    let p1 = RecordProcessor::new(10, vec![0], None, None).into_fields();
    let p2 = RecordProcessor::new(10, vec![0, 1], None, None).into_fields();
    let p3 = RecordProcessor::new(10, vec![1], None, None).into_fields();
    assert!(!p1.mergeable(&p2));
    assert!(p1.mergeable(&p3));
}

#[test]
fn sampled_fields_merge_sums() {
    let mut p1 = RecordProcessor::new(10, vec![0, 5], None, None);
    let mut p2 = RecordProcessor::new(10, vec![0, 5], None, None);
    for line in ["a b", "c d"] {
        assert!(p1.offer_record(line));
    }
    for line in ["e f", "g h", "i j"] {
        assert!(p2.offer_record(line));
    }
    let s1 = p1.into_fields();
    let s2 = p2.into_fields();
    assert!(s1.mergeable(&s2));
    let m = SampledFields::merge(&s1, &s2);
    assert_eq!(vec![0u64, 5u64], m.missing_field_counts);
    assert_eq!(5, m.reservoirs[0].num_seen);
    assert_eq!(0, m.reservoirs[1].num_seen);
}

#[test]
fn top_k_zero_and_ties() {
    let mut p = RecordProcessor::new(10, vec![], None, None);
    for line in ["b", "a", "c", "a"] {
        assert!(p.offer_record(line));
    }
    let sf = p.into_fields();
    let none = histogram_top_k(&sf.reservoirs[0], 0);
    assert!(none.entries.is_empty());
    let two = histogram_top_k(&sf.reservoirs[0], 2);
    assert_eq!(2, two.entries.len());
    assert_eq!("a", two.entries[0].value);
    assert_eq!("b", two.entries[1].value);
    let all = histogram_top_k(&sf.reservoirs[0], 10);
    assert_eq!(3, all.entries.len());
    assert_eq!("c", all.entries[2].value);
}
