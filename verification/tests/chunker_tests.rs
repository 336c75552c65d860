use topfreq::filesplits::{ChunkStep, LineChunker, LineRange};

fn split_bytes(data: &[u8], split_size: u64) -> Vec<(u64, u64)> {
    let mut c = LineChunker::new(data.len() as u64, split_size);
    loop {
        match c.step() {
            ChunkStep::Finished => break,
            ChunkStep::Scan { from } => {
                let mut p = from as usize;
                while p < data.len() {
                    p += 1;
                    if data[p - 1] == b'\n' {
                        break;
                    }
                }
                c.resume(p as u64);
            }
        }
    }
    c.into_ranges().iter().map(|r| (r.start, r.end)).collect()
}

#[test]
fn single_range_when_size_covers_source() {
    let data = b"aa\nbb\ncc\n";
    assert_eq!(vec![(0, 9)], split_bytes(data, 100));
    assert_eq!(vec![(0, 9)], split_bytes(data, 9));
}

#[test]
fn empty_source_yields_one_empty_range() {
    assert_eq!(vec![(0, 0)], split_bytes(b"", 5));
}

#[test]
fn ranges_partition_and_align_to_lines() {
    let data = b"aaa\nbb\nc\ndddd\ne\n";
    for size in 1..=20u64 {
        let ranges = split_bytes(data, size);
        assert_eq!(0, ranges[0].0);
        assert_eq!(data.len() as u64, ranges.last().unwrap().1);
        for w in ranges.windows(2) {
            assert_eq!(w[0].1, w[1].0);
        }
        for &(s, e) in ranges.iter() {
            assert!(s <= e);
        }
        for w in ranges.windows(2) {
            let b = w[0].1 as usize;
            if b > 0 && b < data.len() {
                assert_eq!(b'\n', data[b - 1]);
            }
        }
    }
}

#[test]
fn split_slice_agrees_with_protocol() {
    let data: Vec<u8> = b"aaa\nbb\nc\ndddd\ne\n".to_vec();
    for size in 1..=20u64 {
        let from_slice: Vec<(u64, u64)> =
            LineChunker::split_slice(&data, size).iter().map(|r: &LineRange| (r.start, r.end)).collect();
        assert_eq!(split_bytes(&data, size), from_slice);
    }
}

#[test]
fn unterminated_tail_is_kept() {
    let data = b"abc";
    let ranges = split_bytes(data, 2);
    assert_eq!(0, ranges[0].0);
    assert_eq!(3, ranges.last().unwrap().1);
    let covered: u64 = ranges.iter().map(|&(s, e)| e - s).sum();
    assert_eq!(3, covered);
}
