use intpack_bench::ipb::{frame, parse_head, parse_lists, IpbError};
use intpack_bench::stream::{Dataset, Kind};

#[test]
fn validate_rejects_unsorted_sorted_kind() {
    let mut ds = Dataset::new("t", Kind::Sorted, 100, "test");
    ds.lists.push(vec![5, 1]);
    assert!(ds.validate().is_err());
}

#[test]
fn validate_accepts_sorted_lists_below_universe() {
    let mut ds = Dataset::new("t", Kind::Sorted, 100, "test");
    ds.lists.push(vec![1, 5, 99]);
    ds.lists.push(vec![]);
    assert!(ds.validate().is_ok());
    assert_eq!(ds.total_ints(), 3);
}

#[test]
fn validate_rejects_values_at_universe() {
    let mut ds = Dataset::new("t", Kind::Sorted, 100, "test");
    ds.lists.push(vec![1, 100]);
    assert!(ds.validate().is_err());
}

#[test]
fn unsorted_lists_take_any_order_below_the_universe() {
    let mut ds = Dataset::new("t", Kind::Unsorted, u32::MAX, "test");
    ds.lists.push(vec![5, 1, 5, u32::MAX - 1]);
    assert!(ds.validate().is_ok());
    ds.lists.push(vec![u32::MAX]);
    assert!(ds.validate().is_err());
}

#[test]
fn ipb_frame_reads_back() {
    let meta = br#"{"name":"t","kind":"sorted","universe":100,"source":"test"}"#;
    let lists = vec![(0..100u32).collect::<Vec<u32>>(), vec![], vec![99]];
    let bytes = frame(meta, &lists);
    assert_eq!(&bytes[..4], b"IPB1");
    assert_eq!(bytes.len(), 4 + 4 + meta.len() + 4 + (4 + 400) + 4 + (4 + 4));
    let (s, e) = parse_head(&bytes).unwrap();
    assert_eq!((s, e), (8, 8 + meta.len()));
    assert_eq!(&bytes[s..e], &meta[..]);
    assert_eq!(parse_lists(&bytes, e).unwrap(), lists);
}

#[test]
fn ipb_rejects_other_files_and_short_ones() {
    assert_eq!(parse_head(b"IPB2xxxx"), Err(IpbError::NotIpb));
    assert_eq!(parse_head(b"IP"), Err(IpbError::Truncated));
    assert_eq!(parse_head(b"IPB1\x05\x00\x00\x00abc"), Err(IpbError::Truncated));
    let bytes = frame(b"{}", &vec![vec![1u32, 2, 3]]);
    let (_, e) = parse_head(&bytes).unwrap();
    assert_eq!(parse_lists(&bytes[..bytes.len() - 1], e), Err(IpbError::Truncated));
}
