use intpack_bench::codec::lucene::io::{
    write_group_vints, write_u32_le, write_u64_le, write_vint, write_vint15, write_vlong, write_vlong15,
    Reader,
};

fn roundtrip_vint(v: u32) {
    let mut buf = Vec::new();
    write_vint(&mut buf, v);
    let mut r = Reader::new(&buf);
    assert_eq!(r.read_vint(), v, "vint {v}");
    assert_eq!(r.pos, buf.len());
}

fn roundtrip_vlong(v: u64) {
    let mut buf = Vec::new();
    write_vlong(&mut buf, v);
    let mut r = Reader::new(&buf);
    assert_eq!(r.read_vlong(), v, "vlong {v}");
    assert_eq!(r.pos, buf.len());
}

#[test]
fn le_int_long_roundtrip() {
    let mut buf = Vec::new();
    write_u32_le(&mut buf, 0x0102_0304);
    write_u64_le(&mut buf, 0x0807_0605_0403_0201);
    let mut r = Reader::new(&buf);
    assert_eq!(r.read_u32_le(), 0x0102_0304);
    assert_eq!(r.read_u64_le(), 0x0807_0605_0403_0201);
    assert_eq!(r.pos, buf.len());
}

#[test]
fn vint_boundaries() {
    for v in [0, 127, 128, 16383, 16384, u32::MAX] {
        roundtrip_vint(v);
    }
}

#[test]
fn vlong_boundaries() {
    for v in [0, 127, 128, 16383, 16384, u32::MAX as u64, (1u64 << 35) - 1, u64::MAX] {
        roundtrip_vlong(v);
    }
}

#[test]
fn vint15_vlong15_boundaries() {
    for v in [0u32, 0x7fff, 0x8000, 0x8001, 1 << 20, u32::MAX] {
        let mut buf = Vec::new();
        write_vint15(&mut buf, v);
        let mut r = Reader::new(&buf);
        assert_eq!(r.read_vint15(), v, "vint15 {v}");
        assert_eq!(r.pos, buf.len());
    }
    for v in [0u64, 0x7fff, 0x8000, 0x8001, 1 << 20, u32::MAX as u64, 1u64 << 40, u64::MAX >> 1] {
        let mut buf = Vec::new();
        write_vlong15(&mut buf, v);
        let mut r = Reader::new(&buf);
        assert_eq!(r.read_vlong15(), v, "vlong15 {v}");
        assert_eq!(r.pos, buf.len());
    }
}

#[test]
fn group_vint_lengths_0_to_9() {
    let samples: &[u32] = &[0, 0x7f, 0xff, 0x100, 0xffff, 0x1_0000, 0xff_ffff, 0x100_0000, u32::MAX];
    for n in 0..=9 {
        let ints: Vec<u32> = samples.iter().copied().cycle().take(n).collect();
        let mut buf = Vec::new();
        write_group_vints(&mut buf, &ints);
        let mut back = vec![0u32; n];
        let mut r = Reader::new(&buf);
        r.read_group_vints(&mut back);
        assert_eq!(back, ints, "group-vint n={n}");
        assert_eq!(r.pos, buf.len());
    }
}

#[test]
fn group_vint_two_int_tail_matches_docs_fixture() {
    // Doc ids 3,9 with prevDocID = -1 are deltas [4, 6]. A tail of two is
    // plain vints: no flag byte.
    let mut buf = Vec::new();
    write_group_vints(&mut buf, &[4, 6]);
    assert_eq!(buf, [0x04, 0x06]);
}

#[test]
fn short_reads_yield_zero_and_pin_at_end() {
    let buf = [0x01u8, 0x02, 0x03];
    let mut r = Reader::new(&buf);
    assert_eq!(r.read_u32_le(), 0);
    assert_eq!(r.pos, 3);
    assert_eq!(r.read_byte(), 0);
    assert_eq!(r.pos, 3);
    let mut r = Reader::new(&buf);
    r.skip(2);
    assert_eq!(r.read_byte(), 0x03);
    r.skip(10);
    assert_eq!(r.pos, 3);
}

#[test]
fn group_of_four_flag_byte() {
    let mut buf = Vec::new();
    write_group_vints(&mut buf, &[1, 0x100, 0x1_0000, 0x100_0000]);
    assert_eq!(buf[0], 0b00_01_10_11);
    assert_eq!(buf.len(), 1 + 1 + 2 + 3 + 4);
}
