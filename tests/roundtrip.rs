use framed_zstd::{Compressor, Decompressor, Error};

#[test]
fn test_compress() {
    let input: Vec<u8> = (0..32).collect();
    let compressed = Compressor::new().frame_size(16).compress(&input).unwrap();

    let mut o = Vec::new();
    let mut d = Decompressor::new(&compressed).unwrap();

    #[allow(clippy::reversed_empty_ranges)]
    {
        assert_eq!(d.get_into(&mut o, 3..1).ok(), input.get(3..1));
    }

    assert_eq!(d.get_into(&mut o, ..0).ok(), input.get(..0));
    assert_eq!(d.get_into(&mut o, ..).ok(), input.get(..));
    assert_eq!(d.get_into(&mut o, 0..32).ok(), input.get(0..32));

    assert_eq!(d.get_into(&mut o, ..31).ok(), input.get(..31));
    assert_eq!(d.get_into(&mut o, 1..).ok(), input.get(1..));
    assert_eq!(d.get_into(&mut o, 1..31).ok(), input.get(1..31));

    assert_eq!(d.get_into(&mut o, 5..10).ok(), input.get(5..10));
    assert_eq!(d.get_into(&mut o, 10..20).ok(), input.get(10..20));
}

#[test]
fn example_bytes_0_to_255_in_two_frames() {
    let input: Vec<u8> = (0..255).collect();
    let compressed = Compressor::new().frame_size(128).compress(&input).unwrap();
    // header (8 bytes) and two stored offsets
    assert_eq!(&compressed[0..4], &[128, 0, 0, 0]);
    assert_eq!(&compressed[4..8], &[255, 0, 0, 0]);
    let mut d = Decompressor::new(&compressed).unwrap();
    assert_eq!(d.get(0..255).unwrap(), input);
    assert_eq!(d.get(130..200).unwrap(), input[130..200].to_vec());
}

#[test]
fn example_32_bytes_layout() {
    let input: Vec<u8> = (0..32).collect();
    let compressed = Compressor::new().frame_size(16).compress(&input).unwrap();
    assert_eq!(&compressed[0..8], &[16, 0, 0, 0, 32, 0, 0, 0]);
    let first = u32::from_le_bytes([compressed[8], compressed[9], compressed[10], compressed[11]]);
    let second = u32::from_le_bytes([compressed[12], compressed[13], compressed[14], compressed[15]]);
    assert!(first <= second);
    assert_eq!(compressed.len(), 16 + second as usize);
    let mut d = Decompressor::new(&compressed).unwrap();
    assert_eq!(d.get(..).unwrap(), input);
    #[allow(clippy::reversed_empty_ranges)]
    {
        assert!(matches!(d.get(3..1), Err(Error::UnexpectedEof)));
    }
}

#[test]
fn compressing_twice_gives_the_same_bytes() {
    let input: Vec<u8> = (0..5000u32).map(|i| (i * 7 % 251) as u8).collect();
    let a = Compressor::new().frame_size(300).compress(&input).unwrap();
    let b = Compressor::new().frame_size(300).compress(&input).unwrap();
    assert_eq!(a, b);
}

#[test]
fn every_range_round_trips() {
    let input: Vec<u8> = (0..200u32).map(|i| (i * 13 % 7) as u8).collect();
    for fs in [1usize, 7, 16, 64, 199, 200, 500] {
        let compressed = Compressor::new().frame_size(fs).compress(&input).unwrap();
        let mut d = Decompressor::new(&compressed).unwrap();
        let mut out = Vec::new();
        for start in (0..=200).step_by(9) {
            for end in (start..=200).step_by(11) {
                assert_eq!(d.get_into(&mut out, start..end).unwrap(), &input[start..end]);
            }
            assert_eq!(d.get(start..).unwrap(), input[start..].to_vec());
        }
    }
}

#[test]
fn corrupting_a_later_frame_leaves_earlier_frames_readable() {
    let input: Vec<u8> = (0..64u32).map(|i| (i % 5) as u8).collect();
    let mut compressed = Compressor::new().frame_size(16).compress(&input).unwrap();
    // offset `i` of the table; offset 0 is not stored
    let off = |c: &Vec<u8>, i: usize| {
        if i == 0 {
            return 0;
        }
        let at = 8 + 4 * (i - 1);
        u32::from_le_bytes([c[at], c[at + 1], c[at + 2], c[at + 3]]) as usize
    };
    let blob_start = 8 + 4 * 4;
    let (lo, hi) = (off(&compressed, 1), off(&compressed, 2));
    for b in &mut compressed[blob_start + lo..blob_start + hi] {
        *b = 0xff;
    }
    let mut d = Decompressor::new(&compressed).unwrap();
    assert_eq!(d.get(0..16).unwrap(), input[0..16].to_vec());
    assert_eq!(d.get(3..9).unwrap(), input[3..9].to_vec());
    assert_eq!(d.get(32..64).unwrap(), input[32..64].to_vec());
    assert!(d.get(16..32).map(|v| v != input[16..32].to_vec()).unwrap_or(true));
}
