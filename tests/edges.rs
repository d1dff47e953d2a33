use framed_zstd::{Compressor, Decompressor, Error};

#[test]
fn empty_input_has_no_frames() {
    let compressed = Compressor::new().compress(&[]).unwrap();
    assert_eq!(compressed, vec![0, 128, 0, 0, 0, 0, 0, 0]);
    let mut d = Decompressor::new(&compressed).unwrap();
    assert_eq!(d.get(..).unwrap(), Vec::<u8>::new());
    assert!(matches!(d.get(0..1), Err(Error::UnexpectedEof)));
}

#[test]
fn short_slices_do_not_open() {
    assert!(Decompressor::new(&[]).is_none());
    assert!(Decompressor::new(&[16, 0, 0, 0, 32, 0, 0]).is_none());
    // header claims two frames, but the table is cut short
    assert!(Decompressor::new(&[16, 0, 0, 0, 32, 0, 0, 0, 1, 0, 0, 0]).is_none());
    // a frame size of zero
    assert!(Decompressor::new(&[0, 0, 0, 0, 0, 0, 0, 0]).is_none());
}

#[test]
fn range_past_the_end_fails() {
    let input: Vec<u8> = (0..40).collect();
    let compressed = Compressor::new().frame_size(16).compress(&input).unwrap();
    let mut d = Decompressor::new(&compressed).unwrap();
    assert!(matches!(d.get(0..41), Err(Error::UnexpectedEof)));
    assert!(matches!(d.get(41..), Err(Error::UnexpectedEof)));
    let mut out = vec![1, 2, 3];
    assert!(d.get_into(&mut out, 10..50).is_err());
    assert_eq!(out, vec![1, 2, 3]);
    #[allow(clippy::reversed_empty_ranges)]
    {
        assert!(matches!(d.get_into(&mut out, 9..3), Err(Error::UnexpectedEof)));
    }
    assert_eq!(out, vec![1, 2, 3]);
}

#[test]
fn frame_boundaries_are_exact() {
    let input: Vec<u8> = (0..48).collect();
    let compressed = Compressor::new().frame_size(16).compress(&input).unwrap();
    let mut d = Decompressor::new(&compressed).unwrap();
    assert_eq!(d.get(16..32).unwrap(), input[16..32].to_vec());
    assert_eq!(d.get(16..48).unwrap(), input[16..48].to_vec());
    assert_eq!(d.get(15..17).unwrap(), input[15..17].to_vec());
    assert_eq!(d.get(32..32).unwrap(), Vec::<u8>::new());
    assert_eq!(d.get(33..33).unwrap(), Vec::<u8>::new());
    assert_eq!(d.get(48..).unwrap(), Vec::<u8>::new());
}

#[test]
fn compressible_input_shrinks() {
    let input = vec![0u8; 8192];
    let compressed = Compressor::new().frame_size(4096).compress(&input).unwrap();
    assert!(compressed.len() < 200);
    let mut d = Decompressor::new(&compressed).unwrap();
    assert_eq!(d.get(4000..4200).unwrap(), vec![0u8; 200]);
    assert_eq!(d.get(..).unwrap(), input);
}

#[test]
fn levels() {
    assert!(Compressor::new().try_level(1000).is_none());
    let c = Compressor::new().try_level(19).unwrap().frame_size(10);
    let input: Vec<u8> = (0..100).collect();
    let compressed = c.compress(&input).unwrap();
    let mut d = Decompressor::new(&compressed).unwrap();
    assert_eq!(d.get(..).unwrap(), input);
    let compressed = Compressor::new().level(-5).frame_size(1).compress(&input).unwrap();
    let mut d = Decompressor::new(&compressed).unwrap();
    assert_eq!(d.get(50..60).unwrap(), input[50..60].to_vec());
}

#[test]
fn single_byte_frames() {
    let input: Vec<u8> = vec![9, 8, 7];
    let compressed = Compressor::new().frame_size(1).compress(&input).unwrap();
    let mut d = Decompressor::new(&compressed).unwrap();
    assert_eq!(d.get(1..2).unwrap(), vec![8]);
    assert_eq!(d.get(..).unwrap(), input);
}

#[test]
fn default_options_match_new() {
    let input: Vec<u8> = (0..100u32).map(|i| (i % 3) as u8).collect();
    let a = Compressor::default().compress(&input).unwrap();
    let b = Compressor::new().compress(&input).unwrap();
    assert_eq!(a, b);
    assert_eq!(&a[0..4], &[0, 128, 0, 0]);
}

#[test]
fn inclusive_ranges() {
    let input: Vec<u8> = (0..40).collect();
    let compressed = Compressor::new().frame_size(16).compress(&input).unwrap();
    let mut d = Decompressor::new(&compressed).unwrap();
    assert_eq!(d.get(3..=20).unwrap(), input[3..=20].to_vec());
    assert_eq!(d.get(..=15).unwrap(), input[..=15].to_vec());
    assert_eq!(d.get(..=39).unwrap(), input);
    assert!(matches!(d.get(..=40), Err(Error::UnexpectedEof)));
    assert!(matches!(d.get(0..=usize::MAX), Err(Error::UnexpectedEof)));
}

#[test]
fn largest_frame_size_is_accepted() {
    let input: Vec<u8> = (0..50).collect();
    let compressed = Compressor::new().frame_size(u32::MAX as usize).compress(&input).unwrap();
    assert_eq!(&compressed[0..4], &[255, 255, 255, 255]);
    let mut d = Decompressor::new(&compressed).unwrap();
    assert_eq!(d.get(7..50).unwrap(), input[7..50].to_vec());
}

#[test]
fn corrupt_frame_fails_and_empty_reads_decode_nothing() {
    let input: Vec<u8> = (0..48u32).map(|i| (i % 5) as u8).collect();
    let mut compressed = Compressor::new().frame_size(16).compress(&input).unwrap();
    let lo = u32::from_le_bytes([compressed[8], compressed[9], compressed[10], compressed[11]]) as usize;
    let hi = u32::from_le_bytes([compressed[12], compressed[13], compressed[14], compressed[15]]) as usize;
    let blob_start = 8 + 4 * 3;
    for b in &mut compressed[blob_start + lo..blob_start + hi] {
        *b = 0xff;
    }
    let mut d = Decompressor::new(&compressed).unwrap();
    let mut out = vec![7u8];
    assert!(matches!(
        d.get_into(&mut out, 16..32),
        Err(Error::Codec(_)) | Err(Error::UnexpectedEof)
    ));
    assert_eq!(out, vec![7u8]);
    assert_eq!(d.get(20..20).unwrap(), Vec::<u8>::new());
    assert_eq!(d.get(0..16).unwrap(), input[0..16].to_vec());
    assert_eq!(d.get(32..48).unwrap(), input[32..48].to_vec());
}
