use meshcore::compress::{decompress, maybe_compress};
use meshcore::{Error, Tunables};

#[test]
fn roundtrip_compressible() {
    let cfg = Tunables::default();
    let data = vec![0xABu8; 2000]; // highly compressible
    let framed = maybe_compress(&data, &cfg).expect("should compress");
    assert!(framed.len() < data.len());
    let back = decompress(&framed, &cfg).unwrap();
    assert_eq!(back, data);
}

#[test]
fn small_input_not_compressed() {
    let cfg = Tunables::default();
    assert!(maybe_compress(b"tiny", &cfg).is_none());
}

#[test]
fn incompressible_declined() {
    let cfg = Tunables::default();
    let data: Vec<u8> = (0..300).map(|i| (i * 7 + 3) as u8).collect();
    // May or may not compress; if it does, roundtrip must hold.
    if let Some(framed) = maybe_compress(&data, &cfg) {
        assert_eq!(decompress(&framed, &cfg).unwrap(), data);
    }
}

#[test]
fn zipbomb_rejected_by_absolute_cap() {
    let cfg = Tunables::default();
    // Claim a 50 MB output from a few compressed bytes.
    let body = lz4_flex::block::compress(&[0u8; 100]);
    let mut bomb = Vec::new();
    bomb.extend_from_slice(&(50_000_000u32).to_be_bytes());
    bomb.extend_from_slice(&body);
    assert!(decompress(&bomb, &cfg).is_err());
}

#[test]
fn highly_compressible_under_cap_roundtrips() {
    let cfg = Tunables::default();
    let data = vec![0x5Au8; 4000]; // < 4096 cap, compresses to a handful of bytes
    let framed = maybe_compress(&data, &cfg).expect("should compress");
    assert!(framed.len() < 100);
    assert_eq!(decompress(&framed, &cfg).unwrap(), data);
}

#[test]
fn truncated_prefix_is_an_error() {
    let cfg = Tunables::default();
    assert!(matches!(decompress(&[0, 0, 1], &cfg), Err(Error::Compress(_))));
}

#[test]
fn framing_prepends_the_big_endian_length() {
    let cfg = Tunables::default();
    let data = vec![0x11u8; 1000];
    let framed = maybe_compress(&data, &cfg).unwrap();
    assert_eq!(&framed[..4], &1000u32.to_be_bytes());
    assert_eq!(&framed[4..], &lz4_flex::block::compress(&data)[..]);
}

#[test]
fn declared_length_mismatch_is_an_error() {
    let cfg = Tunables::default();
    // The block decodes to 100 bytes but the prefix claims 200.
    let body = lz4_flex::block::compress(&[7u8; 100]);
    let mut blob = Vec::new();
    blob.extend_from_slice(&200u32.to_be_bytes());
    blob.extend_from_slice(&body);
    assert!(decompress(&blob, &cfg).is_err());
}

#[test]
fn decompressed_output_never_exceeds_cap() {
    let cfg = Tunables::default();
    let data = vec![1u8; 4096];
    let framed = maybe_compress(&data, &cfg).unwrap();
    let out = decompress(&framed, &cfg).unwrap();
    assert!(out.len() <= cfg.decompress_max_bytes);
}

#[test]
fn exactly_threshold_is_not_compressed() {
    let cfg = Tunables::default();
    assert!(maybe_compress(&[0u8; 128], &cfg).is_none());
    assert!(maybe_compress(&[0u8; 129], &cfg).is_some());
}
