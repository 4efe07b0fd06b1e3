use meshcore::error::FragError;
use meshcore::frag::{split, Reassembler, KIND_COMPLETE, KIND_FRAGMENT};
use meshcore::Tunables;

fn cfg() -> Tunables {
    Tunables::default()
}

#[test]
fn small_packet_is_single_complete_frame() {
    let bytes = vec![7u8; 100];
    let frames = split(&bytes, [0; 8], 182).unwrap();
    assert_eq!(frames.len(), 1);
    assert_eq!(frames[0][0], KIND_COMPLETE);
    let mut r = Reassembler::new(cfg());
    assert_eq!(r.ingest(&frames[0], 0).unwrap(), Some(bytes));
}

#[test]
fn large_packet_fragments_and_reassembles() {
    let bytes: Vec<u8> = (0..2000).map(|i| (i % 251) as u8).collect();
    let digest = [1, 2, 3, 4, 5, 6, 7, 8];
    let frames = split(&bytes, digest, 182).unwrap();
    assert!(frames.len() > 1);
    let mut r = Reassembler::new(cfg());
    let mut result = None;
    for f in &frames {
        if let Some(done) = r.ingest(f, 0).unwrap() {
            result = Some(done);
        }
    }
    assert_eq!(result, Some(bytes));
    assert_eq!(r.in_flight(), 0);
}

#[test]
fn reassembles_out_of_order() {
    let bytes: Vec<u8> = (0..1500).map(|i| (i % 251) as u8).collect();
    let mut frames = split(&bytes, [9; 8], 182).unwrap();
    frames.reverse();
    let mut r = Reassembler::new(cfg());
    let mut result = None;
    for f in &frames {
        if let Some(done) = r.ingest(f, 0).unwrap() {
            result = Some(done);
        }
    }
    assert_eq!(result, Some(bytes));
}

#[test]
fn duplicate_fragments_ignored() {
    let bytes: Vec<u8> = (0..1500).map(|i| (i % 251) as u8).collect();
    let frames = split(&bytes, [3; 8], 182).unwrap();
    let mut r = Reassembler::new(cfg());
    // Feed every fragment twice except the last, then the last once.
    for f in &frames[..frames.len() - 1] {
        assert_eq!(r.ingest(f, 0).unwrap(), None);
        assert_eq!(r.ingest(f, 0).unwrap(), None); // dup, still incomplete
    }
    let done = r.ingest(&frames[frames.len() - 1], 0).unwrap();
    assert_eq!(done, Some(bytes));
}

#[test]
fn expired_partial_is_evicted() {
    let bytes = vec![5u8; 1500];
    let frames = split(&bytes, [4; 8], 182).unwrap();
    let mut r = Reassembler::new(cfg());
    r.ingest(&frames[0], 0).unwrap();
    assert_eq!(r.in_flight(), 1);
    let evicted = r.evict_expired(31_000);
    assert_eq!(evicted, 1);
    assert_eq!(r.in_flight(), 0);
}

#[test]
fn mtu_too_small_errors() {
    assert!(matches!(split(&[0; 100], [0; 8], 5), Err(FragError::MtuTooSmall(5))));
}

#[test]
fn bad_index_rejected() {
    let mut r = Reassembler::new(cfg());
    // total=2 but index=5
    let mut frame = vec![KIND_FRAGMENT];
    frame.extend_from_slice(&[0u8; 8]); // digest
    frame.extend_from_slice(&5u16.to_be_bytes());
    frame.extend_from_slice(&2u16.to_be_bytes());
    frame.push(0xAA);
    assert!(r.ingest(&frame, 0).is_err());
}

#[test]
fn fragments_fit_the_mtu_and_carry_the_header() {
    let bytes: Vec<u8> = (0..1000).map(|i| (i % 13) as u8).collect();
    let frames = split(&bytes, [6; 8], 100).unwrap();
    // 87-byte chunks: ceil(1000 / 87) = 12 fragments.
    assert_eq!(frames.len(), 12);
    for (i, f) in frames.iter().enumerate() {
        assert!(f.len() <= 100);
        assert_eq!(f[0], KIND_FRAGMENT);
        assert_eq!(&f[1..9], &[6; 8]);
        assert_eq!(u16::from_be_bytes([f[9], f[10]]), i as u16);
        assert_eq!(u16::from_be_bytes([f[11], f[12]]), 12);
    }
}

#[test]
fn changing_total_mid_message_is_rejected() {
    let mut r = Reassembler::new(cfg());
    let mut a = vec![KIND_FRAGMENT];
    a.extend_from_slice(&[1u8; 8]);
    a.extend_from_slice(&0u16.to_be_bytes());
    a.extend_from_slice(&3u16.to_be_bytes());
    a.push(1);
    assert_eq!(r.ingest(&a, 0).unwrap(), None);
    let mut b = vec![KIND_FRAGMENT];
    b.extend_from_slice(&[1u8; 8]);
    b.extend_from_slice(&1u16.to_be_bytes());
    b.extend_from_slice(&4u16.to_be_bytes());
    b.push(2);
    assert!(matches!(r.ingest(&b, 0), Err(FragError::BadIndex { index: 1, total: 4 })));
    assert_eq!(r.in_flight(), 0);
}

#[test]
fn reassembly_cap_rejects_oversized_messages() {
    let mut small = cfg();
    small.reassembly_max_bytes = 200;
    let bytes = vec![9u8; 1000];
    let frames = split(&bytes, [2; 8], 182).unwrap();
    let mut r = Reassembler::new(small);
    let mut saw_error = false;
    for f in &frames {
        if let Err(e) = r.ingest(f, 0) {
            assert_eq!(e, FragError::TooLarge { cap: 200 });
            saw_error = true;
            break;
        }
    }
    assert!(saw_error);
}

#[test]
fn unknown_frame_kind_is_ignored() {
    let mut r = Reassembler::new(cfg());
    assert_eq!(r.ingest(&[0x7f, 1, 2, 3], 0).unwrap(), None);
    assert_eq!(r.ingest(&[], 0).unwrap(), None);
}
