use meshcore::ffi::{ffi_events, hex, to_ffi, FfiEvent};
use meshcore::MeshEvent;

#[test]
fn hex_is_lowercase_two_digits_per_byte() {
    assert_eq!(hex(&[0x00, 0x0f, 0xa5, 0xff]), "000fa5ff");
    assert_eq!(hex(&[]), "");
}

#[test]
fn message_event_hex_encodes_sender() {
    let e = MeshEvent::MessageReceived {
        channel: "#mesh".to_string(),
        sender: [0xab; 8],
        body: "hi".to_string(),
        timestamp_ms: 42,
        verified: true,
    };
    match to_ffi(e) {
        Some(FfiEvent::Message { channel, sender, body, verified, timestamp_ms }) => {
            assert_eq!(channel, "#mesh");
            assert_eq!(sender, "abababababababab");
            assert_eq!(body, "hi");
            assert!(verified);
            assert_eq!(timestamp_ms, 42);
        }
        _ => panic!("expected a message"),
    }
}

#[test]
fn batch_keeps_order_and_skips_uncarried() {
    let events = vec![
        MeshEvent::PeerLost { link: 3 },
        MeshEvent::Stats { links: 1, seen: 2, pending_relays: 0 },
        MeshEvent::PeerLost { link: 7 },
    ];
    let out = ffi_events(events);
    assert_eq!(out.len(), 2);
    assert!(matches!(out[0], FfiEvent::PeerLost { link: 3 }));
    assert!(matches!(out[1], FfiEvent::PeerLost { link: 7 }));
}
