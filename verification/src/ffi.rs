//! The flat, foreign-friendly surface the platform bindings present: UI events with byte
//! identifiers hex-encoded for display.

use vstd::prelude::*;

use crate::node::MeshEvent;
use crate::text::{from_utf8_lossy, utf8_lossy};

verus! {

/// The lower-case hexadecimal digit of a nibble.
pub open spec fn hex_digit(n: u8) -> u8 {
    if n < 10 {
        (48 + n) as u8
    } else {
        (87 + n) as u8
    }
}

/// Two lower-case hexadecimal digits per byte, most significant nibble first.
pub open spec fn hex_bytes(b: Seq<u8>) -> Seq<u8>
    decreases b.len(),
{
    if b.len() == 0 {
        Seq::empty()
    } else {
        hex_bytes(b.drop_last()) + seq![hex_digit(b.last() / 16), hex_digit(b.last() % 16)]
    }
}

/// The hexadecimal text of some bytes.
pub open spec fn hex_text(b: Seq<u8>) -> Seq<char> {
    utf8_lossy(hex_bytes(b))
}

/// Lower-case hexadecimal, two digits per byte.
pub fn hex(bytes: &[u8]) -> (s: String)
    ensures
        s@ == hex_text(bytes@),
{
    let mut out: Vec<u8> = Vec::new();
    let mut i: usize = 0;
    while i < bytes.len()
        invariant
            i <= bytes@.len(),
            out@ == hex_bytes(bytes@.subrange(0, i as int)),
        decreases bytes@.len() - i,
    {
        let b = bytes[i];
        let hi = b / 16;
        let lo = b % 16;
        out.push(if hi < 10 { 48 + hi } else { 87 + hi });
        out.push(if lo < 10 { 48 + lo } else { 87 + lo });
        proof {
            assert(bytes@.subrange(0, i + 1).drop_last() =~= bytes@.subrange(0, i as int));
        }
        i = i + 1;
    }
    assert(bytes@.subrange(0, bytes@.len() as int) =~= bytes@);
    from_utf8_lossy(out.as_slice())
}

/// UI-facing event. Byte identifiers are hex-encoded for easy display.
pub enum FfiEvent {
    Message { channel: String, sender: String, body: String, verified: bool, timestamp_ms: u64 },
    PeerAppeared { fingerprint: String, eph: String, petname: Option<String> },
    PeerLost { link: u64 },
}

/// Whether this surface carries an event at all.
pub open spec fn ffi_carried(e: MeshEvent) -> bool {
    ||| e is MessageReceived
    ||| e is PeerAppeared
    ||| e is PeerLost
}

/// `f` is the UI form of `e`: same fields, byte identifiers as hexadecimal text.
pub open spec fn ffi_of(e: MeshEvent, f: FfiEvent) -> bool {
    match e {
        MeshEvent::MessageReceived { channel, sender, body, timestamp_ms, verified } => (f matches
            FfiEvent::Message { channel: c, sender: s, body: b, verified: v, timestamp_ms: t }
            && c == channel && s@ == hex_text(sender@) && b == body && v == verified && t
            == timestamp_ms),
        MeshEvent::PeerAppeared { fingerprint, eph, petname } => (f matches FfiEvent::PeerAppeared {
            fingerprint: fp,
            eph: p,
            petname: n,
        } && fp@ == hex_text(fingerprint@) && p@ == hex_text(eph@) && n == petname),
        MeshEvent::PeerLost { link } => (f matches FfiEvent::PeerLost { link: l } && l == link),
        _ => false,
    }
}

/// `out` holds, in order, the UI form of each carried event of `events`, and nothing else.
pub open spec fn ffi_batch(events: Seq<MeshEvent>, out: Seq<FfiEvent>) -> bool
    decreases events.len(),
{
    if events.len() == 0 {
        out.len() == 0
    } else if ffi_carried(events.last()) {
        &&& out.len() > 0
        &&& ffi_of(events.last(), out.last())
        &&& ffi_batch(events.drop_last(), out.drop_last())
    } else {
        ffi_batch(events.drop_last(), out)
    }
}

/// The UI form of an event; the events this surface does not carry map to `None`.
pub fn to_ffi(e: MeshEvent) -> (r: Option<FfiEvent>)
    ensures
        ffi_carried(e) ==> (r matches Some(f) && ffi_of(e, f)),
        !ffi_carried(e) ==> r is None,
{
    match e {
        MeshEvent::MessageReceived { channel, sender, body, timestamp_ms, verified } => Some(
            FfiEvent::Message { channel, sender: hex(&sender), body, verified, timestamp_ms },
        ),
        MeshEvent::PeerAppeared { fingerprint, eph, petname } => Some(
            FfiEvent::PeerAppeared { fingerprint: hex(&fingerprint), eph: hex(&eph), petname },
        ),
        MeshEvent::PeerLost { link } => Some(FfiEvent::PeerLost { link }),
        _ => None,
    }
}

/// The UI forms of a batch of events, in order, skipping those this surface does not carry.
pub fn ffi_events(events: Vec<MeshEvent>) -> (out: Vec<FfiEvent>)
    ensures
        ffi_batch(events@, out@),
{
    let ghost all = events@;
    let mut rest = events;
    let mut out: Vec<FfiEvent> = Vec::new();
    let mut i: usize = 0;
    assert(all.len() == rest.len());
    while rest.len() > 0
        invariant
            i <= all.len() <= usize::MAX,
            rest@ == all.subrange(i as int, all.len() as int),
            ffi_batch(all.subrange(0, i as int), out@),
        decreases rest@.len(),
    {
        assert(i < all.len());
        let e = rest.remove(0);
        proof {
            assert(all.subrange(0, i + 1).drop_last() =~= all.subrange(0, i as int));
            assert(all.subrange(0, i + 1).last() == e);
            assert(rest@ =~= all.subrange(i + 1, all.len() as int));
        }
        let ghost before = out@;
        match to_ffi(e) {
            Some(f) => {
                out.push(f);
                assert(out@.drop_last() =~= before);
            },
            None => {},
        }
        i = i + 1;
    }
    assert(all.subrange(0, all.len() as int) =~= all);
    out
}

} // verus!
