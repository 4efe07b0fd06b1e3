//! The binary packet format: fixed offsets, big-endian, no varints.
//!
//! ```text
//! version(1) | type(1) | flags(1) | TTL(1) | timestamp_ms(8) | sender(8)
//!   | [recipient(8) if HAS_RECIPIENT] | payload_len(2) | payload(len) | signature(64)
//! ```
//! The TTL byte is signed as zero, so a relay can decrement it without re-signing. The dedup key
//! is the first 8 bytes of SHA-256 over the signature.

pub mod flags;

use vstd::prelude::*;

use crate::bytes::{
    append_bytes, be_u64_of, lemma_be_u64_bytes_roundtrip, lemma_u64_be_roundtrip, push_u16_be,
    push_u64_be, read_array64, read_array8, read_u64_be, u16_be, u64_be,
};
use crate::crypto::{
    ed25519_accepts, ed25519_public, ed25519_sign, ed25519_signature, ed25519_verify, sha256,
    sha256_digest,
};
use crate::error::WireError;
use flags::HAS_RECIPIENT;

verus! {

pub const PROTOCOL_VERSION: u8 = 1;

/// Rotating 8-byte ephemeral wire identifier.
pub type EphId = [u8; 8];

pub const SIG_LEN: usize = 64;

/// Header length through `payload_len`, without a recipient.
pub const MIN_HEADER: usize = 22;

/// Message types. Unknown codes are preserved so a relay forwards a newer node's traffic.
#[derive(Debug, Clone, Copy, PartialEq, Eq, Structural)]
pub enum MsgType {
    Announce,
    ChannelMessage,
    DirectMessage,
    NoiseHandshake,
    Receipt,
    SyncRequest,
    SyncResponse,
    MediaOffer,
    MediaFetchRequest,
    MediaChunk,
    MediaFetchAck,
    Unknown(u8),
}

impl MsgType {
    /// The one-byte code of a type.
    pub open spec fn code(self) -> u8 {
        match self {
            MsgType::Announce => 0x01,
            MsgType::ChannelMessage => 0x02,
            MsgType::DirectMessage => 0x03,
            MsgType::NoiseHandshake => 0x04,
            MsgType::Receipt => 0x05,
            MsgType::SyncRequest => 0x06,
            MsgType::SyncResponse => 0x07,
            MsgType::MediaOffer => 0x10,
            MsgType::MediaFetchRequest => 0x11,
            MsgType::MediaChunk => 0x12,
            MsgType::MediaFetchAck => 0x13,
            MsgType::Unknown(b) => b,
        }
    }

    /// Whether a code names a known type.
    pub open spec fn is_known_code(b: u8) -> bool {
        (0x01 <= b <= 0x07) || (0x10 <= b <= 0x13)
    }

    /// The type a code decodes to.
    pub open spec fn of_code(b: u8) -> MsgType {
        if b == 0x01 {
            MsgType::Announce
        } else if b == 0x02 {
            MsgType::ChannelMessage
        } else if b == 0x03 {
            MsgType::DirectMessage
        } else if b == 0x04 {
            MsgType::NoiseHandshake
        } else if b == 0x05 {
            MsgType::Receipt
        } else if b == 0x06 {
            MsgType::SyncRequest
        } else if b == 0x07 {
            MsgType::SyncResponse
        } else if b == 0x10 {
            MsgType::MediaOffer
        } else if b == 0x11 {
            MsgType::MediaFetchRequest
        } else if b == 0x12 {
            MsgType::MediaChunk
        } else if b == 0x13 {
            MsgType::MediaFetchAck
        } else {
            MsgType::Unknown(b)
        }
    }

    /// A type is canonical when decoding its code gives it back: every known type, and
    /// `Unknown(b)` only for codes that name no known type.
    pub open spec fn is_canonical(self) -> bool {
        match self {
            MsgType::Unknown(b) => !MsgType::is_known_code(b),
            _ => true,
        }
    }

    pub fn from_u8(b: u8) -> (t: MsgType)
        ensures
            t == MsgType::of_code(b),
    {
        match b {
            0x01 => MsgType::Announce,
            0x02 => MsgType::ChannelMessage,
            0x03 => MsgType::DirectMessage,
            0x04 => MsgType::NoiseHandshake,
            0x05 => MsgType::Receipt,
            0x06 => MsgType::SyncRequest,
            0x07 => MsgType::SyncResponse,
            0x10 => MsgType::MediaOffer,
            0x11 => MsgType::MediaFetchRequest,
            0x12 => MsgType::MediaChunk,
            0x13 => MsgType::MediaFetchAck,
            other => MsgType::Unknown(other),
        }
    }

    pub fn to_u8(self) -> (b: u8)
        ensures
            b == self.code(),
    {
        match self {
            MsgType::Announce => 0x01,
            MsgType::ChannelMessage => 0x02,
            MsgType::DirectMessage => 0x03,
            MsgType::NoiseHandshake => 0x04,
            MsgType::Receipt => 0x05,
            MsgType::SyncRequest => 0x06,
            MsgType::SyncResponse => 0x07,
            MsgType::MediaOffer => 0x10,
            MsgType::MediaFetchRequest => 0x11,
            MsgType::MediaChunk => 0x12,
            MsgType::MediaFetchAck => 0x13,
            MsgType::Unknown(b) => b,
        }
    }

    pub fn is_known(self) -> (k: bool)
        ensures
            k == !(self is Unknown),
    {
        !matches!(self, MsgType::Unknown(_))
    }
}

/// Decoding a type's code gives the type back exactly when the type is canonical, and encoding a
/// decoded code gives the code back for every byte.
pub proof fn law_msg_type_code_roundtrip(t: MsgType, b: u8)
    ensures
        t.is_canonical() ==> MsgType::of_code(t.code()) == t,
        MsgType::of_code(b).code() == b,
        MsgType::of_code(b).is_canonical(),
{
}

/// The mathematical content of a packet.
pub struct PacketModel {
    pub version: u8,
    pub msg_type: MsgType,
    pub flags: u8,
    pub ttl: u8,
    pub timestamp_ms: u64,
    pub sender: Seq<u8>,
    pub recipient: Option<Seq<u8>>,
    pub payload: Seq<u8>,
    pub signature: Seq<u8>,
}

impl PacketModel {
    /// The flags byte on the wire: `HAS_RECIPIENT` is set exactly when there is a recipient.
    pub open spec fn effective_flags(self) -> u8 {
        if self.recipient is Some {
            (self.flags & !HAS_RECIPIENT) | HAS_RECIPIENT
        } else {
            self.flags & !HAS_RECIPIENT
        }
    }

    /// The recipient bytes on the wire (none for a broadcast).
    pub open spec fn recipient_bytes(self) -> Seq<u8> {
        match self.recipient {
            Some(r) => r,
            None => Seq::empty(),
        }
    }

    /// Header and payload, with the TTL byte written as `ttl`.
    pub open spec fn body(self, ttl: u8) -> Seq<u8> {
        seq![self.version, self.msg_type.code(), self.effective_flags(), ttl] + u64_be(
            self.timestamp_ms,
        ) + self.sender + self.recipient_bytes() + u16_be(self.payload.len()) + self.payload
    }

    /// The bytes the signature covers: the body with TTL zero, without the signature trailer.
    pub open spec fn signed_region(self) -> Seq<u8> {
        self.body(0)
    }

    /// The full wire encoding.
    pub open spec fn encoding(self) -> Seq<u8> {
        self.body(self.ttl) + self.signature
    }

    /// The dedup digest: the first 8 bytes of SHA-256 over the signature.
    pub open spec fn digest(self) -> Seq<u8> {
        sha256(self.signature).subrange(0, 8)
    }

    /// A packet whose encoding decodes back to it.
    pub open spec fn is_canonical(self) -> bool {
        &&& self.version == PROTOCOL_VERSION
        &&& self.msg_type.is_canonical()
        &&& self.flags & HAS_RECIPIENT == 0
        &&& self.sender.len() == 8
        &&& (self.recipient matches Some(r) ==> r.len() == 8)
        &&& self.payload.len() <= 0xffff
        &&& self.signature.len() == 64
    }

    /// The same packet with another TTL.
    pub open spec fn with_ttl(self, ttl: u8) -> PacketModel {
        PacketModel { ttl, ..self }
    }
}

/// The payload length declared at `off`.
pub open spec fn declared_len(b: Seq<u8>, off: int) -> int {
    b[off] as int * 256 + b[off + 1] as int
}

/// Whether the flags byte announces a recipient.
pub open spec fn flags_have_recipient(f: u8) -> bool {
    f & HAS_RECIPIENT != 0
}

/// What decoding a byte string yields: the checks in order (short header, version, recipient,
/// length field, declared length, trailing bytes), then the fields at their offsets.
pub open spec fn spec_decode(b: Seq<u8>) -> Result<PacketModel, WireError> {
    let have = b.len() as usize;
    if b.len() < MIN_HEADER {
        Err(WireError::Short { need: MIN_HEADER, have })
    } else if b[0] != PROTOCOL_VERSION {
        Err(WireError::BadVersion(b[0]))
    } else {
        let has_r = flags_have_recipient(b[2]);
        let off: int = if has_r {
            28
        } else {
            20
        };
        if has_r && b.len() < 28 {
            Err(WireError::Short { need: 28, have })
        } else if b.len() < off + 2 {
            Err(WireError::Short { need: (off + 2) as usize, have })
        } else {
            let plen = declared_len(b, off);
            let remaining = b.len() - (off + 2);
            if plen + 64 > remaining {
                Err(WireError::BadLength { declared: plen as usize, remaining: remaining as usize })
            } else if off + 2 + plen + 64 != b.len() {
                Err(WireError::Trailing((b.len() - (off + 2 + plen + 64)) as usize))
            } else {
                Ok(
                    PacketModel {
                        version: b[0],
                        msg_type: MsgType::of_code(b[1]),
                        flags: b[2] & !HAS_RECIPIENT,
                        ttl: b[3],
                        timestamp_ms: be_u64_of(b.subrange(4, 12)),
                        sender: b.subrange(12, 20),
                        recipient: if has_r {
                            Some(b.subrange(20, 28))
                        } else {
                            None
                        },
                        payload: b.subrange(off + 2, off + 2 + plen),
                        signature: b.subrange(off + 2 + plen, b.len() as int),
                    },
                )
            }
        }
    }
}

/// A fully-formed packet. Build with [`Packet::new`], fill the signature with [`Packet::sign`],
/// then [`Packet::encode`]. Decode untrusted bytes with [`Packet::decode`].
#[derive(Debug, Clone, PartialEq, Eq)]
pub struct Packet {
    pub version: u8,
    pub msg_type: MsgType,
    pub flags: u8,
    pub ttl: u8,
    pub timestamp_ms: u64,
    pub sender: EphId,
    pub recipient: Option<EphId>,
    pub payload: Vec<u8>,
    /// 64-byte Ed25519 signature; all zero until [`Packet::sign`] is called.
    pub signature: [u8; 64],
}

impl View for Packet {
    type V = PacketModel;

    open spec fn view(&self) -> PacketModel {
        PacketModel {
            version: self.version,
            msg_type: self.msg_type,
            flags: self.flags,
            ttl: self.ttl,
            timestamp_ms: self.timestamp_ms,
            sender: self.sender@,
            recipient: match self.recipient {
                Some(r) => Some(r@),
                None => None,
            },
            payload: self.payload@,
            signature: self.signature@,
        }
    }
}

proof fn lemma_effective_flags_bits(f: u8)
    ensures
        ((f & !HAS_RECIPIENT) | HAS_RECIPIENT) & HAS_RECIPIENT != 0,
        (f & !HAS_RECIPIENT) & HAS_RECIPIENT == 0,
        ((f & !HAS_RECIPIENT) | HAS_RECIPIENT) & !HAS_RECIPIENT == f & !HAS_RECIPIENT,
        (f & !HAS_RECIPIENT) & !HAS_RECIPIENT == f & !HAS_RECIPIENT,
        f & HAS_RECIPIENT == 0 ==> f & !HAS_RECIPIENT == f,
        f & HAS_RECIPIENT != 0 ==> (f & !HAS_RECIPIENT) | HAS_RECIPIENT == f,
{
    assert(((f & !1u8) | 1u8) & 1u8 != 0) by (bit_vector);
    assert((f & !1u8) & 1u8 == 0) by (bit_vector);
    assert(((f & !1u8) | 1u8) & !1u8 == f & !1u8) by (bit_vector);
    assert((f & !1u8) & !1u8 == f & !1u8) by (bit_vector);
    assert(f & 1u8 == 0 ==> f & !1u8 == f) by (bit_vector);
    assert(f & 1u8 != 0 ==> (f & !1u8) | 1u8 == f) by (bit_vector);
}

/// Decoding the encoding of a canonical packet gives the packet back.
pub proof fn law_decode_encode(m: PacketModel)
    requires
        m.is_canonical(),
    ensures
        spec_decode(m.encoding()) == Ok::<PacketModel, WireError>(m),
{
    let e = m.encoding();
    let has_r = m.recipient is Some;
    let off: int = if has_r {
        28
    } else {
        20
    };
    let plen = m.payload.len() as int;
    lemma_effective_flags_bits(m.flags);
    lemma_u64_be_roundtrip(m.timestamp_ms);
    assert(e.len() == off + 2 + plen + 64);
    assert(e[0] == m.version);
    assert(e[1] == m.msg_type.code());
    assert(e[2] == m.effective_flags());
    assert(e[3] == m.ttl);
    assert(flags_have_recipient(e[2]) == has_r);
    assert(e.subrange(4, 12) =~= u64_be(m.timestamp_ms));
    assert(e.subrange(12, 20) =~= m.sender);
    if has_r {
        assert(e.subrange(20, 28) =~= m.recipient->0);
    }
    assert(e[off] == ((plen / 256) % 256) as u8);
    assert(e[off + 1] == (plen % 256) as u8);
    assert(declared_len(e, off) == plen);
    assert(e.subrange(off + 2, off + 2 + plen) =~= m.payload);
    assert(e.subrange(off + 2 + plen, e.len() as int) =~= m.signature);
    let d = spec_decode(e);
    assert(d is Ok);
    let dm = d->Ok_0;
    assert(dm.flags == m.flags);
    assert(dm.recipient == m.recipient);
    assert(dm == m);
}

/// Any byte string that decodes is exactly the encoding of what it decodes to.
pub proof fn law_encode_decode(b: Seq<u8>)
    requires
        spec_decode(b) is Ok,
    ensures
        spec_decode(b)->Ok_0.encoding() == b,
        spec_decode(b)->Ok_0.is_canonical(),
{
    let m = spec_decode(b)->Ok_0;
    let has_r = flags_have_recipient(b[2]);
    let off: int = if has_r {
        28
    } else {
        20
    };
    let plen = declared_len(b, off);
    lemma_effective_flags_bits(b[2]);
    lemma_be_u64_bytes_roundtrip(b.subrange(4, 12));
    assert(m.effective_flags() == b[2]);
    assert(m.flags & HAS_RECIPIENT == 0);
    assert(m.payload.len() == plen);
    assert(u16_be(plen as nat) =~= b.subrange(off, off + 2));
    let e = m.encoding();
    assert(e.len() == b.len());
    assert forall|i: int| 0 <= i < b.len() implies e[i] == b[i] by {
        if i < 4 {
        } else if i < 12 {
            assert(u64_be(m.timestamp_ms)[i - 4] == b.subrange(4, 12)[i - 4]);
        } else if i < 20 {
        } else if i < off {
        } else if i < off + 2 {
            assert(u16_be(m.payload.len())[i - off] == b.subrange(off, off + 2)[i - off]);
        } else {
        }
    }
    assert(e =~= b);
}

/// The signature does not cover the TTL: a relay that changes it leaves the signed bytes and the
/// dedup digest unchanged.
pub proof fn law_ttl_outside_signature(m: PacketModel, ttl: u8)
    ensures
        m.with_ttl(ttl).signed_region() == m.signed_region(),
        m.with_ttl(ttl).digest() == m.digest(),
{
}

impl Packet {
    /// Build an unsigned packet (version 1, flags zero, all-zero signature).
    pub fn new(
        msg_type: MsgType,
        ttl: u8,
        timestamp_ms: u64,
        sender: EphId,
        recipient: Option<EphId>,
        payload: Vec<u8>,
    ) -> (p: Packet)
        ensures
            p.version == PROTOCOL_VERSION,
            p.msg_type == msg_type,
            p.flags == 0,
            p.ttl == ttl,
            p.timestamp_ms == timestamp_ms,
            p.sender == sender,
            p.recipient == recipient,
            p.payload@ == payload@,
            forall|i: int| 0 <= i < 64 ==> p.signature@[i] == 0,
    {
        Packet {
            version: PROTOCOL_VERSION,
            msg_type,
            flags: 0,
            ttl,
            timestamp_ms,
            sender,
            recipient,
            payload,
            signature: [0u8; 64],
        }
    }

    fn effective_flags(&self) -> (f: u8)
        ensures
            f == self@.effective_flags(),
    {
        let mut f = self.flags & !HAS_RECIPIENT;
        if self.recipient.is_some() {
            f = f | HAS_RECIPIENT;
        }
        f
    }

    /// Append the header and payload, writing `ttl` in the TTL position.
    fn write_body(&self, buf: &mut Vec<u8>, ttl: u8)
        ensures
            final(buf)@ == old(buf)@ + self@.body(ttl),
    {
        let ghost start = buf@;
        buf.push(self.version);
        buf.push(self.msg_type.to_u8());
        buf.push(self.effective_flags());
        buf.push(ttl);
        push_u64_be(buf, self.timestamp_ms);
        append_bytes(buf, &self.sender);
        if let Some(r) = self.recipient {
            append_bytes(buf, &r);
        }
        push_u16_be(buf, self.payload.len());
        append_bytes(buf, self.payload.as_slice());
        assert(buf@ =~= start + self@.body(ttl));
    }

    /// The bytes covered by the signature (TTL forced to zero, no signature trailer).
    pub fn signed_region(&self) -> (out: Vec<u8>)
        ensures
            out@ == self@.signed_region(),
    {
        let mut buf = Vec::new();
        self.write_body(&mut buf, 0);
        assert(buf@ =~= self@.signed_region());
        buf
    }

    /// Sign in place with the node's 32-byte Ed25519 secret key.
    pub fn sign(&mut self, secret: &[u8; 32])
        ensures
            final(self)@ == (PacketModel {
                signature: ed25519_signature(secret@, old(self)@.signed_region()),
                ..old(self)@
            }),
    {
        let region = self.signed_region();
        self.signature = ed25519_sign(secret, region.as_slice());
    }

    /// Verify the signature against a claimed 32-byte Ed25519 public key.
    pub fn verify(&self, public: &[u8; 32]) -> (r: Result<(), WireError>)
        ensures
            r is Ok <==> ed25519_accepts(public@, self@.signed_region(), self@.signature),
            r matches Err(e) ==> e == WireError::BadSignature,
            forall|secret: Seq<u8>|
                secret.len() == 32 && public@ == #[trigger] ed25519_public(secret)
                    && self@.signature == ed25519_signature(secret, self@.signed_region())
                    ==> r is Ok,
    {
        let region = self.signed_region();
        if ed25519_verify(public, region.as_slice(), &self.signature) {
            Ok(())
        } else {
            Err(WireError::BadSignature)
        }
    }

    /// Full wire encoding: the real TTL and the signature trailer.
    pub fn encode(&self) -> (out: Vec<u8>)
        ensures
            out@ == self@.encoding(),
    {
        let mut buf = Vec::new();
        self.write_body(&mut buf, self.ttl);
        append_bytes(&mut buf, &self.signature);
        assert(buf@ =~= self@.encoding());
        buf
    }

    /// Parse untrusted bytes. Rejects unknown versions; preserves unknown types.
    pub fn decode(bytes: &[u8]) -> (res: Result<Packet, WireError>)
        ensures
            res matches Ok(p) ==> spec_decode(bytes@) == Ok::<PacketModel, WireError>(p@),
            res matches Err(e) ==> spec_decode(bytes@) == Err::<PacketModel, WireError>(e),
    {
        let have = bytes.len();
        if have < MIN_HEADER {
            return Err(WireError::Short { need: MIN_HEADER, have });
        }
        let version = bytes[0];
        if version != PROTOCOL_VERSION {
            return Err(WireError::BadVersion(version));
        }
        let msg_type = MsgType::from_u8(bytes[1]);
        let flags = bytes[2];
        let ttl = bytes[3];
        let timestamp_ms = read_u64_be(bytes, 4);
        let sender = read_array8(bytes, 12);
        let mut off: usize = 20;
        let recipient = if flags & HAS_RECIPIENT != 0 {
            if have < 28 {
                return Err(WireError::Short { need: 28, have });
            }
            off = 28;
            Some(read_array8(bytes, 20))
        } else {
            None
        };
        if have < off + 2 {
            return Err(WireError::Short { need: off + 2, have });
        }
        let payload_len = (bytes[off] as usize) * 256 + (bytes[off + 1] as usize);
        let remaining = have - (off + 2);
        if payload_len + SIG_LEN > remaining {
            return Err(WireError::BadLength { declared: payload_len, remaining });
        }
        let start = off + 2;
        if start + payload_len + SIG_LEN != have {
            return Err(WireError::Trailing(have - (start + payload_len + SIG_LEN)));
        }
        let payload = vstd::slice::slice_to_vec(
            vstd::slice::slice_subrange(bytes, start, start + payload_len),
        );
        let signature = read_array64(bytes, start + payload_len);
        let p = Packet {
            version,
            msg_type,
            flags: flags & !HAS_RECIPIENT,
            ttl,
            timestamp_ms,
            sender,
            recipient,
            payload,
            signature,
        };
        assert(p@ == spec_decode(bytes@)->Ok_0);
        Ok(p)
    }

    /// The 8-byte dedup digest: the first 8 bytes of SHA-256 over the signature. Stable across
    /// relays because the signature does not cover the TTL.
    pub fn digest(&self) -> (d: [u8; 8])
        ensures
            d@ == self@.digest(),
    {
        let hash = sha256_digest(&self.signature);
        let d = read_array8(&hash, 0);
        d
    }
}

} // verus!
