//! The payload layouts carried inside packets: announces, channel messages and sync filters.
//!
//! ```text
//! announce: ed25519_pub(32) | x25519_pub(32) | nick_len(1) | nick
//! channel:  flag_compressed(1) | chan_len(1) | chan | text (LZ4-framed when flagged)
//! sync:     chan_len(1) | chan | digest(8)*
//! ```
//! Decoding never panics: anything malformed decodes to `None`.

use vstd::prelude::*;
use vstd::utf8::{decode_utf8, encode_utf8, valid_utf8};

use crate::bytes::{append_bytes, read_array32, read_array8};
use crate::channels::SyncFilter;
use crate::compress::{decompress, framed, maybe_compress, spec_decompress, spec_maybe_compress};
use crate::config::Tunables;
use crate::text::{from_utf8_lossy, utf8_lossy};

verus! {

broadcast use {vstd::utf8::encode_utf8_valid_utf8, vstd::utf8::encode_utf8_decode_utf8};

/// The longest nickname an announce carries, in bytes.
pub const MAX_NICK: usize = 24;

/// `min(n, cap)`.
pub open spec fn capped(n: nat, cap: nat) -> nat {
    if n < cap {
        n
    } else {
        cap
    }
}

/// The announce payload for the given keys and nickname bytes.
pub open spec fn announce_payload(ed: Seq<u8>, dh: Seq<u8>, nick: Seq<u8>) -> Seq<u8> {
    let n = capped(nick.len(), MAX_NICK as nat);
    ed + dh + seq![n as u8] + nick.take(n as int)
}

/// What an announce payload decodes to: the two keys and the nickname.
pub open spec fn spec_decode_announce(p: Seq<u8>) -> Option<(Seq<u8>, Seq<u8>, Seq<char>)> {
    if p.len() < 65 {
        None
    } else if 65 + p[64] > p.len() {
        None
    } else {
        Some((p.subrange(0, 32), p.subrange(32, 64), utf8_lossy(p.subrange(65, 65 + p[64]))))
    }
}

/// Announce payload: `ed25519_pub(32) ‖ x25519_pub(32) ‖ nick_len(1) ‖ nick`. The X25519 key lets
/// peers bind a future Noise session to this signed identity. Nicknames are cut to 24 bytes.
pub fn encode_announce(ed_pub: &[u8; 32], dh_pub: &[u8; 32], nick: &str) -> (out: Vec<u8>)
    ensures
        out@ == announce_payload(ed_pub@, dh_pub@, encode_utf8(nick@)),
{
    let nick_bytes = nick.as_bytes();
    let n: usize = if nick_bytes.len() < MAX_NICK {
        nick_bytes.len()
    } else {
        MAX_NICK
    };
    let mut out: Vec<u8> = Vec::new();
    append_bytes(&mut out, ed_pub);
    append_bytes(&mut out, dh_pub);
    out.push(n as u8);
    let (head, _) = nick_bytes.split_at(n);
    append_bytes(&mut out, head);
    assert(out@ =~= announce_payload(ed_pub@, dh_pub@, encode_utf8(nick@)));
    out
}

pub fn decode_announce(payload: &[u8]) -> (r: Option<([u8; 32], [u8; 32], String)>)
    ensures
        r is Some <==> spec_decode_announce(payload@) is Some,
        r matches Some((ed, dh, nick)) ==> spec_decode_announce(payload@) == Some::<
            (Seq<u8>, Seq<u8>, Seq<char>),
        >((ed@, dh@, nick@)),
{
    if payload.len() < 65 {
        return None;
    }
    let ed = read_array32(payload, 0);
    let dh = read_array32(payload, 32);
    let n = payload[64] as usize;
    if 65 + n > payload.len() {
        return None;
    }
    let (_, rest) = payload.split_at(65);
    let (nick_bytes, _) = rest.split_at(n);
    assert(nick_bytes@ =~= payload@.subrange(65, 65 + payload@[64]));
    let nick = from_utf8_lossy(nick_bytes);
    Some((ed, dh, nick))
}

/// A nickname of at most 24 bytes survives an announce unchanged, with both keys.
pub proof fn law_announce_roundtrip(ed: Seq<u8>, dh: Seq<u8>, nick: Seq<char>)
    requires
        ed.len() == 32,
        dh.len() == 32,
        encode_utf8(nick).len() <= MAX_NICK,
    ensures
        spec_decode_announce(announce_payload(ed, dh, encode_utf8(nick))) == Some::<
            (Seq<u8>, Seq<u8>, Seq<char>),
        >((ed, dh, utf8_lossy(encode_utf8(nick)))),
        valid_utf8(encode_utf8(nick)) && decode_utf8(encode_utf8(nick)) == nick,
{
    let nb = encode_utf8(nick);
    let p = announce_payload(ed, dh, nb);
    assert(nb.take(nb.len() as int) =~= nb);
    assert(p.subrange(0, 32) =~= ed);
    assert(p.subrange(32, 64) =~= dh);
    assert(p[64] == nb.len());
    assert(p.subrange(65, 65 + p[64]) =~= nb);
}

/// The channel payload for a channel name and text, both as bytes.
pub open spec fn channel_payload(chan: Seq<u8>, text: Seq<u8>, cfg: Tunables) -> Seq<u8> {
    let clen = capped(chan.len(), 255);
    let (flag, body) = match spec_maybe_compress(text, cfg) {
        Some(c) => (1u8, c),
        None => (0u8, text),
    };
    seq![flag, clen as u8] + chan.take(clen as int) + body
}

/// What a channel payload decodes to: the channel name and the text.
pub open spec fn spec_decode_channel(p: Seq<u8>, cfg: Tunables) -> Option<(Seq<char>, Seq<char>)> {
    if p.len() < 2 {
        None
    } else if 2 + p[1] > p.len() {
        None
    } else {
        let channel = utf8_lossy(p.subrange(2, 2 + p[1]));
        let body = p.skip(2 + p[1]);
        if p[0] == 1 {
            match spec_decompress(body, cfg) {
                Ok(t) => Some((channel, utf8_lossy(t))),
                Err(_) => None,
            }
        } else {
            Some((channel, utf8_lossy(body)))
        }
    }
}

/// Channel payload: `[flag_compressed(1)][chan_len(1)][chan][text...]`, text optionally LZ4'd.
pub fn encode_channel(channel: &str, text: &str, cfg: &Tunables) -> (out: Vec<u8>)
    ensures
        out@ == channel_payload(encode_utf8(channel@), encode_utf8(text@), *cfg),
{
    let chan = channel.as_bytes();
    let clen: usize = if chan.len() < 255 {
        chan.len()
    } else {
        255
    };
    let text_bytes = text.as_bytes();
    let (flag, body): (u8, Vec<u8>) = match maybe_compress(text_bytes, cfg) {
        Some(c) => (1u8, c),
        None => (0u8, crate::bytes::copy_bytes(text_bytes)),
    };
    let mut out: Vec<u8> = Vec::new();
    out.push(flag);
    out.push(clen as u8);
    let (head, _) = chan.split_at(clen);
    append_bytes(&mut out, head);
    append_bytes(&mut out, body.as_slice());
    assert(out@ =~= channel_payload(encode_utf8(channel@), encode_utf8(text@), *cfg));
    out
}

/// Decode a channel payload. A channel message survives its payload: a channel name of at most
/// 255 bytes and any text that, once compressed, fits the decompression cap decode back unchanged.
pub fn decode_channel(payload: &[u8], cfg: &Tunables) -> (r: Option<(String, String)>)
    ensures
        r is Some <==> spec_decode_channel(payload@, *cfg) is Some,
        r matches Some((c, t)) ==> spec_decode_channel(payload@, *cfg) == Some::<
            (Seq<char>, Seq<char>),
        >((c@, t@)),
        forall|cb: Seq<u8>, tb: Seq<u8>|
            #[trigger] channel_payload(cb, tb, *cfg) == payload@ && cb.len() <= 255 && tb.len()
                <= cfg.decompress_max_bytes && tb.len() <= u32::MAX ==> (r matches Some((c, t))
                && c@ == utf8_lossy(cb) && t@ == utf8_lossy(tb)),
{
    proof {
        assert forall|cb: Seq<u8>, tb: Seq<u8>|
            #[trigger] channel_payload(cb, tb, *cfg) == payload@ && cb.len() <= 255 && tb.len()
                <= cfg.decompress_max_bytes && tb.len() <= u32::MAX implies payload@.len() >= 2
            && payload@[1] == cb.len() && payload@.subrange(2, 2 + payload@[1]) == cb && (
        if payload@[0] == 1 {
            payload@.skip(2 + payload@[1]) == framed(tb)
        } else {
            payload@.skip(2 + payload@[1]) == tb
        }) by {
            let p = channel_payload(cb, tb, *cfg);
            assert(cb.take(cb.len() as int) =~= cb);
            assert(p.subrange(2, 2 + cb.len() as int) =~= cb);
            match spec_maybe_compress(tb, *cfg) {
                Some(c) => {
                    assert(p.skip(2 + cb.len() as int) =~= c);
                },
                None => {
                    assert(p.skip(2 + cb.len() as int) =~= tb);
                },
            }
        }
    }
    if payload.len() < 2 {
        return None;
    }
    let compressed = payload[0];
    let clen = payload[1] as usize;
    if 2 + clen > payload.len() {
        return None;
    }
    let (_, rest) = payload.split_at(2);
    let (chan_bytes, body) = rest.split_at(clen);
    assert(chan_bytes@ =~= payload@.subrange(2, 2 + payload@[1]));
    assert(body@ =~= payload@.skip(2 + payload@[1]));
    let channel = from_utf8_lossy(chan_bytes);
    if compressed == 1 {
        match decompress(body, cfg) {
            Ok(t) => Some((channel, from_utf8_lossy(t.as_slice()))),
            Err(_) => None,
        }
    } else {
        Some((channel, from_utf8_lossy(body)))
    }
}

/// The sync payload for a filter's channel name (bytes) and digests.
pub open spec fn sync_payload(chan: Seq<u8>, digests: Seq<[u8; 8]>) -> Seq<u8> {
    let clen = capped(chan.len(), 255);
    seq![clen as u8] + chan.take(clen as int) + digests_bytes(digests)
}

/// The digests laid end to end.
pub open spec fn digests_bytes(d: Seq<[u8; 8]>) -> Seq<u8>
    decreases d.len(),
{
    if d.len() == 0 {
        Seq::empty()
    } else {
        digests_bytes(d.drop_last()) + d.last()@
    }
}

/// The whole eight-byte chunks of `b`.
pub open spec fn chunks8(b: Seq<u8>) -> Seq<Seq<u8>> {
    Seq::new(b.len() / 8, |i: int| b.subrange(8 * i, 8 * i + 8))
}

/// What a sync payload decodes to, before the filter is normalized: the channel name and the
/// digest chunks (trailing bytes short of a chunk are ignored).
pub open spec fn spec_decode_sync(p: Seq<u8>) -> Option<(Seq<char>, Seq<Seq<u8>>)> {
    if p.len() == 0 {
        None
    } else if 1 + p[0] > p.len() {
        None
    } else {
        Some((utf8_lossy(p.subrange(1, 1 + p[0])), chunks8(p.skip(1 + p[0]))))
    }
}

proof fn lemma_digests_bytes(d: Seq<[u8; 8]>)
    ensures
        digests_bytes(d).len() == 8 * d.len(),
        forall|i: int| 0 <= i < d.len() ==> #[trigger] digests_bytes(d).subrange(8 * i, 8 * i + 8) == d[i]@,
    decreases d.len(),
{
    if d.len() > 0 {
        let p = d.drop_last();
        lemma_digests_bytes(p);
        let x = d.last()@;
        assert(digests_bytes(d) == digests_bytes(p) + x);
        assert forall|i: int| 0 <= i < d.len() implies #[trigger] digests_bytes(d).subrange(8 * i, 8 * i + 8) == d[i]@ by {
            if i < p.len() {
                assert(digests_bytes(d).subrange(8 * i, 8 * i + 8) =~= digests_bytes(p).subrange(8 * i, 8 * i + 8));
                assert(p[i] == d[i]);
            } else {
                assert(digests_bytes(d).subrange(8 * i, 8 * i + 8) =~= x);
            }
        }
    }
}

/// A channel name of at most 255 bytes and any digests survive a sync payload: the name comes
/// back (as valid UTF-8 it decodes to itself) and the digests come back in order.
pub proof fn law_sync_roundtrip(c: Seq<char>, ds: Seq<[u8; 8]>)
    requires
        encode_utf8(c).len() <= 255,
    ensures
        spec_decode_sync(sync_payload(encode_utf8(c), ds)) == Some::<(Seq<char>, Seq<Seq<u8>>)>(
            (utf8_lossy(encode_utf8(c)), Seq::new(ds.len(), |i: int| ds[i]@)),
        ),
        valid_utf8(encode_utf8(c)) && decode_utf8(encode_utf8(c)) == c,
{
    let cb = encode_utf8(c);
    let p = sync_payload(cb, ds);
    lemma_digests_bytes(ds);
    assert(cb.take(cb.len() as int) =~= cb);
    assert(p[0] == cb.len());
    assert(p.subrange(1, 1 + p[0]) =~= cb);
    assert(p.skip(1 + p[0]) =~= digests_bytes(ds));
    assert(chunks8(digests_bytes(ds)) =~= Seq::new(ds.len(), |i: int| ds[i]@));
}

/// The ordering keys of digest chunks.
pub open spec fn chunk_keys(chunks: Seq<Seq<u8>>) -> Seq<u64> {
    Seq::new(chunks.len(), |j: int| crate::bytes::be_u64_of(chunks[j]))
}

/// Sync payload: `[chan_len(1)][chan][digest*8...]`.
pub fn encode_sync(filter: &SyncFilter) -> (out: Vec<u8>)
    ensures
        out@ == sync_payload(encode_utf8(filter.channel@), filter.digests@),
{
    let chan = filter.channel.as_str().as_bytes();
    let clen: usize = if chan.len() < 255 {
        chan.len()
    } else {
        255
    };
    let mut out: Vec<u8> = Vec::new();
    out.push(clen as u8);
    let (head, _) = chan.split_at(clen);
    append_bytes(&mut out, head);
    let ghost prefix = out@;
    let mut i: usize = 0;
    while i < filter.digests.len()
        invariant
            i <= filter.digests@.len(),
            out@ == prefix + digests_bytes(filter.digests@.subrange(0, i as int)),
        decreases filter.digests@.len() - i,
    {
        append_bytes(&mut out, &filter.digests[i]);
        proof {
            assert(filter.digests@.subrange(0, i + 1).drop_last() =~= filter.digests@.subrange(0, i as int));
        }
        i = i + 1;
    }
    assert(filter.digests@.subrange(0, i as int) =~= filter.digests@);
    assert(out@ =~= sync_payload(encode_utf8(filter.channel@), filter.digests@));
    out
}

/// Parse a sync payload into a (sorted, deduplicated) filter.
pub fn decode_sync(payload: &[u8]) -> (r: Option<SyncFilter>)
    ensures
        r is Some <==> spec_decode_sync(payload@) is Some,
        r matches Some(f) ==> {
            let (c, chunks) = spec_decode_sync(payload@)->Some_0;
            &&& f.channel@ == c
            &&& crate::channels::strictly_sorted(f.digests@)
            &&& forall|i: int| 0 <= i < f.digests@.len() ==> chunks.contains(#[trigger] f.digests@[i]@)
            &&& crate::channels::keys(f.digests@).to_set() == chunk_keys(chunks).to_set()
        },
{
    if payload.len() == 0 {
        return None;
    }
    let clen = payload[0] as usize;
    if 1 + clen > payload.len() {
        return None;
    }
    let (_, rest0) = payload.split_at(1);
    let (chan_bytes, rest) = rest0.split_at(clen);
    assert(chan_bytes@ =~= payload@.subrange(1, 1 + payload@[0]));
    assert(rest@ =~= payload@.skip(1 + payload@[0]));
    let channel = from_utf8_lossy(chan_bytes);
    let ghost chunks = chunks8(rest@);
    let n = rest.len() / 8;
    let mut digests: Vec<[u8; 8]> = Vec::new();
    let mut i: usize = 0;
    while i < n
        invariant
            i <= n,
            n == rest@.len() / 8,
            chunks == chunks8(rest@),
            digests@.len() == i,
            forall|j: int| 0 <= j < i ==> #[trigger] digests@[j]@ == chunks[j],
        decreases n - i,
    {
        assert(8 * i + 8 <= rest@.len()) by (nonlinear_arith)
            requires
                i < n,
                n == rest@.len() / 8,
        ;
        assert(rest@.len() == rest.len());
        let off: usize = 8 * i;
        let d = read_array8(rest, off);
        digests.push(d);
        i = i + 1;
    }
    let f = SyncFilter::new(channel, digests);
    proof {
        assert forall|i: int| 0 <= i < f.digests@.len() implies chunks.contains(#[trigger] f.digests@[i]@) by {
            assert(digests@.contains(f.digests@[i]));
            let j = choose|j: int| 0 <= j < digests@.len() && digests@[j] == f.digests@[i];
            assert(chunks[j] == f.digests@[i]@);
        }
        assert(crate::channels::keys(digests@) =~= chunk_keys(chunks));
    }
    Some(f)
}

} // verus!
