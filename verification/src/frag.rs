//! Link-layer framing: splitting a packet's encoded bytes into BLE-sized frames and reassembling
//! them.
//!
//! ```text
//! Complete (0x01): kind(1) | packet_bytes...
//! Fragment (0x02): kind(1) | digest(8) | index(2) | total(2) | chunk...
//! ```

use vstd::prelude::*;

use std::collections::BTreeMap;

use crate::bytes::{append_bytes, be_u64_of, push_u16_be, read_array8, u16_be};
use crate::clock::Millis;
use crate::config::Tunables;
use crate::error::FragError;

verus! {

broadcast use vstd::std_specs::btree::group_btree_axioms;

pub const KIND_COMPLETE: u8 = 0x01;

pub const KIND_FRAGMENT: u8 = 0x02;

/// kind + digest + index + total.
pub const FRAG_HEADER: usize = 13;

/// The consecutive pieces `bytes` is cut into, each `chunk` long except possibly the last.
pub open spec fn pieces(b: Seq<u8>, chunk: nat) -> Seq<Seq<u8>>
    decreases b.len(),
{
    if chunk == 0 || b.len() <= chunk {
        seq![b]
    } else {
        seq![b.take(chunk as int)] + pieces(b.skip(chunk as int), chunk)
    }
}

/// A complete frame carrying a whole packet.
pub open spec fn complete_frame(b: Seq<u8>) -> Seq<u8> {
    seq![KIND_COMPLETE] + b
}

/// A fragment frame.
pub open spec fn fragment_frame(digest: Seq<u8>, index: nat, total: nat, piece: Seq<u8>) -> Seq<u8> {
    seq![KIND_FRAGMENT] + digest + u16_be(index) + u16_be(total) + piece
}

/// The frames `split` produces: one complete frame when the packet fits, else one fragment per
/// piece, all sharing `digest`.
pub open spec fn spec_split(b: Seq<u8>, digest: Seq<u8>, mtu: usize) -> Result<
    Seq<Seq<u8>>,
    FragError,
> {
    if mtu <= FRAG_HEADER {
        Err(FragError::MtuTooSmall(mtu))
    } else if b.len() < mtu {
        Ok(seq![complete_frame(b)])
    } else {
        let chunk = (mtu - FRAG_HEADER) as nat;
        let ps = pieces(b, chunk);
        if ps.len() > 0xffff {
            Err(FragError::TooLarge { cap: (chunk * 0xffff) as usize })
        } else {
            Ok(Seq::new(ps.len(), |i: int| fragment_frame(digest, i as nat, ps.len(), ps[i])))
        }
    }
}

pub proof fn lemma_pieces_len(b: Seq<u8>, chunk: nat)
    requires
        chunk > 0,
        b.len() > 0,
    ensures
        pieces(b, chunk).len() == (b.len() - 1) as nat / chunk + 1,
    decreases b.len(),
{
    if b.len() <= chunk {
        assert((b.len() - 1) as nat / chunk == 0) by (nonlinear_arith)
            requires
                0 <= b.len() - 1 < chunk,
        ;
    } else {
        lemma_pieces_len(b.skip(chunk as int), chunk);
        let x = (b.len() - 1 - chunk) as nat;
        assert((x + chunk) / chunk == x / chunk + 1) by (nonlinear_arith)
            requires
                chunk > 0,
        ;
    }
}

/// Concatenating the pieces gives the bytes back; every piece is at most `chunk` long and all
/// but the last are exactly `chunk` long.
pub proof fn lemma_pieces_concat(b: Seq<u8>, chunk: nat)
    requires
        chunk > 0,
    ensures
        concat(pieces(b, chunk)) == b,
        forall|i: int| 0 <= i < pieces(b, chunk).len() ==> #[trigger] pieces(b, chunk)[i].len() <= chunk,
    decreases b.len(),
{
    let ps = pieces(b, chunk);
    if b.len() <= chunk {
        assert(ps.drop_last() =~= Seq::<Seq<u8>>::empty());
        assert(concat(ps.drop_last()) == Seq::<u8>::empty());
        assert(concat(ps) =~= b);
    } else {
        let rest = pieces(b.skip(chunk as int), chunk);
        lemma_pieces_concat(b.skip(chunk as int), chunk);
        lemma_concat_prepend(b.take(chunk as int), rest);
        assert(ps =~= seq![b.take(chunk as int)] + rest);
        assert(b.take(chunk as int) + b.skip(chunk as int) =~= b);
    }
}

/// The concatenation of a sequence of byte strings.
pub open spec fn concat(s: Seq<Seq<u8>>) -> Seq<u8>
    decreases s.len(),
{
    if s.len() == 0 {
        Seq::empty()
    } else {
        concat(s.drop_last()) + s.last()
    }
}

pub proof fn lemma_concat_prepend(x: Seq<u8>, s: Seq<Seq<u8>>)
    ensures
        concat(seq![x] + s) == x + concat(s),
    decreases s.len(),
{
    let xs = seq![x] + s;
    if s.len() == 0 {
        assert(xs.drop_last() =~= Seq::<Seq<u8>>::empty());
        assert(concat(xs.drop_last()) == Seq::<u8>::empty());
        assert(xs.last() == x);
        assert(concat(xs) =~= x + concat(s));
    } else {
        lemma_concat_prepend(x, s.drop_last());
        assert(xs.drop_last() =~= seq![x] + s.drop_last());
        assert(xs.last() == s.last());
        assert(concat(xs) == concat(seq![x] + s.drop_last()) + s.last());
        assert(concat(s) == concat(s.drop_last()) + s.last());
        assert(concat(xs) =~= x + concat(s));
    }
}

/// The view of a list of frames.
pub open spec fn frames_view(v: Seq<Vec<u8>>) -> Seq<Seq<u8>> {
    v.map_values(|f: Vec<u8>| f@)
}

/// Split encoded packet bytes into frames sized for `mtu`.
pub fn split(packet_bytes: &[u8], digest: [u8; 8], mtu: usize) -> (res: Result<
    Vec<Vec<u8>>,
    FragError,
>)
    ensures
        res matches Ok(frames) ==> spec_split(packet_bytes@, digest@, mtu) == Ok::<
            Seq<Seq<u8>>,
            FragError,
        >(frames_view(frames@)),
        res matches Err(e) ==> spec_split(packet_bytes@, digest@, mtu) == Err::<
            Seq<Seq<u8>>,
            FragError,
        >(e),
{
    if mtu <= FRAG_HEADER {
        return Err(FragError::MtuTooSmall(mtu));
    }
    let len = packet_bytes.len();
    if len < mtu {
        let mut f = Vec::new();
        f.push(KIND_COMPLETE);
        append_bytes(&mut f, packet_bytes);
        let mut frames = Vec::new();
        frames.push(f);
        assert(frames_view(frames@) =~= seq![complete_frame(packet_bytes@)]);
        return Ok(frames);
    }
    let chunk_size = mtu - FRAG_HEADER;
    let ghost b = packet_bytes@;
    let ghost ps = pieces(b, chunk_size as nat);
    proof {
        lemma_pieces_len(b, chunk_size as nat);
    }
    let total = (len - 1) / chunk_size + 1;
    if total > 0xffff {
        let ghost l1 = (len - 1) as int;
        let ghost c = chunk_size as int;
        assert(c * 0xffff <= l1) by (nonlinear_arith)
            requires
                l1 / c >= 0xffff,
                c > 0,
                l1 >= 0,
        ;
        return Err(FragError::TooLarge { cap: chunk_size * 0xffff });
    }
    let mut frames: Vec<Vec<u8>> = Vec::new();
    let mut off: usize = 0;
    let mut i: usize = 0;
    assert(b.skip(0) =~= b);
    while off < len
        invariant
            len == b.len(),
            chunk_size > 0,
            ps == pieces(b, chunk_size as nat),
            total == ps.len(),
            total <= 0xffff,
            i <= total,
            off <= len,
            off < len ==> i < total && ps.subrange(i as int, total as int) == pieces(
                b.skip(off as int),
                chunk_size as nat,
            ),
            off == len ==> i == total,
            frames_view(frames@).len() == i,
            forall|j: int|
                0 <= j < i ==> #[trigger] frames_view(frames@)[j] == fragment_frame(
                    digest@,
                    j as nat,
                    total as nat,
                    ps[j],
                ),
            packet_bytes@ == b,
        decreases len - off,
    {
        let ghost rest = b.skip(off as int);
        let end = if len - off <= chunk_size {
            len
        } else {
            off + chunk_size
        };
        let piece = vstd::slice::slice_subrange(packet_bytes, off, end);
        proof {
            assert(ps[i as int] == ps.subrange(i as int, total as int)[0]);
            if len - off <= chunk_size {
                assert(piece@ =~= rest);
                assert(pieces(rest, chunk_size as nat) =~= seq![rest]);
                assert(total - i == 1);
            } else {
                assert(pieces(rest, chunk_size as nat) =~= seq![rest.take(chunk_size as int)]
                    + pieces(rest.skip(chunk_size as int), chunk_size as nat));
                assert(pieces(rest, chunk_size as nat).skip(1) =~= pieces(
                    rest.skip(chunk_size as int),
                    chunk_size as nat,
                ));
                assert(piece@ =~= rest.take(chunk_size as int));
                assert(rest.skip(chunk_size as int) =~= b.skip(end as int));
                assert(ps.subrange(i + 1, total as int) =~= ps.subrange(i as int, total as int).skip(
                    1,
                ));
            }
        }
        let mut f = Vec::new();
        f.push(KIND_FRAGMENT);
        append_bytes(&mut f, &digest);
        push_u16_be(&mut f, i);
        push_u16_be(&mut f, total);
        append_bytes(&mut f, piece);
        assert(f@ =~= fragment_frame(digest@, i as nat, total as nat, ps[i as int]));
        let ghost before = frames@;
        frames.push(f);
        assert(frames_view(frames@) =~= frames_view(before).push(f@));
        off = end;
        i = i + 1;
    }
    assert(frames_view(frames@) =~= Seq::new(
        ps.len(),
        |j: int| fragment_frame(digest@, j as nat, ps.len(), ps[j]),
    ));
    Ok(frames)
}

/// The contents of one in-progress reassembly.
pub struct PartialModel {
    pub total: u16,
    pub chunks: Seq<Option<Seq<u8>>>,
    pub first_seen_ms: Millis,
}

/// How many chunks have arrived.
pub open spec fn received_count(c: Seq<Option<Seq<u8>>>) -> nat
    decreases c.len(),
{
    if c.len() == 0 {
        0
    } else {
        received_count(c.drop_last()) + if c.last() is Some {
            1nat
        } else {
            0nat
        }
    }
}

/// How many bytes the arrived chunks hold.
pub open spec fn held_bytes(c: Seq<Option<Seq<u8>>>) -> nat
    decreases c.len(),
{
    if c.len() == 0 {
        0
    } else {
        held_bytes(c.drop_last()) + match c.last() {
            Some(x) => x.len(),
            None => 0,
        }
    }
}

/// The arrived chunks, concatenated in index order.
pub open spec fn assembled(c: Seq<Option<Seq<u8>>>) -> Seq<u8>
    decreases c.len(),
{
    if c.len() == 0 {
        Seq::empty()
    } else {
        assembled(c.drop_last()) + match c.last() {
            Some(x) => x,
            None => Seq::empty(),
        }
    }
}

pub proof fn lemma_chunks_update(c: Seq<Option<Seq<u8>>>, i: int, x: Seq<u8>)
    requires
        0 <= i < c.len(),
        c[i] is None,
    ensures
        received_count(c.update(i, Some(x))) == received_count(c) + 1,
        held_bytes(c.update(i, Some(x))) == held_bytes(c) + x.len(),
    decreases c.len(),
{
    let u = c.update(i, Some(x));
    if i == c.len() - 1 {
        assert(u.drop_last() =~= c.drop_last());
    } else {
        lemma_chunks_update(c.drop_last(), i, x);
        assert(u.drop_last() =~= c.drop_last().update(i, Some(x)));
    }
}

pub proof fn lemma_received_bound(c: Seq<Option<Seq<u8>>>)
    ensures
        received_count(c) <= c.len(),
        received_count(c) == c.len() ==> forall|i: int| 0 <= i < c.len() ==> #[trigger] c[i] is Some,
    decreases c.len(),
{
    if c.len() > 0 {
        lemma_received_bound(c.drop_last());
        if received_count(c) == c.len() {
            assert forall|i: int| 0 <= i < c.len() implies #[trigger] c[i] is Some by {
                if i < c.len() - 1 {
                    assert(c.drop_last()[i] == c[i]);
                }
            }
        }
    }
}

pub proof fn lemma_all_none(n: nat)
    ensures
        received_count(Seq::new(n, |j: int| None::<Seq<u8>>)) == 0,
        held_bytes(Seq::new(n, |j: int| None::<Seq<u8>>)) == 0,
    decreases n,
{
    if n > 0 {
        lemma_all_none((n - 1) as nat);
        assert(Seq::new(n, |j: int| None::<Seq<u8>>).drop_last() =~= Seq::new(
            (n - 1) as nat,
            |j: int| None::<Seq<u8>>,
        ));
    }
}

impl PartialModel {
    /// A reassembly slot is consistent: one entry per fragment, at least one missing, within the
    /// byte cap.
    pub open spec fn wf(self, cap: nat) -> bool {
        &&& self.total > 0
        &&& self.chunks.len() == self.total
        &&& received_count(self.chunks) < self.total
        &&& held_bytes(self.chunks) <= cap
    }
}

/// The slot whose eviction makes room: the one seen first, ties going to the smallest key.
pub open spec fn is_oldest(m: Map<u64, PartialModel>, k: u64) -> bool {
    &&& m.contains_key(k)
    &&& forall|k2: u64|
        #![trigger m.contains_key(k2)]
        m.contains_key(k2) ==> (m[k].first_seen_ms < m[k2].first_seen_ms || (m[k].first_seen_ms
            == m[k2].first_seen_ms && k <= k2))
}

pub open spec fn oldest_key(m: Map<u64, PartialModel>) -> u64 {
    choose|k: u64| is_oldest(m, k)
}

/// The effect of one well-formed fragment (`key` is its digest, read big-endian) on the
/// reassembly slots, and what it yields.
pub open spec fn spec_ingest_fragment(
    m: Map<u64, PartialModel>,
    slots: nat,
    cap: nat,
    key: u64,
    index: u16,
    total: u16,
    chunk: Seq<u8>,
    now: Millis,
) -> (Map<u64, PartialModel>, Result<Option<Seq<u8>>, FragError>) {
    if total == 0 || index >= total {
        (m, Err(FragError::BadIndex { index, total }))
    } else {
        let m1 = if !m.contains_key(key) && m.dom().len() >= slots && m.dom().len() > 0 {
            m.remove(oldest_key(m))
        } else {
            m
        };
        let entry = if m1.contains_key(key) {
            m1[key]
        } else {
            PartialModel {
                total,
                chunks: Seq::new(total as nat, |j: int| None::<Seq<u8>>),
                first_seen_ms: now,
            }
        };
        if entry.total != total {
            (m1.remove(key), Err(FragError::BadIndex { index, total }))
        } else if entry.chunks[index as int] is Some {
            (m1.insert(key, entry), Ok(None))
        } else if held_bytes(entry.chunks) + chunk.len() > cap {
            (m1.remove(key), Err(FragError::TooLarge { cap: cap as usize }))
        } else {
            let c2 = entry.chunks.update(index as int, Some(chunk));
            if received_count(c2) == total {
                (m1.remove(key), Ok(Some(assembled(c2))))
            } else {
                (m1.insert(key, PartialModel { chunks: c2, ..entry }), Ok(None))
            }
        }
    }
}

/// The effect of any frame on the reassembly slots, and what it yields.
pub open spec fn spec_ingest(
    m: Map<u64, PartialModel>,
    slots: nat,
    cap: nat,
    frame: Seq<u8>,
    now: Millis,
) -> (Map<u64, PartialModel>, Result<Option<Seq<u8>>, FragError>) {
    if frame.len() == 0 {
        (m, Ok(None))
    } else if frame[0] == KIND_COMPLETE {
        (m, Ok(Some(frame.skip(1))))
    } else if frame[0] != KIND_FRAGMENT || frame.len() < FRAG_HEADER {
        (m, Ok(None))
    } else {
        spec_ingest_fragment(
            m,
            slots,
            cap,
            be_u64_of(frame.subrange(1, 9)),
            (frame[9] as int * 256 + frame[10] as int) as u16,
            (frame[11] as int * 256 + frame[12] as int) as u16,
            frame.skip(FRAG_HEADER as int),
            now,
        )
    }
}

/// What a frame yields does not depend on the time it arrives (time only stamps a new slot).
pub proof fn lemma_ingest_result_timeless(
    m: Map<u64, PartialModel>,
    slots: nat,
    cap: nat,
    frame: Seq<u8>,
    t1: Millis,
    t2: Millis,
)
    ensures
        spec_ingest(m, slots, cap, frame, t1).1 == spec_ingest(m, slots, cap, frame, t2).1,
{
}

/// Feed `frames` in order to reassembly slots `m`; the final slots and each frame's result.
pub open spec fn ingest_all(
    m: Map<u64, PartialModel>,
    slots: nat,
    cap: nat,
    frames: Seq<Seq<u8>>,
    now: Millis,
) -> (Map<u64, PartialModel>, Seq<Result<Option<Seq<u8>>, FragError>>)
    decreases frames.len(),
{
    if frames.len() == 0 {
        (m, Seq::empty())
    } else {
        let (m1, rs) = ingest_all(m, slots, cap, frames.drop_last(), now);
        let (m2, r) = spec_ingest(m1, slots, cap, frames.last(), now);
        (m2, rs.push(r))
    }
}

/// The chunk table after the first `k` of `ps` have arrived.
pub open spec fn chunks_after(ps: Seq<Seq<u8>>, k: int) -> Seq<Option<Seq<u8>>> {
    Seq::new(ps.len(), |j: int| if j < k { Some(ps[j]) } else { None })
}

proof fn lemma_chunks_after(ps: Seq<Seq<u8>>, k: int)
    requires
        0 <= k <= ps.len(),
    ensures
        received_count(chunks_after(ps, k)) == k,
        held_bytes(chunks_after(ps, k)) == concat(ps.take(k)).len(),
    decreases k,
{
    if k == 0 {
        lemma_all_none(ps.len());
        assert(chunks_after(ps, 0) =~= Seq::new(ps.len(), |j: int| None::<Seq<u8>>));
        assert(ps.take(0) =~= Seq::<Seq<u8>>::empty());
    } else {
        lemma_chunks_after(ps, k - 1);
        assert(chunks_after(ps, k - 1).update(k - 1, Some(ps[k - 1])) =~= chunks_after(ps, k));
        lemma_chunks_update(chunks_after(ps, k - 1), k - 1, ps[k - 1]);
        assert(ps.take(k).drop_last() =~= ps.take(k - 1));
    }
}

proof fn lemma_assembled_all(ps: Seq<Seq<u8>>)
    ensures
        assembled(chunks_after(ps, ps.len() as int)) == concat(ps),
    decreases ps.len(),
{
    if ps.len() > 0 {
        lemma_assembled_all(ps.drop_last());
        assert(chunks_after(ps, ps.len() as int).drop_last() =~= chunks_after(
            ps.drop_last(),
            ps.drop_last().len() as int,
        ));
    } else {
        assert(chunks_after(ps, 0).len() == 0);
    }
}

proof fn lemma_concat_take_len(s: Seq<Seq<u8>>, k: int)
    requires
        0 <= k <= s.len(),
    ensures
        concat(s.take(k)).len() <= concat(s).len(),
    decreases s.len(),
{
    if k < s.len() {
        lemma_concat_take_len(s.drop_last(), k);
        assert(s.drop_last().take(k) =~= s.take(k));
    } else {
        assert(s.take(k) =~= s);
    }
}

proof fn lemma_fragment_frame_fields(digest: Seq<u8>, k: nat, n: nat, piece: Seq<u8>)
    requires
        digest.len() == 8,
        k < 0x10000,
        n < 0x10000,
    ensures
        ({
            let f = fragment_frame(digest, k, n, piece);
            &&& f.len() == FRAG_HEADER + piece.len()
            &&& f[0] == KIND_FRAGMENT
            &&& f.subrange(1, 9) == digest
            &&& (f[9] as int * 256 + f[10] as int) == k
            &&& (f[11] as int * 256 + f[12] as int) == n
            &&& f.skip(FRAG_HEADER as int) == piece
        }),
{
    let f = fragment_frame(digest, k, n, piece);
    assert(f.subrange(1, 9) =~= digest);
    assert(f.skip(FRAG_HEADER as int) =~= piece);
    assert(((k / 256) % 256) * 256 + k % 256 == k) by (nonlinear_arith)
        requires
            k < 0x10000,
    ;
    assert(((n / 256) % 256) * 256 + n % 256 == n) by (nonlinear_arith)
        requires
            n < 0x10000,
    ;
}

proof fn lemma_reassembly_prefix(
    b: Seq<u8>,
    digest: Seq<u8>,
    mtu: usize,
    m: Map<u64, PartialModel>,
    slots: nat,
    cap: nat,
    now: Millis,
    k: int,
)
    requires
        mtu > FRAG_HEADER,
        b.len() >= mtu,
        b.len() <= cap,
        digest.len() == 8,
        spec_split(b, digest, mtu) is Ok,
        !m.contains_key(be_u64_of(digest)),
        m.dom().finite(),
        1 <= k < pieces(b, (mtu - FRAG_HEADER) as nat).len(),
    ensures
        ({
            let ps = pieces(b, (mtu - FRAG_HEADER) as nat);
            let frames = spec_split(b, digest, mtu)->Ok_0;
            let (mk, rs) = ingest_all(m, slots, cap, frames.take(k), now);
            &&& mk.contains_key(be_u64_of(digest))
            &&& mk[be_u64_of(digest)] == (PartialModel {
                total: ps.len() as u16,
                chunks: chunks_after(ps, k),
                first_seen_ms: now,
            })
            &&& rs.len() == k
            &&& forall|i: int| 0 <= i < k ==> #[trigger] rs[i] == Ok::<Option<Seq<u8>>, FragError>(None)
            &&& m.dom().len() < slots ==> mk == m.insert(be_u64_of(digest), mk[be_u64_of(digest)])
        }),
    decreases k,
{
    let chunk = (mtu - FRAG_HEADER) as nat;
    let ps = pieces(b, chunk);
    let n = ps.len();
    let frames = spec_split(b, digest, mtu)->Ok_0;
    let key = be_u64_of(digest);
    let f = frames[k - 1];
    lemma_pieces_concat(b, chunk);
    lemma_fragment_frame_fields(digest, (k - 1) as nat, n, ps[k - 1]);
    assert(frames.take(k).drop_last() =~= frames.take(k - 1));
    assert(frames.take(k).last() == f);
    lemma_concat_take_len(ps, k);
    lemma_chunks_after(ps, k);
    lemma_chunks_after(ps, k - 1);
    assert(ps.take(k).drop_last() =~= ps.take(k - 1));
    assert(ps.take(k).last() == ps[k - 1]);
    assert(concat(ps.take(k)) == concat(ps.take(k - 1)) + ps[k - 1]);
    assert(chunks_after(ps, k - 1).update(k - 1, Some(ps[k - 1])) =~= chunks_after(ps, k));
    let (mp, rsp) = ingest_all(m, slots, cap, frames.take(k - 1), now);
    if k == 1 {
        assert(frames.take(0) =~= Seq::<Seq<u8>>::empty());
        assert(mp == m);
        assert(chunks_after(ps, 0) =~= Seq::new(n, |j: int| None::<Seq<u8>>));
    } else {
        lemma_reassembly_prefix(b, digest, mtu, m, slots, cap, now, k - 1);
    }
    let idx = (f[9] as int * 256 + f[10] as int) as u16;
    let tot = (f[11] as int * 256 + f[12] as int) as u16;
    assert(idx == (k - 1) as u16);
    assert(tot == n as u16);
    assert(be_u64_of(f.subrange(1, 9)) == key);
    assert(spec_ingest(mp, slots, cap, f, now) == spec_ingest_fragment(
        mp,
        slots,
        cap,
        key,
        idx,
        tot,
        ps[k - 1],
        now,
    ));
    let m1 = if !mp.contains_key(key) && mp.dom().len() >= slots && mp.dom().len() > 0 {
        mp.remove(oldest_key(mp))
    } else {
        mp
    };
    if k == 1 {
        if !mp.contains_key(key) && mp.dom().len() >= slots && mp.dom().len() > 0 {
            assert(exists|o: u64| is_oldest(mp, o)) by {
                assert(mp.dom().finite());
                lemma_oldest_exists(mp);
            }
            assert(mp.contains_key(oldest_key(mp)));
        }
        assert(!m1.contains_key(key));
    } else {
        assert(m1 == mp);
    }
    let entry = if m1.contains_key(key) {
        m1[key]
    } else {
        PartialModel {
            total: tot,
            chunks: Seq::new(tot as nat, |j: int| None::<Seq<u8>>),
            first_seen_ms: now,
        }
    };
    assert(entry == PartialModel { total: n as u16, chunks: chunks_after(ps, k - 1), first_seen_ms: now });
    let (mk, rs) = ingest_all(m, slots, cap, frames.take(k), now);
    assert(mk == m1.insert(key, PartialModel { chunks: chunks_after(ps, k), ..entry }));
    if m.dom().len() < slots {
        if k == 1 {
            assert(m1 == m);
        }
        assert(mk =~= m.insert(key, mk[key]));
    }
    assert(rs == rsp.push(Ok::<Option<Seq<u8>>, FragError>(None)));
    assert forall|i: int| 0 <= i < k implies #[trigger] rs[i] == Ok::<Option<Seq<u8>>, FragError>(None) by {
        if i < k - 1 {
            assert(rs[i] == rsp[i]);
        }
    }
}

proof fn lemma_oldest_exists(m: Map<u64, PartialModel>)
    requires
        m.dom().finite(),
        m.dom().len() > 0,
    ensures
        exists|o: u64| is_oldest(m, o),
    decreases m.dom().len(),
{
    let k0 = m.dom().choose();
    assert(m.contains_key(k0));
    let rest = m.remove(k0);
    assert(rest.dom() =~= m.dom().remove(k0));
    if rest.dom().len() == 0 {
        assert forall|k2: u64| #![trigger m.contains_key(k2)] m.contains_key(k2) implies k2 == k0 by {
            if k2 != k0 {
                assert(rest.dom().contains(k2));
            }
        }
        assert(is_oldest(m, k0));
    } else {
        lemma_oldest_exists(rest);
        let o = choose|o: u64| is_oldest(rest, o);
        let better = m[k0].first_seen_ms < m[o].first_seen_ms || (m[k0].first_seen_ms
            == m[o].first_seen_ms && k0 <= o);
        if better {
            assert forall|k2: u64| #![trigger m.contains_key(k2)] m.contains_key(k2) implies (m[k0].first_seen_ms
                < m[k2].first_seen_ms || (m[k0].first_seen_ms == m[k2].first_seen_ms && k0 <= k2)) by {
                if k2 != k0 {
                    assert(rest.contains_key(k2));
                }
            }
            assert(is_oldest(m, k0));
        } else {
            assert forall|k2: u64| #![trigger m.contains_key(k2)] m.contains_key(k2) implies (m[o].first_seen_ms
                < m[k2].first_seen_ms || (m[o].first_seen_ms == m[k2].first_seen_ms && o <= k2)) by {
                if k2 != k0 {
                    assert(rest.contains_key(k2));
                }
            }
            assert(is_oldest(m, o));
        }
    }
}

/// Feeding the frames that `split` produced, in order, into reassembly that holds nothing for
/// this digest gives back exactly the packet bytes on the last frame and nothing before it,
/// provided the packet is within the reassembly byte cap.
pub proof fn law_split_then_reassemble(
    b: Seq<u8>,
    digest: Seq<u8>,
    mtu: usize,
    m: Map<u64, PartialModel>,
    slots: nat,
    cap: nat,
    now: Millis,
)
    requires
        digest.len() == 8,
        b.len() <= cap,
        spec_split(b, digest, mtu) is Ok,
        !m.contains_key(be_u64_of(digest)),
        m.dom().finite(),
    ensures
        ({
            let frames = spec_split(b, digest, mtu)->Ok_0;
            let (_, rs) = ingest_all(m, slots, cap, frames, now);
            &&& rs.len() == frames.len()
            &&& frames.len() >= 1
            &&& rs[frames.len() - 1] == Ok::<Option<Seq<u8>>, FragError>(Some(b))
            &&& forall|i: int| 0 <= i < frames.len() - 1 ==> #[trigger] rs[i] == Ok::<Option<Seq<u8>>, FragError>(None)
            &&& m.dom().len() < slots ==> ingest_all(m, slots, cap, frames, now).0 == m
        }),
{
    let frames = spec_split(b, digest, mtu)->Ok_0;
    if b.len() < mtu {
        assert(frames.drop_last() =~= Seq::<Seq<u8>>::empty());
        assert(complete_frame(b).skip(1) =~= b);
        assert(frames.last() == complete_frame(b));
        let (m0, rs0) = ingest_all(m, slots, cap, frames.drop_last(), now);
        assert(rs0.len() == 0);
        let (_, rs) = ingest_all(m, slots, cap, frames, now);
        assert(rs == rs0.push(Ok::<Option<Seq<u8>>, FragError>(Some(b))));
        assert(rs.len() == 1);
    } else {
        let chunk = (mtu - FRAG_HEADER) as nat;
        let ps = pieces(b, chunk);
        let n = ps.len() as int;
        lemma_pieces_len(b, chunk);
        assert(n >= 2) by {
            assert(b.len() > chunk);
            assert(ps =~= seq![b.take(chunk as int)] + pieces(b.skip(chunk as int), chunk));
            lemma_pieces_len(b.skip(chunk as int), chunk);
        }
        lemma_reassembly_prefix(b, digest, mtu, m, slots, cap, now, n - 1);
        lemma_pieces_concat(b, chunk);
        lemma_fragment_frame_fields(digest, (n - 1) as nat, n as nat, ps[n - 1]);
        lemma_chunks_after(ps, n - 1);
        lemma_chunks_after(ps, n);
        lemma_concat_take_len(ps, n);
        assert(ps.take(n) =~= ps);
        assert(chunks_after(ps, n - 1).update(n - 1, Some(ps[n - 1])) =~= chunks_after(ps, n));
        lemma_assembled_all(ps);
        assert(frames.take(n) =~= frames);
        assert(frames.take(n - 1) =~= frames.drop_last());
        let key = be_u64_of(digest);
        let f = frames[n - 1];
        assert(frames.last() == f);
        let (mp, rsp) = ingest_all(m, slots, cap, frames.take(n - 1), now);
        let idx = (f[9] as int * 256 + f[10] as int) as u16;
        let tot = (f[11] as int * 256 + f[12] as int) as u16;
        assert(idx == (n - 1) as u16);
        assert(tot == n as u16);
        assert(be_u64_of(f.subrange(1, 9)) == key);
        assert(spec_ingest(mp, slots, cap, f, now) == spec_ingest_fragment(
            mp,
            slots,
            cap,
            key,
            idx,
            tot,
            ps[n - 1],
            now,
        ));
        assert(concat(ps.take(n)) == concat(ps.take(n - 1)) + ps[n - 1]) by {
            assert(ps.take(n).drop_last() =~= ps.take(n - 1));
        }
        lemma_reassembly_prefix(b, digest, mtu, m, slots, cap, now, n - 1);
        assert(mp.contains_key(key));
        assert(mp[key].chunks == chunks_after(ps, n - 1));
        assert(held_bytes(chunks_after(ps, n - 1)) + ps[n - 1].len() <= cap);
        assert(received_count(chunks_after(ps, n)) == n);
        assert(assembled(chunks_after(ps, n)) == b);
        assert(spec_ingest(mp, slots, cap, f, now).1 == Ok::<Option<Seq<u8>>, FragError>(Some(b)));
        let (mk, rs) = ingest_all(m, slots, cap, frames, now);
        assert(rs == rsp.push(Ok::<Option<Seq<u8>>, FragError>(Some(b))));
        assert forall|i: int| 0 <= i < n - 1 implies #[trigger] rs[i] == Ok::<Option<Seq<u8>>, FragError>(None) by {
            assert(rs[i] == rsp[i]);
        }
        if m.dom().len() < slots {
            assert(mk == mp.remove(key));
            assert(mk =~= m);
        }
    }
}

/// The chunk table after the last `k` of `ps` have arrived.
pub open spec fn chunks_rev(ps: Seq<Seq<u8>>, k: int) -> Seq<Option<Seq<u8>>> {
    Seq::new(ps.len(), |j: int| if j >= ps.len() - k { Some(ps[j]) } else { None })
}

proof fn lemma_chunks_rev(ps: Seq<Seq<u8>>, k: int)
    requires
        0 <= k <= ps.len(),
    ensures
        received_count(chunks_rev(ps, k)) == k,
    decreases k,
{
    if k == 0 {
        lemma_all_none(ps.len());
        assert(chunks_rev(ps, 0) =~= Seq::new(ps.len(), |j: int| None::<Seq<u8>>));
    } else {
        lemma_chunks_rev(ps, k - 1);
        let i = ps.len() - k;
        assert(chunks_rev(ps, k - 1).update(i, Some(ps[i])) =~= chunks_rev(ps, k));
        lemma_chunks_update(chunks_rev(ps, k - 1), i, ps[i]);
    }
}

/// A chunk table holding some of another's chunks holds no more bytes.
proof fn lemma_held_le(c: Seq<Option<Seq<u8>>>, d: Seq<Option<Seq<u8>>>)
    requires
        c.len() == d.len(),
        forall|j: int| 0 <= j < c.len() && #[trigger] c[j] is Some ==> c[j] == d[j],
    ensures
        held_bytes(c) <= held_bytes(d),
    decreases c.len(),
{
    if c.len() > 0 {
        lemma_held_le(c.drop_last(), d.drop_last());
        assert(c.last() is Some ==> c[c.len() - 1] == d[d.len() - 1]);
    }
}

/// Feeding the first `k` (`k` below the fragment count) of the fragments of `b`, last fragment
/// first, leaves a slot holding the last `k` chunks and yields nothing yet.
proof fn lemma_reassembly_prefix_rev(
    b: Seq<u8>,
    digest: Seq<u8>,
    mtu: usize,
    m: Map<u64, PartialModel>,
    slots: nat,
    cap: nat,
    now: Millis,
    k: int,
)
    requires
        mtu > FRAG_HEADER,
        b.len() >= mtu,
        b.len() <= cap,
        digest.len() == 8,
        spec_split(b, digest, mtu) is Ok,
        !m.contains_key(be_u64_of(digest)),
        m.dom().finite(),
        1 <= k < pieces(b, (mtu - FRAG_HEADER) as nat).len(),
    ensures
        ({
            let ps = pieces(b, (mtu - FRAG_HEADER) as nat);
            let frames = spec_split(b, digest, mtu)->Ok_0;
            let (mk, rs) = ingest_all(m, slots, cap, frames.reverse().take(k), now);
            &&& mk.contains_key(be_u64_of(digest))
            &&& mk[be_u64_of(digest)] == (PartialModel {
                total: ps.len() as u16,
                chunks: chunks_rev(ps, k),
                first_seen_ms: now,
            })
            &&& rs.len() == k
            &&& forall|i: int| 0 <= i < k ==> #[trigger] rs[i] == Ok::<Option<Seq<u8>>, FragError>(None)
            &&& m.dom().len() < slots ==> mk == m.insert(be_u64_of(digest), mk[be_u64_of(digest)])
        }),
    decreases k,
{
    let chunk = (mtu - FRAG_HEADER) as nat;
    let ps = pieces(b, chunk);
    let n = ps.len();
    let frames = spec_split(b, digest, mtu)->Ok_0;
    let rf = frames.reverse();
    let key = be_u64_of(digest);
    let i = n - k;
    let f = rf[k - 1];
    assert(f == frames[i]);
    lemma_pieces_concat(b, chunk);
    lemma_fragment_frame_fields(digest, i as nat, n, ps[i]);
    assert(rf.take(k).drop_last() =~= rf.take(k - 1));
    assert(rf.take(k).last() == f);
    lemma_chunks_rev(ps, k);
    lemma_chunks_rev(ps, k - 1);
    assert(chunks_rev(ps, k - 1).update(i, Some(ps[i])) =~= chunks_rev(ps, k));
    lemma_chunks_update(chunks_rev(ps, k - 1), i, ps[i]);
    lemma_held_le(chunks_rev(ps, k), chunks_after(ps, n as int));
    lemma_chunks_after(ps, n as int);
    assert(ps.take(n as int) =~= ps);
    let (mp, rsp) = ingest_all(m, slots, cap, rf.take(k - 1), now);
    if k == 1 {
        assert(rf.take(0) =~= Seq::<Seq<u8>>::empty());
        assert(mp == m);
        assert(chunks_rev(ps, 0) =~= Seq::new(n, |j: int| None::<Seq<u8>>));
    } else {
        lemma_reassembly_prefix_rev(b, digest, mtu, m, slots, cap, now, k - 1);
    }
    let idx = (f[9] as int * 256 + f[10] as int) as u16;
    let tot = (f[11] as int * 256 + f[12] as int) as u16;
    assert(idx == i as u16);
    assert(tot == n as u16);
    assert(be_u64_of(f.subrange(1, 9)) == key);
    assert(spec_ingest(mp, slots, cap, f, now) == spec_ingest_fragment(
        mp,
        slots,
        cap,
        key,
        idx,
        tot,
        ps[i],
        now,
    ));
    let m1 = if !mp.contains_key(key) && mp.dom().len() >= slots && mp.dom().len() > 0 {
        mp.remove(oldest_key(mp))
    } else {
        mp
    };
    if k == 1 {
        if !mp.contains_key(key) && mp.dom().len() >= slots && mp.dom().len() > 0 {
            assert(exists|o: u64| is_oldest(mp, o)) by {
                lemma_oldest_exists(mp);
            }
            assert(mp.contains_key(oldest_key(mp)));
        }
        assert(!m1.contains_key(key));
    } else {
        assert(m1 == mp);
    }
    let entry = if m1.contains_key(key) {
        m1[key]
    } else {
        PartialModel {
            total: tot,
            chunks: Seq::new(tot as nat, |j: int| None::<Seq<u8>>),
            first_seen_ms: now,
        }
    };
    assert(entry == PartialModel { total: n as u16, chunks: chunks_rev(ps, k - 1), first_seen_ms: now });
    let (mk, rs) = ingest_all(m, slots, cap, rf.take(k), now);
    assert(mk == m1.insert(key, PartialModel { chunks: chunks_rev(ps, k), ..entry }));
    if m.dom().len() < slots {
        if k == 1 {
            assert(m1 == m);
        }
        assert(mk =~= m.insert(key, mk[key]));
    }
    assert(rs == rsp.push(Ok::<Option<Seq<u8>>, FragError>(None)));
    assert forall|j: int| 0 <= j < k implies #[trigger] rs[j] == Ok::<Option<Seq<u8>>, FragError>(None) by {
        if j < k - 1 {
            assert(rs[j] == rsp[j]);
        }
    }
}

/// Feeding the frames that `split` produced in reverse order, last first, into reassembly that
/// holds nothing for this digest gives back exactly the packet bytes on the last frame fed and
/// nothing before it (for a packet within the byte cap); and with room for the slot, nothing is
/// left in flight afterwards.
pub proof fn law_reassemble_reversed(
    b: Seq<u8>,
    digest: Seq<u8>,
    mtu: usize,
    m: Map<u64, PartialModel>,
    slots: nat,
    cap: nat,
    now: Millis,
)
    requires
        digest.len() == 8,
        b.len() <= cap,
        spec_split(b, digest, mtu) is Ok,
        !m.contains_key(be_u64_of(digest)),
        m.dom().finite(),
    ensures
        ({
            let frames = spec_split(b, digest, mtu)->Ok_0;
            let (mf, rs) = ingest_all(m, slots, cap, frames.reverse(), now);
            &&& rs.len() == frames.len()
            &&& frames.len() >= 1
            &&& rs[frames.len() - 1] == Ok::<Option<Seq<u8>>, FragError>(Some(b))
            &&& forall|i: int| 0 <= i < frames.len() - 1 ==> #[trigger] rs[i] == Ok::<Option<Seq<u8>>, FragError>(None)
            &&& m.dom().len() < slots ==> mf == m
        }),
{
    let frames = spec_split(b, digest, mtu)->Ok_0;
    let rf = frames.reverse();
    if b.len() < mtu {
        assert(rf =~= frames);
        law_split_then_reassemble(b, digest, mtu, m, slots, cap, now);
        assert(frames.drop_last() =~= Seq::<Seq<u8>>::empty());
        let (m0, rs0) = ingest_all(m, slots, cap, frames.drop_last(), now);
        assert(m0 == m);
        assert(complete_frame(b).len() > 0 && complete_frame(b)[0] == KIND_COMPLETE);
        assert(frames.last() == complete_frame(b));
    } else {
        let chunk = (mtu - FRAG_HEADER) as nat;
        let ps = pieces(b, chunk);
        let n = ps.len() as int;
        lemma_pieces_len(b, chunk);
        assert(n >= 2) by {
            assert(b.len() > chunk);
            assert(ps =~= seq![b.take(chunk as int)] + pieces(b.skip(chunk as int), chunk));
            lemma_pieces_len(b.skip(chunk as int), chunk);
        }
        lemma_reassembly_prefix_rev(b, digest, mtu, m, slots, cap, now, n - 1);
        lemma_pieces_concat(b, chunk);
        lemma_fragment_frame_fields(digest, 0, n as nat, ps[0]);
        lemma_chunks_rev(ps, n - 1);
        lemma_chunks_after(ps, n);
        lemma_held_le(chunks_rev(ps, n - 1), chunks_after(ps, n));
        assert(ps.take(n) =~= ps);
        assert(chunks_rev(ps, n - 1).update(0, Some(ps[0])) =~= chunks_after(ps, n));
        lemma_chunks_update(chunks_rev(ps, n - 1), 0, ps[0]);
        lemma_assembled_all(ps);
        assert(rf.take(n) =~= rf);
        assert(rf.take(n - 1) =~= rf.drop_last());
        let key = be_u64_of(digest);
        let f = rf[n - 1];
        assert(f == frames[0]);
        assert(rf.last() == f);
        let (mp, rsp) = ingest_all(m, slots, cap, rf.take(n - 1), now);
        let idx = (f[9] as int * 256 + f[10] as int) as u16;
        let tot = (f[11] as int * 256 + f[12] as int) as u16;
        assert(idx == 0);
        assert(tot == n as u16);
        assert(be_u64_of(f.subrange(1, 9)) == key);
        assert(spec_ingest(mp, slots, cap, f, now) == spec_ingest_fragment(mp, slots, cap, key, idx, tot, ps[0], now));
        assert(mp.contains_key(key));
        assert(mp[key].chunks == chunks_rev(ps, n - 1));
        assert(received_count(chunks_after(ps, n)) == n);
        assert(assembled(chunks_after(ps, n)) == b);
        assert(spec_ingest(mp, slots, cap, f, now).1 == Ok::<Option<Seq<u8>>, FragError>(Some(b)));
        let (mk, rs) = ingest_all(m, slots, cap, rf, now);
        assert(rs == rsp.push(Ok::<Option<Seq<u8>>, FragError>(Some(b))));
        assert forall|i: int| 0 <= i < n - 1 implies #[trigger] rs[i] == Ok::<Option<Seq<u8>>, FragError>(None) by {
            assert(rs[i] == rsp[i]);
        }
        if m.dom().len() < slots {
            assert(mk == mp.remove(key));
            assert(mk =~= m);
        }
    }
}

/// The bytes a chunk table assembles to are the bytes it holds.
proof fn lemma_assembled_len(c: Seq<Option<Seq<u8>>>)
    ensures
        assembled(c).len() == held_bytes(c),
    decreases c.len(),
{
    if c.len() > 0 {
        lemma_assembled_len(c.drop_last());
    }
}

/// Feeding a fragment frame again, right after it was taken in without completing its message,
/// changes nothing and yields nothing: a repeated fragment is ignored.
pub proof fn law_repeated_fragment_ignored(
    m: Map<u64, PartialModel>,
    slots: nat,
    cap: nat,
    f: Seq<u8>,
    now: Millis,
    later: Millis,
)
    requires
        forall|k: u64| #[trigger] m.contains_key(k) ==> m[k].chunks.len() == m[k].total,
        f.len() >= FRAG_HEADER,
        f[0] == KIND_FRAGMENT,
        spec_ingest(m, slots, cap, f, now).1 == Ok::<Option<Seq<u8>>, FragError>(None),
    ensures
        spec_ingest(spec_ingest(m, slots, cap, f, now).0, slots, cap, f, later) == (
            spec_ingest(m, slots, cap, f, now).0,
            Ok::<Option<Seq<u8>>, FragError>(None),
        ),
{
    let m2 = spec_ingest(m, slots, cap, f, now).0;
    let key = be_u64_of(f.subrange(1, 9));
    let index = (f[9] as int * 256 + f[10] as int) as u16;
    let total = (f[11] as int * 256 + f[12] as int) as u16;
    assert(f[0] != KIND_COMPLETE);
    assert(m2.contains_key(key));
    assert(m2[key].total == total);
    assert(m2[key].chunks[index as int] is Some);
    assert(m2.insert(key, m2[key]) =~= m2);
}

/// A message reassembled from fragments is never longer than the byte cap.
pub proof fn law_assembled_within_cap(m: Map<u64, PartialModel>, slots: nat, cap: nat, f: Seq<u8>, now: Millis)
    requires
        forall|k: u64| #[trigger] m.contains_key(k) ==> m[k].chunks.len() == m[k].total,
        f.len() >= FRAG_HEADER,
        f[0] == KIND_FRAGMENT,
    ensures
        spec_ingest(m, slots, cap, f, now).1 matches Ok(Some(v)) ==> v.len() <= cap,
{
    let key = be_u64_of(f.subrange(1, 9));
    let index = (f[9] as int * 256 + f[10] as int) as u16;
    let total = (f[11] as int * 256 + f[12] as int) as u16;
    let chunk = f.skip(FRAG_HEADER as int);
    if total != 0 && index < total {
        let m1 = if !m.contains_key(key) && m.dom().len() >= slots && m.dom().len() > 0 {
            m.remove(oldest_key(m))
        } else {
            m
        };
        let entry = if m1.contains_key(key) {
            m1[key]
        } else {
            PartialModel { total, chunks: Seq::new(total as nat, |j: int| None::<Seq<u8>>), first_seen_ms: now }
        };
        if entry.total == total && entry.chunks[index as int] is None && held_bytes(entry.chunks) + chunk.len()
            <= cap {
            let c2 = entry.chunks.update(index as int, Some(chunk));
            lemma_chunks_update(entry.chunks, index as int, chunk);
            lemma_assembled_len(c2);
        }
    }
}

struct Partial {
    total: u16,
    received: usize,
    chunks: Vec<Option<Vec<u8>>>,
    bytes: usize,
    first_seen_ms: Millis,
}

impl Partial {
    spec fn view(&self) -> PartialModel {
        PartialModel {
            total: self.total,
            chunks: self.chunks@.map_values(
                |c: Option<Vec<u8>>|
                    match c {
                        Some(v) => Some(v@),
                        None => None,
                    },
            ),
            first_seen_ms: self.first_seen_ms,
        }
    }

    spec fn inv(&self, cap: nat) -> bool {
        &&& self.view().wf(cap)
        &&& self.received == received_count(self.view().chunks)
        &&& self.bytes == held_bytes(self.view().chunks)
    }
}

/// Reassembles fragments back into whole packets. Bounded: at most `reassembly_slots` in-flight
/// messages (one when that is zero), each capped at `reassembly_max_bytes`, each expiring after
/// `reassembly_timeout_ms`.
pub struct Reassembler {
    slots: BTreeMap<u64, Partial>,
    cfg: Tunables,
}

impl Reassembler {
    /// The in-flight reassemblies, keyed by digest (read big-endian).
    pub closed spec fn view_slots(&self) -> Map<u64, PartialModel> {
        self.slots@.map_values(|p: Partial| p.view())
    }

    pub closed spec fn config(&self) -> Tunables {
        self.cfg
    }

    /// Every slot is consistent and the slot count is within its bound.
    pub closed spec fn wf(&self) -> bool {
        &&& forall|k: u64| #[trigger]
            self.slots@.contains_key(k) ==> self.slots@[k].inv(
                self.cfg.reassembly_max_bytes as nat,
            )
        &&& self.slots@.dom().len() <= if self.cfg.reassembly_slots > 0 {
            self.cfg.reassembly_slots as nat
        } else {
            1
        }
    }

    pub fn new(cfg: Tunables) -> (r: Self)
        ensures
            r.wf(),
            r.view_slots() == Map::<u64, PartialModel>::empty(),
            r.view_slots().dom().finite(),
            r.config() == cfg,
    {
        let r = Reassembler { slots: BTreeMap::new(), cfg };
        assert(r.view_slots() =~= Map::<u64, PartialModel>::empty());
        r
    }

    /// A reassembler holds finitely many partial messages.
    pub proof fn lemma_slots_finite(&self)
        ensures
            self.view_slots().dom().finite(),
    {
        assert(self.view_slots().dom() =~= self.slots@.dom());
    }

    /// A reassembler never holds more partial messages than its configured slot count (one, if
    /// that is zero).
    pub proof fn lemma_slots_bounded(&self)
        requires
            self.wf(),
        ensures
            self.view_slots().dom().len() <= if self.config().reassembly_slots > 0 {
                self.config().reassembly_slots as nat
            } else {
                1
            },
    {
        assert(self.view_slots().dom() =~= self.slots@.dom());
    }

    /// How many messages are partially reassembled.
    pub fn in_flight(&self) -> (n: usize)
        ensures
            n == self.view_slots().dom().len(),
    {
        proof {
            assert(self.view_slots().dom() =~= self.slots@.dom());
        }
        self.slots.len()
    }

    /// Feed one frame. Returns `Ok(Some(packet_bytes))` when a message completes.
    pub fn ingest(&mut self, frame: &[u8], now_ms: Millis) -> (res: Result<Option<Vec<u8>>, FragError>)
        requires
            old(self).wf(),
        ensures
            final(self).wf(),
            final(self).config() == old(self).config(),
            (final(self).view_slots(), match res {
                Ok(Some(v)) => Ok(Some(v@)),
                Ok(None) => Ok(None),
                Err(e) => Err(e),
            }) == spec_ingest(
                old(self).view_slots(),
                old(self).config().reassembly_slots as nat,
                old(self).config().reassembly_max_bytes as nat,
                frame@,
                now_ms,
            ),
    {
        if frame.len() == 0 {
            return Ok(None);
        }
        if frame[0] == KIND_COMPLETE {
            let rest = vstd::slice::slice_to_vec(vstd::slice::slice_subrange(frame, 1, frame.len()));
            assert(rest@ =~= frame@.skip(1));
            return Ok(Some(rest));
        }
        if frame[0] != KIND_FRAGMENT || frame.len() < FRAG_HEADER {
            return Ok(None);
        }
        let digest = read_array8(frame, 1);
        let key = u64_key(&digest);
        let index = ((frame[9] as u16) * 256 + (frame[10] as u16)) as u16;
        let total = ((frame[11] as u16) * 256 + (frame[12] as u16)) as u16;
        let chunk = vstd::slice::slice_subrange(frame, FRAG_HEADER, frame.len());
        assert(chunk@ =~= frame@.skip(FRAG_HEADER as int));
        self.ingest_fragment(key, index, total, chunk, now_ms)
    }

    fn ingest_fragment(
        &mut self,
        key: u64,
        index: u16,
        total: u16,
        chunk: &[u8],
        now_ms: Millis,
    ) -> (res: Result<Option<Vec<u8>>, FragError>)
        requires
            old(self).wf(),
        ensures
            final(self).wf(),
            final(self).config() == old(self).config(),
            (final(self).view_slots(), match res {
                Ok(Some(v)) => Ok(Some(v@)),
                Ok(None) => Ok(None),
                Err(e) => Err(e),
            }) == spec_ingest_fragment(
                old(self).view_slots(),
                old(self).config().reassembly_slots as nat,
                old(self).config().reassembly_max_bytes as nat,
                key,
                index,
                total,
                chunk@,
                now_ms,
            ),
    {
        let ghost m0 = self.view_slots();
        let ghost slots_cap = self.cfg.reassembly_slots as nat;
        let ghost cap = self.cfg.reassembly_max_bytes as nat;
        if total == 0 || index >= total {
            return Err(FragError::BadIndex { index, total });
        }
        let present = self.slots.contains_key(&key);
        if !present && self.slots.len() >= self.cfg.reassembly_slots && self.slots.len() > 0 {
            self.evict_oldest();
        }
        let ghost m1 = self.view_slots();
        let ghost bound: nat = if self.cfg.reassembly_slots > 0 {
            self.cfg.reassembly_slots as nat
        } else {
            1
        };
        proof {
            assert(self.slots@.dom() =~= m1.dom());
            assert(!m1.contains_key(key) ==> m1.dom().len() + 1 <= bound);
            lemma_dom_len_after(self.slots@, key, bound);
        }
        proof {
            assert(m0.dom() =~= old(self).slots@.dom());
            assert(m1 == (if !m0.contains_key(key) && m0.dom().len() >= slots_cap && m0.dom().len()
                > 0 {
                m0.remove(oldest_key(m0))
            } else {
                m0
            }));
        }
        let cap_bytes = self.cfg.reassembly_max_bytes;
        let mut entry = match self.slots.remove(&key) {
            Some(p) => p,
            None => {
                let mut chunks: Vec<Option<Vec<u8>>> = Vec::new();
                let mut j: u16 = 0;
                while j < total
                    invariant
                        j <= total,
                        chunks@.len() == j,
                        forall|q: int| 0 <= q < j ==> chunks@[q] is None,
                    decreases total - j,
                {
                    chunks.push(None);
                    j = j + 1;
                }
                let p = Partial { total, received: 0, chunks, bytes: 0, first_seen_ms: now_ms };
                proof {
                    assert(p.view().chunks =~= Seq::new(total as nat, |q: int| None::<Seq<u8>>));
                    lemma_all_none(total as nat);
                }
                p
            },
        };
        let ghost e0 = entry.view();
        proof {
            assert(self.view_slots() =~= m1.remove(key));
        }
        if entry.total != total {
            return Err(FragError::BadIndex { index, total });
        }
        assert(entry.view().chunks.len() == total);
        let is_empty = entry.chunks[index as usize].is_none();
        if !is_empty {
            self.slots.insert(key, entry);
            assert(self.view_slots() =~= m1.insert(key, e0));
            return Ok(None);
        }
        if entry.bytes > cap_bytes || chunk.len() > cap_bytes - entry.bytes {
            return Err(FragError::TooLarge { cap: cap_bytes });
        }
        let cv = vstd::slice::slice_to_vec(chunk);
        proof {
            lemma_chunks_update(e0.chunks, index as int, chunk@);
            lemma_received_bound(e0.chunks.update(index as int, Some(chunk@)));
        }
        entry.chunks.set(index as usize, Some(cv));
        entry.received = entry.received + 1;
        entry.bytes = entry.bytes + chunk.len();
        assert(entry.view().chunks =~= e0.chunks.update(index as int, Some(chunk@)));
        if entry.received == entry.total as usize {
            let ghost c2 = entry.view().chunks;
            let mut out: Vec<u8> = Vec::new();
            let mut q: usize = 0;
            let n = entry.chunks.len();
            while q < n
                invariant
                    n == entry.chunks@.len(),
                    q <= n,
                    c2 == entry.view().chunks,
                    forall|r: int| 0 <= r < n ==> #[trigger] c2[r] is Some,
                    out@ == assembled(c2.take(q as int)),
                decreases n - q,
            {
                assert(c2.take(q + 1).drop_last() =~= c2.take(q as int));
                match &entry.chunks[q] {
                    Some(c) => {
                        append_bytes(&mut out, c.as_slice());
                    },
                    None => {
                        assert(c2[q as int] is Some);
                    },
                }
                q = q + 1;
            }
            assert(c2.take(n as int) =~= c2);
            return Ok(Some(out));
        }
        self.slots.insert(key, entry);
        assert(self.view_slots() =~= m1.insert(key, entry.view()));
        Ok(None)
    }

    /// Drop reassembly buffers started at least `reassembly_timeout_ms` ago. Returns how many.
    pub fn evict_expired(&mut self, now_ms: Millis) -> (n: usize)
        requires
            old(self).wf(),
        ensures
            final(self).wf(),
            final(self).config() == old(self).config(),
            final(self).view_slots() == old(self).view_slots().restrict(
                fresh_keys(old(self).view_slots(), now_ms, old(self).config().reassembly_timeout_ms),
            ),
            n == old(self).view_slots().dom().len() - final(self).view_slots().dom().len(),
    {
        let timeout = self.cfg.reassembly_timeout_ms;
        let ghost m0 = self.view_slots();
        let ghost keep = fresh_keys(m0, now_ms, timeout);
        let keys = self.keys();
        let before = self.slots.len();
        let mut j: usize = 0;
        while j < keys.len()
            invariant
                j <= keys@.len(),
                self.wf(),
                self.cfg == old(self).cfg,
                forall|k: u64| m0.contains_key(k) ==> #[trigger] keys@.contains(k),
                keep == fresh_keys(m0, now_ms, timeout),
                timeout == self.cfg.reassembly_timeout_ms,
                self.view_slots() == m0.restrict(
                    m0.dom().filter(|k: u64| keep.contains(k) || !keys@.subrange(0, j as int).contains(k)),
                ),
            decreases keys@.len() - j,
        {
            let k = keys[j];
            let ghost cur = self.view_slots();
            let ghost old_slots = self.slots@;
            let ghost pre = keys@.subrange(0, j as int);
            let stale = match self.slots.get(&k) {
                Some(p) => {
                    proof {
                        assert(self.slots@.contains_key(k));
                        assert(cur.contains_key(k));
                        assert(cur[k] == self.slots@[k].view());
                        assert(cur[k].first_seen_ms == p.first_seen_ms);
                    }
                    now_ms.saturating_sub(p.first_seen_ms) >= timeout
                },
                None => {
                    proof {
                        assert(!cur.contains_key(k));
                    }
                    false
                },
            };
            if stale {
                self.slots.remove(&k);
            }
            j = j + 1;
            proof {
                let post = keys@.subrange(0, j as int);
                assert(post =~= pre.push(k));
                let target = m0.restrict(
                    m0.dom().filter(|k2: u64| keep.contains(k2) || !post.contains(k2)),
                );
                assert forall|k2: u64| k2 != k implies (post.contains(k2) == pre.contains(k2)) by {
                    if post.contains(k2) {
                        let i = choose|i: int| 0 <= i < post.len() && post[i] == k2;
                        assert(pre[i] == k2);
                    }
                    if pre.contains(k2) {
                        let i = choose|i: int| 0 <= i < pre.len() && pre[i] == k2;
                        assert(post[i] == k2);
                    }
                }
                assert(post.contains(k)) by {
                    assert(post[post.len() - 1] == k);
                }
                if cur.contains_key(k) {
                    assert(cur[k] == m0[k]);
                    assert(keep.contains(k) == (age(now_ms, m0[k].first_seen_ms) < timeout));
                    assert(stale == !keep.contains(k));
                } else {
                    assert(!stale);
                }
                assert forall|k2: u64| #[trigger] self.view_slots().contains_key(k2) == target.contains_key(k2) by {
                    if k2 != k {
                        assert(cur.contains_key(k2) == target.contains_key(k2));
                    }
                }
                assert forall|k2: u64| #[trigger] self.view_slots().contains_key(k2) implies self.view_slots()[k2] == target[k2] by {
                    assert(cur.contains_key(k2));
                    assert(self.slots@[k2] == old_slots[k2]);
                    assert(self.view_slots()[k2] == cur[k2]);
                }
                assert(self.view_slots() =~= target);
            }
        }
        proof {
            assert(keys@.subrange(0, keys@.len() as int) =~= keys@);
            assert(m0.dom().filter(|k: u64| keep.contains(k) || !keys@.contains(k)) =~= keep);
            assert(self.slots@.dom() =~= self.view_slots().dom());
            assert(old(self).slots@.dom() =~= m0.dom());
            vstd::set_lib::lemma_len_subset(self.slots@.dom(), old(self).slots@.dom());
        }
        before - self.slots.len()
    }

    /// Every key currently held.
    fn keys(&self) -> (keys: Vec<u64>)
        ensures
            forall|k: u64| self.slots@.contains_key(k) ==> #[trigger] keys@.contains(k),
    {
        let mut keys: Vec<u64> = Vec::new();
        for (k, _p) in it: self.slots.iter()
            invariant
                keys@.len() == it.index(),
                forall|j: int| 0 <= j < it.index() ==> keys@[j] == *(#[trigger] it.seq()[j]).0,
        {
            keys.push(*k);
        }
        keys
    }

    /// Remove the slot seen first (ties: smallest key), if any.
    fn evict_oldest(&mut self)
        requires
            old(self).wf(),
            old(self).slots@.dom().len() > 0,
        ensures
            final(self).view_slots() == old(self).view_slots().remove(oldest_key(old(self).view_slots())),
            final(self).slots@.dom().len() == old(self).slots@.dom().len() - 1,
            final(self).cfg == old(self).cfg,
            forall|k: u64| #[trigger]
                final(self).slots@.contains_key(k) ==> final(self).slots@[k] == old(self).slots@[k],
    {
        let ghost m = self.view_slots();
        let mut best: Option<(u64, Millis)> = None;
        for (k, p) in it: self.slots.iter()
            invariant
                best matches Some((bk, bt)) ==> m.contains_key(bk) && m[bk].first_seen_ms == bt,
                forall|i: int|
                    0 <= i < it.index() ==> (best matches Some((bk, bt)) && (bt < m[*(#[trigger] it.seq()[i]).0].first_seen_ms || (bt
                        == m[*it.seq()[i].0].first_seen_ms && bk <= *it.seq()[i].0))),
                best is None <==> it.index() == 0,
                m == self.view_slots(),
        {
            match best {
                Some((bk, bt)) => {
                    if p.first_seen_ms < bt || (p.first_seen_ms == bt && *k < bk) {
                        best = Some((*k, p.first_seen_ms));
                    }
                },
                None => {
                    best = Some((*k, p.first_seen_ms));
                },
            }
        }
        match best {
            Some((k, _)) => {
                proof {
                    assert(is_oldest(m, k));
                    lemma_oldest_unique(m, k);
                }
                self.slots.remove(&k);
                assert(self.view_slots() =~= m.remove(k));
            },
            None => {},
        }
    }
}

proof fn lemma_dom_len_after(s1: Map<u64, Partial>, key: u64, b: nat)
    requires
        s1.dom().finite(),
        s1.dom().len() <= b,
        !s1.contains_key(key) ==> s1.dom().len() + 1 <= b,
    ensures
        s1.remove(key).dom().len() <= b,
        forall|e: Partial| #[trigger] s1.remove(key).insert(key, e).dom().len() <= b,
{
    assert(s1.remove(key).dom() =~= s1.dom().remove(key));
    assert forall|e: Partial| #[trigger] s1.remove(key).insert(key, e).dom().len() <= b by {
        assert(s1.remove(key).insert(key, e).dom() =~= s1.dom().remove(key).insert(key));
    }
}

proof fn lemma_oldest_unique(m: Map<u64, PartialModel>, k: u64)
    requires
        is_oldest(m, k),
    ensures
        oldest_key(m) == k,
{
    let o = oldest_key(m);
    assert(is_oldest(m, o));
    assert(m.contains_key(k) && m.contains_key(o));
}

/// Milliseconds elapsed from `then` to `now` (zero if `then` is later).
pub open spec fn age(now: Millis, then: Millis) -> Millis {
    if now >= then {
        (now - then) as Millis
    } else {
        0
    }
}

/// The slots still inside their reassembly window at `now`.
pub open spec fn fresh_keys(m: Map<u64, PartialModel>, now: Millis, timeout: Millis) -> Set<u64> {
    Set::new(|k: u64| m.contains_key(k) && age(now, m[k].first_seen_ms) < timeout)
}

/// The map key of a digest: its bytes read big-endian (so key order is byte order).
pub fn u64_key(d: &[u8; 8]) -> (k: u64)
    ensures
        k == be_u64_of(d@),
{
    let k = crate::bytes::read_u64_be(d, 0);
    assert(d@.subrange(0, 8) =~= d@);
    k
}

} // verus!
