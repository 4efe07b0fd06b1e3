//! Public channels and the set-reconciliation used to heal partitions.
//!
//! When two islands of the mesh rejoin, each side advertises which message digests it holds for
//! a channel (a [`SyncFilter`]); the other side replies with whatever the first is missing. The
//! filter is an explicit digest set; a Golomb-coded set is a later, bandwidth-saving refinement
//! that keeps the same interface.

use vstd::prelude::*;

use crate::bytes::be_u64_of;
use crate::frag::u64_key;
use crate::text::{push_str, to_lowercase, trim_whitespace, unicode_lowercase, unicode_trim};
use std::collections::BTreeSet;

verus! {

broadcast use {vstd::std_specs::btree::group_btree_axioms, vstd::seq_lib::group_seq_properties};

/// The text with every leading `#` removed.
pub open spec fn strip_leading_hashes(s: Seq<char>) -> Seq<char>
    decreases s.len(),
{
    if s.len() > 0 && s[0] == '#' {
        strip_leading_hashes(s.drop_first())
    } else {
        s
    }
}

/// The canonical name of a channel: `#`, then the trimmed name without its leading `#`s,
/// lower-cased.
pub open spec fn spec_normalize(name: Seq<char>) -> Seq<char> {
    seq!['#'] + unicode_lowercase(strip_leading_hashes(unicode_trim(name)))
}

/// Normalize a channel name: lower-cased, leading `#` implied. `"General"` and `"#general"`
/// address the same channel.
pub fn normalize(name: &str) -> (r: String)
    ensures
        r@ == spec_normalize(name@),
{
    let trimmed = trim_whitespace(name);
    let t = trimmed.as_str();
    let len = t.unicode_len();
    let mut k: usize = 0;
    assert(t@.subrange(0, len as int) =~= t@);
    while k < len && t.get_char(k) == '#'
        invariant
            k <= len,
            len == t@.len(),
            strip_leading_hashes(t@) == strip_leading_hashes(t@.subrange(k as int, len as int)),
        decreases len - k,
    {
        assert(t@.subrange(k as int, len as int).drop_first() =~= t@.subrange(
            k + 1,
            len as int,
        ));
        k = k + 1;
    }
    assert(strip_leading_hashes(t@.subrange(k as int, len as int)) == t@.subrange(
        k as int,
        len as int,
    ));
    let rest = t.substring_char(k, len);
    let lower = to_lowercase(rest);
    let mut out = String::new();
    push_str(&mut out, "#");
    push_str(&mut out, lower.as_str());
    proof {
        reveal_strlit("#");
        assert(out@ =~= spec_normalize(name@));
    }
    out
}

/// The default channel every node joins on first run.
pub const DEFAULT_CHANNEL: &'static str = "#general";

/// The ordering key of a digest: its eight bytes read big-endian, so keys order as the byte
/// arrays do.
pub open spec fn key(d: [u8; 8]) -> u64 {
    be_u64_of(d@)
}

/// The keys of a digest list, in order.
pub open spec fn keys(v: Seq<[u8; 8]>) -> Seq<u64> {
    v.map_values(|d: [u8; 8]| key(d))
}

/// Strictly increasing by key: sorted, with no digest twice.
pub open spec fn strictly_sorted(v: Seq<[u8; 8]>) -> bool {
    forall|i: int, j: int| 0 <= i < j < v.len() ==> key(#[trigger] v[i]) < key(#[trigger] v[j])
}

/// A compact statement of "these are the digests I hold for this channel."
#[derive(Debug, Clone, PartialEq, Eq)]
pub struct SyncFilter {
    pub channel: String,
    pub digests: Vec<[u8; 8]>,
}

impl SyncFilter {
    /// A filter over `digests`, sorted and without repeats.
    pub fn new(channel: String, digests: Vec<[u8; 8]>) -> (f: Self)
        ensures
            f.channel@ == channel@,
            strictly_sorted(f.digests@),
            keys(f.digests@).to_set() == keys(digests@).to_set(),
            forall|i: int| 0 <= i < f.digests@.len() ==> digests@.contains(#[trigger] f.digests@[i]),
    {
        let mut out: Vec<[u8; 8]> = Vec::new();
        let mut i: usize = 0;
        while i < digests.len()
            invariant
                i <= digests@.len(),
                strictly_sorted(out@),
                keys(out@).to_set() == keys(digests@.subrange(0, i as int)).to_set(),
                forall|j: int| 0 <= j < out@.len() ==> digests@.contains(#[trigger] out@[j]),
            decreases digests@.len() - i,
        {
            let d = digests[i];
            let kd = u64_key(&d);
            // First position whose key is at least `kd`.
            let mut pos: usize = 0;
            while pos < out.len() && u64_key(&out[pos]) < kd
                invariant
                    pos <= out@.len(),
                    forall|j: int| 0 <= j < pos ==> key(#[trigger] out@[j]) < kd,
                decreases out@.len() - pos,
            {
                pos = pos + 1;
            }
            let ghost before = out@;
            proof {
                assert(keys(digests@.subrange(0, i + 1)) =~= keys(digests@.subrange(0, i as int)).push(
                    kd,
                ));
            }
            if pos < out.len() && u64_key(&out[pos]) == kd {
                // Already present.
                proof {
                    assert(keys(before)[pos as int] == kd);
                    assert(keys(digests@.subrange(0, i as int)).to_set().insert(kd) =~= keys(
                        before,
                    ).to_set());
                    assert(keys(digests@.subrange(0, i as int)).push(kd).to_set() =~= keys(
                        digests@.subrange(0, i as int),
                    ).to_set().insert(kd));
                }
            } else {
                out.insert(pos, d);
                proof {
                    assert forall|a: int, b: int| 0 <= a < b < out@.len() implies key(
                        #[trigger] out@[a],
                    ) < key(#[trigger] out@[b]) by {
                        if a < pos && b > pos {
                            assert(out@[b] == before[b - 1]);
                            if b - 1 >= pos as int + 0 && (pos as int) < before.len() {
                                assert(key(before[pos as int]) >= kd);
                                if b - 1 > pos {
                                    assert(key(before[pos as int]) < key(before[b - 1]));
                                }
                            }
                        } else if a < pos && b == pos {
                        } else if a == pos && b > pos {
                            assert(out@[b] == before[b - 1]);
                            assert(key(before[pos as int]) >= kd);
                            if b - 1 > pos {
                                assert(key(before[pos as int]) < key(before[b - 1]));
                            }
                        } else if a > pos {
                            assert(out@[a] == before[a - 1]);
                            assert(out@[b] == before[b - 1]);
                        } else {
                            assert(out@[a] == before[a]);
                            assert(out@[b] == before[b]);
                        }
                    }
                    assert(keys(out@) =~= keys(before).insert(pos as int, kd));
                    assert(keys(out@).to_set() =~= keys(before).to_set().insert(kd)) by {
                        assert forall|x: u64| keys(out@).to_set().contains(x) implies keys(
                            before,
                        ).to_set().insert(kd).contains(x) by {
                            let j = choose|j: int| 0 <= j < keys(out@).len() && keys(out@)[j] == x;
                            if j < pos {
                                assert(keys(before)[j] == x);
                            } else if j > pos {
                                assert(keys(before)[j - 1] == x);
                            }
                        }
                        assert forall|x: u64| keys(before).to_set().insert(kd).contains(x) implies keys(
                            out@,
                        ).to_set().contains(x) by {
                            if x == kd {
                                assert(keys(out@)[pos as int] == x);
                            } else {
                                let j = choose|j: int| 0 <= j < keys(before).len() && keys(before)[j] == x;
                                if j < pos {
                                    assert(keys(out@)[j] == x);
                                } else {
                                    assert(keys(out@)[j + 1] == x);
                                }
                            }
                        }
                    }
                    assert(keys(digests@.subrange(0, i as int)).push(kd).to_set() =~= keys(
                        digests@.subrange(0, i as int),
                    ).to_set().insert(kd));
                    assert forall|j: int| 0 <= j < out@.len() implies digests@.contains(
                        #[trigger] out@[j],
                    ) by {
                        if j < pos {
                            assert(out@[j] == before[j]);
                        } else if j > pos {
                            assert(out@[j] == before[j - 1]);
                        } else {
                            assert(digests@[i as int] == d);
                        }
                    }
                }
            }
            i = i + 1;
        }
        assert(digests@.subrange(0, digests@.len() as int) =~= digests@);
        SyncFilter { channel, digests: out }
    }

    /// Digests present locally (`self`) that the remote filter is missing — i.e. what we should
    /// send them to bring them up to date. Order follows `self`.
    pub fn missing_from(&self, remote: &SyncFilter) -> (missing: Vec<[u8; 8]>)
        ensures
            missing@ == self.digests@.filter(not_held_by(remote.digests@)),
    {
        let mut theirs: BTreeSet<u64> = BTreeSet::new();
        let mut j: usize = 0;
        while j < remote.digests.len()
            invariant
                j <= remote.digests@.len(),
                theirs@ == keys(remote.digests@.subrange(0, j as int)).to_set(),
            decreases remote.digests@.len() - j,
        {
            let k = u64_key(&remote.digests[j]);
            theirs.insert(k);
            proof {
                assert(keys(remote.digests@.subrange(0, j + 1)) =~= keys(
                    remote.digests@.subrange(0, j as int),
                ).push(k));
                assert(keys(remote.digests@.subrange(0, j as int)).push(k).to_set() =~= keys(
                    remote.digests@.subrange(0, j as int),
                ).to_set().insert(k));
            }
            j = j + 1;
        }
        assert(remote.digests@.subrange(0, remote.digests@.len() as int) =~= remote.digests@);
        let ghost pred = not_held_by(remote.digests@);
        let mut out: Vec<[u8; 8]> = Vec::new();
        let mut i: usize = 0;
        while i < self.digests.len()
            invariant
                i <= self.digests@.len(),
                theirs@ == keys(remote.digests@).to_set(),
                pred == not_held_by(remote.digests@),
                out@ == self.digests@.subrange(0, i as int).filter(pred),
            decreases self.digests@.len() - i,
        {
            let d = self.digests[i];
            let k = u64_key(&d);
            proof {
                assert(self.digests@.subrange(0, i + 1) =~= self.digests@.subrange(0, i as int).push(
                    d,
                ));
                self.digests@.subrange(0, i as int).lemma_filter_push(d, pred);
            }
            if !theirs.contains(&k) {
                out.push(d);
            }
            i = i + 1;
        }
        assert(self.digests@.subrange(0, self.digests@.len() as int) =~= self.digests@);
        out
    }
}

/// The digests whose key is not among those of `theirs`.
pub open spec fn not_held_by(theirs: Seq<[u8; 8]>) -> spec_fn([u8; 8]) -> bool {
    |d: [u8; 8]| !keys(theirs).contains(key(d))
}

/// Filtering out what `theirs` holds keeps a strictly sorted list strictly sorted, keeps only
/// members, and leaves exactly the keys not held by `theirs`.
pub proof fn lemma_filter_not_held(s: Seq<[u8; 8]>, theirs: Seq<[u8; 8]>)
    ensures
        keys(s.filter(not_held_by(theirs))).to_set() == keys(s).to_set().difference(
            keys(theirs).to_set(),
        ),
        strictly_sorted(s) ==> strictly_sorted(s.filter(not_held_by(theirs))),
        forall|x: [u8; 8]| #[trigger] s.filter(not_held_by(theirs)).contains(x) ==> s.contains(x),
    decreases s.len(),
{
    let pred = not_held_by(theirs);
    let r = keys(theirs).to_set();
    if s.len() == 0 {
        assert(keys(s.filter(pred)).to_set() =~= Set::<u64>::empty());
        assert(keys(s).to_set() =~= Set::<u64>::empty());
        assert(keys(s).to_set().difference(r) =~= Set::<u64>::empty());
    } else {
        let t = s.drop_last();
        let x = s.last();
        let f = t.filter(pred);
        lemma_filter_not_held(t, theirs);
        reveal(Seq::filter);
        assert(s.filter(pred) == if pred(x) { f.push(x) } else { f });
        assert(keys(s) =~= keys(t).push(key(x)));
        assert(keys(s).to_set() =~= keys(t).to_set().insert(key(x)));
        assert(pred(x) == !r.contains(key(x)));
        if pred(x) {
            assert(keys(f.push(x)) =~= keys(f).push(key(x)));
            assert(keys(f.push(x)).to_set() =~= keys(f).to_set().insert(key(x)));
            assert(keys(s.filter(pred)).to_set() =~= keys(s).to_set().difference(r));
            assert forall|y: [u8; 8]| #[trigger] s.filter(pred).contains(y) implies s.contains(y) by {
                if y != x {
                    let j = choose|j: int| 0 <= j < f.push(x).len() && f.push(x)[j] == y;
                    assert(f[j] == y);
                    assert(f.contains(y));
                    let k = choose|k: int| 0 <= k < t.len() && t[k] == y;
                    assert(s[k] == y);
                } else {
                    assert(s[s.len() - 1] == y);
                }
            }
            if strictly_sorted(s) {
                assert(strictly_sorted(t));
                assert forall|i: int, j: int| 0 <= i < j < f.push(x).len() implies key(
                    #[trigger] f.push(x)[i],
                ) < key(#[trigger] f.push(x)[j]) by {
                    if j == f.len() {
                        assert(f.contains(f[i]));
                        let k = choose|k: int| 0 <= k < t.len() && t[k] == f[i];
                        assert(s[k] == f[i]);
                        assert(f.push(x)[j] == s[s.len() - 1]);
                    } else {
                        assert(f.push(x)[i] == f[i]);
                        assert(f.push(x)[j] == f[j]);
                    }
                }
            }
        } else {
            assert(keys(s.filter(pred)).to_set() =~= keys(s).to_set().difference(r));
            assert forall|y: [u8; 8]| #[trigger] s.filter(pred).contains(y) implies s.contains(y) by {
                let k = choose|k: int| 0 <= k < t.len() && t[k] == y;
                assert(s[k] == y);
            }
            if strictly_sorted(s) {
                assert(strictly_sorted(t));
            }
        }
    }
}

/// Two strictly sorted digest lists with the same keys are the same list.
pub proof fn lemma_sorted_keys_determine(a: Seq<[u8; 8]>, b: Seq<[u8; 8]>)
    requires
        strictly_sorted(a),
        strictly_sorted(b),
        keys(a).to_set() == keys(b).to_set(),
    ensures
        a == b,
    decreases a.len() + b.len(),
{
    broadcast use vstd::array::group_array_axioms;
    let ka = keys(a);
    let kb = keys(b);
    if a.len() == 0 || b.len() == 0 {
        if a.len() > 0 {
            assert(ka.contains(ka[0]));
            assert(kb.to_set().contains(ka[0]));
        }
        if b.len() > 0 {
            assert(kb.contains(kb[0]));
            assert(ka.to_set().contains(kb[0]));
        }
        assert(a =~= b);
    } else {
        let x = a.last();
        let y = b.last();
        // The last key of each is the largest of the shared key set.
        assert(ka.contains(key(x))) by {
            assert(ka[a.len() - 1] == key(x));
        }
        assert(kb.contains(key(y))) by {
            assert(kb[b.len() - 1] == key(y));
        }
        assert(kb.to_set().contains(key(x)));
        assert(ka.to_set().contains(key(y)));
        let j = choose|j: int| 0 <= j < kb.len() && kb[j] == key(x);
        let i = choose|i: int| 0 <= i < ka.len() && ka[i] == key(y);
        assert(key(b[j]) == key(x));
        assert(key(a[i]) == key(y));
        assert(key(x) <= key(y)) by {
            if j < b.len() - 1 {
                assert(key(b[j]) < key(b[b.len() - 1]));
            }
        }
        assert(key(y) <= key(x)) by {
            if i < a.len() - 1 {
                assert(key(a[i]) < key(a[a.len() - 1]));
            }
        }
        crate::bytes::lemma_be_u64_bytes_roundtrip(x@);
        crate::bytes::lemma_be_u64_bytes_roundtrip(y@);
        assert(x@ == y@);
        assert(x =~= y);
        let a2 = a.drop_last();
        let b2 = b.drop_last();
        assert(keys(a2) =~= ka.drop_last());
        assert(keys(b2) =~= kb.drop_last());
        assert forall|k: u64| #[trigger] keys(a2).to_set().contains(k) == keys(b2).to_set().contains(k) by {
            if keys(a2).to_set().contains(k) {
                let p = choose|p: int| 0 <= p < keys(a2).len() && keys(a2)[p] == k;
                assert(key(a[p]) == k && key(a[p]) < key(x));
                assert(ka.contains(k));
                assert(kb.to_set().contains(k));
                let q = choose|q: int| 0 <= q < kb.len() && kb[q] == k;
                assert(q != b.len() - 1);
                assert(keys(b2)[q] == k);
            }
            if keys(b2).to_set().contains(k) {
                let p = choose|p: int| 0 <= p < keys(b2).len() && keys(b2)[p] == k;
                assert(key(b[p]) == k && key(b[p]) < key(y));
                assert(kb.contains(k));
                assert(ka.to_set().contains(k));
                let q = choose|q: int| 0 <= q < ka.len() && ka[q] == k;
                assert(q != a.len() - 1);
                assert(keys(a2)[q] == k);
            }
        }
        assert(keys(a2).to_set() =~= keys(b2).to_set());
        lemma_sorted_keys_determine(a2, b2);
        assert(a =~= a2.push(x));
        assert(b =~= b2.push(y));
    }
}

/// Reconciliation brings the remote side up to date: every digest held locally is either already
/// held remotely or is among those sent, and nothing sent is already held remotely.
pub proof fn law_reconciliation_complete(mine: Seq<[u8; 8]>, theirs: Seq<[u8; 8]>, d: [u8; 8])
    requires
        mine.contains(d),
    ensures
        keys(theirs).contains(key(d)) || mine.filter(
            |x: [u8; 8]| !keys(theirs).contains(key(x)),
        ).contains(d),
        mine.filter(|x: [u8; 8]| !keys(theirs).contains(key(x))).contains(d) ==> !keys(
            theirs,
        ).contains(key(d)),
{
    let pred = |x: [u8; 8]| !keys(theirs).contains(key(x));
    broadcast use vstd::seq_lib::group_filter_ensures;
    if !keys(theirs).contains(key(d)) {
        let i = choose|i: int| 0 <= i < mine.len() && mine[i] == d;
        mine.lemma_filter_contains(pred, i);
    }
    if mine.filter(pred).contains(d) {
        let i = choose|i: int| 0 <= i < mine.filter(pred).len() && mine.filter(pred)[i] == d;
        mine.lemma_filter_pred(pred, i);
    }
}

} // verus!
