//! The stable wire format of a store snapshot, and the codec over it.
//!
//! The persisted shape of a store is an explicit snapshot — the counter
//! followed by the ordered `(version, record)` entries — independent of
//! anything about the live structure. The byte layout is: the counter as 8
//! little-endian bytes, the entry count as 8 little-endian bytes, then each
//! entry as its version (8 little-endian bytes) followed by the record's own
//! encoding. Field order (counter before entries) is fixed.

use vstd::prelude::*;
use vstd::bytes::spec_u64_to_le_bytes;
use vstd::bytes::lemma_auto_spec_u64_to_from_le_bytes;
use vstd::bytes::u64_to_le_bytes;
use vstd::bytes::u64_from_le_bytes;
use vstd::slice::slice_subrange;
use crate::local::entries_wf;

verus! {

/// A record type with a stable, self-delimiting byte encoding.
pub trait Wire: Sized {
    /// The byte encoding of this value.
    spec fn wire(&self) -> Seq<u8>;

    /// No encoding is a strict prefix of another: a stream that starts with
    /// an encoding determines where it ends.
    proof fn wire_prefix_free(a: &Self, b: &Self, ra: Seq<u8>, rb: Seq<u8>)
        requires
            a.wire() + ra == b.wire() + rb,
        ensures
            a.wire() == b.wire(),
    ;

    /// Appends the encoding of `self` to `out`.
    fn write_wire(&self, out: &mut Vec<u8>)
        ensures
            final(out)@ == old(out)@ + self.wire(),
    ;

    /// Reads one value starting at `pos`, returning it with the position
    /// just past its encoding. Whenever the bytes at `pos` start with the
    /// encoding of some value, the read succeeds and returns a value with
    /// that very encoding.
    fn read_wire(bytes: &Vec<u8>, pos: usize) -> (r: Option<(Self, usize)>)
        requires
            pos <= bytes@.len(),
        ensures
            r matches Some(p) ==> pos <= p.1 <= bytes@.len()
                && p.0.wire() == bytes@.subrange(pos as int, p.1 as int),
            forall|v: Self| (pos + (#[trigger] v.wire()).len() <= bytes@.len()
                && bytes@.subrange(pos as int, pos + v.wire().len()) == v.wire())
                ==> (r matches Some(p) && p.1 == pos + v.wire().len()
                    && p.0.wire() == v.wire()),
    ;
}

impl Wire for u64 {
    open spec fn wire(&self) -> Seq<u8> {
        spec_u64_to_le_bytes(*self)
    }

    proof fn wire_prefix_free(a: &Self, b: &Self, ra: Seq<u8>, rb: Seq<u8>) {
        lemma_auto_spec_u64_to_from_le_bytes();
        let w1 = a.wire();
        let w2 = b.wire();
        assert forall|i: int| 0 <= i < 8 implies w1[i] == w2[i] by {
            assert(w1[i] == (w1 + ra)[i]);
            assert(w2[i] == (w2 + rb)[i]);
        }
        assert(w1 =~= w2);
    }

    fn write_wire(&self, out: &mut Vec<u8>) {
        let mut bs = u64_to_le_bytes(*self);
        out.append(&mut bs);
    }

    fn read_wire(bytes: &Vec<u8>, pos: usize) -> (r: Option<(Self, usize)>) {
        proof {
            lemma_auto_spec_u64_to_from_le_bytes();
        }
        if bytes.len() - pos < 8 {
            return None;
        }
        let x = u64_from_le_bytes(slice_subrange(bytes.as_slice(), pos, pos + 8));
        proof {
            assert(spec_u64_to_le_bytes(x) == bytes@.subrange(pos as int, pos + 8));
        }
        Some((x, pos + 8))
    }
}

/// The byte encoding of an entry list: each entry is its version in 8
/// little-endian bytes followed by the record's encoding.
pub open spec fn entries_wire<K: Wire>(es: Seq<(u64, K)>) -> Seq<u8>
    decreases es.len(),
{
    if es.len() == 0 {
        Seq::empty()
    } else {
        spec_u64_to_le_bytes(es.first().0) + es.first().1.wire() + entries_wire(es.drop_first())
    }
}

/// The byte encoding of a full snapshot: counter, entry count, entries.
pub open spec fn snapshot_wire<K: Wire>(counter: u64, es: Seq<(u64, K)>) -> Seq<u8> {
    spec_u64_to_le_bytes(counter) + spec_u64_to_le_bytes(es.len() as u64) + entries_wire(es)
}

proof fn lemma_entries_wire_snoc<K: Wire>(es: Seq<(u64, K)>, e: (u64, K))
    ensures
        entries_wire(es.push(e)) == entries_wire(es) + spec_u64_to_le_bytes(e.0) + e.1.wire(),
    decreases es.len(),
{
    if es.len() == 0 {
        assert(es.push(e).drop_first() =~= Seq::<(u64, K)>::empty());
        assert(es.push(e).first() == e);
        assert(entries_wire(Seq::<(u64, K)>::empty()) =~= Seq::<u8>::empty());
        assert(entries_wire(es) =~= Seq::<u8>::empty());
        assert(entries_wire(es.push(e)) =~= entries_wire(es) + spec_u64_to_le_bytes(e.0) + e.1.wire());
    } else {
        assert(es.push(e).drop_first() =~= es.drop_first().push(e));
        assert(es.push(e).first() == es.first());
        lemma_entries_wire_snoc(es.drop_first(), e);
        assert(entries_wire(es.push(e)) =~= entries_wire(es) + spec_u64_to_le_bytes(e.0) + e.1.wire());
    }
}

/// Two entry lists of one length whose versions agree and whose records
/// encode alike encode alike as lists.
pub(crate) proof fn lemma_entries_wire_congruent<K: Wire>(es1: Seq<(u64, K)>, es2: Seq<(u64, K)>)
    requires
        es1.len() == es2.len(),
        forall|i: int| 0 <= i < es1.len()
            ==> (#[trigger] es1[i]).0 == (#[trigger] es2[i]).0 && es1[i].1.wire() == es2[i].1.wire(),
    ensures
        entries_wire(es1) == entries_wire(es2),
    decreases es1.len(),
{
    if es1.len() > 0 {
        assert(es1[0] == es1.first() && es2[0] == es2.first());
        lemma_entries_wire_congruent(es1.drop_first(), es2.drop_first());
        assert(entries_wire(es1) =~= entries_wire(es2));
    }
}

/// Entry lists of one length with one encoding agree on every version and
/// on every record's encoding.
proof fn lemma_entries_wire_injective<K: Wire>(es1: Seq<(u64, K)>, es2: Seq<(u64, K)>)
    requires
        es1.len() == es2.len(),
        entries_wire(es1) == entries_wire(es2),
    ensures
        forall|i: int| 0 <= i < es1.len()
            ==> (#[trigger] es1[i]).0 == (#[trigger] es2[i]).0 && es1[i].1.wire() == es2[i].1.wire(),
    decreases es1.len(),
{
    lemma_auto_spec_u64_to_from_le_bytes();
    if es1.len() > 0 {
        let (k1, r1) = es1.first();
        let (k2, r2) = es2.first();
        let w1 = entries_wire(es1);
        let w2 = entries_wire(es2);
        assert(w1 == spec_u64_to_le_bytes(k1) + r1.wire() + entries_wire(es1.drop_first()));
        assert(w2 == spec_u64_to_le_bytes(k2) + r2.wire() + entries_wire(es2.drop_first()));
        assert(spec_u64_to_le_bytes(k1) =~= w1.subrange(0, 8));
        assert(spec_u64_to_le_bytes(k2) =~= w2.subrange(0, 8));
        assert(k1 == k2);
        let t1 = r1.wire() + entries_wire(es1.drop_first());
        let t2 = r2.wire() + entries_wire(es2.drop_first());
        assert(t1 =~= w1.skip(8));
        assert(t2 =~= w2.skip(8));
        K::wire_prefix_free(&r1, &r2, entries_wire(es1.drop_first()), entries_wire(es2.drop_first()));
        assert(entries_wire(es1.drop_first()) =~= t1.skip(r1.wire().len() as int));
        assert(entries_wire(es2.drop_first()) =~= t2.skip(r2.wire().len() as int));
        lemma_entries_wire_injective(es1.drop_first(), es2.drop_first());
        assert forall|i: int| 0 <= i < es1.len()
            implies (#[trigger] es1[i]).0 == (#[trigger] es2[i]).0 && es1[i].1.wire() == es2[i].1.wire() by {
            if i > 0 {
                assert(es1[i] == es1.drop_first()[i - 1]);
                assert(es2[i] == es2.drop_first()[i - 1]);
            }
        }
    }
}

/// Law: the snapshot encoding is injective — two snapshots with one
/// encoding have one counter, and entry lists that agree on length, on
/// every version, and on every record's encoding. Decoding therefore
/// reproduces the snapshot that was encoded.
pub proof fn lemma_snapshot_wire_injective<K: Wire>(
    c1: u64,
    es1: Seq<(u64, K)>,
    c2: u64,
    es2: Seq<(u64, K)>,
)
    requires
        snapshot_wire(c1, es1) == snapshot_wire(c2, es2),
        es1.len() <= u64::MAX,
        es2.len() <= u64::MAX,
    ensures
        c1 == c2,
        es1.len() == es2.len(),
        forall|i: int| 0 <= i < es1.len()
            ==> (#[trigger] es1[i]).0 == (#[trigger] es2[i]).0 && es1[i].1.wire() == es2[i].1.wire(),
{
    lemma_auto_spec_u64_to_from_le_bytes();
    let w1 = snapshot_wire(c1, es1);
    let w2 = snapshot_wire(c2, es2);
    assert(spec_u64_to_le_bytes(c1) =~= w1.subrange(0, 8));
    assert(spec_u64_to_le_bytes(c2) =~= w2.subrange(0, 8));
    assert(spec_u64_to_le_bytes(es1.len() as u64) =~= w1.subrange(8, 16));
    assert(spec_u64_to_le_bytes(es2.len() as u64) =~= w2.subrange(8, 16));
    assert(es1.len() as u64 == es2.len() as u64);
    assert(entries_wire(es1) =~= w1.skip(16));
    assert(entries_wire(es2) =~= w2.skip(16));
    lemma_entries_wire_injective(es1, es2);
}

/// Law: persistence round trip. A well-formed snapshot is small enough to
/// encode, and two well-formed snapshots with one encoding are one
/// snapshot: same counter, same versions, records that encode alike. With
/// the codec's contracts — encoding produces `snapshot_wire`, decoding
/// succeeds on exactly such encodings and returns a snapshot with that
/// encoding — saving and reloading a store reproduces it.
pub proof fn lemma_save_load_round_trip<K: Wire>(
    c1: u64,
    es1: Seq<(u64, K)>,
    c2: u64,
    es2: Seq<(u64, K)>,
)
    requires
        entries_wf(es1, c1),
    ensures
        es1.len() <= u64::MAX,
        (entries_wf(es2, c2) && es2.len() <= u64::MAX
            && snapshot_wire(c1, es1) == snapshot_wire(c2, es2))
            ==> c1 == c2 && es1.len() == es2.len()
                && (forall|i: int| 0 <= i < es1.len()
                    ==> (#[trigger] es1[i]).0 == (#[trigger] es2[i]).0
                        && es1[i].1.wire() == es2[i].1.wire()),
{
    crate::local::lemma_entries_len_bounded(es1, c1);
    if entries_wf(es2, c2) && es2.len() <= u64::MAX
        && snapshot_wire(c1, es1) == snapshot_wire(c2, es2) {
        lemma_snapshot_wire_injective(c1, es1, c2, es2);
    }
}

/// Encodes a snapshot — the counter and the ordered entry list — to bytes.
pub fn encode_snapshot<K: Wire>(counter: u64, entries: &Vec<(u64, K)>) -> (r: Vec<u8>)
    ensures
        r@ == snapshot_wire(counter, entries@),
{
    let mut out: Vec<u8> = Vec::new();
    counter.write_wire(&mut out);
    let n = entries.len();
    (n as u64).write_wire(&mut out);
    let ghost prefix = spec_u64_to_le_bytes(counter) + spec_u64_to_le_bytes(entries@.len() as u64);
    proof {
        assert(out@ =~= prefix + entries_wire(entries@.take(0)));
    }
    for i in 0..n
        invariant
            n == entries@.len(),
            prefix == spec_u64_to_le_bytes(counter) + spec_u64_to_le_bytes(entries@.len() as u64),
            out@ == prefix + entries_wire(entries@.take(i as int)),
    {
        let ghost taken = entries@.take(i as int);
        entries[i].0.write_wire(&mut out);
        entries[i].1.write_wire(&mut out);
        proof {
            lemma_entries_wire_snoc(taken, entries@[i as int]);
            assert(entries@.take(i + 1) =~= taken.push(entries@[i as int]));
            assert(out@ =~= prefix + entries_wire(entries@.take(i + 1)));
        }
    }
    proof {
        assert(entries@.take(n as int) =~= entries@);
        assert(out@ =~= snapshot_wire(counter, entries@));
    }
    out
}

/// Decodes a snapshot from bytes. Succeeds on exactly the encodings of
/// well-formed snapshots that fill the byte string, and then returns a
/// counter and entry list whose encoding is that byte string; `None` marks
/// malformed bytes.
#[verifier::rlimit(50)]
pub fn decode_snapshot<K: Wire>(bytes: &Vec<u8>) -> (r: Option<(u64, Vec<(u64, K)>)>)
    ensures
        r matches Some(p) ==> bytes@ == snapshot_wire(p.0, p.1@) && entries_wf(p.1@, p.0),
        forall|c: u64, es: Seq<(u64, K)>| (bytes@ == #[trigger] snapshot_wire(c, es)
            && entries_wf(es, c) && es.len() <= u64::MAX)
            ==> r is Some,
{
    proof {
        lemma_auto_spec_u64_to_from_le_bytes();
    }
    let ghost good = exists|c: u64, es: Seq<(u64, K)>| bytes@ == #[trigger] snapshot_wire(c, es)
        && entries_wf(es, c) && es.len() <= u64::MAX;
    let ghost (gc, ges): (u64, Seq<(u64, K)>) = if good {
        choose|c: u64, es: Seq<(u64, K)>| bytes@ == #[trigger] snapshot_wire(c, es)
            && entries_wf(es, c) && es.len() <= u64::MAX
    } else {
        (0u64, Seq::empty())
    };
    let counter = match u64::read_wire(bytes, 0) {
        Some(p) => p.0,
        None => {
            proof {
                if good {
                    assert(bytes@.subrange(0, 8) =~= gc.wire());
                    assert(false);
                }
            }
            return None;
        },
    };
    let count = match u64::read_wire(bytes, 8) {
        Some(p) => p.0,
        None => {
            proof {
                if good {
                    let gn = ges.len() as u64;
                    assert(bytes@.subrange(8, 16) =~= gn.wire());
                    assert(false);
                }
            }
            return None;
        },
    };
    proof {
        if good {
            assert(bytes@.subrange(0, 8) =~= spec_u64_to_le_bytes(gc));
            assert(bytes@.subrange(8, 16) =~= spec_u64_to_le_bytes(ges.len() as u64));
            assert(counter.wire() == bytes@.subrange(0, 8));
            assert(count.wire() == bytes@.subrange(8, 16));
            assert(counter == gc);
            assert(count == ges.len() as u64);
        }
    }
    let mut entries: Vec<(u64, K)> = Vec::new();
    let mut pos: usize = 16;
    if bytes.len() < 16 {
        proof {
            if good {
                assert(false);
            }
        }
        return None;
    }
    let mut i: u64 = 0;
    let ghost prefix = spec_u64_to_le_bytes(counter) + spec_u64_to_le_bytes(count);
    proof {
        assert(bytes@.take(16) =~= prefix + entries_wire(entries@));
    }
    while i < count
        invariant
            i <= count,
            entries@.len() == i,
            pos <= bytes@.len(),
            16 <= pos,
            prefix == spec_u64_to_le_bytes(counter) + spec_u64_to_le_bytes(count),
            bytes@.take(pos as int) == prefix + entries_wire(entries@),
            entries_wf(entries@, counter),
            good == (exists|c: u64, es: Seq<(u64, K)>| bytes@ == #[trigger] snapshot_wire(c, es)
                && entries_wf(es, c) && es.len() <= u64::MAX),
            good ==> bytes@ == snapshot_wire(gc, ges) && entries_wf(ges, gc)
                && ges.len() <= u64::MAX && counter == gc && count == ges.len(),
            good ==> forall|j: int| 0 <= j < i
                ==> (#[trigger] entries@[j]).0 == ges[j].0 && entries@[j].1.wire() == ges[j].1.wire(),
        decreases count - i,
    {
        let ghost pre_entries = entries@;
        proof {
            lemma_auto_spec_u64_to_from_le_bytes();
            if good {
                assert(count == ges.len() as u64);
                assert(bytes@ =~= prefix + entries_wire(ges));
                lemma_entries_take_step(ges, i as int, bytes@, pos as int, pre_entries, prefix);
            }
        }
        let (key, pos2) = match u64::read_wire(bytes, pos) {
            Some(p) => p,
            None => {
                proof {
                    if good {
                        let v = ges[i as int].0;
                        assert(pos + v.wire().len() <= bytes@.len());
                        assert(bytes@.subrange(pos as int, pos + v.wire().len()) == v.wire());
                        assert(false);
                    }
                }
                return None;
            },
        };
        proof {
            assert(pos2 == pos + 8);
        }
        let (record, pos3) = match K::read_wire(bytes, pos2) {
            Some(p) => p,
            None => {
                proof {
                    if good {
                        let v = ges[i as int].1;
                        assert(pos2 + v.wire().len() <= bytes@.len());
                        assert(bytes@.subrange(pos2 as int, pos2 + v.wire().len()) == v.wire());
                        assert(false);
                    }
                }
                return None;
            },
        };
        let bounds_ok = 1 <= key && key <= counter
            && (entries.len() == 0 || entries[entries.len() - 1].0 < key);
        if !bounds_ok {
            proof {
                if good {
                    assert(bytes@.subrange(pos as int, pos + 8) =~= spec_u64_to_le_bytes(ges[i as int].0));
                    assert(key.wire() == bytes@.subrange(pos as int, pos2 as int));
                    assert(key == ges[i as int].0);
                    if i > 0 {
                        assert(pre_entries[i - 1].0 == ges[i - 1].0);
                        assert(ges[i - 1].0 < ges[i as int].0);
                    }
                    assert(false);
                }
            }
            return None;
        }
        entries.push((key, record));
        pos = pos3;
        i = i + 1;
        proof {
            lemma_entries_wire_snoc(pre_entries, (key, record));
            assert(record.wire() == bytes@.subrange(pos2 as int, pos3 as int));
            assert(key.wire() == bytes@.subrange(pos2 - 8, pos2 as int));
            assert(bytes@.take(pos as int) =~= bytes@.take(pos2 as int) + record.wire());
            assert(bytes@.take(pos2 as int) =~= bytes@.take(pos2 - 8) + spec_u64_to_le_bytes(key));
            assert(bytes@.take(pos as int) =~= prefix + entries_wire(entries@));
            assert forall|p: int, q: int| 0 <= p < q < entries@.len()
                implies (#[trigger] entries@[p]).0 < (#[trigger] entries@[q]).0 by {
                if q < entries@.len() - 1 {
                    assert(entries@[p] == pre_entries[p] && entries@[q] == pre_entries[q]);
                } else if p < entries@.len() - 1 {
                    assert(entries@[p] == pre_entries[p]);
                    assert(pre_entries[p].0 <= pre_entries[pre_entries.len() - 1].0);
                }
            }
            if good {
                let gi = i - 1;
                assert(bytes@.subrange(pos2 - 8, pos2 as int) =~= spec_u64_to_le_bytes(ges[gi].0));
                assert(key == ges[gi].0);
                assert(record.wire() == ges[gi].1.wire());
            }
        }
    }
    if pos != bytes.len() {
        proof {
            if good {
                assert(entries@.len() == ges.len());
                lemma_entries_wire_congruent(entries@, ges);
                assert(prefix =~= spec_u64_to_le_bytes(gc) + spec_u64_to_le_bytes(ges.len() as u64));
                assert(bytes@.take(pos as int) == bytes@);
                assert(bytes@.take(pos as int).len() == pos);
                assert(false);
            }
        }
        return None;
    }
    proof {
        assert(bytes@.take(pos as int) =~= bytes@);
        assert(count == entries@.len() as u64);
        assert(spec_u64_to_le_bytes(count) == spec_u64_to_le_bytes(entries@.len() as u64));
        assert(bytes@ == snapshot_wire(counter, entries@));
    }
    Some((counter, entries))
}

/// Step fact for decoding under a known well-formed source snapshot: when
/// the bytes up to `pos` are the prefix for the first `i` entries, the bytes
/// at `pos` start with the version and record encoding of entry `i`.
proof fn lemma_entries_take_step<K: Wire>(
    ges: Seq<(u64, K)>,
    i: int,
    bytes: Seq<u8>,
    pos: int,
    decoded: Seq<(u64, K)>,
    prefix: Seq<u8>,
)
    requires
        0 <= i < ges.len(),
        decoded.len() == i,
        forall|j: int| 0 <= j < i
            ==> (#[trigger] decoded[j]).0 == ges[j].0 && decoded[j].1.wire() == ges[j].1.wire(),
        bytes == prefix + entries_wire(ges),
        16 <= pos <= bytes.len(),
        prefix.len() == 16,
        bytes.take(pos) == prefix + entries_wire(decoded),
    ensures
        pos + 8 + ges[i].1.wire().len() <= bytes.len(),
        bytes.subrange(pos, pos + 8) == spec_u64_to_le_bytes(ges[i].0),
        bytes.subrange(pos + 8, pos + 8 + ges[i].1.wire().len()) == ges[i].1.wire(),
{
    lemma_entries_wire_congruent(decoded, ges.take(i));
    lemma_entries_wire_split(ges, i);
    assert(entries_wire(decoded) == entries_wire(ges.take(i)));
    assert(entries_wire(ges) == entries_wire(ges.take(i))
        + (spec_u64_to_le_bytes(ges[i].0) + ges[i].1.wire() + entries_wire(ges.skip(i + 1))));
    assert(bytes.take(pos).len() == pos);
    assert((prefix + entries_wire(decoded)).len() == 16 + entries_wire(decoded).len());
    assert(pos == 16 + entries_wire(ges.take(i)).len());
    lemma_auto_spec_u64_to_from_le_bytes();
    assert(bytes.subrange(pos, pos + 8) =~= spec_u64_to_le_bytes(ges[i].0));
    assert(bytes.subrange(pos + 8, pos + 8 + ges[i].1.wire().len()) =~= ges[i].1.wire());
}

/// Splits the encoding of an entry list at entry `i`.
proof fn lemma_entries_wire_split<K: Wire>(es: Seq<(u64, K)>, i: int)
    requires
        0 <= i < es.len(),
    ensures
        entries_wire(es) == entries_wire(es.take(i))
            + (spec_u64_to_le_bytes(es[i].0) + es[i].1.wire() + entries_wire(es.skip(i + 1))),
    decreases i,
{
    if i == 0 {
        assert(es.take(0) =~= Seq::<(u64, K)>::empty());
        assert(es.first() == es[0]);
        assert(es.drop_first() =~= es.skip(1));
        assert(entries_wire(es) =~= entries_wire(es.take(0))
            + (spec_u64_to_le_bytes(es[0].0) + es[0].1.wire() + entries_wire(es.skip(1))));
    } else {
        lemma_entries_wire_split(es.drop_first(), i - 1);
        assert(es.drop_first().take(i - 1) =~= es.take(i).drop_first());
        assert(es.drop_first()[i - 1] == es[i]);
        assert(es.drop_first().skip(i) =~= es.skip(i + 1));
        assert(es.take(i).first() == es.first());
        assert(entries_wire(es.take(i)) == spec_u64_to_le_bytes(es.first().0) + es.first().1.wire()
            + entries_wire(es.take(i).drop_first()));
        assert(entries_wire(es) =~= entries_wire(es.take(i))
            + (spec_u64_to_le_bytes(es[i].0) + es[i].1.wire() + entries_wire(es.skip(i + 1))));
    }
}

} // verus!
