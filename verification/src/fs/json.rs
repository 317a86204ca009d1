//! The plain textual adapter: a store bound to a backing path, persisted as
//! a JSON document, `{"count":C,"store":{V1:R1,...}}`, with the counter
//! before the entries. Every value in the document — the counter, each
//! version, each record — travels as a JSON string of lowercase hexadecimal
//! characters, two per byte of the value's wire encoding.

use vstd::prelude::*;
use vstd::bytes::lemma_auto_spec_u64_to_from_le_bytes;
use vstd::bytes::spec_u64_to_le_bytes;
use vstd::bytes::u64_from_le_bytes;
use vstd::bytes::u64_to_le_bytes;
use crate::codec::Wire;
use crate::codec::snapshot_wire;
use crate::fs::Error;
use crate::local::Local;
use crate::local::entries_wf;

verus! {

/// Options naming the backing location of a plain textual adapter.
pub struct Options {
    pub path: String,
}

/// The hexadecimal character for a nibble: `0` to `9`, then `a` to `f`.
pub open spec fn hex_digit(n: u8) -> u8 {
    if n < 10 {
        (48 + n) as u8
    } else {
        (87 + n) as u8
    }
}

/// The textual rendering of a byte string: two hexadecimal characters per
/// byte, high nibble first.
pub open spec fn hex_of(bytes: Seq<u8>) -> Seq<u8> {
    Seq::new(
        bytes.len() * 2,
        |i: int| if i % 2 == 0 {
            hex_digit(bytes[i / 2] / 16)
        } else {
            hex_digit(bytes[i / 2] % 16)
        },
    )
}

proof fn lemma_hex_index(bytes: Seq<u8>, i: int)
    requires
        0 <= i < bytes.len(),
    ensures
        hex_of(bytes)[2 * i] == hex_digit(bytes[i] / 16),
        hex_of(bytes)[2 * i + 1] == hex_digit(bytes[i] % 16),
        bytes[i] / 16 < 16,
        bytes[i] % 16 < 16,
        bytes[i] == 16 * (bytes[i] / 16) + bytes[i] % 16,
{
    assert((2 * i) % 2 == 0 && (2 * i) / 2 == i) by (nonlinear_arith);
    assert((2 * i + 1) % 2 == 1 && (2 * i + 1) / 2 == i) by (nonlinear_arith);
    let b = bytes[i];
    assert(b / 16 < 16 && b % 16 < 16 && b == 16 * (b / 16) + b % 16) by (nonlinear_arith);
}

proof fn lemma_hex_digits_only(bytes: Seq<u8>, j: int)
    requires
        0 <= j < hex_of(bytes).len(),
    ensures
        48 <= hex_of(bytes)[j] <= 102,
        hex_of(bytes)[j] != 34,
{
    let i = j / 2;
    assert(0 <= i < bytes.len() && (j == 2 * i || j == 2 * i + 1)) by (nonlinear_arith)
        requires
            0 <= j < bytes.len() * 2,
            i == j / 2,
    ;
    lemma_hex_index(bytes, i);
}

/// Law: the hexadecimal rendering is injective — byte strings that render
/// alike are equal.
pub proof fn lemma_hex_of_injective(a: Seq<u8>, b: Seq<u8>)
    requires
        hex_of(a) == hex_of(b),
    ensures
        a == b,
{
    assert(hex_of(a).len() == a.len() * 2);
    assert(hex_of(b).len() == b.len() * 2);
    assert forall|i: int| 0 <= i < a.len() implies a[i] == b[i] by {
        lemma_hex_index(a, i);
        lemma_hex_index(b, i);
        assert(hex_of(a)[2 * i] == hex_of(b)[2 * i]);
        assert(hex_of(a)[2 * i + 1] == hex_of(b)[2 * i + 1]);
        assert(hex_digit(a[i] / 16) == hex_digit(b[i] / 16));
        assert(hex_digit(a[i] % 16) == hex_digit(b[i] % 16));
        assert(a[i] / 16 == b[i] / 16);
        assert(a[i] % 16 == b[i] % 16);
    }
    assert(a =~= b);
}

fn hex_digit_exec(n: u8) -> (r: u8)
    requires
        n < 16,
    ensures
        r == hex_digit(n),
{
    if n < 10 {
        48 + n
    } else {
        87 + n
    }
}

/// The nibble a hexadecimal character stands for; `None` marks a character
/// outside `0`-`9` and `a`-`f`.
fn hex_val(c: u8) -> (r: Option<u8>)
    ensures
        r matches Some(v) ==> v < 16 && hex_digit(v) == c,
        forall|v: u8| v < 16 && #[trigger] hex_digit(v) == c ==> r is Some,
{
    if 48 <= c && c <= 57 {
        Some(c - 48)
    } else if 97 <= c && c <= 102 {
        Some(c - 87)
    } else {
        None
    }
}

/// Renders bytes as hexadecimal text.
pub fn encode_hex(bytes: &Vec<u8>) -> (r: Vec<u8>)
    ensures
        r@ == hex_of(bytes@),
{
    let mut out: Vec<u8> = Vec::new();
    let n = bytes.len();
    for i in 0..n
        invariant
            n == bytes@.len(),
            out@.len() == 2 * i,
            forall|j: int| 0 <= j < 2 * i ==> out@[j] == hex_of(bytes@)[j],
    {
        let b = bytes[i];
        proof {
            lemma_hex_index(bytes@, i as int);
        }
        out.push(hex_digit_exec(b / 16));
        out.push(hex_digit_exec(b % 16));
    }
    proof {
        assert(out@ =~= hex_of(bytes@));
    }
    out
}

/// The opening of the document: `{"count":`.
pub open spec fn json_head() -> Seq<u8> {
    seq![123u8, 34u8, 99u8, 111u8, 117u8, 110u8, 116u8, 34u8, 58u8]
}

/// The field separator and the opening of the entry object: `,"store":{`.
pub open spec fn json_mid() -> Seq<u8> {
    seq![44u8, 34u8, 115u8, 116u8, 111u8, 114u8, 101u8, 34u8, 58u8, 123u8]
}

/// The closing of the entry object and of the document: `}}`.
pub open spec fn json_tail() -> Seq<u8> {
    seq![125u8, 125u8]
}

/// A JSON string holding the hexadecimal rendering of `bs`.
pub open spec fn quoted(bs: Seq<u8>) -> Seq<u8> {
    seq![34u8] + hex_of(bs) + seq![34u8]
}

/// One entry of the document: the version's wire bytes and the record's
/// wire bytes, each as a quoted hexadecimal string, a colon between them.
pub open spec fn entry_text<K: Wire>(e: (u64, K)) -> Seq<u8> {
    quoted(spec_u64_to_le_bytes(e.0)) + seq![58u8] + quoted(e.1.wire())
}

/// The comma-separated entry list of the document.
pub open spec fn entries_text<K: Wire>(es: Seq<(u64, K)>) -> Seq<u8>
    decreases es.len(),
{
    if es.len() == 0 {
        Seq::empty()
    } else if es.len() == 1 {
        entry_text(es[0])
    } else {
        entry_text(es.first()) + seq![44u8] + entries_text(es.drop_first())
    }
}

/// The entry list as consumed by a reader that has also passed the comma
/// after it, when one follows.
pub open spec fn pre_text<K: Wire>(es: Seq<(u64, K)>) -> Seq<u8> {
    if es.len() == 0 {
        Seq::empty()
    } else {
        entries_text(es) + seq![44u8]
    }
}

/// The document head up to and including the opening of the entry object.
pub open spec fn json_base(counter: u64) -> Seq<u8> {
    json_head() + quoted(spec_u64_to_le_bytes(counter)) + json_mid()
}

/// The whole document for a snapshot: counter first, then the entries.
pub open spec fn json_of<K: Wire>(counter: u64, es: Seq<(u64, K)>) -> Seq<u8> {
    json_base(counter) + entries_text(es) + json_tail()
}

proof fn lemma_entries_text_snoc<K: Wire>(es: Seq<(u64, K)>, e: (u64, K))
    ensures
        entries_text(es.push(e)) == pre_text(es) + entry_text(e),
    decreases es.len(),
{
    if es.len() == 0 {
        assert(es.push(e)[0] == e);
        assert(entries_text(es.push(e)) =~= pre_text(es) + entry_text(e));
    } else if es.len() == 1 {
        assert(es.push(e).first() == es[0]);
        assert(es.push(e).drop_first() =~= seq![e]);
        assert(entries_text(seq![e]) == entry_text(seq![e][0]));
        assert(seq![e][0] == e);
        assert(entries_text(es) == entry_text(es[0]));
        assert(entries_text(es.push(e)) =~= pre_text(es) + entry_text(e));
    } else {
        assert(es.push(e).first() == es.first());
        assert(es.push(e).drop_first() =~= es.drop_first().push(e));
        lemma_entries_text_snoc(es.drop_first(), e);
        assert(entries_text(es.push(e)) =~= pre_text(es) + entry_text(e));
    }
}

/// Entry lists whose versions agree and whose records encode alike render
/// alike.
proof fn lemma_entries_text_congruent<K: Wire>(es1: Seq<(u64, K)>, es2: Seq<(u64, K)>)
    requires
        es1.len() == es2.len(),
        forall|i: int| 0 <= i < es1.len()
            ==> (#[trigger] es1[i]).0 == (#[trigger] es2[i]).0 && es1[i].1.wire() == es2[i].1.wire(),
    ensures
        entries_text(es1) == entries_text(es2),
    decreases es1.len(),
{
    if es1.len() > 0 {
        assert(es1[0] == es1.first() && es2[0] == es2.first());
        assert(entry_text(es1.first()) == entry_text(es2.first()));
        if es1.len() > 1 {
            lemma_entries_text_congruent(es1.drop_first(), es2.drop_first());
        }
    }
}

/// Splits the rendered entry list at entry `i`.
proof fn lemma_entries_text_split<K: Wire>(es: Seq<(u64, K)>, i: int)
    requires
        0 <= i < es.len(),
    ensures
        entries_text(es) == pre_text(es.take(i)) + entry_text(es[i])
            + (if i + 1 == es.len() {
                Seq::<u8>::empty()
            } else {
                seq![44u8] + entries_text(es.skip(i + 1))
            }),
    decreases i,
{
    if i == 0 {
        assert(es.take(0) =~= Seq::<(u64, K)>::empty());
        if es.len() == 1 {
            assert(entries_text(es) =~= pre_text(es.take(0)) + entry_text(es[0]));
        } else {
            assert(es.first() == es[0]);
            assert(es.drop_first() =~= es.skip(1));
            assert(entries_text(es) =~= pre_text(es.take(0)) + entry_text(es[0])
                + (seq![44u8] + entries_text(es.skip(1))));
        }
    } else {
        lemma_entries_text_split(es.drop_first(), i - 1);
        assert(es.drop_first().take(i - 1) =~= es.take(i).drop_first());
        assert(es.drop_first()[i - 1] == es[i]);
        assert(es.drop_first().skip(i) =~= es.skip(i + 1));
        assert(es.len() >= 2);
        assert(entries_text(es) == entry_text(es.first()) + seq![44u8]
            + entries_text(es.drop_first()));
        assert(es.take(i).first() == es.first());
        if i == 1 {
            assert(es.take(1) =~= seq![es[0]]);
            assert(entries_text(es.take(1)) == entry_text(seq![es[0]][0]));
            assert(seq![es[0]][0] == es[0] && es[0] == es.first());
            assert(pre_text(es.take(i)) =~= entry_text(es.first()) + seq![44u8]
                + pre_text(es.drop_first().take(i - 1)));
        } else {
            assert(es.take(i).len() == i >= 2);
            assert(entries_text(es.take(i)) == entry_text(es.take(i).first()) + seq![44u8]
                + entries_text(es.take(i).drop_first()));
            assert(pre_text(es.take(i)) =~= entry_text(es.first()) + seq![44u8]
                + pre_text(es.drop_first().take(i - 1)));
        }
        assert(entries_text(es) =~= pre_text(es.take(i)) + entry_text(es[i])
            + (if i + 1 == es.len() {
                Seq::<u8>::empty()
            } else {
                seq![44u8] + entries_text(es.skip(i + 1))
            }));
    }
}

/// A quoted hexadecimal string determines where it ends: no rendering is a
/// strict prefix of another.
proof fn lemma_quoted_extensional(w1: Seq<u8>, w2: Seq<u8>, r1: Seq<u8>, r2: Seq<u8>)
    requires
        quoted(w1) + r1 == quoted(w2) + r2,
    ensures
        w1 == w2,
        r1 == r2,
{
    let s = quoted(w1) + r1;
    let n1 = w1.len() as int;
    let n2 = w2.len() as int;
    if n1 < n2 {
        assert(s[1 + 2 * n1] == (quoted(w1) + r1)[quoted(w1).len() - 1]);
        assert(quoted(w1)[quoted(w1).len() - 1] == 34);
        assert((quoted(w2) + r2)[1 + 2 * n1] == quoted(w2)[1 + 2 * n1]);
        assert(quoted(w2)[1 + 2 * n1] == hex_of(w2)[2 * n1]);
        lemma_hex_digits_only(w2, 2 * n1);
        assert(false);
    }
    if n2 < n1 {
        assert(s[1 + 2 * n2] == (quoted(w2) + r2)[quoted(w2).len() - 1]);
        assert(quoted(w2)[quoted(w2).len() - 1] == 34);
        assert((quoted(w1) + r1)[1 + 2 * n2] == quoted(w1)[1 + 2 * n2]);
        assert(quoted(w1)[1 + 2 * n2] == hex_of(w1)[2 * n2]);
        lemma_hex_digits_only(w1, 2 * n2);
        assert(false);
    }
    assert forall|j: int| 0 <= j < hex_of(w1).len() implies hex_of(w1)[j] == hex_of(w2)[j] by {
        assert(hex_of(w1)[j] == s[1 + j]);
        assert(hex_of(w2)[j] == (quoted(w2) + r2)[1 + j]);
    }
    assert(hex_of(w1) =~= hex_of(w2));
    lemma_hex_of_injective(w1, w2);
    assert(quoted(w1).len() == quoted(w2).len());
    assert(s.len() == quoted(w1).len() + r1.len());
    assert((quoted(w2) + r2).len() == quoted(w2).len() + r2.len());
    assert(r1.len() == r2.len());
    assert forall|j: int| 0 <= j < r1.len() implies r1[j] == r2[j] by {
        assert(s == quoted(w2) + r2);
        assert(s[quoted(w1).len() + j] == r1[j]);
        assert((quoted(w2) + r2)[quoted(w2).len() + j] == r2[j]);
    }
    assert(r1 =~= r2);
}

/// Rendered entry lists that are equal come from lists with equal versions
/// and records that encode alike.
proof fn lemma_entries_text_injective<K: Wire>(es1: Seq<(u64, K)>, es2: Seq<(u64, K)>)
    requires
        entries_text(es1) == entries_text(es2),
        es1.len() == es2.len(),
    ensures
        forall|i: int| 0 <= i < es1.len()
            ==> (#[trigger] es1[i]).0 == (#[trigger] es2[i]).0 && es1[i].1.wire() == es2[i].1.wire(),
    decreases es1.len(),
{
    lemma_auto_spec_u64_to_from_le_bytes();
    if es1.len() > 0 {
        let e1 = es1.first();
        let e2 = es2.first();
        let rest1: Seq<u8> = if es1.len() == 1 {
            Seq::empty()
        } else {
            seq![44u8] + entries_text(es1.drop_first())
        };
        let rest2: Seq<u8> = if es2.len() == 1 {
            Seq::empty()
        } else {
            seq![44u8] + entries_text(es2.drop_first())
        };
        assert(entries_text(es1) =~= quoted(spec_u64_to_le_bytes(e1.0))
            + ((seq![58u8] + quoted(e1.1.wire())) + rest1));
        assert(entries_text(es2) =~= quoted(spec_u64_to_le_bytes(e2.0))
            + ((seq![58u8] + quoted(e2.1.wire())) + rest2));
        lemma_quoted_extensional(
            spec_u64_to_le_bytes(e1.0),
            spec_u64_to_le_bytes(e2.0),
            (seq![58u8] + quoted(e1.1.wire())) + rest1,
            (seq![58u8] + quoted(e2.1.wire())) + rest2,
        );
        assert(e1.0 == e2.0);
        let t1 = (seq![58u8] + quoted(e1.1.wire())) + rest1;
        let t2 = (seq![58u8] + quoted(e2.1.wire())) + rest2;
        assert(t1 == t2);
        assert(t1.skip(1) =~= quoted(e1.1.wire()) + rest1);
        assert(t2.skip(1) =~= quoted(e2.1.wire()) + rest2);
        lemma_quoted_extensional(e1.1.wire(), e2.1.wire(), rest1, rest2);
        if es1.len() > 1 {
            assert(rest1.skip(1) =~= entries_text(es1.drop_first()));
            assert(rest2.skip(1) =~= entries_text(es2.drop_first()));
            lemma_entries_text_injective(es1.drop_first(), es2.drop_first());
        }
        assert forall|i: int| 0 <= i < es1.len()
            implies (#[trigger] es1[i]).0 == (#[trigger] es2[i]).0
                && es1[i].1.wire() == es2[i].1.wire() by {
            if i > 0 {
                assert(es1[i] == es1.drop_first()[i - 1]);
                assert(es2[i] == es2.drop_first()[i - 1]);
            } else {
                assert(es1[0] == es1.first() && es2[0] == es2.first());
            }
        }
    }
}

/// Law: the textual document is injective — two snapshots with one document
/// have one counter, and entry lists that agree on length, on every
/// version, and on every record's encoding. Their binary snapshot
/// encodings are then equal too, so reloading a saved document reproduces
/// the snapshot that was saved.
pub proof fn lemma_json_of_injective<K: Wire>(
    c1: u64,
    es1: Seq<(u64, K)>,
    c2: u64,
    es2: Seq<(u64, K)>,
)
    requires
        json_of(c1, es1) == json_of(c2, es2),
    ensures
        c1 == c2,
        es1.len() == es2.len(),
        forall|i: int| 0 <= i < es1.len()
            ==> (#[trigger] es1[i]).0 == (#[trigger] es2[i]).0 && es1[i].1.wire() == es2[i].1.wire(),
        snapshot_wire(c1, es1) == snapshot_wire(c2, es2),
{
    lemma_auto_spec_u64_to_from_le_bytes();
    let d1 = json_of(c1, es1);
    let d2 = json_of(c2, es2);
    assert(d1.skip(9) =~= quoted(spec_u64_to_le_bytes(c1))
        + (json_mid() + entries_text(es1) + json_tail()));
    assert(d2.skip(9) =~= quoted(spec_u64_to_le_bytes(c2))
        + (json_mid() + entries_text(es2) + json_tail()));
    lemma_quoted_extensional(
        spec_u64_to_le_bytes(c1),
        spec_u64_to_le_bytes(c2),
        json_mid() + entries_text(es1) + json_tail(),
        json_mid() + entries_text(es2) + json_tail(),
    );
    assert(c1 == c2);
    let t1 = json_mid() + entries_text(es1) + json_tail();
    let t2 = json_mid() + entries_text(es2) + json_tail();
    assert(entries_text(es1).len() == entries_text(es2).len());
    assert(entries_text(es1) =~= t1.subrange(10, 10 + entries_text(es1).len() as int));
    assert(entries_text(es2) =~= t2.subrange(10, 10 + entries_text(es2).len() as int));
    lemma_entries_text_len_determines(es1, es2);
    lemma_entries_text_injective(es1, es2);
    lemma_entries_text_congruent_wire(c1, es1, es2);
}

/// Rendered entry lists of one byte length hold one number of entries.
proof fn lemma_entries_text_len_determines<K: Wire>(es1: Seq<(u64, K)>, es2: Seq<(u64, K)>)
    requires
        entries_text(es1) == entries_text(es2),
    ensures
        es1.len() == es2.len(),
    decreases es1.len(),
{
    if es1.len() == 0 {
        if es2.len() > 0 {
            assert(entries_text(es2).len() >= entry_text(es2.first()).len());
            assert(entry_text(es2.first()).len() >= 21);
            assert(false);
        }
    } else if es2.len() == 0 {
        assert(entries_text(es1).len() >= entry_text(es1.first()).len());
        assert(entry_text(es1.first()).len() >= 21);
        assert(false);
    } else {
        let e1 = es1.first();
        let e2 = es2.first();
        let rest1: Seq<u8> = if es1.len() == 1 {
            Seq::empty()
        } else {
            seq![44u8] + entries_text(es1.drop_first())
        };
        let rest2: Seq<u8> = if es2.len() == 1 {
            Seq::empty()
        } else {
            seq![44u8] + entries_text(es2.drop_first())
        };
        assert(entries_text(es1) =~= quoted(spec_u64_to_le_bytes(e1.0))
            + ((seq![58u8] + quoted(e1.1.wire())) + rest1));
        assert(entries_text(es2) =~= quoted(spec_u64_to_le_bytes(e2.0))
            + ((seq![58u8] + quoted(e2.1.wire())) + rest2));
        lemma_quoted_extensional(
            spec_u64_to_le_bytes(e1.0),
            spec_u64_to_le_bytes(e2.0),
            (seq![58u8] + quoted(e1.1.wire())) + rest1,
            (seq![58u8] + quoted(e2.1.wire())) + rest2,
        );
        let t1 = (seq![58u8] + quoted(e1.1.wire())) + rest1;
        let t2 = (seq![58u8] + quoted(e2.1.wire())) + rest2;
        assert(t1.skip(1) =~= quoted(e1.1.wire()) + rest1);
        assert(t2.skip(1) =~= quoted(e2.1.wire()) + rest2);
        lemma_quoted_extensional(e1.1.wire(), e2.1.wire(), rest1, rest2);
        if es1.len() == 1 && es2.len() > 1 {
            assert(rest2.len() >= 1 + 21);
            assert(false);
        }
        if es2.len() == 1 && es1.len() > 1 {
            assert(rest1.len() >= 1 + 21);
            assert(false);
        }
        if es1.len() > 1 {
            assert(rest1.skip(1) =~= entries_text(es1.drop_first()));
            assert(rest2.skip(1) =~= entries_text(es2.drop_first()));
            lemma_entries_text_len_determines(es1.drop_first(), es2.drop_first());
        }
    }
}

/// Pointwise wire-equal entry lists have equal binary snapshot encodings.
proof fn lemma_entries_text_congruent_wire<K: Wire>(
    c: u64,
    es1: Seq<(u64, K)>,
    es2: Seq<(u64, K)>,
)
    requires
        es1.len() == es2.len(),
        forall|i: int| 0 <= i < es1.len()
            ==> (#[trigger] es1[i]).0 == (#[trigger] es2[i]).0 && es1[i].1.wire() == es2[i].1.wire(),
    ensures
        snapshot_wire(c, es1) == snapshot_wire(c, es2),
{
    crate::codec::lemma_entries_wire_congruent(es1, es2);
}

/// The byte layout of a document: where each part of `json_of` stands.
proof fn lemma_json_layout<K: Wire>(c: u64, es: Seq<(u64, K)>)
    ensures
        json_of(c, es).len() == 39 + entries_text(es).len(),
        json_of(c, es).subrange(0, 9) == json_head(),
        json_of(c, es).subrange(9, 27) == quoted(spec_u64_to_le_bytes(c)),
        json_of(c, es).subrange(27, 37) == json_mid(),
        json_of(c, es).subrange(37, 37 + entries_text(es).len() as int) == entries_text(es),
        json_of(c, es).subrange(
            37 + entries_text(es).len() as int,
            39 + entries_text(es).len() as int,
        ) == json_tail(),
{
    lemma_auto_spec_u64_to_from_le_bytes();
    let d = json_of(c, es);
    assert(quoted(spec_u64_to_le_bytes(c)).len() == 18);
    assert(d.subrange(0, 9) =~= json_head());
    assert(d.subrange(9, 27) =~= quoted(spec_u64_to_le_bytes(c)));
    assert(d.subrange(27, 37) =~= json_mid());
    assert(d.subrange(37, 37 + entries_text(es).len() as int) =~= entries_text(es));
    assert(d.subrange(37 + entries_text(es).len() as int, 39 + entries_text(es).len() as int)
        =~= json_tail());
}

/// The byte segments of entry `i` of a document, for a reader standing just
/// past the entries before it and the comma after them.
proof fn lemma_json_entry_step<K: Wire>(
    c: u64,
    ges: Seq<(u64, K)>,
    i: int,
    text: Seq<u8>,
    p: int,
    parsed: Seq<(u64, K)>,
)
    requires
        text == json_of(c, ges),
        0 <= i < ges.len(),
        parsed.len() == i,
        forall|j: int| 0 <= j < i
            ==> (#[trigger] parsed[j]).0 == ges[j].0 && parsed[j].1.wire() == ges[j].1.wire(),
        text.take(p) == json_base(c) + pre_text(parsed),
        0 <= p <= text.len(),
    ensures
        p == 37 + pre_text(ges.take(i)).len(),
        p + entry_text(ges[i]).len() + 2 <= text.len(),
        text.subrange(p, p + 18) == quoted(spec_u64_to_le_bytes(ges[i].0)),
        text[p + 18] == 58,
        text.subrange(p + 19, p + 19 + quoted(ges[i].1.wire()).len())
            == quoted(ges[i].1.wire()),
        i + 1 == ges.len() ==> text[p + entry_text(ges[i]).len()] == 125
            && p + entry_text(ges[i]).len() + 2 == text.len()
            && text[p + entry_text(ges[i]).len() + 1] == 125,
        i + 1 < ges.len() ==> text[p + entry_text(ges[i]).len()] == 44,
{
    lemma_auto_spec_u64_to_from_le_bytes();
    assert forall|j: int| 0 <= j < i
        implies (#[trigger] ges.take(i)[j]).0 == parsed[j].0
            && ges.take(i)[j].1.wire() == parsed[j].1.wire() by {
        assert(ges.take(i)[j] == ges[j]);
    }
    lemma_entries_text_congruent(parsed, ges.take(i));
    assert(pre_text(parsed).len() == pre_text(ges.take(i)).len());
    assert(text.take(p).len() == p);
    assert(p == 37 + pre_text(ges.take(i)).len());
    lemma_entries_text_split(ges, i);
    let suffix: Seq<u8> = if i + 1 == ges.len() {
        Seq::empty()
    } else {
        seq![44u8] + entries_text(ges.skip(i + 1))
    };
    assert(text =~= json_base(c) + (pre_text(ges.take(i)) + (entry_text(ges[i]) + (suffix
        + json_tail()))));
    assert(quoted(spec_u64_to_le_bytes(ges[i].0)).len() == 18);
    assert(text.subrange(p, p + 18) =~= quoted(spec_u64_to_le_bytes(ges[i].0)));
    assert(text[p + 18] == entry_text(ges[i])[18]);
    assert(entry_text(ges[i])[18] == 58);
    assert(text.subrange(p + 19, p + 19 + quoted(ges[i].1.wire()).len())
        =~= quoted(ges[i].1.wire()));
    if i + 1 == ges.len() {
        assert(text[p + entry_text(ges[i]).len()] == json_tail()[0]);
        assert(text[p + entry_text(ges[i]).len() + 1] == json_tail()[1]);
    } else {
        assert(text[p + entry_text(ges[i]).len()] == suffix[0]);
    }
}

/// Only one byte string's quoted rendering can stand at one position.
proof fn lemma_quoted_at_unique(text: Seq<u8>, pos: int, bs1: Seq<u8>, bs2: Seq<u8>)
    requires
        0 <= pos,
        pos + quoted(bs1).len() <= text.len(),
        text.subrange(pos, pos + quoted(bs1).len() as int) == quoted(bs1),
        pos + quoted(bs2).len() <= text.len(),
        text.subrange(pos, pos + quoted(bs2).len() as int) == quoted(bs2),
    ensures
        bs1 == bs2,
{
    assert(text.skip(pos) =~= quoted(bs1) + text.skip(pos + quoted(bs1).len() as int));
    assert(text.skip(pos) =~= quoted(bs2) + text.skip(pos + quoted(bs2).len() as int));
    lemma_quoted_extensional(
        bs1,
        bs2,
        text.skip(pos + quoted(bs1).len() as int),
        text.skip(pos + quoted(bs2).len() as int),
    );
}

/// Reads one quoted hexadecimal string starting at `pos`: a `"`, pairs of
/// hexadecimal characters, a closing `"`. Whenever the text at `pos` starts
/// with the quoted rendering of some byte string, the read succeeds and
/// returns exactly those bytes.
fn read_hex_string(text: &Vec<u8>, pos: usize) -> (r: Option<(Vec<u8>, usize)>)
    requires
        pos <= text@.len(),
    ensures
        r matches Some(p) ==> pos + 2 <= p.1 <= text@.len()
            && text@.subrange(pos as int, p.1 as int) == quoted(p.0@),
        forall|bs: Seq<u8>| (pos + (#[trigger] quoted(bs)).len() <= text@.len()
            && text@.subrange(pos as int, pos + quoted(bs).len()) == quoted(bs))
            ==> (r matches Some(p) && p.0@ == bs && p.1 == pos + quoted(bs).len()),
{
    let ghost good = exists|bs: Seq<u8>| pos + (#[trigger] quoted(bs)).len() <= text@.len()
        && text@.subrange(pos as int, pos + quoted(bs).len()) == quoted(bs);
    let ghost gbs: Seq<u8> = if good {
        choose|bs: Seq<u8>| pos + (#[trigger] quoted(bs)).len() <= text@.len()
            && text@.subrange(pos as int, pos + quoted(bs).len()) == quoted(bs)
    } else {
        Seq::empty()
    };
    if pos >= text.len() || text[pos] != 34 {
        proof {
            if good {
                assert(text@[pos as int] == quoted(gbs)[0]);
                assert(false);
            }
        }
        return None;
    }
    let mut p = pos + 1;
    let mut out: Vec<u8> = Vec::new();
    loop
        invariant
            pos + 1 <= p <= text@.len(),
            text@.len() <= usize::MAX,
            pos < text@.len(),
            text@[pos as int] == 34,
            p - pos - 1 == 2 * out@.len(),
            text@.subrange(pos + 1, p as int) == hex_of(out@),
            good == (exists|bs: Seq<u8>| pos + (#[trigger] quoted(bs)).len() <= text@.len()
                && text@.subrange(pos as int, pos + quoted(bs).len()) == quoted(bs)),
            good ==> pos + quoted(gbs).len() <= text@.len()
                && text@.subrange(pos as int, pos + quoted(gbs).len()) == quoted(gbs)
                && out@.len() <= gbs.len() && out@ == gbs.take(out@.len() as int),
        decreases text@.len() - p,
    {
        let ghost k = out@.len() as int;
        proof {
            if good && k < gbs.len() {
                lemma_hex_index(gbs, k);
                assert(text@[pos + 1 + 2 * k] == quoted(gbs)[1 + 2 * k]);
                assert(quoted(gbs)[1 + 2 * k] == hex_of(gbs)[2 * k]);
                assert(text@[pos + 2 + 2 * k] == quoted(gbs)[2 + 2 * k]);
                assert(quoted(gbs)[2 + 2 * k] == hex_of(gbs)[2 * k + 1]);
            }
            if good && k == gbs.len() {
                assert(text@[p as int] == quoted(gbs)[1 + 2 * k]);
                assert(quoted(gbs)[1 + 2 * k] == 34);
            }
        }
        if p >= text.len() {
            proof {
                if good {
                    assert(false);
                }
            }
            return None;
        }
        let c = text[p];
        if c == 34 {
            proof {
                if good && k < gbs.len() {
                    lemma_hex_digits_only(gbs, 2 * k);
                    assert(false);
                }
                if good {
                    assert(out@ =~= gbs);
                }
            }
            proof {
                assert(text@.subrange(pos as int, p + 1) =~= quoted(out@));
                if good {
                    assert forall|bs: Seq<u8>| (pos + (#[trigger] quoted(bs)).len() <= text@.len()
                        && text@.subrange(pos as int, pos + quoted(bs).len()) == quoted(bs))
                        implies bs == gbs by {
                        lemma_quoted_at_unique(text@, pos as int, bs, gbs);
                    }
                }
            }
            return Some((out, p + 1));
        }
        if p + 1 >= text.len() {
            proof {
                if good {
                    if k < gbs.len() {
                        assert(pos + 2 + 2 * k < pos + quoted(gbs).len());
                    } else {
                        assert(false);
                    }
                    assert(false);
                }
            }
            return None;
        }
        let hi = match hex_val(c) {
            Some(v) => v,
            None => {
                proof {
                    if good {
                        if k == gbs.len() {
                            assert(false);
                        }
                        assert(c == hex_digit(gbs[k] / 16));
                        assert(false);
                    }
                }
                return None;
            },
        };
        let lo = match hex_val(text[p + 1]) {
            Some(v) => v,
            None => {
                proof {
                    if good {
                        if k == gbs.len() {
                            assert(false);
                        }
                        assert(text@[p + 1] == hex_digit(gbs[k] % 16));
                        assert(false);
                    }
                }
                return None;
            },
        };
        let b = hi * 16 + lo;
        let ghost pre_out = out@;
        out.push(b);
        p = p + 2;
        proof {
            assert(b / 16 == hi && b % 16 == lo) by (nonlinear_arith)
                requires
                    b == hi * 16 + lo,
                    hi < 16,
                    lo < 16,
            ;
            assert forall|j: int| 0 <= j < 2 * out@.len()
                implies text@.subrange(pos + 1, p as int)[j] == hex_of(out@)[j] by {
                let m = j / 2;
                assert(0 <= m <= k && (j == 2 * m || j == 2 * m + 1)) by (nonlinear_arith)
                    requires
                        0 <= j < 2 * (k + 1),
                        m == j / 2,
                ;
                lemma_hex_index(out@, m);
                if m < k {
                    lemma_hex_index(pre_out, m);
                    assert(out@[m] == pre_out[m]);
                    assert(text@.subrange(pos + 1, p as int)[j]
                        == text@.subrange(pos + 1, p - 2)[j]);
                } else {
                    assert(out@[m] == b);
                }
            }
            assert(text@.subrange(pos + 1, p as int) =~= hex_of(out@));
            if good && k < gbs.len() {
                assert(hex_digit(gbs[k as int] / 16) == hex_digit(hi));
                assert(hex_digit(gbs[k as int] % 16) == hex_digit(lo));
                assert(gbs[k as int] / 16 == hi && gbs[k as int] % 16 == lo);
                assert(b == gbs[k as int]);
                assert(out@ =~= gbs.take(out@.len() as int));
            }
        }
    }
}

fn has_json_head(bytes: &Vec<u8>) -> (r: bool)
    ensures
        r <==> (bytes@.len() >= 9 && bytes@.subrange(0, 9) == json_head()),
{
    if bytes.len() < 9 {
        return false;
    }
    let ok = bytes[0] == 123 && bytes[1] == 34 && bytes[2] == 99 && bytes[3] == 111
        && bytes[4] == 117 && bytes[5] == 110 && bytes[6] == 116 && bytes[7] == 34
        && bytes[8] == 58;
    proof {
        if ok {
            assert(bytes@.subrange(0, 9) =~= json_head());
        }
        if bytes@.subrange(0, 9) == json_head() {
            assert forall|j: int| 0 <= j < 9 implies bytes@[j] == json_head()[j] by {
                assert(bytes@.subrange(0, 9)[j] == bytes@[j]);
            }
        }
    }
    ok
}

fn has_json_mid(bytes: &Vec<u8>, pos: usize) -> (r: bool)
    requires
        pos <= bytes@.len(),
    ensures
        r <==> (pos + 10 <= bytes@.len() && bytes@.subrange(pos as int, pos + 10) == json_mid()),
{
    if bytes.len() - pos < 10 {
        return false;
    }
    let ok = bytes[pos] == 44 && bytes[pos + 1] == 34 && bytes[pos + 2] == 115
        && bytes[pos + 3] == 116 && bytes[pos + 4] == 111 && bytes[pos + 5] == 114
        && bytes[pos + 6] == 101 && bytes[pos + 7] == 34 && bytes[pos + 8] == 58
        && bytes[pos + 9] == 123;
    proof {
        if ok {
            assert(bytes@.subrange(pos as int, pos + 10) =~= json_mid());
        }
        if bytes@.subrange(pos as int, pos + 10) == json_mid() {
            assert forall|j: int| 0 <= j < 10 implies bytes@[pos + j] == json_mid()[j] by {
                assert(bytes@.subrange(pos as int, pos + 10)[j] == bytes@[pos + j]);
            }
        }
    }
    ok
}

fn push_quoted(out: &mut Vec<u8>, bytes: &Vec<u8>)
    ensures
        final(out)@ == old(out)@ + quoted(bytes@),
{
    out.push(34);
    let mut h = encode_hex(bytes);
    out.append(&mut h);
    out.push(34);
    proof {
        assert(out@ =~= old(out)@ + quoted(bytes@));
    }
}

/// Binds one store to one backing path under the textual snapshot codec.
pub struct Json<KeyType> {
    manager: Local<KeyType>,
    path: String,
}

impl<KeyType> Json<KeyType> {
    /// The wrapped store.
    pub closed spec fn manager_spec(&self) -> Local<KeyType> {
        self.manager
    }

    /// The backing path.
    pub closed spec fn path_spec(&self) -> Seq<char> {
        self.path@
    }

    /// Wraps an existing store, binding it to `path`.
    pub fn new(manager: Local<KeyType>, path: String) -> (r: Self)
        ensures
            r.manager_spec() == manager,
            r.path_spec() == path@,
    {
        Json { manager, path }
    }

    /// The backing path.
    pub fn path(&self) -> (r: &String)
        ensures
            r@ == self.path_spec(),
    {
        &self.path
    }

    /// Read-through access to the wrapped store.
    pub fn manager(&self) -> (r: &Local<KeyType>)
        ensures
            *r == self.manager_spec(),
    {
        &self.manager
    }
}

impl<KeyType: Wire> Json<KeyType> {
    /// Renders the wrapped store's snapshot as its JSON document: exactly
    /// the bytes `save` writes to the backing file.
    pub fn save_bytes(&self) -> (r: Vec<u8>)
        requires
            self.manager_spec().wf(),
        ensures
            r@ == json_of(self.manager_spec().counter(), self.manager_spec().entries()),
    {
        let counter = match self.manager.count() {
            Ok(c) => c,
            Err(_) => {
                proof {
                    assert(false);
                }
                0
            },
        };
        let entries = match self.manager.store_reader() {
            Ok(es) => es,
            Err(_) => {
                proof {
                    assert(false);
                }
                return Vec::new();
            },
        };
        let mut out: Vec<u8> = Vec::new();
        out.push(123);
        out.push(34);
        out.push(99);
        out.push(111);
        out.push(117);
        out.push(110);
        out.push(116);
        out.push(34);
        out.push(58);
        proof {
            assert(out@ =~= json_head());
        }
        let cb = u64_to_le_bytes(counter);
        push_quoted(&mut out, &cb);
        out.push(44);
        out.push(34);
        out.push(115);
        out.push(116);
        out.push(111);
        out.push(114);
        out.push(101);
        out.push(34);
        out.push(58);
        out.push(123);
        proof {
            assert(out@ =~= json_base(counter));
        }
        let n = entries.len();
        for i in 0..n
            invariant
                n == entries@.len(),
                out@ == json_base(counter) + entries_text(entries@.take(i as int)),
        {
            let ghost taken = entries@.take(i as int);
            if i > 0 {
                out.push(44);
            }
            let kb = u64_to_le_bytes(entries[i].0);
            push_quoted(&mut out, &kb);
            out.push(58);
            let mut rb: Vec<u8> = Vec::new();
            entries[i].1.write_wire(&mut rb);
            push_quoted(&mut out, &rb);
            proof {
                lemma_entries_text_snoc(taken, entries@[i as int]);
                assert(entries@.take(i + 1) =~= taken.push(entries@[i as int]));
                assert(out@ =~= json_base(counter) + entries_text(entries@.take(i + 1)));
            }
        }
        out.push(125);
        out.push(125);
        proof {
            assert(entries@.take(n as int) =~= entries@);
            assert(out@ =~= json_of(counter, entries@));
        }
        out
    }

    /// Reads the backing file's JSON document back into an adapter bound to
    /// `path`: the compute half of `load`. Succeeds on exactly the
    /// documents of well-formed snapshots, reproducing the snapshot that
    /// was saved (see [`lemma_json_of_injective`]); any other bytes fail as
    /// `Codec`.
    #[verifier::rlimit(60)]
    pub fn load_bytes(path: String, bytes: &Vec<u8>) -> (r: Result<Self, Error>)
        ensures
            r matches Ok(b) ==> b.manager_spec().wf() && b.path_spec() == path@
                && bytes@ == json_of(b.manager_spec().counter(), b.manager_spec().entries()),
            forall|c: u64, es: Seq<(u64, KeyType)>| (bytes@ == #[trigger] json_of(c, es)
                && entries_wf(es, c) && es.len() <= u64::MAX)
                ==> r is Ok,
            r matches Err(e) ==> e is Codec,
    {
        proof {
            lemma_auto_spec_u64_to_from_le_bytes();
        }
        let ghost good = exists|c: u64, es: Seq<(u64, KeyType)>| bytes@ == #[trigger] json_of(c, es)
            && entries_wf(es, c) && es.len() <= u64::MAX;
        let ghost (gc, ges): (u64, Seq<(u64, KeyType)>) = if good {
            choose|c: u64, es: Seq<(u64, KeyType)>| bytes@ == #[trigger] json_of(c, es)
                && entries_wf(es, c) && es.len() <= u64::MAX
        } else {
            (0u64, Seq::empty())
        };
        proof {
            if good {
                lemma_json_layout(gc, ges);
            }
        }
        if !has_json_head(bytes) {
            proof {
                if good {
                    assert(false);
                }
            }
            return Err(Error::Codec);
        }
        let (cb, p1) = match read_hex_string(bytes, 9) {
            Some(p) => p,
            None => {
                proof {
                    if good {
                        let gw = spec_u64_to_le_bytes(gc);
                        assert(quoted(gw).len() == 18);
                        assert(bytes@.subrange(9, 9 + quoted(gw).len() as int) == quoted(gw));
                        assert(false);
                    }
                }
                return Err(Error::Codec);
            },
        };
        if cb.len() != 8 {
            proof {
                if good {
                    let gw = spec_u64_to_le_bytes(gc);
                    assert(bytes@.subrange(9, 9 + quoted(gw).len() as int) == quoted(gw));
                    assert(cb@ == gw);
                    assert(false);
                }
            }
            return Err(Error::Codec);
        }
        let counter = u64_from_le_bytes(cb.as_slice());
        proof {
            assert(spec_u64_to_le_bytes(counter) == cb@);
            assert(p1 == 27);
            if good {
                let gw = spec_u64_to_le_bytes(gc);
                assert(bytes@.subrange(9, 9 + quoted(gw).len() as int) == quoted(gw));
                assert(cb@ == gw);
                assert(counter == gc);
            }
        }
        if !has_json_mid(bytes, p1) {
            proof {
                if good {
                    assert(bytes@.subrange(27, 37) == json_mid());
                    assert(false);
                }
            }
            return Err(Error::Codec);
        }
        let mut p = p1 + 10;
        let mut entries: Vec<(u64, KeyType)> = Vec::new();
        proof {
            assert(bytes@.take(p as int) =~= json_base(counter) + pre_text(entries@));
        }
        if p < bytes.len() && bytes[p] == 125 {
            proof {
                if good && ges.len() > 0 {
                    lemma_json_entry_step(gc, ges, 0, bytes@, p as int, entries@);
                    assert(bytes@[p as int] == quoted(spec_u64_to_le_bytes(ges[0].0))[0]);
                    assert(false);
                }
            }
            if p + 2 == bytes.len() && bytes[p + 1] == 125 {
                let manager = Local::from_parts(counter, entries);
                proof {
                    assert(bytes@ =~= json_of(counter, Seq::<(u64, KeyType)>::empty()));
                }
                return Ok(Json { manager, path });
            }
            proof {
                if good {
                    assert(ges.len() == 0);
                    assert(bytes@.len() == 39);
                    assert(bytes@[38] == json_tail()[1]);
                    assert(false);
                }
            }
            return Err(Error::Codec);
        }
        loop
            invariant
                37 <= p <= bytes@.len(),
                bytes@.len() <= usize::MAX,
                spec_u64_to_le_bytes(counter) == cb@,
                bytes@.take(p as int) == json_base(counter) + pre_text(entries@),
                entries_wf(entries@, counter),
                good == (exists|c: u64, es: Seq<(u64, KeyType)>| bytes@ == #[trigger] json_of(
                    c,
                    es,
                ) && entries_wf(es, c) && es.len() <= u64::MAX),
                good ==> bytes@ == json_of(gc, ges) && entries_wf(ges, gc)
                    && ges.len() <= u64::MAX && counter == gc
                    && entries@.len() < ges.len(),
                good ==> forall|j: int| 0 <= j < entries@.len()
                    ==> (#[trigger] entries@[j]).0 == ges[j].0
                        && entries@[j].1.wire() == ges[j].1.wire(),
            decreases bytes@.len() - p,
        {
            let ghost k = entries@.len() as int;
            let ghost pre_entries = entries@;
            proof {
                lemma_auto_spec_u64_to_from_le_bytes();
                if good {
                    lemma_json_entry_step(gc, ges, k, bytes@, p as int, pre_entries);
                }
            }
            let (kb, p2) = match read_hex_string(bytes, p) {
                Some(q) => q,
                None => {
                    proof {
                        if good {
                            let gw = spec_u64_to_le_bytes(ges[k].0);
                            assert(quoted(gw).len() == 18);
                            assert(bytes@.subrange(p as int, p + quoted(gw).len() as int) == quoted(gw));
                            assert(false);
                        }
                    }
                    return Err(Error::Codec);
                },
            };
            if kb.len() != 8 {
                proof {
                    if good {
                        let gw = spec_u64_to_le_bytes(ges[k].0);
                        assert(bytes@.subrange(p as int, p + quoted(gw).len() as int) == quoted(gw));
                        assert(kb@ == gw);
                        assert(false);
                    }
                }
                return Err(Error::Codec);
            }
            let key = u64_from_le_bytes(kb.as_slice());
            proof {
                assert(spec_u64_to_le_bytes(key) == kb@);
                assert(p2 == p + 18);
                if good {
                    let gw = spec_u64_to_le_bytes(ges[k].0);
                    assert(bytes@.subrange(p as int, p + quoted(gw).len() as int) == quoted(gw));
                    assert(kb@ == gw);
                    assert(key == ges[k].0);
                }
            }
            if p2 >= bytes.len() || bytes[p2] != 58 {
                proof {
                    if good {
                        assert(false);
                    }
                }
                return Err(Error::Codec);
            }
            let (rb, p3) = match read_hex_string(bytes, p2 + 1) {
                Some(q) => q,
                None => {
                    proof {
                        if good {
                            let gw = ges[k].1.wire();
                            assert(bytes@.subrange(p + 19, p + 19 + quoted(gw).len() as int)
                                == quoted(gw));
                            assert(false);
                        }
                    }
                    return Err(Error::Codec);
                },
            };
            proof {
                if good {
                    let gw = ges[k].1.wire();
                    assert(bytes@.subrange(p + 19, p + 19 + quoted(gw).len() as int) == quoted(gw));
                    assert(rb@ == gw);
                    assert(p3 == p + 19 + quoted(gw).len() as int);
                }
            }
            let record = match KeyType::read_wire(&rb, 0) {
                Some(q) => {
                    if q.1 != rb.len() {
                        proof {
                            if good {
                                let gw = ges[k].1.wire();
                                assert(rb@.subrange(0, gw.len() as int) =~= gw);
                                assert(false);
                            }
                        }
                        return Err(Error::Codec);
                    }
                    q.0
                },
                None => {
                    proof {
                        if good {
                            let gw = ges[k].1.wire();
                            assert(rb@.subrange(0, gw.len() as int) =~= gw);
                            assert(false);
                        }
                    }
                    return Err(Error::Codec);
                },
            };
            let bounds_ok = 1 <= key && key <= counter
                && (entries.len() == 0 || entries[entries.len() - 1].0 < key);
            if !bounds_ok {
                proof {
                    if good {
                        assert(entries_wf(ges, gc));
                        if k > 0 {
                            assert(pre_entries[k - 1].0 == ges[k - 1].0);
                            assert(ges[k - 1].0 < ges[k].0);
                        }
                        assert(false);
                    }
                }
                return Err(Error::Codec);
            }
            entries.push((key, record));
            proof {
                lemma_entries_text_snoc(pre_entries, (key, record));
                assert(record.wire() == rb@.subrange(0, rb@.len() as int));
                assert(record.wire() =~= rb@);
                assert(bytes@.take(p3 as int) =~= bytes@.take(p2 + 1) + quoted(rb@));
                assert(bytes@.take(p2 + 1) =~= bytes@.take(p2 as int) + seq![58u8]);
                assert(bytes@.take(p2 as int) =~= bytes@.take(p as int) + quoted(kb@));
                assert(entry_text((key, record)) =~= quoted(kb@) + seq![58u8] + quoted(rb@));
                assert(bytes@.take(p3 as int) =~= json_base(counter)
                    + entries_text(entries@));
                assert forall|a: int, q: int| 0 <= a < q < entries@.len()
                    implies (#[trigger] entries@[a]).0 < (#[trigger] entries@[q]).0 by {
                    if q < entries@.len() - 1 {
                        assert(entries@[a] == pre_entries[a] && entries@[q] == pre_entries[q]);
                    } else if a < entries@.len() - 1 {
                        assert(entries@[a] == pre_entries[a]);
                        assert(pre_entries[a].0 <= pre_entries[pre_entries.len() - 1].0);
                    }
                }
                if good {
                    assert(entries@[k].0 == ges[k].0 && entries@[k].1.wire() == ges[k].1.wire());
                    assert(p3 == p + entry_text(ges[k]).len());
                }
            }
            if p3 < bytes.len() && bytes[p3] == 44 {
                proof {
                    if good {
                        if k + 1 == ges.len() {
                            assert(bytes@[p3 as int] == 125);
                            assert(false);
                        }
                    }
                    assert(bytes@.take(p3 + 1) =~= json_base(counter) + pre_text(entries@));
                }
                p = p3 + 1;
            } else if bytes.len() - p3 == 2 && bytes[p3] == 125 && bytes[p3 + 1] == 125 {
                let manager = Local::from_parts(counter, entries);
                proof {
                    assert(bytes@ =~= bytes@.take(p3 as int) + json_tail());
                    assert(bytes@ =~= json_of(counter, manager.entries()));
                }
                return Ok(Json { manager, path });
            } else {
                proof {
                    if good {
                        if k + 1 == ges.len() {
                            assert(bytes@[p3 as int] == 125);
                            assert(p3 + 2 == bytes@.len());
                            assert(bytes@[p3 + 1] == 125);
                        } else {
                            assert(bytes@[p3 as int] == 44);
                            assert(p3 < bytes@.len());
                        }
                        assert(false);
                    }
                }
                return Err(Error::Codec);
            }
        }
    }
}

} // verus!
