//! The order in which labels and paths are compared: byte by byte over their
//! UTF-8 encoding, a proper prefix before its extensions.

use vstd::prelude::*;
use vstd::utf8::*;

verus! {

/// Whether `a` comes before `b` when both are compared from position `from`
/// on: at the first position where they differ `a` holds the smaller byte, or
/// `a` ends there and `b` goes on.
pub open spec fn bytes_lt_from(a: Seq<u8>, b: Seq<u8>, from: int) -> bool
    decreases a.len() - from,
{
    if from >= b.len() {
        false
    } else if from >= a.len() {
        true
    } else if a[from] != b[from] {
        a[from] < b[from]
    } else {
        bytes_lt_from(a, b, from + 1)
    }
}

/// Lexicographic order on byte strings.
pub open spec fn bytes_lt(a: Seq<u8>, b: Seq<u8>) -> bool {
    bytes_lt_from(a, b, 0)
}

/// The order on text: that of its UTF-8 bytes.
pub open spec fn text_lt(a: Seq<char>, b: Seq<char>) -> bool {
    bytes_lt(encode_utf8(a), encode_utf8(b))
}

/// The number of bytes that `s` takes in UTF-8.
pub open spec fn byte_len(s: Seq<char>) -> nat {
    encode_utf8(s).len()
}

/// No byte string comes before itself.
pub proof fn lemma_bytes_lt_from_irreflexive(a: Seq<u8>, from: int)
    ensures
        !bytes_lt_from(a, a, from),
    decreases a.len() - from,
{
    if from < a.len() {
        lemma_bytes_lt_from_irreflexive(a, from + 1);
    }
}

/// Of two byte strings at most one comes before the other.
pub proof fn lemma_bytes_lt_from_asymmetric(a: Seq<u8>, b: Seq<u8>, from: int)
    requires
        bytes_lt_from(a, b, from),
    ensures
        !bytes_lt_from(b, a, from),
    decreases a.len() - from,
{
    if from < a.len() && from < b.len() && a[from] == b[from] {
        lemma_bytes_lt_from_asymmetric(a, b, from + 1);
    }
}

/// What comes before a byte string comes before all that this one comes
/// before.
pub proof fn lemma_bytes_lt_from_transitive(a: Seq<u8>, b: Seq<u8>, c: Seq<u8>, from: int)
    requires
        bytes_lt_from(a, b, from),
        bytes_lt_from(b, c, from),
    ensures
        bytes_lt_from(a, c, from),
    decreases a.len() - from,
{
    if from < a.len() && a[from] == b[from] && b[from] == c[from] {
        lemma_bytes_lt_from_transitive(a, b, c, from + 1);
    }
}

/// Two byte strings of which neither comes before the other from a position
/// on are of one length and hold the same bytes from there on.
pub proof fn lemma_bytes_lt_from_connected(a: Seq<u8>, b: Seq<u8>, from: int)
    requires
        0 <= from <= a.len(),
        from <= b.len(),
        !bytes_lt_from(a, b, from),
        !bytes_lt_from(b, a, from),
    ensures
        a.len() == b.len(),
        forall|j: int| from <= j < a.len() ==> a[j] == b[j],
    decreases a.len() - from,
{
    if from < a.len() && from < b.len() {
        lemma_bytes_lt_from_connected(a, b, from + 1);
    }
}

/// No text comes before itself.
pub proof fn lemma_text_lt_irreflexive(a: Seq<char>)
    ensures
        !text_lt(a, a),
{
    lemma_bytes_lt_from_irreflexive(encode_utf8(a), 0);
}

/// Of two texts at most one comes before the other.
pub proof fn lemma_text_lt_asymmetric(a: Seq<char>, b: Seq<char>)
    requires
        text_lt(a, b),
    ensures
        !text_lt(b, a),
        a != b,
{
    lemma_bytes_lt_from_asymmetric(encode_utf8(a), encode_utf8(b), 0);
}

/// The order on text is transitive.
pub proof fn lemma_text_lt_transitive(a: Seq<char>, b: Seq<char>, c: Seq<char>)
    requires
        text_lt(a, b),
        text_lt(b, c),
    ensures
        text_lt(a, c),
{
    lemma_bytes_lt_from_transitive(encode_utf8(a), encode_utf8(b), encode_utf8(c), 0);
}

/// Two texts of which neither comes before the other are the same text.
pub proof fn lemma_text_lt_connected(a: Seq<char>, b: Seq<char>)
    requires
        !text_lt(a, b),
        !text_lt(b, a),
    ensures
        a == b,
{
    let x = encode_utf8(a);
    let y = encode_utf8(b);
    lemma_bytes_lt_from_connected(x, y, 0);
    assert(x =~= y);
    encode_utf8_decode_utf8(a);
    encode_utf8_decode_utf8(b);
}

/// Whether `a` comes before `b` in the order on text.
pub fn str_lt(a: &str, b: &str) -> (r: bool)
    ensures
        r == text_lt(a@, b@),
{
    let x = a.as_bytes();
    let y = b.as_bytes();
    let mut i: usize = 0;
    while i < x.len() && i < y.len()
        invariant
            i <= x@.len(),
            i <= y@.len(),
            x@ == encode_utf8(a@),
            y@ == encode_utf8(b@),
            bytes_lt(x@, y@) == bytes_lt_from(x@, y@, i as int),
        decreases x@.len() - i,
    {
        if x[i] != y[i] {
            return x[i] < y[i];
        }
        i += 1;
    }
    i < y.len()
}

/// Whether `a` and `b` are the same text.
pub fn str_eq(a: &str, b: &str) -> (r: bool)
    ensures
        r == (a@ == b@),
{
    let same = !str_lt(a, b) && !str_lt(b, a);
    proof {
        if same {
            lemma_text_lt_connected(a@, b@);
        } else {
            lemma_text_lt_irreflexive(a@);
        }
    }
    same
}

} // verus!
