//! Fixed-width, order-preserving byte encodings of translations, verse keys
//! and the composite keys under which the transducers are searched.

use crate::lex::{
    lemma_lex_lt_asymmetric, lemma_lex_lt_by_head, lemma_lex_lt_by_tail, lex_lt, precedes_at,
};
use vstd::prelude::*;

verus! {

/// The number of translations in the corpus.
pub const TRANSLATION_COUNT: usize = 3;

/// The width in bytes of an encoded verse key.
pub const VERSE_KEY_BYTES: usize = 12;

/// The number of values that fit in `width` bytes.
pub open spec fn limit(width: nat) -> nat
    decreases width,
{
    if width == 0 {
        1
    } else {
        256 * limit((width - 1) as nat)
    }
}

/// The big-endian digits of `x` in `width` bytes, most significant first.
/// Digits beyond the width are dropped.
pub open spec fn be_bytes(x: nat, width: nat) -> Seq<u8>
    decreases width,
{
    if width == 0 {
        Seq::empty()
    } else {
        be_bytes(x / 256, (width - 1) as nat).push((x % 256) as u8)
    }
}

/// The number that a run of big-endian digits stands for.
pub open spec fn be_value(bytes: Seq<u8>) -> nat
    decreases bytes.len(),
{
    if bytes.len() == 0 {
        0
    } else {
        be_value(bytes.drop_last()) * 256 + bytes.last() as nat
    }
}

/// An encoding is as wide as asked.
pub proof fn lemma_be_bytes_len(x: nat, width: nat)
    ensures
        be_bytes(x, width).len() == width,
    decreases width,
{
    if width > 0 {
        lemma_be_bytes_len(x / 256, (width - 1) as nat);
    }
}

/// Decoding undoes encoding for every number that fits in the width.
pub proof fn lemma_be_round_trip(x: nat, width: nat)
    requires
        x < limit(width),
    ensures
        be_value(be_bytes(x, width)) == x,
    decreases width,
{
    if width > 0 {
        let head = be_bytes(x / 256, (width - 1) as nat);
        lemma_be_round_trip(x / 256, (width - 1) as nat);
        assert(be_bytes(x, width).drop_last() =~= head);
    }
}

/// Among numbers that fit in the width, the smaller number has the
/// lexicographically smaller encoding.
pub proof fn lemma_be_increasing(x: nat, y: nat, width: nat)
    requires
        x < y < limit(width),
    ensures
        lex_lt(be_bytes(x, width), be_bytes(y, width)),
    decreases width,
{
    if width > 0 {
        let w = (width - 1) as nat;
        let hx = be_bytes(x / 256, w);
        let hy = be_bytes(y / 256, w);
        lemma_be_bytes_len(x / 256, w);
        lemma_be_bytes_len(y / 256, w);
        let tx = seq![(x % 256) as u8];
        let ty = seq![(y % 256) as u8];
        assert(be_bytes(x, width) =~= hx + tx);
        assert(be_bytes(y, width) =~= hy + ty);
        if x / 256 < y / 256 {
            lemma_be_increasing(x / 256, y / 256, w);
            lemma_lex_lt_by_head(hx, hy, tx, ty);
        } else {
            assert(x / 256 == y / 256);
            assert(precedes_at(tx, ty, 0));
            lemma_lex_lt_by_tail(hx, tx, ty);
        }
    }
}

/// Among numbers that fit in the width, the order of the encodings is the
/// order of the numbers.
pub proof fn lemma_be_order(x: nat, y: nat, width: nat)
    requires
        x < limit(width),
        y < limit(width),
    ensures
        lex_lt(be_bytes(x, width), be_bytes(y, width)) <==> x < y,
{
    if x < y {
        lemma_be_increasing(x, y, width);
    } else if y < x {
        lemma_be_increasing(y, x, width);
        lemma_lex_lt_asymmetric(be_bytes(y, width), be_bytes(x, width));
    } else {
        if lex_lt(be_bytes(x, width), be_bytes(y, width)) {
            lemma_lex_lt_asymmetric(be_bytes(x, width), be_bytes(y, width));
        }
    }
}

/// Appends the big-endian encoding of `x` in `width` bytes.
pub fn push_be(out: &mut Vec<u8>, x: u64, width: usize)
    ensures
        final(out)@ == old(out)@ + be_bytes(x as nat, width as nat),
    decreases width,
{
    if width > 0 {
        push_be(out, x / 256, width - 1);
        out.push((x % 256) as u8);
        proof {
            assert(out@ =~= old(out)@ + be_bytes(x as nat, width as nat));
        }
    } else {
        proof {
            assert(out@ =~= old(out)@ + be_bytes(x as nat, width as nat));
        }
    }
}

/// An edition of the corpus.
#[derive(Clone, Copy, Debug, PartialEq, Eq, Structural, Hash)]
pub enum Translation {
    Kjv,
    Net,
    Bsb,
}

impl Translation {
    /// The number by which a translation is stored and encoded.
    pub open spec fn index_spec(self) -> u8 {
        match self {
            Translation::Kjv => 0,
            Translation::Net => 1,
            Translation::Bsb => 2,
        }
    }

    /// The number by which this translation is stored and encoded.
    #[verifier::when_used_as_spec(index_spec)]
    pub fn index(self) -> (i: u8)
        ensures
            i == self.index_spec(),
            i < TRANSLATION_COUNT,
    {
        match self {
            Translation::Kjv => 0,
            Translation::Net => 1,
            Translation::Bsb => 2,
        }
    }

    /// The translation that a number read from a document stands for, if
    /// there is one.
    pub fn from_i32(value: i32) -> (t: Option<Translation>)
        ensures
            t is Some <==> 0 <= value < TRANSLATION_COUNT,
            t matches Some(found) ==> found.index() == value,
    {
        if value == 0 {
            Some(Translation::Kjv)
        } else if value == 1 {
            Some(Translation::Net)
        } else if value == 2 {
            Some(Translation::Bsb)
        } else {
            None
        }
    }
}

/// Identifies a verse in any translation.
#[derive(Clone, Copy, Debug, PartialEq, Eq, Structural, PartialOrd, Ord, Hash)]
pub struct VerseKey {
    pub book: u32,
    pub chapter: u32,
    pub verse: u32,
}

impl VerseKey {
    /// Canonical order of verses: by book, then chapter, then verse.
    pub open spec fn precedes(self, other: VerseKey) -> bool {
        ||| self.book < other.book
        ||| self.book == other.book && self.chapter < other.chapter
        ||| self.book == other.book && self.chapter == other.chapter && self.verse < other.verse
    }

    /// The encoding of a verse key: book, chapter and verse, each in four
    /// big-endian bytes.
    pub open spec fn bytes(self) -> Seq<u8> {
        be_bytes(self.book as nat, 4) + be_bytes(self.chapter as nat, 4) + be_bytes(
            self.verse as nat,
            4,
        )
    }

    /// The verse key that twelve bytes stand for.
    pub open spec fn from_bytes(bytes: Seq<u8>) -> VerseKey {
        VerseKey {
            book: be_value(bytes.subrange(0, 4)) as u32,
            chapter: be_value(bytes.subrange(4, 8)) as u32,
            verse: be_value(bytes.subrange(8, 12)) as u32,
        }
    }

    /// The width in bytes of every encoded verse key.
    pub fn get_byte_size() -> (n: usize)
        ensures
            n == VERSE_KEY_BYTES,
    {
        VERSE_KEY_BYTES
    }

    /// Encodes the key.
    pub fn to_be_bytes(&self) -> (out: Vec<u8>)
        ensures
            out@ == self.bytes(),
            out@.len() == VERSE_KEY_BYTES,
    {
        let mut out: Vec<u8> = Vec::with_capacity(VERSE_KEY_BYTES);
        push_be(&mut out, self.book as u64, 4);
        push_be(&mut out, self.chapter as u64, 4);
        push_be(&mut out, self.verse as u64, 4);
        proof {
            lemma_verse_key_len(*self);
            assert(out@ =~= self.bytes());
        }
        out
    }

    /// Decodes a key; `None` unless exactly twelve bytes are given.
    pub fn from_be_bytes(bytes: &[u8]) -> (key: Option<VerseKey>)
        ensures
            key is Some <==> bytes@.len() == VERSE_KEY_BYTES,
            key matches Some(k) ==> k == VerseKey::from_bytes(bytes@),
    {
        if bytes.len() != VERSE_KEY_BYTES {
            return None;
        }
        let book = read_be32(bytes, 0);
        let chapter = read_be32(bytes, 4);
        let verse = read_be32(bytes, 8);
        Some(VerseKey { book, chapter, verse })
    }
}

pub proof fn lemma_limit_4()
    ensures
        limit(4) == 0x1_0000_0000,
        limit(2) == 0x1_0000,
        limit(1) == 0x100,
{
    reveal_with_fuel(limit, 5);
}

/// Reads four big-endian bytes.
fn read_be32(bytes: &[u8], start: usize) -> (x: u32)
    requires
        start + 4 <= bytes@.len(),
    ensures
        x == be_value(bytes@.subrange(start as int, start + 4)),
{
    let b0: u32 = bytes[start] as u32;
    let b1: u32 = bytes[start + 1] as u32;
    let b2: u32 = bytes[start + 2] as u32;
    let b3: u32 = bytes[start + 3] as u32;
    proof {
        let s = bytes@.subrange(start as int, start + 4);
        let s3 = s.drop_last();
        let s2 = s3.drop_last();
        let s1 = s2.drop_last();
        assert(s1.drop_last().len() == 0);
        assert(be_value(s1) == b0) by {
            reveal_with_fuel(be_value, 2);
        }
        assert(be_value(s2) == b0 * 256 + b1);
        assert(be_value(s3) == (b0 * 256 + b1) * 256 + b2);
        assert(be_value(s) == ((b0 * 256 + b1) * 256 + b2) * 256 + b3);
    }
    ((b0 * 256 + b1) * 256 + b2) * 256 + b3
}

/// Every encoded verse key has the same width.
pub proof fn lemma_verse_key_len(key: VerseKey)
    ensures
        key.bytes().len() == VERSE_KEY_BYTES,
{
    lemma_be_bytes_len(key.book as nat, 4);
    lemma_be_bytes_len(key.chapter as nat, 4);
    lemma_be_bytes_len(key.verse as nat, 4);
}

/// Decoding an encoded verse key gives the key back.
pub proof fn lemma_verse_key_round_trip(key: VerseKey)
    ensures
        VerseKey::from_bytes(key.bytes()) == key,
{
    lemma_limit_4();
    let b = be_bytes(key.book as nat, 4);
    let c = be_bytes(key.chapter as nat, 4);
    let v = be_bytes(key.verse as nat, 4);
    lemma_be_bytes_len(key.book as nat, 4);
    lemma_be_bytes_len(key.chapter as nat, 4);
    lemma_be_bytes_len(key.verse as nat, 4);
    lemma_be_round_trip(key.book as nat, 4);
    lemma_be_round_trip(key.chapter as nat, 4);
    lemma_be_round_trip(key.verse as nat, 4);
    assert(key.bytes().subrange(0, 4) =~= b);
    assert(key.bytes().subrange(4, 8) =~= c);
    assert(key.bytes().subrange(8, 12) =~= v);
}

/// A verse that comes earlier in canonical order has the lexicographically
/// smaller encoding.
pub proof fn lemma_verse_key_increasing(a: VerseKey, b: VerseKey)
    requires
        a.precedes(b),
    ensures
        lex_lt(a.bytes(), b.bytes()),
{
    lemma_limit_4();
    let (ab, ac, av) = (
        be_bytes(a.book as nat, 4),
        be_bytes(a.chapter as nat, 4),
        be_bytes(a.verse as nat, 4),
    );
    let (bb, bc, bv) = (
        be_bytes(b.book as nat, 4),
        be_bytes(b.chapter as nat, 4),
        be_bytes(b.verse as nat, 4),
    );
    lemma_be_bytes_len(a.book as nat, 4);
    lemma_be_bytes_len(b.book as nat, 4);
    lemma_be_bytes_len(a.chapter as nat, 4);
    lemma_be_bytes_len(b.chapter as nat, 4);
    assert(a.bytes() =~= ab + (ac + av));
    assert(b.bytes() =~= bb + (bc + bv));
    if a.book < b.book {
        lemma_be_increasing(a.book as nat, b.book as nat, 4);
        lemma_lex_lt_by_head(ab, bb, ac + av, bc + bv);
    } else if a.chapter < b.chapter {
        lemma_be_increasing(a.chapter as nat, b.chapter as nat, 4);
        lemma_lex_lt_by_head(ac, bc, av, bv);
        lemma_lex_lt_by_tail(ab, ac + av, bc + bv);
    } else {
        lemma_be_increasing(a.verse as nat, b.verse as nat, 4);
        lemma_lex_lt_by_tail(ac, av, bv);
        lemma_lex_lt_by_tail(ab, ac + av, bc + bv);
    }
}

/// The lexicographic order of encoded verse keys is the canonical order of
/// the verses.
pub proof fn lemma_verse_key_order(a: VerseKey, b: VerseKey)
    ensures
        lex_lt(a.bytes(), b.bytes()) <==> a.precedes(b),
{
    if a.precedes(b) {
        lemma_verse_key_increasing(a, b);
    } else if b.precedes(a) {
        lemma_verse_key_increasing(b, a);
        lemma_lex_lt_asymmetric(b.bytes(), a.bytes());
    } else {
        assert(a == b);
        if lex_lt(a.bytes(), b.bytes()) {
            lemma_lex_lt_asymmetric(a.bytes(), b.bytes());
        }
    }
}

/// The key of a verse's text: the translation's number in one byte, then
/// the encoded verse key.
pub open spec fn verse_text_key(tidx: u8, key: VerseKey) -> Seq<u8> {
    seq![tidx] + key.bytes()
}

/// The key of a proximity record: the translation's number in one byte, the
/// encoded verse key, and the ids of the two tokens in two big-endian bytes
/// each.
pub open spec fn proximity_key(tidx: u8, key: VerseKey, first: u16, second: u16) -> Seq<u8> {
    verse_text_key(tidx, key) + be_bytes(first as nat, 2) + be_bytes(second as nat, 2)
}

/// Given a translation id, a verse key, and two word ids, generates the
/// bytes under which their proximity is stored.
pub fn proximity_bytes_key(tidx: u8, vkey: &VerseKey, w1i: u16, w2i: u16) -> (out: Vec<u8>)
    ensures
        out@ == proximity_key(tidx, *vkey, w1i, w2i),
{
    let mut out: Vec<u8> = Vec::with_capacity(1 + VERSE_KEY_BYTES + 4);
    out.push(tidx);
    let mut key_bytes = vkey.to_be_bytes();
    out.append(&mut key_bytes);
    push_be(&mut out, w1i as u64, 2);
    push_be(&mut out, w2i as u64, 2);
    proof {
        assert(out@ =~= proximity_key(tidx, *vkey, w1i, w2i));
    }
    out
}

/// Given a translation id and a verse key, generates the bytes under which
/// the verse's text is stored.
pub fn translation_verses_bytes_key(tidx: u8, vkey: &VerseKey) -> (out: Vec<u8>)
    ensures
        out@ == verse_text_key(tidx, *vkey),
{
    let mut out: Vec<u8> = Vec::with_capacity(1 + VERSE_KEY_BYTES);
    out.push(tidx);
    let mut key_bytes = vkey.to_be_bytes();
    out.append(&mut key_bytes);
    proof {
        assert(out@ =~= verse_text_key(tidx, *vkey));
    }
    out
}

/// A run of digits stands for a number that fits in as many bytes.
pub proof fn lemma_be_value_bound(bytes: Seq<u8>)
    ensures
        be_value(bytes) < limit(bytes.len()),
    decreases bytes.len(),
{
    if bytes.len() > 0 {
        lemma_be_value_bound(bytes.drop_last());
    }
}

/// Encoding undoes decoding: a number read from a run of digits is written
/// back as the same digits.
pub proof fn lemma_be_value_round_trip(bytes: Seq<u8>)
    ensures
        be_bytes(be_value(bytes), bytes.len()) == bytes,
    decreases bytes.len(),
{
    if bytes.len() > 0 {
        let x = be_value(bytes);
        lemma_be_value_round_trip(bytes.drop_last());
        assert(x / 256 == be_value(bytes.drop_last()));
        assert(x % 256 == bytes.last() as nat);
        assert(be_bytes(x, bytes.len()) =~= bytes);
    } else {
        assert(be_bytes(be_value(bytes), 0) =~= bytes);
    }
}

/// Encoding a decoded verse key gives the twelve bytes back.
pub proof fn lemma_verse_key_decoded(bytes: Seq<u8>)
    requires
        bytes.len() == VERSE_KEY_BYTES,
    ensures
        VerseKey::from_bytes(bytes).bytes() == bytes,
{
    lemma_limit_4();
    let b = bytes.subrange(0, 4);
    let c = bytes.subrange(4, 8);
    let v = bytes.subrange(8, 12);
    lemma_be_value_bound(b);
    lemma_be_value_bound(c);
    lemma_be_value_bound(v);
    lemma_be_value_round_trip(b);
    lemma_be_value_round_trip(c);
    lemma_be_value_round_trip(v);
    assert(bytes =~= b + c + v);
}

} // verus!
