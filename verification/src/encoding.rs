//! A separator that is ASCII splits a text into the same pieces before and after UTF-8 encoding.

use vstd::prelude::*;
use vstd::utf8::{encode_scalar, encode_utf8, has_width_1_encoding};
use crate::text::{chomp, head_len, lines, split};
use crate::text::{lemma_head_len, lemma_head_len_is, lemma_split_step};

verus! {

/// Each of the texts, encoded.
pub open spec fn encode_each(v: Seq<Seq<char>>) -> Seq<Seq<u8>> {
    v.map_values(|s: Seq<char>| encode_utf8(s))
}

/// The encoding of two texts in a row is that of the one, then that of the other.
pub proof fn lemma_encode_add(a: Seq<char>, b: Seq<char>)
    ensures
        encode_utf8(a + b) == encode_utf8(a) + encode_utf8(b),
    decreases a.len(),
{
    if a.len() == 0 {
        assert(a + b =~= b);
        assert(encode_utf8(a) + encode_utf8(b) =~= encode_utf8(b));
    } else {
        assert((a + b).drop_first() =~= a.drop_first() + b);
        lemma_encode_add(a.drop_first(), b);
        assert(encode_utf8(a + b) =~= encode_utf8(a) + encode_utf8(b));
    }
}

/// The encoding of a single character.
pub proof fn lemma_encode_one(c: char)
    ensures
        encode_utf8(seq![c]) == encode_scalar(c as u32),
{
    let s = seq![c];
    assert(s.drop_first() =~= seq![]);
    assert(encode_utf8(s.drop_first()) =~= seq![]);
    assert(encode_utf8(s) =~= encode_scalar(c as u32));
}

/// Characters that have the same number are the same.
pub proof fn lemma_char_number(a: char, b: char)
    ensures
        a as u32 == b as u32 ==> a == b,
{
}

/// An ASCII byte stands in an encoded text for the character of that number, and for no part
/// of any other.
pub proof fn lemma_encode_ascii(c: char, b: u8)
    requires
        b < 0x80,
    ensures
        encode_scalar(c as u32).len() > 0,
        c as u32 == b as u32 ==> encode_scalar(c as u32) == seq![b],
        c as u32 != b as u32 ==> forall|i: int|
            0 <= i < encode_scalar(c as u32).len() ==> #[trigger] encode_scalar(c as u32)[i] != b,
{
    let s = c as u32;
    if has_width_1_encoding(s) {
        assert((s & 0x7F) as u8 == s) by (bit_vector)
            requires
                s <= 0x7F,
        ;
        assert(encode_scalar(s) =~= seq![s as u8]);
    } else {
        assert(0xC0u8 | (((s >> 6) & 0x1F) as u8) >= 0x80u8) by (bit_vector);
        assert(0xE0u8 | (((s >> 12) & 0x0F) as u8) >= 0x80u8) by (bit_vector);
        assert(0xF0u8 | (((s >> 18) & 0x7) as u8) >= 0x80u8) by (bit_vector);
        assert(0x80u8 | ((s & 0x3F) as u8) >= 0x80u8) by (bit_vector);
        assert(0x80u8 | (((s >> 6) & 0x3F) as u8) >= 0x80u8) by (bit_vector);
        assert(0x80u8 | (((s >> 12) & 0x3F) as u8) >= 0x80u8) by (bit_vector);
    }
}

/// The piece before the first separator.
pub proof fn lemma_head_encoded(s: Seq<char>, c: char, b: u8)
    requires
        b < 0x80,
        c as u32 == b as u32,
    ensures
        ({
            let n = head_len(s, c) as int;
            let m = head_len(encode_utf8(s), b) as int;
            &&& n <= s.len()
            &&& m <= encode_utf8(s).len()
            &&& n < s.len() <==> m < encode_utf8(s).len()
            &&& encode_utf8(s).take(m) == encode_utf8(s.take(n))
            &&& n < s.len() ==> encode_utf8(s).skip(m + 1) == encode_utf8(s.skip(n + 1))
        }),
    decreases s.len(),
{
    let e = encode_utf8(s);
    lemma_head_len(s, c);
    lemma_head_len(e, b);
    if s.len() == 0 {
        assert(e.take(0) =~= encode_utf8(s.take(0)));
    } else {
        let first = encode_scalar(s[0] as u32);
        lemma_encode_ascii(s[0], b);
        let rest = encode_utf8(s.skip(1));
        assert(s.skip(1) =~= s.drop_first());
        assert(e =~= first + rest);
        if s[0] == c {
            assert(e[0] == b);
            lemma_head_len_is(s, c, 0);
            lemma_head_len_is(e, b, 0);
            assert(e.skip(1) =~= rest);
            assert(s.take(0) =~= seq![]);
            assert(e.take(0) =~= encode_utf8(s.take(0)));
        } else {
            lemma_char_number(s[0], c);
            lemma_head_encoded(s.skip(1), c, b);
            lemma_head_len(rest, b);
            let n = head_len(s.skip(1), c) as int;
            let m = head_len(rest, b) as int;
            let k = first.len() as int;
            assert forall|i: int| 0 <= i < k + m implies e[i] != b by {
                if i < k {
                    assert(e[i] == first[i]);
                } else {
                    assert(e[i] == rest[i - k]);
                }
            }
            if m < rest.len() {
                assert(e[k + m] == rest[m]);
            }
            lemma_head_len_is(e, b, k + m);
            lemma_head_len(s.skip(1), c);
            assert forall|i: int| 0 <= i < n + 1 implies s[i] != c by {
                if i > 0 {
                    assert(s[i] == s.skip(1)[i - 1]);
                }
            }
            lemma_head_len_is(s, c, n + 1);
            assert(s.take(n + 1) =~= seq![s[0]] + s.skip(1).take(n));
            lemma_encode_add(seq![s[0]], s.skip(1).take(n));
            lemma_encode_one(s[0]);
            assert(e.take(k + m) =~= first + rest.take(m));
            if n < s.skip(1).len() {
                assert(s.skip(1).skip(n + 1) =~= s.skip(n + 2));
                assert(e.skip(k + m + 1) =~= rest.skip(m + 1));
            }
        }
    }
}

/// The pieces between separators.
pub proof fn lemma_split_encoded(s: Seq<char>, c: char, b: u8)
    requires
        b < 0x80,
        c as u32 == b as u32,
    ensures
        split(encode_utf8(s), b) == encode_each(split(s, c)),
    decreases s.len(),
{
    lemma_head_encoded(s, c, b);
    let n = head_len(s, c) as int;
    let m = head_len(encode_utf8(s), b) as int;
    lemma_split_step(s, c);
    lemma_split_step(encode_utf8(s), b);
    if n < s.len() {
        lemma_split_encoded(s.skip(n + 1), c, b);
    } else {
        assert(s.take(n) =~= s);
        assert(encode_utf8(s).take(m) =~= encode_utf8(s));
    }
    assert(split(encode_utf8(s), b) =~= encode_each(split(s, c)));
}

/// A line without the carriage return that ends it.
pub proof fn lemma_chomp_encoded(s: Seq<char>, c: char, b: u8)
    requires
        b < 0x80,
        c as u32 == b as u32,
    ensures
        chomp(encode_utf8(s), b) == encode_utf8(chomp(s, c)),
{
    let e = encode_utf8(s);
    if s.len() > 0 {
        let init = encode_utf8(s.drop_last());
        let last = encode_scalar(s.last() as u32);
        assert(s =~= s.drop_last() + seq![s.last()]);
        lemma_encode_add(s.drop_last(), seq![s.last()]);
        lemma_encode_one(s.last());
        lemma_encode_ascii(s.last(), b);
        assert(e == init + last);
        assert(e.last() == last[last.len() - 1]);
        if s.last() == c {
            assert(e.drop_last() =~= init);
        } else {
            lemma_char_number(s.last(), c);
        }
    }
}

/// The lines.
pub proof fn lemma_lines_encoded(s: Seq<char>, lf: char, cr: char, lf_byte: u8, cr_byte: u8)
    requires
        lf_byte < 0x80,
        lf as u32 == lf_byte as u32,
        cr_byte < 0x80,
        cr as u32 == cr_byte as u32,
    ensures
        lines(encode_utf8(s), lf_byte, cr_byte) == encode_each(lines(s, lf, cr)),
    decreases s.len(),
{
    lemma_head_encoded(s, lf, lf_byte);
    let n = head_len(s, lf) as int;
    if s.len() > 0 {
        lemma_encode_ascii(s[0], lf_byte);
        assert(encode_utf8(s).len() > 0);
        if n < s.len() {
            lemma_chomp_encoded(s.take(n), cr, cr_byte);
            lemma_lines_encoded(s.skip(n + 1), lf, cr, lf_byte, cr_byte);
        }
    }
    assert(lines(encode_utf8(s), lf_byte, cr_byte) =~= encode_each(lines(s, lf, cr)));
}

} // verus!
