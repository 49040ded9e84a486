//! UTF-8 encoding of pieces.
//!
//! The merger works on the UTF-8 bytes of a piece, so the byte sequence a
//! piece stands for is pinned down here, straight from the UTF-8 scheme.
use vstd::prelude::*;

verus! {

/// The UTF-8 bytes of one character.
pub open spec fn utf8_of(c: char) -> Seq<u8> {
    let v = c as u32;
    if v < 0x80 {
        seq![v as u8]
    } else if v < 0x800 {
        seq![(0xC0 | (v >> 6)) as u8, (0x80 | (v & 0x3F)) as u8]
    } else if v < 0x10000 {
        seq![
            (0xE0 | (v >> 12)) as u8,
            (0x80 | ((v >> 6) & 0x3F)) as u8,
            (0x80 | (v & 0x3F)) as u8,
        ]
    } else {
        seq![
            (0xF0 | (v >> 18)) as u8,
            (0x80 | ((v >> 12) & 0x3F)) as u8,
            (0x80 | ((v >> 6) & 0x3F)) as u8,
            (0x80 | (v & 0x3F)) as u8,
        ]
    }
}

/// The UTF-8 bytes of a character sequence.
pub open spec fn seq_utf8(s: Seq<char>) -> Seq<u8>
    decreases s.len(),
{
    if s.len() == 0 {
        Seq::empty()
    } else {
        utf8_of(s[0]) + seq_utf8(s.skip(1))
    }
}

pub proof fn lemma_seq_utf8_snoc(s: Seq<char>, c: char)
    ensures
        seq_utf8(s.push(c)) == seq_utf8(s) + utf8_of(c),
    decreases s.len(),
{
    if s.len() == 0 {
        assert(s.push(c).skip(1) =~= Seq::<char>::empty());
        assert(s.push(c)[0] == c);
        assert(seq_utf8(s.push(c)) == utf8_of(c) + seq_utf8(Seq::<char>::empty()));
        assert(seq_utf8(s.push(c)) =~= seq_utf8(s) + utf8_of(c));
    } else {
        assert(s.push(c).skip(1) =~= s.skip(1).push(c));
        assert(s.push(c)[0] == s[0]);
        lemma_seq_utf8_snoc(s.skip(1), c);
        assert(seq_utf8(s.push(c)) == utf8_of(s[0]) + (seq_utf8(s.skip(1)) + utf8_of(c)));
        assert(seq_utf8(s.push(c)) =~= seq_utf8(s) + utf8_of(c));
    }
}

/// Appends the UTF-8 encoding of `c` to `out`.
pub fn push_utf8(out: &mut Vec<u8>, c: char)
    ensures
        final(out)@ == old(out)@ + utf8_of(c),
{
    let v = c as u32;
    if v < 0x80 {
        out.push(v as u8);
    } else if v < 0x800 {
        proof {
            assert(v < 0x800 ==> (0xC0u32 | (v >> 6)) < 0x100 && (0x80u32 | (v & 0x3F)) < 0x100)
                by (bit_vector);
        }
        out.push((0xC0 | (v >> 6)) as u8);
        out.push((0x80 | (v & 0x3F)) as u8);
    } else if v < 0x10000 {
        proof {
            assert(v < 0x10000 ==> (0xE0u32 | (v >> 12)) < 0x100) by (bit_vector);
            assert((0x80u32 | ((v >> 6) & 0x3F)) < 0x100 && (0x80u32 | (v & 0x3F)) < 0x100)
                by (bit_vector);
        }
        out.push((0xE0 | (v >> 12)) as u8);
        out.push((0x80 | ((v >> 6) & 0x3F)) as u8);
        out.push((0x80 | (v & 0x3F)) as u8);
    } else {
        proof {
            assert(v < 0x110000 ==> (0xF0u32 | (v >> 18)) < 0x100) by (bit_vector);
            assert((0x80u32 | ((v >> 12) & 0x3F)) < 0x100 && (0x80u32 | ((v >> 6) & 0x3F)) < 0x100
                && (0x80u32 | (v & 0x3F)) < 0x100) by (bit_vector);
        }
        out.push((0xF0 | (v >> 18)) as u8);
        out.push((0x80 | ((v >> 12) & 0x3F)) as u8);
        out.push((0x80 | ((v >> 6) & 0x3F)) as u8);
        out.push((0x80 | (v & 0x3F)) as u8);
    }
    proof {
        assert(out@ =~= old(out)@ + utf8_of(c));
    }
}

/// The UTF-8 bytes of `text[start..end]`.
pub fn utf8_bytes(text: &Vec<char>, start: usize, end: usize) -> (r: Vec<u8>)
    requires
        start <= end <= text.len(),
    ensures
        r@ == seq_utf8(text@.subrange(start as int, end as int)),
{
    let mut r: Vec<u8> = Vec::new();
    let mut i: usize = start;
    proof {
        assert(text@.subrange(start as int, start as int) =~= Seq::<char>::empty());
    }
    while i < end
        invariant
            start <= i <= end <= text.len(),
            r@ == seq_utf8(text@.subrange(start as int, i as int)),
        decreases end - i,
    {
        push_utf8(&mut r, text[i]);
        proof {
            assert(text@.subrange(start as int, i + 1) =~= text@.subrange(
                start as int,
                i as int,
            ).push(text@[i as int]));
            lemma_seq_utf8_snoc(text@.subrange(start as int, i as int), text@[i as int]);
        }
        i = i + 1;
    }
    r
}

} // verus!
