//! Laws of the tokenizer, stated over the same spec functions the
//! executable contracts use.
use crate::bpe::best_pair;
use crate::bpe::do_merge;
use crate::bpe::init_syms;
use crate::bpe::lemma_best_upto_props;
use crate::bpe::merge_all;
use crate::bpe::pair_key;
use crate::bpe::piece_tokens;
use crate::encode::encode_pieces;
use crate::encode::seg;
use crate::encode::spec_encode;
use crate::encode::special_at;
use crate::grammar::lemma_grammar_len_bounds;
use crate::utf8::seq_utf8;
use crate::utf8::utf8_of;
use vstd::prelude::*;

verus! {

/// Determinism: for one text, table and allow-set, two encodings are
/// the same token sequence.
pub proof fn lemma_encode_deterministic(
    t: Seq<char>,
    m: Map<Seq<u8>, usize>,
    sp: Seq<(Seq<char>, usize)>,
    allowed: Set<Seq<char>>,
    r1: Result<Seq<usize>, Seq<char>>,
    r2: Result<Seq<usize>, Seq<char>>,
)
    requires
        r1 == spec_encode(t, m, sp, allowed),
        r2 == spec_encode(t, m, sp, allowed),
    ensures
        r1 == r2,
{
}

/// Encoding a concatenation of piece lists is encoding each list and
/// concatenating, with the leftmost failure winning.
pub proof fn lemma_encode_pieces_append(
    m: Map<Seq<u8>, usize>,
    sp: Seq<(Seq<char>, usize)>,
    allowed: Set<Seq<char>>,
    p1: Seq<(Seq<char>, bool)>,
    p2: Seq<(Seq<char>, bool)>,
)
    ensures
        encode_pieces(m, sp, allowed, p1 + p2) == (match encode_pieces(m, sp, allowed, p1) {
            Err(e) => Err(e),
            Ok(a) => match encode_pieces(m, sp, allowed, p2) {
                Err(e) => Err::<Seq<usize>, Seq<char>>(e),
                Ok(b) => Ok(a + b),
            },
        }),
    decreases p1.len(),
{
    if p1.len() == 0 {
        assert(p1 + p2 =~= p2);
        if encode_pieces(m, sp, allowed, p2) is Ok {
            let b = encode_pieces(m, sp, allowed, p2)->Ok_0;
            assert(Seq::<usize>::empty() + b =~= b);
        }
    } else {
        assert((p1 + p2)[0] == p1[0]);
        assert((p1 + p2).len() > 0);
        assert((p1 + p2).skip(1) =~= p1.skip(1) + p2);
        lemma_encode_pieces_append(m, sp, allowed, p1.skip(1), p2);
        let cs = p1[0].0;
        let isp = p1[0].1;
        if isp && !allowed.contains(cs) {
        } else {
            let h = if isp {
                seq![crate::table::first_val(sp, cs).unwrap()]
            } else {
                piece_tokens(m, seq_utf8(cs))
            };
            match encode_pieces(m, sp, allowed, p1.skip(1)) {
                Err(e) => {},
                Ok(a1) => {
                    match encode_pieces(m, sp, allowed, p2) {
                        Err(e) => {},
                        Ok(b) => {
                            assert(h + (a1 + b) =~= (h + a1) + b);
                        },
                    }
                },
            }
        }
    }
}

/// Piece independence: when the segmenter gives a concatenation the
/// same boundaries as its parts, encoding the concatenation is exactly
/// the two encodings in order, with the leftmost failure winning —
/// merges never cross piece boundaries.
pub proof fn lemma_piece_independence(
    t1: Seq<char>,
    t2: Seq<char>,
    m: Map<Seq<u8>, usize>,
    sp: Seq<(Seq<char>, usize)>,
    allowed: Set<Seq<char>>,
)
    requires
        seg(t1 + t2, sp) == seg(t1, sp) + seg(t2, sp),
    ensures
        spec_encode(t1 + t2, m, sp, allowed) == (match spec_encode(t1, m, sp, allowed) {
            Err(e) => Err(e),
            Ok(a) => match spec_encode(t2, m, sp, allowed) {
                Err(e) => Err::<Seq<usize>, Seq<char>>(e),
                Ok(b) => Ok(a + b),
            },
        }),
{
    lemma_encode_pieces_append(m, sp, allowed, seg(t1, sp), seg(t2, sp));
}

/// Count monotonicity: a text extended past a piece boundary never
/// encodes to fewer tokens than the prefix alone.
pub proof fn lemma_count_monotone(
    t1: Seq<char>,
    rest: Seq<char>,
    m: Map<Seq<u8>, usize>,
    sp: Seq<(Seq<char>, usize)>,
    allowed: Set<Seq<char>>,
)
    requires
        seg(t1 + rest, sp) == seg(t1, sp) + seg(rest, sp),
        spec_encode(t1 + rest, m, sp, allowed) is Ok,
    ensures
        spec_encode(t1, m, sp, allowed) is Ok,
        spec_encode(t1, m, sp, allowed)->Ok_0.len() <= spec_encode(
            t1 + rest,
            m,
            sp,
            allowed,
        )->Ok_0.len(),
{
    lemma_piece_independence(t1, rest, m, sp, allowed);
}

/// Single-byte floor: one byte in the table is one token out.
pub proof fn lemma_single_byte(m: Map<Seq<u8>, usize>, b: u8)
    requires
        m.contains_key(seq![b]),
    ensures
        piece_tokens(m, seq![b]) == seq![m[seq![b]]],
{
    assert(init_syms(seq![b]) =~= seq![seq![b]]);
    assert(best_pair(m, seq![seq![b]]) is None);
    assert(merge_all(m, seq![seq![b]]) == seq![seq![b]]);
    assert(piece_tokens(m, seq![b]) =~= seq![m[seq![b]]]);
}

/// Single-byte floor at the text level: one ASCII character that starts
/// no special literal encodes to exactly one token id.
pub proof fn lemma_single_byte_text(
    c: char,
    m: Map<Seq<u8>, usize>,
    sp: Seq<(Seq<char>, usize)>,
    allowed: Set<Seq<char>>,
)
    requires
        (c as u32) < 0x80,
        m.contains_key(seq![c as u8]),
        special_at(sp, seq![c], 0) is None,
    ensures
        (spec_encode(seq![c], m, sp, allowed) matches Ok(ids) && ids.len() == 1),
{
    let t = seq![c];
    lemma_grammar_len_bounds(t);
    let l = crate::grammar::next_grammar_len(t);
    assert(l == 1);
    assert(t.take(1) =~= t);
    assert(t.skip(1) =~= Seq::<char>::empty());
    assert(seg(t, sp) == seq![(t, false)] + seg(Seq::<char>::empty(), sp));
    assert(seg(t, sp) =~= seq![(t, false)]);
    assert(seg(t, sp).skip(1) =~= Seq::<(Seq<char>, bool)>::empty());
    assert(t[0] == c);
    assert(seq_utf8(t) == utf8_of(c) + seq_utf8(Seq::<char>::empty()));
    assert(utf8_of(c) == seq![c as u8]);
    assert(seq_utf8(t) =~= seq![c as u8]);
    lemma_single_byte(m, c as u8);
    let toks = piece_tokens(m, seq![c as u8]);
    assert(encode_pieces(m, sp, allowed, Seq::<(Seq<char>, bool)>::empty()) == Ok::<
        Seq<usize>,
        Seq<char>,
    >(Seq::<usize>::empty()));
    assert(seg(t, sp)[0] == (t, false));
    assert(encode_pieces(m, sp, allowed, seg(t, sp)) == Ok::<Seq<usize>, Seq<char>>(
        toks + Seq::<usize>::empty(),
    ));
    assert(toks + Seq::<usize>::empty() =~= toks);
}

/// Tie-break reproducibility: when `i` is the leftmost adjacent pair of
/// the lowest rank, the next merge is at `i`, deterministically.
pub proof fn lemma_leftmost_tiebreak(m: Map<Seq<u8>, usize>, syms: Seq<Seq<u8>>, i: int, r: usize)
    requires
        syms.len() >= 2,
        0 <= i < syms.len() - 1,
        m.contains_key(pair_key(syms, i)),
        m[pair_key(syms, i)] == r,
        forall|k: int|
            0 <= k < syms.len() - 1 && m.contains_key(#[trigger] pair_key(syms, k)) ==> m[pair_key(
                syms,
                k,
            )] >= r,
        forall|k: int|
            0 <= k < i && m.contains_key(#[trigger] pair_key(syms, k)) ==> m[pair_key(syms, k)]
                > r,
    ensures
        best_pair(m, syms) == Some(i as nat),
        merge_all(m, syms) == merge_all(m, do_merge(syms, i)),
{
    lemma_best_upto_props(m, syms, (syms.len() - 1) as nat);
    match best_pair(m, syms) {
        None => {
            assert(false);
        },
        Some(j) => {
            assert(m[pair_key(syms, j as int)] <= r);
            assert(m[pair_key(syms, j as int)] >= r);
            if j < i {
                assert(m[pair_key(syms, j as int)] > r);
                assert(false);
            }
            if j > i {
                assert(m[pair_key(syms, i)] > m[pair_key(syms, j as int)]);
                assert(false);
            }
        },
    }
}

} // verus!
