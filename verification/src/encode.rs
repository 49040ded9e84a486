//! The segmenter and the encoder.
//!
//! The segmenter walks the text once: at each position a special-token
//! literal known to the table takes priority, whatever the allow-set
//! says; otherwise the grammar supplies the next ordinary piece. The
//! encoder maps special pieces to their ids — failing on a special the
//! caller did not allow — and ordinary pieces through the merger, in
//! input order.
use crate::bpe::merge_piece;
use crate::bpe::piece_tokens;
use crate::grammar::grammar_len;
use crate::grammar::lemma_grammar_len_bounds;
use crate::grammar::next_grammar_len;
use crate::table::RankTable;
use crate::TokenId;
use crate::table::chars_eq;
use crate::table::first_val;
use crate::utf8::seq_utf8;
use crate::utf8::utf8_bytes;
use vstd::prelude::*;

verus! {

/// Encoding failure: a special-token literal stood in the text but not
/// in the caller's allow-set. Holds the literal.
#[derive(Clone, Debug, PartialEq, Eq)]
pub enum TokenError {
    DisallowedSpecialToken(Vec<char>),
}

/// The first special token, in table order, whose literal is a nonempty
/// prefix of `t`, scanning the table from index `i`.
pub open spec fn special_at(sp: Seq<(Seq<char>, usize)>, t: Seq<char>, i: nat) -> Option<nat>
    decreases sp.len() - i,
{
    if i >= sp.len() {
        None
    } else if 1 <= sp[i as int].0.len() <= t.len() && t.take(sp[i as int].0.len() as int)
        == sp[i as int].0 {
        Some(i)
    } else {
        special_at(sp, t, (i + 1) as nat)
    }
}

pub proof fn lemma_special_at_some(sp: Seq<(Seq<char>, usize)>, t: Seq<char>, i: nat)
    requires
        special_at(sp, t, i) is Some,
    ensures
        ({
            let k = special_at(sp, t, i).unwrap();
            &&& i <= k < sp.len()
            &&& 1 <= sp[k as int].0.len() <= t.len()
            &&& t.take(sp[k as int].0.len() as int) == sp[k as int].0
        }),
    decreases sp.len() - i,
{
    if i >= sp.len() {
    } else if 1 <= sp[i as int].0.len() <= t.len() && t.take(sp[i as int].0.len() as int)
        == sp[i as int].0 {
    } else {
        lemma_special_at_some(sp, t, (i + 1) as nat);
    }
}

/// The pieces of `t`: each is its characters paired with whether it is a
/// special piece.
pub open spec fn seg(t: Seq<char>, sp: Seq<(Seq<char>, usize)>) -> Seq<(Seq<char>, bool)>
    decreases t.len(),
    via seg_dec
{
    if t.len() == 0 {
        Seq::empty()
    } else {
        match special_at(sp, t, 0) {
            Some(k) => seq![(sp[k as int].0, true)] + seg(t.skip(sp[k as int].0.len() as int), sp),
            None => seq![(t.take(next_grammar_len(t) as int), false)] + seg(
                t.skip(next_grammar_len(t) as int),
                sp,
            ),
        }
    }
}

#[via_fn]
proof fn seg_dec(t: Seq<char>, sp: Seq<(Seq<char>, usize)>) {
    if t.len() > 0 {
        match special_at(sp, t, 0) {
            Some(k) => lemma_special_at_some(sp, t, 0),
            None => lemma_grammar_len_bounds(t),
        }
    }
}

/// The token ids of a piece sequence, or the first literal of a special
/// piece outside the allow-set.
pub open spec fn encode_pieces(
    m: Map<Seq<u8>, usize>,
    sp: Seq<(Seq<char>, usize)>,
    allowed: Set<Seq<char>>,
    pieces: Seq<(Seq<char>, bool)>,
) -> Result<Seq<usize>, Seq<char>>
    decreases pieces.len(),
{
    if pieces.len() == 0 {
        Ok(Seq::empty())
    } else {
        let cs = pieces[0].0;
        let isp = pieces[0].1;
        if isp && !allowed.contains(cs) {
            Err(cs)
        } else {
            match encode_pieces(m, sp, allowed, pieces.skip(1)) {
                Ok(rest) => Ok(
                    (if isp {
                        seq![first_val(sp, cs).unwrap()]
                    } else {
                        piece_tokens(m, seq_utf8(cs))
                    }) + rest,
                ),
                Err(e) => Err(e),
            }
        }
    }
}

/// What encoding `t` returns: the ids of its pieces in input order, or
/// the first disallowed special literal.
pub open spec fn spec_encode(
    t: Seq<char>,
    m: Map<Seq<u8>, usize>,
    sp: Seq<(Seq<char>, usize)>,
    allowed: Set<Seq<char>>,
) -> Result<Seq<usize>, Seq<char>> {
    encode_pieces(m, sp, allowed, seg(t, sp))
}

/// Whether `lit` is a prefix of `text` at `pos`.
fn is_prefix_at(lit: &Vec<char>, text: &Vec<char>, pos: usize) -> (r: bool)
    requires
        pos <= text.len(),
    ensures
        r == (lit@.len() <= text@.len() - pos && text@.skip(pos as int).take(lit@.len() as int)
            == lit@),
{
    if lit.len() > text.len() - pos {
        return false;
    }
    let mut k: usize = 0;
    while k < lit.len()
        invariant
            k <= lit.len(),
            pos + lit.len() <= text.len(),
            forall|x: int| 0 <= x < k ==> lit@[x] == text@[pos + x],
        decreases lit.len() - k,
    {
        if text[pos + k] != lit[k] {
            proof {
                assert(text@.skip(pos as int).take(lit@.len() as int)[k as int] == text@[pos + k]);
            }
            return false;
        }
        k = k + 1;
    }
    proof {
        assert(text@.skip(pos as int).take(lit@.len() as int) =~= lit@);
    }
    true
}

/// Finds the special token whose literal is a prefix of `text` at `pos`,
/// returning its literal length and id.
fn find_special(specials: &Vec<(Vec<char>, usize)>, text: &Vec<char>, pos: usize) -> (r: Option<
    (usize, usize),
>)
    requires
        pos <= text.len(),
    ensures
        ({
            let t = text@.skip(pos as int);
            let s = special_at(specials.deep_view(), t, 0);
            match r {
                Some((len, id)) => s is Some && specials.deep_view()[s.unwrap() as int].0.len()
                    == len && specials.deep_view()[s.unwrap() as int].1 == id,
                None => s is None,
            }
        }),
{
    let ghost dv = specials.deep_view();
    let ghost t = text@.skip(pos as int);
    let mut i: usize = 0;
    while i < specials.len()
        invariant
            pos <= text.len(),
            i <= specials.len(),
            dv == specials.deep_view(),
            t == text@.skip(pos as int),
            dv.len() == specials.len(),
            special_at(dv, t, 0) == special_at(dv, t, i as nat),
        decreases specials.len() - i,
    {
        proof {
            assert(dv[i as int] == (specials@[i as int].0@, specials@[i as int].1));
        }
        let litlen = specials[i].0.len();
        if litlen >= 1 && is_prefix_at(&specials[i].0, text, pos) {
            proof {
                assert(special_at(dv, t, i as nat) == Some(i as nat));
            }
            return Some((litlen, specials[i].1));
        }
        proof {
            assert(special_at(dv, t, i as nat) == special_at(dv, t, (i + 1) as nat));
        }
        i = i + 1;
    }
    None
}

/// Whether `lit` is one of the allowed special literals.
fn in_allowed(allowed: &Vec<Vec<char>>, lit: &Vec<char>) -> (r: bool)
    ensures
        r == allowed.deep_view().to_set().contains(lit@),
{
    let ghost dv = allowed.deep_view();
    let mut i: usize = 0;
    while i < allowed.len()
        invariant
            i <= allowed.len(),
            dv == allowed.deep_view(),
            dv.len() == allowed.len(),
            forall|x: int| 0 <= x < i ==> dv[x] != lit@,
        decreases allowed.len() - i,
    {
        proof {
            assert(dv[i as int] == allowed@[i as int].deep_view());
            assert(allowed@[i as int].deep_view() =~= allowed@[i as int]@);
        }
        if chars_eq(&allowed[i], lit) {
            proof {
                assert(dv.contains(lit@));
            }
            return true;
        }
        i = i + 1;
    }
    proof {
        assert(!dv.contains(lit@));
    }
    false
}

/// Copies `text[start..end]` into a fresh vector.
fn chars_range(text: &Vec<char>, start: usize, end: usize) -> (r: Vec<char>)
    requires
        start <= end <= text.len(),
    ensures
        r@ == text@.subrange(start as int, end as int),
{
    let mut r: Vec<char> = Vec::new();
    let mut i: usize = start;
    while i < end
        invariant
            start <= i <= end <= text.len(),
            r@ =~= text@.subrange(start as int, i as int),
        decreases end - i,
    {
        r.push(text[i]);
        i = i + 1;
    }
    proof {
        assert(r@ =~= text@.subrange(start as int, end as int));
    }
    r
}

/// Appends `add` to `out`.
fn append_ids(out: &mut Vec<usize>, add: &Vec<usize>)
    ensures
        final(out)@ == old(out)@ + add@,
{
    let mut i: usize = 0;
    while i < add.len()
        invariant
            i <= add.len(),
            out@ =~= old(out)@ + add@.take(i as int),
        decreases add.len() - i,
    {
        out.push(add[i]);
        i = i + 1;
    }
    proof {
        assert(out@ =~= old(out)@ + add@);
    }
}

/// Encodes `text` against `table`: the ids of every piece in input
/// order. Fails exactly when a special literal occurs outside `allowed`,
/// returning the first such literal.
pub fn encode(table: &RankTable, text: &Vec<char>, allowed: &Vec<Vec<char>>) -> (r: Result<
    Vec<TokenId>,
    TokenError,
>)
    requires
        table.wf(),
    ensures
        ({
            let e = spec_encode(
                text@,
                table.ranks(),
                table.specials_seq(),
                allowed.deep_view().to_set(),
            );
            match r {
                Ok(v) => e == Ok::<Seq<usize>, Seq<char>>(v@),
                Err(TokenError::DisallowedSpecialToken(lit)) => e == Err::<Seq<usize>, Seq<char>>(
                    lit@,
                ),
            }
        }),
{
    let ghost m = table.ranks();
    let ghost sp = table.specials_seq();
    let ghost aset = allowed.deep_view().to_set();
    let mut out: Vec<usize> = Vec::new();
    let mut pos: usize = 0;
    proof {
        assert(text@.skip(0) =~= text@);
        if encode_pieces(m, sp, aset, seg(text@, sp)) is Ok {
            let rest = encode_pieces(m, sp, aset, seg(text@, sp))->Ok_0;
            assert(out@ + rest =~= rest);
        }
    }
    while pos < text.len()
        invariant
            table.wf(),
            m == table.ranks(),
            sp == table.specials_seq(),
            aset == allowed.deep_view().to_set(),
            pos <= text.len(),
            spec_encode(text@, m, sp, aset) == (match encode_pieces(
                m,
                sp,
                aset,
                seg(text@.skip(pos as int), sp),
            ) {
                Ok(rest) => Ok::<Seq<usize>, Seq<char>>(out@ + rest),
                Err(e) => Err(e),
            }),
        decreases text.len() - pos,
    {
        let ghost t = text@.skip(pos as int);
        let ghost out0 = out@;
        let found = find_special(table.specials(), text, pos);
        match found {
            Some((len, id)) => {
                proof {
                    lemma_special_at_some(sp, t, 0);
                    assert(1 <= len <= text.len() - pos);
                }
                let lit = chars_range(text, pos, pos + len);
                let ghost k = special_at(sp, t, 0).unwrap();
                let ghost tailseg = seg(t.skip(len as int), sp);
                proof {
                    assert(t.take(len as int) =~= text@.subrange(pos as int, pos + len));
                    assert(lit@ == sp[k as int].0);
                    assert(seg(t, sp) == seq![(sp[k as int].0, true)] + tailseg);
                    assert(seg(t, sp)[0] == (sp[k as int].0, true));
                    assert(seg(t, sp).skip(1) =~= tailseg);
                    assert(t.skip(len as int) =~= text@.skip(pos + len));
                }
                if !in_allowed(allowed, &lit) {
                    proof {
                        assert(encode_pieces(m, sp, aset, seg(t, sp)) == Err::<
                            Seq<usize>,
                            Seq<char>,
                        >(lit@));
                    }
                    return Err(TokenError::DisallowedSpecialToken(lit));
                }
                proof {
                    crate::table::lemma_first_val_some_of_index(sp, k as int);
                    assert(first_val(sp, lit@) == Some(sp[k as int].1));
                    assert(encode_pieces(m, sp, aset, seg(t, sp)) == (match encode_pieces(
                        m,
                        sp,
                        aset,
                        tailseg,
                    ) {
                        Ok(rest) => Ok::<Seq<usize>, Seq<char>>(seq![id] + rest),
                        Err(e) => Err(e),
                    }));
                }
                out.push(id);
                pos = pos + len;
                proof {
                    if encode_pieces(m, sp, aset, tailseg) is Ok {
                        let rest = encode_pieces(m, sp, aset, tailseg)->Ok_0;
                        assert(out@ =~= out0 + seq![id]);
                        assert(out0 + (seq![id] + rest) =~= out@ + rest);
                    }
                }
            },
            None => {
                let len = grammar_len(text, pos);
                let ghost tailseg = seg(t.skip(len as int), sp);
                proof {
                    assert(seg(t, sp) == seq![(t.take(len as int), false)] + tailseg);
                    assert(seg(t, sp)[0] == (t.take(len as int), false));
                    assert(seg(t, sp).skip(1) =~= tailseg);
                    assert(t.take(len as int) =~= text@.subrange(pos as int, pos + len));
                    assert(t.skip(len as int) =~= text@.skip(pos + len));
                }
                let bytes = utf8_bytes(text, pos, pos + len);
                let toks = merge_piece(table, &bytes);
                proof {
                    assert(toks@ == piece_tokens(m, seq_utf8(t.take(len as int))));
                    assert(encode_pieces(m, sp, aset, seg(t, sp)) == (match encode_pieces(
                        m,
                        sp,
                        aset,
                        tailseg,
                    ) {
                        Ok(rest) => Ok::<Seq<usize>, Seq<char>>(toks@ + rest),
                        Err(e) => Err(e),
                    }));
                }
                append_ids(&mut out, &toks);
                pos = pos + len;
                proof {
                    if encode_pieces(m, sp, aset, tailseg) is Ok {
                        let rest = encode_pieces(m, sp, aset, tailseg)->Ok_0;
                        assert(out@ == out0 + toks@);
                        assert(out0 + (toks@ + rest) =~= out@ + rest);
                    }
                }
            },
        }
    }
    proof {
        assert(text@.skip(pos as int).len() == 0);
        assert(seg(text@.skip(pos as int), sp) =~= Seq::<(Seq<char>, bool)>::empty());
        assert(out@ + Seq::<usize>::empty() =~= out@);
    }
    Ok(out)
}

/// The number of tokens `text` encodes to. Fails exactly as `encode`
/// does.
pub fn count(table: &RankTable, text: &Vec<char>, allowed: &Vec<Vec<char>>) -> (r: Result<
    usize,
    TokenError,
>)
    requires
        table.wf(),
    ensures
        ({
            let e = spec_encode(
                text@,
                table.ranks(),
                table.specials_seq(),
                allowed.deep_view().to_set(),
            );
            match r {
                Ok(n) => e matches Ok(ids) && n == ids.len(),
                Err(TokenError::DisallowedSpecialToken(lit)) => e == Err::<Seq<usize>, Seq<char>>(
                    lit@,
                ),
            }
        }),
{
    match encode(table, text, allowed) {
        Ok(v) => Ok(v.len()),
        Err(e) => Err(e),
    }
}

} // verus!
