//! The fixed special-token registry: five reserved literals, all
//! mapped to one shared token id.
use vstd::prelude::*;

verus! {

/// The id shared by every reserved literal.
pub const SPECIAL_TOKEN_ID: usize = 100257;

/// The five reserved literals with their id, in the order the
/// segmenter tries them.
pub open spec fn cl100k_specials() -> Seq<(Seq<char>, usize)> {
    seq![
        (seq!['<', '|', 'e', 'n', 'd', 'o', 'f', 't', 'e', 'x', 't', '|', '>'], 100257),
        (seq!['<', '|', 'f', 'i', 'm', '_', 'p', 'r', 'e', 'f', 'i', 'x', '|', '>'], 100257),
        (seq!['<', '|', 'f', 'i', 'm', '_', 'm', 'i', 'd', 'd', 'l', 'e', '|', '>'], 100257),
        (seq!['<', '|', 'f', 'i', 'm', '_', 's', 'u', 'f', 'f', 'i', 'x', '|', '>'], 100257),
        (seq!['<', '|', 'e', 'n', 'd', 'o', 'f', 'p', 'r', 'o', 'm', 'p', 't', '|', '>'], 100257),
    ]
}

fn lit_endoftext() -> (v: Vec<char>)
    ensures
        v@ == seq!['<', '|', 'e', 'n', 'd', 'o', 'f', 't', 'e', 'x', 't', '|', '>'],
{
    let mut v: Vec<char> = Vec::new();
    v.push('<');
    v.push('|');
    v.push('e');
    v.push('n');
    v.push('d');
    v.push('o');
    v.push('f');
    v.push('t');
    v.push('e');
    v.push('x');
    v.push('t');
    v.push('|');
    v.push('>');
    proof {
        assert(v@ =~= seq!['<', '|', 'e', 'n', 'd', 'o', 'f', 't', 'e', 'x', 't', '|', '>']);
    }
    v
}

fn lit_fim_prefix() -> (v: Vec<char>)
    ensures
        v@ == seq!['<', '|', 'f', 'i', 'm', '_', 'p', 'r', 'e', 'f', 'i', 'x', '|', '>'],
{
    let mut v: Vec<char> = Vec::new();
    v.push('<');
    v.push('|');
    v.push('f');
    v.push('i');
    v.push('m');
    v.push('_');
    v.push('p');
    v.push('r');
    v.push('e');
    v.push('f');
    v.push('i');
    v.push('x');
    v.push('|');
    v.push('>');
    proof {
        assert(v@ =~= seq!['<', '|', 'f', 'i', 'm', '_', 'p', 'r', 'e', 'f', 'i', 'x', '|', '>']);
    }
    v
}

fn lit_fim_middle() -> (v: Vec<char>)
    ensures
        v@ == seq!['<', '|', 'f', 'i', 'm', '_', 'm', 'i', 'd', 'd', 'l', 'e', '|', '>'],
{
    let mut v: Vec<char> = Vec::new();
    v.push('<');
    v.push('|');
    v.push('f');
    v.push('i');
    v.push('m');
    v.push('_');
    v.push('m');
    v.push('i');
    v.push('d');
    v.push('d');
    v.push('l');
    v.push('e');
    v.push('|');
    v.push('>');
    proof {
        assert(v@ =~= seq!['<', '|', 'f', 'i', 'm', '_', 'm', 'i', 'd', 'd', 'l', 'e', '|', '>']);
    }
    v
}

fn lit_fim_suffix() -> (v: Vec<char>)
    ensures
        v@ == seq!['<', '|', 'f', 'i', 'm', '_', 's', 'u', 'f', 'f', 'i', 'x', '|', '>'],
{
    let mut v: Vec<char> = Vec::new();
    v.push('<');
    v.push('|');
    v.push('f');
    v.push('i');
    v.push('m');
    v.push('_');
    v.push('s');
    v.push('u');
    v.push('f');
    v.push('f');
    v.push('i');
    v.push('x');
    v.push('|');
    v.push('>');
    proof {
        assert(v@ =~= seq!['<', '|', 'f', 'i', 'm', '_', 's', 'u', 'f', 'f', 'i', 'x', '|', '>']);
    }
    v
}

fn lit_endofprompt() -> (v: Vec<char>)
    ensures
        v@ == seq!['<', '|', 'e', 'n', 'd', 'o', 'f', 'p', 'r', 'o', 'm', 'p', 't', '|', '>'],
{
    let mut v: Vec<char> = Vec::new();
    v.push('<');
    v.push('|');
    v.push('e');
    v.push('n');
    v.push('d');
    v.push('o');
    v.push('f');
    v.push('p');
    v.push('r');
    v.push('o');
    v.push('m');
    v.push('p');
    v.push('t');
    v.push('|');
    v.push('>');
    proof {
        assert(v@ =~= seq!['<', '|', 'e', 'n', 'd', 'o', 'f', 'p', 'r', 'o', 'm', 'p', 't', '|', '>']);
    }
    v
}

/// Builds the registry for `RankTable::build`.
pub fn cl100k_special_tokens() -> (r: Vec<(Vec<char>, usize)>)
    ensures
        r.deep_view() == cl100k_specials(),
{
    let mut r: Vec<(Vec<char>, usize)> = Vec::new();
    r.push((lit_endoftext(), SPECIAL_TOKEN_ID));
    r.push((lit_fim_prefix(), SPECIAL_TOKEN_ID));
    r.push((lit_fim_middle(), SPECIAL_TOKEN_ID));
    r.push((lit_fim_suffix(), SPECIAL_TOKEN_ID));
    r.push((lit_endofprompt(), SPECIAL_TOKEN_ID));
    proof {
        assert forall|k: int| 0 <= k < r.deep_view().len() implies r.deep_view()[k]
            == cl100k_specials()[k] by {
            assert(r.deep_view()[k] == (r@[k].0@, r@[k].1));
        }
        assert(r.deep_view() =~= cl100k_specials());
    }
    r
}

} // verus!
