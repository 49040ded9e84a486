//! The byte-pair merger: one piece in, token ids out.
//!
//! A piece starts as one symbol per byte. The adjacent pair with the
//! lowest merge rank is merged, leftmost first on ties, until no adjacent
//! pair has a rank; each remaining symbol's rank is its token id.
use crate::table::RankTable;
use crate::TokenId;
use vstd::prelude::*;
use vstd::pervasive::unreached;

verus! {

/// One symbol per byte of the piece.
pub open spec fn init_syms(p: Seq<u8>) -> Seq<Seq<u8>> {
    Seq::new(p.len(), |i: int| seq![p[i]])
}

/// The bytes of the adjacent pair at `i`.
pub open spec fn pair_key(syms: Seq<Seq<u8>>, i: int) -> Seq<u8> {
    syms[i] + syms[i + 1]
}

/// The mergeable pair with the strictly lowest rank among the first `n`
/// adjacent pairs, leftmost on ties.
pub open spec fn best_upto(m: Map<Seq<u8>, usize>, syms: Seq<Seq<u8>>, n: nat) -> Option<nat>
    decreases n,
{
    if n == 0 {
        None
    } else {
        let prev = best_upto(m, syms, (n - 1) as nat);
        if !m.contains_key(pair_key(syms, n - 1)) {
            prev
        } else {
            match prev {
                None => Some((n - 1) as nat),
                Some(j) => if m[pair_key(syms, j as int)] <= m[pair_key(syms, n - 1)] {
                    prev
                } else {
                    Some((n - 1) as nat)
                },
            }
        }
    }
}

/// The pair the next merge takes, if any.
pub open spec fn best_pair(m: Map<Seq<u8>, usize>, syms: Seq<Seq<u8>>) -> Option<nat> {
    if syms.len() >= 2 {
        best_upto(m, syms, (syms.len() - 1) as nat)
    } else {
        None
    }
}

/// What `best_upto` selects: a mergeable pair of minimal rank, with
/// every earlier mergeable pair of strictly greater rank.
pub proof fn lemma_best_upto_props(m: Map<Seq<u8>, usize>, syms: Seq<Seq<u8>>, n: nat)
    requires
        syms.len() >= 1,
        n <= syms.len() - 1,
    ensures
        match best_upto(m, syms, n) {
            Some(j) => {
                &&& j < n
                &&& m.contains_key(pair_key(syms, j as int))
                &&& forall|i: int|
                    0 <= i < n && m.contains_key(#[trigger] pair_key(syms, i)) ==> m[pair_key(
                        syms,
                        j as int,
                    )] <= m[pair_key(syms, i)]
                &&& forall|i: int|
                    0 <= i < j && m.contains_key(#[trigger] pair_key(syms, i)) ==> m[pair_key(
                        syms,
                        i,
                    )] > m[pair_key(syms, j as int)]
            },
            None => forall|i: int| 0 <= i < n ==> !m.contains_key(#[trigger] pair_key(syms, i)),
        },
    decreases n,
{
    if n > 0 {
        lemma_best_upto_props(m, syms, (n - 1) as nat);
    }
}

/// The symbol list after merging the pair at `j`.
pub open spec fn do_merge(syms: Seq<Seq<u8>>, j: int) -> Seq<Seq<u8>> {
    syms.take(j) + seq![syms[j] + syms[j + 1]] + syms.skip(j + 2)
}

/// The fixed point of repeated lowest-rank merging.
pub open spec fn merge_all(m: Map<Seq<u8>, usize>, syms: Seq<Seq<u8>>) -> Seq<Seq<u8>>
    decreases syms.len(),
    via merge_all_dec
{
    match best_pair(m, syms) {
        None => syms,
        Some(j) => merge_all(m, do_merge(syms, j as int)),
    }
}

#[via_fn]
proof fn merge_all_dec(m: Map<Seq<u8>, usize>, syms: Seq<Seq<u8>>) {
    match best_pair(m, syms) {
        None => (),
        Some(j) => {
            lemma_best_upto_props(m, syms, (syms.len() - 1) as nat);
            assert(do_merge(syms, j as int).len() < syms.len());
        },
    }
}

/// The token ids of one piece: merge to a fixed point, then map each
/// symbol to its rank.
pub open spec fn piece_tokens(m: Map<Seq<u8>, usize>, p: Seq<u8>) -> Seq<usize> {
    merge_all(m, init_syms(p)).map(|i: int, s: Seq<u8>| m[s])
}

/// Indexing a deep view of a byte-vector list is indexing the list.
pub proof fn lemma_deep_index(v: Vec<Vec<u8>>, k: int)
    requires
        0 <= k < v@.len(),
    ensures
        v.deep_view().len() == v@.len(),
        v.deep_view()[k] == v@[k]@,
{
    assert(v.deep_view()[k] == v@[k].deep_view());
    assert(v@[k].deep_view() =~= v@[k]@);
}

/// Concatenates two byte vectors.
pub fn concat_bytes(a: &Vec<u8>, b: &Vec<u8>) -> (r: Vec<u8>)
    ensures
        r@ == a@ + b@,
{
    let mut r: Vec<u8> = Vec::new();
    let mut i: usize = 0;
    while i < a.len()
        invariant
            i <= a.len(),
            r@ =~= a@.take(i as int),
        decreases a.len() - i,
    {
        r.push(a[i]);
        i = i + 1;
    }
    let mut j: usize = 0;
    while j < b.len()
        invariant
            j <= b.len(),
            r@ =~= a@ + b@.take(j as int),
        decreases b.len() - j,
    {
        r.push(b[j]);
        j = j + 1;
    }
    proof {
        assert(r@ =~= a@ + b@);
    }
    r
}

/// Merges one piece of bytes into token ids, greedily and by rank.
/// Never fails: by well-formedness every single byte has a base rank,
/// and every merged symbol was checked before it was made.
pub fn merge_piece(table: &RankTable, piece: &Vec<u8>) -> (r: Vec<TokenId>)
    requires
        table.wf(),
    ensures
        r@ == piece_tokens(table.ranks(), piece@),
{
    let ghost m = table.ranks();
    proof {
        assert(forall|b: u8| m.contains_key(#[trigger] seq![b])) by {
            assert forall|b: u8| m.contains_key(#[trigger] seq![b]) by {
                crate::table::lemma_assoc_contains(table.entries_seq(), seq![b]);
                assert(crate::table::has_byte(table.entries_seq(), b));
            }
        }
    }

    let mut syms: Vec<Vec<u8>> = Vec::new();
    let mut i: usize = 0;
    while i < piece.len()
        invariant
            i <= piece.len(),
            syms@.len() == i,
            forall|k: int| 0 <= k < i ==> (#[trigger] syms@[k])@ == seq![piece@[k]],
        decreases piece.len() - i,
    {
        let mut s: Vec<u8> = Vec::new();
        s.push(piece[i]);
        proof {
            assert(s@ =~= seq![piece@[i as int]]);
        }
        syms.push(s);
        i = i + 1;
    }
    proof {
        assert forall|k: int| 0 <= k < syms.deep_view().len() implies syms.deep_view()[k]
            == init_syms(piece@)[k] by {
            lemma_deep_index(syms, k);
        }
        assert(syms.deep_view() =~= init_syms(piece@));
    }

    let mut done = false;
    while !done
        invariant
            table.wf(),
            m == table.ranks(),
            forall|b: u8| m.contains_key(#[trigger] seq![b]),
            forall|k: int|
                0 <= k < syms.deep_view().len() ==> m.contains_key(#[trigger] syms.deep_view()[k]),
            merge_all(m, syms.deep_view()) == merge_all(m, init_syms(piece@)),
            done ==> best_pair(m, syms.deep_view()) is None,
        decreases syms.len(), (if done { 0int } else { 1int }),
    {
        let ghost dv = syms.deep_view();
        if syms.len() < 2 {
            done = true;
        } else {
            let mut has_best = false;
            let mut best_idx: usize = 0;
            let mut best_rank: usize = 0;
            let mut i: usize = 0;
            while i < syms.len() - 1
                invariant
                    table.wf(),
                    m == table.ranks(),
                    dv == syms.deep_view(),
                    dv.len() == syms.len(),
                    syms.len() >= 2,
                    i <= syms.len() - 1,
                    has_best ==> best_upto(m, dv, i as nat) == Some(best_idx as nat) && best_idx
                        < i && m.contains_key(pair_key(dv, best_idx as int)) && m[pair_key(
                        dv,
                        best_idx as int,
                    )] == best_rank,
                    !has_best ==> best_upto(m, dv, i as nat) is None,
                decreases syms.len() - 1 - i,
            {
                proof {
                    assert(dv[i as int] == syms@[i as int]@);
                    assert(dv[i + 1] == syms@[i + 1]@);
                }
                let key = concat_bytes(&syms[i], &syms[i + 1]);
                proof {
                    assert(key@ == pair_key(dv, i as int));
                }
                let rk = table.rank_of(&key);
                match rk {
                    Some(v) => {
                        if !has_best || v < best_rank {
                            has_best = true;
                            best_idx = i;
                            best_rank = v;
                        }
                    },
                    None => (),
                }
                i = i + 1;
            }
            if !has_best {
                done = true;
            } else {
                proof {
                    assert(best_pair(m, dv) == Some(best_idx as nat));
                    lemma_best_upto_props(m, dv, (dv.len() - 1) as nat);
                }
                let merged = concat_bytes(&syms[best_idx], &syms[best_idx + 1]);
                proof {
                    assert(dv[best_idx as int] == syms@[best_idx as int]@);
                    assert(dv[best_idx + 1] == syms@[best_idx + 1]@);
                    assert(merged@ == pair_key(dv, best_idx as int));
                }
                syms.set(best_idx, merged);
                syms.remove(best_idx + 1);
                proof {
                    let ndv = syms.deep_view();
                    let dm = do_merge(dv, best_idx as int);
                    assert(merged.deep_view() =~= merged@);
                    assert forall|k: int| 0 <= k < ndv.len() implies ndv[k] == dm[k] by {
                        lemma_deep_index(syms, k);
                    }
                    assert(ndv =~= dm);
                    assert(merge_all(m, dv) == merge_all(m, do_merge(dv, best_idx as int)));
                    assert(forall|k: int|
                        0 <= k < syms.deep_view().len() ==> m.contains_key(
                            #[trigger] syms.deep_view()[k],
                        ));
                }
            }
        }
    }

    proof {
        assert(merge_all(m, syms.deep_view()) == syms.deep_view());
    }
    let ghost fdv = syms.deep_view();
    let ghost toks = piece_tokens(m, piece@);
    proof {
        assert(toks == fdv.map(|i: int, s: Seq<u8>| m[s]));
    }
    let mut out: Vec<TokenId> = Vec::new();
    let mut i: usize = 0;
    while i < syms.len()
        invariant
            table.wf(),
            m == table.ranks(),
            fdv == syms.deep_view(),
            fdv.len() == syms.len(),
            toks == fdv.map(|i: int, s: Seq<u8>| m[s]),
            forall|k: int| 0 <= k < fdv.len() ==> m.contains_key(#[trigger] fdv[k]),
            i <= syms.len(),
            out@ =~= toks.take(i as int),
        decreases syms.len() - i,
    {
        proof {
            assert(fdv[i as int] == syms@[i as int]@);
        }
        let rk = table.rank_of(&syms[i]);
        match rk {
            Some(v) => {
                proof {
                    assert(toks[i as int] == m[fdv[i as int]]);
                }
                out.push(v);
            },
            None => {
                unreached()
            },
        }
        i = i + 1;
    }
    proof {
        assert(out@ =~= toks);
    }
    out
}

} // verus!
