//! Parsing the rank-table source format: one entry per line, a
//! base64-encoded byte sequence, one space, a decimal rank. Fetching the
//! data is a collaborator's business; this module only turns the bytes
//! of such a listing into raw entries for `RankTable::build`.
use crate::table::TableError;
use base64::Engine as _;
use vstd::prelude::*;

verus! {

/// What base64 decoding returns on a given input, a function of the
/// input alone; `None` for input that is not valid base64.
pub uninterp spec fn b64_decoded(s: Seq<u8>) -> Option<Seq<u8>>;

/// Relies on base64's `Engine::decode` with the standard alphabet: the
/// decoded bytes depend on the input alone, and invalid input is
/// rejected.
#[verifier::external_body]
fn b64_decode(s: &Vec<u8>) -> (r: Option<Vec<u8>>)
    ensures
        b64_decoded(s@) == (match r {
            Some(v) => Some(v@),
            None => None::<Seq<u8>>,
        }),
{
    match base64::engine::general_purpose::STANDARD.decode(s.as_slice()) {
        Ok(v) => Some(v),
        Err(_) => None,
    }
}

/// The first occurrence of `b` in `d` at or after `i`.
pub open spec fn find_byte(d: Seq<u8>, b: u8, i: nat) -> Option<nat>
    decreases d.len() - i,
{
    if i >= d.len() {
        None
    } else if d[i as int] == b {
        Some(i)
    } else {
        find_byte(d, b, (i + 1) as nat)
    }
}

pub proof fn lemma_find_byte_some(d: Seq<u8>, b: u8, i: nat)
    requires
        find_byte(d, b, i) is Some,
    ensures
        ({
            let k = find_byte(d, b, i).unwrap();
            i <= k < d.len() && d[k as int] == b
        }),
    decreases d.len() - i,
{
    if i >= d.len() {
    } else if d[i as int] == b {
    } else {
        lemma_find_byte_some(d, b, (i + 1) as nat);
    }
}

/// A line without its trailing carriage return, if it has one.
pub open spec fn chop_cr(l: Seq<u8>) -> Seq<u8> {
    if l.len() > 0 && l.last() == 0x0D {
        l.drop_last()
    } else {
        l
    }
}

/// The lines of `d`: split at each line feed, each line losing a
/// trailing carriage return, with no empty line after a final line feed.
pub open spec fn split_lines(d: Seq<u8>) -> Seq<Seq<u8>>
    decreases d.len(),
    via split_lines_dec
{
    if d.len() == 0 {
        Seq::empty()
    } else {
        match find_byte(d, 0x0A, 0) {
            None => seq![d],
            Some(i) => seq![chop_cr(d.take(i as int))] + split_lines(d.skip(i as int + 1)),
        }
    }
}

#[via_fn]
proof fn split_lines_dec(d: Seq<u8>) {
    if d.len() > 0 {
        match find_byte(d, 0x0A, 0) {
            None => (),
            Some(i) => lemma_find_byte_some(d, 0x0A, 0),
        }
    }
}

pub open spec fn is_digit_byte(b: u8) -> bool {
    0x30 <= b <= 0x39
}

pub open spec fn all_digits(s: Seq<u8>) -> bool {
    forall|i: int| 0 <= i < s.len() ==> is_digit_byte(#[trigger] s[i])
}

/// The value of a digit string, most significant digit first.
pub open spec fn dec_val(s: Seq<u8>) -> nat
    decreases s.len(),
{
    if s.len() == 0 {
        0
    } else {
        (dec_val(s.drop_last()) * 10 + (s.last() - 0x30)) as nat
    }
}

/// A decimal rank: one or more digits whose value fits the machine.
pub open spec fn parse_rank(s: Seq<u8>) -> Option<usize> {
    if s.len() >= 1 && all_digits(s) && dec_val(s) <= usize::MAX {
        Some(dec_val(s) as usize)
    } else {
        None
    }
}

/// A longer digit prefix never has a smaller value.
pub proof fn lemma_dec_val_mono(s: Seq<u8>, k: int)
    requires
        0 <= k <= s.len(),
        all_digits(s),
    ensures
        dec_val(s) >= dec_val(s.take(k)),
    decreases s.len() - k,
{
    if k == s.len() {
        assert(s.take(k) =~= s);
    } else {
        lemma_dec_val_mono(s, k + 1);
        assert(s.take(k + 1).drop_last() =~= s.take(k));
        assert(s.take(k + 1).last() == s[k]);
        assert(is_digit_byte(s[k]));
        assert(dec_val(s.take(k + 1)) == (dec_val(s.take(k)) * 10 + (s[k] - 0x30)) as nat);
        assert(dec_val(s.take(k)) * 10 + (s[k] - 0x30) >= dec_val(s.take(k)));
    }
}

/// One line's entry: base64 bytes before the first space, the decimal
/// rank between the first and second spaces; `None` when either part is
/// missing or malformed.
pub open spec fn line_entry(l: Seq<u8>) -> Option<(Seq<u8>, usize)> {
    match find_byte(l, 0x20, 0) {
        None => None,
        Some(i) => {
            let tok = l.take(i as int);
            let rest = l.skip(i as int + 1);
            let p2 = match find_byte(rest, 0x20, 0) {
                None => rest,
                Some(j) => rest.take(j as int),
            };
            match parse_rank(p2) {
                None => None,
                Some(rk) => match b64_decoded(tok) {
                    None => None,
                    Some(bs) => Some((bs, rk)),
                },
            }
        },
    }
}

/// The entries of a sequence of lines, `None` as soon as one is bad.
pub open spec fn lines_entries(ls: Seq<Seq<u8>>) -> Option<Seq<(Seq<u8>, usize)>>
    decreases ls.len(),
{
    if ls.len() == 0 {
        Some(Seq::empty())
    } else {
        match line_entry(ls[0]) {
            None => None,
            Some(e) => match lines_entries(ls.skip(1)) {
                None => None,
                Some(r) => Some(seq![e] + r),
            },
        }
    }
}

/// What the whole listing parses to.
pub open spec fn parse_table_data(d: Seq<u8>) -> Option<Seq<(Seq<u8>, usize)>> {
    lines_entries(split_lines(d))
}

/// Copies `data[start..end]` into a fresh vector.
fn byte_range(data: &Vec<u8>, start: usize, end: usize) -> (r: Vec<u8>)
    requires
        start <= end <= data.len(),
    ensures
        r@ == data@.subrange(start as int, end as int),
{
    let mut r: Vec<u8> = Vec::new();
    let mut i: usize = start;
    while i < end
        invariant
            start <= i <= end <= data.len(),
            r@ =~= data@.subrange(start as int, i as int),
        decreases end - i,
    {
        r.push(data[i]);
        i = i + 1;
    }
    proof {
        assert(r@ =~= data@.subrange(start as int, end as int));
    }
    r
}

/// Finds `b` in `data[from..]`, reported against the suffix at `base`.
fn find_byte_from(data: &Vec<u8>, base: usize, from: usize, b: u8) -> (r: Option<usize>)
    requires
        base <= from <= data.len(),
    ensures
        ({
            let t = data@.skip(base as int);
            match r {
                Some(k) => from <= k < data.len() && find_byte(t, b, (from - base) as nat) == Some(
                    (k - base) as nat,
                ),
                None => find_byte(t, b, (from - base) as nat) is None,
            }
        }),
{
    let ghost t = data@.skip(base as int);
    let mut i: usize = from;
    while i < data.len()
        invariant
            base <= from <= i <= data.len(),
            t == data@.skip(base as int),
            find_byte(t, b, (from - base) as nat) == find_byte(t, b, (i - base) as nat),
        decreases data.len() - i,
    {
        proof {
            assert(t[i - base] == data@[i as int]);
        }
        if data[i] == b {
            return Some(i);
        }
        i = i + 1;
    }
    None
}

/// Parses one line already cut out of the listing.
fn parse_line(line: &Vec<u8>) -> (r: Result<(Vec<u8>, usize), TableError>)
    ensures
        match r {
            Ok(e) => line_entry(line@) == Some((e.0@, e.1)),
            Err(_) => line_entry(line@) is None,
        },
{
    let found1 = find_byte_from(line, 0, 0, 0x20);
    proof {
        assert(line@.skip(0) =~= line@);
    }
    if found1.is_none() {
        return Err(TableError::InvalidTable);
    }
    let sp1 = found1.unwrap();
    let ghost rest = line@.skip(sp1 + 1);
    let sp2 = find_byte_from(line, sp1 + 1, sp1 + 1, 0x20);
    let end2 = match sp2 {
        Some(j) => j,
        None => line.len(),
    };
    let ghost p2 = line@.subrange(sp1 + 1, end2 as int);
    proof {
        assert(find_byte(line@, 0x20, 0) == Some(sp1 as nat));
        match sp2 {
            Some(j) => {
                assert(find_byte(rest, 0x20, 0) == Some((end2 - (sp1 + 1)) as nat));
                assert(rest.take(end2 - (sp1 + 1)) =~= p2);
            },
            None => {
                assert(find_byte(rest, 0x20, 0) is None);
                assert(rest =~= p2);
            },
        }
    }

    // the decimal rank
    if end2 == sp1 + 1 {
        return Err(TableError::InvalidTable);
    }
    let mut acc: usize = 0;
    let mut k: usize = sp1 + 1;
    while k < end2
        invariant
            sp1 + 1 <= k <= end2 <= line.len(),
            p2 == line@.subrange(sp1 + 1, end2 as int),
            rest == line@.skip(sp1 + 1),
            find_byte(line@, 0x20, 0) == Some(sp1 as nat),
            p2 == (match find_byte(rest, 0x20, 0) {
                None => rest,
                Some(jj) => rest.take(jj as int),
            }),
            all_digits(p2.take(k - (sp1 + 1))),
            acc == dec_val(p2.take(k - (sp1 + 1))),
        decreases end2 - k,
    {
        let d = line[k];
        proof {
            assert(p2[k - (sp1 + 1)] == line@[k as int]);
        }
        if d < 0x30 || d > 0x39 {
            proof {
                assert(!all_digits(p2));
            }
            return Err(TableError::InvalidTable);
        }
        let acc10 = match acc.checked_mul(10) {
            Some(x) => x,
            None => {
                proof {
                    lemma_overflow(p2, (k - (sp1 + 1)) as int, acc, d);
                    assert(parse_rank(p2) is None);
                    assert(line_entry(line@) is None);
                }
                return Err(TableError::InvalidTable);
            },
        };
        let acc2 = match acc10.checked_add((d - 0x30) as usize) {
            Some(x) => x,
            None => {
                proof {
                    lemma_overflow(p2, (k - (sp1 + 1)) as int, acc, d);
                    assert(parse_rank(p2) is None);
                    assert(line_entry(line@) is None);
                }
                return Err(TableError::InvalidTable);
            },
        };
        proof {
            assert(p2.take(k - (sp1 + 1) + 1).drop_last() =~= p2.take(k - (sp1 + 1)));
            assert(p2.take(k - (sp1 + 1) + 1).last() == p2[k - (sp1 + 1)]);
            assert(dec_val(p2.take(k - (sp1 + 1) + 1)) == (acc * 10 + (d - 0x30)) as nat);
        }
        acc = acc2;
        k = k + 1;
    }
    proof {
        assert(p2.take(end2 - (sp1 + 1)) =~= p2);
    }

    // the base64 token
    let tok = byte_range(line, 0, sp1);
    proof {
        assert(tok@ =~= line@.take(sp1 as int));
    }
    let decoded = match b64_decode(&tok) {
        Some(v) => v,
        None => {
            return Err(TableError::InvalidTable);
        },
    };
    Ok((decoded, acc))
}

/// A digit that overflows the accumulator pushes the whole rank past
/// the machine limit.
proof fn lemma_overflow(p2: Seq<u8>, k: int, acc: usize, d: u8)
    requires
        0 <= k < p2.len(),
        p2[k] == d,
        is_digit_byte(d),
        all_digits(p2.take(k)),
        acc == dec_val(p2.take(k)),
        acc * 10 + (d - 0x30) > usize::MAX,
    ensures
        parse_rank(p2) is None,
{
    if all_digits(p2) {
        assert(p2.take(k + 1).drop_last() =~= p2.take(k));
        assert(p2.take(k + 1).last() == p2[k]);
        assert(dec_val(p2.take(k + 1)) == (acc * 10 + (d - 0x30)) as nat);
        assert(dec_val(p2.take(k + 1)) > usize::MAX);
        lemma_dec_val_mono(p2, k + 1);
    }
}

/// Parses a whole rank-table listing into raw entries, as
/// `RankTable::build` wants them. Fails exactly when some line is not
/// a base64 token, one space, and a decimal rank.
pub fn mergeable_ranks(data: &Vec<u8>) -> (r: Result<Vec<(Vec<u8>, usize)>, TableError>)
    ensures
        match r {
            Ok(v) => parse_table_data(data@) == Some(v.deep_view()),
            Err(_) => parse_table_data(data@) is None,
        },
{
    let mut out: Vec<(Vec<u8>, usize)> = Vec::new();
    let mut pos: usize = 0;
    proof {
        assert(data@.skip(0) =~= data@);
        if lines_entries(split_lines(data@)) is Some {
            let rest = lines_entries(split_lines(data@))->Some_0;
            assert(out.deep_view() + rest =~= rest);
        }
    }
    while pos < data.len()
        invariant
            pos <= data.len(),
            parse_table_data(data@) == (match lines_entries(split_lines(data@.skip(pos as int))) {
                None => None::<Seq<(Seq<u8>, usize)>>,
                Some(rest) => Some(out.deep_view() + rest),
            }),
        decreases data.len() - pos,
    {
        let ghost t = data@.skip(pos as int);
        let ghost out0 = out.deep_view();
        let nl = find_byte_from(data, pos, pos, 0x0A);
        let (line_end, next_pos) = match nl {
            Some(i) => (i, i + 1),
            None => (data.len(), data.len()),
        };
        let ghost linespec = match find_byte(t, 0x0A, 0) {
            None => t,
            Some(i) => chop_cr(t.take(i as int)),
        };
        let ghost tailines = split_lines(data@.skip(next_pos as int));
        let mut cut = line_end;
        match nl {
            Some(i) => {
                proof {
                    assert(t.take(i - pos) =~= data@.subrange(pos as int, i as int));
                }
                if line_end > pos && data[line_end - 1] == 0x0D {
                    cut = line_end - 1;
                    proof {
                        assert(t.take(line_end - pos).last() == data@[line_end - 1]);
                        assert(linespec =~= data@.subrange(pos as int, cut as int));
                    }
                } else {
                    proof {
                        assert(linespec =~= data@.subrange(pos as int, cut as int));
                    }
                }
                proof {
                    assert(t.skip(i - pos + 1) =~= data@.skip(next_pos as int));
                    assert(split_lines(t) == seq![linespec] + tailines);
                }
            },
            None => {
                proof {
                    assert(linespec =~= data@.subrange(pos as int, cut as int));
                    assert(data@.skip(next_pos as int).len() == 0);
                    assert(tailines =~= Seq::<Seq<u8>>::empty());
                    assert(split_lines(t) == seq![t]);
                    assert(split_lines(t) =~= seq![linespec] + tailines);
                }
            },
        }
        proof {
            assert(split_lines(t)[0] == linespec);
            assert(split_lines(t).skip(1) =~= tailines);
        }
        let line = byte_range(data, pos, cut);
        let entry = match parse_line(&line) {
            Ok(e) => e,
            Err(e) => {
                proof {
                    assert(lines_entries(split_lines(t)) is None);
                }
                return Err(e);
            },
        };
        let ghost espec = (entry.0@, entry.1);
        out.push(entry);
        pos = next_pos;
        proof {
            assert(out.deep_view()[out0.len() as int] == espec);
            assert forall|x: int| 0 <= x < out0.len() implies out.deep_view()[x] == out0[x] by {
                assert(out.deep_view()[x] == out@[x].deep_view());
                assert(out0[x] == out@[x].deep_view());
            }
            assert(out.deep_view() =~= out0.push(espec));
            if lines_entries(tailines) is Some {
                let rest = lines_entries(tailines)->Some_0;
                assert(lines_entries(split_lines(t)) == Some(seq![espec] + rest));
                assert(out0 + (seq![espec] + rest) =~= out.deep_view() + rest);
            }
        }
    }
    proof {
        assert(data@.skip(pos as int).len() == 0);
        assert(split_lines(data@.skip(pos as int)) =~= Seq::<Seq<u8>>::empty());
        assert(out.deep_view() + Seq::<(Seq<u8>, usize)>::empty() =~= out.deep_view());
    }
    Ok(out)
}

} // verus!
