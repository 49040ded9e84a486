//! The rank table: an immutable mapping from byte sequences to merge
//! ranks, plus a mapping from reserved special-token literals to token
//! ids. Built once, validated, then only read.
use vstd::prelude::*;

verus! {

/// Construction failure: the rank data is malformed or incomplete.
#[derive(Clone, Copy, Debug, PartialEq, Eq, Structural)]
pub enum TableError {
    InvalidTable,
}

/// The mapping an association list stands for; on duplicate keys the
/// later entry wins (well-formed tables never disagree on a key).
pub open spec fn assoc_map<K>(s: Seq<(K, usize)>) -> Map<K, usize>
    decreases s.len(),
{
    if s.len() == 0 {
        Map::empty()
    } else {
        assoc_map(s.drop_last()).insert(s.last().0, s.last().1)
    }
}

/// The value of the first entry whose key is `k`, scanning from index `i`.
pub open spec fn first_val_from<K>(s: Seq<(K, usize)>, k: K, i: nat) -> Option<usize>
    decreases s.len() - i,
{
    if i >= s.len() {
        None
    } else if s[i as int].0 == k {
        Some(s[i as int].1)
    } else {
        first_val_from(s, k, (i + 1) as nat)
    }
}

/// The value of the first entry whose key is `k`.
pub open spec fn first_val<K>(s: Seq<(K, usize)>, k: K) -> Option<usize> {
    first_val_from(s, k, 0)
}

/// No two entries give one key different values.
pub open spec fn consistent<K>(s: Seq<(K, usize)>) -> bool {
    forall|i: int, j: int|
        0 <= i < s.len() && 0 <= j < s.len() && (#[trigger] s[i]).0 == (#[trigger] s[j]).0
            ==> s[i].1 == s[j].1
}

pub proof fn lemma_first_val_some<K>(s: Seq<(K, usize)>, k: K, i: nat, v: usize)
    requires
        first_val_from(s, k, i) == Some(v),
    ensures
        exists|j: int| i <= j < s.len() && (#[trigger] s[j]).0 == k && s[j].1 == v,
    decreases s.len() - i,
{
    if i >= s.len() {
    } else if s[i as int].0 == k {
        assert(i <= i < s.len() && s[i as int].0 == k && s[i as int].1 == v);
    } else {
        lemma_first_val_some(s, k, (i + 1) as nat, v);
    }
}

pub proof fn lemma_first_val_none<K>(s: Seq<(K, usize)>, k: K, i: nat)
    requires
        first_val_from(s, k, i) == None::<usize>,
    ensures
        forall|j: int| i <= j < s.len() ==> (#[trigger] s[j]).0 != k,
    decreases s.len() - i,
{
    if i >= s.len() {
    } else {
        lemma_first_val_none(s, k, (i + 1) as nat);
    }
}

/// A key occurs in the association map exactly when some entry holds it.
pub proof fn lemma_assoc_contains<K>(s: Seq<(K, usize)>, k: K)
    ensures
        assoc_map(s).contains_key(k) <==> exists|i: int| 0 <= i < s.len() && (#[trigger] s[i]).0
            == k,
    decreases s.len(),
{
    if s.len() == 0 {
    } else {
        lemma_assoc_contains(s.drop_last(), k);
        if s.last().0 == k {
            assert(s[s.len() - 1].0 == k);
        } else {
            if assoc_map(s).contains_key(k) {
                let i = choose|i: int| 0 <= i < s.drop_last().len() && (#[trigger] s.drop_last()[i]).0
                    == k;
                assert(s[i].0 == k);
            }
            if exists|i: int| 0 <= i < s.len() && (#[trigger] s[i]).0 == k {
                let i = choose|i: int| 0 <= i < s.len() && (#[trigger] s[i]).0 == k;
                assert(s.drop_last()[i].0 == k);
            }
        }
    }
}

proof fn lemma_first_val_from_consistent<K>(s: Seq<(K, usize)>, i: int, j: nat)
    requires
        consistent(s),
        0 <= i < s.len(),
        j <= i,
    ensures
        first_val_from(s, s[i].0, j) == Some(s[i].1),
    decreases s.len() - j,
{
    if s[j as int].0 == s[i].0 {
        assert(s[j as int].1 == s[i].1);
    } else {
        assert(j != i);
        lemma_first_val_from_consistent(s, i, (j + 1) as nat);
    }
}

/// In a consistent association list, the first occurrence of any
/// entry's key carries that entry's value.
pub proof fn lemma_first_val_some_of_index<K>(s: Seq<(K, usize)>, i: int)
    requires
        consistent(s),
        0 <= i < s.len(),
    ensures
        first_val(s, s[i].0) == Some(s[i].1),
{
    lemma_first_val_from_consistent(s, i, 0);
}

/// In a consistent association list, the map agrees with every entry.
pub proof fn lemma_assoc_lookup<K>(s: Seq<(K, usize)>, k: K, i: int)
    requires
        consistent(s),
        0 <= i < s.len(),
        s[i].0 == k,
    ensures
        assoc_map(s).contains_key(k),
        assoc_map(s)[k] == s[i].1,
    decreases s.len(),
{
    if s.last().0 == k {
        assert(s[s.len() - 1].1 == s[i].1);
    } else {
        assert(i != s.len() - 1);
        assert(s.drop_last()[i] == s[i]);
        assert(consistent(s.drop_last())) by {
            assert(forall|x: int, y: int|
                0 <= x < s.drop_last().len() && 0 <= y < s.drop_last().len() && (#[trigger] s.drop_last()[x]).0
                    == (#[trigger] s.drop_last()[y]).0 ==> s.drop_last()[x].1 == s.drop_last()[y].1)
                by {
                assert(forall|x: int| 0 <= x < s.drop_last().len() ==> #[trigger] s.drop_last()[x]
                    == s[x]);
            }
        }
        lemma_assoc_lookup(s.drop_last(), k, i);
    }
}

/// Compares two byte vectors by contents.
pub fn bytes_eq(a: &Vec<u8>, b: &Vec<u8>) -> (r: bool)
    ensures
        r == (a@ == b@),
{
    if a.len() != b.len() {
        return false;
    }
    let mut i: usize = 0;
    while i < a.len()
        invariant
            i <= a.len(),
            a.len() == b.len(),
            forall|k: int| 0 <= k < i ==> a@[k] == b@[k],
        decreases a.len() - i,
    {
        if a[i] != b[i] {
            return false;
        }
        i = i + 1;
    }
    proof {
        assert(a@ =~= b@);
    }
    true
}

/// Compares two character vectors by contents.
pub fn chars_eq(a: &Vec<char>, b: &Vec<char>) -> (r: bool)
    ensures
        r == (a@ == b@),
{
    if a.len() != b.len() {
        return false;
    }
    let mut i: usize = 0;
    while i < a.len()
        invariant
            i <= a.len(),
            a.len() == b.len(),
            forall|k: int| 0 <= k < i ==> a@[k] == b@[k],
        decreases a.len() - i,
    {
        if a[i] != b[i] {
            return false;
        }
        i = i + 1;
    }
    proof {
        assert(a@ =~= b@);
    }
    true
}

fn lookup_bytes(entries: &Vec<(Vec<u8>, usize)>, key: &Vec<u8>) -> (r: Option<usize>)
    ensures
        r == first_val(entries.deep_view(), key@),
{
    let ghost dv = entries.deep_view();
    let mut i: usize = 0;
    while i < entries.len()
        invariant
            i <= entries.len(),
            dv == entries.deep_view(),
            dv.len() == entries.len(),
            first_val(dv, key@) == first_val_from(dv, key@, i as nat),
        decreases entries.len() - i,
    {
        proof {
            assert(dv[i as int] == (entries@[i as int].0@, entries@[i as int].1));
        }
        if bytes_eq(&entries[i].0, key) {
            return Some(entries[i].1);
        }
        i = i + 1;
    }
    None
}

fn lookup_chars(entries: &Vec<(Vec<char>, usize)>, key: &Vec<char>) -> (r: Option<usize>)
    ensures
        r == first_val(entries.deep_view(), key@),
{
    let ghost dv = entries.deep_view();
    let mut i: usize = 0;
    while i < entries.len()
        invariant
            i <= entries.len(),
            dv == entries.deep_view(),
            dv.len() == entries.len(),
            first_val(dv, key@) == first_val_from(dv, key@, i as nat),
        decreases entries.len() - i,
    {
        proof {
            assert(dv[i as int] == (entries@[i as int].0@, entries@[i as int].1));
        }
        if chars_eq(&entries[i].0, key) {
            return Some(entries[i].1);
        }
        i = i + 1;
    }
    None
}

/// The conditions under which raw rank data makes a well-formed table:
/// no key with two ranks, every single byte present, special literals
/// nonempty and unambiguous, and no special id colliding with a rank.
pub open spec fn has_byte(es: Seq<(Seq<u8>, usize)>, b: u8) -> bool {
    exists|i: int| 0 <= i < es.len() && (#[trigger] es[i]).0 == seq![b]
}

pub open spec fn valid_table_input(es: Seq<(Seq<u8>, usize)>, sp: Seq<(Seq<char>, usize)>) -> bool {
    &&& consistent(es)
    &&& consistent(sp)
    &&& forall|b: u8| #[trigger] has_byte(es, b)
    &&& forall|i: int| 0 <= i < sp.len() ==> (#[trigger] sp[i]).0.len() >= 1
    &&& forall|i: int, j: int|
        0 <= i < sp.len() && 0 <= j < es.len() ==> (#[trigger] sp[i]).1 != (#[trigger] es[j]).1
}

/// An immutable merge-rank table together with its special tokens.
pub struct RankTable {
    entries: Vec<(Vec<u8>, usize)>,
    specials: Vec<(Vec<char>, usize)>,
}

impl RankTable {
    /// The raw rank entries, as byte sequences with ranks.
    pub closed spec fn entries_seq(self) -> Seq<(Seq<u8>, usize)> {
        self.entries.deep_view()
    }

    /// The special tokens, in the order the segmenter tries them.
    pub closed spec fn specials_seq(self) -> Seq<(Seq<char>, usize)> {
        self.specials.deep_view()
    }

    /// The mapping from byte sequences to merge ranks.
    pub open spec fn ranks(self) -> Map<Seq<u8>, usize> {
        assoc_map(self.entries_seq())
    }

    /// The mapping from special literals to token ids.
    pub open spec fn specials_map(self) -> Map<Seq<char>, usize> {
        assoc_map(self.specials_seq())
    }

    /// Well-formedness: established by `build`, preserved ever after.
    pub open spec fn wf(self) -> bool {
        valid_table_input(self.entries_seq(), self.specials_seq())
    }

    /// The merge rank of a byte sequence, if it has one.
    pub fn rank_of(&self, key: &Vec<u8>) -> (r: Option<usize>)
        requires
            self.wf(),
        ensures
            match r {
                Some(v) => self.ranks().contains_key(key@) && self.ranks()[key@] == v,
                None => !self.ranks().contains_key(key@),
            },
    {
        let r = lookup_bytes(&self.entries, key);
        proof {
            let es = self.entries_seq();
            match r {
                Some(v) => {
                    lemma_first_val_some(es, key@, 0, v);
                    let j = choose|j: int| 0 <= j < es.len() && (#[trigger] es[j]).0 == key@
                        && es[j].1 == v;
                    lemma_assoc_lookup(es, key@, j);
                },
                None => {
                    lemma_first_val_none(es, key@, 0);
                    lemma_assoc_contains(es, key@);
                },
            }
        }
        r
    }

    /// The token id of a special literal, if it is one.
    pub fn id_of_special(&self, lit: &Vec<char>) -> (r: Option<usize>)
        requires
            self.wf(),
        ensures
            match r {
                Some(v) => self.specials_map().contains_key(lit@) && self.specials_map()[lit@] == v,
                None => !self.specials_map().contains_key(lit@),
            },
    {
        let r = lookup_chars(&self.specials, lit);
        proof {
            let sp = self.specials_seq();
            match r {
                Some(v) => {
                    lemma_first_val_some(sp, lit@, 0, v);
                    let j = choose|j: int| 0 <= j < sp.len() && (#[trigger] sp[j]).0 == lit@
                        && sp[j].1 == v;
                    lemma_assoc_lookup(sp, lit@, j);
                },
                None => {
                    lemma_first_val_none(sp, lit@, 0);
                    lemma_assoc_contains(sp, lit@);
                },
            }
        }
        r
    }

    /// The special tokens as stored, for the segmenter to scan.
    pub fn specials(&self) -> (r: &Vec<(Vec<char>, usize)>)
        ensures
            r.deep_view() == self.specials_seq(),
    {
        &self.specials
    }

    /// Builds and validates a table from raw entries and special tokens.
    /// Fails exactly when the data could not make a well-formed table.
    pub fn build(entries: Vec<(Vec<u8>, usize)>, specials: Vec<(Vec<char>, usize)>) -> (r: Result<
        RankTable,
        TableError,
    >)
        ensures
            r is Ok <==> valid_table_input(entries.deep_view(), specials.deep_view()),
            r matches Ok(t) ==> t.entries_seq() == entries.deep_view() && t.specials_seq()
                == specials.deep_view() && t.wf(),
    {
        let ghost es = entries.deep_view();
        let ghost sp = specials.deep_view();

        // Every entry must agree with the first entry holding its key.
        let mut i: usize = 0;
        while i < entries.len()
            invariant
                i <= entries.len(),
                es == entries.deep_view(),
                sp == specials.deep_view(),
                es.len() == entries.len(),
                forall|x: int| 0 <= x < i ==> first_val(es, (#[trigger] es[x]).0) == Some(es[x].1),
            decreases entries.len() - i,
        {
            proof {
                assert(es[i as int] == (entries@[i as int].0@, entries@[i as int].1));
            }
            let r = lookup_bytes(&entries, &entries[i].0);
            let ok = match r {
                Some(v) => v == entries[i].1,
                None => false,
            };
            if !ok {
                proof {
                    match r {
                        Some(v) => {
                            lemma_first_val_some(es, es[i as int].0, 0, v);
                            let j = choose|j: int| 0 <= j < es.len() && (#[trigger] es[j]).0
                                == es[i as int].0 && es[j].1 == v;
                            assert(!consistent(es)) by {
                                assert(es[j].0 == es[i as int].0 && es[j].1 != es[i as int].1);
                            }
                        },
                        None => {
                            lemma_first_val_none(es, es[i as int].0, 0);
                            assert(false);
                        },
                    }
                }
                return Err(TableError::InvalidTable);
            }
            i = i + 1;
        }

        // Every single byte must have a base entry.
        let mut b: usize = 0;
        while b < 256
            invariant
                b <= 256,
                es == entries.deep_view(),
                sp == specials.deep_view(),
                forall|x: u8| x < b ==> #[trigger] has_byte(es, x),
            decreases 256 - b,
        {
            let mut key: Vec<u8> = Vec::new();
            key.push(b as u8);
            proof {
                assert(key@ =~= seq![b as u8]);
            }
            let r = lookup_bytes(&entries, &key);
            match r {
                Some(_) => (),
                None => {
                    proof {
                        lemma_first_val_none(es, key@, 0);
                        assert(!has_byte(es, b as u8));
                    }
                    return Err(TableError::InvalidTable);
                },
            }
            proof {
                let v = r.unwrap();
                lemma_first_val_some(es, key@, 0, v);
                assert(forall|x: u8| x < b + 1 ==> #[trigger] has_byte(es, x)) by {
                    assert(forall|x: u8| x < b ==> #[trigger] has_byte(es, x));
                    let j = choose|j: int| 0 <= j < es.len() && (#[trigger] es[j]).0 == seq![
                        b as u8,
                    ] && es[j].1 == v;
                    assert(has_byte(es, b as u8)) by {
                        assert(0 <= j < es.len() && es[j].0 == seq![b as u8]);
                    }
                }
            }
            b = b + 1;
        }

        // Special literals must be nonempty and agree with their first
        // occurrence, and their ids must not collide with any rank.
        let mut i: usize = 0;
        while i < specials.len()
            invariant
                i <= specials.len(),
                es == entries.deep_view(),
                sp == specials.deep_view(),
                sp.len() == specials.len(),
                es.len() == entries.len(),
                forall|x: int| 0 <= x < i ==> (#[trigger] sp[x]).0.len() >= 1,
                forall|x: int| 0 <= x < i ==> first_val(sp, (#[trigger] sp[x]).0) == Some(sp[x].1),
                forall|x: int, j: int|
                    0 <= x < i && 0 <= j < es.len() ==> (#[trigger] sp[x]).1 != (
                    #[trigger] es[j]).1,
            decreases specials.len() - i,
        {
            proof {
                assert(sp[i as int] == (specials@[i as int].0@, specials@[i as int].1));
            }
            if specials[i].0.len() == 0 {
                return Err(TableError::InvalidTable);
            }
            let r = lookup_chars(&specials, &specials[i].0);
            let ok = match r {
                Some(v) => v == specials[i].1,
                None => false,
            };
            if !ok {
                proof {
                    match r {
                        Some(v) => {
                            lemma_first_val_some(sp, sp[i as int].0, 0, v);
                            let j = choose|j: int| 0 <= j < sp.len() && (#[trigger] sp[j]).0
                                == sp[i as int].0 && sp[j].1 == v;
                            assert(!consistent(sp)) by {
                                assert(sp[j].0 == sp[i as int].0 && sp[j].1 != sp[i as int].1);
                            }
                        },
                        None => {
                            lemma_first_val_none(sp, sp[i as int].0, 0);
                            assert(false);
                        },
                    }
                }
                return Err(TableError::InvalidTable);
            }
            let mut j: usize = 0;
            while j < entries.len()
                invariant
                    j <= entries.len(),
                    i < specials.len(),
                    es == entries.deep_view(),
                    sp == specials.deep_view(),
                    sp.len() == specials.len(),
                    es.len() == entries.len(),
                    forall|y: int| 0 <= y < j ==> (#[trigger] es[y]).1 != sp[i as int].1,
                decreases entries.len() - j,
            {
                proof {
                    assert(es[j as int] == (entries@[j as int].0@, entries@[j as int].1));
                    assert(sp[i as int] == (specials@[i as int].0@, specials@[i as int].1));
                }
                if entries[j].1 == specials[i].1 {
                    return Err(TableError::InvalidTable);
                }
                j = j + 1;
            }
            i = i + 1;
        }

        proof {
            assert(consistent(es)) by {
                assert(forall|x: int, y: int|
                    0 <= x < es.len() && 0 <= y < es.len() && (#[trigger] es[x]).0 == (
                    #[trigger] es[y]).0 ==> es[x].1 == es[y].1) by {
                    assert(forall|x: int| 0 <= x < es.len() ==> first_val(
                        es,
                        (#[trigger] es[x]).0,
                    ) == Some(es[x].1));
                }
            }
            assert(consistent(sp)) by {
                assert(forall|x: int, y: int|
                    0 <= x < sp.len() && 0 <= y < sp.len() && (#[trigger] sp[x]).0 == (
                    #[trigger] sp[y]).0 ==> sp[x].1 == sp[y].1) by {
                    assert(forall|x: int| 0 <= x < sp.len() ==> first_val(
                        sp,
                        (#[trigger] sp[x]).0,
                    ) == Some(sp[x].1));
                }
            }
        }
        Ok(RankTable { entries, specials })
    }
}

} // verus!
