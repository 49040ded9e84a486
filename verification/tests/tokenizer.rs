use openai_token::bpe::merge_piece;
use openai_token::encode::count;
use openai_token::encode::encode;
use openai_token::encode::TokenError;
use openai_token::registry::cl100k_special_tokens;
use openai_token::table::RankTable;
use openai_token::table::TableError;

fn chars(s: &str) -> Vec<char> {
    s.chars().collect()
}

/// Every single byte with rank equal to its value.
fn base_entries() -> Vec<(Vec<u8>, usize)> {
    let mut v = Vec::new();
    for b in 0..=255u8 {
        v.push((vec![b], b as usize));
    }
    v
}

fn base_table() -> RankTable {
    RankTable::build(base_entries(), cl100k_special_tokens()).unwrap()
}

#[test]
fn encode_is_deterministic() {
    let table = base_table();
    let text = chars("Hello, world 123!");
    let allowed: Vec<Vec<char>> = Vec::new();
    let first = encode(&table, &text, &allowed).unwrap();
    let second = encode(&table, &text, &allowed).unwrap();
    assert_eq!(first, second);
}

#[test]
fn single_byte_pieces_are_single_tokens() {
    let table = base_table();
    for b in 0..=255u8 {
        let toks = merge_piece(&table, &vec![b]);
        assert_eq!(toks, vec![b as usize]);
    }
}

#[test]
fn single_ascii_char_counts_one() {
    let table = base_table();
    let allowed: Vec<Vec<char>> = Vec::new();
    for b in 0..128u8 {
        let text = vec![b as char];
        assert_eq!(count(&table, &text, &allowed), Ok(1));
    }
}

#[test]
fn tie_break_merges_leftmost() {
    // "ab" and "bc" share the lowest rank; the leftmost pair must merge
    // first, leaving "ab" + "c" rather than "a" + "bc".
    let mut entries = Vec::new();
    for b in 0..=255u8 {
        entries.push((vec![b], 300 + b as usize));
    }
    entries.push((b"ab".to_vec(), 0));
    entries.push((b"bc".to_vec(), 0));
    let table = RankTable::build(entries, Vec::new()).unwrap();
    let toks = merge_piece(&table, &b"abc".to_vec());
    assert_eq!(toks, vec![0, 300 + 'c' as usize]);
}

#[test]
fn disallowed_special_is_an_error() {
    let table = base_table();
    let text = chars("a<|endoftext|>b");
    let allowed: Vec<Vec<char>> = Vec::new();
    match encode(&table, &text, &allowed) {
        Err(TokenError::DisallowedSpecialToken(lit)) => {
            assert_eq!(lit, chars("<|endoftext|>"));
        },
        other => panic!("expected a disallowed special token, got {:?}", other),
    }
}

#[test]
fn allowed_special_embeds_one_id() {
    let table = base_table();
    let text = chars("a<|endoftext|>b");
    let allowed = vec![chars("<|endoftext|>")];
    let toks = encode(&table, &text, &allowed).unwrap();
    assert_eq!(toks, vec![97, 100257, 98]);
    assert_eq!(count(&table, &text, &allowed), Ok(3));
}

#[test]
fn forced_pair_merge_wins() {
    // 'a' = rank 0, 'b' = rank 1, the pair "ab" = rank 0: encoding "ab"
    // must yield the single merged token, not the two base tokens.
    let mut entries = Vec::new();
    entries.push((b"a".to_vec(), 0));
    entries.push((b"b".to_vec(), 1));
    for b in 0..=255u8 {
        if b != b'a' && b != b'b' {
            entries.push((vec![b], 2 + b as usize));
        }
    }
    entries.push((b"ab".to_vec(), 0));
    let table = RankTable::build(entries, Vec::new()).unwrap();
    let allowed: Vec<Vec<char>> = Vec::new();
    let toks = encode(&table, &chars("ab"), &allowed).unwrap();
    assert_eq!(toks, vec![0]);
}

#[test]
fn count_of_prefix_is_no_larger() {
    let table = base_table();
    let allowed: Vec<Vec<char>> = Vec::new();
    let short = count(&table, &chars("ab"), &allowed).unwrap();
    let long = count(&table, &chars("ab cd"), &allowed).unwrap();
    assert!(short <= long);
}

#[test]
fn adjacent_pieces_encode_independently() {
    let table = base_table();
    let allowed: Vec<Vec<char>> = Vec::new();
    let mut parts = encode(&table, &chars("ab"), &allowed).unwrap();
    parts.extend(encode(&table, &chars(" cd"), &allowed).unwrap());
    let whole = encode(&table, &chars("ab cd"), &allowed).unwrap();
    assert_eq!(parts, whole);
}

#[test]
fn merges_never_cross_piece_boundaries() {
    // "1234" splits into the pieces "123" and "4"; a "34" pair in the
    // table must never merge across that boundary.
    let mut entries = base_entries();
    entries.push((b"34".to_vec(), 0));
    let table = RankTable::build(entries, Vec::new()).unwrap();
    let allowed: Vec<Vec<char>> = Vec::new();
    assert_eq!(count(&table, &chars("1234"), &allowed), Ok(4));
}

#[test]
fn contraction_splits_before_apostrophe() {
    // "I'm" splits into "I" and "'m"; an "I'" pair must never merge.
    let mut entries = base_entries();
    entries.push((b"I'".to_vec(), 0));
    let table = RankTable::build(entries, Vec::new()).unwrap();
    let allowed: Vec<Vec<char>> = Vec::new();
    assert_eq!(count(&table, &chars("I'm"), &allowed), Ok(3));
}

#[test]
fn multibyte_char_merges_to_its_token() {
    let mut entries = base_entries();
    entries.push((vec![0xC3, 0xA9], 1000));
    let table = RankTable::build(entries, Vec::new()).unwrap();
    let allowed: Vec<Vec<char>> = Vec::new();
    let toks = encode(&table, &chars("\u{e9}"), &allowed).unwrap();
    assert_eq!(toks, vec![1000]);
}

#[test]
fn build_rejects_missing_byte() {
    let mut entries = Vec::new();
    for b in 0..=254u8 {
        entries.push((vec![b], b as usize));
    }
    match RankTable::build(entries, Vec::new()) {
        Err(e) => assert_eq!(e, TableError::InvalidTable),
        Ok(_) => panic!("a table without byte 255 must be rejected"),
    }
}

#[test]
fn build_rejects_conflicting_ranks() {
    let mut entries = base_entries();
    entries.push((b"ab".to_vec(), 1));
    entries.push((b"ab".to_vec(), 2));
    assert!(RankTable::build(entries, Vec::new()).is_err());
}

#[test]
fn build_accepts_repeated_equal_entry() {
    let mut entries = base_entries();
    entries.push((b"ab".to_vec(), 999));
    entries.push((b"ab".to_vec(), 999));
    assert!(RankTable::build(entries, Vec::new()).is_ok());
}

#[test]
fn build_rejects_special_id_collision() {
    let specials = vec![(chars("<|endoftext|>"), 5)];
    assert!(RankTable::build(base_entries(), specials).is_err());
}

#[test]
fn build_rejects_empty_special_literal() {
    let specials = vec![(Vec::new(), 100257)];
    assert!(RankTable::build(base_entries(), specials).is_err());
}

#[test]
fn whitespace_backs_off_before_a_word() {
    // "a   b" splits into "a", two spaces, and " b": five base tokens.
    let table = base_table();
    let allowed: Vec<Vec<char>> = Vec::new();
    assert_eq!(count(&table, &chars("a   b"), &allowed), Ok(5));
}

#[test]
fn empty_text_counts_zero() {
    let table = base_table();
    let allowed: Vec<Vec<char>> = Vec::new();
    assert_eq!(count(&table, &Vec::new(), &allowed), Ok(0));
    assert_eq!(encode(&table, &Vec::new(), &allowed), Ok(Vec::new()));
}

#[test]
fn punctuation_keeps_its_trailing_newline() {
    // "!?\n" is one piece, so a "?\n" pair can merge inside it.
    let mut entries = base_entries();
    entries.push((b"?\n".to_vec(), 0));
    let table = RankTable::build(entries, Vec::new()).unwrap();
    let allowed: Vec<Vec<char>> = Vec::new();
    assert_eq!(count(&table, &chars("!?\n"), &allowed), Ok(2));
}

#[test]
fn whitespace_piece_ends_at_its_last_newline() {
    // "\n  a" splits into "\n", one space, and " a": the newline run
    // closes its piece before the trailing spaces are considered.
    let table = base_table();
    let allowed: Vec<Vec<char>> = Vec::new();
    assert_eq!(count(&table, &chars("\n  a"), &allowed), Ok(4));
}
