use robbot::model::{
    build_model, leading_user_id, parse_use_line, pack_table, interesting_token, Context,
    CumulativeWordTable, FrequencyTable, independent_bigram_context, independent_trigram_context,
};
use robbot::tokenizer::{tokenize_line, Token, token_eq};

fn corpus(lines: &[(u64, &str)]) -> Vec<(u64, String)> {
    lines.iter().map(|&(id, s)| (id, String::from(s))).collect()
}

#[test]
fn leading_user_id_reads_the_prefix() {
    assert_eq!(leading_user_id("123 hello there"), Some(123));
    assert_eq!(leading_user_id("99688863 x"), Some(99688863));
    assert_eq!(leading_user_id("abc x"), None);
    assert_eq!(leading_user_id("12a x"), None);
}

#[test]
fn parse_use_line_splits_and_tokenizes() {
    let (id, tokens) = parse_use_line("7 hi there");
    assert_eq!(id, 7);
    // The text after the id starts with the separating space.
    assert!(matches!(tokens[0], Token::Start));
    assert!(token_eq(&tokens[1], &Token::Word(String::from("hi"))));
    assert!(token_eq(&tokens[2], &Token::Word(String::from("there"))));
    assert!(matches!(tokens[3], Token::End));
}

#[test]
fn packed_table_is_cumulative_and_sorted() {
    // Counts {A: 3, B: 1} in insertion order B first, to exercise the sort.
    let ft = FrequencyTable { total: 4, entries: vec![(1, 1), (0, 3)] };
    let packed = pack_table(&ft);
    assert_eq!(packed.occurences, 4);
    assert_eq!(packed.token_table, vec![(0, 3), (1, 4)]);
    // Non-decreasing cumulative values, final value equals the total.
    let mut prev = 0;
    for &(_, cum) in &packed.token_table {
        assert!(cum >= prev);
        prev = cum;
    }
    assert_eq!(prev, packed.occurences);
}

#[test]
fn packed_entries_sorted_by_descending_count() {
    let ft = FrequencyTable { total: 10, entries: vec![(5, 2), (6, 7), (7, 1)] };
    let packed = pack_table(&ft);
    assert_eq!(packed.occurences, 10);
    // Increments are 7, 2, 1 in that order.
    assert_eq!(packed.token_table, vec![(6, 7), (5, 9), (7, 10)]);
}

#[test]
fn every_token_kind_is_interesting() {
    assert!(interesting_token(&Token::Start));
    assert!(interesting_token(&Token::End));
    assert!(interesting_token(&Token::Word(String::from("x"))));
    assert!(interesting_token(&Token::Punctuation(String::from(","), true)));
    assert!(interesting_token(&Token::Link(String::from("www.x"))));
}

#[test]
fn contexts_need_preceding_tokens() {
    let vocab = tokenize_line("a b");
    let line = tokenize_line("a b");
    assert_eq!(independent_bigram_context(&line, 0, &vocab), None);
    assert!(independent_bigram_context(&line, 1, &vocab).is_some());
    assert_eq!(independent_trigram_context(&line, 1, &vocab), None);
    assert!(independent_trigram_context(&line, 2, &vocab).is_some());
}

#[test]
fn build_model_collects_users_and_tokens() {
    let c = corpus(&[(1, " a b"), (2, " b c"), (1, " a b")]);
    let m = build_model(&c);
    assert_eq!(m.users.len(), 2);
    // Vocabulary holds each distinct token once: Start, a, b, End, c.
    assert_eq!(m.tokens.len(), 5);
    assert!(m.users.iter().any(|(id, _)| *id == 1));
    assert!(m.users.iter().any(|(id, _)| *id == 2));
}

#[test]
fn empty_corpus_builds_empty_model() {
    let c: Vec<(u64, String)> = Vec::new();
    let m = build_model(&c);
    assert_eq!(m.tokens.len(), 0);
    assert_eq!(m.users.len(), 0);
    assert_eq!(m.shared.own_bigrams.contexts.len(), 0);
    assert_eq!(m.shared.own_trigrams.contexts.len(), 0);
}

#[test]
fn shared_model_aggregates_all_users() {
    let c = corpus(&[(1, " a b"), (2, " a b")]);
    let m = build_model(&c);
    // Each user saw "a -> b" once; the shared model saw it twice.
    let user_rel: usize = m.users[0].1.relation_count();
    assert!(user_rel > 0);
    let shared = &m.shared;
    let b_follows_a = shared
        .own_bigrams
        .contexts
        .iter()
        .map(|(_, t)| t.occurences)
        .sum::<usize>();
    let per_user: usize = m.users[0]
        .1
        .own_bigrams
        .contexts
        .iter()
        .map(|(_, t)| t.occurences)
        .sum();
    assert_eq!(b_follows_a, 2 * per_user);
}

fn decoded_counts(table: &CumulativeWordTable) -> Vec<(usize, usize)> {
    let mut prev = 0;
    let mut counts: Vec<(usize, usize)> = Vec::new();
    for &(tok, cum) in &table.token_table {
        counts.push((tok, cum - prev));
        prev = cum;
    }
    counts.sort();
    counts
}

#[test]
fn build_model_counts_match_corpus_occurrences() {
    // Vocabulary order of first appearance: Start 0, a 1, b 2, End 3, c 4.
    // After the bigram context `a`, user 1 saw b twice and c once; with
    // user 2's line the shared model saw b three times and c once — the
    // pointwise sum of the users' counts.
    let c = corpus(&[(1, " a b"), (2, " a b"), (1, " a b"), (1, " a c")]);
    let m = build_model(&c);
    let u1 = m.users.iter().find(|(id, _)| *id == 1).map(|(_, g)| g).unwrap();
    let after_a = u1
        .own_bigrams
        .contexts
        .iter()
        .find(|(ctx, _)| matches!(ctx, Context::Bigram(1)))
        .map(|(_, t)| t)
        .unwrap();
    assert_eq!(after_a.occurences, 3);
    assert_eq!(decoded_counts(after_a), vec![(2, 2), (4, 1)]);
    let shared_after_a = m
        .shared
        .own_bigrams
        .contexts
        .iter()
        .find(|(ctx, _)| matches!(ctx, Context::Bigram(1)))
        .map(|(_, t)| t)
        .unwrap();
    assert_eq!(shared_after_a.occurences, 4);
    assert_eq!(decoded_counts(shared_after_a), vec![(2, 3), (4, 1)]);
}

#[test]
fn packing_an_empty_table_yields_zero_total() {
    let ft = FrequencyTable { total: 0, entries: vec![] };
    let packed = pack_table(&ft);
    assert_eq!(packed.occurences, 0);
    assert!(packed.token_table.is_empty());
}

#[test]
fn equal_counts_pack_with_valid_cumulative_values() {
    let ft = FrequencyTable { total: 4, entries: vec![(3, 2), (9, 2)] };
    let packed = pack_table(&ft);
    assert_eq!(packed.occurences, 4);
    let cums: Vec<usize> = packed.token_table.iter().map(|&(_, c)| c).collect();
    assert_eq!(cums, vec![2, 4]);
}
