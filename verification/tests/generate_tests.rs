use robbot::generate::{
    generate, generate_tokens, generate_sentence, select_at, select_from, sample, most_popular,
    format_token, format_selection, choose_user, BlendConfig, GeneratedToken,
};
use robbot::model::{build_model, pack_table, FrequencyTable, UserLearningModel};
use robbot::rng::seeded_rng;
use robbot::tokenizer::{tokenize_line, Token};

fn corpus(lines: &[(u64, &str)]) -> Vec<(u64, String)> {
    lines.iter().map(|&(id, s)| (id, String::from(s))).collect()
}

#[test]
fn sampling_frequency_approaches_the_ratio() {
    // Counts {A: 3, B: 1}: over many draws, A is chosen about 75% of the time.
    let ft = FrequencyTable { total: 4, entries: vec![(0, 3), (1, 1)] };
    let table = pack_table(&ft);
    let mut rng = seeded_rng(1, 2, 3, 4);
    let trials = 10000;
    let mut a_count = 0;
    for _ in 0..trials {
        let (idx, occ) = select_from(&table, &mut rng);
        if idx == 0 {
            a_count += 1;
            assert_eq!(occ, 3);
        } else {
            assert_eq!(idx, 1);
            assert_eq!(occ, 1);
        }
    }
    assert!(a_count > 7200, "A chosen only {} times", a_count);
    assert!(a_count < 7800, "A chosen {} times", a_count);
}

#[test]
fn most_popular_lists_leading_entries_with_their_counts() {
    let ft = FrequencyTable { total: 10, entries: vec![(5, 2), (6, 7), (7, 1)] };
    let table = pack_table(&ft);
    assert_eq!(most_popular(&table, 2), vec![(6, 7), (5, 2)]);
    assert_eq!(most_popular(&table, 9), vec![(6, 7), (5, 2), (7, 1)]);
    assert_eq!(most_popular(&table, 0), vec![]);
}

#[test]
fn generation_stays_within_thirty_tokens() {
    // A looping corpus without a likely end keeps generating until the bound.
    let mut lines: Vec<(u64, &str)> = Vec::new();
    for _ in 0..50 {
        lines.push((1, " a b a b a b a b a b a b a b a b a b a b"));
    }
    let c = corpus(&lines);
    let m = build_model(&c);
    let um = &m.users[0].1;
    let cfg = BlendConfig::standard();
    for seed_word in 0..20u32 {
        let mut rng = seeded_rng(seed_word + 1, 2, 3, 4);
        let seed = vec![Token::Start];
        let line = generate_tokens(&m, um, &cfg, &mut rng, &seed);
        assert!(line.len() <= 30);
        assert!(line.len() >= 1);
    }
}

#[test]
fn trigram_with_single_occurrence_falls_back_to_bigram() {
    // Trigram (x, b) and (y, b) each occur once, so the trigram path is
    // rejected; the bigram after b always continues with c.
    let c = corpus(&[(1, " x b c"), (1, " y b c")]);
    let m = build_model(&c);
    let um = &m.users[0].1;
    let cfg = BlendConfig::standard();
    let seed = tokenize_line(" x b");
    let mut seed_tokens: Vec<Token> = seed;
    seed_tokens.pop(); // drop the end marker to continue the sentence
    for s in 1..30u32 {
        let mut rng = seeded_rng(s, 5, 6, 7);
        let line = generate_tokens(&m, um, &cfg, &mut rng, &seed_tokens);
        // The token appended right after the seed must be the word c.
        match &line[seed_tokens.len()] {
            Token::Word(w) => assert_eq!(w, "c"),
            other => panic!("unexpected token {:?} after rejected trigram", other),
        }
    }
}

#[test]
fn empty_user_model_generates_the_empty_string() {
    let c = corpus(&[(1, " a b")]);
    let m = build_model(&c);
    let empty = UserLearningModel::default().as_generative(0);
    let mut rng = seeded_rng(9, 9, 9, 9);
    let message = generate(&m, &mut rng, &vec![Token::Start], &empty);
    assert_eq!(message, "");
}

#[test]
fn generated_text_renders_learned_words() {
    let c = corpus(&[(1, " hello world"), (1, " hello world"), (1, " hello world")]);
    let m = build_model(&c);
    let um = &m.users[0].1;
    let mut rng = seeded_rng(4, 4, 4, 4);
    let message = generate(&m, &mut rng, &vec![Token::Start], um);
    assert_eq!(message, "hello world");
}

#[test]
fn render_spaces_words_and_punctuation() {
    let tokens = vec![
        Token::Start,
        Token::Word(String::from("hello")),
        Token::Punctuation(String::from(","), true),
        Token::Word(String::from("world")),
        Token::End,
    ];
    assert_eq!(generate_sentence(&tokens), "hello, world");

    let tokens = vec![
        Token::Start,
        Token::Word(String::from("see")),
        Token::Link(String::from("http://x.com")),
        Token::End,
    ];
    assert_eq!(generate_sentence(&tokens), "see http://x.com");

    let tokens = vec![Token::Start, Token::End];
    assert_eq!(generate_sentence(&tokens), "");
}

#[test]
fn tight_punctuation_renders_without_space() {
    let tokens = vec![
        Token::Start,
        Token::Word(String::from("wait")),
        Token::Punctuation(String::from("..."), false),
        Token::Word(String::from("what")),
        Token::End,
    ];
    assert_eq!(generate_sentence(&tokens), "wait...what");
}

#[test]
fn token_formatting() {
    assert_eq!(format_token(&Token::Start), ".Start");
    assert_eq!(format_token(&Token::End), ".End");
    assert_eq!(format_token(&Token::Word(String::from("hi"))), "hi");
    assert_eq!(format_token(&Token::Link(String::from("www.a"))), "www.a");
    assert_eq!(
        format_token(&Token::Punctuation(String::from(","), true)),
        ",.sp?true"
    );
}

#[test]
fn selection_formatting_matches_the_historical_layout() {
    assert_eq!(format_selection(&None, &vec![]), ".");
    let all_tokens = vec![Token::Word(String::from("hi"))];
    let g = GeneratedToken {
        token_idx: 0,
        chosen_occurrences: 2,
        table_occurrences: 5,
        popular: vec![(0, 2)],
    };
    let expected = format!(
        "{:5} ||| ({:5}) {:12} ||| {}",
        5,
        2,
        "hi",
        format!("({:5}) {:12} ", 2, "hi")
    );
    assert_eq!(format_selection(&Some(g), &all_tokens), expected);
}

#[test]
fn choose_user_returns_a_known_user() {
    let c = corpus(&[(10, " a"), (20, " b"), (30, " c")]);
    let m = build_model(&c);
    let mut rng = seeded_rng(2, 3, 4, 5);
    for _ in 0..50 {
        let id = choose_user(&m, &mut rng);
        assert!(id == 10 || id == 20 || id == 30);
    }
}

#[test]
fn bound_cut_final_token_still_renders() {
    // A line the length bound cut before an end marker renders every token.
    let tokens = vec![
        Token::Start,
        Token::Word(String::from("a")),
        Token::Word(String::from("b")),
    ];
    assert_eq!(generate_sentence(&tokens), "a b");

    let tokens = vec![
        Token::Start,
        Token::Word(String::from("a")),
        Token::Punctuation(String::from("."), true),
    ];
    assert_eq!(generate_sentence(&tokens), "a. ");

    let tokens = vec![Token::Word(String::from("only"))];
    assert_eq!(generate_sentence(&tokens), "only");
}

#[test]
fn sample_is_none_exactly_on_empty_tables() {
    let empty = pack_table(&FrequencyTable { total: 0, entries: vec![] });
    let mut rng = seeded_rng(3, 1, 4, 1);
    assert_eq!(sample(&empty, &mut rng), None);

    let ft = FrequencyTable { total: 4, entries: vec![(0, 3), (1, 1)] };
    let table = pack_table(&ft);
    for _ in 0..100 {
        let (idx, occ) = sample(&table, &mut rng).unwrap();
        assert!((idx == 0 && occ == 3) || (idx == 1 && occ == 1));
    }
}

#[test]
fn selection_picks_the_first_band_that_fits_the_draw() {
    // Counts {7: 2, 8: 2}: draws 0 and 1 land in the first band, 2 and 3
    // in the second.
    let ft = FrequencyTable { total: 4, entries: vec![(7, 2), (8, 2)] };
    let table = pack_table(&ft);
    assert_eq!(select_at(&table, 0).0, table.token_table[0].0);
    assert_eq!(select_at(&table, 1).0, table.token_table[0].0);
    assert_eq!(select_at(&table, 2).0, table.token_table[1].0);
    assert_eq!(select_at(&table, 3).0, table.token_table[1].0);
}

#[test]
fn empty_corpus_model_still_generates() {
    // A model from no corpus at all: generation degrades to the trivial
    // empty rendering instead of failing.
    let m = build_model(&Vec::new());
    let empty = UserLearningModel::default().as_generative(0);
    let mut rng = seeded_rng(8, 8, 8, 8);
    let message = generate(&m, &mut rng, &vec![Token::Start], &empty);
    assert_eq!(message, "");
}

#[test]
fn zero_dice_roll_is_empty() {
    let dice = robbot::dice::Dice { count: 0, magnitude: 6 };
    let mut rng = seeded_rng(1, 1, 1, 2);
    assert_eq!(dice.roll(&mut rng), Vec::<u64>::new());
}
