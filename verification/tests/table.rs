use markov::Markov;

fn bytes(text: &str) -> Vec<u8> {
    text.as_bytes().to_vec()
}

fn sample_table() -> Markov<u8> {
    let mut table: Markov<u8> = Markov::new();
    table.add_inscription(bytes("abcbcd"));
    table
}

#[test]
fn new_table_is_empty() {
    let table: Markov<u8> = Markov::new();
    assert!(table.is_empty());
    assert_eq!(table.len(), 0);
    assert!(!table.contains(b"ab"));
    assert_eq!(table.total_of(b"ab"), 0);
    assert_eq!(table.count_of(b"ab", &b'c'), 0);
}

#[test]
fn default_table_is_empty() {
    let table: Markov<u8> = Markov::default();
    assert!(table.is_empty());
    assert_eq!(table.go(4), Vec::<u8>::new());
}

#[test]
fn ingest_records_each_transition() {
    let table = sample_table();
    assert_eq!(table.len(), 3);
    assert!(table.contains(b"ab"));
    assert!(table.contains(b"bc"));
    assert!(table.contains(b"cb"));
    assert_eq!(table.total_of(b"ab"), 1);
    assert_eq!(table.total_of(b"bc"), 2);
    assert_eq!(table.total_of(b"cb"), 1);
    assert_eq!(table.count_of(b"ab", &b'c'), 1);
    assert_eq!(table.count_of(b"bc", &b'b'), 1);
    assert_eq!(table.count_of(b"bc", &b'd'), 1);
    assert_eq!(table.count_of(b"cb", &b'c'), 1);
}

#[test]
fn ingest_adds_no_context_for_the_last_pair() {
    let table = sample_table();
    assert!(!table.contains(b"cd"));
    assert_eq!(table.total_of(b"cd"), 0);
    assert_eq!(table.weights_of(b"cd"), Vec::<usize>::new());
}

#[test]
fn unseen_transitions_count_zero() {
    let table = sample_table();
    assert_eq!(table.count_of(b"ab", &b'd'), 0);
    assert_eq!(table.count_of(b"bc", &b'c'), 0);
    assert_eq!(table.count_of(b"ba", &b'c'), 0);
    assert_eq!(table.total_of(b"ba"), 0);
}

#[test]
fn contexts_are_pairs() {
    let table = sample_table();
    assert!(!table.contains(b""));
    assert!(!table.contains(b"a"));
    assert!(!table.contains(b"abc"));
    assert_eq!(table.total_of(b"abc"), 0);
    assert_eq!(table.count_of(b"a", &b'b'), 0);
    assert_eq!(table.weights_of(b"abc"), Vec::<usize>::new());
    assert_eq!(table.letter_at(b"abc", 0), None);
    assert_eq!(table.get_letter(b"abc"), None);
    assert_eq!(table.get_letter(b"a"), None);
}

#[test]
fn short_sequences_change_nothing() {
    let mut table = sample_table();
    table.add_inscription(bytes(""));
    table.add_inscription(bytes("a"));
    table.add_inscription(bytes("bc"));
    assert_eq!(table.len(), 3);
    assert_eq!(table.total_of(b"ab"), 1);
    assert_eq!(table.total_of(b"bc"), 2);
    assert_eq!(table.total_of(b"cb"), 1);
    assert_eq!(table.count_of(b"bc", &b'b'), 1);
    assert_eq!(table.count_of(b"bc", &b'd'), 1);

    let mut empty: Markov<u8> = Markov::new();
    empty.add_inscription(bytes("ab"));
    assert!(empty.is_empty());
}

#[test]
fn three_symbols_make_one_observation() {
    let mut table: Markov<u8> = Markov::new();
    table.add_inscription(bytes("xyz"));
    assert_eq!(table.len(), 1);
    assert_eq!(table.total_of(b"xy"), 1);
    assert_eq!(table.count_of(b"xy", &b'z'), 1);
    assert!(!table.contains(b"yz"));
}

#[test]
fn ingesting_twice_doubles_the_counts() {
    let mut table = sample_table();
    table.add_inscription(bytes("abcbcd"));
    assert_eq!(table.len(), 3);
    assert_eq!(table.total_of(b"ab"), 2);
    assert_eq!(table.total_of(b"bc"), 4);
    assert_eq!(table.total_of(b"cb"), 2);
    assert_eq!(table.count_of(b"ab", &b'c'), 2);
    assert_eq!(table.count_of(b"bc", &b'b'), 2);
    assert_eq!(table.count_of(b"bc", &b'd'), 2);
    assert_eq!(table.count_of(b"cb", &b'c'), 2);
}

#[test]
fn repeated_symbols_accumulate() {
    let mut table: Markov<u8> = Markov::new();
    table.add_inscription(bytes("aaaaa"));
    assert_eq!(table.len(), 1);
    assert_eq!(table.total_of(b"aa"), 3);
    assert_eq!(table.count_of(b"aa", &b'a'), 3);
    assert_eq!(table.weights_of(b"aa"), vec![3]);
}

#[test]
fn documents_accumulate_in_one_table() {
    let mut table = sample_table();
    table.add_inscription(bytes("bcd"));
    table.add_inscription(bytes("xab"));
    assert_eq!(table.len(), 4);
    assert_eq!(table.total_of(b"bc"), 3);
    assert_eq!(table.count_of(b"bc", &b'd'), 2);
    assert_eq!(table.count_of(b"bc", &b'b'), 1);
    assert_eq!(table.total_of(b"xa"), 1);
    assert_eq!(table.count_of(b"xa", &b'b'), 1);
    assert_eq!(table.total_of(b"ab"), 1);
}

#[test]
fn order_of_documents_does_not_matter() {
    let mut one: Markov<u8> = Markov::new();
    one.add_inscription(bytes("abcab"));
    one.add_inscription(bytes("cabd"));
    let mut other: Markov<u8> = Markov::new();
    other.add_inscription(bytes("cabd"));
    other.add_inscription(bytes("abcab"));
    assert_eq!(one.len(), other.len());
    for context in [b"ab", b"bc", b"ca", b"bd", b"cb"] {
        assert_eq!(one.contains(context), other.contains(context));
        assert_eq!(one.total_of(context), other.total_of(context));
        for symbol in [b'a', b'b', b'c', b'd'] {
            assert_eq!(one.count_of(context, &symbol), other.count_of(context, &symbol));
        }
    }
    assert_eq!(one.count_of(b"ab", &b'c'), 1);
    assert_eq!(one.count_of(b"ab", &b'd'), 1);
    assert_eq!(one.count_of(b"ca", &b'b'), 2);
}

#[test]
fn total_is_the_sum_of_the_counts() {
    let mut table = sample_table();
    table.add_inscription(bytes("bcbcbcd bcx abcd"));
    for context in [b"ab", b"bc", b"cb", b"cd", b"d ", b" b", b"cx", b"x ", b" a"] {
        let weights = table.weights_of(context);
        let sum: usize = weights.iter().sum();
        assert_eq!(table.total_of(context), sum);
        assert!(weights.iter().all(|weight| *weight > 0));
    }
    assert_eq!(table.total_of(b"bc"), 7);
}

#[test]
fn ingest_never_lowers_a_count() {
    let mut table = sample_table();
    let before: Vec<usize> = vec![
        table.total_of(b"ab"),
        table.total_of(b"bc"),
        table.total_of(b"cb"),
        table.count_of(b"bc", &b'b'),
        table.count_of(b"bc", &b'd'),
    ];
    table.add_inscription(bytes("zzbcbzz"));
    let after: Vec<usize> = vec![
        table.total_of(b"ab"),
        table.total_of(b"bc"),
        table.total_of(b"cb"),
        table.count_of(b"bc", &b'b'),
        table.count_of(b"bc", &b'd'),
    ];
    assert_eq!(before, vec![1, 2, 1, 1, 1]);
    assert_eq!(after, vec![1, 3, 2, 2, 1]);
    assert!(table.contains(b"ab"));
    assert!(table.contains(b"bc"));
    assert!(table.contains(b"cb"));
    assert_eq!(table.len(), 6);
}

#[test]
fn weights_follow_the_successors() {
    let table = sample_table();
    assert_eq!(table.weights_of(b"ab"), vec![1]);
    assert_eq!(table.weights_of(b"bc"), vec![1, 1]);
    assert_eq!(table.letter_at(b"ab", 0), Some(b'c'));
    assert_eq!(table.letter_at(b"ab", 1), None);
    assert_eq!(table.letter_at(b"bc", 0), Some(b'b'));
    assert_eq!(table.letter_at(b"bc", 1), Some(b'd'));
    assert_eq!(table.letter_at(b"bc", 2), None);
    assert_eq!(table.letter_at(b"zz", 0), None);
}

#[test]
fn weight_at_a_position_is_the_count_of_the_letter_there() {
    let mut table = sample_table();
    table.add_inscription(bytes("bcdbcdbcb"));
    let weights = table.weights_of(b"bc");
    assert_eq!(weights, vec![2, 3]);
    for (at, weight) in weights.iter().enumerate() {
        let letter = table.letter_at(b"bc", at).unwrap();
        assert_eq!(table.count_of(b"bc", &letter), *weight);
    }
    assert_eq!(table.count_of(b"bc", &b'd'), 3);
    assert_eq!(table.count_of(b"bc", &b'b'), 2);
}

#[test]
fn has_room_for_ordinary_sequences() {
    let table = sample_table();
    assert!(table.has_room(0));
    assert!(table.has_room(1 << 20));
    assert!(table.has_room(usize::MAX - 2));
    assert!(!table.has_room(usize::MAX - 1));
    assert!(!table.has_room(usize::MAX));
    let empty: Markov<u8> = Markov::new();
    assert!(empty.has_room(usize::MAX));
}

#[test]
fn symbols_need_not_be_bytes() {
    let mut table: Markov<String> = Markov::new();
    let words: Vec<String> = "the cat sat on the cat mat"
        .split(' ')
        .map(|word| word.to_string())
        .collect();
    table.add_inscription(words);
    let the_cat = vec!["the".to_string(), "cat".to_string()];
    assert_eq!(table.len(), 4);
    assert_eq!(table.total_of(&the_cat), 2);
    assert_eq!(table.count_of(&the_cat, &"sat".to_string()), 1);
    assert_eq!(table.count_of(&the_cat, &"mat".to_string()), 1);
    assert_eq!(table.count_of(&the_cat, &"on".to_string()), 0);

    let mut letters: Markov<char> = Markov::new();
    letters.add_inscription("abab".chars().collect());
    assert_eq!(letters.count_of(&['a', 'b'], &'a'), 1);
    assert_eq!(letters.count_of(&['b', 'a'], &'b'), 1);
}
