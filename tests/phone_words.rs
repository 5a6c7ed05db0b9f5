use phone_words::dictionary::load_dictionary;
use phone_words::encoding::{letter_value, word_key};
use phone_words::expand::{expansion_lines, ExpansionNode};
use phone_words::numbers::{digit_text, lines_for_number, number_digits, parse_groups};
use phone_words::search::{MatchGenerator, Segment};

fn words(list: &[&str]) -> Vec<String> {
    list.iter().map(|w| w.to_string()).collect()
}

fn all_parses(digits: &Vec<u8>, list: &[&str]) -> Vec<Vec<Segment>> {
    let dict = load_dictionary(&words(list));
    let mut generator = MatchGenerator::new(digits, &dict);
    let mut out = Vec::new();
    while let Some(p) = generator.next() {
        out.push(p);
    }
    out
}

#[test]
fn encoding_ignores_case_and_non_letters() {
    assert_eq!(word_key("Tree"), word_key("tree"));
    assert_eq!(word_key("Tree"), vec![4, 2, 0, 0]);
    assert_eq!(word_key("a-b"), word_key("ab"));
    assert_eq!(word_key("a-b"), vec![5, 7]);
    assert_eq!(word_key("\"Ast-rO\""), word_key("astro"));
}

#[test]
fn encoding_table_has_every_digit() {
    assert_eq!(word_key("ejrdfacblg"), vec![0, 1, 2, 3, 4, 5, 6, 7, 8, 9]);
    assert_eq!(word_key("EQXYTMVUPZ"), vec![0, 1, 2, 3, 4, 5, 6, 7, 8, 9]);
    assert_eq!(letter_value('h'), Some(9));
    assert_eq!(letter_value('7'), None);
    assert_eq!(word_key("123 !?"), Vec::<u8>::new());
}

#[test]
fn keys_keep_their_length() {
    // "t" is 4, "et" is 0 then 4: folding digits into one integer would merge them.
    assert_ne!(word_key("t"), word_key("et"));
    let dict = load_dictionary(&words(&["t", "et"]));
    let digits = vec![0u8, 4];
    let g = dict.lookup(&digits, 0, 2).unwrap();
    assert_eq!(g, &words(&["et"]));
    let g = dict.lookup(&digits, 1, 2).unwrap();
    assert_eq!(g, &words(&["t"]));
}

#[test]
fn dictionary_groups_keep_input_order() {
    let dict = load_dictionary(&words(&["ma", "if", "Am", "--", "fi"]));
    let digits = vec![5u8, 5, 6, 4];
    assert_eq!(dict.lookup(&digits, 0, 2).unwrap(), &words(&["ma", "Am"]));
    assert_eq!(dict.lookup(&digits, 2, 4).unwrap(), &words(&["if"]));
    assert!(dict.lookup(&digits, 0, 1).is_none());
    assert!(dict.lookup(&digits, 0, 0).is_none());
}

#[test]
fn two_synonyms_then_a_word() {
    let dict = load_dictionary(&words(&["am", "ma", "if"]));
    assert_eq!(lines_for_number("5564", &dict), words(&["5564: am if", "5564: ma if"]));
}

#[test]
fn single_literal_digit() {
    let dict = load_dictionary(&Vec::new());
    assert_eq!(lines_for_number("9", &dict), words(&["9: 9"]));
}

#[test]
fn two_literal_digits_give_nothing() {
    let dict = load_dictionary(&Vec::new());
    assert!(lines_for_number("99", &dict).is_empty());
}

#[test]
fn no_digits_gives_nothing() {
    let dict = load_dictionary(&words(&["hello", "e"]));
    assert!(lines_for_number("hello", &dict).is_empty());
    assert!(lines_for_number("", &dict).is_empty());
    assert!(number_digits("hello").is_empty());
}

#[test]
fn input_text_is_kept_in_lines() {
    let dict = load_dictionary(&words(&["am", "ma", "if"]));
    assert_eq!(
        lines_for_number("55/6-4", &dict),
        words(&["55/6-4: am if", "55/6-4: ma if"])
    );
    assert_eq!(number_digits("(55) 6-4"), vec![5, 5, 6, 4]);
}

#[test]
fn literal_digit_between_words() {
    let dict = load_dictionary(&words(&["am", "if"]));
    assert_eq!(lines_for_number("55964", &dict), words(&["55964: am 9 if"]));
}

#[test]
fn literal_digit_not_offered_where_a_word_starts() {
    // A word "a" covers the first 5, so no literal 5 is tried there; the 4 alone
    // has no word and may be a literal.
    let dict = load_dictionary(&words(&["a"]));
    assert_eq!(lines_for_number("54", &dict), words(&["54: a 4"]));
    assert!(lines_for_number("544", &dict).is_empty());
}

#[test]
fn search_yields_every_length_in_stack_order() {
    let dict = load_dictionary(&words(&["a", "am", "m"]));
    assert_eq!(
        lines_for_number("55", &dict),
        words(&["55: am", "55: a a", "55: a m", "55: m a", "55: m m"])
    );
}

#[test]
fn parses_cover_digits_without_adjacent_literals() {
    let digits = vec![5u8, 5, 9, 6, 4, 9];
    let parses = all_parses(&digits, &["am", "a", "if", "m"]);
    assert!(!parses.is_empty());
    for p in &parses {
        let mut next = 0usize;
        let mut last_literal = false;
        for s in p {
            match *s {
                Segment::Word { start, end } => {
                    assert_eq!(start, next);
                    assert!(end > start);
                    next = end;
                    last_literal = false;
                }
                Segment::Literal { pos, digit } => {
                    assert_eq!(pos, next);
                    assert_eq!(digit, digits[pos]);
                    assert!(!last_literal);
                    next = pos + 1;
                    last_literal = true;
                }
            }
        }
        assert_eq!(next, digits.len());
    }
}

#[test]
fn search_on_empty_digits_is_exhausted() {
    assert!(all_parses(&Vec::new(), &["a"]).is_empty());
}

#[test]
fn enumeration_counts_every_combination_once() {
    let groups = vec![words(&["a", "b"]), words(&["c"]), words(&["d", "e", "f"])];
    let lines = expansion_lines("n", groups);
    assert_eq!(
        lines,
        words(&["n: a c d", "n: a c e", "n: a c f", "n: b c d", "n: b c e", "n: b c f"])
    );
    let mut sorted = lines.clone();
    sorted.sort();
    sorted.dedup();
    assert_eq!(sorted.len(), 2 * 1 * 3);
}

#[test]
fn enumeration_of_single_choices() {
    assert_eq!(expansion_lines("7", vec![words(&["x"])]), words(&["7: x"]));
}

#[test]
fn node_increment_wraps() {
    let mut node = ExpansionNode::new(words(&["x", "y"]));
    assert_eq!(node.value(), "x");
    assert!(!node.increment());
    assert_eq!(node.value(), "y");
    assert!(node.increment());
    assert_eq!(node.value(), "x");
    let mut single = ExpansionNode::new(words(&["z"]));
    assert!(single.increment());
    assert_eq!(single.value(), "z");
}

#[test]
fn digits_render_as_text() {
    assert_eq!(digit_text(0), "0");
    assert_eq!(digit_text(7), "7");
    assert_eq!(digit_text(9), "9");
}

#[test]
fn groups_of_a_parse() {
    let dict = load_dictionary(&words(&["am", "ma"]));
    let digits = vec![5u8, 5, 3];
    let parse = vec![Segment::Word { start: 0, end: 2 }, Segment::Literal { pos: 2, digit: 3 }];
    assert_eq!(parse_groups(&digits, &dict, &parse), vec![words(&["am", "ma"]), words(&["3"])]);
}
