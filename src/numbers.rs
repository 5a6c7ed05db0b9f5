//! From one input number to its output lines: digits are taken out of the text,
//! cut in every way the index allows, and each cut is written out in every
//! choice of its words.

use vstd::prelude::*;
use crate::dictionary::{texts, Dictionary};
use crate::expand::{choice_of, expansion_lines, group_texts, product, render, sizes_of};
use crate::search::{all_parses, has_word, is_parse, segment_ok, MatchGenerator, Segment};

verus! {

/// The value of a decimal digit character.
pub open spec fn digit_value(c: char) -> Option<u8> {
    if '0' <= c && c <= '9' {
        Some(((c as u32) - 48) as u8)
    } else {
        None
    }
}

/// The digits of a text, in order; every other character is dropped.
pub open spec fn digits_in(s: Seq<char>) -> Seq<u8>
    decreases s.len(),
{
    if s.len() == 0 {
        Seq::empty()
    } else {
        let rest = digits_in(s.drop_last());
        match digit_value(s.last()) {
            Some(d) => rest.push(d),
            None => rest,
        }
    }
}

/// Every value is a decimal digit.
pub open spec fn all_decimal(digits: Seq<u8>) -> bool {
    forall|i: int| 0 <= i < digits.len() ==> #[trigger] digits[i] < 10
}

/// The character of a decimal digit.
pub open spec fn digit_char(d: u8) -> char {
    (d + 48) as char
}

/// The words a segment may be written as: its group, or its digit alone.
pub open spec fn segment_words(s: Segment, digits: Seq<u8>, d: &Dictionary) -> Seq<Seq<char>> {
    match s {
        Segment::Word { start, end } => d.lookup_spec(digits.subrange(start as int, end as int)).unwrap(),
        Segment::Literal { digit, .. } => seq![seq![digit_char(digit)]],
    }
}

/// The groups of words of each segment of a cut.
pub open spec fn parse_words(parse: Seq<Segment>, digits: Seq<u8>, d: &Dictionary) -> Seq<Seq<Seq<char>>> {
    parse.map_values(|s: Segment| segment_words(s, digits, d))
}

proof fn lemma_digits_in_decimal(s: Seq<char>)
    ensures
        all_decimal(digits_in(s)),
    decreases s.len(),
{
    if s.len() > 0 {
        lemma_digits_in_decimal(s.drop_last());
    }
}

/// The digits of an input number.
pub fn number_digits(number: &str) -> (r: Vec<u8>)
    ensures
        r@ == digits_in(number@),
        all_decimal(r@),
{
    let n = number.unicode_len();
    let mut r: Vec<u8> = Vec::new();
    let mut i: usize = 0;
    while i < n
        invariant
            n == number@.len(),
            i <= n,
            r@ == digits_in(number@.take(i as int)),
        decreases n - i,
    {
        let c = number.get_char(i);
        assert(number@.take(i as int + 1).drop_last() == number@.take(i as int));
        if '0' <= c && c <= '9' {
            r.push(((c as u32) - 48) as u8);
        }
        i = i + 1;
    }
    assert(number@.take(n as int) == number@);
    proof {
        lemma_digits_in_decimal(number@);
    }
    r
}

/// A digit written out as text.
pub fn digit_text(d: u8) -> (r: String)
    requires
        d < 10,
    ensures
        r@ == seq![digit_char(d)],
{
    let t: &str = if d == 0 {
        "0"
    } else if d == 1 {
        "1"
    } else if d == 2 {
        "2"
    } else if d == 3 {
        "3"
    } else if d == 4 {
        "4"
    } else if d == 5 {
        "5"
    } else if d == 6 {
        "6"
    } else if d == 7 {
        "7"
    } else if d == 8 {
        "8"
    } else {
        "9"
    };
    proof {
        reveal_strlit("0");
        reveal_strlit("1");
        reveal_strlit("2");
        reveal_strlit("3");
        reveal_strlit("4");
        reveal_strlit("5");
        reveal_strlit("6");
        reveal_strlit("7");
        reveal_strlit("8");
        reveal_strlit("9");
    }
    let mut r = String::new();
    r.append(t);
    assert(r@ =~= seq![digit_char(d)]);
    r
}

/// A copy of a list of words.
fn copy_words(v: &Vec<String>) -> (r: Vec<String>)
    ensures
        r@ == v@,
{
    let mut r: Vec<String> = Vec::new();
    let mut i: usize = 0;
    while i < v.len()
        invariant
            i <= v.len(),
            r@ == v@.take(i as int),
        decreases v.len() - i,
    {
        r.push(v[i].clone());
        i = i + 1;
        assert(r@ == v@.take(i as int));
    }
    assert(v@.take(v.len() as int) == v@);
    r
}

/// The words a segment may be written as.
fn segment_group(digits: &Vec<u8>, dictionary: &Dictionary, seg: Segment) -> (g: Vec<String>)
    requires
        dictionary.wf(),
        all_decimal(digits@),
        segment_ok(seg, digits@, dictionary),
    ensures
        texts(g@) == segment_words(seg, digits@, dictionary),
        g.len() > 0,
{
    match seg {
        Segment::Word { start, end } => {
            proof {
                reveal(has_word);
            }
            let found = dictionary.lookup(digits, start, end);
            copy_words(found.unwrap())
        },
        Segment::Literal { pos, digit } => {
            let mut g: Vec<String> = Vec::new();
            g.push(digit_text(digit));
            assert(texts(g@) =~= seq![seq![digit_char(digit)]]);
            g
        },
    }
}

/// The group of words of each segment of a complete cut.
pub fn parse_groups(digits: &Vec<u8>, dictionary: &Dictionary, parse: &Vec<Segment>) -> (groups: Vec<Vec<String>>)
    requires
        dictionary.wf(),
        all_decimal(digits@),
        is_parse(parse@, digits@, dictionary),
    ensures
        group_texts(groups@) == parse_words(parse@, digits@, dictionary),
        forall|j: int| 0 <= j < groups.len() ==> (#[trigger] groups@[j]).len() > 0,
{
    let mut groups: Vec<Vec<String>> = Vec::new();
    let mut i: usize = 0;
    while i < parse.len()
        invariant
            dictionary.wf(),
            all_decimal(digits@),
            forall|k: int| 0 <= k < parse.len() ==> segment_ok(#[trigger] parse@[k], digits@, dictionary),
            i <= parse.len(),
            groups.len() == i,
            group_texts(groups@) == parse_words(parse@.take(i as int), digits@, dictionary),
            forall|j: int| 0 <= j < groups.len() ==> (#[trigger] groups@[j]).len() > 0,
        decreases parse.len() - i,
    {
        let seg = parse[i];
        assert(segment_ok(parse@[i as int], digits@, dictionary));
        let g = segment_group(digits, dictionary, seg);
        let ghost prev = groups@;
        groups.push(g);
        assert(groups@ == prev.push(g));
        assert(parse@.take(i + 1) == parse@.take(i as int).push(seg));
        assert forall|k: int| 0 <= k <= i implies #[trigger] group_texts(groups@)[k] == parse_words(
            parse@.take(i + 1),
            digits@,
            dictionary,
        )[k] by {
            if k < i {
                assert(groups@[k] == prev[k]);
                assert(group_texts(prev)[k] == parse_words(parse@.take(i as int), digits@, dictionary)[k]);
            }
        }
        assert(group_texts(groups@) =~= parse_words(parse@.take(i + 1), digits@, dictionary));
        i = i + 1;
    }
    assert(parse@.take(parse.len() as int) == parse@);
    groups
}

/// The lines of one cut: each choice of its words, in the odometer's order.
pub open spec fn lines_of(number: Seq<char>, digits: Seq<u8>, d: &Dictionary, parse: Seq<Segment>) -> Seq<Seq<char>> {
    let pw = parse_words(parse, digits, d);
    Seq::new(product(sizes_of(pw)), |t: int| render(number, pw, choice_of(sizes_of(pw), t as nat)))
}

/// The lines of a list of cuts, one cut after the other.
pub open spec fn expansions_of(number: Seq<char>, digits: Seq<u8>, d: &Dictionary, parses: Seq<Seq<Segment>>) -> Seq<Seq<char>>
    decreases parses.len(),
{
    if parses.len() == 0 {
        Seq::empty()
    } else {
        expansions_of(number, digits, d, parses.drop_last()) + lines_of(number, digits, d, parses.last())
    }
}

/// The texts of a list of lines.
pub open spec fn line_texts(lines: Seq<String>) -> Seq<Seq<char>> {
    lines.map_values(|l: String| l@)
}

/// Every output line of one input number: each cut of its digits in the order the
/// search finds them, and each cut in the odometer's order of its choices.
pub fn lines_for_number(number: &str, dictionary: &Dictionary) -> (lines: Vec<String>)
    requires
        dictionary.wf(),
    ensures
        line_texts(lines@) == expansions_of(
            number@,
            digits_in(number@),
            dictionary,
            all_parses(digits_in(number@), dictionary),
        ),
        digits_in(number@).len() == 0 ==> lines.len() == 0,
{
    let digits = number_digits(number);
    let mut lines: Vec<String> = Vec::new();
    let ghost all = all_parses(digits@, dictionary);
    if digits.len() == 0 {
        assert(all == Seq::<Seq<Segment>>::empty());
        assert(line_texts(lines@) =~= Seq::<Seq<char>>::empty());
        return lines;
    }
    let mut generator = MatchGenerator::new(&digits, dictionary);
    let ghost mut done: Seq<Seq<Segment>> = Seq::empty();
    assert(line_texts(lines@) =~= Seq::<Seq<char>>::empty());
    assert(done + generator.pending() =~= all);
    loop
        invariant
            generator.wf(),
            generator.digits_spec() == digits@,
            generator.dictionary_spec() == dictionary,
            dictionary.wf(),
            all_decimal(digits@),
            digits@ == digits_in(number@),
            all == all_parses(digits@, dictionary),
            done + generator.pending() == all,
            line_texts(lines@) == expansions_of(number@, digits@, dictionary, done),
        ensures
            generator.pending() == Seq::<Seq<Segment>>::empty(),
            done + generator.pending() == all,
            line_texts(lines@) == expansions_of(number@, digits@, dictionary, done),
        decreases generator.remaining(),
    {
        let ghost pending_before = generator.pending();
        match generator.next() {
            Some(parse) => {
                let groups = parse_groups(&digits, dictionary, &parse);
                let ghost pw = parse_words(parse@, digits@, dictionary);
                assert(parse@.len() > 0);
                assert(groups@.len() == pw.len());
                let mut more = expansion_lines(number, groups);
                let ghost before = lines@;
                let ghost added = more@;
                lines.append(&mut more);
                proof {
                    let new_done = done.push(parse@);
                    assert(new_done.drop_last() == done);
                    assert(line_texts(added) =~= lines_of(number@, digits@, dictionary, parse@));
                    assert(line_texts(lines@) =~= line_texts(before) + line_texts(added));
                    assert(new_done + generator.pending() =~= done + pending_before);
                    done = new_done;
                }
            },
            None => {
                assert(done + Seq::<Seq<Segment>>::empty() =~= done);
                assert(generator.pending() == Seq::<Seq<Segment>>::empty());
                break;
            },
        }
    }
    assert(done + generator.pending() == all);
    assert(generator.pending() == Seq::<Seq<Segment>>::empty());
    assert(done + Seq::<Seq<Segment>>::empty() =~= done);
    lines
}

} // verus!
