//! The letter-to-digit table and the keys it gives to words.

use vstd::prelude::*;

verus! {

/// The digit that a letter stands for, in either case; `None` for any other character.
pub open spec fn letter_digit(c: char) -> Option<u8> {
    if c == 'e' || c == 'E' {
        Some(0u8)
    } else if c == 'j' || c == 'n' || c == 'q' || c == 'J' || c == 'N' || c == 'Q' {
        Some(1u8)
    } else if c == 'r' || c == 'w' || c == 'x' || c == 'R' || c == 'W' || c == 'X' {
        Some(2u8)
    } else if c == 'd' || c == 's' || c == 'y' || c == 'D' || c == 'S' || c == 'Y' {
        Some(3u8)
    } else if c == 'f' || c == 't' || c == 'F' || c == 'T' {
        Some(4u8)
    } else if c == 'a' || c == 'm' || c == 'A' || c == 'M' {
        Some(5u8)
    } else if c == 'c' || c == 'i' || c == 'v' || c == 'C' || c == 'I' || c == 'V' {
        Some(6u8)
    } else if c == 'b' || c == 'k' || c == 'u' || c == 'B' || c == 'K' || c == 'U' {
        Some(7u8)
    } else if c == 'l' || c == 'o' || c == 'p' || c == 'L' || c == 'O' || c == 'P' {
        Some(8u8)
    } else if c == 'g' || c == 'h' || c == 'z' || c == 'G' || c == 'H' || c == 'Z' {
        Some(9u8)
    } else {
        None
    }
}

/// The key of a text: the digits of its letters, in order; other characters are dropped.
pub open spec fn encode(s: Seq<char>) -> Seq<u8>
    decreases s.len(),
{
    if s.len() == 0 {
        Seq::empty()
    } else {
        let rest = encode(s.drop_last());
        match letter_digit(s.last()) {
            Some(d) => rest.push(d),
            None => rest,
        }
    }
}

/// ASCII upper case letters turned to lower case; every other character kept.
pub open spec fn ascii_lower(c: char) -> char {
    if 'A' <= c && c <= 'Z' {
        ((c as u32) + 32) as char
    } else {
        c
    }
}

/// Whether every character of the text is in the table.
pub open spec fn all_letters(s: Seq<char>) -> bool {
    forall|i: int| 0 <= i < s.len() ==> (#[trigger] letter_digit(s[i])).is_some()
}

/// The digit of one character, as the table gives it.
pub fn letter_value(c: char) -> (r: Option<u8>)
    ensures
        r == letter_digit(c),
{
    match c {
        'e' | 'E' => Some(0),
        'j' | 'n' | 'q' | 'J' | 'N' | 'Q' => Some(1),
        'r' | 'w' | 'x' | 'R' | 'W' | 'X' => Some(2),
        'd' | 's' | 'y' | 'D' | 'S' | 'Y' => Some(3),
        'f' | 't' | 'F' | 'T' => Some(4),
        'a' | 'm' | 'A' | 'M' => Some(5),
        'c' | 'i' | 'v' | 'C' | 'I' | 'V' => Some(6),
        'b' | 'k' | 'u' | 'B' | 'K' | 'U' => Some(7),
        'l' | 'o' | 'p' | 'L' | 'O' | 'P' => Some(8),
        'g' | 'h' | 'z' | 'G' | 'H' | 'Z' => Some(9),
        _ => None,
    }
}

/// The key of a word: one digit per letter, in order.
pub fn word_key(s: &str) -> (r: Vec<u8>)
    ensures
        r@ == encode(s@),
{
    let n = s.unicode_len();
    let mut key: Vec<u8> = Vec::new();
    let mut i: usize = 0;
    while i < n
        invariant
            n == s@.len(),
            i <= n,
            key@ == encode(s@.take(i as int)),
        decreases n - i,
    {
        let c = s.get_char(i);
        assert(s@.take(i as int + 1).drop_last() == s@.take(i as int));
        match letter_value(c) {
            Some(d) => key.push(d),
            None => {},
        }
        i = i + 1;
    }
    assert(s@.take(n as int) == s@);
    key
}

/// Keys of texts joined end to end are the keys of the parts joined.
pub proof fn lemma_encode_append(a: Seq<char>, b: Seq<char>)
    ensures
        encode(a + b) == encode(a) + encode(b),
    decreases b.len(),
{
    if b.len() == 0 {
        assert(a + b == a);
        assert(encode(b) == Seq::<u8>::empty());
        assert(encode(a) + encode(b) == encode(a));
    } else {
        assert((a + b).drop_last() == a + b.drop_last());
        lemma_encode_append(a, b.drop_last());
    }
}

/// Encoding ignores the case of letters: a text and its lower-case form share a key.
pub proof fn lemma_encode_ignores_case(s: Seq<char>)
    ensures
        encode(s.map_values(|c: char| ascii_lower(c))) == encode(s),
    decreases s.len(),
{
    let t = s.map_values(|c: char| ascii_lower(c));
    if s.len() > 0 {
        assert(t.drop_last() == s.drop_last().map_values(|c: char| ascii_lower(c)));
        lemma_encode_ignores_case(s.drop_last());
        let c = s.last();
        assert(t.last() == ascii_lower(c));
        assert(letter_digit(ascii_lower(c)) == letter_digit(c)) by {
            if 'A' <= c && c <= 'Z' {
                assert(c == 'A' || c == 'B' || c == 'C' || c == 'D' || c == 'E' || c == 'F'
                    || c == 'G' || c == 'H' || c == 'I' || c == 'J' || c == 'K' || c == 'L'
                    || c == 'M' || c == 'N' || c == 'O' || c == 'P' || c == 'Q' || c == 'R'
                    || c == 'S' || c == 'T' || c == 'U' || c == 'V' || c == 'W' || c == 'X'
                    || c == 'Y' || c == 'Z');
            }
        }
    }
}

/// Encoding drops every character that is not a letter of the table: taking one
/// out of a text leaves its key as it was.
pub proof fn lemma_encode_skips_non_letters(a: Seq<char>, c: char, b: Seq<char>)
    requires
        letter_digit(c).is_none(),
    ensures
        encode(a + seq![c] + b) == encode(a + b),
{
    lemma_encode_append(a + seq![c], b);
    lemma_encode_append(a, seq![c]);
    lemma_encode_append(a, b);
    assert(seq![c].drop_last() == Seq::<char>::empty());
    assert(seq![c].last() == c);
    assert(encode(Seq::<char>::empty()) == Seq::<u8>::empty());
    assert(encode(seq![c]) == Seq::<u8>::empty());
    assert(encode(a) + encode(seq![c]) == encode(a));
}

/// A text of letters alone has a key as long as itself.
pub proof fn lemma_encode_len_of_letters(s: Seq<char>)
    requires
        all_letters(s),
    ensures
        encode(s).len() == s.len(),
    decreases s.len(),
{
    if s.len() > 0 {
        assert(letter_digit(s[s.len() - 1]).is_some());
        assert(all_letters(s.drop_last())) by {
            assert forall|i: int| 0 <= i < s.drop_last().len() implies
                (#[trigger] letter_digit(s.drop_last()[i])).is_some() by {
                assert(s.drop_last()[i] == s[i]);
            }
        }
        lemma_encode_len_of_letters(s.drop_last());
    }
}

/// Keys keep their length: two words of letters of different lengths never share a
/// key, even where the digits of one are those of the other behind a leading zero.
pub proof fn lemma_keys_of_different_lengths_differ(s: Seq<char>, t: Seq<char>)
    requires
        all_letters(s),
        all_letters(t),
        s.len() != t.len(),
    ensures
        encode(s) != encode(t),
{
    lemma_encode_len_of_letters(s);
    lemma_encode_len_of_letters(t);
}

} // verus!
