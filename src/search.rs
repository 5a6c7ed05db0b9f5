//! The search for every way to cut a digit string into dictionary words and
//! lone literal digits.

use vstd::prelude::*;
use crate::dictionary::Dictionary;

verus! {

/// One piece of a cut: the digits `[start, end)` spelled by a group of words, or
/// the single digit at `pos`, kept as it is.
#[derive(Clone, Copy, Debug, PartialEq, Eq, Structural)]
pub enum Segment {
    Word { start: usize, end: usize },
    Literal { pos: usize, digit: u8 },
}

/// First digit a segment covers.
pub open spec fn seg_start(s: Segment) -> int {
    match s {
        Segment::Word { start, .. } => start as int,
        Segment::Literal { pos, .. } => pos as int,
    }
}

/// One past the last digit a segment covers.
pub open spec fn seg_end(s: Segment) -> int {
    match s {
        Segment::Word { end, .. } => end as int,
        Segment::Literal { pos, .. } => pos + 1,
    }
}

/// Whether the index holds a group under a key.
#[verifier::opaque]
pub open spec fn has_word(d: &Dictionary, k: Seq<u8>) -> bool {
    d.lookup_spec(k).is_some()
}

/// A word segment spells a key of the index; a literal one holds the digit it covers.
pub open spec fn segment_ok(s: Segment, digits: Seq<u8>, d: &Dictionary) -> bool {
    match s {
        Segment::Word { start, end } => start < end <= digits.len() && has_word(
            d,
            digits.subrange(start as int, end as int),
        ),
        Segment::Literal { pos, digit } => pos < digits.len() && digit == digits[pos as int],
    }
}

/// The segments follow one another without gap or overlap and cover `[0, upto)`.
pub open spec fn covers(segs: Seq<Segment>, upto: int) -> bool {
    &&& segs.len() == 0 ==> upto == 0
    &&& segs.len() > 0 ==> seg_start(segs[0]) == 0 && seg_end(segs.last()) == upto
    &&& forall|i: int| 0 <= i < segs.len() - 1 ==> seg_end(#[trigger] segs[i]) == seg_start(segs[i + 1])
    &&& forall|i: int| 0 <= i < segs.len() ==> seg_start(#[trigger] segs[i]) < seg_end(segs[i])
}

/// No two literal digits stand side by side.
pub open spec fn no_adjacent_literals(segs: Seq<Segment>) -> bool {
    forall|i: int|
        0 <= i < segs.len() - 1 ==> !((#[trigger] segs[i] is Literal) && segs[i + 1] is Literal)
}

/// A cut of the first `upto` digits.
pub open spec fn valid_prefix(segs: Seq<Segment>, upto: int, digits: Seq<u8>, d: &Dictionary) -> bool {
    &&& covers(segs, upto)
    &&& no_adjacent_literals(segs)
    &&& forall|i: int| 0 <= i < segs.len() ==> segment_ok(#[trigger] segs[i], digits, d)
}

/// A complete cut of a non-empty digit string.
pub open spec fn is_parse(segs: Seq<Segment>, digits: Seq<u8>, d: &Dictionary) -> bool {
    digits.len() > 0 && valid_prefix(segs, digits.len() as int, digits, d)
}

proof fn lemma_segments_ordered(segs: Seq<Segment>, upto: int, i: int, j: int)
    requires
        covers(segs, upto),
        0 <= i < j < segs.len(),
    ensures
        seg_end(segs[i]) <= seg_start(segs[j]),
    decreases j - i,
{
    if j > i + 1 {
        lemma_segments_ordered(segs, upto, i, j - 1);
        assert(seg_start(segs[j - 1]) < seg_end(segs[j - 1]));
    }
}

proof fn lemma_some_segment_holds(segs: Seq<Segment>, upto: int, p: int)
    requires
        covers(segs, upto),
        0 <= p < upto,
    ensures
        exists|i: int| 0 <= i < segs.len() && seg_start(segs[i]) <= p < #[trigger] seg_end(segs[i]),
    decreases segs.len(),
{
    let n = segs.len();
    assert(n > 0);
    if p >= seg_start(segs[n - 1]) {
        assert(seg_end(segs.last()) == upto);
        assert(seg_start(segs[n - 1]) <= p < seg_end(segs[n - 1]));
    } else {
        assert(n > 1);
        let front = segs.drop_last();
        let mid = seg_start(segs[n - 1]);
        assert(seg_end(segs[n - 2]) == mid);
        assert(covers(front, mid)) by {
            assert(front[0] == segs[0]);
            assert(front.last() == segs[n - 2]);
            assert forall|i: int| 0 <= i < front.len() - 1 implies seg_end(#[trigger] front[i]) == seg_start(front[i + 1]) by {
                assert(front[i] == segs[i] && front[i + 1] == segs[i + 1]);
            }
            assert forall|i: int| 0 <= i < front.len() implies seg_start(#[trigger] front[i]) < seg_end(front[i]) by {
                assert(front[i] == segs[i]);
            }
        }
        lemma_some_segment_holds(front, mid, p);
        let i = choose|i: int| 0 <= i < front.len() && seg_start(front[i]) <= p < #[trigger] seg_end(front[i]);
        assert(front[i] == segs[i]);
    }
}

/// Whether a segment covers digit `p`.
pub open spec fn holds_digit(s: Segment, p: int) -> bool {
    seg_start(s) <= p < seg_end(s)
}

/// Whether some segment covers digit `p`.
pub open spec fn covered(segs: Seq<Segment>, p: int) -> bool {
    exists|i: int| 0 <= i < segs.len() && #[trigger] holds_digit(segs[i], p)
}

/// A complete cut covers every digit exactly once, and never puts two literal
/// digits side by side.
pub proof fn lemma_parse_covers_each_digit_once(segs: Seq<Segment>, digits: Seq<u8>, d: &Dictionary)
    requires
        is_parse(segs, digits, d),
    ensures
        no_adjacent_literals(segs),
        forall|i: int| 0 <= i < segs.len() ==> 0 <= seg_start(#[trigger] segs[i]) < seg_end(segs[i]) <= digits.len(),
        forall|p: int| 0 <= p < digits.len() ==> #[trigger] covered(segs, p),
        forall|i: int, j: int, p: int|
            0 <= i < segs.len() && 0 <= j < segs.len() && #[trigger] holds_digit(segs[i], p)
                && #[trigger] holds_digit(segs[j], p) ==> i == j,
{
    let n = digits.len() as int;
    assert forall|p: int| 0 <= p < n implies #[trigger] covered(segs, p) by {
        lemma_some_segment_holds(segs, n, p);
        let i = choose|i: int| 0 <= i < segs.len() && seg_start(segs[i]) <= p < #[trigger] seg_end(segs[i]);
        assert(holds_digit(segs[i], p));
    }
    assert forall|i: int, j: int, p: int|
        0 <= i < segs.len() && 0 <= j < segs.len() && #[trigger] holds_digit(segs[i], p)
            && #[trigger] holds_digit(segs[j], p) implies i == j by {
        if i < j {
            lemma_segments_ordered(segs, n, i, j);
        } else if j < i {
            lemma_segments_ordered(segs, n, j, i);
        }
    }
    assert forall|i: int| 0 <= i < segs.len() implies 0 <= seg_start(#[trigger] segs[i]) < seg_end(segs[i]) <= n by {
        if i > 0 {
            lemma_segments_ordered(segs, n, 0, i);
        }
        if i < segs.len() - 1 {
            lemma_segments_ordered(segs, n, i, segs.len() - 1);
        }
        assert(seg_end(segs.last()) == n);
    }
}

/// A cut still being extended: the digits before `position` are covered.
pub struct Candidate {
    pub position: usize,
    pub segments: Vec<Segment>,
}

/// `2^e`, the most work that a candidate `e` digits from the end can still cause.
pub open spec fn weight(e: nat) -> nat
    decreases e,
{
    if e == 0 {
        1
    } else {
        2 * weight((e - 1) as nat)
    }
}

/// The work still owed to a stack of candidates on a string of `n` digits.
pub open spec fn total_weight(cands: Seq<Candidate>, n: int) -> nat
    decreases cands.len(),
{
    if cands.len() == 0 {
        0
    } else {
        total_weight(cands.drop_last(), n) + weight((n - cands.last().position) as nat)
    }
}

proof fn lemma_total_weight_push(cands: Seq<Candidate>, c: Candidate, n: int)
    ensures
        total_weight(cands.push(c), n) == total_weight(cands, n) + weight((n - c.position) as nat),
{
    assert(cands.push(c).drop_last() == cands);
}

proof fn lemma_weight_step(e: nat)
    requires
        e > 0,
    ensures
        weight(e) == 2 * weight((e - 1) as nat),
        weight((e - 1) as nat) > 0,
    decreases e,
{
    if e > 1 {
        lemma_weight_step((e - 1) as nat);
    }
}

/// A cut grown by one more segment that starts where it ends is still a cut.
proof fn lemma_extend(segs: Seq<Segment>, upto: int, s: Segment, digits: Seq<u8>, d: &Dictionary)
    requires
        valid_prefix(segs, upto, digits, d),
        seg_start(s) == upto,
        seg_start(s) < seg_end(s),
        segment_ok(s, digits, d),
        !(s is Literal && segs.len() > 0 && segs.last() is Literal),
    ensures
        valid_prefix(segs.push(s), seg_end(s), digits, d),
{
    let t = segs.push(s);
    assert forall|i: int| 0 <= i < t.len() - 1 implies seg_end(#[trigger] t[i]) == seg_start(t[i + 1]) by {
        if i < segs.len() - 1 {
            assert(t[i] == segs[i] && t[i + 1] == segs[i + 1]);
        }
    }
    assert forall|i: int| 0 <= i < t.len() - 1 implies !((#[trigger] t[i] is Literal) && t[i + 1] is Literal) by {
        if i < segs.len() - 1 {
            assert(t[i] == segs[i] && t[i + 1] == segs[i + 1]);
        }
    }
    assert forall|i: int| 0 <= i < t.len() implies seg_start(#[trigger] t[i]) < seg_end(t[i]) && segment_ok(t[i], digits, d) by {
        if i < segs.len() {
            assert(t[i] == segs[i]);
        }
    }
}

/// A copy of a list of segments.
fn copy_segments(v: &Vec<Segment>) -> (r: Vec<Segment>)
    ensures
        r@ == v@,
{
    let mut r: Vec<Segment> = Vec::new();
    let mut i: usize = 0;
    while i < v.len()
        invariant
            i <= v.len(),
            r@ == v@.take(i as int),
        decreases v.len() - i,
    {
        r.push(v[i]);
        i = i + 1;
        assert(r@ == v@.take(i as int));
    }
    assert(v@.take(v.len() as int) == v@);
    r
}

/// A candidate as a value: the position reached and the segments so far.
pub type State = (int, Seq<Segment>);

/// The candidates made from `(p, segs)` by the words that start at `p` and end at
/// most at `e`, shortest first.
pub open spec fn word_steps(segs: Seq<Segment>, p: int, e: int, digits: Seq<u8>, d: &Dictionary) -> Seq<State>
    decreases e - p,
{
    if e <= p {
        Seq::empty()
    } else {
        let prev = word_steps(segs, p, e - 1, digits, d);
        if has_word(d, digits.subrange(p, e)) {
            prev.push((e, segs.push(Segment::Word { start: p as usize, end: e as usize })))
        } else {
            prev
        }
    }
}

/// Every candidate that one step makes from `c`: one per word that starts at its
/// position; where there is none, and the last segment is no literal, the next
/// digit as a literal.
#[verifier::opaque]
pub open spec fn children(c: State, digits: Seq<u8>, d: &Dictionary) -> Seq<State> {
    let (p, segs) = c;
    let ws = word_steps(segs, p, digits.len() as int, digits, d);
    if ws.len() > 0 {
        ws
    } else if segs.len() > 0 && segs.last() is Literal {
        Seq::empty()
    } else {
        seq![(p + 1, segs.push(Segment::Literal { pos: p as usize, digit: digits[p] }))]
    }
}

/// The three ways a step can go.
pub proof fn lemma_children_cases(c: State, digits: Seq<u8>, d: &Dictionary)
    ensures
        ({
            let ws = word_steps(c.1, c.0, digits.len() as int, digits, d);
            &&& ws.len() > 0 ==> children(c, digits, d) == ws
            &&& ws.len() == 0 && c.1.len() > 0 && c.1.last() is Literal ==> children(c, digits, d)
                == Seq::<State>::empty()
            &&& ws.len() == 0 && !(c.1.len() > 0 && c.1.last() is Literal) ==> children(c, digits, d)
                == seq![(c.0 + 1, c.1.push(Segment::Literal { pos: c.0 as usize, digit: digits[c.0] }))]
        }),
{
    reveal(children);
}

/// Whether the last child of a step covers every digit.
pub open spec fn completes(ch: Seq<State>, digits: Seq<u8>) -> bool {
    ch.len() > 0 && ch.last().0 == digits.len()
}

/// The work a stack of candidate values still owes.
pub open spec fn state_weight(stack: Seq<State>, n: int) -> nat
    decreases stack.len(),
{
    if stack.len() == 0 {
        0
    } else {
        state_weight(stack.drop_last(), n) + weight((n - stack.last().0) as nat)
    }
}

/// A stack whose candidates all lie before the end.
pub open spec fn states_before_end(stack: Seq<State>, n: int) -> bool {
    forall|i: int| 0 <= i < stack.len() ==> 0 <= (#[trigger] stack[i]).0 < n
}

proof fn lemma_state_weight_append(a: Seq<State>, b: Seq<State>, n: int)
    ensures
        state_weight(a + b, n) == state_weight(a, n) + state_weight(b, n),
    decreases b.len(),
{
    if b.len() == 0 {
        assert(a + b == a);
    } else {
        assert((a + b).drop_last() == a + b.drop_last());
        lemma_state_weight_append(a, b.drop_last(), n);
    }
}

proof fn lemma_word_steps_weight(segs: Seq<Segment>, p: int, e: int, digits: Seq<u8>, d: &Dictionary)
    requires
        0 <= p < e <= digits.len(),
    ensures
        state_weight(word_steps(segs, p, e, digits, d), digits.len() as int) + weight(
            (digits.len() - e) as nat,
        ) <= weight((digits.len() - p) as nat),
        forall|i: int| 0 <= i < word_steps(segs, p, e, digits, d).len() ==> p < (#[trigger] word_steps(segs, p, e, digits, d)[i]).0 <= e,
    decreases e - p,
{
    let n = digits.len() as int;
    let ws = word_steps(segs, p, e, digits, d);
    lemma_weight_step((n - e + 1) as nat);
    if e > p + 1 {
        lemma_word_steps_weight(segs, p, e - 1, digits, d);
    }
    let prev = word_steps(segs, p, e - 1, digits, d);
    if has_word(d, digits.subrange(p, e)) {
        let c = (e, segs.push(Segment::Word { start: p as usize, end: e as usize }));
        assert(prev.push(c).drop_last() == prev);
        assert forall|i: int| 0 <= i < ws.len() implies p < (#[trigger] ws[i]).0 <= e by {
            if i < prev.len() {
                assert(ws[i] == prev[i]);
            }
        }
    }
}

proof fn lemma_children_weight(c: State, digits: Seq<u8>, d: &Dictionary)
    requires
        0 <= c.0 < digits.len(),
    ensures
        state_weight(children(c, digits, d), digits.len() as int) < weight((digits.len() - c.0) as nat),
        forall|i: int| 0 <= i < children(c, digits, d).len() ==> c.0 < (#[trigger] children(c, digits, d)[i]).0 <= digits.len(),
{
    let n = digits.len() as int;
    lemma_word_steps_weight(c.1, c.0, n, digits, d);
    lemma_weight_step((n - c.0) as nat);
    let ch = children(c, digits, d);
    reveal(children);
    if word_steps(c.1, c.0, n, digits, d).len() == 0 && !(c.1.len() > 0 && c.1.last() is Literal) {
        assert(ch.len() == 1);
        assert(ch.drop_last() == Seq::<State>::empty());
        assert(ch.last().0 == c.0 + 1);
        assert(state_weight(ch.drop_last(), n) == 0);
        assert(state_weight(ch, n) == weight((n - c.0 - 1) as nat));
    }
}

/// The candidates of a step that are pushed: all but one that covers every digit.
pub open spec fn pushed(ch: Seq<State>, digits: Seq<u8>) -> Seq<State> {
    if completes(ch, digits) {
        ch.drop_last()
    } else {
        ch
    }
}

/// The complete cuts that a stack of candidates yields, in order: the last one
/// is taken, a cut that one step completes comes out at once, and the others are
/// pushed to be taken next.
pub open spec fn parses_from(stack: Seq<State>, digits: Seq<u8>, d: &Dictionary) -> Seq<Seq<Segment>>
    decreases state_weight(stack, digits.len() as int) via parses_from_decreases
{
    if stack.len() == 0 || !states_before_end(stack, digits.len() as int) {
        Seq::empty()
    } else {
        let ch = children(stack.last(), digits, d);
        let rest = stack.drop_last() + pushed(ch, digits);
        let now: Seq<Seq<Segment>> = if completes(ch, digits) {
            seq![ch.last().1]
        } else {
            Seq::empty()
        };
        now + parses_from(rest, digits, d)
    }
}

proof fn lemma_parses_from_decreases(stack: Seq<State>, digits: Seq<u8>, d: &Dictionary)
    requires
        stack.len() > 0,
        states_before_end(stack, digits.len() as int),
    ensures
        state_weight(stack.drop_last() + pushed(children(stack.last(), digits, d), digits), digits.len() as int)
            < state_weight(stack, digits.len() as int),
{
    let n = digits.len() as int;
    let ch = children(stack.last(), digits, d);
    assert(0 <= stack[stack.len() - 1].0 < n);
    lemma_children_weight(stack.last(), digits, d);
    lemma_state_weight_append(stack.drop_last(), pushed(ch, digits), n);
    if completes(ch, digits) {
        assert(ch.drop_last().push(ch.last()) == ch);
        lemma_state_weight_append(ch.drop_last(), seq![ch.last()], n);
        assert(seq![ch.last()].drop_last() == Seq::<State>::empty());
    }
}

#[via_fn]
proof fn parses_from_decreases(stack: Seq<State>, digits: Seq<u8>, d: &Dictionary) {
    if stack.len() > 0 && states_before_end(stack, digits.len() as int) {
        lemma_parses_from_decreases(stack, digits, d);
    }
}

/// Every complete cut of a digit string, in the order the search yields them.
pub open spec fn all_parses(digits: Seq<u8>, d: &Dictionary) -> Seq<Seq<Segment>> {
    parses_from(seq![(0int, Seq::<Segment>::empty())], digits, d)
}

/// Yields, one at a time, every complete cut of a digit string, exploring the last
/// candidate found first.
pub struct MatchGenerator<'a> {
    digits: &'a Vec<u8>,
    dictionary: &'a Dictionary,
    candidates: Vec<Candidate>,
}

impl<'a> MatchGenerator<'a> {
    /// The digits being cut.
    pub closed spec fn digits_spec(&self) -> Seq<u8> {
        self.digits@
    }

    /// The index the cuts are made against.
    pub closed spec fn dictionary_spec(&self) -> &'a Dictionary {
        self.dictionary
    }

    /// The work still owed; it falls with every cut yielded.
    pub closed spec fn remaining(&self) -> nat {
        total_weight(self.candidates@, self.digits.len() as int)
    }

    /// The candidates waiting, as values; the last is explored next.
    pub closed spec fn stack(&self) -> Seq<State> {
        self.candidates@.map_values(|c: Candidate| (c.position as int, c.segments@))
    }

    /// The cuts still to be yielded, in order.
    pub closed spec fn pending(&self) -> Seq<Seq<Segment>> {
        parses_from(self.stack(), self.digits@, self.dictionary)
    }

    /// Whether no candidate is left to explore.
    pub closed spec fn exhausted(&self) -> bool {
        self.candidates.len() == 0
    }

    pub closed spec fn wf(&self) -> bool {
        &&& self.dictionary.wf()
        &&& forall|i: int|
            0 <= i < self.candidates.len() ==> (#[trigger] self.candidates@[i]).position
                < self.digits.len() && valid_prefix(
                self.candidates@[i].segments@,
                self.candidates@[i].position as int,
                self.digits@,
                self.dictionary,
            )
    }

    /// A search over `number_digits` that starts with nothing covered.
    pub fn new(number_digits: &'a Vec<u8>, dictionary: &'a Dictionary) -> (r: MatchGenerator<'a>)
        requires
            dictionary.wf(),
        ensures
            r.wf(),
            r.digits_spec() == number_digits@,
            r.dictionary_spec() == dictionary,
            r.exhausted() == (number_digits.len() == 0),
            r.pending() == all_parses(number_digits@, dictionary),
    {
        let mut result = MatchGenerator { digits: number_digits, dictionary, candidates: Vec::new() };
        if number_digits.len() > 0 {
            result.candidates.push(Candidate { position: 0, segments: Vec::new() });
        }
        assert(result.stack() =~= seq![(0int, Seq::<Segment>::empty())] || number_digits.len() == 0);
        result
    }

    /// Pushes a candidate for each word that starts at the candidate's position
    /// and ends before the last digit, shortest first; returns the cut a word
    /// reaching the last digit completes.
    #[verifier::spinoff_prover]
    #[verifier::rlimit(60)]
    fn push_words(&mut self, candidate: &Candidate) -> (r: Option<Vec<Segment>>)
        requires
            old(self).wf(),
            candidate.position < old(self).digits.len(),
            valid_prefix(candidate.segments@, candidate.position as int, old(self).digits@, old(self).dictionary),
        ensures
            final(self).wf(),
            final(self).digits == old(self).digits,
            final(self).dictionary == old(self).dictionary,
            ({
                let ws = word_steps(
                    candidate.segments@,
                    candidate.position as int,
                    old(self).digits.len() as int,
                    old(self).digits@,
                    old(self).dictionary,
                );
                &&& r.is_some() == completes(ws, old(self).digits@)
                &&& final(self).stack() == old(self).stack() + pushed(ws, old(self).digits@)
                &&& r.is_some() ==> r.unwrap()@ == ws.last().1 && valid_prefix(
                    r.unwrap()@,
                    old(self).digits.len() as int,
                    old(self).digits@,
                    old(self).dictionary,
                )
                &&& final(self).remaining() < old(self).remaining() + weight(
                    (old(self).digits.len() - candidate.position) as nat,
                )
                &&& ws.len() == 0 ==> final(self).stack() == old(self).stack() && final(self).remaining()
                    == old(self).remaining()
            }),
    {
        let n = self.digits.len();
        let start = candidate.position;
        let ghost segs0 = candidate.segments@;
        let ghost dg = self.digits@;
        let ghost w0 = self.remaining();
        let ghost s0 = self.stack();
        let mut k: usize = 0;
        proof {
            assert(s0 + word_steps(segs0, start as int, start as int, dg, self.dictionary) == s0);
        }
        while k < n - start - 1
            invariant
                self.wf(),
                n == self.digits.len(),
                dg == self.digits@,
                self.digits == old(self).digits,
                self.dictionary == old(self).dictionary,
                w0 == old(self).remaining(),
                s0 == old(self).stack(),
                start == candidate.position,
                segs0 == candidate.segments@,
                start < n,
                k <= n - start - 1,
                valid_prefix(segs0, start as int, dg, self.dictionary),
                self.remaining() + weight((n - start - k) as nat) <= w0 + weight((n - start) as nat),
                self.stack() == s0 + word_steps(segs0, start as int, start + k, dg, self.dictionary),
                word_steps(segs0, start as int, start + k, dg, self.dictionary).len() == 0 ==> self.candidates@
                    == old(self).candidates@,
            decreases n - start - k,
        {
            let e = start + k + 1;
            let ghost prev = self.stack();
            proof {
                lemma_weight_step((n - start - k) as nat);
            }
            let hit = self.dictionary.lookup(self.digits, start, e).is_some();
            assert(hit == has_word(self.dictionary, dg.subrange(start as int, e as int))) by {
                reveal(has_word);
            }
            if hit {
                let mut segs = copy_segments(&candidate.segments);
                let seg = Segment::Word { start, end: e };
                proof {
                    lemma_extend(segs0, start as int, seg, dg, self.dictionary);
                }
                segs.push(seg);
                let next_candidate = Candidate { position: e, segments: segs };
                proof {
                    lemma_total_weight_push(self.candidates@, next_candidate, n as int);
                }
                self.candidates.push(next_candidate);
                assert(self.stack() =~= prev.push((e as int, segs@)));
            }
            k = k + 1;
        }
        let ghost ws = word_steps(segs0, start as int, n as int, dg, self.dictionary);
        let ghost before_last = word_steps(segs0, start as int, n - 1, dg, self.dictionary);
        proof {
            lemma_weight_step((n - start - k) as nat);
            if start + 1 < n {
                lemma_word_steps_weight(segs0, start as int, n - 1, dg, self.dictionary);
            }
        }
        let hit = self.dictionary.lookup(self.digits, start, n).is_some();
        assert(hit == has_word(self.dictionary, dg.subrange(start as int, n as int))) by {
            reveal(has_word);
        }
        if hit {
            let mut segs = copy_segments(&candidate.segments);
            let seg = Segment::Word { start, end: n };
            proof {
                lemma_extend(segs0, start as int, seg, dg, self.dictionary);
                assert(ws == before_last.push((n as int, segs0.push(seg))));
                assert(ws.drop_last() == before_last);
            }
            segs.push(seg);
            return Some(segs);
        }
        proof {
            assert(ws == before_last);
            if ws.len() > 0 {
                assert(ws.last() == ws[ws.len() - 1]);
                assert(ws.last().0 < n);
            }
        }
        None
    }

    /// Explores one candidate: pushes what it leads to, and returns the cut that
    /// it completes, if any.
    #[verifier::spinoff_prover]
    fn explore(&mut self, candidate: Candidate) -> (r: Option<Vec<Segment>>)
        requires
            old(self).wf(),
            candidate.position < old(self).digits.len(),
            valid_prefix(candidate.segments@, candidate.position as int, old(self).digits@, old(self).dictionary),
        ensures
            final(self).wf(),
            final(self).digits == old(self).digits,
            final(self).dictionary == old(self).dictionary,
            ({
                let ch = children(
                    (candidate.position as int, candidate.segments@),
                    old(self).digits@,
                    old(self).dictionary,
                );
                &&& r.is_some() == completes(ch, old(self).digits@)
                &&& final(self).stack() == old(self).stack() + pushed(ch, old(self).digits@)
                &&& r.is_some() ==> r.unwrap()@ == ch.last().1 && is_parse(
                    r.unwrap()@,
                    old(self).digits@,
                    old(self).dictionary,
                )
                &&& final(self).remaining() < old(self).remaining() + weight(
                    (old(self).digits.len() - candidate.position) as nat,
                )
            }),
    {
        let n = self.digits.len();
        let start = candidate.position;
        let ghost segs0 = candidate.segments@;
        let ghost dg = self.digits@;
        let ghost dict = self.dictionary;
        let ghost s0 = self.stack();
        let ghost ch = children((start as int, segs0), dg, dict);
        let ghost ws = word_steps(segs0, start as int, n as int, dg, dict);
        proof {
            lemma_weight_step((n - start) as nat);
            lemma_children_cases((start as int, segs0), dg, dict);
        }
        let before_len = self.candidates.len();
        let found = self.push_words(&candidate);
        if found.is_some() {
            assert(ch == ws);
            return found;
        }
        assert(self.candidates.len() == self.stack().len());
        if self.candidates.len() > before_len {
            assert(ch == ws);
            return None;
        }
        assert(ws.len() == 0);
        let len = candidate.segments.len();
        let last_was_literal = len > 0 && matches!(candidate.segments[len - 1], Segment::Literal { .. });
        if last_was_literal {
            assert(segs0.last() is Literal);
            assert(ch == Seq::<State>::empty());
            assert(pushed(ch, dg) == ch);
            assert(s0 + ch =~= s0);
            return None;
        }
        let ghost lit = ((start + 1) as int, segs0.push(Segment::Literal { pos: start, digit: dg[start as int] }));
        assert(ch == seq![lit]);
        assert(ch.last() == lit);
        let r = self.push_literal(candidate);
        if r.is_some() {
            assert(completes(ch, dg));
            assert(pushed(ch, dg) =~= Seq::<State>::empty());
            assert(s0 + pushed(ch, dg) =~= s0);
        } else {
            assert(!completes(ch, dg));
            assert(self.stack() =~= s0 + ch);
        }
        r
    }

    /// Covers the candidate's next digit by itself; returns the cut if that was
    /// the last digit, else pushes the new candidate.
    fn push_literal(&mut self, candidate: Candidate) -> (r: Option<Vec<Segment>>)
        requires
            old(self).wf(),
            candidate.position < old(self).digits.len(),
            valid_prefix(candidate.segments@, candidate.position as int, old(self).digits@, old(self).dictionary),
            !(candidate.segments@.len() > 0 && candidate.segments@.last() is Literal),
        ensures
            final(self).wf(),
            final(self).digits == old(self).digits,
            final(self).dictionary == old(self).dictionary,
            ({
                let lit = (
                    candidate.position + 1,
                    candidate.segments@.push(
                        Segment::Literal {
                            pos: candidate.position,
                            digit: old(self).digits@[candidate.position as int],
                        },
                    ),
                );
                &&& r.is_some() == (candidate.position + 1 == old(self).digits.len())
                &&& r.is_some() ==> r.unwrap()@ == lit.1 && final(self).stack() == old(self).stack()
                    && valid_prefix(r.unwrap()@, old(self).digits.len() as int, old(self).digits@, old(self).dictionary)
                &&& r.is_none() ==> final(self).stack() == old(self).stack().push(lit)
                &&& final(self).remaining() < old(self).remaining() + weight(
                    (old(self).digits.len() - candidate.position) as nat,
                )
            }),
    {
        let n = self.digits.len();
        let start = candidate.position;
        let ghost segs0 = candidate.segments@;
        let ghost s0 = self.stack();
        let mut segs = candidate.segments;
        let seg = Segment::Literal { pos: start, digit: self.digits[start] };
        proof {
            lemma_extend(segs0, start as int, seg, self.digits@, self.dictionary);
            lemma_weight_step((n - start) as nat);
        }
        segs.push(seg);
        if start + 1 == n {
            return Some(segs);
        }
        let next_candidate = Candidate { position: start + 1, segments: segs };
        proof {
            lemma_total_weight_push(self.candidates@, next_candidate, n as int);
        }
        self.candidates.push(next_candidate);
        assert(self.stack() =~= s0.push(((start + 1) as int, segs@)));
        None
    }

    /// The next complete cut, or `None` once the search is over.
    pub fn next(&mut self) -> (r: Option<Vec<Segment>>)
        requires
            old(self).wf(),
        ensures
            final(self).wf(),
            final(self).digits_spec() == old(self).digits_spec(),
            final(self).dictionary_spec() == old(self).dictionary_spec(),
            r.is_some() ==> is_parse(r.unwrap()@, final(self).digits_spec(), final(self).dictionary_spec()),
            r.is_some() ==> final(self).remaining() < old(self).remaining(),
            r.is_none() ==> final(self).exhausted(),
            r.is_some() ==> old(self).pending() == seq![r.unwrap()@] + final(self).pending(),
            r.is_none() ==> old(self).pending() == Seq::<Seq<Segment>>::empty(),
            r.is_none() ==> final(self).pending() == Seq::<Seq<Segment>>::empty(),
    {
        let n = self.digits.len();
        while self.candidates.len() > 0
            invariant
                self.wf(),
                n == self.digits.len(),
                self.digits@ == old(self).digits_spec(),
                self.dictionary == old(self).dictionary_spec(),
                self.remaining() <= old(self).remaining(),
                self.pending() == old(self).pending(),
            decreases self.remaining(),
        {
            let ghost before = self.candidates@;
            let ghost before_stack = self.stack();
            let candidate = self.candidates.pop().unwrap();
            let ghost rest = self.stack();
            let ghost cv: State = (candidate.position as int, candidate.segments@);
            let ghost ch = children(cv, self.digits@, self.dictionary);
            proof {
                assert(before == self.candidates@.push(candidate));
                lemma_total_weight_push(self.candidates@, candidate, n as int);
                assert(valid_prefix(candidate.segments@, candidate.position as int, self.digits@, self.dictionary));
                assert(rest =~= before_stack.drop_last());
                assert(cv == before_stack.last());
                assert(states_before_end(before_stack, n as int)) by {
                    assert forall|i: int| 0 <= i < before_stack.len() implies 0 <= (#[trigger] before_stack[i]).0 < n by {
                        assert(before[i].position < n);
                    }
                }
            }
            let found = self.explore(candidate);
            proof {
                assert(old(self).pending() == (if completes(ch, self.digits@) { seq![ch.last().1] } else {
                    Seq::<Seq<Segment>>::empty()
                }) + parses_from(rest + pushed(ch, self.digits@), self.digits@, self.dictionary));
            }
            if found.is_some() {
                return found;
            }
            assert(old(self).pending() == self.pending());
        }
        proof {
            assert(self.stack().len() == 0);
        }
        None
    }
}

} // verus!
