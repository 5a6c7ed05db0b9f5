//! Every choice of one word per segment, counted like an odometer: the rightmost
//! segment turns fastest, and a segment that runs past its last word goes back to
//! its first and moves the one on its left by one.

use vstd::prelude::*;
use vstd::arithmetic::div_mod::lemma_fundamental_div_mod_converse;
use crate::dictionary::texts;

verus! {

/// The number of choices: the product of the group sizes.
pub open spec fn product(sizes: Seq<nat>) -> nat
    decreases sizes.len(),
{
    if sizes.len() == 0 {
        1
    } else {
        product(sizes.drop_last()) * sizes.last()
    }
}

/// The `t`-th choice, counting from zero: `t` written in the mixed radix of the
/// sizes, most significant place first.
pub open spec fn choice_of(sizes: Seq<nat>, t: nat) -> Seq<nat>
    decreases sizes.len(),
{
    if sizes.len() == 0 {
        Seq::empty()
    } else {
        choice_of(sizes.drop_last(), t / sizes.last()).push(t % sizes.last())
    }
}

/// One turn of the odometer: the new positions, and whether the leftmost place
/// ran past its end.
pub open spec fn bump(c: Seq<nat>, sizes: Seq<nat>) -> (Seq<nat>, bool)
    decreases c.len(),
{
    if c.len() == 0 || sizes.len() == 0 {
        (c, true)
    } else if c.last() + 1 < sizes.last() {
        (c.drop_last().push((c.last() + 1) as nat), false)
    } else {
        let (r, w) = bump(c.drop_last(), sizes.drop_last());
        (r.push(0), w)
    }
}

/// All sizes are positive.
pub open spec fn all_positive(sizes: Seq<nat>) -> bool {
    forall|i: int| 0 <= i < sizes.len() ==> #[trigger] sizes[i] > 0
}

/// A place of a choice never reaches its size.
pub proof fn lemma_choice_in_range(sizes: Seq<nat>, t: nat)
    requires
        all_positive(sizes),
    ensures
        choice_of(sizes, t).len() == sizes.len(),
        forall|j: int| 0 <= j < sizes.len() ==> #[trigger] choice_of(sizes, t)[j] < sizes[j],
    decreases sizes.len(),
{
    if sizes.len() > 0 {
        let s = sizes.drop_last();
        assert(all_positive(s)) by {
            assert forall|i: int| 0 <= i < s.len() implies #[trigger] s[i] > 0 by {
                assert(s[i] == sizes[i]);
            }
        }
        assert(sizes.last() == sizes[sizes.len() - 1]);
        lemma_choice_in_range(s, t / sizes.last());
        let c = choice_of(sizes, t);
        assert forall|j: int| 0 <= j < sizes.len() implies #[trigger] c[j] < sizes[j] by {
            if j < sizes.len() - 1 {
                assert(c[j] == choice_of(s, t / sizes.last())[j]);
                assert(sizes[j] == s[j]);
            }
        }
    }
}

/// Turning the odometer once takes choice `t` to choice `t + 1`, and runs past
/// the leftmost place exactly when `t + 1` is the number of choices.
pub proof fn lemma_bump_counts(sizes: Seq<nat>, t: nat)
    requires
        all_positive(sizes),
        t < product(sizes),
    ensures
        bump(choice_of(sizes, t), sizes) == (choice_of(sizes, t + 1), t + 1 == product(sizes)),
    decreases sizes.len(),
{
    if sizes.len() == 0 {
        assert(choice_of(sizes, t) == Seq::<nat>::empty());
    } else {
        let s = sizes.drop_last();
        let g = sizes.last();
        assert(g == sizes[sizes.len() - 1]);
        assert(g > 0);
        assert(all_positive(s)) by {
            assert forall|i: int| 0 <= i < s.len() implies #[trigger] s[i] > 0 by {
                assert(s[i] == sizes[i]);
            }
        }
        let q = t / g;
        let r = t % g;
        let p = product(s);
        assert(t == q * g + r && 0 <= r < g) by (nonlinear_arith)
            requires q == t / g, r == t % g, g > 0;
        assert(q < p) by (nonlinear_arith)
            requires t == q * g + r, 0 <= r, t < p * g, g > 0;
        let c = choice_of(sizes, t);
        assert(c.drop_last() == choice_of(s, q));
        assert(c.last() == r);
        if r + 1 < g {
            lemma_fundamental_div_mod_converse((t + 1) as int, g as int, q as int, (r + 1) as int);
            assert(t + 1 < p * g) by (nonlinear_arith)
                requires t + 1 == q * g + r + 1, r + 1 < g, q < p, g > 0, q >= 0;
        } else {
            assert(t + 1 == (q + 1) * g) by (nonlinear_arith)
                requires t == q * g + r, r + 1 == g;
            lemma_fundamental_div_mod_converse((t + 1) as int, g as int, (q + 1) as int, 0);
            assert((t + 1 == p * g) == (q + 1 == p)) by (nonlinear_arith)
                requires t + 1 == (q + 1) * g, g > 0;
            lemma_bump_counts(s, q);
        }
    }
}

/// Different counts give different choices: no line of a cut is written twice.
pub proof fn lemma_choices_distinct(sizes: Seq<nat>, t1: nat, t2: nat)
    requires
        all_positive(sizes),
        t1 < product(sizes),
        t2 < product(sizes),
        t1 != t2,
    ensures
        choice_of(sizes, t1) != choice_of(sizes, t2),
    decreases sizes.len(),
{
    if sizes.len() == 0 {
        assert(product(sizes) == 1);
    } else {
        let s = sizes.drop_last();
        let g = sizes.last();
        assert(g == sizes[sizes.len() - 1]);
        assert(all_positive(s)) by {
            assert forall|i: int| 0 <= i < s.len() implies #[trigger] s[i] > 0 by {
                assert(s[i] == sizes[i]);
            }
        }
        let p = product(s);
        if choice_of(sizes, t1) == choice_of(sizes, t2) {
            assert(choice_of(sizes, t1).last() == t1 % g);
            assert(choice_of(sizes, t2).last() == t2 % g);
            assert(choice_of(sizes, t1).drop_last() == choice_of(s, t1 / g));
            assert(choice_of(sizes, t2).drop_last() == choice_of(s, t2 / g));
            assert(t1 / g < p && t2 / g < p && t1 == (t1 / g) * g + t1 % g && t2 == (t2 / g) * g + t2 % g)
                by (nonlinear_arith)
                requires t1 < p * g, t2 < p * g, g > 0;
            if t1 / g != t2 / g {
                lemma_choices_distinct(s, t1 / g, t2 / g);
            }
        }
    }
}

/// The texts of each group of words.
pub open spec fn group_texts(groups: Seq<Vec<String>>) -> Seq<Seq<Seq<char>>> {
    groups.map_values(|g: Vec<String>| texts(g@))
}

/// The size of each group.
pub open spec fn sizes_of(groups: Seq<Seq<Seq<char>>>) -> Seq<nat> {
    groups.map_values(|g: Seq<Seq<char>>| g.len())
}

/// The chosen words, each after a space.
pub open spec fn picked(groups: Seq<Seq<Seq<char>>>, choice: Seq<nat>) -> Seq<char>
    decreases choice.len(),
{
    if groups.len() == 0 || choice.len() == 0 {
        Seq::empty()
    } else {
        picked(groups.drop_last(), choice.drop_last()) + seq![' '] + groups.last()[choice.last() as int]
    }
}

/// One output line: the number as it was given, a colon, then the chosen words.
pub open spec fn render(number: Seq<char>, groups: Seq<Seq<Seq<char>>>, choice: Seq<nat>) -> Seq<char> {
    number + seq![':'] + picked(groups, choice)
}

/// One place of the odometer: a group of words and the one now chosen.
pub struct ExpansionNode {
    words: Vec<String>,
    next_idx: usize,
    just_wrapped: bool,
}

impl ExpansionNode {
    /// The words of the group.
    pub closed spec fn choices(&self) -> Seq<Seq<char>> {
        texts(self.words@)
    }

    /// Which word is chosen.
    pub closed spec fn index(&self) -> nat {
        self.next_idx as nat
    }

    /// Whether the last turn ran past the last word.
    pub closed spec fn wrapped(&self) -> bool {
        self.just_wrapped
    }

    pub open spec fn wf(&self) -> bool {
        self.index() < self.choices().len()
    }

    /// A place on the first word of a non-empty group.
    pub fn new(words: Vec<String>) -> (r: ExpansionNode)
        requires
            words.len() > 0,
        ensures
            r.wf(),
            r.choices() == texts(words@),
            r.index() == 0,
            !r.wrapped(),
    {
        ExpansionNode { words, next_idx: 0, just_wrapped: false }
    }

    /// The word now chosen.
    pub fn value(&self) -> (r: &str)
        requires
            self.wf(),
        ensures
            r@ == self.choices()[self.index() as int],
    {
        self.words[self.next_idx].as_str()
    }

    /// Moves to the next word, or back to the first after the last one; says
    /// whether it went back.
    pub fn increment(&mut self) -> (r: bool)
        requires
            old(self).wf(),
        ensures
            final(self).wf(),
            final(self).choices() == old(self).choices(),
            r == (old(self).index() + 1 == old(self).choices().len()),
            final(self).index() == if r { 0 } else { old(self).index() + 1 },
            final(self).wrapped() == r,
    {
        assert(self.choices().len() == self.words.len());
        self.next_idx += 1;
        if self.next_idx == self.words.len() {
            self.next_idx = 0;
            self.just_wrapped = true;
            true
        } else {
            self.just_wrapped = false;
            false
        }
    }
}

/// The chosen position of each place.
pub open spec fn indices(nodes: Seq<ExpansionNode>) -> Seq<nat> {
    nodes.map_values(|n: ExpansionNode| n.index())
}

/// The words of each place.
pub open spec fn node_choices(nodes: Seq<ExpansionNode>) -> Seq<Seq<Seq<char>>> {
    nodes.map_values(|n: ExpansionNode| n.choices())
}

/// Every place is on one of its words.
pub open spec fn all_wf(nodes: Seq<ExpansionNode>) -> bool {
    forall|i: int| 0 <= i < nodes.len() ==> (#[trigger] nodes[i]).wf()
}

/// Turns the places before `j` once, from the right; says whether the leftmost ran
/// past its end.
fn advance(nodes: &mut Vec<ExpansionNode>, j: usize) -> (carry: bool)
    requires
        j <= old(nodes).len(),
        all_wf(old(nodes)@),
    ensures
        final(nodes).len() == old(nodes).len(),
        all_wf(final(nodes)@),
        node_choices(final(nodes)@) == node_choices(old(nodes)@),
        indices(final(nodes)@) == bump(
            indices(old(nodes)@).take(j as int),
            sizes_of(node_choices(old(nodes)@)).take(j as int),
        ).0 + indices(old(nodes)@).skip(j as int),
        carry == bump(
            indices(old(nodes)@).take(j as int),
            sizes_of(node_choices(old(nodes)@)).take(j as int),
        ).1,
    decreases j,
{
    let ghost c = indices(nodes@);
    let ghost sz = sizes_of(node_choices(nodes@));
    if j == 0 {
        assert(c.take(0) == Seq::<nat>::empty());
        assert(c.skip(0) == c);
        return true;
    }
    let mut node = ExpansionNode { words: Vec::new(), next_idx: 0, just_wrapped: false };
    nodes.set_and_swap(j - 1, &mut node);
    let wrapped = node.increment();
    nodes.set(j - 1, node);
    let ghost mid = nodes@;
    assert(c.take(j as int).drop_last() == c.take(j - 1));
    assert(sz.take(j as int).drop_last() == sz.take(j - 1));
    assert(c.take(j as int).last() == c[j - 1]);
    assert(sz.take(j as int).last() == sz[j - 1]);
    assert(all_wf(mid)) by {
        assert forall|i: int| 0 <= i < mid.len() implies (#[trigger] mid[i]).wf() by {
            if i != j - 1 {
                assert(mid[i] == old(nodes)@[i]);
            }
        }
    }
    assert(node_choices(mid) == node_choices(old(nodes)@));
    if !wrapped {
        assert(indices(mid) == c.take(j - 1).push((c[j - 1] + 1) as nat) + c.skip(j as int));
        return false;
    }
    assert(indices(mid).take(j - 1) == c.take(j - 1));
    assert(indices(mid).skip(j - 1) == seq![0nat] + c.skip(j as int));
    let carry = advance(nodes, j - 1);
    let ghost r = bump(c.take(j - 1), sz.take(j - 1)).0;
    assert(indices(nodes@) == r.push(0) + c.skip(j as int));
    carry
}

/// The first choice puts every place on its first word.
proof fn lemma_choice_zero(sizes: Seq<nat>)
    requires
        all_positive(sizes),
    ensures
        choice_of(sizes, 0) == Seq::new(sizes.len(), |i: int| 0nat),
    decreases sizes.len(),
{
    if sizes.len() > 0 {
        let s = sizes.drop_last();
        assert(sizes.last() == sizes[sizes.len() - 1]);
        assert(all_positive(s)) by {
            assert forall|i: int| 0 <= i < s.len() implies #[trigger] s[i] > 0 by {
                assert(s[i] == sizes[i]);
            }
        }
        lemma_choice_zero(s);
        assert(choice_of(sizes, 0) == Seq::new(sizes.len(), |i: int| 0nat));
    }
}

/// With positive sizes there is at least one choice.
proof fn lemma_product_positive(sizes: Seq<nat>)
    requires
        all_positive(sizes),
    ensures
        product(sizes) > 0,
    decreases sizes.len(),
{
    if sizes.len() > 0 {
        let s = sizes.drop_last();
        assert(sizes.last() == sizes[sizes.len() - 1]);
        assert(all_positive(s)) by {
            assert forall|i: int| 0 <= i < s.len() implies #[trigger] s[i] > 0 by {
                assert(s[i] == sizes[i]);
            }
        }
        lemma_product_positive(s);
        assert(product(s) * sizes.last() > 0) by (nonlinear_arith)
            requires product(s) > 0, sizes.last() > 0;
    }
}

/// The line for the choice the places now stand on.
fn render_line(number: &str, nodes: &Vec<ExpansionNode>) -> (line: String)
    requires
        all_wf(nodes@),
    ensures
        line@ == render(number@, node_choices(nodes@), indices(nodes@)),
{
    let ghost g = node_choices(nodes@);
    let ghost c = indices(nodes@);
    let mut line = String::new();
    line.append(number);
    proof {
        reveal_strlit(":");
        reveal_strlit(" ");
    }
    line.append(":");
    assert(":"@ =~= seq![':']);
    let mut i: usize = 0;
    while i < nodes.len()
        invariant
            all_wf(nodes@),
            g == node_choices(nodes@),
            c == indices(nodes@),
            i <= nodes.len(),
            line@ == number@ + seq![':'] + picked(g.take(i as int), c.take(i as int)),
        decreases nodes.len() - i,
    {
        let ghost before = line@;
        line.append(" ");
        proof {
            reveal_strlit(" ");
        }
        assert(" "@ =~= seq![' ']);
        assert(nodes@[i as int].wf());
        let w = nodes[i].value();
        line.append(w);
        assert(line@ == before + seq![' '] + w@);
        assert(g.take(i + 1).drop_last() == g.take(i as int));
        assert(c.take(i + 1).drop_last() == c.take(i as int));
        assert(g.take(i + 1).last() == g[i as int]);
        assert(c.take(i + 1).last() == c[i as int]);
        assert(nodes@[i as int].choices() == g[i as int]);
        assert(nodes@[i as int].index() == c[i as int]);
        assert(w@ == g[i as int][c[i as int] as int]);
        assert(picked(g.take(i + 1), c.take(i + 1)) == picked(g.take(i as int), c.take(i as int)) + seq![' '] + g[i as int][c[i as int] as int]);
        assert(line@ =~= number@ + seq![':'] + picked(g.take(i + 1), c.take(i + 1)));
        i = i + 1;
    }
    assert(g.take(nodes.len() as int) == g);
    assert(c.take(nodes.len() as int) == c);
    line
}

/// Every output line of one cut: for each choice of one word per group, in the
/// odometer's order, the number, a colon, and the chosen words.
pub fn expansion_lines(number: &str, words: Vec<Vec<String>>) -> (lines: Vec<String>)
    requires
        words.len() > 0,
        forall|j: int| 0 <= j < words.len() ==> (#[trigger] words@[j]).len() > 0,
    ensures
        lines.len() == product(sizes_of(group_texts(words@))),
        forall|t: int|
            0 <= t < lines.len() ==> (#[trigger] lines@[t])@ == render(
                number@,
                group_texts(words@),
                choice_of(sizes_of(group_texts(words@)), t as nat),
            ),
{
    let ghost groups = group_texts(words@);
    let ghost sizes = sizes_of(groups);
    let mut words = words;
    let mut nodes: Vec<ExpansionNode> = Vec::new();
    let mut i: usize = 0;
    while i < words.len()
        invariant
            i <= words.len(),
            words.len() == groups.len(),
            forall|j: int| i <= j < words.len() ==> (#[trigger] words@[j]).len() > 0
                && texts(words@[j]@) == groups[j],
            nodes.len() == i,
            all_wf(nodes@),
            node_choices(nodes@) == groups.take(i as int),
            indices(nodes@) == Seq::new(i as nat, |k: int| 0nat),
        decreases words.len() - i,
    {
        let mut g: Vec<String> = Vec::new();
        words.set_and_swap(i, &mut g);
        let node = ExpansionNode::new(g);
        let ghost prev = nodes@;
        nodes.push(node);
        assert(nodes@ == prev.push(node));
        assert forall|j: int| i + 1 <= j < words.len() implies (#[trigger] words@[j]).len() > 0
            && texts(words@[j]@) == groups[j] by {}
        assert(node_choices(nodes@) == groups.take(i + 1));
        assert(indices(nodes@) =~= Seq::new((i + 1) as nat, |k: int| 0nat)) by {
            assert forall|k: int| 0 <= k < i + 1 implies #[trigger] indices(nodes@)[k] == 0nat by {
                if k < i {
                    assert(nodes@[k] == prev[k]);
                    assert(indices(prev)[k] == 0nat);
                }
            }
        }
        i = i + 1;
    }
    assert(groups.take(i as int) == groups);
    assert(all_positive(sizes)) by {
        assert forall|j: int| 0 <= j < sizes.len() implies #[trigger] sizes[j] > 0 by {
            assert(nodes@[j].wf());
            assert(node_choices(nodes@)[j] == groups[j]);
        }
    }
    proof {
        lemma_choice_zero(sizes);
        lemma_product_positive(sizes);
    }
    let mut lines: Vec<String> = Vec::new();
    let ghost mut t: nat = 0;
    let mut done = false;
    while !done
        invariant
            all_wf(nodes@),
            all_positive(sizes),
            sizes == sizes_of(groups),
            node_choices(nodes@) == groups,
            nodes.len() == groups.len(),
            t <= product(sizes),
            !done ==> t < product(sizes) && indices(nodes@) == choice_of(sizes, t),
            done ==> t == product(sizes),
            lines.len() == t,
            forall|u: int|
                0 <= u < t ==> (#[trigger] lines@[u])@ == render(number@, groups, choice_of(sizes, u as nat)),
        decreases product(sizes) - t,
    {
        let line = render_line(number, &nodes);
        lines.push(line);
        let n = nodes.len();
        let ghost before = indices(nodes@);
        let carry = advance(&mut nodes, n);
        proof {
            lemma_bump_counts(sizes, t);
            assert(before.take(n as int) == before);
            assert(sizes_of(groups).take(n as int) == sizes);
            lemma_choice_in_range(sizes, t + 1);
            assert(indices(nodes@) == choice_of(sizes, t + 1));
            t = t + 1;
        }
        done = carry;
    }
    lines
}

} // verus!
