//! From a reading back to the phrase: whatever a rule of the grammar
//! reads is a text that spells a phrase of the rule's level.
use vstd::prelude::*;
use crate::grammar::{
    atom, boolean, branches, conditional, keyword, number, sentence, sum, symbol,
    lemma_rules_advance, lemma_symbol_advances,
};
use crate::phrase::{
    is_layout, numeral_text, spell, spells, weave, Phrase, lemma_choice_text,
    lemma_group_text, lemma_levels, lemma_sum_text, lemma_weave_one,
};
use crate::term::Term;
use crate::text::{
    all_blank, digit_count, is_blank, leading_blanks, skip_blanks, lemma_blanks_join,
    lemma_digit_count, lemma_leading_blanks,
};
use crate::theorems::{lemma_rest_is_trimmed, lemma_spelling_parses};

verus! {

/// The text `s` begins with a spelling of `x`, which stands for `term`,
/// and goes on with `rest`.
pub open spec fn derives(
    s: Seq<char>,
    x: Phrase,
    lead: Seq<char>,
    gaps: Seq<Seq<char>>,
    term: Term,
    rest: Seq<char>,
) -> bool {
    &&& all_blank(lead)
    &&& is_layout(gaps, x.tokens().len())
    &&& s == spell(lead, x.tokens(), gaps) + rest
    &&& x.meaning() == term
}

/// The blanks before a symbol and after it.
proof fn lemma_symbol_parts(s: Seq<char>, c: char) -> (parts: (Seq<char>, Seq<char>))
    requires
        symbol(s, c) is Some,
    ensures
        parts.0 == leading_blanks(s),
        all_blank(parts.0),
        all_blank(parts.1),
        s == parts.0 + seq![c] + parts.1 + symbol(s, c).unwrap(),
{
    let start = skip_blanks(s);
    let behind = start.skip(1);
    lemma_leading_blanks(s);
    lemma_leading_blanks(behind);
    let lead = leading_blanks(s);
    let gap = leading_blanks(behind);
    assert(start =~= seq![c] + behind);
    assert(s =~= lead + seq![c] + gap + symbol(s, c).unwrap());
    (lead, gap)
}

/// The blanks before a keyword and after it.
proof fn lemma_keyword_parts(s: Seq<char>, word: Seq<char>) -> (parts: (Seq<char>, Seq<char>))
    requires
        keyword(s, word) is Some,
    ensures
        all_blank(parts.0),
        all_blank(parts.1),
        s == parts.0 + (word + parts.1) + keyword(s, word).unwrap(),
{
    let start = skip_blanks(s);
    let behind = start.skip(word.len() as int);
    lemma_leading_blanks(s);
    lemma_leading_blanks(behind);
    let lead = leading_blanks(s);
    let gap = leading_blanks(behind);
    assert(start.subrange(0, word.len() as int) + behind =~= start);
    assert(s =~= lead + (word + gap) + keyword(s, word).unwrap());
    (lead, gap)
}

/// A number that was read is a literal with blanks around it.
proof fn lemma_number_derivation(s: Seq<char>) -> (found: (Phrase, Seq<char>, Seq<Seq<char>>))
    requires
        number(s) is Some,
    ensures
        found.0.is_atom(),
        derives(s, found.0, found.1, found.2, number(s).unwrap().0, number(s).unwrap().1),
{
    let start = skip_blanks(s);
    let negative = start.len() > 0 && start[0] == '-';
    let body = if negative {
        start.skip(1)
    } else {
        start
    };
    let count = digit_count(body) as int;
    let digits = body.take(count);
    let behind = body.skip(count);
    lemma_digit_count(body);
    lemma_leading_blanks(s);
    lemma_leading_blanks(behind);
    let lead = leading_blanks(s);
    let gap = leading_blanks(behind);
    let x = Phrase::Numeral { negative, digits };
    lemma_weave_one(numeral_text(negative, digits), seq![gap]);
    assert(body =~= digits + behind);
    assert(start =~= numeral_text(negative, digits) + behind);
    assert(s =~= spell(lead, x.tokens(), seq![gap]) + number(s).unwrap().1);
    (x, lead, seq![gap])
}

/// A boolean that was read is its word with blanks around it.
proof fn lemma_boolean_derivation(s: Seq<char>) -> (found: (Phrase, Seq<char>, Seq<Seq<char>>))
    requires
        boolean(s) is Some,
    ensures
        found.0.is_atom(),
        derives(s, found.0, found.1, found.2, boolean(s).unwrap().0, boolean(s).unwrap().1),
{
    if keyword(s, "true"@) is Some {
        let (lead, gap) = lemma_keyword_parts(s, "true"@);
        lemma_weave_one("true"@, seq![gap]);
        (Phrase::True, lead, seq![gap])
    } else {
        let (lead, gap) = lemma_keyword_parts(s, "false"@);
        lemma_weave_one("false"@, seq![gap]);
        (Phrase::False, lead, seq![gap])
    }
}

/// An atom that was read spells an atom.
pub proof fn lemma_atom_derivation(s: Seq<char>) -> (found: (Phrase, Seq<char>, Seq<Seq<char>>))
    requires
        atom(s) is Some,
    ensures
        found.0.is_atom(),
        derives(s, found.0, found.1, found.2, atom(s).unwrap().0, atom(s).unwrap().1),
    decreases s.len(), 0nat,
{
    if number(s) is Some {
        lemma_number_derivation(s)
    } else if boolean(s) is Some {
        lemma_boolean_derivation(s)
    } else {
        let inside = symbol(s, '(').unwrap();
        let (lead, before) = lemma_symbol_parts(s, '(');
        let (inner, inner_lead, inner_gaps) = lemma_conditional_derivation(inside);
        let rest = conditional(inside).unwrap().1;
        lemma_rest_is_trimmed(inside);
        let (none, behind) = lemma_symbol_parts(rest, ')');
        lemma_leading_blanks(rest);
        let after = symbol(rest, ')').unwrap();
        let x = Phrase::Group { inner: Box::new(inner) };
        let first_gap = before + inner_lead;
        let gaps = seq![first_gap] + inner_gaps + seq![behind];
        lemma_blanks_join(before, inner_lead);
        lemma_group_text(inner, first_gap, inner_gaps, behind);
        let woven = weave(inner.tokens(), inner_gaps);
        assert(weave(x.tokens(), gaps) == seq!['('] + first_gap + woven + (seq![')'] + behind));
        assert(inside == inner_lead + woven + rest);
        assert(rest =~= seq![')'] + behind + after);
        assert(s =~= lead + (seq!['('] + first_gap + woven + (seq![')'] + behind)) + after);
        (x, lead, gaps)
    }
}

/// A sum that was read spells a sum.
pub proof fn lemma_sum_derivation(s: Seq<char>) -> (found: (Phrase, Seq<char>, Seq<Seq<char>>))
    requires
        sum(s) is Some,
    ensures
        found.0.is_sum(),
        derives(s, found.0, found.1, found.2, sum(s).unwrap().0, sum(s).unwrap().1),
    decreases s.len(), 1nat,
{
    let (left, lead, left_gaps) = lemma_atom_derivation(s);
    let rest = atom(s).unwrap().1;
    lemma_rules_advance(s);
    lemma_symbol_advances(rest, '+');
    lemma_levels(left);
    if symbol(rest, '+') is Some && sum(symbol(rest, '+').unwrap()) is Some {
        let after = symbol(rest, '+').unwrap();
        lemma_rest_is_trimmed(s);
        let (none, behind) = lemma_symbol_parts(rest, '+');
        lemma_leading_blanks(rest);
        let (right, right_lead, right_gaps) = lemma_sum_derivation(after);
        let end = sum(after).unwrap().1;
        let x = Phrase::Sum { left: Box::new(left), right: Box::new(right) };
        let gap = behind + right_lead;
        let gaps = left_gaps + seq![gap] + right_gaps;
        lemma_blanks_join(behind, right_lead);
        lemma_sum_text(left, right, left_gaps, gap, right_gaps);
        let before = weave(left.tokens(), left_gaps);
        let woven = weave(right.tokens(), right_gaps);
        assert(weave(x.tokens(), gaps) == before + (seq!['+'] + gap) + woven);
        assert(rest =~= seq!['+'] + behind + after);
        assert(after == right_lead + woven + end);
        assert(s =~= lead + (before + (seq!['+'] + gap) + woven) + end);
        (x, lead, gaps)
    } else {
        (left, lead, left_gaps)
    }
}

/// The two branches that were read after a condition: their phrases, and
/// the gap and the layout of each.
pub struct Branches {
    pub consequent: Phrase,
    pub first_gap: Seq<char>,
    pub consequent_gaps: Seq<Seq<char>>,
    pub alternative: Phrase,
    pub second_gap: Seq<char>,
    pub alternative_gaps: Seq<Seq<char>>,
}

impl Branches {
    /// The text of the branches: `?`, the consequent, `:` and the
    /// alternative, each token followed by its gap.
    pub open spec fn text(self) -> Seq<char> {
        seq!['?'] + self.first_gap + weave(self.consequent.tokens(), self.consequent_gaps)
            + seq![':'] + self.second_gap + weave(self.alternative.tokens(), self.alternative_gaps)
    }

    /// Both branches are conditionals, and the gaps are blanks.
    pub open spec fn well_formed(self) -> bool {
        &&& self.consequent.is_conditional()
        &&& self.alternative.is_conditional()
        &&& all_blank(self.first_gap)
        &&& all_blank(self.second_gap)
        &&& is_layout(self.consequent_gaps, self.consequent.tokens().len())
        &&& is_layout(self.alternative_gaps, self.alternative.tokens().len())
    }
}

/// Two branches that were read spell two conditionals.
pub proof fn lemma_branches_derivation(s: Seq<char>, bound: nat) -> (found: Branches)
    requires
        branches(s, bound) is Some,
        s.len() < bound,
        s.len() == 0 || !is_blank(s[0]),
    ensures
        found.well_formed(),
        s == found.text() + branches(s, bound).unwrap().2,
        found.consequent.meaning() == branches(s, bound).unwrap().0,
        found.alternative.meaning() == branches(s, bound).unwrap().1,
    decreases bound, 0nat,
{
    let first = symbol(s, '?').unwrap();
    lemma_symbol_advances(s, '?');
    let (none, first_behind) = lemma_symbol_parts(s, '?');
    lemma_leading_blanks(s);
    let (consequent, consequent_lead, consequent_gaps) = lemma_conditional_derivation(first);
    let middle = conditional(first).unwrap().1;
    lemma_rules_advance(first);
    lemma_rest_is_trimmed(first);
    let second = symbol(middle, ':').unwrap();
    lemma_symbol_advances(middle, ':');
    let (nothing, second_behind) = lemma_symbol_parts(middle, ':');
    lemma_leading_blanks(middle);
    let (alternative, alternative_lead, alternative_gaps) = lemma_conditional_derivation(second);
    let end = conditional(second).unwrap().1;
    lemma_blanks_join(first_behind, consequent_lead);
    lemma_blanks_join(second_behind, alternative_lead);
    let found = Branches {
        consequent,
        first_gap: first_behind + consequent_lead,
        consequent_gaps,
        alternative,
        second_gap: second_behind + alternative_lead,
        alternative_gaps,
    };
    let taken = weave(consequent.tokens(), consequent_gaps);
    let other = weave(alternative.tokens(), alternative_gaps);
    assert(s =~= seq!['?'] + first_behind + first);
    assert(first == consequent_lead + taken + middle);
    assert(middle =~= seq![':'] + second_behind + second);
    assert(second == alternative_lead + other + end);
    assert(s =~= found.text() + end);
    found
}

/// A conditional that was read spells a conditional.
pub proof fn lemma_conditional_derivation(s: Seq<char>) -> (found: (
    Phrase,
    Seq<char>,
    Seq<Seq<char>>,
))
    requires
        conditional(s) is Some,
    ensures
        found.0.is_conditional(),
        derives(s, found.0, found.1, found.2, conditional(s).unwrap().0, conditional(s).unwrap().1),
    decreases s.len(), 2nat,
{
    let (condition, lead, condition_gaps) = lemma_sum_derivation(s);
    let rest = sum(s).unwrap().1;
    lemma_rules_advance(s);
    lemma_levels(condition);
    if branches(rest, s.len()) is Some {
        lemma_rest_is_trimmed(s);
        let found = lemma_branches_derivation(rest, s.len());
        let end = branches(rest, s.len()).unwrap().2;
        let x = Phrase::Choice {
            condition: Box::new(condition),
            consequent: Box::new(found.consequent),
            alternative: Box::new(found.alternative),
        };
        let gaps = condition_gaps + seq![found.first_gap] + found.consequent_gaps
            + seq![found.second_gap] + found.alternative_gaps;
        lemma_choice_text(
            condition,
            found.consequent,
            found.alternative,
            condition_gaps,
            found.first_gap,
            found.consequent_gaps,
            found.second_gap,
            found.alternative_gaps,
        );
        assert(s =~= spell(lead, x.tokens(), gaps) + end);
        (x, lead, gaps)
    } else {
        (condition, lead, condition_gaps)
    }
}

/// Nothing parses but the texts of the language: a text that is a
/// sentence spells a conditional phrase, and the term that it parses to is
/// what that phrase stands for.
pub proof fn lemma_sentence_is_spelled(s: Seq<char>)
    requires
        sentence(s) is Some,
    ensures
        exists|x: Phrase, lead: Seq<char>, gaps: Seq<Seq<char>>| #[trigger]
            spells(s, x, lead, gaps) && x.meaning() == sentence(s).unwrap(),
{
    let (x, lead, gaps) = lemma_conditional_derivation(s);
    assert(spell(lead, x.tokens(), gaps) + Seq::<char>::empty() =~= spell(lead, x.tokens(), gaps));
    assert(spells(s, x, lead, gaps));
}

/// The sentences are the texts of the language: a text parses to a term
/// exactly when it spells a conditional phrase that stands for that term.
pub proof fn lemma_sentences_are_spellings(s: Seq<char>)
    ensures
        forall|x: Phrase, lead: Seq<char>, gaps: Seq<Seq<char>>| #[trigger]
            spells(s, x, lead, gaps) ==> sentence(s) == Some(x.meaning()),
        sentence(s) is Some ==> exists|x: Phrase, lead: Seq<char>, gaps: Seq<Seq<char>>| #[trigger]
            spells(s, x, lead, gaps) && x.meaning() == sentence(s).unwrap(),
{
    assert forall|x: Phrase, lead: Seq<char>, gaps: Seq<Seq<char>>| #[trigger]
        spells(s, x, lead, gaps) implies sentence(s) == Some(x.meaning()) by {
        lemma_spelling_parses(x, lead, gaps);
    }
    if sentence(s) is Some {
        lemma_sentence_is_spelled(s);
    }
}

} // verus!
