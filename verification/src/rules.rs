//! Filter and allow rules: reading them from their written form, and deciding
//! which combinations of values they exclude.
//!
//! A rule is a tuple of values. Written, its values are separated by commas;
//! a value slot may offer alternatives separated by `+`, and then the token
//! stands for one rule per way of choosing an alternative in every slot.
use crate::error::ConfigError;
use crate::product::{cartesian_product, lemma_tuples_of_singles, tuples};
use crate::sequences::{lemma_deep_view_concat, lemma_filter_keeps_all, lemma_pushed_row};
use crate::text::{
    lemma_split_nonempty, lemma_split_pieces_within, lemma_split_whole, split, split_at_char,
};
use vstd::prelude::*;

verus! {

/// The alternatives of every value slot of a written rule.
pub open spec fn rule_slots(token: Seq<char>) -> Seq<Seq<Seq<char>>> {
    split(token, ',').map_values(|slot: Seq<char>| split(slot, '+'))
}

/// The rules that a written rule stands for: one for each way of choosing an
/// alternative in every slot, the choice in the first slot varying slowest.
pub open spec fn parsed_rules(token: Seq<char>) -> Seq<Seq<Seq<char>>> {
    tuples(rule_slots(token))
}

/// Whether some alternative of some slot of a written rule is empty.
pub open spec fn has_empty_value(token: Seq<char>) -> bool {
    exists|i: int, j: int|
        0 <= i < rule_slots(token).len() && 0 <= j < rule_slots(token)[i].len()
            && (#[trigger] rule_slots(token)[i][j]).len() == 0
}

/// Whether every value of `rule` is among `values`.
pub open spec fn within(rule: Seq<Seq<char>>, values: Seq<Seq<char>>) -> bool {
    forall|k: int| 0 <= k < rule.len() ==> values.contains(#[trigger] rule[k])
}

/// Whether some filter rule excludes `values`: a filter rule excludes the
/// combinations that hold all of its values.
pub open spec fn filtered_out(filters: Seq<Seq<Seq<char>>>, values: Seq<Seq<char>>) -> bool {
    exists|r: int| 0 <= r < filters.len() && within(#[trigger] filters[r], values)
}

/// Whether the allow rule `rule` excludes `values`: it does where its first
/// value is among them and another of its values is not.
pub open spec fn breaks_allow(rule: Seq<Seq<char>>, values: Seq<Seq<char>>) -> bool {
    rule.len() > 0 && values.contains(rule[0]) && !within(rule, values)
}

/// Whether some allow rule excludes `values`.
pub open spec fn disallowed(allows: Seq<Seq<Seq<char>>>, values: Seq<Seq<char>>) -> bool {
    exists|r: int| 0 <= r < allows.len() && breaks_allow(#[trigger] allows[r], values)
}

/// Whether the rules exclude `values`. The two kinds of rule act
/// independently: either one suffices.
pub open spec fn excluded(
    filters: Seq<Seq<Seq<char>>>,
    allows: Seq<Seq<Seq<char>>>,
    values: Seq<Seq<char>>,
) -> bool {
    filtered_out(filters, values) || disallowed(allows, values)
}

/// The candidates that the rules leave, in their order.
pub open spec fn survivors(
    candidates: Seq<Seq<Seq<char>>>,
    filters: Seq<Seq<Seq<char>>>,
    allows: Seq<Seq<Seq<char>>>,
) -> Seq<Seq<Seq<char>>> {
    candidates.filter(|values: Seq<Seq<char>>| !excluded(filters, allows, values))
}

/// Reads the written rule `arg` and appends the rules it stands for to
/// `rules`. A rule with an empty value is refused, and `rules` stays as it
/// was.
pub fn parse_rules(arg: &str, rules: &mut Vec<Vec<String>>) -> (r: Result<(), ConfigError>)
    ensures
        r is Ok <==> !has_empty_value(arg@),
        r is Ok ==> final(rules).deep_view() == old(rules).deep_view() + parsed_rules(arg@),
        r matches Err(e) ==> e == ConfigError::EmptyRuleValue && *final(rules) == *old(rules),
{
    let slots = split_at_char(arg, ',');
    let mut parts: Vec<Vec<String>> = Vec::new();
    let mut i: usize = 0;
    assert(parts.deep_view() =~= rule_slots(arg@).take(0));
    while i < slots.len()
        invariant
            slots.deep_view() == split(arg@, ','),
            i <= slots.len(),
            parts.deep_view() == rule_slots(arg@).take(i as int),
            forall|a: int, b: int|
                0 <= a < i && 0 <= b < rule_slots(arg@)[a].len() ==> (#[trigger] rule_slots(
                    arg@,
                )[a][b]).len() > 0,
            *rules == *old(rules),
        decreases slots.len() - i,
    {
        let alternatives = split_at_char(slots[i].as_str(), '+');
        proof {
            assert(slots.deep_view()[i as int] == slots[i as int]@);
            assert(alternatives.deep_view() == rule_slots(arg@)[i as int]);
        }
        let mut j: usize = 0;
        while j < alternatives.len()
            invariant
                j <= alternatives.len(),
                0 <= i < rule_slots(arg@).len(),
                alternatives.deep_view() == rule_slots(arg@)[i as int],
                forall|b: int| 0 <= b < j ==> (#[trigger] rule_slots(arg@)[i as int][b]).len() > 0,
                *rules == *old(rules),
            decreases alternatives.len() - j,
        {
            proof {
                assert(alternatives.deep_view()[j as int] == alternatives[j as int]@);
            }
            if alternatives[j].as_str().is_empty() {
                assert(rule_slots(arg@)[i as int][j as int].len() == 0);
                return Err(ConfigError::EmptyRuleValue);
            }
            j += 1;
        }
        let ghost earlier = parts;
        parts.push(alternatives);
        proof {
            lemma_pushed_row(earlier, parts, alternatives);
            assert(rule_slots(arg@).take(i as int).push(rule_slots(arg@)[i as int])
                =~= rule_slots(arg@).take(i + 1));
        }
        i += 1;
    }
    proof {
        assert(rule_slots(arg@).take(i as int) =~= rule_slots(arg@));
        lemma_split_nonempty(arg@, ',');
    }
    let slots_given = parts.as_slice();
    assert(slots_given.deep_view() =~= parts.deep_view());
    let mut found = cartesian_product(slots_given);
    proof {
        lemma_deep_view_concat(*old(rules), found);
    }
    rules.append(&mut found);
    Ok(())
}

/// Whether `wanted` is among `values`.
pub fn holds_value(values: &Vec<String>, wanted: &String) -> (r: bool)
    ensures
        r == values.deep_view().contains(wanted@),
{
    let mut i: usize = 0;
    while i < values.len()
        invariant
            i <= values.len(),
            forall|k: int| 0 <= k < i ==> values.deep_view()[k] != wanted@,
        decreases values.len() - i,
    {
        assert(values.deep_view()[i as int] == values[i as int]@);
        if values[i] == *wanted {
            return true;
        }
        i += 1;
    }
    false
}

/// Whether every value of `rule` is among `values`.
pub fn holds_all(rule: &Vec<String>, values: &Vec<String>) -> (r: bool)
    ensures
        r == within(rule.deep_view(), values.deep_view()),
{
    let mut k: usize = 0;
    while k < rule.len()
        invariant
            k <= rule.len(),
            forall|m: int| 0 <= m < k ==> values.deep_view().contains(#[trigger] rule.deep_view()[m]),
        decreases rule.len() - k,
    {
        assert(rule.deep_view()[k as int] == rule[k as int]@);
        if !holds_value(values, &rule[k]) {
            return false;
        }
        k += 1;
    }
    true
}

/// Whether some filter rule excludes `values`.
pub fn is_filtered_out(filters: &Vec<Vec<String>>, values: &Vec<String>) -> (r: bool)
    ensures
        r == filtered_out(filters.deep_view(), values.deep_view()),
{
    let mut n: usize = 0;
    while n < filters.len()
        invariant
            n <= filters.len(),
            forall|m: int| 0 <= m < n ==> !within(#[trigger] filters.deep_view()[m], values.deep_view()),
        decreases filters.len() - n,
    {
        assert(filters.deep_view()[n as int] == filters[n as int].deep_view());
        if holds_all(&filters[n], values) {
            return true;
        }
        n += 1;
    }
    false
}

/// Whether some allow rule excludes `values`.
pub fn is_disallowed(allows: &Vec<Vec<String>>, values: &Vec<String>) -> (r: bool)
    ensures
        r == disallowed(allows.deep_view(), values.deep_view()),
{
    let mut n: usize = 0;
    while n < allows.len()
        invariant
            n <= allows.len(),
            forall|m: int| 0 <= m < n ==> !breaks_allow(#[trigger] allows.deep_view()[m], values.deep_view()),
        decreases allows.len() - n,
    {
        let rule = &allows[n];
        proof {
            assert(allows.deep_view()[n as int] == rule.deep_view());
            if rule.len() > 0 {
                assert(rule.deep_view()[0] == rule[0]@);
            }
        }
        if rule.len() > 0 && holds_value(values, &rule[0]) && !holds_all(rule, values) {
            return true;
        }
        n += 1;
    }
    false
}

/// Whether the rules exclude the combination with the values `values`.
pub fn is_excluded(
    values: &Vec<String>,
    filters: &Vec<Vec<String>>,
    allows: &Vec<Vec<String>>,
) -> (r: bool)
    ensures
        r == excluded(filters.deep_view(), allows.deep_view(), values.deep_view()),
{
    is_filtered_out(filters, values) || is_disallowed(allows, values)
}

/// A written rule without a `+` stands for one rule: its comma-separated
/// values in order.
pub proof fn lemma_plain_rule(token: Seq<char>)
    requires
        !token.contains('+'),
    ensures
        parsed_rules(token) == seq![split(token, ',')],
{
    let slots = split(token, ',');
    lemma_split_pieces_within(token, ',');
    assert forall|i: int| 0 <= i < slots.len() implies #[trigger] rule_slots(token)[i] == seq![
        slots[i],
    ] by {
        if slots[i].contains('+') {
            let k = choose|k: int| 0 <= k < slots[i].len() && slots[i][k] == '+';
            assert(token.contains(slots[i][k]));
        }
        lemma_split_whole(slots[i], '+');
    }
    lemma_tuples_of_singles(rule_slots(token));
    assert(Seq::new(rule_slots(token).len(), |k: int| rule_slots(token)[k][0]) =~= slots);
}

/// One filter rule excludes a combination exactly where all of the rule's
/// values are among the combination's.
pub proof fn lemma_filter_rule(rule: Seq<Seq<char>>, values: Seq<Seq<char>>)
    ensures
        filtered_out(seq![rule], values) <==> within(rule, values),
{
    if within(rule, values) {
        assert(seq![rule][0] == rule);
    }
}

/// One allow rule excludes a combination exactly where the rule's first value
/// is among the combination's and not all of the rule's values are.
pub proof fn lemma_allow_rule(rule: Seq<Seq<char>>, values: Seq<Seq<char>>)
    ensures
        disallowed(seq![rule], values) <==> rule.len() > 0 && values.contains(rule[0]) && !within(
            rule,
            values,
        ),
{
    if breaks_allow(rule, values) {
        assert(seq![rule][0] == rule);
    }
}

/// Allow rules leave alone a combination that holds the first value of none
/// of them.
pub proof fn lemma_allow_needs_anchor(allows: Seq<Seq<Seq<char>>>, values: Seq<Seq<char>>)
    requires
        forall|r: int| 0 <= r < allows.len() && (#[trigger] allows[r]).len() > 0 ==> !values.contains(
            allows[r][0],
        ),
    ensures
        !disallowed(allows, values),
{
}

/// What the rules leave is a part of the candidates, and none of it is
/// excluded.
pub proof fn lemma_survivors_pass(
    candidates: Seq<Seq<Seq<char>>>,
    filters: Seq<Seq<Seq<char>>>,
    allows: Seq<Seq<Seq<char>>>,
)
    ensures
        survivors(candidates, filters, allows).len() <= candidates.len(),
        forall|i: int|
            0 <= i < survivors(candidates, filters, allows).len() ==> !excluded(
                filters,
                allows,
                #[trigger] survivors(candidates, filters, allows)[i],
            ) && candidates.contains(survivors(candidates, filters, allows)[i]),
{
    let keep = |values: Seq<Seq<char>>| !excluded(filters, allows, values);
    candidates.lemma_filter_len(keep);
    assert forall|i: int| 0 <= i < candidates.filter(keep).len() implies keep(
        #[trigger] candidates.filter(keep)[i],
    ) && candidates.contains(candidates.filter(keep)[i]) by {
        candidates.lemma_filter_pred(keep, i);
        candidates.lemma_filter_contains_rev(keep, candidates.filter(keep)[i]);
    }
}

/// Applying the same rules a second time removes nothing more.
pub proof fn lemma_survivors_idempotent(
    candidates: Seq<Seq<Seq<char>>>,
    filters: Seq<Seq<Seq<char>>>,
    allows: Seq<Seq<Seq<char>>>,
)
    ensures
        survivors(survivors(candidates, filters, allows), filters, allows) == survivors(
            candidates,
            filters,
            allows,
        ),
{
    let keep = |values: Seq<Seq<char>>| !excluded(filters, allows, values);
    let once = candidates.filter(keep);
    lemma_survivors_pass(candidates, filters, allows);
    lemma_filter_keeps_all(once, keep);
}

} // verus!
