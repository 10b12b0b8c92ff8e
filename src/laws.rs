//! Properties of the rule tree that every parse produces.
use vstd::prelude::*;
use vstd::seq::axiom_seq_subrange_decreases;
use crate::{RuleModel, lookup_in, is_first_prefix, default_effective_date};
use crate::classify::{rule_line, effective_date_line, is_rule_split, is_rule_id, lemma_rule_id_chars};
use crate::parser::{ParserModel, Section, roll_up, run, step, with_child, with_example, parse_model, initial_state, lines_from};

verus! {

/// The ids of a sequence of rules in document order: each rule before the
/// rules nested under it.
pub open spec fn preorder(rs: Seq<RuleModel>) -> Seq<Seq<char>>
    decreases rs,
    via preorder_decreases
{
    if rs.len() == 0 {
        seq![]
    } else {
        preorder(rs.drop_last()) + seq![rs.last().id] + preorder(rs.last().subrules)
    }
}

#[via_fn]
proof fn preorder_decreases(rs: Seq<RuleModel>) {
    broadcast use axiom_seq_subrange_decreases;

    if rs.len() > 0 {
        assert(decreases_to!(rs => rs.drop_last()));
        assert(decreases_to!(rs => rs[rs.len() - 1]));
    }
}

/// The ids of the rule lines among `lines`, in order.
pub open spec fn rule_ids(lines: Seq<Seq<char>>) -> Seq<Seq<char>> {
    Seq::new(lines.len(), |i: int| (rule_line(lines[i])->0).0)
}

/// `child` extends `parent`; when `strict`, it is also longer.
pub open spec fn extends(parent: Seq<char>, child: Seq<char>, strict: bool) -> bool {
    parent.is_prefix_of(child) && (strict ==> parent != child)
}

/// Every subrule's id, at every depth, extends the id of the rule it is nested under.
pub open spec fn children_extend(r: RuleModel, strict: bool) -> bool
    decreases r,
{
    forall|j: int|
        0 <= j < r.subrules.len() ==> extends(r.id, (#[trigger] r.subrules[j]).id, strict)
            && children_extend(r.subrules[j], strict)
}

pub open spec fn all_children_extend(rs: Seq<RuleModel>, strict: bool) -> bool {
    forall|i: int| 0 <= i < rs.len() ==> children_extend(#[trigger] rs[i], strict)
}

/// Each open rule's id extends the id of the rule below it on the stack.
pub open spec fn open_chain(open: Seq<RuleModel>, strict: bool) -> bool {
    forall|i: int| 0 <= i < open.len() - 1 ==> extends((#[trigger] open[i]).id, open[i + 1].id, strict)
}

pub open spec fn nesting_ok(st: ParserModel, strict: bool) -> bool {
    &&& all_children_extend(st.edition.rules, strict)
    &&& all_children_extend(st.open, strict)
    &&& open_chain(st.open, strict)
}

/// The ids of the rules read so far, placed or still open, in document order.
pub open spec fn read_ids(st: ParserModel) -> Seq<Seq<char>> {
    preorder(st.edition.rules) + preorder(st.open)
}

pub open spec fn open_ids_nonempty(open: Seq<RuleModel>) -> bool {
    forall|i: int| 0 <= i < open.len() ==> (#[trigger] open[i]).id.len() > 0
}

proof fn lemma_preorder_push(rs: Seq<RuleModel>, r: RuleModel)
    ensures
        preorder(rs.push(r)) == preorder(rs) + seq![r.id] + preorder(r.subrules),
{
    assert(rs.push(r).drop_last() =~= rs);
}

proof fn lemma_rule_line_facts(line: Seq<char>)
    requires
        rule_line(line) is Some,
    ensures
        is_rule_id((rule_line(line)->0).0),
        (rule_line(line)->0).0.len() > 0,
        line != "Glossary"@,
{
    let (k, d) = choose|k: int, d: int| is_rule_split(line, k, d);
    let id = line.subrange(0, k);
    lemma_rule_id_chars(id);
    assert(id[0] == line[0]);
    reveal_strlit("Glossary");
    assert("Glossary"@[0] == 'G');
}

/// What a roll-up keeps of the stack: a bottom part of it with the same ids,
/// whose top, if any, is a prefix of the target.
proof fn lemma_roll_up_shape(rules: Seq<RuleModel>, open: Seq<RuleModel>, target: Seq<char>)
    ensures
        roll_up(rules, open, target).1.len() <= open.len(),
        forall|i: int|
            0 <= i < roll_up(rules, open, target).1.len() ==> (#[trigger] roll_up(
                rules,
                open,
                target,
            ).1[i]).id == open[i].id,
        roll_up(rules, open, target).1.len() > 0 ==> roll_up(rules, open, target).1.last().id.is_prefix_of(target),
    decreases open.len(),
{
    if open.len() > 1 && !open.last().id.is_prefix_of(target) {
        let rest = open.drop_last();
        let next = rest.update(rest.len() - 1, with_child(rest.last(), open.last()));
        lemma_roll_up_shape(rules, next, target);
    }
}

/// A roll-up moves rules without losing, duplicating or reordering any.
pub proof fn lemma_roll_up_keeps_rules(rules: Seq<RuleModel>, open: Seq<RuleModel>, target: Seq<char>)
    ensures
        preorder(roll_up(rules, open, target).0) + preorder(roll_up(rules, open, target).1)
            == preorder(rules) + preorder(open),
    decreases open.len(),
{
    if open.len() == 0 || open.last().id.is_prefix_of(target) {
    } else if open.len() == 1 {
        lemma_preorder_push(rules, open.last());
        assert(open.drop_last() =~= seq![]);
        assert(preorder(open.drop_last()) == Seq::<Seq<char>>::empty());
        assert(preorder(open) =~= seq![open.last().id] + preorder(open.last().subrules));
        assert(preorder(roll_up(rules, open, target).1) =~= seq![]);
        assert(preorder(rules.push(open.last())) + seq![] =~= preorder(rules) + preorder(open));
    } else {
        let top = open.last();
        let rest = open.drop_last();
        let parent = rest.last();
        let below = rest.drop_last();
        let next = rest.update(rest.len() - 1, with_child(parent, top));
        lemma_roll_up_keeps_rules(rules, next, target);
        assert(next.drop_last() =~= below);
        lemma_preorder_push(parent.subrules, top);
        assert(preorder(next) == preorder(below) + seq![parent.id] + preorder(parent.subrules.push(top)));
        assert(preorder(rest) == preorder(below) + seq![parent.id] + preorder(parent.subrules));
        assert(preorder(next) =~= preorder(open));
    }
}

/// With no open id empty, rolling up to the empty id closes every open rule.
proof fn lemma_roll_up_to_empty(rules: Seq<RuleModel>, open: Seq<RuleModel>)
    requires
        open_ids_nonempty(open),
    ensures
        roll_up(rules, open, seq![]).1.len() == 0,
    decreases open.len(),
{
    if open.len() > 1 {
        let rest = open.drop_last();
        let next = rest.update(rest.len() - 1, with_child(rest.last(), open.last()));
        assert(open[open.len() - 1].id.len() > 0);
        assert(open_ids_nonempty(next)) by {
            assert forall|i: int| 0 <= i < next.len() implies (#[trigger] next[i]).id.len() > 0 by {
                assert(open[i].id.len() > 0);
            }
        }
        lemma_roll_up_to_empty(rules, next);
    } else if open.len() == 1 {
        assert(open[0].id.len() > 0);
    }
}

/// Rule lines followed by the line `Glossary`, read in the rules region:
/// afterwards no rule is left open, the glossary region has begun, and the
/// top-level rules hold, each exactly once and in document order, the rules
/// that were placed or open before and one rule for each of the lines.
pub proof fn lemma_glossary_drains(st: ParserModel, lines: Seq<Seq<char>>)
    requires
        st.section == Section::Rules,
        open_ids_nonempty(st.open),
        forall|i: int| 0 <= i < lines.len() ==> (#[trigger] rule_line(lines[i])) is Some,
    ensures
        run(st, lines.push("Glossary"@)).open.len() == 0,
        run(st, lines.push("Glossary"@)).section == Section::Glossary,
        preorder(run(st, lines.push("Glossary"@)).edition.rules) == preorder(st.edition.rules)
            + preorder(st.open) + rule_ids(lines),
    decreases lines.len(),
{
    let all = lines.push("Glossary"@);
    if lines.len() == 0 {
        assert(all.skip(1) =~= seq![]);
        assert(all[0] == "Glossary"@);
        let r = roll_up(st.edition.rules, st.open, seq![]);
        lemma_roll_up_to_empty(st.edition.rules, st.open);
        lemma_roll_up_keeps_rules(st.edition.rules, st.open, seq![]);
        assert(r.1 =~= seq![]);
        assert(preorder(r.1) =~= seq![]);
        assert(rule_ids(lines) =~= seq![]);
        assert(run(st, all) == run(step(st, all[0]), all.skip(1)));
        assert(run(st, all) == step(st, all[0]));
        assert(preorder(r.0) =~= preorder(st.edition.rules) + preorder(st.open) + rule_ids(lines));
    } else {
        let line = lines[0];
        assert(rule_line(line) is Some);
        lemma_rule_line_facts(line);
        let (id, text) = rule_line(line)->0;
        let r = roll_up(st.edition.rules, st.open, id);
        let next = step(st, line);
        lemma_roll_up_shape(st.edition.rules, st.open, id);
        lemma_roll_up_keeps_rules(st.edition.rules, st.open, id);
        let new_rule = crate::new_rule_model(id, text);
        lemma_preorder_push(r.1, new_rule);
        assert(preorder(new_rule.subrules) =~= seq![]);
        assert(next.open == r.1.push(new_rule));
        assert(open_ids_nonempty(next.open)) by {
            assert forall|i: int| 0 <= i < next.open.len() implies (#[trigger] next.open[i]).id.len() > 0 by {
                if i < r.1.len() {
                    assert(r.1[i].id == st.open[i].id);
                    assert(st.open[i].id.len() > 0);
                }
            }
        }
        let tail = lines.skip(1);
        assert forall|i: int| 0 <= i < tail.len() implies (#[trigger] rule_line(tail[i])) is Some by {
            assert(tail[i] == lines[i + 1]);
        }
        lemma_glossary_drains(next, tail);
        assert(all[0] == line);
        assert(all.skip(1) =~= tail.push("Glossary"@));
        assert(run(st, all) == run(next, tail.push("Glossary"@)));
        assert(rule_ids(lines) =~= seq![id] + rule_ids(tail));
        assert(preorder(next.edition.rules) + preorder(next.open) =~= preorder(st.edition.rules)
            + preorder(st.open) + seq![id]);
        assert(preorder(run(st, all).edition.rules) =~= preorder(st.edition.rules) + preorder(st.open)
            + rule_ids(lines));
    }
}

proof fn lemma_with_child_extends(parent: RuleModel, child: RuleModel, strict: bool)
    requires
        children_extend(parent, strict),
        children_extend(child, strict),
        extends(parent.id, child.id, strict),
    ensures
        children_extend(with_child(parent, child), strict),
{
    let grown = with_child(parent, child);
    assert forall|j: int| 0 <= j < grown.subrules.len() implies extends(
        grown.id,
        (#[trigger] grown.subrules[j]).id,
        strict,
    ) && children_extend(grown.subrules[j], strict) by {
        if j < parent.subrules.len() {
            assert(grown.subrules[j] == parent.subrules[j]);
        }
    }
}

proof fn lemma_roll_up_nesting(rules: Seq<RuleModel>, open: Seq<RuleModel>, target: Seq<char>, strict: bool)
    requires
        all_children_extend(rules, strict),
        all_children_extend(open, strict),
        open_chain(open, strict),
    ensures
        all_children_extend(roll_up(rules, open, target).0, strict),
        all_children_extend(roll_up(rules, open, target).1, strict),
        open_chain(roll_up(rules, open, target).1, strict),
    decreases open.len(),
{
    if open.len() == 0 || open.last().id.is_prefix_of(target) {
    } else if open.len() == 1 {
        let r2 = rules.push(open.last());
        assert(children_extend(open[0], strict));
        assert forall|i: int| 0 <= i < r2.len() implies children_extend(#[trigger] r2[i], strict) by {
            if i < rules.len() {
                assert(r2[i] == rules[i]);
            }
        }
    } else {
        let n = open.len();
        let top = open.last();
        let rest = open.drop_last();
        let parent = rest.last();
        let next = rest.update(rest.len() - 1, with_child(parent, top));
        assert(children_extend(open[n - 1], strict));
        assert(children_extend(open[n - 2], strict));
        assert(extends(open[n - 2].id, open[n - 1].id, strict));
        lemma_with_child_extends(parent, top, strict);
        assert forall|i: int| 0 <= i < next.len() implies children_extend(#[trigger] next[i], strict) by {
            if i < next.len() - 1 {
                assert(next[i] == open[i]);
            }
        }
        assert forall|i: int| 0 <= i < next.len() - 1 implies extends(
            (#[trigger] next[i]).id,
            next[i + 1].id,
            strict,
        ) by {
            assert(next[i] == open[i]);
            assert(next[i + 1].id == open[i + 1].id);
        }
        lemma_roll_up_nesting(rules, next, target, strict);
    }
}

proof fn lemma_preorder_contains(open: Seq<RuleModel>, k: int)
    requires
        0 <= k < open.len(),
    ensures
        preorder(open).contains(open[k].id),
    decreases open.len(),
{
    let a = preorder(open.drop_last());
    let p = preorder(open);
    if k == open.len() - 1 {
        assert(p[a.len() as int] == open[k].id);
    } else {
        lemma_preorder_contains(open.drop_last(), k);
        let m = choose|m: int| 0 <= m < a.len() && a[m] == open[k].id;
        assert(p[m] == open[k].id);
    }
}

proof fn lemma_example_keeps_preorder(open: Seq<RuleModel>, e: Seq<char>)
    requires
        open.len() > 0,
    ensures
        preorder(open.update(open.len() - 1, with_example(open.last(), e))) == preorder(open),
{
    let o2 = open.update(open.len() - 1, with_example(open.last(), e));
    assert(o2.drop_last() =~= open.drop_last());
}

/// Reading a line only ever adds ids at the end of those read so far.
proof fn lemma_step_read_ids(st: ParserModel, line: Seq<char>)
    ensures
        read_ids(st).is_prefix_of(read_ids(step(st, line))),
        st.section == Section::Rules && line != "Glossary"@ && rule_line(line) is Some ==> read_ids(
            step(st, line),
        ) == read_ids(st) + seq![(rule_line(line)->0).0],
{
    let r = read_ids(st);
    if st.section == Section::Rules {
        if line == "Glossary"@ {
            lemma_roll_up_keeps_rules(st.edition.rules, st.open, seq![]);
        } else if let Some((id, text)) = rule_line(line) {
            let ru = roll_up(st.edition.rules, st.open, id);
            lemma_roll_up_keeps_rules(st.edition.rules, st.open, id);
            lemma_preorder_push(ru.1, crate::new_rule_model(id, text));
            assert(preorder(crate::new_rule_model(id, text).subrules) =~= seq![]);
            assert(read_ids(step(st, line)) =~= r + seq![id]);
        } else if let Some(e) = crate::classify::example_line(line) {
            if st.open.len() > 0 {
                lemma_example_keeps_preorder(st.open, e);
            }
        }
    }
    assert(r =~= read_ids(step(st, line)).subrange(0, r.len() as int));
}

proof fn lemma_run_read_ids(st: ParserModel, lines: Seq<Seq<char>>)
    ensures
        read_ids(st).is_prefix_of(read_ids(run(st, lines))),
    decreases lines.len(),
{
    if lines.len() > 0 {
        let next = step(st, lines[0]);
        lemma_step_read_ids(st, lines[0]);
        lemma_run_read_ids(next, lines.skip(1));
        let a = read_ids(st);
        let b = read_ids(next);
        let c = read_ids(run(st, lines));
        assert(c.subrange(0, a.len() as int) =~= c.subrange(0, b.len() as int).subrange(0, a.len() as int));
    }
}

proof fn lemma_step_nesting(st: ParserModel, line: Seq<char>, strict: bool)
    requires
        nesting_ok(st, strict),
        strict ==> read_ids(step(st, line)).no_duplicates(),
    ensures
        nesting_ok(step(st, line), strict),
{
    if st.section == Section::Rules {
        lemma_roll_up_nesting(st.edition.rules, st.open, seq![], strict);
        if line != "Glossary"@ {
            if let Some((id, text)) = rule_line(line) {
                let r = roll_up(st.edition.rules, st.open, id);
                lemma_roll_up_nesting(st.edition.rules, st.open, id, strict);
                lemma_roll_up_shape(st.edition.rules, st.open, id);
                let o2 = r.1.push(crate::new_rule_model(id, text));
                if r.1.len() > 0 && strict {
                    let k = r.1.len() - 1;
                    lemma_preorder_contains(st.open, k);
                    lemma_step_read_ids(st, line);
                    let ids = read_ids(st);
                    let m = choose|m: int| 0 <= m < preorder(st.open).len() && preorder(st.open)[m]
                        == st.open[k].id;
                    let all = read_ids(step(st, line));
                    assert(all[preorder(st.edition.rules).len() + m] == st.open[k].id);
                    assert(all[ids.len() as int] == id);
                    assert(r.1[k].id == st.open[k].id);
                    assert(r.1.last().id != id);
                }
                assert(children_extend(crate::new_rule_model(id, text), strict));
                assert forall|i: int| 0 <= i < o2.len() implies children_extend(#[trigger] o2[i], strict) by {
                    if i < r.1.len() {
                        assert(o2[i] == r.1[i]);
                    }
                }
                assert forall|i: int| 0 <= i < o2.len() - 1 implies extends(
                    (#[trigger] o2[i]).id,
                    o2[i + 1].id,
                    strict,
                ) by {
                    assert(o2[i] == r.1[i]);
                    if i + 1 < r.1.len() {
                        assert(o2[i + 1] == r.1[i + 1]);
                    }
                }
            } else if let Some(e) = crate::classify::example_line(line) {
                if st.open.len() > 0 {
                    let n = st.open.len();
                    let t = st.open.last();
                    let o2 = st.open.update(n - 1, with_example(t, e));
                    assert(children_extend(st.open[n - 1], strict));
                    assert(children_extend(with_example(t, e), strict));
                    assert forall|i: int| 0 <= i < o2.len() implies children_extend(#[trigger] o2[i], strict) by {
                        if i < n - 1 {
                            assert(o2[i] == st.open[i]);
                        }
                    }
                    assert forall|i: int| 0 <= i < o2.len() - 1 implies extends(
                        (#[trigger] o2[i]).id,
                        o2[i + 1].id,
                        strict,
                    ) by {
                        assert(o2[i] == st.open[i]);
                        assert(o2[i + 1].id == st.open[i + 1].id);
                    }
                }
            }
        }
    }
}

proof fn lemma_run_nesting(st: ParserModel, lines: Seq<Seq<char>>, strict: bool)
    requires
        nesting_ok(st, strict),
        strict ==> read_ids(run(st, lines)).no_duplicates(),
    ensures
        nesting_ok(run(st, lines), strict),
    decreases lines.len(),
{
    if lines.len() > 0 {
        let next = step(st, lines[0]);
        if strict {
            lemma_run_read_ids(next, lines.skip(1));
            let a = read_ids(next);
            let c = read_ids(run(st, lines));
            assert forall|i: int, j: int| 0 <= i < a.len() && 0 <= j < a.len() && i != j implies a[i] != a[j] by {
                assert(a[i] == c[i] && a[j] == c[j]);
            }
        }
        lemma_step_nesting(st, lines[0], strict);
        lemma_run_nesting(next, lines.skip(1), strict);
    }
}

/// In the edition parsed from any document, the id of every rule nested under
/// another, at every depth, has the id of the rule it is nested under as a prefix.
pub proof fn lemma_subrule_ids_extend(document: Seq<char>)
    ensures
        all_children_extend(parse_model(document).rules, false),
{
    lemma_run_nesting(initial_state(), lines_from(document, 0), false);
}

/// Where no rule id is read twice in the rules region of a document, the id of
/// every nested rule is longer than the id of the rule it is nested under, and
/// has that id as a prefix.
pub proof fn lemma_subrule_ids_strictly_extend(document: Seq<char>)
    requires
        read_ids(run(initial_state(), lines_from(document, 0))).no_duplicates(),
    ensures
        all_children_extend(parse_model(document).rules, true),
{
    lemma_run_nesting(initial_state(), lines_from(document, 0), true);
}

/// A rule that lookup finds carries exactly the id looked up.
pub proof fn lemma_lookup_finds_exact_id(rules: Seq<RuleModel>, id: Seq<char>)
    ensures
        lookup_in(rules, id) matches Some(r) ==> r.id == id,
    decreases rules,
{
    if exists|i: int| is_first_prefix(rules, id, i) {
        let i = choose|i: int| is_first_prefix(rules, id, i);
        if rules[i].id != id {
            assert(decreases_to!(rules => rules[i]));
            lemma_lookup_finds_exact_id(rules[i].subrules, id);
        }
    }
}

/// Lookup finds nothing where no top-level rule's id is a prefix of the id looked up.
pub proof fn lemma_lookup_without_prefix(rules: Seq<RuleModel>, id: Seq<char>)
    requires
        forall|i: int| 0 <= i < rules.len() ==> !(#[trigger] rules[i]).id.is_prefix_of(id),
    ensures
        lookup_in(rules, id) is None,
{
    assert(!exists|i: int| is_first_prefix(rules, id, i));
}

proof fn lemma_run_keeps_date(st: ParserModel, lines: Seq<Seq<char>>)
    requires
        forall|i: int| 0 <= i < lines.len() ==> (#[trigger] effective_date_line(lines[i])) is None,
    ensures
        run(st, lines).edition.effective_date == st.edition.effective_date,
    decreases lines.len(),
{
    if lines.len() > 0 {
        assert(effective_date_line(lines[0]) is None);
        let tail = lines.skip(1);
        assert forall|i: int| 0 <= i < tail.len() implies (#[trigger] effective_date_line(tail[i])) is None by {
            assert(tail[i] == lines[i + 1]);
        }
        lemma_run_keeps_date(step(st, lines[0]), tail);
    }
}

/// A document none of whose lines is an effective-date statement gives an
/// edition with the default effective date.
pub proof fn lemma_default_effective_date(document: Seq<char>)
    requires
        forall|i: int|
            0 <= i < lines_from(document, 0).len() ==> (#[trigger] effective_date_line(
                lines_from(document, 0)[i],
            )) is None,
    ensures
        parse_model(document).effective_date == default_effective_date(),
{
    lemma_run_keeps_date(initial_state(), lines_from(document, 0));
}

} // verus!
