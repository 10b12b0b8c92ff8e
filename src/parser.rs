//! The single-pass parser: a state machine over the document's lines that
//! builds the rule tree from the flat sequence of numbered lines.
use vstd::prelude::*;
use crate::{Edition, EditionModel, Rule, RuleModel, glossary_map, terms_unique, rules_view, empty_edition, new_rule_model};
use crate::classify::{rule_line, example_line, effective_date_line, parse_rule_line, parse_example_line, parse_effective_date, line_is};
use crate::text::{chars_of, prefix_at, append_line, string_of, str_eq};

verus! {

/// The region of the document being read.
#[derive(PartialEq, Eq, Structural, Clone, Copy)]
pub enum Section {
    Heading,
    Introduction,
    TableOfContents,
    Rules,
    Glossary,
    Credits,
}

/// The abstract state of the parser: the edition built so far, the stack of
/// open rules (outermost first), the glossary term awaiting its definition,
/// and the current region.
pub ghost struct ParserModel {
    pub edition: EditionModel,
    pub open: Seq<RuleModel>,
    pub term: Option<Seq<char>>,
    pub section: Section,
}

pub open spec fn with_child(parent: RuleModel, child: RuleModel) -> RuleModel {
    RuleModel { subrules: parent.subrules.push(child), ..parent }
}

pub open spec fn with_example(r: RuleModel, e: Seq<char>) -> RuleModel {
    RuleModel { examples: r.examples.push(e), ..r }
}

/// Closes every open rule whose id is not a prefix of `target`: each closed
/// rule becomes the last subrule of the rule below it on the stack, or, with
/// nothing below it, the last top-level rule. Returns the new top-level rules
/// and the new stack.
pub open spec fn roll_up(rules: Seq<RuleModel>, open: Seq<RuleModel>, target: Seq<char>) -> (
    Seq<RuleModel>,
    Seq<RuleModel>,
)
    decreases open.len(),
{
    if open.len() == 0 || open.last().id.is_prefix_of(target) {
        (rules, open)
    } else if open.len() == 1 {
        (rules.push(open.last()), seq![])
    } else {
        let rest = open.drop_last();
        roll_up(rules, rest.update(rest.len() - 1, with_child(rest.last(), open.last())), target)
    }
}

pub open spec fn with_rules(st: ParserModel, rules: Seq<RuleModel>, open: Seq<RuleModel>) -> ParserModel {
    ParserModel { edition: EditionModel { rules, ..st.edition }, open, ..st }
}

pub open spec fn in_section(st: ParserModel, section: Section) -> ParserModel {
    ParserModel { section, ..st }
}

pub open spec fn step_heading(st: ParserModel, line: Seq<char>) -> ParserModel {
    if let Some(date) = effective_date_line(line) {
        ParserModel { edition: EditionModel { effective_date: date, ..st.edition }, ..st }
    } else if line == "Introduction"@ {
        in_section(st, Section::Introduction)
    } else {
        st
    }
}

pub open spec fn step_rules(st: ParserModel, line: Seq<char>) -> ParserModel {
    if line == "Glossary"@ {
        let (rules, open) = roll_up(st.edition.rules, st.open, seq![]);
        in_section(with_rules(st, rules, open), Section::Glossary)
    } else if let Some((id, text)) = rule_line(line) {
        let (rules, open) = roll_up(st.edition.rules, st.open, id);
        with_rules(st, rules, open.push(new_rule_model(id, text)))
    } else if let Some(e) = example_line(line) {
        if st.open.len() > 0 {
            ParserModel {
                open: st.open.update(st.open.len() - 1, with_example(st.open.last(), e)),
                ..st
            }
        } else {
            st
        }
    } else {
        st
    }
}

pub open spec fn step_glossary(st: ParserModel, line: Seq<char>) -> ParserModel {
    if line.len() == 0 {
        ParserModel { term: None, ..st }
    } else if line == "Credits"@ {
        ParserModel { term: None, section: Section::Credits, ..st }
    } else if let Some(term) = st.term {
        ParserModel {
            edition: EditionModel { glossary: st.edition.glossary.insert(term, line), ..st.edition },
            term: None,
            ..st
        }
    } else {
        ParserModel { term: Some(line), ..st }
    }
}

/// The effect of one line of the document on the parser.
pub open spec fn step(st: ParserModel, line: Seq<char>) -> ParserModel {
    match st.section {
        Section::Heading => step_heading(st, line),
        Section::Introduction => if line == "Contents"@ {
            in_section(st, Section::TableOfContents)
        } else {
            ParserModel {
                edition: EditionModel {
                    introduction: st.edition.introduction + line + seq!['\n'],
                    ..st.edition
                },
                ..st
            }
        },
        Section::TableOfContents => if line == "Credits"@ {
            in_section(st, Section::Rules)
        } else {
            st
        },
        Section::Rules => step_rules(st, line),
        Section::Glossary => step_glossary(st, line),
        Section::Credits => ParserModel {
            edition: EditionModel { credits: st.edition.credits + line + seq!['\n'], ..st.edition },
            ..st
        },
    }
}

/// The parser after it has read `lines` in order, starting from `st`.
pub open spec fn run(st: ParserModel, lines: Seq<Seq<char>>) -> ParserModel
    decreases lines.len(),
{
    if lines.len() == 0 {
        st
    } else {
        run(step(st, lines[0]), lines.skip(1))
    }
}

pub open spec fn initial_state() -> ParserModel {
    ParserModel { edition: empty_edition(), open: seq![], term: None, section: Section::Heading }
}

/// The position of the first newline at or after `i`, or the length of `s`.
pub open spec fn first_newline(s: Seq<char>, i: int) -> int
    decreases s.len() - i,
{
    if i >= s.len() {
        s.len() as int
    } else if s[i] == '\n' {
        i
    } else {
        first_newline(s, i + 1)
    }
}

pub proof fn lemma_first_newline(s: Seq<char>, i: int)
    requires
        0 <= i,
    ensures
        i >= s.len() ==> first_newline(s, i) == s.len(),
        i < s.len() ==> i <= first_newline(s, i) <= s.len(),
        forall|j: int| i <= j < first_newline(s, i) ==> s[j] != '\n',
        first_newline(s, i) < s.len() ==> s[first_newline(s, i)] == '\n',
    decreases s.len() - i,
{
    if i < s.len() && s[i] != '\n' {
        lemma_first_newline(s, i + 1);
    }
}

/// A line without its carriage return at the end, if it has one.
pub open spec fn strip_cr(l: Seq<char>) -> Seq<char> {
    if l.len() > 0 && l.last() == '\r' {
        l.drop_last()
    } else {
        l
    }
}

/// The lines of `s` from position `i` on: the text between newlines, each
/// without a trailing carriage return; a newline at the very end opens no
/// further line.
pub open spec fn lines_from(s: Seq<char>, i: int) -> Seq<Seq<char>>
    decreases s.len() - i,
    via lines_from_decreases
{
    if i < 0 || i >= s.len() {
        seq![]
    } else {
        let j = first_newline(s, i);
        if j < s.len() {
            seq![strip_cr(s.subrange(i, j))] + lines_from(s, j + 1)
        } else {
            seq![strip_cr(s.subrange(i, s.len() as int))]
        }
    }
}

#[via_fn]
proof fn lines_from_decreases(s: Seq<char>, i: int) {
    if 0 <= i < s.len() {
        lemma_first_newline(s, i);
    }
}

/// The edition that a document describes.
pub open spec fn parse_model(document: Seq<char>) -> EditionModel {
    run(initial_state(), lines_from(document, 0)).edition
}

struct ParserState {
    edition: Edition,
    current_rules: Vec<Rule>,
    current_term: Option<String>,
    current_section: Section,
}

impl View for ParserState {
    type V = ParserModel;

    closed spec fn view(&self) -> ParserModel {
        ParserModel {
            edition: self.edition@,
            open: rules_view(self.current_rules@),
            term: match self.current_term {
                Some(t) => Some(t@),
                None => None,
            },
            section: self.current_section,
        }
    }
}

proof fn lemma_rules_view_push(rs: Seq<Rule>, r: Rule)
    ensures
        rules_view(rs.push(r)) == rules_view(rs).push(r@),
{
    assert(rules_view(rs.push(r)) =~= rules_view(rs).push(r@));
}

proof fn lemma_rules_view_drop_last(rs: Seq<Rule>)
    requires
        rs.len() > 0,
    ensures
        rules_view(rs.drop_last()) == rules_view(rs).drop_last(),
        rules_view(rs).last() == rs.last()@,
{
    assert(rules_view(rs.drop_last()) =~= rules_view(rs).drop_last());
}

proof fn lemma_glossary_replace(g: Seq<(String, String)>, i: int, e: (String, String))
    requires
        terms_unique(g),
        0 <= i < g.len(),
        g[i].0@ == e.0@,
    ensures
        terms_unique(g.update(i, e)),
        glossary_map(g.update(i, e)) == glossary_map(g).insert(e.0@, e.1@),
    decreases g.len(),
{
    let g2 = g.update(i, e);
    if i == g.len() - 1 {
        assert(g2.drop_last() =~= g.drop_last());
        assert(glossary_map(g2) =~= glossary_map(g).insert(e.0@, e.1@));
    } else {
        assert(g2.drop_last() =~= g.drop_last().update(i, e));
        lemma_glossary_replace(g.drop_last(), i, e);
        assert(g.last().0@ != e.0@);
        assert(glossary_map(g2) =~= glossary_map(g).insert(e.0@, e.1@));
    }
}

/// Sets the definition of `term`, replacing the one it had.
fn glossary_insert(g: &mut Vec<(String, String)>, term: String, definition: String)
    requires
        terms_unique(old(g)@),
    ensures
        terms_unique(final(g)@),
        glossary_map(final(g)@) == glossary_map(old(g)@).insert(term@, definition@),
{
    let ghost g0 = g@;
    let mut i: usize = 0;
    while i < g.len()
        invariant
            g@ == g0,
            g0 == old(g)@,
            terms_unique(g0),
            i <= g@.len(),
            forall|j: int| 0 <= j < i ==> g@[j].0@ != term@,
        decreases g@.len() - i,
    {
        if str_eq(g[i].0.as_str(), term.as_str()) {
            proof {
                lemma_glossary_replace(g@, i as int, (term, definition));
            }
            g[i] = (term, definition);
            return;
        }
        i = i + 1;
    }
    let ghost before = g@;
    g.push((term, definition));
    assert(g@.drop_last() =~= before);
}

impl ParserState {
    closed spec fn wf(&self) -> bool {
        terms_unique(self.edition.glossary@)
    }

    fn new() -> (r: ParserState)
        ensures
            r.wf(),
            r@ == initial_state(),
    {
        let r = ParserState {
            edition: Edition::new(),
            current_rules: Vec::new(),
            current_term: None,
            current_section: Section::Heading,
        };
        assert(r@.open =~= seq![]);
        r
    }

    fn roll_up_until(&mut self, rule_id: &[char])
        requires
            old(self).wf(),
        ensures
            final(self).wf(),
            final(self)@ == with_rules(
                old(self)@,
                roll_up(old(self)@.edition.rules, old(self)@.open, rule_id@).0,
                roll_up(old(self)@.edition.rules, old(self)@.open, rule_id@).1,
            ),
    {
        let ghost start = self@;
        let ghost goal = roll_up(start.edition.rules, start.open, rule_id@);
        assert(rule_id@.subrange(0, rule_id@.len() as int) =~= rule_id@);
        loop
            invariant
                self.wf(),
                self@ == with_rules(start, self@.edition.rules, self@.open),
                roll_up(self@.edition.rules, self@.open, rule_id@) == goal,
            ensures
                self@ == with_rules(start, goal.0, goal.1),
            decreases self.current_rules@.len(),
        {
            let n = self.current_rules.len();
            if n == 0 {
                break;
            }
            let top_id = chars_of(self.current_rules[n - 1].id.as_str());
            proof {
                lemma_rules_view_drop_last(self.current_rules@);
            }
            if prefix_at(top_id.as_slice(), rule_id, 0, rule_id.len()) {
                break;
            }
            let ghost before = self.current_rules@;
            let top = self.current_rules.pop().unwrap();
            assert(self.current_rules@ == before.drop_last());
            if n == 1 {
                proof {
                    lemma_rules_view_push(self.edition.rules@, top);
                }
                self.edition.rules.push(top);
                assert(rules_view(self.current_rules@) =~= seq![]);
                break;
            }
            let mut parent = self.current_rules.pop().unwrap();
            let ghost parent_model = parent@;
            parent.subrules.push(top);
            assert(parent@.subrules =~= parent_model.subrules.push(top@));
            assert(parent@ == with_child(parent_model, top@));
            proof {
                lemma_rules_view_drop_last(before.drop_last());
                lemma_rules_view_push(self.current_rules@, parent);
            }
            self.current_rules.push(parent);
            assert(rules_view(self.current_rules@) =~= rules_view(before).drop_last().update(
                n - 2,
                with_child(rules_view(before).drop_last().last(), rules_view(before).last()),
            ));
        }
    }

    fn update(&mut self, line: &[char])
        requires
            old(self).wf(),
        ensures
            final(self).wf(),
            final(self)@ == step(old(self)@, line@),
    {
        match self.current_section {
            Section::Heading => {
                if let Some(date) = parse_effective_date(line) {
                    self.edition.effective_date = date;
                } else if line_is(line, "Introduction") {
                    self.current_section = Section::Introduction;
                }
            },
            Section::Introduction => {
                if line_is(line, "Contents") {
                    self.current_section = Section::TableOfContents;
                } else {
                    append_line(&mut self.edition.introduction, line, 0, line.len());
                    assert(line@.subrange(0, line@.len() as int) =~= line@);
                }
            },
            Section::TableOfContents => {
                if line_is(line, "Credits") {
                    self.current_section = Section::Rules;
                }
            },
            Section::Rules => {
                if line_is(line, "Glossary") {
                    let empty: Vec<char> = Vec::new();
                    assert(empty@ =~= seq![]);
                    self.roll_up_until(empty.as_slice());
                    self.current_section = Section::Glossary;
                } else if let Some((id, text)) = parse_rule_line(line) {
                    let idc = chars_of(id.as_str());
                    self.roll_up_until(idc.as_slice());
                    let r = Rule::new(id, text);
                    proof {
                        lemma_rules_view_push(self.current_rules@, r);
                    }
                    self.current_rules.push(r);
                } else if let Some(e) = parse_example_line(line) {
                    let n = self.current_rules.len();
                    if n > 0 {
                        let ghost before = self.current_rules@;
                        proof {
                            lemma_rules_view_drop_last(before);
                        }
                        let mut top = self.current_rules.pop().unwrap();
                        let ghost top_model = top@;
                        top.examples.push(e);
                        assert(top@.examples =~= top_model.examples.push(e@));
                        assert(top@.subrules =~= top_model.subrules);
                        assert(top@ == with_example(top_model, e@));
                        proof {
                            lemma_rules_view_push(self.current_rules@, top);
                        }
                        self.current_rules.push(top);
                        assert(rules_view(self.current_rules@) =~= rules_view(before).update(
                            n - 1,
                            with_example(rules_view(before).last(), e@),
                        ));
                    }
                }
            },
            Section::Glossary => {
                if line.len() == 0 {
                    self.current_term = None;
                } else if line_is(line, "Credits") {
                    self.current_term = None;
                    self.current_section = Section::Credits;
                } else if let Some(term) = self.current_term.take() {
                    let definition = string_of(line, 0, line.len());
                    assert(line@.subrange(0, line@.len() as int) =~= line@);
                    glossary_insert(&mut self.edition.glossary, term, definition);
                } else {
                    let term = string_of(line, 0, line.len());
                    assert(line@.subrange(0, line@.len() as int) =~= line@);
                    self.current_term = Some(term);
                }
            },
            Section::Credits => {
                append_line(&mut self.edition.credits, line, 0, line.len());
                assert(line@.subrange(0, line@.len() as int) =~= line@);
            },
        }
    }

    fn finalize(self) -> (r: Edition)
        ensures
            r@ == self@.edition,
    {
        self.edition
    }
}

/// Parses a whole rules document.
pub fn parse(document: &str) -> (r: Edition)
    ensures
        r@ == parse_model(document@),
{
    let doc = chars_of(document);
    let n = doc.len();
    let mut st = ParserState::new();
    let mut i: usize = 0;
    while i < n
        invariant
            n == doc@.len(),
            doc@ == document@,
            i <= n,
            st.wf(),
            run(st@, lines_from(doc@, i as int)) == run(initial_state(), lines_from(doc@, 0)),
        decreases n - i,
    {
        let mut j: usize = i;
        while j < n && doc[j] != '\n'
            invariant
                i <= j <= n == doc@.len(),
                forall|m: int| i <= m < j ==> doc@[m] != '\n',
            decreases n - j,
        {
            j = j + 1;
        }
        proof {
            lemma_first_newline(doc@, i as int);
            if first_newline(doc@, i as int) < j {
                assert(doc@[first_newline(doc@, i as int)] != '\n');
            }
            if j < first_newline(doc@, i as int) {
                assert(doc@[j as int] != '\n');
            }
        }
        let hi = if j > i && doc[j - 1] == '\r' { j - 1 } else { j };
        let mut line: Vec<char> = Vec::new();
        let mut k: usize = i;
        while k < hi
            invariant
                i <= k <= hi <= n == doc@.len(),
                line@ == doc@.subrange(i as int, k as int),
            decreases hi - k,
        {
            line.push(doc[k]);
            assert(line@ =~= doc@.subrange(i as int, k + 1));
            k = k + 1;
        }
        let ghost rest = if j < n { lines_from(doc@, j + 1) } else { seq![] };
        assert(line@ == strip_cr(doc@.subrange(i as int, j as int))) by {
            if j > i && doc@[j - 1] == '\r' {
                assert(doc@.subrange(i as int, j as int).drop_last() =~= doc@.subrange(i as int, j - 1));
            }
        }
        assert(lines_from(doc@, i as int) == seq![line@] + rest);
        assert((seq![line@] + rest).skip(1) =~= rest);
        st.update(line.as_slice());
        if j == n {
            assert(lines_from(doc@, n as int) =~= seq![]);
            i = n;
        } else {
            i = j + 1;
        }
    }
    assert(lines_from(doc@, i as int) =~= seq![]);
    st.finalize()
}

} // verus!
