use vstd::prelude::*;

pub mod classify;
pub mod laws;
pub mod parser;
pub mod text;

verus! {

/// The abstract value of a rule: identifier, body text, nested rules and examples.
pub ghost struct RuleModel {
    pub id: Seq<char>,
    pub text: Seq<char>,
    pub subrules: Seq<RuleModel>,
    pub examples: Seq<Seq<char>>,
    pub renumbered_from: Option<Seq<char>>,
}

/// The abstract value of a parsed rules document.
pub ghost struct EditionModel {
    pub effective_date: Seq<char>,
    pub introduction: Seq<char>,
    pub rules: Seq<RuleModel>,
    pub glossary: Map<Seq<char>, Seq<char>>,
    pub credits: Seq<char>,
}

/// A numbered rule and the rules nested under it.
pub struct Rule {
    pub id: String,
    pub text: String,
    pub subrules: Vec<Rule>,
    pub examples: Vec<String>,
    pub renumbered_from: Option<String>,
}

/// A parsed rules document.
///
/// The glossary holds its entries as (term, definition) pairs in the order in
/// which the terms first appeared; no term occurs twice.
pub struct Edition {
    pub effective_date: String,
    pub introduction: String,
    pub rules: Vec<Rule>,
    pub glossary: Vec<(String, String)>,
    pub credits: String,
}

pub open spec fn strings_view(s: Seq<String>) -> Seq<Seq<char>> {
    Seq::new(s.len(), |i: int| s[i]@)
}

pub open spec fn rule_view(r: Rule) -> RuleModel
    decreases r,
{
    RuleModel {
        id: r.id@,
        text: r.text@,
        subrules: Seq::new(
            r.subrules@.len(),
            |i: int|
                if 0 <= i < r.subrules@.len() {
                    rule_view(r.subrules@[i])
                } else {
                    arbitrary()
                },
        ),
        examples: strings_view(r.examples@),
        renumbered_from: match r.renumbered_from {
            Some(s) => Some(s@),
            None => None,
        },
    }
}

pub open spec fn rules_view(rs: Seq<Rule>) -> Seq<RuleModel> {
    Seq::new(rs.len(), |i: int| rule_view(rs[i]))
}

/// The mapping that a list of (term, definition) pairs describes.
pub open spec fn glossary_map(g: Seq<(String, String)>) -> Map<Seq<char>, Seq<char>>
    decreases g.len(),
{
    if g.len() == 0 {
        Map::empty()
    } else {
        glossary_map(g.drop_last()).insert(g.last().0@, g.last().1@)
    }
}

/// No term occurs twice in the list.
pub open spec fn terms_unique(g: Seq<(String, String)>) -> bool {
    forall|i: int, j: int| 0 <= i < j < g.len() ==> g[i].0@ != g[j].0@
}

impl View for Rule {
    type V = RuleModel;

    open spec fn view(&self) -> RuleModel {
        rule_view(*self)
    }
}

impl View for Edition {
    type V = EditionModel;

    open spec fn view(&self) -> EditionModel {
        EditionModel {
            effective_date: self.effective_date@,
            introduction: self.introduction@,
            rules: rules_view(self.rules@),
            glossary: glossary_map(self.glossary@),
            credits: self.credits@,
        }
    }
}

/// The effective date an edition carries until a heading line names one.
pub open spec fn default_effective_date() -> Seq<char> {
    "August 5, 1993"@
}

/// A fresh rule with the given id and text, and nothing nested under it.
pub open spec fn new_rule_model(id: Seq<char>, text: Seq<char>) -> RuleModel {
    RuleModel { id, text, subrules: seq![], examples: seq![], renumbered_from: None }
}

/// An edition with the default effective date and nothing else.
pub open spec fn empty_edition() -> EditionModel {
    EditionModel {
        effective_date: default_effective_date(),
        introduction: seq![],
        rules: seq![],
        glossary: Map::empty(),
        credits: seq![],
    }
}

/// `rules[i]` is the first of `rules` whose id is a prefix of `id`.
pub open spec fn is_first_prefix(rules: Seq<RuleModel>, id: Seq<char>, i: int) -> bool {
    &&& 0 <= i < rules.len()
    &&& rules[i].id.is_prefix_of(id)
    &&& forall|j: int| 0 <= j < i ==> !(#[trigger] rules[j]).id.is_prefix_of(id)
}

/// The rule that a descent through `rules` finds for `id`: the first rule whose
/// id is a prefix of `id`, itself if the ids are equal, else the search goes on
/// among its subrules.
pub open spec fn lookup_in(rules: Seq<RuleModel>, id: Seq<char>) -> Option<RuleModel>
    decreases rules,
{
    if exists|i: int| is_first_prefix(rules, id, i) {
        let i = choose|i: int| is_first_prefix(rules, id, i);
        if rules[i].id == id {
            Some(rules[i])
        } else {
            lookup_in(rules[i].subrules, id)
        }
    } else {
        None
    }
}

impl Edition {
    /// An empty edition that carries the default effective date.
    pub fn new() -> (r: Edition)
        ensures
            r@ == empty_edition(),
            r.glossary@.len() == 0,
    {
        let r = Edition {
            effective_date: "August 5, 1993".to_owned(),
            introduction: String::new(),
            rules: Vec::new(),
            glossary: Vec::new(),
            credits: String::new(),
        };
        assert(r@.rules =~= seq![]);
        assert(glossary_map(r.glossary@) == Map::<Seq<char>, Seq<char>>::empty());
        r
    }

    /// The rule with the id `rule`, found by descending from the top-level
    /// rules through the first rule whose id is a prefix of `rule`.
    pub fn lookup(&self, rule: &str) -> (r: Option<&Rule>)
        ensures
            match r {
                Some(x) => x@.id == rule@ && lookup_in(self@.rules, rule@) == Some(x@),
                None => lookup_in(self@.rules, rule@) is None,
            },
    {
        Rule::find_recursive(self.rules.as_slice(), rule)
    }
}

impl Rule {
    /// A rule with nothing nested under it and no examples.
    pub fn new(id: String, text: String) -> (r: Rule)
        ensures
            r@ == new_rule_model(id@, text@),
    {
        let r = Rule { id: id, text: text, subrules: Vec::new(), examples: Vec::new(), renumbered_from: None };
        assert(r@.subrules =~= seq![]);
        assert(r@.examples =~= seq![]);
        r
    }

    /// This rule if it has the id `id`, else the rule that a descent through
    /// its subrules finds.
    pub fn lookup(&self, id: &str) -> (r: Option<&Rule>)
        ensures
            match r {
                Some(x) => x@.id == id@ && (if self@.id == id@ {
                    x@ == self@
                } else {
                    lookup_in(self@.subrules, id@) == Some(x@)
                }),
                None => self@.id != id@ && lookup_in(self@.subrules, id@) is None,
            },
    {
        if crate::text::str_eq(&self.id, id) {
            Some(self)
        } else {
            assert(self@.subrules =~= rules_view(self.subrules@));
            Rule::find_recursive(self.subrules.as_slice(), id)
        }
    }

    /// The position of the first rule whose id is a prefix of `id`.
    fn find_prefix<'a>(rules: &'a [Rule], id: &str) -> (r: Option<usize>)
        ensures
            match r {
                Some(i) => i < rules@.len() && rules@[i as int].id@.is_prefix_of(id@) && forall|j: int|
                    0 <= j < i ==> !rules@[j].id@.is_prefix_of(id@),
                None => forall|j: int| 0 <= j < rules@.len() ==> !rules@[j].id@.is_prefix_of(id@),
            },
    {
        let mut i: usize = 0;
        while i < rules.len()
            invariant
                i <= rules@.len(),
                forall|j: int| 0 <= j < i ==> !rules@[j].id@.is_prefix_of(id@),
            decreases rules@.len() - i,
        {
            if crate::text::starts_with(id, &rules[i].id) {
                return Some(i);
            }
            i = i + 1;
        }
        None
    }

    fn find_recursive<'a>(rules: &'a [Rule], id: &str) -> (r: Option<&'a Rule>)
        ensures
            match r {
                Some(x) => lookup_in(rules_view(rules@), id@) == Some(x@) && x@.id == id@,
                None => lookup_in(rules_view(rules@), id@) is None,
            },
        decreases rules@,
    {
        let ghost rv = rules_view(rules@);
        match Rule::find_prefix(rules, id) {
            None => {
                assert(!exists|i: int| is_first_prefix(rv, id@, i));
                None
            },
            Some(i) => {
                assert(is_first_prefix(rv, id@, i as int));
                let ghost k = choose|k: int| is_first_prefix(rv, id@, k);
                assert(k == i as int) by {
                    if k < i {
                        assert(!rv[k].id.is_prefix_of(id@));
                    }
                    if i < k {
                        assert(!rv[i as int].id.is_prefix_of(id@));
                    }
                }
                let first = &rules[i];
                if crate::text::str_eq(&first.id, id) {
                    Some(first)
                } else {
                    assert(decreases_to!(rules@ => rules@[i as int]));
                    assert(decreases_to!(rules@[i as int] => rules@[i as int].subrules));
                    let sub = first.subrules.as_slice();
                    assert(rules_view(sub@) =~= rv[i as int].subrules);
                    Rule::find_recursive(sub, id)
                }
            },
        }
    }
}

} // verus!
