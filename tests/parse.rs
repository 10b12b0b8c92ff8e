use rules::parser::parse;
use rules::{Edition, Rule};

fn document(body: &[&str]) -> String {
    let mut lines: Vec<&str> = vec![
        "Magic: The Gathering Comprehensive Rules",
        "Introduction",
        "This document is the ultimate authority.",
        "Contents",
        "1. Game Concepts",
        "100. General",
        "Glossary",
        "Credits",
    ];
    lines.extend_from_slice(body);
    lines.join("\n")
}

fn ids(rules: &[Rule]) -> Vec<String> {
    rules.iter().map(|r| r.id.clone()).collect()
}

fn definition<'a>(e: &'a Edition, term: &str) -> Option<&'a str> {
    e.glossary.iter().find(|(t, _)| t == term).map(|(_, d)| d.as_str())
}

fn preorder(rules: &[Rule], out: &mut Vec<String>) {
    for r in rules {
        out.push(r.id.clone());
        preorder(&r.subrules, out);
    }
}

#[test]
fn nested_rules_are_rebuilt() {
    let e = parse(&document(&[
        "100. General",
        "100.1. These Magic rules apply to any game.",
        "100.1a A two-player game is a game that begins with only two players.",
        "100.2. To play, each player needs their own deck.",
        "101. The Magic Golden Rules",
        "Glossary",
    ]));
    assert_eq!(ids(&e.rules), vec!["100", "101"]);
    let r100 = &e.rules[0];
    assert_eq!(r100.text, "General");
    assert_eq!(ids(&r100.subrules), vec!["100.1", "100.2"]);
    assert_eq!(ids(&r100.subrules[0].subrules), vec!["100.1a"]);
    assert_eq!(
        r100.subrules[0].subrules[0].text,
        "A two-player game is a game that begins with only two players."
    );
    assert!(r100.subrules[1].subrules.is_empty());
    assert!(e.rules[1].subrules.is_empty());
    assert_eq!(e.rules[1].text, "The Magic Golden Rules");
}

#[test]
fn glossary_line_closes_every_open_rule() {
    let e = parse(&document(&[
        "1. Game Concepts",
        "100. General",
        "100.1. First",
        "100.1a Deep",
        "100.1b Deeper sibling",
        "Glossary",
        "Credits",
    ]));
    let mut all = Vec::new();
    preorder(&e.rules, &mut all);
    assert_eq!(all, vec!["1", "100", "100.1", "100.1a", "100.1b"]);
    assert_eq!(ids(&e.rules), vec!["1"]);
    assert_eq!(ids(&e.rules[0].subrules), vec!["100"]);
}

#[test]
fn unterminated_rules_are_not_in_the_edition() {
    let e = parse(&document(&["100. General", "100.1. First"]));
    assert!(e.rules.is_empty());
}

#[test]
fn subrule_ids_extend_their_parent() {
    let e = parse(&document(&[
        "100. General",
        "100.1. A",
        "100.1a B",
        "100.1b C",
        "100.2. D",
        "101. E",
        "101.1. F",
        "Glossary",
    ]));
    for r in &e.rules {
        check_nesting(r);
    }
    assert_eq!(ids(&e.rules), vec!["100", "101"]);
}

fn check_nesting(r: &Rule) {
    for (i, c) in r.subrules.iter().enumerate() {
        assert!(c.id.starts_with(&r.id) && c.id != r.id);
        for (j, d) in r.subrules.iter().enumerate() {
            if i != j {
                assert!(!d.id.starts_with(&c.id));
            }
        }
        check_nesting(c);
    }
}

#[test]
fn example_attaches_to_most_recent_rule() {
    let e = parse(&document(&[
        "100. General",
        "100.1. First",
        "100.1a Deep",
        "Example: A deck of sixty cards.",
        "100.2. Second",
        "Glossary",
    ]));
    let r100 = &e.rules[0];
    assert!(r100.examples.is_empty());
    assert!(r100.subrules[0].examples.is_empty());
    assert_eq!(r100.subrules[0].subrules[0].examples, vec!["A deck of sixty cards."]);
    assert!(r100.subrules[1].examples.is_empty());
}

#[test]
fn example_without_open_rule_is_dropped() {
    let e = parse(&document(&["Example: nothing to attach to.", "100. General", "Glossary"]));
    assert_eq!(ids(&e.rules), vec!["100"]);
    assert!(e.rules[0].examples.is_empty());
}

#[test]
fn effective_date_is_extracted() {
    let e = parse("Comprehensive Rules\nThese rules are effective as of August 5, 1993.\nIntroduction\n");
    assert_eq!(e.effective_date, "August 5, 1993");
    let e = parse("These rules are effective as of June 9, 2023.\n");
    assert_eq!(e.effective_date, "June 9, 2023");
}

#[test]
fn effective_date_defaults_without_statement() {
    let e = parse("Comprehensive Rules\nIntroduction\n");
    assert_eq!(e.effective_date, "August 5, 1993");
    let e = parse("These rules are effective as of June 9, 2023\n");
    assert_eq!(e.effective_date, "August 5, 1993");
}

#[test]
fn effective_date_only_read_in_heading() {
    let e = parse("Introduction\nThese rules are effective as of June 9, 2023.\n");
    assert_eq!(e.effective_date, "August 5, 1993");
    assert_eq!(e.introduction, "These rules are effective as of June 9, 2023.\n");
}

#[test]
fn glossary_pairs_terms_with_definitions() {
    let e = parse(&document(&[
        "100. General",
        "Glossary",
        "Flying",
        "A creature with flying can't be blocked except by creatures with flying and/or reach.",
        "",
        "Haste",
        "A creature with haste can attack as soon as it comes under its controller's control.",
        "",
        "Trample",
        "Credits",
        "Lead Designer",
    ]));
    assert_eq!(e.glossary.len(), 2);
    assert_eq!(
        definition(&e, "Flying"),
        Some("A creature with flying can't be blocked except by creatures with flying and/or reach.")
    );
    assert_eq!(
        definition(&e, "Haste"),
        Some("A creature with haste can attack as soon as it comes under its controller's control.")
    );
    assert_eq!(definition(&e, "Trample"), None);
    assert_eq!(e.credits, "Lead Designer\n");
}

#[test]
fn glossary_repeated_term_keeps_last_definition() {
    let e = parse(&document(&["Glossary", "Flying", "old", "", "Flying", "new", "Credits"]));
    assert_eq!(e.glossary.len(), 1);
    assert_eq!(definition(&e, "Flying"), Some("new"));
}

#[test]
fn glossary_without_blank_line_alternates() {
    let e = parse(&document(&["Glossary", "A", "a", "B", "b", "Credits"]));
    assert_eq!(definition(&e, "A"), Some("a"));
    assert_eq!(definition(&e, "B"), Some("b"));
    assert_eq!(e.glossary.len(), 2);
}

#[test]
fn lookup_finds_exact_rule() {
    let e = parse(&document(&[
        "100. General",
        "100.1. First",
        "100.1a Deep",
        "100.2. Second",
        "101. Other",
        "Glossary",
    ]));
    let r = e.lookup("100.1a").unwrap();
    assert_eq!(r.id, "100.1a");
    assert_eq!(r.text, "Deep");
    assert_eq!(e.lookup("100.2").unwrap().text, "Second");
    assert_eq!(e.lookup("101").unwrap().text, "Other");
    assert!(e.lookup("999").is_none());
    assert!(e.lookup("100.3").is_none());
    assert!(e.lookup("").is_none());
}

#[test]
fn rule_lookup_searches_own_subtree() {
    let mut parent = Rule::new("100".to_string(), "General".to_string());
    let mut child = Rule::new("100.1".to_string(), "First".to_string());
    child.subrules.push(Rule::new("100.1a".to_string(), "Deep".to_string()));
    parent.subrules.push(child);
    assert_eq!(parent.lookup("100").unwrap().text, "General");
    assert_eq!(parent.lookup("100.1a").unwrap().text, "Deep");
    assert!(parent.lookup("100.2").is_none());
    assert!(parent.lookup("101").is_none());
}

#[test]
fn new_rule_is_empty() {
    let r = Rule::new("702.9".to_string(), "Flying".to_string());
    assert_eq!(r.id, "702.9");
    assert_eq!(r.text, "Flying");
    assert!(r.subrules.is_empty());
    assert!(r.examples.is_empty());
    assert!(r.renumbered_from.is_none());
}

#[test]
fn new_edition_is_empty() {
    let e = Edition::new();
    assert_eq!(e.effective_date, "August 5, 1993");
    assert!(e.introduction.is_empty());
    assert!(e.rules.is_empty());
    assert!(e.glossary.is_empty());
    assert!(e.credits.is_empty());
}

#[test]
fn empty_document_gives_empty_edition() {
    let e = parse("");
    assert_eq!(e.effective_date, "August 5, 1993");
    assert!(e.rules.is_empty());
    assert!(e.introduction.is_empty());
    assert!(e.credits.is_empty());
}

#[test]
fn introduction_and_credits_accumulate_lines() {
    let e = parse("Title\nIntroduction\nFirst line.\n\nSecond line.\nContents\nignored\nCredits\n100. General\nGlossary\nCredits\nThanks to all.\nGlossary\n");
    assert_eq!(e.introduction, "First line.\n\nSecond line.\n");
    assert_eq!(e.credits, "Thanks to all.\nGlossary\n");
    assert_eq!(ids(&e.rules), vec!["100"]);
}

#[test]
fn table_of_contents_is_ignored() {
    let e = parse("Introduction\nContents\n100. General\nGlossary\nCredits\n101. Real\nGlossary\n");
    assert_eq!(ids(&e.rules), vec!["101"]);
}

#[test]
fn carriage_returns_are_stripped() {
    let e = parse("These rules are effective as of May 1, 2020.\r\nIntroduction\r\nHello\r\nContents\r\nCredits\r\n100. General\r\nGlossary\r\n");
    assert_eq!(e.effective_date, "May 1, 2020");
    assert_eq!(e.introduction, "Hello\n");
    assert_eq!(ids(&e.rules), vec!["100"]);
    assert_eq!(e.rules[0].text, "General");
}

#[test]
fn rule_line_shapes() {
    let e = parse(&document(&[
        "2 Bare digit",
        "12 not a rule",
        "100.x not a rule",
        "100.1a.  spaced",
        "100.12b text",
        "1000. not a rule",
        "100.1A not a rule",
        "100. ",
        "100.3",
        "Glossary",
    ]));
    let mut all = Vec::new();
    preorder(&e.rules, &mut all);
    assert_eq!(all, vec!["2", "100.1a", "100.12b"]);
    assert_eq!(ids(&e.rules), vec!["2", "100.1a", "100.12b"]);
    assert_eq!(e.rules[0].text, "Bare digit");
    assert_eq!(e.rules[1].text, " spaced");
    assert_eq!(e.rules[2].text, "text");
}

#[test]
fn non_ascii_text_is_kept() {
    let e = parse(&document(&["100. Général — ünïcode", "Example: é", "Glossary", "Æther", "Définition", "Credits"]));
    assert_eq!(e.rules[0].text, "Général — ünïcode");
    assert_eq!(e.rules[0].examples, vec!["é"]);
    assert_eq!(definition(&e, "Æther"), Some("Définition"));
}
