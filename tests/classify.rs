use rules::classify::{line_is, parse_effective_date, parse_example_line, parse_rule_line};

fn chars(s: &str) -> Vec<char> {
    s.chars().collect()
}

#[test]
fn rule_line_is_split_into_id_and_text() {
    assert_eq!(
        parse_rule_line(&chars("100.1a. Some text")),
        Some(("100.1a".to_string(), "Some text".to_string()))
    );
    assert_eq!(parse_rule_line(&chars("100 text")), Some(("100".to_string(), "text".to_string())));
    assert_eq!(parse_rule_line(&chars("7. x")), Some(("7".to_string(), "x".to_string())));
    assert_eq!(parse_rule_line(&chars("100.25. y z")), Some(("100.25".to_string(), "y z".to_string())));
}

#[test]
fn other_lines_are_not_rule_lines() {
    assert_eq!(parse_rule_line(&chars("")), None);
    assert_eq!(parse_rule_line(&chars("100.")), None);
    assert_eq!(parse_rule_line(&chars("100. ")), None);
    assert_eq!(parse_rule_line(&chars("10 text")), None);
    assert_eq!(parse_rule_line(&chars("100.a text")), None);
    assert_eq!(parse_rule_line(&chars("100.1ab text")), None);
    assert_eq!(parse_rule_line(&chars(" 100 text")), None);
    assert_eq!(parse_rule_line(&chars("100.1.. text")), None);
    assert_eq!(parse_rule_line(&chars("100 a\nb")), None);
    assert_eq!(parse_rule_line(&chars("Glossary")), None);
}

#[test]
fn example_lines() {
    assert_eq!(parse_example_line(&chars("Example: x y")), Some("x y".to_string()));
    assert_eq!(parse_example_line(&chars("Example: ")), None);
    assert_eq!(parse_example_line(&chars("Example:x")), None);
    assert_eq!(parse_example_line(&chars("example: x")), None);
}

#[test]
fn effective_date_lines() {
    assert_eq!(
        parse_effective_date(&chars("These rules are effective as of August 5, 1993.")),
        Some("August 5, 1993".to_string())
    );
    assert_eq!(parse_effective_date(&chars("These rules are effective as of .")), None);
    assert_eq!(parse_effective_date(&chars("These rules are effective as of x")), None);
    assert_eq!(parse_effective_date(&chars("These rules are effective as of x.. ")), None);
    assert_eq!(parse_effective_date(&chars("These rules are effective as of x..")), Some("x.".to_string()));
}

#[test]
fn exact_line_match() {
    assert!(line_is(&chars("Glossary"), "Glossary"));
    assert!(!line_is(&chars("Glossary "), "Glossary"));
    assert!(!line_is(&chars("Gloss"), "Glossary"));
}
