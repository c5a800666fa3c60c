use ttags::rewrite::{apply_rewrites, parse_rule_line, read_rules, split_lines, try_read_rules, Rewrite, RuleError};

#[test]
fn rule_lines() {
    assert_eq!(parse_rule_line(" FOO\\(\\) | BAR "), Some(("FOO\\(\\)".to_string(), "BAR".to_string())));
    assert_eq!(parse_rule_line("a|"), Some(("a".to_string(), "".to_string())));
    assert_eq!(parse_rule_line("no rule here"), None);
    assert_eq!(parse_rule_line("a|b|c"), None);
    assert_eq!(parse_rule_line(""), None);
}

#[test]
fn lines_of_a_file() {
    assert_eq!(split_lines(b"a\nb\r\nc"), vec![b"a".to_vec(), b"b".to_vec(), b"c".to_vec()]);
    assert_eq!(split_lines(b"a\n\n"), vec![b"a".to_vec(), b"".to_vec()]);
    assert_eq!(split_lines(b"x\r"), vec![b"x\r".to_vec()]);
    assert!(split_lines(b"").is_empty());
}

#[test]
fn rules_file() {
    let rules = read_rules(b"API_EXPORT | \n# comment\nint32 | int\n");
    assert_eq!(rules.len(), 2);
    assert_eq!(apply_rewrites(&rules, "API_EXPORT int32 f(int32 a);"), " int f(int a);");
    assert_eq!(try_read_rules(b"API_EXPORT | \n# comment\nint32 | int\n").ok().map(|r| r.len()), Some(2));
    assert!(matches!(try_read_rules(b"ok | x\n(unclosed | y\n"), Err(RuleError::InvalidPattern)));
    assert!(matches!(try_read_rules(b"a | b\n\xff\xfe | c\n"), Err(RuleError::InvalidUtf8)));
    assert!(read_rules(b"").is_empty());
}

#[test]
fn a_rule_replaces_every_match() {
    let rule = Rewrite::new("[0-9]+", "N").ok().unwrap();
    assert_eq!(apply_rewrites(&vec![rule], "a1b22c"), "aNbNc");
    let rules = vec![Rewrite::new("a", "b").ok().unwrap(), Rewrite::new("b", "c").ok().unwrap()];
    assert_eq!(apply_rewrites(&rules, "ab"), "cc");
    assert!(matches!(Rewrite::new("(", "x"), Err(RuleError::InvalidPattern)));
}
