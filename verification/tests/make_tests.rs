use asmbl::Rule;

fn rule(targets: &[&str], prerequisites: &[&str]) -> Rule {
    Rule {
        targets: targets.iter().map(|s| s.to_string()).collect(),
        prerequisites: prerequisites.iter().map(|s| s.to_string()).collect(),
    }
}

#[test]
fn can_parse_rule() {
    assert_eq!(
        asmbl::make::parse("target: prerequisite").unwrap(),
        vec![rule(&["target"], &["prerequisite"])]
    );
    assert_eq!(
        asmbl::make::parse("a b c: d e  f").unwrap(),
        vec![rule(&["a", "b", "c"], &["d", "e", "f"])]
    );
    assert_eq!(
        asmbl::make::parse("a\tb\tc:").unwrap(),
        vec![rule(&["a", "b", "c"], &[])]
    );
    assert_eq!(
        asmbl::make::parse("a\\\nb\\\n:\\\nd\\\n").unwrap(),
        vec![rule(&["a", "b"], &["d"])]
    );
}

#[test]
fn can_parse_rules() {
    assert_eq!(
        asmbl::make::parse(
            "a b: c d
                  x y: z"
        )
        .unwrap(),
        vec![rule(&["a", "b"], &["c", "d"]), rule(&["x", "y"], &["z"])]
    );
    assert_eq!(
        asmbl::make::parse(
            "a b: c d

                  x y: z"
        )
        .unwrap(),
        vec![rule(&["a", "b"], &["c", "d"]), rule(&["x", "y"], &["z"])]
    );
}

#[test]
fn can_parse_ident() {
    assert_eq!(
        asmbl::make::parse("abc/main.cake: 3").unwrap(),
        vec![rule(&["abc/main.cake"], &["3"])]
    );
}

#[test]
fn cake_crosses_targets_with_prerequisites() {
    let pairs = asmbl::cake("a b: c d").unwrap();
    let expected: Vec<(String, String)> = vec![
        ("a".to_string(), "c".to_string()),
        ("a".to_string(), "d".to_string()),
        ("b".to_string(), "c".to_string()),
        ("b".to_string(), "d".to_string()),
    ];
    assert_eq!(pairs, expected);
}

#[test]
fn it_works() {
    assert_eq!(2 + 2, 4);
}
