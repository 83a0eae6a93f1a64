use cumd::rules::{compile, Behavior, SyntaxError};

fn error_of(style: &str) -> SyntaxError {
    match compile(style) {
        Ok(_) => panic!("style compiled"),
        Err(e) => e,
    }
}

#[test]
fn statement_fields() {
    let rules = match compile("h2 : heading / recursive { <h2 class=\"t\">{{content}}</h2> }") {
        Ok(r) => r,
        Err(e) => panic!("{:?}", e),
    };
    let rule = &rules.rules[0];
    assert_eq!(rule.trigger, vec!['h', '2']);
    assert_eq!(rule.alias.iter().collect::<String>(), "heading");
    assert_eq!(rule.behaviors.len(), 1);
    assert!(matches!(rule.behaviors[0], Behavior::Recursive));
    assert_eq!(rule.prefix.iter().collect::<String>(), "<h2 class=\"t\">");
    assert_eq!(rule.suffix.iter().collect::<String>(), "</h2>");
}

#[test]
fn until_argument_is_kept() {
    let rules = match compile("* /until ;; { <em>{{content}}</em> }") {
        Ok(r) => r,
        Err(e) => panic!("{:?}", e),
    };
    match &rules.rules[0].behaviors[0] {
        Behavior::Until(t) => assert_eq!(t, &vec![';', ';']),
        other => panic!("{:?}", other),
    }
}

#[test]
fn statements_split_on_blank_line_after_brace() {
    let rules = match compile("a { <a>{{content}}</a> }\n\nb { <b>{{content}}</b> }\n") {
        Ok(r) => r,
        Err(e) => panic!("{:?}", e),
    };
    assert_eq!(rules.rules.len(), 3);
    assert_eq!(rules.rules[0].suffix.iter().collect::<String>(), "</a>");
    assert_eq!(rules.rules[1].trigger, vec!['b']);
}

#[test]
fn missing_brace() {
    assert_eq!(error_of("h1 <h1>"), SyntaxError::MissingBrace);
}

#[test]
fn trailing_separator_leaves_an_empty_statement() {
    assert_eq!(error_of("h1 { <h1>{{content}}</h1> }\n\n"), SyntaxError::MissingBrace);
}

#[test]
fn missing_trigger() {
    assert_eq!(error_of("   { {{content}} }"), SyntaxError::MissingTrigger);
}

#[test]
fn missing_alias() {
    assert_eq!(error_of("h1 : { {{content}} }"), SyntaxError::MissingAlias);
}

#[test]
fn missing_behavior() {
    assert_eq!(error_of("h1 / { {{content}} }"), SyntaxError::MissingBehavior);
}

#[test]
fn unknown_behavior() {
    assert_eq!(error_of("h1 /bogus { {{content}} }"), SyntaxError::UnknownBehavior);
    assert_eq!(error_of("h1 / bogus { {{content}} }"), SyntaxError::UnknownBehavior);
}

#[test]
fn missing_until_argument() {
    assert_eq!(error_of("h1 /until { {{content}} }"), SyntaxError::MissingUntilArgument);
}

#[test]
fn missing_placeholder() {
    assert_eq!(error_of("h1 { <h1> }"), SyntaxError::MissingPlaceholder);
    assert_eq!(error_of("<!-- /interrupt { }"), SyntaxError::MissingPlaceholder);
}

#[test]
fn extra_placeholder() {
    assert_eq!(error_of("h1 { {{content}}{{content}} }"), SyntaxError::ExtraPlaceholder);
}

#[test]
fn line_break_rule_needs_no_placeholder() {
    let rules = match compile("br /new-line { <br> }") {
        Ok(r) => r,
        Err(e) => panic!("{:?}", e),
    };
    assert_eq!(rules.rules.len(), 1);
    assert_eq!(rules.rules[0].prefix.iter().collect::<String>(), "<br>");
    assert!(rules.rules[0].suffix.is_empty());
}

#[test]
fn first_bad_statement_decides() {
    assert_eq!(error_of("a /x { {{content}} }\n\nb { }"), SyntaxError::UnknownBehavior);
}
