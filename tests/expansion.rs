use cumd::document::expand_text;
use cumd::rules::{compile, Behavior, RuleSet};

fn rules_of(style: &str) -> RuleSet {
    match compile(style) {
        Ok(rules) => rules,
        Err(e) => panic!("style failed to compile: {:?}", e),
    }
}

fn expand(style: &str, input: &str) -> String {
    expand_text(&rules_of(style), input)
}

#[test]
fn plain_rule_wraps_first_line() {
    let out = expand("h1 { <h1>{{content}}</h1> }", "h1 Hello\nWorld");
    assert!(out.starts_with("<h1>Hello</h1>\n"));
    assert_eq!(out, "<h1>Hello</h1>\nWorld");
}

#[test]
fn plain_rule_expands_following_lines() {
    let out = expand("h1 { <h1>{{content}}</h1> }", "h1 One\nh1 Two\nrest");
    assert_eq!(out, "<h1>One</h1>\n<h1>Two</h1>\nrest");
}

#[test]
fn plain_rule_boundary_is_the_newline_after_the_trigger() {
    let out = expand("h1 { <h1>{{content}}</h1> }", "  h1 Hello\nWorld");
    assert_eq!(out, "<h1>Hello</h1>\nWorld");
}

#[test]
fn plain_rule_without_newline_takes_the_rest() {
    let out = expand("h1 { <h1>{{content}}</h1> }", "h1 Hello");
    assert_eq!(out, "<h1>Hello</h1>\n");
}

#[test]
fn plain_rule_needs_the_whole_first_token() {
    let out = expand("h1 { <h1>{{content}}</h1> }", "h1x Hello");
    assert_eq!(out, "h1x Hello");
}

#[test]
fn recursive_rule_stops_at_default_token() {
    let out = expand("b /recursive { <b>{{content}}</b> }", "b bold text\\\\ rest");
    assert!(out.starts_with("<b>bold text</b>"));
    assert_eq!(out, "<b>bold text</b> rest");
}

#[test]
fn recursive_rule_without_stop_token_takes_everything() {
    let out = expand("b /recursive { <b>{{content}}</b> }", "b all of it");
    assert_eq!(out, "<b>all of it</b>");
}

#[test]
fn recursive_rule_nests() {
    let style = "p /recursive { <p>{{content}}</p> }\n\ni /recursive /until ;; { <i>{{content}}</i> }";
    let out = expand(style, "p i inner;;outer\\\\ after");
    assert_eq!(out, "<p><i>inner</i>outer</p> after");
}

#[test]
fn recursive_rule_uses_until_argument_as_stop() {
    let out = expand("p / recursive / until ;; { <p>{{content}}</p> }", "p one;;two");
    assert_eq!(out, "<p>one</p>two");
}

#[test]
fn until_rule_keeps_escaped_triggers_literal() {
    let out = expand("* /until * { <em>{{content}}</em> }", "*em* \\*em\\* *em2*");
    assert_eq!(out, "<em>em</em> *em* <em>em2</em>");
}

#[test]
fn until_rule_closing_token_is_inert() {
    let out = expand("* /until + { <em>{{content}}</em> }", "*a+b*");
    assert_eq!(out, "<em>a+b</em>");
}

#[test]
fn until_rule_with_unclosed_region() {
    let out = expand("* /until * { <em>{{content}}</em> }", "a *b");
    assert_eq!(out, "a <em>b</em>");
}

#[test]
fn until_recursive_rule_expands_inside() {
    let out = expand("* /until * /recursive { <em>{{content}}</em> }", "*a\\nb* c");
    assert_eq!(out, "<em>a<br>b</em> c");
}

#[test]
fn until_plain_rule_keeps_inside_verbatim() {
    let out = expand("* /until * { <em>{{content}}</em> }", "*a\\nb* c\\nd");
    assert_eq!(out, "<em>a\\nb</em> c<br>d");
}

#[test]
fn missing_line_break_rule_is_injected() {
    let rules = rules_of("h1 { <h1>{{content}}</h1> }");
    assert_eq!(rules.rules.len(), 2);
    let last = &rules.rules[1];
    assert_eq!(last.trigger, vec!['\\', 'n']);
    assert!(matches!(last.behaviors[0], Behavior::LineBreak));
    assert_eq!(last.prefix, vec!['<', 'b', 'r', '>']);
    assert!(last.suffix.is_empty());
    assert_eq!(expand_text(&rules, "one\\ntwo"), "one<br>two");
}

#[test]
fn declared_line_break_rule_suppresses_injection() {
    let rules = rules_of("\\n /new-line { <br/> }");
    assert_eq!(rules.rules.len(), 1);
    assert_eq!(expand_text(&rules, "one\\ntwo\\nthree"), "one<br/>two<br/>three");
}

#[test]
fn interrupt_drops_the_rest_of_the_window() {
    let style = "<!-- /interrupt { {{content}} }";
    assert_eq!(expand(style, "kept <!-- dropped"), "kept ");
    assert_eq!(expand(style, "kept <!-- other text entirely"), "kept ");
}

#[test]
fn interrupt_wraps_the_head() {
    let out = expand("end /interrupt { [{{content}}] }", "abc end xyz");
    assert_eq!(out, "[abc ]");
}

#[test]
fn earlier_rule_wins_over_longer_trigger() {
    let style = "x /new-line { <i> }\n\nxx /new-line { <b> }";
    assert_eq!(expand(style, "1xx2"), "1<i><i>2");
}

#[test]
fn earlier_rule_wins_over_shorter_trigger() {
    let style = "xx /new-line { <b> }\n\nx /new-line { <i> }";
    assert_eq!(expand(style, "1xx2"), "1<b>2");
}

#[test]
fn unmatched_text_passes_through() {
    let style = "h1 { <h1>{{content}}</h1> }\n\n* /until * { <em>{{content}}</em> }";
    let text = "nothing to see here\nat all";
    assert_eq!(expand(style, text), text);
    assert_eq!(expand(style, ""), "");
}
