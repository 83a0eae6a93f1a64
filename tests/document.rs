use cumd::document::{default_template, normalize, render_document, split_template, DocumentError};
use cumd::rules::SyntaxError;

#[test]
fn normalize_turns_soft_breaks_into_stop_tokens() {
    assert_eq!(normalize("a  \nb"), "a\\\\b");
    assert_eq!(normalize("a \nb   \nc"), "a \nb \\\\c");
    assert_eq!(normalize("plain"), "plain");
}

#[test]
fn template_splits_on_marker() {
    assert_eq!(
        split_template("<html>{{cumd}}</html>"),
        Some((String::from("<html>"), String::from("</html>")))
    );
    assert_eq!(split_template("a{{cumd}}b{{cumd}}c"), Some((String::from("a"), String::from("b"))));
    assert_eq!(split_template("no marker"), None);
}

#[test]
fn default_template_is_html5_skeleton() {
    let (head, tail) = default_template();
    assert!(head.starts_with("<!DOCTYPE html>"));
    assert!(head.ends_with("<body>"));
    assert_eq!(tail, "</body></html>");
}

#[test]
fn document_with_template() {
    let page = render_document(
        "b /recursive { <b>{{content}}</b> }",
        "b bold  \nrest",
        Some("<main>{{cumd}}</main>"),
    );
    assert_eq!(page, Ok(String::from("<main><b>bold</b>rest</main>")));
}

#[test]
fn document_with_default_template() {
    let page = render_document("h1 { <h1>{{content}}</h1> }", "h1 Title\nbody", None);
    let (head, tail) = default_template();
    assert_eq!(page, Ok(format!("{}<h1>Title</h1>\nbody{}", head, tail)));
}

#[test]
fn document_reports_style_errors_first() {
    assert_eq!(
        render_document("h1 { <h1> }", "h1 x", Some("no marker")),
        Err(DocumentError::Syntax(SyntaxError::MissingPlaceholder))
    );
}

#[test]
fn document_reports_template_without_marker() {
    assert_eq!(
        render_document("h1 { <h1>{{content}}</h1> }", "h1 x", Some("no marker")),
        Err(DocumentError::Template)
    );
}
