//! Whole documents: normalising the input, expanding it under a compiled
//! style, and wrapping the result in an HTML template.
use vstd::prelude::*;
use crate::expand::{expand, expand_window};
use crate::rules::{RuleSet, SyntaxError, compile, compile_spec};
use crate::text::{
    chars_of, chars_occur_at, lemma_push, lift, lift_chars, occurs_at, push_all, split,
    split_chars, string_of,
};

verus! {

/// Expands `text` under `rules`. Expansion never fails: every rule that
/// matches finds the split point it needs, and text no rule matches is
/// emitted as it is.
pub fn expand_text(rules: &RuleSet, text: &str) -> (r: String)
    ensures
        r@ == expand(rules@, lift(text@)),
{
    let w = lift_chars(&chars_of(text));
    string_of(&expand_window(&rules.rules, &w))
}

/// A line that ends in two spaces.
pub open spec fn soft_break() -> Seq<char> {
    seq![' ', ' ', '\n']
}

/// The default stop token of recursive rules: two backslashes.
pub open spec fn paragraph_stop() -> Seq<char> {
    seq!['\\', '\\']
}

/// `s` from position `i` on, with each two-spaces-and-newline sequence
/// (scanning left to right) replaced by the paragraph stop token.
pub open spec fn normalize_from(s: Seq<char>, i: int) -> Seq<char>
    decreases s.len() - i,
{
    if i < 0 || i >= s.len() {
        seq![]
    } else if occurs_at(s, soft_break(), i) {
        paragraph_stop() + normalize_from(s, i + 3)
    } else {
        seq![s[i]] + normalize_from(s, i + 1)
    }
}

/// Rewrites every line ending in two spaces so that it ends with the
/// paragraph stop token instead.
pub fn normalize(input: &str) -> (r: String)
    ensures
        r@ == normalize_from(input@, 0),
{
    let s = chars_of(input);
    let pattern = vec![' ', ' ', '\n'];
    assert(pattern@ =~= soft_break());
    let mut out: Vec<char> = Vec::new();
    let mut i: usize = 0;
    while i < s.len()
        invariant
            i <= s@.len(),
            pattern@ == soft_break(),
            out@ + normalize_from(s@, i as int) == normalize_from(s@, 0),
        decreases s@.len() - i,
    {
        let ghost before = out@;
        if chars_occur_at(&s, &pattern, i) {
            out.push('\\');
            out.push('\\');
            assert(out@ =~= before + paragraph_stop());
            assert(before + paragraph_stop() + normalize_from(s@, i + 3) =~= before + (
            paragraph_stop() + normalize_from(s@, i + 3)));
            i = i + 3;
        } else {
            let c = s[i];
            out.push(c);
            proof {
                lemma_push(before, c);
            }
            assert(before.push(c) + normalize_from(s@, i + 1) =~= before + (seq![c]
                + normalize_from(s@, i + 1)));
            i = i + 1;
        }
    }
    assert(out@ + normalize_from(s@, i as int) =~= out@);
    string_of(&out)
}

/// Marks where the generated body goes in a template.
pub open spec fn body_marker() -> Seq<char> {
    seq!['{', '{', 'c', 'u', 'm', 'd', '}', '}']
}

/// A template split on its body marker: what precedes the first marker and
/// what follows it up to the next marker, if there is one. None when the
/// template holds no marker.
pub open spec fn template_parts(form: Seq<char>) -> Option<(Seq<char>, Seq<char>)> {
    let pieces = split(form, body_marker());
    if pieces.len() < 2 {
        None
    } else {
        Some((pieces[0], pieces[1]))
    }
}

/// Splits a template into the text before and after the generated body.
pub fn split_template(form: &str) -> (r: Option<(String, String)>)
    ensures
        match r {
            Some((head, tail)) => template_parts(form@) == Some((head@, tail@)),
            None => template_parts(form@) is None,
        },
{
    let marker = vec!['{', '{', 'c', 'u', 'm', 'd', '}', '}'];
    assert(marker@ =~= body_marker());
    let pieces = split_chars(&chars_of(form), &marker);
    let ghost pv = pieces@.map_values(|t: Vec<char>| t@);
    assert(pv.len() == pieces@.len());
    if pieces.len() < 2 {
        return None;
    }
    assert(pv[0] == pieces@[0]@ && pv[1] == pieces@[1]@);
    Some((string_of(&pieces[0]), string_of(&pieces[1])))
}

/// The head of the built-in template: a minimal HTML5 document up to the
/// opening `body` tag.
pub open spec fn default_head() -> Seq<char> {
    "<!DOCTYPE html> \n<html lang=\"en\"> \n<head> \n<meta charset=\"UTF-8\"> \n<meta name=\"viewport\" content=\"width=device-width, initial-scale=1.0\"> \n<title>Document</title> \n<link rel=\"stylesheet\" href=\"style.css\">\n</head> \n<body>"@
}

/// The tail of the built-in template.
pub open spec fn default_tail() -> Seq<char> {
    "</body></html>"@
}

/// The built-in template, as the text before and after the body.
pub fn default_template() -> (r: (String, String))
    ensures
        r.0@ == default_head(),
        r.1@ == default_tail(),
{
    let head = "<!DOCTYPE html> \n<html lang=\"en\"> \n<head> \n<meta charset=\"UTF-8\"> \n<meta name=\"viewport\" content=\"width=device-width, initial-scale=1.0\"> \n<title>Document</title> \n<link rel=\"stylesheet\" href=\"style.css\">\n</head> \n<body>".to_string();
    let tail = "</body></html>".to_string();
    (head, tail)
}

/// Why a document could not be generated.
#[derive(Clone, Copy, PartialEq, Eq, Structural, Debug)]
pub enum DocumentError {
    /// The style source is malformed.
    Syntax(SyntaxError),
    /// The template holds no body marker.
    Template,
}

/// The generated page: the style compiled, the normalised input expanded
/// under it, and the result placed in the template (the built-in one when
/// none is given). A malformed style is reported before the template is
/// looked at.
pub open spec fn document_spec(style: Seq<char>, input: Seq<char>, template: Option<Seq<char>>) -> Result<
    Seq<char>,
    DocumentError,
> {
    match compile_spec(style) {
        Err(e) => Err(DocumentError::Syntax(e)),
        Ok(rules) => {
            let body = expand(rules, lift(normalize_from(input, 0)));
            match template {
                None => Ok(default_head() + body + default_tail()),
                Some(form) => match template_parts(form) {
                    None => Err(DocumentError::Template),
                    Some((head, tail)) => Ok(head + body + tail),
                },
            }
        },
    }
}

pub open spec fn template_view(template: Option<&str>) -> Option<Seq<char>> {
    match template {
        Some(t) => Some(t@),
        None => None,
    }
}

/// Generates the HTML page for `input` styled by `style`, inside
/// `template` (or the built-in template).
pub fn render_document(style: &str, input: &str, template: Option<&str>) -> (r: Result<
    String,
    DocumentError,
>)
    ensures
        match r {
            Ok(page) => document_spec(style@, input@, template_view(template)) == Ok::<
                Seq<char>,
                DocumentError,
            >(page@),
            Err(e) => document_spec(style@, input@, template_view(template)) == Err::<
                Seq<char>,
                DocumentError,
            >(e),
        },
{
    let rules = match compile(style) {
        Err(e) => {
            return Err(DocumentError::Syntax(e));
        },
        Ok(rules) => rules,
    };
    let normalized = normalize(input);
    let body = expand_text(&rules, normalized.as_str());
    let (head, tail) = match template {
        None => default_template(),
        Some(form) => match split_template(form) {
            None => {
                return Err(DocumentError::Template);
            },
            Some(parts) => parts,
        },
    };
    let mut page = chars_of(head.as_str());
    push_all(&mut page, &chars_of(body.as_str()));
    push_all(&mut page, &chars_of(tail.as_str()));
    Ok(string_of(&page))
}

} // verus!
