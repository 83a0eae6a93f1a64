//! Rules, rule sets, and the compiler from style source text to a rule set.
use vstd::prelude::*;
use crate::text::{
    char_range, chars_equal, chars_of, copy_chars, find, find_chars, lemma_find_from, lemma_push,
    lemma_tokens_nonempty, remove_char, split, split_chars, split_tokens, tokens, trim, trim_chars,
    without,
};

verus! {

/// A behavior tag of a rule. A rule with no tag is a plain rule.
#[derive(Debug)]
pub enum Behavior {
    Recursive,
    Interrupt,
    LineBreak,
    Until(Vec<char>),
}

pub enum BehaviorView {
    Recursive,
    Interrupt,
    LineBreak,
    Until(Seq<char>),
}

impl View for Behavior {
    type V = BehaviorView;

    open spec fn view(&self) -> BehaviorView {
        match self {
            Behavior::Recursive => BehaviorView::Recursive,
            Behavior::Interrupt => BehaviorView::Interrupt,
            Behavior::LineBreak => BehaviorView::LineBreak,
            Behavior::Until(t) => BehaviorView::Until(t@),
        }
    }
}

/// One compiled rule: a trigger, a descriptive alias, its behavior tags in
/// the order they were declared, and the HTML placed before and after the
/// captured content.
#[derive(Debug)]
pub struct Rule {
    pub trigger: Vec<char>,
    pub alias: Vec<char>,
    pub behaviors: Vec<Behavior>,
    pub prefix: Vec<char>,
    pub suffix: Vec<char>,
}

pub struct RuleView {
    pub trigger: Seq<char>,
    pub alias: Seq<char>,
    pub behaviors: Seq<BehaviorView>,
    pub prefix: Seq<char>,
    pub suffix: Seq<char>,
}

pub open spec fn behavior_view(b: Behavior) -> BehaviorView {
    b@
}

pub open spec fn behaviors_view(bs: Seq<Behavior>) -> Seq<BehaviorView> {
    Seq::new(bs.len(), |i: int| behavior_view(bs[i]))
}

impl View for Rule {
    type V = RuleView;

    open spec fn view(&self) -> RuleView {
        RuleView {
            trigger: self.trigger@,
            alias: self.alias@,
            behaviors: behaviors_view(self.behaviors@),
            prefix: self.prefix@,
            suffix: self.suffix@,
        }
    }
}

/// The compiled rules, in declaration order; earlier rules take priority.
#[derive(Debug)]
pub struct RuleSet {
    pub rules: Vec<Rule>,
}

pub open spec fn rule_view(r: Rule) -> RuleView {
    r@
}

pub open spec fn rules_view(rs: Seq<Rule>) -> Seq<RuleView> {
    Seq::new(rs.len(), |i: int| rule_view(rs[i]))
}

impl View for RuleSet {
    type V = Seq<RuleView>;

    open spec fn view(&self) -> Seq<RuleView> {
        rules_view(self.rules@)
    }
}

/// A malformed statement in a style source.
#[derive(Clone, Copy, PartialEq, Eq, Structural, Debug)]
pub enum SyntaxError {
    /// The statement has no `{`.
    MissingBrace,
    /// Nothing precedes the `{` of the statement.
    MissingTrigger,
    /// A `:` is the last token before the `{`.
    MissingAlias,
    /// A `/` is the last token before the `{`.
    MissingBehavior,
    /// A `/` is followed by a word that names no behavior.
    UnknownBehavior,
    /// `/ until` has no closing token after it.
    MissingUntilArgument,
    /// The body lacks the content placeholder.
    MissingPlaceholder,
    /// The body holds the content placeholder more than once.
    ExtraPlaceholder,
}

pub open spec fn has_behavior(bs: Seq<BehaviorView>, b: BehaviorView) -> bool {
    exists|j: int| 0 <= j < bs.len() && bs[j] == b
}

/// Well-formed rule: a non-empty trigger, a non-empty closing token for
/// every `Until`, and no suffix on a line-break rule.
pub open spec fn rule_wf(r: RuleView) -> bool {
    &&& r.trigger.len() > 0
    &&& forall|j: int|
        0 <= j < r.behaviors.len() ==> (#[trigger] r.behaviors[j] matches BehaviorView::Until(
            t,
        ) ==> t.len() > 0)
    &&& has_behavior(r.behaviors, BehaviorView::LineBreak) ==> r.suffix.len() == 0
}

pub open spec fn rules_wf(rs: Seq<RuleView>) -> bool {
    forall|i: int| 0 <= i < rs.len() ==> rule_wf(#[trigger] rs[i])
}

// ---------------------------------------------------------------------------
// The style language

/// Separates statements: a closing brace followed by a blank line.
pub open spec fn statement_separator() -> Seq<char> {
    seq!['}', '\n', '\n']
}

/// Marks where the captured content goes in a rule's body.
pub open spec fn content_placeholder() -> Seq<char> {
    seq!['{', '{', 'c', 'o', 'n', 't', 'e', 'n', 't', '}', '}']
}

pub open spec fn word_recursive() -> Seq<char> {
    seq!['r', 'e', 'c', 'u', 'r', 's', 'i', 'v', 'e']
}

pub open spec fn word_interrupt() -> Seq<char> {
    seq!['i', 'n', 't', 'e', 'r', 'r', 'u', 'p', 't']
}

pub open spec fn word_new_line() -> Seq<char> {
    seq!['n', 'e', 'w', '-', 'l', 'i', 'n', 'e']
}

pub open spec fn word_until() -> Seq<char> {
    seq!['u', 'n', 't', 'i', 'l']
}

/// The forced line-break marker of the input: a backslash and an `n`.
pub open spec fn line_break_marker() -> Seq<char> {
    seq!['\\', 'n']
}

/// The line-break element.
pub open spec fn line_break_element() -> Seq<char> {
    seq!['<', 'b', 'r', '>']
}

/// The rule appended when a style declares no line-break rule.
pub open spec fn synthetic_line_break() -> RuleView {
    RuleView {
        trigger: line_break_marker(),
        alias: seq!['n', 'e', 'w', '-', 'l', 'i', 'n', 'e'],
        behaviors: seq![BehaviorView::LineBreak],
        prefix: line_break_element(),
        suffix: seq![],
    }
}

/// A token that introduces a behavior: `/` alone (the keyword is the next
/// token) or `/keyword` written as one token.
pub open spec fn is_slash_clause(tok: Seq<char>) -> bool {
    tok.len() >= 1 && tok[0] == '/'
}

/// The clauses after the trigger, from token `i` on: `: alias` sets the
/// alias, `/ keyword` (or `/keyword`) adds a behavior, `until` taking the
/// next token as its argument, and any other token is passed over.
pub open spec fn parse_clauses(
    toks: Seq<Seq<char>>,
    i: int,
    alias: Seq<char>,
    bs: Seq<BehaviorView>,
) -> Result<(Seq<char>, Seq<BehaviorView>), SyntaxError>
    decreases toks.len() - i,
{
    if i < 0 || i >= toks.len() {
        Ok((alias, bs))
    } else if toks[i] == seq![':'] {
        if i + 1 >= toks.len() {
            Err(SyntaxError::MissingAlias)
        } else {
            parse_clauses(toks, i + 2, toks[i + 1], bs)
        }
    } else if is_slash_clause(toks[i]) {
        let attached = toks[i].len() > 1;
        if !attached && i + 1 >= toks.len() {
            Err(SyntaxError::MissingBehavior)
        } else {
            let kw = if attached {
                toks[i].drop_first()
            } else {
                toks[i + 1]
            };
            let n = if attached {
                i + 1
            } else {
                i + 2
            };
            if kw == word_recursive() {
                parse_clauses(toks, n, alias, bs.push(BehaviorView::Recursive))
            } else if kw == word_interrupt() {
                parse_clauses(toks, n, alias, bs.push(BehaviorView::Interrupt))
            } else if kw == word_new_line() {
                parse_clauses(toks, n, alias, bs.push(BehaviorView::LineBreak))
            } else if kw == word_until() {
                if n >= toks.len() {
                    Err(SyntaxError::MissingUntilArgument)
                } else {
                    parse_clauses(toks, n + 1, alias, bs.push(BehaviorView::Until(toks[n])))
                }
            } else {
                Err(SyntaxError::UnknownBehavior)
            }
        }
    } else {
        parse_clauses(toks, i + 1, alias, bs)
    }
}

/// One statement: `trigger clauses { body }`. The body is split on the
/// content placeholder; braces are removed from the two halves and
/// surrounding whitespace trimmed. A line-break rule keeps only the first
/// half, and its suffix is empty.
pub open spec fn compile_statement(st: Seq<char>) -> Result<RuleView, SyntaxError> {
    let b = find(st, seq!['{']);
    if b < 0 {
        Err(SyntaxError::MissingBrace)
    } else {
        let toks = tokens(st.subrange(0, b));
        if toks.len() == 0 {
            Err(SyntaxError::MissingTrigger)
        } else {
            match parse_clauses(toks, 1, seq![], seq![]) {
                Err(e) => Err(e),
                Ok((alias, bs)) => {
                    let pieces = split(st.subrange(b, st.len() as int), content_placeholder());
                    if has_behavior(bs, BehaviorView::LineBreak) {
                        Ok(
                            RuleView {
                                trigger: toks[0],
                                alias,
                                behaviors: bs,
                                prefix: trim(without(without(pieces[0], '{'), '}')),
                                suffix: seq![],
                            },
                        )
                    } else if pieces.len() < 2 {
                        Err(SyntaxError::MissingPlaceholder)
                    } else if pieces.len() > 2 {
                        Err(SyntaxError::ExtraPlaceholder)
                    } else {
                        Ok(
                            RuleView {
                                trigger: toks[0],
                                alias,
                                behaviors: bs,
                                prefix: trim(without(pieces[0], '{')),
                                suffix: trim(without(pieces[1], '}')),
                            },
                        )
                    }
                },
            }
        }
    }
}

/// The statements from index `i` on, compiled in order; the first failing
/// statement decides the error.
pub open spec fn compile_statements(sts: Seq<Seq<char>>, i: int) -> Result<
    Seq<RuleView>,
    SyntaxError,
>
    decreases sts.len() - i,
{
    if i < 0 || i >= sts.len() {
        Ok(seq![])
    } else {
        match compile_statement(sts[i]) {
            Err(e) => Err(e),
            Ok(r) => match compile_statements(sts, i + 1) {
                Err(e) => Err(e),
                Ok(rest) => Ok(seq![r] + rest),
            },
        }
    }
}

pub open spec fn declares_line_break(rs: Seq<RuleView>) -> bool {
    exists|i: int| 0 <= i < rs.len() && has_behavior(rs[i].behaviors, BehaviorView::LineBreak)
}

/// The rules of a style source: its statements in order, followed by the
/// synthetic line-break rule when no statement declares `/new-line`.
pub open spec fn compile_spec(src: Seq<char>) -> Result<Seq<RuleView>, SyntaxError> {
    match compile_statements(split(src, statement_separator()), 0) {
        Err(e) => Err(e),
        Ok(rs) => if declares_line_break(rs) {
            Ok(rs)
        } else {
            Ok(rs.push(synthetic_line_break()))
        },
    }
}


// ---------------------------------------------------------------------------
// Well-formedness of compiled rules

pub open spec fn until_args_nonempty(bs: Seq<BehaviorView>) -> bool {
    forall|j: int|
        0 <= j < bs.len() ==> (#[trigger] bs[j] matches BehaviorView::Until(t) ==> t.len() > 0)
}

proof fn lemma_clauses_wf(
    toks: Seq<Seq<char>>,
    i: int,
    alias: Seq<char>,
    bs: Seq<BehaviorView>,
)
    requires
        forall|k: int| 0 <= k < toks.len() ==> #[trigger] toks[k].len() > 0,
        until_args_nonempty(bs),
    ensures
        parse_clauses(toks, i, alias, bs) matches Ok((_, out)) ==> until_args_nonempty(out),
    decreases toks.len() - i,
{
    if i < 0 || i >= toks.len() {
    } else if toks[i] == seq![':'] {
        if i + 1 < toks.len() {
            lemma_clauses_wf(toks, i + 2, toks[i + 1], bs);
        }
    } else if is_slash_clause(toks[i]) {
        let attached = toks[i].len() > 1;
        if attached || i + 1 < toks.len() {
            let kw = if attached {
                toks[i].drop_first()
            } else {
                toks[i + 1]
            };
            let n = if attached {
                i + 1
            } else {
                i + 2
            };
            let b = if kw == word_recursive() {
                BehaviorView::Recursive
            } else if kw == word_interrupt() {
                BehaviorView::Interrupt
            } else if kw == word_new_line() {
                BehaviorView::LineBreak
            } else {
                BehaviorView::Until(if n < toks.len() {
                    toks[n]
                } else {
                    seq![' ']
                })
            };
            assert(until_args_nonempty(bs.push(b))) by {
                assert forall|j: int| 0 <= j < bs.push(b).len() implies (#[trigger] bs.push(
                    b,
                )[j] matches BehaviorView::Until(t) ==> t.len() > 0) by {
                    if j < bs.len() {
                        assert(bs.push(b)[j] == bs[j]);
                    }
                }
            }
            if kw == word_until() {
                if n < toks.len() {
                    lemma_clauses_wf(toks, n + 1, alias, bs.push(b));
                }
            } else {
                lemma_clauses_wf(toks, n, alias, bs.push(b));
            }
        }
    } else {
        lemma_clauses_wf(toks, i + 1, alias, bs);
    }
}

proof fn lemma_statement_wf(st: Seq<char>)
    ensures
        compile_statement(st) matches Ok(r) ==> rule_wf(r),
{
    let b = find(st, seq!['{']);
    if b >= 0 {
        let toks = tokens(st.subrange(0, b));
        lemma_tokens_nonempty(st.subrange(0, b), 0);
        if toks.len() > 0 {
            assert(toks[0].len() > 0);
            lemma_clauses_wf(toks, 1, seq![], seq![]);
        }
    }
}

proof fn lemma_statements_wf(sts: Seq<Seq<char>>, i: int)
    ensures
        compile_statements(sts, i) matches Ok(rs) ==> rules_wf(rs),
    decreases sts.len() - i,
{
    if 0 <= i < sts.len() {
        lemma_statement_wf(sts[i]);
        lemma_statements_wf(sts, i + 1);
        if let Ok(rs) = compile_statements(sts, i) {
            let rest = compile_statements(sts, i + 1)->Ok_0;
            assert forall|k: int| 0 <= k < rs.len() implies rule_wf(#[trigger] rs[k]) by {
                if k > 0 {
                    assert(rs[k] == rest[k - 1]);
                }
            }
        }
    }
}

/// Every rule of a compiled style is well formed.
pub proof fn lemma_compile_wf(src: Seq<char>)
    ensures
        compile_spec(src) matches Ok(rs) ==> rules_wf(rs),
{
    let sts = split(src, statement_separator());
    lemma_statements_wf(sts, 0);
    if let Ok(rs) = compile_statements(sts, 0) {
        let syn = synthetic_line_break();
        assert(rule_wf(syn)) by {
            assert forall|j: int| 0 <= j < syn.behaviors.len() implies (
            #[trigger] syn.behaviors[j] matches BehaviorView::Until(t) ==> t.len() > 0) by {
                assert(syn.behaviors[j] == BehaviorView::LineBreak);
            }
        }
        assert forall|k: int| 0 <= k < rs.push(syn).len() implies rule_wf(
            #[trigger] rs.push(syn)[k],
        ) by {
            if k < rs.len() {
                assert(rs.push(syn)[k] == rs[k]);
            }
        }
    }
}

// ---------------------------------------------------------------------------
// The compiler

pub proof fn lemma_behaviors_push(bs: Seq<Behavior>, b: Behavior)
    ensures
        behaviors_view(bs.push(b)) == behaviors_view(bs).push(b@),
{
    lemma_push(bs, b);
    assert(behaviors_view(bs.push(b)) =~= behaviors_view(bs).push(b@));
}

pub proof fn lemma_rules_push(rs: Seq<Rule>, r: Rule)
    ensures
        rules_view(rs.push(r)) == rules_view(rs).push(r@),
{
    lemma_push(rs, r);
    assert(rules_view(rs.push(r)) =~= rules_view(rs).push(r@));
}

/// `t` is the one-character token `c`.
fn is_single(t: &Vec<char>, c: char) -> (r: bool)
    ensures
        r == (t@ == seq![c]),
{
    if t.len() == 1 && t[0] == c {
        assert(t@ =~= seq![c]);
        true
    } else {
        assert(t@.len() != 1 ==> t@ != seq![c]);
        false
    }
}

fn recursive_word() -> (r: Vec<char>)
    ensures
        r@ == word_recursive(),
{
    let r = vec!['r', 'e', 'c', 'u', 'r', 's', 'i', 'v', 'e'];
    assert(r@ =~= word_recursive());
    r
}

fn interrupt_word() -> (r: Vec<char>)
    ensures
        r@ == word_interrupt(),
{
    let r = vec!['i', 'n', 't', 'e', 'r', 'r', 'u', 'p', 't'];
    assert(r@ =~= word_interrupt());
    r
}

fn new_line_word() -> (r: Vec<char>)
    ensures
        r@ == word_new_line(),
{
    let r = vec!['n', 'e', 'w', '-', 'l', 'i', 'n', 'e'];
    assert(r@ =~= word_new_line());
    r
}

fn until_word() -> (r: Vec<char>)
    ensures
        r@ == word_until(),
{
    let r = vec!['u', 'n', 't', 'i', 'l'];
    assert(r@ =~= word_until());
    r
}

/// Parses the clauses that follow the trigger token.
fn parse_clauses_exec(toks: &Vec<Vec<char>>) -> (r: Result<(Vec<char>, Vec<Behavior>), SyntaxError>)
    ensures
        match r {
            Ok((alias, bs)) => parse_clauses(
                toks@.map_values(|t: Vec<char>| t@),
                1,
                seq![],
                seq![],
            ) == Ok::<(Seq<char>, Seq<BehaviorView>), SyntaxError>(
                (alias@, behaviors_view(bs@)),
            ),
            Err(e) => parse_clauses(toks@.map_values(|t: Vec<char>| t@), 1, seq![], seq![])
                == Err::<(Seq<char>, Seq<BehaviorView>), SyntaxError>(e),
        },
{
    let ghost tv = toks@.map_values(|t: Vec<char>| t@);
    let mut alias: Vec<char> = Vec::new();
    let mut bs: Vec<Behavior> = Vec::new();
    let mut i: usize = 1;
    assert(behaviors_view(bs@) =~= seq![]);
    assert(alias@ =~= seq![]);
    while i < toks.len()
        invariant
            1 <= i,
            tv == toks@.map_values(|t: Vec<char>| t@),
            parse_clauses(tv, 1, seq![], seq![]) == parse_clauses(
                tv,
                i as int,
                alias@,
                behaviors_view(bs@),
            ),
        decreases toks@.len() - i,
    {
        let ghost bv = behaviors_view(bs@);
        if is_single(&toks[i], ':') {
            if i + 1 >= toks.len() {
                return Err(SyntaxError::MissingAlias);
            }
            alias = copy_chars(&toks[i + 1]);
            i = i + 2;
        } else if toks[i].len() >= 1 && toks[i][0] == '/' {
            let attached = toks[i].len() > 1;
            if !attached && i + 1 >= toks.len() {
                return Err(SyntaxError::MissingBehavior);
            }
            let word = if attached {
                let w = char_range(&toks[i], 1, toks[i].len());
                assert(w@ =~= tv[i as int].drop_first());
                w
            } else {
                copy_chars(&toks[i + 1])
            };
            let n = if attached {
                i + 1
            } else {
                i + 2
            };
            if chars_equal(&word, &recursive_word()) {
                proof {
                    lemma_behaviors_push(bs@, Behavior::Recursive);
                }
                bs.push(Behavior::Recursive);
                i = n;
            } else if chars_equal(&word, &interrupt_word()) {
                proof {
                    lemma_behaviors_push(bs@, Behavior::Interrupt);
                }
                bs.push(Behavior::Interrupt);
                i = n;
            } else if chars_equal(&word, &new_line_word()) {
                proof {
                    lemma_behaviors_push(bs@, Behavior::LineBreak);
                }
                bs.push(Behavior::LineBreak);
                i = n;
            } else if chars_equal(&word, &until_word()) {
                if n >= toks.len() {
                    return Err(SyntaxError::MissingUntilArgument);
                }
                let b = Behavior::Until(copy_chars(&toks[n]));
                proof {
                    lemma_behaviors_push(bs@, b);
                }
                bs.push(b);
                i = n + 1;
            } else {
                return Err(SyntaxError::UnknownBehavior);
            }
        } else {
            i = i + 1;
        }
    }
    Ok((alias, bs))
}

/// Whether the behavior tags include `Recursive`.
pub fn has_recursive(bs: &Vec<Behavior>) -> (r: bool)
    ensures
        r == has_behavior(behaviors_view(bs@), BehaviorView::Recursive),
{
    let mut i: usize = 0;
    while i < bs.len()
        invariant
            i <= bs@.len(),
            forall|j: int| 0 <= j < i ==> behaviors_view(bs@)[j] != BehaviorView::Recursive,
        decreases bs@.len() - i,
    {
        match &bs[i] {
            Behavior::Recursive => {
                assert(behaviors_view(bs@)[i as int] == BehaviorView::Recursive);
                return true;
            },
            _ => {},
        }
        i = i + 1;
    }
    false
}

/// Whether the behavior tags include `LineBreak`.
pub fn has_line_break(bs: &Vec<Behavior>) -> (r: bool)
    ensures
        r == has_behavior(behaviors_view(bs@), BehaviorView::LineBreak),
{
    let mut i: usize = 0;
    while i < bs.len()
        invariant
            i <= bs@.len(),
            forall|j: int| 0 <= j < i ==> behaviors_view(bs@)[j] != BehaviorView::LineBreak,
        decreases bs@.len() - i,
    {
        match &bs[i] {
            Behavior::LineBreak => {
                assert(behaviors_view(bs@)[i as int] == BehaviorView::LineBreak);
                return true;
            },
            _ => {},
        }
        i = i + 1;
    }
    false
}


fn placeholder_chars() -> (r: Vec<char>)
    ensures
        r@ == content_placeholder(),
{
    let r = vec!['{', '{', 'c', 'o', 'n', 't', 'e', 'n', 't', '}', '}'];
    assert(r@ =~= content_placeholder());
    r
}

/// Compiles one statement of a style source into a rule.
pub fn compile_one(st: &Vec<char>) -> (r: Result<Rule, SyntaxError>)
    ensures
        match r {
            Ok(rule) => compile_statement(st@) == Ok::<RuleView, SyntaxError>(rule@),
            Err(e) => compile_statement(st@) == Err::<RuleView, SyntaxError>(e),
        },
{
    let brace = vec!['{'];
    assert(brace@ =~= seq!['{']);
    let b = match find_chars(st, &brace, 0) {
        None => {
            return Err(SyntaxError::MissingBrace);
        },
        Some(b) => b,
    };
    proof {
        lemma_find_from(st@, brace@, 0);
    }
    let head = char_range(st, 0, b);
    let toks = split_tokens(&head);
    let ghost tv = toks@.map_values(|t: Vec<char>| t@);
    assert(tv.len() == toks@.len());
    if toks.len() == 0 {
        return Err(SyntaxError::MissingTrigger);
    }
    let (alias, behaviors) = match parse_clauses_exec(&toks) {
        Err(e) => {
            return Err(e);
        },
        Ok(p) => p,
    };
    let body = char_range(st, b, st.len());
    let pieces = split_chars(&body, &placeholder_chars());
    let ghost pv = pieces@.map_values(|t: Vec<char>| t@);
    assert(pv.len() == pieces@.len());
    assert(pv.len() >= 1);
    let trigger = copy_chars(&toks[0]);
    assert(trigger@ == tv[0]);
    if has_line_break(&behaviors) {
        let prefix = trim_chars(&remove_char(&remove_char(&pieces[0], '{'), '}'));
        assert(prefix@ == trim(without(without(pv[0], '{'), '}')));
        let rule = Rule { trigger, alias, behaviors, prefix, suffix: Vec::new() };
        assert(rule@.suffix =~= seq![]);
        Ok(rule)
    } else if pieces.len() < 2 {
        Err(SyntaxError::MissingPlaceholder)
    } else if pieces.len() > 2 {
        Err(SyntaxError::ExtraPlaceholder)
    } else {
        let prefix = trim_chars(&remove_char(&pieces[0], '{'));
        let suffix = trim_chars(&remove_char(&pieces[1], '}'));
        assert(prefix@ == trim(without(pv[0], '{')));
        assert(suffix@ == trim(without(pv[1], '}')));
        Ok(Rule { trigger, alias, behaviors, prefix, suffix })
    }
}

fn separator_chars() -> (r: Vec<char>)
    ensures
        r@ == statement_separator(),
{
    let r = vec!['}', '\n', '\n'];
    assert(r@ =~= statement_separator());
    r
}

fn synthetic_rule() -> (r: Rule)
    ensures
        r@ == synthetic_line_break(),
{
    let r = Rule {
        trigger: vec!['\\', 'n'],
        alias: vec!['n', 'e', 'w', '-', 'l', 'i', 'n', 'e'],
        behaviors: vec![Behavior::LineBreak],
        prefix: vec!['<', 'b', 'r', '>'],
        suffix: Vec::new(),
    };
    assert(r@.trigger =~= line_break_marker());
    assert(r@.alias =~= synthetic_line_break().alias);
    assert(r@.behaviors =~= seq![BehaviorView::LineBreak]);
    assert(r@.prefix =~= line_break_element());
    assert(r@.suffix =~= seq![]);
    r
}

/// Compiles a style source into its rule set. Statements are separated by
/// a `}` followed by a blank line; the first malformed statement decides
/// the error. When no statement declares `/ new-line`, a rule that renders
/// the forced line-break marker as `<br>` is appended.
pub fn compile(src: &str) -> (r: Result<RuleSet, SyntaxError>)
    ensures
        match r {
            Ok(rs) => compile_spec(src@) == Ok::<Seq<RuleView>, SyntaxError>(rs@) && rules_wf(rs@),
            Err(e) => compile_spec(src@) == Err::<Seq<RuleView>, SyntaxError>(e),
        },
{
    proof {
        lemma_compile_wf(src@);
    }
    let text = chars_of(src);
    let statements = split_chars(&text, &separator_chars());
    let ghost sv = statements@.map_values(|t: Vec<char>| t@);
    let mut rules: Vec<Rule> = Vec::new();
    let mut declared = false;
    let mut i: usize = 0;
    assert(rules_view(rules@) =~= seq![]);
    while i < statements.len()
        invariant
            i <= statements@.len(),
            sv == statements@.map_values(|t: Vec<char>| t@),
            sv == split(text@, statement_separator()),
            text@ == src@,
            compile_statements(sv, 0) == match compile_statements(sv, i as int) {
                Err(e) => Err(e),
                Ok(rest) => Ok::<Seq<RuleView>, SyntaxError>(rules_view(rules@) + rest),
            },
            declared == declares_line_break(rules_view(rules@)),
        decreases statements@.len() - i,
    {
        assert(sv[i as int] == statements@[i as int]@);
        let rule = match compile_one(&statements[i]) {
            Err(e) => {
                assert(compile_statements(sv, i as int) == Err::<Seq<RuleView>, SyntaxError>(e));
                return Err(e);
            },
            Ok(rule) => rule,
        };
        let ghost before = rules_view(rules@);
        let lb = has_line_break(&rule.behaviors);
        proof {
            lemma_rules_push(rules@, rule);
        }
        rules.push(rule);
        proof {
            let after = rules_view(rules@);
            assert(after == before.push(rule@));
            if declared {
                let k = choose|k: int|
                    0 <= k < before.len() && has_behavior(
                        before[k].behaviors,
                        BehaviorView::LineBreak,
                    );
                assert(after[k] == before[k]);
            }
            if lb {
                assert(after[before.len() as int] == rule@);
            }
            if declares_line_break(after) {
                let k = choose|k: int|
                    0 <= k < after.len() && has_behavior(
                        after[k].behaviors,
                        BehaviorView::LineBreak,
                    );
                if k < before.len() {
                    assert(after[k] == before[k]);
                }
            }
            match compile_statements(sv, i + 1) {
                Err(e) => {},
                Ok(rest) => {
                    assert(before + (seq![rule@] + rest) =~= before.push(rule@) + rest);
                },
            }
        }
        declared = declared || lb;
        i = i + 1;
    }
    if !declared {
        let extra = synthetic_rule();
        proof {
            lemma_rules_push(rules@, extra);
        }
        rules.push(extra);
    }
    Ok(RuleSet { rules })
}

} // verus!
