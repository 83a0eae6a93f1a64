//! Properties of compilation and expansion, proved over their definitions.
use vstd::prelude::*;
use crate::expand::{
    cut, expand, first_match, first_match_from, lemma_first_match_from, primary, render,
    rule_matches, sym_text,
};
use crate::rules::{
    BehaviorView, RuleView, compile_spec, compile_statements, declares_line_break,
    line_break_element, line_break_marker, statement_separator, synthetic_line_break,
};
use crate::text::{Sym, find, find_from, lemma_lift, lift, occurs_at, split};

verus! {

// ---------------------------------------------------------------------------
// Supporting facts

pub proof fn lemma_lift_concat(a: Seq<char>, b: Seq<char>)
    ensures
        lift(a + b) == lift(a) + lift(b),
{
    lemma_lift(a);
    lemma_lift(b);
    lemma_lift(a + b);
    assert(lift(a + b) =~= lift(a) + lift(b));
}

/// Plain text renders as itself.
pub proof fn lemma_render_lift(rules: Seq<RuleView>, s: Seq<char>)
    ensures
        render(rules, lift(s)) == s,
    decreases s.len(),
{
    lemma_lift(s);
    if s.len() > 0 {
        lemma_lift(s.drop_last());
        assert(lift(s).drop_last() =~= lift(s.drop_last()));
        lemma_render_lift(rules, s.drop_last());
        assert(sym_text(rules, lift(s).last()) =~= seq![s.last()]);
        assert(s.drop_last() + seq![s.last()] =~= s);
    }
}

pub proof fn lemma_occurs_lift(s: Seq<char>, t: Seq<char>, i: int)
    ensures
        occurs_at(lift(s), lift(t), i) == occurs_at(s, t, i),
{
    lemma_lift(s);
    lemma_lift(t);
    if occurs_at(s, t, i) {
        assert forall|k: int| 0 <= k < t.len() implies lift(s).subrange(i, i + t.len())[k] == lift(
            t,
        )[k] by {
            assert(s.subrange(i, i + t.len())[k] == t[k]);
        }
        assert(lift(s).subrange(i, i + t.len()) =~= lift(t));
    }
    if occurs_at(lift(s), lift(t), i) {
        assert forall|k: int| 0 <= k < t.len() implies s.subrange(i, i + t.len())[k] == t[k] by {
            assert(lift(s).subrange(i, i + t.len())[k] == lift(t)[k]);
        }
        assert(s.subrange(i, i + t.len()) =~= t);
    }
}

/// Searching lifted text finds what searching the text finds.
pub proof fn lemma_find_lift(s: Seq<char>, t: Seq<char>, i: int)
    ensures
        find_from(lift(s), lift(t), i) == find_from(s, t, i),
    decreases s.len() - i,
{
    lemma_lift(s);
    lemma_lift(t);
    lemma_occurs_lift(s, t, i);
    if 0 <= i && i + t.len() <= s.len() && !occurs_at(s, t, i) {
        lemma_find_lift(s, t, i + 1);
    }
}

/// Text appended after the first occurrence does not move it.
pub proof fn lemma_find_extend<A>(s: Seq<A>, u: Seq<A>, t: Seq<A>, i: int)
    requires
        0 <= i,
        find_from(s, t, i) >= 0,
    ensures
        find_from(s + u, t, i) == find_from(s, t, i),
    decreases s.len() - i,
{
    if i + t.len() <= s.len() {
        assert((s + u).subrange(i, i + t.len()) =~= s.subrange(i, i + t.len()));
        if !occurs_at(s, t, i) {
            lemma_find_extend(s, u, t, i + 1);
        }
    }
}

/// The rule that decides a window is the first one that matches it.
pub proof fn lemma_first_match_is(rules: Seq<RuleView>, w: Seq<Sym>, k: int)
    requires
        0 <= k < rules.len(),
        rule_matches(rules[k], w),
        forall|m: int| 0 <= m < k ==> !rule_matches(#[trigger] rules[m], w),
    ensures
        first_match(rules, w) == k,
{
    lemma_first_match_from(rules, w, 0);
    let f = first_match_from(rules, w, 0);
    if f == -1 {
        assert(!rule_matches(rules[k], w));
    } else if f < k {
        assert(!rule_matches(rules[f], w));
    } else if f > k {
        assert(!rule_matches(rules[k], w));
    }
}

// ---------------------------------------------------------------------------
// Laws

/// Text that no rule matches expands to itself.
pub proof fn law_passthrough(rules: Seq<RuleView>, text: Seq<char>)
    requires
        forall|i: int| 0 <= i < rules.len() ==> !rule_matches(#[trigger] rules[i], lift(text)),
    ensures
        expand(rules, lift(text)) == text,
{
    lemma_first_match_from(rules, lift(text), 0);
    lemma_render_lift(rules, text);
    lemma_lift(text);
    if text.len() == 0 {
        assert(text =~= seq![]);
    } else if first_match(rules, lift(text)) >= 0 {
        let f = first_match(rules, lift(text));
        assert(!rule_matches(rules[f], lift(text)));
    }
}

/// When two rules both match a window, the one declared first decides it,
/// whatever the lengths of their triggers.
pub proof fn law_priority(rules: Seq<RuleView>, w: Seq<Sym>, i: int, k: int)
    requires
        0 <= i < k < rules.len(),
        rule_matches(rules[i], w),
        rule_matches(rules[k], w),
        forall|m: int| 0 <= m < i ==> !rule_matches(#[trigger] rules[m], w),
    ensures
        first_match(rules, w) == i,
        first_match(rules, w) != k,
{
    lemma_first_match_is(rules, w, i);
}

/// A compiled style always has a line-break rule: when none of its
/// statements declares one, the synthetic rule is appended last; when one
/// does, nothing is appended.
pub proof fn law_line_break_rule(src: Seq<char>)
    requires
        compile_spec(src) is Ok,
    ensures
        declares_line_break(compile_spec(src)->Ok_0),
        ({
            let declared = compile_statements(split(src, statement_separator()), 0)->Ok_0;
            let rs = compile_spec(src)->Ok_0;
            &&& declares_line_break(declared) ==> rs == declared
            &&& !declares_line_break(declared) ==> rs == declared.push(synthetic_line_break())
        }),
{
    let declared = compile_statements(split(src, statement_separator()), 0)->Ok_0;
    if !declares_line_break(declared) {
        let rs = declared.push(synthetic_line_break());
        let k = declared.len() as int;
        assert(rs[k] == synthetic_line_break());
        assert(synthetic_line_break().behaviors[0] == BehaviorView::LineBreak);
    }
}

/// Under a style that declares no line-break rule, a forced line-break
/// marker that no other rule claims renders as the line-break element.
pub proof fn law_bare_marker(src: Seq<char>, x: Seq<char>, y: Seq<char>)
    requires
        compile_spec(src) is Ok,
        !declares_line_break(compile_statements(split(src, statement_separator()), 0)->Ok_0),
        find(x + line_break_marker(), line_break_marker()) == x.len(),
        forall|m: int|
            0 <= m < compile_spec(src)->Ok_0.len() - 1 ==> !rule_matches(
                #[trigger] compile_spec(src)->Ok_0[m],
                lift(x + line_break_marker() + y),
            ),
    ensures
        expand(compile_spec(src)->Ok_0, lift(x + line_break_marker() + y)) == x
            + line_break_element() + expand(compile_spec(src)->Ok_0, lift(y)),
{
    let rs = compile_spec(src)->Ok_0;
    let declared = compile_statements(split(src, statement_separator()), 0)->Ok_0;
    let m = line_break_marker();
    let s = x + m + y;
    let w = lift(s);
    let k = declared.len() as int;
    assert(rs == declared.push(synthetic_line_break()));
    assert(rs[k] == synthetic_line_break());
    lemma_find_extend(x + m, y, m, 0);
    lemma_find_lift(s, m, 0);
    lemma_lift(s);
    lemma_lift(m);
    assert(find(w, lift(m)) == x.len());
    assert(primary(rs[k]) == Some(BehaviorView::LineBreak));
    assert(rule_matches(rs[k], w));
    lemma_first_match_is(rs, w, k);
    lemma_lift_concat(x + m, y);
    lemma_lift_concat(x, m);
    let (head, tail, _) = cut(w, m);
    assert(head =~= lift(x));
    assert(tail =~= lift(y));
    lemma_render_lift(rs, x);
}

/// Once an interrupt rule decides a window, nothing after its trigger
/// reaches the output: the window expands to the wrapped text before it.
pub proof fn law_interrupt_truncates(
    rules: Seq<RuleView>,
    k: int,
    x: Seq<char>,
    y: Seq<char>,
)
    requires
        0 <= k < rules.len(),
        primary(rules[k]) == Some(BehaviorView::Interrupt),
        rules[k].trigger.len() > 0,
        find(x + rules[k].trigger, rules[k].trigger) == x.len(),
        forall|m: int|
            0 <= m < k ==> !rule_matches(#[trigger] rules[m], lift(x + rules[k].trigger + y)),
    ensures
        expand(rules, lift(x + rules[k].trigger + y)) == rules[k].prefix + x + rules[k].suffix,
{
    let t = rules[k].trigger;
    let s = x + t + y;
    let w = lift(s);
    lemma_find_extend(x + t, y, t, 0);
    lemma_find_lift(s, t, 0);
    lemma_lift(s);
    lemma_lift(t);
    assert(rule_matches(rules[k], w));
    lemma_first_match_is(rules, w, k);
    lemma_lift_concat(x + t, y);
    lemma_lift_concat(x, t);
    let (head, _, _) = cut(w, t);
    assert(head =~= lift(x));
    lemma_render_lift(rules, x);
}

} // verus!
