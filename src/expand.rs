//! The expansion engine: applies a rule set to a window of text, recursing
//! on the sub-windows that a matched rule leaves to expand.
use vstd::prelude::*;
use crate::rules::{
    Behavior, BehaviorView, Rule, RuleView, behaviors_view, has_behavior, has_recursive, rules_view,
};
use crate::text::{
    Sym, blank_sym, copy_chars, find, find_sym, is_blank_sym, is_ws, is_ws_sym, lemma_find_from,
    lemma_lift, lemma_push, lift, occurs_at, push_all, sym_occurs_at, sym_range, ws_char, ws_sym,
};

verus! {

// ---------------------------------------------------------------------------
// Matching

/// The first position at or after `i` that is not whitespace.
pub open spec fn skip_ws_syms(w: Seq<Sym>, i: int) -> int
    decreases w.len() - i,
{
    if i < 0 || i >= w.len() || !is_ws_sym(w[i]) {
        i
    } else {
        skip_ws_syms(w, i + 1)
    }
}

/// The first position at or after `i` that is neither a space nor a tab.
pub open spec fn skip_blank_syms(w: Seq<Sym>, i: int) -> int
    decreases w.len() - i,
{
    if i < 0 || i >= w.len() || !is_blank_sym(w[i]) {
        i
    } else {
        skip_blank_syms(w, i + 1)
    }
}

pub open spec fn no_ws(t: Seq<char>) -> bool {
    forall|k: int| 0 <= k < t.len() ==> !is_ws(#[trigger] t[k])
}

/// The first whitespace-delimited token of `w` is `t`.
pub open spec fn first_token_is(w: Seq<Sym>, t: Seq<char>) -> bool {
    let a = skip_ws_syms(w, 0);
    &&& t.len() > 0
    &&& no_ws(t)
    &&& occurs_at(w, lift(t), a)
    &&& (a + t.len() == w.len() || is_ws_sym(w[a + t.len()]))
}

/// `t` occurs somewhere in `w`.
pub open spec fn contains_text(w: Seq<Sym>, t: Seq<char>) -> bool {
    t.len() > 0 && find(w, lift(t)) >= 0
}

/// The behavior that decides how a rule applies: its first tag, if any.
pub open spec fn primary(r: RuleView) -> Option<BehaviorView> {
    if r.behaviors.len() == 0 {
        None
    } else {
        Some(r.behaviors[0])
    }
}

/// Plain and recursive rules match on the window's first token; the others
/// match wherever their trigger occurs.
pub open spec fn rule_matches(r: RuleView, w: Seq<Sym>) -> bool {
    match primary(r) {
        None => first_token_is(w, r.trigger),
        Some(BehaviorView::Recursive) => first_token_is(w, r.trigger),
        Some(_) => contains_text(w, r.trigger),
    }
}

/// The first rule, from index `i` on, that matches `w`; -1 if none does.
pub open spec fn first_match_from(rules: Seq<RuleView>, w: Seq<Sym>, i: int) -> int
    decreases rules.len() - i,
{
    if i < 0 || i >= rules.len() {
        -1
    } else if rule_matches(rules[i], w) {
        i
    } else {
        first_match_from(rules, w, i + 1)
    }
}

pub open spec fn first_match(rules: Seq<RuleView>, w: Seq<Sym>) -> int {
    first_match_from(rules, w, 0)
}

/// The first match is a matching rule, and no rule before it matches.
pub proof fn lemma_first_match_from(rules: Seq<RuleView>, w: Seq<Sym>, i: int)
    requires
        0 <= i,
    ensures
        first_match_from(rules, w, i) == -1 || (i <= first_match_from(rules, w, i) < rules.len()
            && rule_matches(rules[first_match_from(rules, w, i)], w)),
        forall|k: int|
            i <= k < rules.len() && (first_match_from(rules, w, i) == -1 || k < first_match_from(
                rules,
                w,
                i,
            )) ==> !rule_matches(#[trigger] rules[k], w),
    decreases rules.len() - i,
{
    if i < rules.len() && !rule_matches(rules[i], w) {
        lemma_first_match_from(rules, w, i + 1);
    }
}

// ---------------------------------------------------------------------------
// Pieces of a window

/// The text a symbol stands for.
pub open spec fn sym_text(rules: Seq<RuleView>, x: Sym) -> Seq<char> {
    match x {
        Sym::Text(c) => seq![c],
        Sym::Held(i) => if i < rules.len() {
            rules[i as int].trigger
        } else {
            seq![]
        },
    }
}

/// The text a window stands for, emitted verbatim.
pub open spec fn render(rules: Seq<RuleView>, w: Seq<Sym>) -> Seq<char>
    decreases w.len(),
{
    if w.len() == 0 {
        seq![]
    } else {
        render(rules, w.drop_last()) + sym_text(rules, w.last())
    }
}

/// `w` split around the first occurrence of `t`: the part before it, the
/// part after it, and whether `t` was found. Without an occurrence the
/// whole window is the first part.
pub open spec fn cut(w: Seq<Sym>, t: Seq<char>) -> (Seq<Sym>, Seq<Sym>, bool) {
    let k = find(w, lift(t));
    if t.len() == 0 || k < 0 || k + t.len() > w.len() {
        (w, seq![], false)
    } else {
        (w.subrange(0, k), w.subrange(k + t.len(), w.len() as int), true)
    }
}

/// What follows the first token `t` of `w`, without the spaces and tabs
/// that separate it from the token.
pub open spec fn after_token(w: Seq<Sym>, t: Seq<char>) -> Seq<Sym> {
    let s = skip_blank_syms(w, skip_ws_syms(w, 0) + t.len());
    if 1 <= s <= w.len() {
        w.subrange(s, w.len() as int)
    } else {
        seq![]
    }
}

/// The stop token of a recursive rule: the argument of its last `Until`
/// tag, or two backslashes when it has none.
pub open spec fn stop_token(bs: Seq<BehaviorView>) -> Seq<char>
    decreases bs.len(),
{
    if bs.len() == 0 {
        seq!['\\', '\\']
    } else if let BehaviorView::Until(v) = bs.last() {
        v
    } else {
        stop_token(bs.drop_last())
    }
}

/// `t` preceded by the escape character.
pub open spec fn escaped(t: Seq<char>) -> Seq<char> {
    seq!['\\'] + t
}

/// `w` from position `i` on, with each escaped occurrence of `t` (scanning
/// left to right) replaced by one held symbol of rule `j`.
pub open spec fn hold_from(w: Seq<Sym>, t: Seq<char>, j: usize, i: int) -> Seq<Sym>
    decreases w.len() - i,
{
    if i < 0 || i >= w.len() {
        seq![]
    } else if occurs_at(w, lift(escaped(t)), i) {
        seq![Sym::Held(j)] + hold_from(w, t, j, i + 1 + t.len())
    } else {
        seq![w[i]] + hold_from(w, t, j, i + 1)
    }
}

// ---------------------------------------------------------------------------
// Expansion

/// The expansion of window `w` under `rules`.
///
/// The first rule that matches decides; with none, `w` is emitted verbatim.
/// - plain: the rest of the trigger's line becomes `prefix content suffix`
///   and a line feed; the following lines are expanded.
/// - recursive: what follows the trigger up to the stop token is expanded
///   and wrapped; what follows the stop token is expanded.
/// - interrupt: the text before the trigger is wrapped, and the rest of
///   the window dropped.
/// - line break: the text before the trigger is kept, the prefix emitted,
///   and the text after the trigger expanded.
/// - until: escaped triggers are held, the window is split on the trigger,
///   and the pieces alternate between outside (expanded) and inside
///   (wrapped; also expanded when the rule is recursive too).
pub open spec fn expand(rules: Seq<RuleView>, w: Seq<Sym>) -> Seq<char>
    decreases w.len(), 1int, 0int,
{
    let j = first_match(rules, w);
    if w.len() == 0 {
        seq![]
    } else if j < 0 || j >= rules.len() {
        render(rules, w)
    } else {
        let r = rules[j];
        let t = r.trigger;
        match primary(r) {
            None => {
                let after = after_token(w, t);
                let (content, rest, _) = cut(after, seq!['\n']);
                r.prefix + render(rules, content) + r.suffix + seq!['\n'] + expand(rules, rest)
            },
            Some(BehaviorView::Recursive) => {
                let after = after_token(w, t);
                let (body, tail, _) = cut(after, stop_token(r.behaviors));
                r.prefix + expand(rules, body) + r.suffix + expand(rules, tail)
            },
            Some(BehaviorView::Interrupt) => {
                let (head, _, _) = cut(w, t);
                r.prefix + render(rules, head) + r.suffix
            },
            Some(BehaviorView::LineBreak) => {
                let (head, tail, _) = cut(w, t);
                render(rules, head) + r.prefix + expand(rules, tail)
            },
            Some(BehaviorView::Until(_)) => {
                until_join(rules, j as usize, hold_from(w, t, j as usize, 0), false, w.len())
            },
        }
    }
}

/// The pieces of the held window `h` between occurrences of the trigger of
/// rule `j`, starting outside (`inside == false`) or inside a delimited
/// region, and alternating at each occurrence. Every piece is shorter than
/// `bound`, the length of the window being expanded.
pub open spec fn until_join(
    rules: Seq<RuleView>,
    j: usize,
    h: Seq<Sym>,
    inside: bool,
    bound: nat,
) -> Seq<char>
    decreases bound, 0int, h.len(),
{
    if j >= rules.len() {
        seq![]
    } else {
        let r = rules[j as int];
        let (piece, rest, found) = cut(h, r.trigger);
        let out = if piece.len() >= bound {
            seq![]
        } else if !inside {
            expand(rules, piece)
        } else if has_behavior(r.behaviors, BehaviorView::Recursive) {
            r.prefix + expand(rules, piece) + r.suffix
        } else {
            r.prefix + render(rules, piece) + r.suffix
        };
        if found {
            out + until_join(rules, j, rest, !inside, bound)
        } else {
            out
        }
    }
}


// ---------------------------------------------------------------------------
// Executable matching

fn skip_ws_exec(w: &Vec<Sym>, i: usize) -> (r: usize)
    requires
        i <= w@.len(),
    ensures
        r == skip_ws_syms(w@, i as int),
        i <= r <= w@.len(),
{
    let mut k = i;
    while k < w.len() && ws_sym(w[k])
        invariant
            i <= k <= w@.len(),
            skip_ws_syms(w@, i as int) == skip_ws_syms(w@, k as int),
        decreases w@.len() - k,
    {
        k = k + 1;
    }
    k
}

fn skip_blank_exec(w: &Vec<Sym>, i: usize) -> (r: usize)
    requires
        i <= w@.len(),
    ensures
        r == skip_blank_syms(w@, i as int),
        i <= r <= w@.len(),
{
    let mut k = i;
    while k < w.len() && blank_sym(w[k])
        invariant
            i <= k <= w@.len(),
            skip_blank_syms(w@, i as int) == skip_blank_syms(w@, k as int),
        decreases w@.len() - k,
    {
        k = k + 1;
    }
    k
}

fn no_ws_exec(t: &Vec<char>) -> (r: bool)
    ensures
        r == no_ws(t@),
{
    let mut k: usize = 0;
    while k < t.len()
        invariant
            k <= t@.len(),
            forall|m: int| 0 <= m < k ==> !is_ws(#[trigger] t@[m]),
        decreases t@.len() - k,
    {
        if ws_char(t[k]) {
            return false;
        }
        k = k + 1;
    }
    true
}

fn first_token_exec(w: &Vec<Sym>, t: &Vec<char>) -> (r: bool)
    ensures
        r == first_token_is(w@, t@),
{
    proof {
        lemma_lift(t@);
    }
    if t.len() == 0 || !no_ws_exec(t) {
        return false;
    }
    let a = skip_ws_exec(w, 0);
    if !sym_occurs_at(w, t, a) {
        return false;
    }
    assert(a + t.len() <= w.len());
    a + t.len() == w.len() || ws_sym(w[a + t.len()])
}

fn contains_exec(w: &Vec<Sym>, t: &Vec<char>) -> (r: bool)
    ensures
        r == contains_text(w@, t@),
{
    t.len() > 0 && find_sym(w, t, 0).is_some()
}

fn rule_matches_exec(rule: &Rule, w: &Vec<Sym>) -> (r: bool)
    ensures
        r == rule_matches(rule@, w@),
{
    if rule.behaviors.len() == 0 {
        return first_token_exec(w, &rule.trigger);
    }
    assert(rule@.behaviors[0] == rule.behaviors@[0]@);
    match &rule.behaviors[0] {
        Behavior::Recursive => first_token_exec(w, &rule.trigger),
        _ => contains_exec(w, &rule.trigger),
    }
}

fn first_match_exec(rules: &Vec<Rule>, w: &Vec<Sym>) -> (r: Option<usize>)
    ensures
        match r {
            Some(j) => first_match(rules_view(rules@), w@) == j && j < rules@.len(),
            None => first_match(rules_view(rules@), w@) == -1,
        },
{
    let ghost rv = rules_view(rules@);
    let mut i: usize = 0;
    while i < rules.len()
        invariant
            i <= rules@.len(),
            rv == rules_view(rules@),
            first_match(rv, w@) == first_match_from(rv, w@, i as int),
        decreases rules@.len() - i,
    {
        assert(rv[i as int] == rules@[i as int]@);
        if rule_matches_exec(&rules[i], w) {
            return Some(i);
        }
        i = i + 1;
    }
    None
}

// ---------------------------------------------------------------------------
// Executable pieces

/// Appends the verbatim text of `w` to `out`.
fn render_into(rules: &Vec<Rule>, w: &Vec<Sym>, out: &mut Vec<char>)
    ensures
        final(out)@ == old(out)@ + render(rules_view(rules@), w@),
{
    let ghost rv = rules_view(rules@);
    let ghost start = out@;
    let mut i: usize = 0;
    while i < w.len()
        invariant
            i <= w@.len(),
            rv == rules_view(rules@),
            out@ == start + render(rv, w@.subrange(0, i as int)),
        decreases w@.len() - i,
    {
        assert(w@.subrange(0, i + 1 as int).drop_last() =~= w@.subrange(0, i as int));
        assert(w@.subrange(0, i + 1 as int).last() == w@[i as int]);
        match w[i] {
            Sym::Text(c) => {
                out.push(c);
            },
            Sym::Held(k) => {
                if k < rules.len() {
                    assert(rv[k as int] == rules@[k as int]@);
                    push_all(out, &rules[k].trigger);
                }
            },
        }
        assert(out@ =~= start + render(rv, w@.subrange(0, i + 1 as int)));
        i = i + 1;
    }
    assert(w@.subrange(0, w@.len() as int) =~= w@);
}

fn cut_exec(w: &Vec<Sym>, t: &Vec<char>) -> (r: (Vec<Sym>, Vec<Sym>, bool))
    ensures
        r.0@ == cut(w@, t@).0,
        r.1@ == cut(w@, t@).1,
        r.2 == cut(w@, t@).2,
{
    proof {
        lemma_lift(t@);
    }
    if t.len() == 0 {
        return (sym_range(w, 0, w.len()), Vec::new(), false);
    }
    match find_sym(w, t, 0) {
        None => {
            assert(w@.subrange(0, w@.len() as int) =~= w@);
            (sym_range(w, 0, w.len()), Vec::new(), false)
        },
        Some(k) => {
            proof {
                lemma_find_from(w@, lift(t@), 0);
            }
            assert(k + t.len() <= w.len());
            (sym_range(w, 0, k), sym_range(w, k + t.len(), w.len()), true)
        },
    }
}

fn after_token_exec(w: &Vec<Sym>, t: &Vec<char>) -> (r: Vec<Sym>)
    ensures
        r@ == after_token(w@, t@),
{
    let a = skip_ws_exec(w, 0);
    if t.len() > w.len() - a {
        return Vec::new();
    }
    let s = skip_blank_exec(w, a + t.len());
    if s < 1 {
        return Vec::new();
    }
    sym_range(w, s, w.len())
}

fn stop_token_exec(bs: &Vec<Behavior>) -> (r: Vec<char>)
    ensures
        r@ == stop_token(behaviors_view(bs@)),
{
    let ghost bv = behaviors_view(bs@);
    let mut i: usize = bs.len();
    assert(bv.subrange(0, bv.len() as int) =~= bv);
    while i > 0
        invariant
            i <= bs@.len(),
            bv == behaviors_view(bs@),
            stop_token(bv) == stop_token(bv.subrange(0, i as int)),
        decreases i,
    {
        let ghost cur = bv.subrange(0, i as int);
        assert(cur.last() == bs@[i - 1]@);
        assert(cur.drop_last() =~= bv.subrange(0, i - 1));
        match &bs[i - 1] {
            Behavior::Until(v) => {
                return copy_chars(v);
            },
            _ => {},
        }
        i = i - 1;
    }
    let r = vec!['\\', '\\'];
    assert(r@ =~= seq!['\\', '\\']);
    r
}

fn hold_exec(w: &Vec<Sym>, t: &Vec<char>, j: usize) -> (r: Vec<Sym>)
    ensures
        r@ == hold_from(w@, t@, j, 0),
{
    let mut esc: Vec<char> = vec!['\\'];
    push_all(&mut esc, t);
    assert(esc@ =~= escaped(t@));
    let mut r: Vec<Sym> = Vec::new();
    let mut i: usize = 0;
    while i < w.len()
        invariant
            i <= w@.len(),
            esc@ == escaped(t@),
            r@ + hold_from(w@, t@, j, i as int) == hold_from(w@, t@, j, 0),
        decreases w@.len() - i,
    {
        let ghost r0 = r@;
        if sym_occurs_at(w, &esc, i) {
            let x = Sym::Held(j);
            r.push(x);
            proof {
                lemma_push(r0, x);
                assert(r0.push(x) + hold_from(w@, t@, j, i + 1 + t@.len()) =~= r0 + (seq![x]
                    + hold_from(w@, t@, j, i + 1 + t@.len())));
            }
            i = i + 1 + t.len();
        } else {
            let x = w[i];
            r.push(x);
            proof {
                lemma_push(r0, x);
                assert(r0.push(x) + hold_from(w@, t@, j, i + 1) =~= r0 + (seq![x] + hold_from(
                    w@,
                    t@,
                    j,
                    i + 1,
                )));
            }
            i = i + 1;
        }
    }
    assert(r@ + hold_from(w@, t@, j, i as int) =~= r@);
    r
}

/// Holding escaped triggers never lengthens a window, and a window it
/// leaves as long is left unchanged.
proof fn lemma_hold_len(w: Seq<Sym>, t: Seq<char>, j: usize, i: int)
    requires
        0 <= i <= w.len(),
        t.len() > 0,
    ensures
        hold_from(w, t, j, i).len() <= w.len() - i,
        hold_from(w, t, j, i).len() == w.len() - i ==> hold_from(w, t, j, i) == w.subrange(
            i,
            w.len() as int,
        ),
    decreases w.len() - i,
{
    if i >= w.len() {
        assert(w.subrange(i, w.len() as int) =~= seq![]);
    } else if occurs_at(w, lift(escaped(t)), i) {
        lemma_hold_len(w, t, j, i + 1 + t.len());
    } else {
        lemma_hold_len(w, t, j, i + 1);
        if hold_from(w, t, j, i).len() == w.len() - i {
            assert(seq![w[i]] + w.subrange(i + 1, w.len() as int) =~= w.subrange(
                i,
                w.len() as int,
            ));
        }
    }
}


/// The expansion of window `w` under `rules`.
pub fn expand_window(rules: &Vec<Rule>, w: &Vec<Sym>) -> (r: Vec<char>)
    ensures
        r@ == expand(rules_view(rules@), w@),
    decreases w@.len(),
{
    let ghost rv = rules_view(rules@);
    let mut out: Vec<char> = Vec::new();
    if w.len() == 0 {
        return out;
    }
    let j = match first_match_exec(rules, w) {
        None => {
            render_into(rules, w, &mut out);
            return out;
        },
        Some(j) => j,
    };
    let rule = &rules[j];
    assert(rv[j as int] == rule@);
    proof {
        lemma_first_match_from(rv, w@, 0);
    }
    if rule.behaviors.len() == 0 {
        let after = after_token_exec(w, &rule.trigger);
        let newline = vec!['\n'];
        assert(newline@ =~= seq!['\n']);
        let (content, rest, _) = cut_exec(&after, &newline);
        push_all(&mut out, &rule.prefix);
        render_into(rules, &content, &mut out);
        push_all(&mut out, &rule.suffix);
        out.push('\n');
        let more = expand_window(rules, &rest);
        push_all(&mut out, &more);
        return out;
    }
    assert(rule@.behaviors[0] == rule.behaviors@[0]@);
    match &rule.behaviors[0] {
        Behavior::Recursive => {
            let after = after_token_exec(w, &rule.trigger);
            let stop = stop_token_exec(&rule.behaviors);
            let (body, tail, _) = cut_exec(&after, &stop);
            push_all(&mut out, &rule.prefix);
            let inner = expand_window(rules, &body);
            push_all(&mut out, &inner);
            push_all(&mut out, &rule.suffix);
            let more = expand_window(rules, &tail);
            push_all(&mut out, &more);
            out
        },
        Behavior::Interrupt => {
            let (head, _, _) = cut_exec(w, &rule.trigger);
            push_all(&mut out, &rule.prefix);
            render_into(rules, &head, &mut out);
            push_all(&mut out, &rule.suffix);
            out
        },
        Behavior::LineBreak => {
            let (head, tail, _) = cut_exec(w, &rule.trigger);
            render_into(rules, &head, &mut out);
            push_all(&mut out, &rule.prefix);
            let more = expand_window(rules, &tail);
            push_all(&mut out, &more);
            out
        },
        Behavior::Until(_) => {
            let ghost t = rule.trigger@;
            let ghost n = w@.len();
            let recursive = has_recursive(&rule.behaviors);
            let held = hold_exec(w, &rule.trigger, j);
            let ghost held_v = held@;
            proof {
                lemma_hold_len(w@, t, j, 0);
                assert(w@.subrange(0, w@.len() as int) =~= w@);
            }
            assert(expand(rv, w@) == until_join(rv, j, held_v, false, n));
            let mut h = held;
            let mut inside = false;
            loop
                invariant
                    j < rules@.len(),
                    rv == rules_view(rules@),
                    rv[j as int] == rules@[j as int]@,
                    t == rules@[j as int].trigger@,
                    t.len() > 0,
                    recursive == has_behavior(rv[j as int].behaviors, BehaviorView::Recursive),
                    n == w@.len(),
                    expand(rv, w@) == until_join(rv, j, held_v, false, n),
                    held_v.len() <= n,
                    held_v.len() == n ==> find(held_v, lift(t)) >= 0,
                    h@.len() < n || h@ == held_v,
                    until_join(rv, j, held_v, false, n) == out@ + until_join(
                        rv,
                        j,
                        h@,
                        inside,
                        n,
                    ),
                decreases h@.len(),
            {
                let rule = &rules[j];
                let (piece, rest, found) = cut_exec(&h, &rule.trigger);
                proof {
                    lemma_find_from(h@, lift(t), 0);
                    lemma_lift(t);
                }
                assert(piece@.len() < n);
                let ghost before = out@;
                if !inside {
                    let e = expand_window(rules, &piece);
                    push_all(&mut out, &e);
                } else if recursive {
                    push_all(&mut out, &rule.prefix);
                    let e = expand_window(rules, &piece);
                    push_all(&mut out, &e);
                    push_all(&mut out, &rule.suffix);
                } else {
                    push_all(&mut out, &rule.prefix);
                    render_into(rules, &piece, &mut out);
                    push_all(&mut out, &rule.suffix);
                }
                let ghost piece_out = out@.subrange(before.len() as int, out@.len() as int);
                assert(out@ =~= before + piece_out);
                if !found {
                    assert(until_join(rv, j, h@, inside, n) == piece_out);
                    return out;
                }
                assert(until_join(rv, j, h@, inside, n) == piece_out + until_join(
                    rv,
                    j,
                    rest@,
                    !inside,
                    n,
                ));
                assert(before + (piece_out + until_join(rv, j, rest@, !inside, n)) =~= out@
                    + until_join(rv, j, rest@, !inside, n));
                h = rest;
                inside = !inside;
            }
        },
    }
}

} // verus!
