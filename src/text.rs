//! Character-level building blocks shared by the rule compiler and the
//! expansion engine: searching, tokenising, trimming and splitting.
use vstd::prelude::*;

verus! {

/// One position of a window of text under expansion.
///
/// `Text` is an ordinary character. `Held(i)` stands for an escaped trigger
/// of rule `i`: it renders as that rule's trigger, but no rule can match it,
/// so escaped triggers are never taken for delimiters.
#[derive(Clone, Copy, PartialEq, Eq, Structural, Debug)]
pub enum Sym {
    Text(char),
    Held(usize),
}

/// The ASCII whitespace that separates tokens (space, tab, line feed, form
/// feed, carriage return).
pub open spec fn is_ws(c: char) -> bool {
    c == ' ' || c == '\t' || c == '\n' || c == '\x0C' || c == '\r'
}

/// Horizontal whitespace: space and tab.
pub open spec fn is_blank(c: char) -> bool {
    c == ' ' || c == '\t'
}

pub open spec fn is_ws_sym(x: Sym) -> bool {
    match x {
        Sym::Text(c) => is_ws(c),
        Sym::Held(_) => false,
    }
}

pub open spec fn is_blank_sym(x: Sym) -> bool {
    match x {
        Sym::Text(c) => is_blank(c),
        Sym::Held(_) => false,
    }
}

pub open spec fn text_sym(c: char) -> Sym {
    Sym::Text(c)
}

/// Plain text as a window of symbols.
pub open spec fn lift(s: Seq<char>) -> Seq<Sym> {
    Seq::new(s.len(), |i: int| text_sym(s[i]))
}

pub proof fn lemma_lift(s: Seq<char>)
    ensures
        lift(s).len() == s.len(),
        forall|j: int| 0 <= j < s.len() ==> #[trigger] lift(s)[j] == Sym::Text(s[j]),
{
}

/// The facts about `push` that loops over symbol vectors rely on.
pub proof fn lemma_push<A>(s: Seq<A>, x: A)
    ensures
        s.push(x).len() == s.len() + 1,
        s.push(x)[s.len() as int] == x,
        forall|j: int| 0 <= j < s.len() ==> #[trigger] s.push(x)[j] == s[j],
{
    vstd::seq::axiom_seq_push_len(s, x);
    vstd::seq::axiom_seq_push_index_same(s, x, s.len() as int);
    assert forall|j: int| 0 <= j < s.len() implies #[trigger] s.push(x)[j] == s[j] by {
        vstd::seq::axiom_seq_push_index_different(s, x, j);
    }
}

pub fn ws_char(c: char) -> (r: bool)
    ensures
        r == is_ws(c),
{
    c == ' ' || c == '\t' || c == '\n' || c == '\x0C' || c == '\r'
}

pub fn ws_sym(x: Sym) -> (r: bool)
    ensures
        r == is_ws_sym(x),
{
    match x {
        Sym::Text(c) => ws_char(c),
        Sym::Held(_) => false,
    }
}

pub fn blank_sym(x: Sym) -> (r: bool)
    ensures
        r == is_blank_sym(x),
{
    match x {
        Sym::Text(c) => c == ' ' || c == '\t',
        Sym::Held(_) => false,
    }
}

// ---------------------------------------------------------------------------
// Searching

/// `t` occurs in `s` at position `i`.
pub open spec fn occurs_at<A>(s: Seq<A>, t: Seq<A>, i: int) -> bool {
    0 <= i && i + t.len() <= s.len() && s.subrange(i, i + t.len()) =~= t
}

/// The leftmost position at or after `i` where `t` occurs in `s`, or -1.
pub open spec fn find_from<A>(s: Seq<A>, t: Seq<A>, i: int) -> int
    decreases s.len() - i,
{
    if i < 0 || i + t.len() > s.len() {
        -1
    } else if occurs_at(s, t, i) {
        i
    } else {
        find_from(s, t, i + 1)
    }
}

pub open spec fn find<A>(s: Seq<A>, t: Seq<A>) -> int {
    find_from(s, t, 0)
}

pub proof fn lemma_find_from<A>(s: Seq<A>, t: Seq<A>, i: int)
    requires
        0 <= i,
    ensures
        find_from(s, t, i) == -1 || (i <= find_from(s, t, i) && occurs_at(
            s,
            t,
            find_from(s, t, i),
        )),
        find_from(s, t, i) == -1 ==> forall|j: int| i <= j ==> !occurs_at(s, t, j),
        find_from(s, t, i) != -1 ==> forall|j: int|
            i <= j < find_from(s, t, i) ==> !occurs_at(s, t, j),
    decreases s.len() - i,
{
    if i + t.len() > s.len() {
    } else if occurs_at(s, t, i) {
    } else {
        lemma_find_from(s, t, i + 1);
        assert forall|j: int| i <= j && j < i + 1 implies !occurs_at(s, t, j) by {}
    }
}

/// `t` occurs in `s` at position `i` (symbols against plain characters).
pub fn sym_occurs_at(s: &Vec<Sym>, t: &Vec<char>, i: usize) -> (r: bool)
    ensures
        r == occurs_at(s@, lift(t@), i as int),
{
    proof {
        lemma_lift(t@);
    }
    if t.len() > s.len() || i > s.len() - t.len() {
        return false;
    }
    let mut k: usize = 0;
    while k < t.len()
        invariant
            i + t@.len() <= s@.len(),
            k <= t@.len(),
            forall|j: int| 0 <= j < k ==> s@[i + j] == Sym::Text(t@[j]),
            lift(t@).len() == t@.len(),
            forall|j: int| 0 <= j < t@.len() ==> #[trigger] lift(t@)[j] == Sym::Text(t@[j]),
        decreases t@.len() - k,
    {
        assert(i + k < s.len());
        if s[i + k] != Sym::Text(t[k]) {
            assert(s@.subrange(i as int, i + t@.len())[k as int] != lift(t@)[k as int]);
            return false;
        }
        k = k + 1;
    }
    assert(s@.subrange(i as int, i + t@.len()) =~= lift(t@));
    true
}

/// `t` occurs in `s` at position `i`.
pub fn chars_occur_at(s: &Vec<char>, t: &Vec<char>, i: usize) -> (r: bool)
    ensures
        r == occurs_at(s@, t@, i as int),
{
    if t.len() > s.len() || i > s.len() - t.len() {
        return false;
    }
    let mut k: usize = 0;
    while k < t.len()
        invariant
            i + t@.len() <= s@.len(),
            k <= t@.len(),
            forall|j: int| 0 <= j < k ==> s@[i + j] == t@[j],
        decreases t@.len() - k,
    {
        assert(i + k < s.len());
        if s[i + k] != t[k] {
            assert(s@.subrange(i as int, i + t@.len())[k as int] != t@[k as int]);
            return false;
        }
        k = k + 1;
    }
    assert(s@.subrange(i as int, i + t@.len()) =~= t@);
    true
}

/// The leftmost occurrence of `t` in `s` at or after `from`.
pub fn find_sym(s: &Vec<Sym>, t: &Vec<char>, from: usize) -> (r: Option<usize>)
    requires
        from <= s@.len(),
    ensures
        match r {
            Some(i) => find_from(s@, lift(t@), from as int) == i as int,
            None => find_from(s@, lift(t@), from as int) == -1,
        },
{
    proof {
        lemma_lift(t@);
    }
    let mut i = from;
    while i <= s.len() && t.len() <= s.len() - i
        invariant
            from <= i <= s@.len() + 1,
            lift(t@).len() == t@.len(),
            find_from(s@, lift(t@), from as int) == find_from(s@, lift(t@), i as int),
        decreases s@.len() + 1 - i,
    {
        if sym_occurs_at(s, t, i) {
            return Some(i);
        }
        i = i + 1;
    }
    None
}

/// The leftmost occurrence of `t` in `s` at or after `from`.
pub fn find_chars(s: &Vec<char>, t: &Vec<char>, from: usize) -> (r: Option<usize>)
    requires
        from <= s@.len(),
    ensures
        match r {
            Some(i) => find_from(s@, t@, from as int) == i as int,
            None => find_from(s@, t@, from as int) == -1,
        },
{
    let mut i = from;
    while i <= s.len() && t.len() <= s.len() - i
        invariant
            from <= i <= s@.len() + 1,
            find_from(s@, t@, from as int) == find_from(s@, t@, i as int),
        decreases s@.len() + 1 - i,
    {
        if chars_occur_at(s, t, i) {
            return Some(i);
        }
        i = i + 1;
    }
    None
}

// ---------------------------------------------------------------------------
// Copying ranges

pub fn sym_range(s: &Vec<Sym>, a: usize, b: usize) -> (r: Vec<Sym>)
    requires
        a <= b <= s@.len(),
    ensures
        r@ == s@.subrange(a as int, b as int),
{
    let mut r: Vec<Sym> = Vec::new();
    let mut i = a;
    while i < b
        invariant
            a <= i <= b <= s@.len(),
            r@ =~= s@.subrange(a as int, i as int),
        decreases b - i,
    {
        r.push(s[i]);
        i = i + 1;
    }
    r
}

pub fn char_range(s: &Vec<char>, a: usize, b: usize) -> (r: Vec<char>)
    requires
        a <= b <= s@.len(),
    ensures
        r@ == s@.subrange(a as int, b as int),
{
    let mut r: Vec<char> = Vec::new();
    let mut i = a;
    while i < b
        invariant
            a <= i <= b <= s@.len(),
            r@ =~= s@.subrange(a as int, i as int),
        decreases b - i,
    {
        r.push(s[i]);
        i = i + 1;
    }
    r
}

/// Appends `t` to `out`.
pub fn push_all(out: &mut Vec<char>, t: &Vec<char>)
    ensures
        final(out)@ == old(out)@ + t@,
{
    let ghost start = out@;
    let mut i: usize = 0;
    while i < t.len()
        invariant
            i <= t@.len(),
            out@ =~= start + t@.subrange(0, i as int),
        decreases t@.len() - i,
    {
        out.push(t[i]);
        i = i + 1;
    }
    assert(t@.subrange(0, t@.len() as int) =~= t@);
}

pub fn lift_chars(s: &Vec<char>) -> (r: Vec<Sym>)
    ensures
        r@ == lift(s@),
{
    let mut r: Vec<Sym> = Vec::new();
    let mut i: usize = 0;
    while i < s.len()
        invariant
            i <= s@.len(),
            r@.len() == i,
            forall|j: int| 0 <= j < i ==> r@[j] == Sym::Text(s@[j]),
        decreases s@.len() - i,
    {
        let x = Sym::Text(s[i]);
        let ghost r0 = r@;
        r.push(x);
        proof {
            lemma_push(r0, x);
        }
        i = i + 1;
    }
    proof {
        lemma_lift(s@);
    }
    assert(r@ =~= lift(s@));
    r
}

// ---------------------------------------------------------------------------
// Skipping whitespace and tokens

/// The first position at or after `i` that is whitespace (or the end).
pub open spec fn run_end(s: Seq<char>, i: int) -> int
    decreases s.len() - i,
{
    if i < 0 || i >= s.len() || is_ws(s[i]) {
        i
    } else {
        run_end(s, i + 1)
    }
}

pub proof fn lemma_run_end(s: Seq<char>, i: int)
    requires
        0 <= i <= s.len(),
    ensures
        i <= run_end(s, i) <= s.len(),
        run_end(s, i) < s.len() ==> is_ws(s[run_end(s, i)]),
        forall|j: int| i <= j < run_end(s, i) ==> !is_ws(s[j]),
    decreases s.len() - i,
{
    if i < s.len() && !is_ws(s[i]) {
        lemma_run_end(s, i + 1);
    }
}

/// The whitespace-separated tokens of `s` from position `i` on.
pub open spec fn tokens_from(s: Seq<char>, i: int) -> Seq<Seq<char>>
    decreases s.len() - i,
{
    if i < 0 || i >= s.len() {
        seq![]
    } else if is_ws(s[i]) {
        tokens_from(s, i + 1)
    } else {
        let e = run_end(s, i);
        if e <= i || e > s.len() {
            seq![]
        } else {
            seq![s.subrange(i, e)] + tokens_from(s, e)
        }
    }
}

pub open spec fn tokens(s: Seq<char>) -> Seq<Seq<char>> {
    tokens_from(s, 0)
}

pub fn run_end_chars(s: &Vec<char>, i: usize) -> (r: usize)
    requires
        i <= s@.len(),
    ensures
        r == run_end(s@, i as int),
{
    let mut j = i;
    while j < s.len() && !ws_char(s[j])
        invariant
            i <= j <= s@.len(),
            run_end(s@, i as int) == run_end(s@, j as int),
        decreases s@.len() - j,
    {
        j = j + 1;
    }
    j
}

/// Splits `s` into its whitespace-separated tokens.
pub fn split_tokens(s: &Vec<char>) -> (r: Vec<Vec<char>>)
    ensures
        r@.map_values(|t: Vec<char>| t@) == tokens(s@),
{
    let mut r: Vec<Vec<char>> = Vec::new();
    let mut i: usize = 0;
    while i < s.len()
        invariant
            i <= s@.len(),
            r@.map_values(|t: Vec<char>| t@) + tokens_from(s@, i as int) == tokens(s@),
        decreases s@.len() - i,
    {
        if ws_char(s[i]) {
            i = i + 1;
        } else {
            let e = run_end_chars(s, i);
            proof {
                lemma_run_end(s@, i as int);
            }
            let tok = char_range(s, i, e);
            let ghost before = r@.map_values(|t: Vec<char>| t@);
            r.push(tok);
            assert(r@.map_values(|t: Vec<char>| t@) =~= before.push(tok@));
            assert(tokens_from(s@, i as int) == seq![tok@] + tokens_from(s@, e as int));
            assert(before.push(tok@) + tokens_from(s@, e as int) =~= before + (seq![tok@]
                + tokens_from(s@, e as int)));
            i = e;
        }
    }
    r
}

// ---------------------------------------------------------------------------
// Trimming and filtering

/// `s` without whitespace at either end.
pub open spec fn trim(s: Seq<char>) -> Seq<char>
    decreases s.len(),
{
    if s.len() > 0 && is_ws(s[0]) {
        trim(s.drop_first())
    } else if s.len() > 0 && is_ws(s.last()) {
        trim(s.drop_last())
    } else {
        s
    }
}

pub fn trim_chars(s: &Vec<char>) -> (r: Vec<char>)
    ensures
        r@ == trim(s@),
{
    let mut a: usize = 0;
    let mut b: usize = s.len();
    assert(s@.subrange(0, s@.len() as int) =~= s@);
    while a < b && (ws_char(s[a]) || ws_char(s[b - 1]))
        invariant
            a <= b <= s@.len(),
            trim(s@) == trim(s@.subrange(a as int, b as int)),
        decreases b - a,
    {
        let ghost cur = s@.subrange(a as int, b as int);
        if ws_char(s[a]) {
            assert(cur.drop_first() =~= s@.subrange(a + 1, b as int));
            a = a + 1;
        } else {
            assert(cur.drop_last() =~= s@.subrange(a as int, b - 1));
            b = b - 1;
        }
    }
    char_range(s, a, b)
}

/// `s` without any occurrence of `c`.
pub open spec fn without(s: Seq<char>, c: char) -> Seq<char>
    decreases s.len(),
{
    if s.len() == 0 {
        s
    } else if s.last() == c {
        without(s.drop_last(), c)
    } else {
        without(s.drop_last(), c).push(s.last())
    }
}

pub fn remove_char(s: &Vec<char>, c: char) -> (r: Vec<char>)
    ensures
        r@ == without(s@, c),
{
    let mut r: Vec<char> = Vec::new();
    let mut i: usize = 0;
    while i < s.len()
        invariant
            i <= s@.len(),
            r@ == without(s@.subrange(0, i as int), c),
        decreases s@.len() - i,
    {
        assert(s@.subrange(0, i + 1 as int).drop_last() =~= s@.subrange(0, i as int));
        if s[i] != c {
            r.push(s[i]);
        }
        i = i + 1;
    }
    assert(s@.subrange(0, s@.len() as int) =~= s@);
    r
}

// ---------------------------------------------------------------------------
// Splitting on a separator

/// The pieces of `s` from `i` on between the leftmost non-overlapping
/// occurrences of `sep`; always at least one piece.
pub open spec fn split_from(s: Seq<char>, sep: Seq<char>, i: int) -> Seq<Seq<char>>
    decreases s.len() - i,
{
    let k = find_from(s, sep, i);
    if i < 0 || i > s.len() || sep.len() == 0 || k < i || k + sep.len() > s.len() {
        seq![s.subrange(i, s.len() as int)]
    } else {
        seq![s.subrange(i, k)] + split_from(s, sep, k + sep.len())
    }
}

pub open spec fn split(s: Seq<char>, sep: Seq<char>) -> Seq<Seq<char>> {
    split_from(s, sep, 0)
}

pub fn split_chars(s: &Vec<char>, sep: &Vec<char>) -> (r: Vec<Vec<char>>)
    requires
        sep@.len() > 0,
    ensures
        r@.map_values(|t: Vec<char>| t@) == split(s@, sep@),
{
    let mut r: Vec<Vec<char>> = Vec::new();
    let mut i: usize = 0;
    loop
        invariant
            i <= s@.len(),
            sep@.len() > 0,
            r@.map_values(|t: Vec<char>| t@) + split_from(s@, sep@, i as int) == split(s@, sep@),
        decreases s@.len() - i,
    {
        let ghost before = r@.map_values(|t: Vec<char>| t@);
        proof {
            lemma_find_from(s@, sep@, i as int);
        }
        match find_chars(s, sep, i) {
            None => {
                let piece = char_range(s, i, s.len());
                r.push(piece);
                assert(r@.map_values(|t: Vec<char>| t@) =~= before + split_from(
                    s@,
                    sep@,
                    i as int,
                ));
                return r;
            },
            Some(k) => {
                assert(occurs_at(s@, sep@, k as int));
                assert(k + sep@.len() <= s.len());
                let piece = char_range(s, i, k);
                r.push(piece);
                assert(r@.map_values(|t: Vec<char>| t@) =~= before.push(piece@));
                assert(before.push(piece@) + split_from(s@, sep@, k + sep@.len()) =~= before + (
                seq![piece@] + split_from(s@, sep@, k + sep@.len())));
                i = k + sep.len();
            },
        }
    }
}

// ---------------------------------------------------------------------------
// Converting between strings and character vectors

/// The characters of `s`, in order.
pub fn chars_of(s: &str) -> (r: Vec<char>)
    ensures
        r@ == s@,
{
    let mut r: Vec<char> = Vec::new();
    for c in it: s.chars()
        invariant
            it.seq() == s@,
            r@ == it.seq().subrange(0, it.index() as int),
    {
        r.push(c);
    }
    r
}

/// Relies on `String::push`: appends one character to the string.
#[verifier::external_body]
fn push_char(s: &mut String, c: char)
    ensures
        final(s)@ == old(s)@.push(c),
{
    s.push(c)
}

/// The string made of the characters of `v`.
pub fn string_of(v: &Vec<char>) -> (r: String)
    ensures
        r@ == v@,
{
    let mut r = String::new();
    let mut i: usize = 0;
    while i < v.len()
        invariant
            i <= v@.len(),
            r@ =~= v@.subrange(0, i as int),
        decreases v@.len() - i,
    {
        push_char(&mut r, v[i]);
        i = i + 1;
    }
    r
}

/// `a` and `b` hold the same characters.
pub fn chars_equal(a: &Vec<char>, b: &Vec<char>) -> (r: bool)
    ensures
        r == (a@ == b@),
{
    if a.len() != b.len() {
        return false;
    }
    let mut i: usize = 0;
    while i < a.len()
        invariant
            a@.len() == b@.len(),
            i <= a@.len(),
            forall|j: int| 0 <= j < i ==> a@[j] == b@[j],
        decreases a@.len() - i,
    {
        if a[i] != b[i] {
            return false;
        }
        i = i + 1;
    }
    assert(a@ =~= b@);
    true
}

pub fn copy_chars(a: &Vec<char>) -> (r: Vec<char>)
    ensures
        r@ == a@,
{
    let r = char_range(a, 0, a.len());
    assert(a@.subrange(0, a@.len() as int) =~= a@);
    r
}


/// Every token is non-empty.
pub proof fn lemma_tokens_nonempty(s: Seq<char>, i: int)
    ensures
        forall|k: int| 0 <= k < tokens_from(s, i).len() ==> #[trigger] tokens_from(s, i)[k].len() > 0,
    decreases s.len() - i,
{
    if i < 0 || i >= s.len() {
    } else if is_ws(s[i]) {
        lemma_tokens_nonempty(s, i + 1);
        assert(tokens_from(s, i) == tokens_from(s, i + 1));
    } else {
        let e = run_end(s, i);
        if e <= i || e > s.len() {
            assert(tokens_from(s, i) =~= seq![]);
        } else {
            lemma_tokens_nonempty(s, e);
            let ts = tokens_from(s, i);
            assert(ts == seq![s.subrange(i, e)] + tokens_from(s, e));
            assert forall|k: int| 0 <= k < ts.len() implies #[trigger] ts[k].len() > 0 by {
                if k == 0 {
                    assert(ts[0] == s.subrange(i, e));
                } else {
                    assert(ts[k] == tokens_from(s, e)[k - 1]);
                }
            }
        }
    }
}

} // verus!
