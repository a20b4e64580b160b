use vstd::prelude::*;

use crate::error::{EngineError, ErrorView};
use crate::expression::{ExprView, Expression};

verus! {

// Grammar of conditions:
//   id      := [a-z][a-z0-9]* ('-' [a-z0-9]+)*
//   operand := '(' expr ')' | '!' operand | 'complete' '(' id ')' | id
//   and     := operand ('&&' and)?
//   or      := and ('||' or)?
//   expr    := 'param' | or
// Whitespace may stand before every token. The whole text must be consumed.
pub open spec fn is_ws(c: char) -> bool {
    c == ' ' || c == '\t' || c == '\r' || c == '\n'
}

pub open spec fn is_lower(c: char) -> bool {
    'a' <= c && c <= 'z'
}

pub open spec fn is_lower_alphanum(c: char) -> bool {
    is_lower(c) || ('0' <= c && c <= '9')
}

/// First position at or after `i` that is not whitespace.
pub open spec fn skip_ws(s: Seq<char>, i: int) -> int
    decreases s.len() - i,
{
    if 0 <= i < s.len() && is_ws(s[i]) {
        skip_ws(s, i + 1)
    } else {
        i
    }
}

/// End of the id whose first character stands just before `j`.
pub open spec fn id_end(s: Seq<char>, j: int) -> int
    decreases s.len() - j,
{
    if 0 <= j < s.len() && is_lower_alphanum(s[j]) {
        id_end(s, j + 1)
    } else if 0 <= j && j + 1 < s.len() && s[j] == '-' && is_lower_alphanum(s[j + 1]) {
        id_end(s, j + 2)
    } else {
        j
    }
}

pub open spec fn complete_word() -> Seq<char> {
    seq!['c', 'o', 'm', 'p', 'l', 'e', 't', 'e']
}

pub open spec fn param_word() -> Seq<char> {
    seq!['p', 'a', 'r', 'a', 'm']
}

/// An operand starting at `i`: the expression and the position after it, or
/// the position where no operand could be read.
pub open spec fn parse_operand(s: Seq<char>, i: int) -> Result<(ExprView, int), int>
    decreases s.len() - i, 0nat,
{
    let j = skip_ws(s, i);
    if j < i || j >= s.len() {
        Err(j)
    } else if s[j] == '(' {
        match parse_expr(s, j + 1) {
            Ok((e, k)) => {
                let m = skip_ws(s, k);
                if 0 <= m < s.len() && s[m] == ')' {
                    Ok((e, m + 1))
                } else {
                    Err(m)
                }
            },
            Err(p) => Err(p),
        }
    } else if s[j] == '!' {
        match parse_operand(s, j + 1) {
            Ok((e, k)) => Ok((ExprView::Not(Box::new(e)), k)),
            Err(p) => Err(p),
        }
    } else if is_lower(s[j]) {
        let k = id_end(s, j + 1);
        let m = skip_ws(s, k);
        if s.subrange(j, k) == complete_word() && 0 <= m < s.len() && s[m] == '(' {
            let a = skip_ws(s, m + 1);
            if 0 <= a < s.len() && is_lower(s[a]) {
                let b = id_end(s, a + 1);
                let c = skip_ws(s, b);
                if 0 <= c < s.len() && s[c] == ')' {
                    Ok((ExprView::NodeComplete(s.subrange(a, b)), c + 1))
                } else {
                    Err(c)
                }
            } else {
                Err(a)
            }
        } else {
            Ok((ExprView::Node(s.subrange(j, k)), k))
        }
    } else {
        Err(j)
    }
}

/// `operand ('&&' and)?`, folded to the right.
pub open spec fn parse_and(s: Seq<char>, i: int) -> Result<(ExprView, int), int>
    decreases s.len() - i, 1nat,
{
    match parse_operand(s, i) {
        Ok((a, k)) => {
            let m = skip_ws(s, k);
            if 0 <= m && m + 1 < s.len() && s[m] == '&' && s[m + 1] == '&' {
                if m < i {
                    Err(m)
                } else {
                    match parse_and(s, m + 2) {
                        Ok((b, q)) => Ok((ExprView::And(Box::new(a), Box::new(b)), q)),
                        Err(p) => Err(p),
                    }
                }
            } else {
                Ok((a, k))
            }
        },
        Err(p) => Err(p),
    }
}

/// `and ('||' or)?`, folded to the right.
pub open spec fn parse_or(s: Seq<char>, i: int) -> Result<(ExprView, int), int>
    decreases s.len() - i, 2nat,
{
    match parse_and(s, i) {
        Ok((a, k)) => {
            let m = skip_ws(s, k);
            if 0 <= m && m + 1 < s.len() && s[m] == '|' && s[m + 1] == '|' {
                if m < i {
                    Err(m)
                } else {
                    match parse_or(s, m + 2) {
                        Ok((b, q)) => Ok((ExprView::Or(Box::new(a), Box::new(b)), q)),
                        Err(p) => Err(p),
                    }
                }
            } else {
                Ok((a, k))
            }
        },
        Err(p) => Err(p),
    }
}

/// `'param' | or`.
pub open spec fn parse_expr(s: Seq<char>, i: int) -> Result<(ExprView, int), int>
    decreases s.len() - i, 3nat,
{
    let j = skip_ws(s, i);
    if 0 <= j < s.len() && is_lower(s[j]) && s.subrange(j, id_end(s, j + 1)) == param_word() {
        Ok((ExprView::Manual, id_end(s, j + 1)))
    } else {
        parse_or(s, i)
    }
}

/// The expression that the whole text spells, or the position where reading stopped.
pub open spec fn parse_text(s: Seq<char>) -> Result<ExprView, int> {
    match parse_expr(s, 0) {
        Ok((e, k)) => {
            let m = skip_ws(s, k);
            if m == s.len() {
                Ok(e)
            } else {
                Err(m)
            }
        },
        Err(p) => Err(p),
    }
}

/// The outcome of parsing `s`: the expression, or the unconsumed remainder.
pub open spec fn parsed(s: Seq<char>) -> Result<ExprView, ErrorView> {
    match parse_text(s) {
        Ok(e) => Ok(e),
        Err(p) => Err(ErrorView::Parse { rest: s.subrange(p, s.len() as int) }),
    }
}

/// `id` is spelled by the id grammar.
pub open spec fn is_id(id: Seq<char>) -> bool {
    id.len() > 0 && is_lower(id[0]) && id_end(id, 1) == id.len()
}

/// `e` is made only of what the grammar builds from ids, `complete(..)`,
/// `!`, `&&` and `||`, with no id spelled `param`.
pub open spec fn spellable(e: ExprView) -> bool
    decreases e,
{
    match e {
        ExprView::Node(id) => is_id(id) && id != param_word(),
        ExprView::NodeComplete(id) => is_id(id),
        ExprView::Not(a) => spellable(*a),
        ExprView::And(a, b) => spellable(*a) && spellable(*b),
        ExprView::Or(a, b) => spellable(*a) && spellable(*b),
        _ => false,
    }
}

/// The text of `e` with every `&&` and `||` in parentheses.
pub open spec fn spell(e: ExprView) -> Seq<char>
    decreases e,
{
    match e {
        ExprView::Node(id) => id,
        ExprView::NodeComplete(id) => complete_word() + seq!['('] + id + seq![')'],
        ExprView::Not(a) => seq!['!'] + spell(*a),
        ExprView::And(a, b) => seq!['('] + spell(*a) + seq!['&', '&'] + spell(*b) + seq![')'],
        ExprView::Or(a, b) => seq!['('] + spell(*a) + seq!['|', '|'] + spell(*b) + seq![')'],
        _ => Seq::empty(),
    }
}

/// Position `k` ends an operand: the end of the text, `)`, `&` or `|`.
pub open spec fn stops(s: Seq<char>, k: int) -> bool {
    k == s.len() || (0 <= k < s.len() && (s[k] == ')' || s[k] == '&' || s[k] == '|'))
}

/// An id followed by a character that cannot continue it is read whole.
proof fn lemma_id_local(s: Seq<char>, i: int, id: Seq<char>, j: int)
    requires
        0 <= i,
        i + id.len() <= s.len(),
        s.subrange(i, i + id.len()) == id,
        1 <= j <= id.len(),
        id_end(id, j) == id.len(),
        i + id.len() == s.len() || !(is_lower_alphanum(s[i + id.len()]) || s[i + id.len()] == '-'),
    ensures
        id_end(s, i + j) == i + id.len(),
    decreases id.len() - j,
{
    if j < id.len() {
        assert(s[i + j] == id[j]);
    }
    if j + 1 < id.len() {
        assert(s[i + j + 1] == id[j + 1]);
    }
    if j < id.len() && is_lower_alphanum(id[j]) {
        lemma_id_local(s, i, id, j + 1);
    } else if j + 1 < id.len() && id[j] == '-' && is_lower_alphanum(id[j + 1]) {
        lemma_id_local(s, i, id, j + 2);
    }
}

proof fn lemma_complete_is_id()
    ensures
        is_id(complete_word()),
{
    let w = complete_word();
    reveal_with_fuel(id_end, 9);
    assert(id_end(w, 1) == 8);
}

proof fn lemma_spell_start(e: ExprView)
    requires
        spellable(e),
    ensures
        spell(e).len() > 0,
        spell(e)[0] == '(' || spell(e)[0] == '!' || is_lower(spell(e)[0]),
        !is_ws(spell(e)[0]),
{
    match e {
        ExprView::NodeComplete(id) => {
            assert(spell(e)[0] == 'c');
        },
        ExprView::Not(a) => {
            assert(spell(e)[0] == '!');
        },
        ExprView::And(a, b) => {
            assert(spell(e)[0] == '(');
        },
        ExprView::Or(a, b) => {
            assert(spell(e)[0] == '(');
        },
        _ => {},
    }
}

/// An operand read at `i` up to a stop is also what the `&&`, `||` and
/// expression levels read there, where the stop allows them to end.
proof fn lemma_levels(s: Seq<char>, i: int, e: ExprView, end: int)
    requires
        0 <= i < end <= s.len(),
        parse_operand(s, i) == Ok::<(ExprView, int), int>((e, end)),
        !is_ws(s[i]),
        is_lower(s[i]) ==> s.subrange(i, id_end(s, i + 1)) != param_word(),
        stops(s, end),
    ensures
        (end == s.len() || s[end] != '&') ==> parse_and(s, i) == Ok::<(ExprView, int), int>((e, end)),
        (end == s.len() || s[end] == ')') ==> parse_or(s, i) == Ok::<(ExprView, int), int>((e, end)),
        (end == s.len() || s[end] == ')') ==> parse_expr(s, i) == Ok::<(ExprView, int), int>((e, end)),
{
}

proof fn lemma_spelled_node(s: Seq<char>, i: int, id: Seq<char>)
    requires
        spellable(ExprView::Node(id)),
        0 <= i,
        i + id.len() <= s.len(),
        s.subrange(i, i + id.len()) == id,
        stops(s, i + id.len()),
    ensures
        parse_operand(s, i) == Ok::<(ExprView, int), int>((ExprView::Node(id), i + id.len())),
        s.subrange(i, id_end(s, i + 1)) != param_word(),
        is_lower(s[i]),
{
    assert(s[i] == id[0]);
    lemma_id_local(s, i, id, 1);
}

proof fn lemma_spelled_complete(s: Seq<char>, i: int, id: Seq<char>)
    requires
        spellable(ExprView::NodeComplete(id)),
        0 <= i,
        i + spell(ExprView::NodeComplete(id)).len() <= s.len(),
        s.subrange(i, i + spell(ExprView::NodeComplete(id)).len()) == spell(
            ExprView::NodeComplete(id),
        ),
        stops(s, i + spell(ExprView::NodeComplete(id)).len()),
    ensures
        parse_operand(s, i) == Ok::<(ExprView, int), int>(
            (ExprView::NodeComplete(id), i + spell(ExprView::NodeComplete(id)).len()),
        ),
        s.subrange(i, id_end(s, i + 1)) != param_word(),
        is_lower(s[i]),
{
    let w = spell(ExprView::NodeComplete(id));
    let c = complete_word();
    lemma_complete_is_id();
    assert(s.subrange(i, i + 8) =~= c) by {
        assert forall|q: int| 0 <= q < 8 implies s.subrange(i, i + 8)[q] == c[q] by {
            assert(s[i + q] == w[q]);
        }
    }
    assert(s[i] == 'c');
    assert(s[i + 8] == w[8]);
    lemma_id_local(s, i, c, 1);
    let a = i + 9;
    let n = id.len() as int;
    assert(s.subrange(a, a + n) =~= id) by {
        assert forall|q: int| 0 <= q < n implies s.subrange(a, a + n)[q] == id[q] by {
            assert(s[a + q] == w[9 + q]);
        }
    }
    assert(s[a] == id[0]);
    assert(s[a + n] == w[9 + n]);
    lemma_id_local(s, a, id, 1);
    assert(c.len() != param_word().len());
}

proof fn lemma_inner(s: Seq<char>, i: int, w: Seq<char>, off: int, part: Seq<char>)
    requires
        0 <= i,
        0 <= off,
        off + part.len() <= w.len(),
        i + w.len() <= s.len(),
        s.subrange(i, i + w.len()) == w,
        w.subrange(off, off + part.len()) == part,
    ensures
        s.subrange(i + off, i + off + part.len()) == part,
{
    assert(s.subrange(i + off, i + off + part.len()) =~= part) by {
        assert forall|q: int| 0 <= q < part.len() implies s.subrange(
            i + off,
            i + off + part.len(),
        )[q] == part[q] by {
            assert(s[i + off + q] == w[off + q]);
            assert(w[off + q] == w.subrange(off, off + part.len())[q]);
        }
    }
}

/// Where the two operands of a spelled `&&` or `||` stand, and what follows them.
proof fn lemma_pair_layout(s: Seq<char>, i: int, e: ExprView, x: ExprView, y: ExprView, op: char)
    requires
        e == ExprView::And(Box::new(x), Box::new(y)) && op == '&' || e == ExprView::Or(
            Box::new(x),
            Box::new(y),
        ) && op == '|',
        0 <= i,
        i + spell(e).len() <= s.len(),
        s.subrange(i, i + spell(e).len()) == spell(e),
    ensures
        ({
            let lx = spell(x).len() as int;
            let ly = spell(y).len() as int;
            &&& spell(e).len() == 4 + lx + ly
            &&& s[i] == '('
            &&& s.subrange(i + 1, i + 1 + lx) == spell(x)
            &&& s.subrange(i + 3 + lx, i + 3 + lx + ly) == spell(y)
            &&& s[i + 1 + lx] == op
            &&& s[i + 2 + lx] == op
            &&& s[i + 3 + lx + ly] == ')'
        }),
{
    let w = spell(e);
    let lx = spell(x).len() as int;
    let ly = spell(y).len() as int;
    assert(w.subrange(1, 1 + lx) =~= spell(x));
    assert(w.subrange(3 + lx, 3 + lx + ly) =~= spell(y));
    lemma_inner(s, i, w, 1, spell(x));
    lemma_inner(s, i, w, 3 + lx, spell(y));
    assert(s[i] == w[0]);
    assert(s[i + 1 + lx] == w[1 + lx]);
    assert(s[i + 2 + lx] == w[2 + lx]);
    assert(s[i + 3 + lx + ly] == w[3 + lx + ly]);
}

proof fn lemma_spelled_and(s: Seq<char>, i: int, x: ExprView, y: ExprView, k: int, q: int)
    requires
        0 <= i,
        k == i + 1 + spell(x).len(),
        q == k + 2 + spell(y).len(),
        q < s.len(),
        s[i] == '(',
        s[k] == '&',
        s[k + 1] == '&',
        s[q] == ')',
        !is_ws(s[i + 1]),
        is_lower(s[i + 1]) ==> s.subrange(i + 1, id_end(s, i + 2)) != param_word(),
        parse_operand(s, i + 1) == Ok::<(ExprView, int), int>((x, k)),
        parse_and(s, k + 2) == Ok::<(ExprView, int), int>((y, q)),
    ensures
        parse_operand(s, i) == Ok::<(ExprView, int), int>(
            (ExprView::And(Box::new(x), Box::new(y)), q + 1),
        ),
{
    let e = ExprView::And(Box::new(x), Box::new(y));
    assert(skip_ws(s, k) == k);
    assert(parse_and(s, i + 1) == Ok::<(ExprView, int), int>((e, q)));
    assert(skip_ws(s, q) == q);
    assert(parse_or(s, i + 1) == Ok::<(ExprView, int), int>((e, q)));
    assert(skip_ws(s, i + 1) == i + 1);
    assert(parse_expr(s, i + 1) == Ok::<(ExprView, int), int>((e, q)));
    assert(skip_ws(s, i) == i);
}

proof fn lemma_spelled_or(s: Seq<char>, i: int, x: ExprView, y: ExprView, k: int, q: int)
    requires
        0 <= i,
        k == i + 1 + spell(x).len(),
        q == k + 2 + spell(y).len(),
        q < s.len(),
        s[i] == '(',
        s[k] == '|',
        s[k + 1] == '|',
        s[q] == ')',
        !is_ws(s[i + 1]),
        is_lower(s[i + 1]) ==> s.subrange(i + 1, id_end(s, i + 2)) != param_word(),
        parse_and(s, i + 1) == Ok::<(ExprView, int), int>((x, k)),
        parse_or(s, k + 2) == Ok::<(ExprView, int), int>((y, q)),
    ensures
        parse_operand(s, i) == Ok::<(ExprView, int), int>(
            (ExprView::Or(Box::new(x), Box::new(y)), q + 1),
        ),
{
    let e = ExprView::Or(Box::new(x), Box::new(y));
    assert(skip_ws(s, k) == k);
    assert(parse_or(s, i + 1) == Ok::<(ExprView, int), int>((e, q)));
    assert(skip_ws(s, i + 1) == i + 1);
    assert(parse_expr(s, i + 1) == Ok::<(ExprView, int), int>((e, q)));
    assert(skip_ws(s, q) == q);
    assert(skip_ws(s, i) == i);
}

/// A spelled expression followed by a stop is read back as itself, at the
/// operand level, and at the `&&` and `||` levels where the stop allows.
proof fn lemma_spelled(s: Seq<char>, i: int, e: ExprView)
    requires
        spellable(e),
        0 <= i,
        i + spell(e).len() <= s.len(),
        s.subrange(i, i + spell(e).len()) == spell(e),
        stops(s, i + spell(e).len()),
    ensures
        parse_operand(s, i) == Ok::<(ExprView, int), int>((e, i + spell(e).len())),
        (i + spell(e).len() == s.len() || s[i + spell(e).len()] != '&') ==> parse_and(s, i) == Ok::<
            (ExprView, int),
            int,
        >((e, i + spell(e).len())),
        (i + spell(e).len() == s.len() || s[i + spell(e).len()] == ')') ==> parse_or(s, i) == Ok::<
            (ExprView, int),
            int,
        >((e, i + spell(e).len())),
        (i + spell(e).len() == s.len() || s[i + spell(e).len()] == ')') ==> parse_expr(s, i)
            == Ok::<(ExprView, int), int>((e, i + spell(e).len())),
        is_lower(s[i]) ==> s.subrange(i, id_end(s, i + 1)) != param_word(),
    decreases e,
{
    let w = spell(e);
    let end = i + w.len();
    lemma_spell_start(e);
    assert(s[i] == w[0]);
    match e {
        ExprView::Node(id) => {
            lemma_spelled_node(s, i, id);
        },
        ExprView::NodeComplete(id) => {
            lemma_spelled_complete(s, i, id);
        },
        ExprView::Not(x) => {
            assert(w.subrange(1, 1 + spell(*x).len() as int) =~= spell(*x));
            lemma_inner(s, i, w, 1, spell(*x));
            assert(s[i + 1 + spell(*x).len()] == s[end]);
            lemma_spelled(s, i + 1, *x);
            assert(s[i] == '!');
        },
        ExprView::And(x, y) => {
            let lx = spell(*x).len() as int;
            lemma_pair_layout(s, i, e, *x, *y, '&');
            lemma_spelled(s, i + 1, *x);
            lemma_spelled(s, i + 3 + lx, *y);
            lemma_spell_start(*x);
            assert(s[i + 1] == spell(*x)[0]);
            lemma_spelled_and(s, i, *x, *y, i + 1 + lx, end - 1);
        },
        ExprView::Or(x, y) => {
            let lx = spell(*x).len() as int;
            lemma_pair_layout(s, i, e, *x, *y, '|');
            lemma_spelled(s, i + 1, *x);
            lemma_spelled(s, i + 3 + lx, *y);
            lemma_spell_start(*x);
            assert(s[i + 1] == spell(*x)[0]);
            lemma_spelled_or(s, i, *x, *y, i + 1 + lx, end - 1);
        },
        _ => {},
    }
    lemma_levels(s, i, e, end);
}

/// Every expression the grammar can spell reads back as itself.
pub proof fn lemma_spell_parses(e: ExprView)
    requires
        spellable(e),
    ensures
        parse_text(spell(e)) == Ok::<ExprView, int>(e),
        parsed(spell(e)) == Ok::<ExprView, ErrorView>(e),
{
    let s = spell(e);
    assert(s.subrange(0, s.len() as int) =~= s);
    lemma_spelled(s, 0, e);
}

/// Executable result `r` of a parsing step matches its specified outcome `t`.
pub open spec fn step_matches(r: Result<(Expression, usize), usize>, t: Result<(ExprView, int), int>) -> bool {
    match r {
        Ok((e, k)) => t == Ok::<(ExprView, int), int>((e@, k as int)),
        Err(p) => t == Err::<(ExprView, int), int>(p as int),
    }
}

fn is_ws_char(c: char) -> (r: bool)
    ensures
        r == is_ws(c),
{
    c == ' ' || c == '\t' || c == '\r' || c == '\n'
}

fn is_lower_char(c: char) -> (r: bool)
    ensures
        r == is_lower(c),
{
    'a' <= c && c <= 'z'
}

fn is_lower_alphanum_char(c: char) -> (r: bool)
    ensures
        r == is_lower_alphanum(c),
{
    ('a' <= c && c <= 'z') || ('0' <= c && c <= '9')
}

fn skip_whitespace(s: &Vec<char>, i: usize) -> (r: usize)
    requires
        i <= s.len(),
    ensures
        r as int == skip_ws(s@, i as int),
        i <= r <= s.len(),
{
    let mut j = i;
    while j < s.len() && is_ws_char(s[j])
        invariant
            i <= j <= s.len(),
            skip_ws(s@, i as int) == skip_ws(s@, j as int),
        decreases s.len() - j,
    {
        j = j + 1;
    }
    j
}

fn scan_id(s: &Vec<char>, j: usize) -> (r: usize)
    requires
        j <= s.len(),
    ensures
        r as int == id_end(s@, j as int),
        j <= r <= s.len(),
{
    let mut k = j;
    loop
        invariant
            j <= k <= s.len(),
            id_end(s@, j as int) == id_end(s@, k as int),
        decreases s.len() - k,
    {
        if k < s.len() && is_lower_alphanum_char(s[k]) {
            k = k + 1;
        } else if s.len() - k > 1 && s[k] == '-' && is_lower_alphanum_char(s[k + 1]) {
            k = k + 2;
        } else {
            return k;
        }
    }
}

fn is_word(s: &Vec<char>, j: usize, k: usize, complete: bool) -> (r: bool)
    requires
        j <= k <= s.len(),
    ensures
        r == (s@.subrange(j as int, k as int) == if complete {
            complete_word()
        } else {
            param_word()
        }),
{
    let ghost w = s@.subrange(j as int, k as int);
    if complete {
        if k - j == 8 && s[j] == 'c' && s[j + 1] == 'o' && s[j + 2] == 'm' && s[j + 3] == 'p'
            && s[j + 4] == 'l' && s[j + 5] == 'e' && s[j + 6] == 't' && s[j + 7] == 'e' {
            assert(w =~= complete_word());
            true
        } else {
            assert(w.len() == 8 ==> w[0] == s@[j as int] && w[1] == s@[j + 1] && w[2] == s@[j + 2]
                && w[3] == s@[j + 3] && w[4] == s@[j + 4] && w[5] == s@[j + 5] && w[6] == s@[j + 6]
                && w[7] == s@[j + 7]);
            false
        }
    } else {
        if k - j == 5 && s[j] == 'p' && s[j + 1] == 'a' && s[j + 2] == 'r' && s[j + 3] == 'a'
            && s[j + 4] == 'm' {
            assert(w =~= param_word());
            true
        } else {
            assert(w.len() == 5 ==> w[0] == s@[j as int] && w[1] == s@[j + 1] && w[2] == s@[j + 2]
                && w[3] == s@[j + 3] && w[4] == s@[j + 4]);
            false
        }
    }
}

fn id_text(text: &str, j: usize, k: usize) -> (r: String)
    requires
        j <= k <= text@.len(),
    ensures
        r@ == text@.subrange(j as int, k as int),
{
    String::from_str(text.substring_char(j, k))
}

fn operand(text: &str, s: &Vec<char>, i: usize) -> (r: Result<(Expression, usize), usize>)
    requires
        s@ == text@,
        i <= s.len(),
    ensures
        step_matches(r, parse_operand(s@, i as int)),
        match r {
            Ok((_, k)) => i < k <= s.len(),
            Err(p) => p <= s.len(),
        },
    decreases s.len() - i, 0nat,
{
    let j = skip_whitespace(s, i);
    if j >= s.len() {
        return Err(j);
    }
    if s[j] == '(' {
        match expr(text, s, j + 1) {
            Ok((e, k)) => {
                let m = skip_whitespace(s, k);
                if m < s.len() && s[m] == ')' {
                    Ok((e, m + 1))
                } else {
                    Err(m)
                }
            },
            Err(p) => Err(p),
        }
    } else if s[j] == '!' {
        match operand(text, s, j + 1) {
            Ok((e, k)) => Ok((Expression::Not(Box::new(e)), k)),
            Err(p) => Err(p),
        }
    } else if is_lower_char(s[j]) {
        let k = scan_id(s, j + 1);
        let m = skip_whitespace(s, k);
        if is_word(s, j, k, true) && m < s.len() && s[m] == '(' {
            let a = skip_whitespace(s, m + 1);
            if a < s.len() && is_lower_char(s[a]) {
                let b = scan_id(s, a + 1);
                let c = skip_whitespace(s, b);
                if c < s.len() && s[c] == ')' {
                    Ok((Expression::NodeComplete(id_text(text, a, b)), c + 1))
                } else {
                    Err(c)
                }
            } else {
                Err(a)
            }
        } else {
            Ok((Expression::Node(id_text(text, j, k)), k))
        }
    } else {
        Err(j)
    }
}

fn and_expr(text: &str, s: &Vec<char>, i: usize) -> (r: Result<(Expression, usize), usize>)
    requires
        s@ == text@,
        i <= s.len(),
    ensures
        step_matches(r, parse_and(s@, i as int)),
        match r {
            Ok((_, k)) => i < k <= s.len(),
            Err(p) => p <= s.len(),
        },
    decreases s.len() - i, 1nat,
{
    match operand(text, s, i) {
        Ok((a, k)) => {
            let m = skip_whitespace(s, k);
            if s.len() - m > 1 && s[m] == '&' && s[m + 1] == '&' {
                match and_expr(text, s, m + 2) {
                    Ok((b, q)) => Ok((Expression::And(Box::new(a), Box::new(b)), q)),
                    Err(p) => Err(p),
                }
            } else {
                Ok((a, k))
            }
        },
        Err(p) => Err(p),
    }
}

fn or_expr(text: &str, s: &Vec<char>, i: usize) -> (r: Result<(Expression, usize), usize>)
    requires
        s@ == text@,
        i <= s.len(),
    ensures
        step_matches(r, parse_or(s@, i as int)),
        match r {
            Ok((_, k)) => i < k <= s.len(),
            Err(p) => p <= s.len(),
        },
    decreases s.len() - i, 2nat,
{
    match and_expr(text, s, i) {
        Ok((a, k)) => {
            let m = skip_whitespace(s, k);
            if s.len() - m > 1 && s[m] == '|' && s[m + 1] == '|' {
                match or_expr(text, s, m + 2) {
                    Ok((b, q)) => Ok((Expression::Or(Box::new(a), Box::new(b)), q)),
                    Err(p) => Err(p),
                }
            } else {
                Ok((a, k))
            }
        },
        Err(p) => Err(p),
    }
}

fn expr(text: &str, s: &Vec<char>, i: usize) -> (r: Result<(Expression, usize), usize>)
    requires
        s@ == text@,
        i <= s.len(),
    ensures
        step_matches(r, parse_expr(s@, i as int)),
        match r {
            Ok((_, k)) => i < k <= s.len(),
            Err(p) => p <= s.len(),
        },
    decreases s.len() - i, 3nat,
{
    let j = skip_whitespace(s, i);
    if j < s.len() && is_lower_char(s[j]) {
        let k = scan_id(s, j + 1);
        if is_word(s, j, k, false) {
            return Ok((Expression::Manual, k));
        }
    }
    or_expr(text, s, i)
}

fn chars_of(text: &str) -> (r: Vec<char>)
    ensures
        r@ == text@,
{
    let n = text.unicode_len();
    let mut r: Vec<char> = Vec::new();
    let mut i: usize = 0;
    while i < n
        invariant
            n == text@.len(),
            i <= n,
            r@ == text@.subrange(0, i as int),
        decreases n - i,
    {
        r.push(text.get_char(i));
        i = i + 1;
    }
    assert(r@ =~= text@);
    r
}

impl Expression {
    /// Reads a condition; on failure the error holds the text left unconsumed.
    pub fn parse(input: &str) -> (r: Result<Expression, EngineError>)
        ensures
            match r {
                Ok(e) => parsed(input@) == Ok::<ExprView, ErrorView>(e@),
                Err(x) => parsed(input@) == Err::<ExprView, ErrorView>(x@),
            },
    {
        let s = chars_of(input);
        let n = s.len();
        match expr(input, &s, 0) {
            Ok((e, k)) => {
                let m = skip_whitespace(&s, k);
                if m == n {
                    Ok(e)
                } else {
                    Err(EngineError::Parse { rest: id_text(input, m, n) })
                }
            },
            Err(p) => Err(EngineError::Parse { rest: id_text(input, p, n) }),
        }
    }
}

} // verus!
