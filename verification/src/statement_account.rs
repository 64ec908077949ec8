//! An account of every character of a text: which of them end a statement, which
//! of them a statement keeps, and on which lines it stands.
//!
//! The account goes through the text from the front, character by character.
use vstd::prelude::*;

use crate::statement::{
    block_end, comment_end, gap_end, gap_text, is_blank, lemma_block_end, lemma_comment_end,
    lemma_gap_end, lemma_line_end, lemma_literal_end, lemma_piece_end, lemma_rest_of_statement,
    line_at, line_end, literal_end, pair_at, piece_end, piece_text, quote_len, rest_of_statement,
    statements_from, statements_of, Statement,
};
use crate::statement_laws::{
    closes_block, law_statements_of_both, moved_down, opens_block, rest_opens_block, statements_end,
};

verus! {

// ---------------------------------------------------------------------------
// How a character stands
// ---------------------------------------------------------------------------

/// What the text is in the middle of, at a position.
pub enum Standing {
    Plain,
    LineComment,
    /// A comment whose `/*` stands at `from`.
    BlockComment { from: int },
    /// A literal whose opening quote stands at `from`.
    Quoted { from: int },
}

/// The character at `p` is `a` and the one behind it is `b`.
pub open spec fn two_at(t: Seq<char>, p: int, a: char, b: char) -> bool {
    0 <= p && p + 1 < t.len() && t[p] == a && t[p + 1] == b
}

/// A `*/` stands at `p` or behind it.
pub open spec fn closed_behind(t: Seq<char>, p: int) -> bool {
    exists|q: int| p <= q && #[trigger] two_at(t, q, '*', '/')
}

/// What the character at `p` opens in plain text.
pub open spec fn opened_at(t: Seq<char>, p: int) -> Standing {
    if two_at(t, p, '-', '-') {
        Standing::LineComment
    } else if two_at(t, p, '/', '*') && closed_behind(t, p + 2) {
        Standing::BlockComment { from: p }
    } else if t[p] == '\'' || t[p] == '"' || two_at(t, p, '$', '$') {
        Standing::Quoted { from: p }
    } else {
        Standing::Plain
    }
}

/// The character at `p` ends the literal whose opening quote stands at `from`.
pub open spec fn closes_quote(t: Seq<char>, from: int, p: int) -> bool {
    if t[from] == '$' {
        from + 3 <= p && t[p - 1] == '$' && t[p] == '$'
    } else {
        t[p] == t[from]
    }
}

/// What the text is in the middle of in front of position `p`.
pub open spec fn standing(t: Seq<char>, p: int) -> Standing
    decreases p,
{
    if p <= 0 {
        Standing::Plain
    } else {
        let q = p - 1;
        match standing(t, q) {
            Standing::Plain => opened_at(t, q),
            Standing::LineComment => if t[q] == '\n' {
                Standing::Plain
            } else {
                Standing::LineComment
            },
            Standing::BlockComment { from } => if from + 3 <= q && t[q - 1] == '*' && t[q] == '/' {
                Standing::Plain
            } else {
                Standing::BlockComment { from }
            },
            Standing::Quoted { from } => if t[q] == ';' || closes_quote(t, from, q) {
                Standing::Plain
            } else {
                Standing::Quoted { from }
            },
        }
    }
}

pub open spec fn is_comment(s: Standing) -> bool {
    s is LineComment || s is BlockComment
}

/// The character at `p` belongs to a comment.
pub open spec fn in_comment(t: Seq<char>, p: int) -> bool {
    is_comment(standing(t, p)) || is_comment(standing(t, p + 1))
}

/// A space, a line feed or a carriage return.
pub open spec fn is_space(c: char) -> bool {
    c == ' ' || c == '\n' || c == '\r'
}

/// The character at `p` belongs to a comment or is a space outside of a literal.
pub open spec fn in_gap(t: Seq<char>, p: int) -> bool {
    in_comment(t, p) || (is_space(t[p]) && standing(t, p) is Plain)
}

/// The character at `p` is a `;` that ends a statement: one outside of a comment.
pub open spec fn ends_at(t: Seq<char>, p: int) -> bool {
    t[p] == ';' && !in_comment(t, p)
}

// ---------------------------------------------------------------------------
// What a statement is made of
// ---------------------------------------------------------------------------

/// How many of the first `n` characters end a statement.
pub open spec fn endings(t: Seq<char>, n: int) -> nat
    decreases n,
{
    if n <= 0 {
        0
    } else if ends_at(t, n - 1) {
        endings(t, n - 1) + 1
    } else {
        endings(t, n - 1)
    }
}

/// The position behind the last `;` in front of `p` that ends a statement.
pub open spec fn behind_ending(t: Seq<char>, p: int) -> int
    decreases p,
{
    if p <= 0 {
        0
    } else if ends_at(t, p - 1) {
        p
    } else {
        behind_ending(t, p - 1)
    }
}

/// The first position from `i` up to `p` that is not in a gap.
pub open spec fn behind_gap(t: Seq<char>, i: int, p: int) -> int
    decreases p - i,
{
    if i < p && in_gap(t, i) {
        behind_gap(t, i + 1, p)
    } else {
        i
    }
}

/// Where the gap begins that ends in front of `p`; `p` itself where none does.
pub open spec fn gap_begin(t: Seq<char>, p: int) -> int
    decreases p,
{
    if p > 0 && in_gap(t, p - 1) {
        gap_begin(t, p - 1)
    } else {
        p
    }
}

/// How many line feeds the first `p` characters hold.
pub open spec fn line_feeds(t: Seq<char>, p: int) -> nat {
    t.take(p).to_multiset().count('\n')
}

/// What joins the characters in front of the gap from `i` to `j` and behind it.
pub open spec fn joint(t: Seq<char>, i: int, j: int) -> Seq<char> {
    if exists|k: int| i <= k < j && #[trigger] in_comment(t, k) {
        seq![' ']
    } else if forall|k: int| i <= k < j ==> #[trigger] t[k] != '\n' {
        t.subrange(i, j)
    } else if t[i - 1] == '(' || t[j] == ')' {
        seq![]
    } else {
        seq![' ']
    }
}

/// What is kept of the text from `s` up to `p`, where something that is kept
/// stands at `s`.
pub open spec fn kept(t: Seq<char>, s: int, p: int) -> Seq<char>
    decreases p - s,
{
    if p <= s {
        seq![]
    } else if in_gap(t, p - 1) {
        kept(t, s, p - 1)
    } else if p - 1 == s {
        seq![t[s]]
    } else {
        kept(t, s, p - 1) + joint(t, gap_begin(t, p - 1), p - 1) + seq![t[p - 1]]
    }
}

/// The characters from `s` up to `p` that are neither spaces nor in a comment.
pub open spec fn solid_outside(t: Seq<char>, s: int, p: int) -> Seq<char>
    decreases p - s,
{
    if p <= s {
        seq![]
    } else if in_comment(t, p - 1) || is_space(t[p - 1]) {
        solid_outside(t, s, p - 1)
    } else {
        solid_outside(t, s, p - 1).push(t[p - 1])
    }
}

/// The characters of `s` that are no spaces.
pub open spec fn solid(s: Seq<char>) -> Seq<char> {
    s.filter(|c: char| !is_space(c))
}

// ---------------------------------------------------------------------------
// Comments, gaps and literals
// ---------------------------------------------------------------------------

proof fn lemma_closed_behind(t: Seq<char>, p: int)
    requires
        0 <= p,
    ensures
        closed_behind(t, p) <==> block_end(t, p) is Some,
    decreases t.len() - p,
{
    if p < t.len() {
        lemma_closed_behind(t, p + 1);
        if pair_at(t, p, '*', '/') {
            assert(two_at(t, p, '*', '/'));
        } else if closed_behind(t, p) {
            let q = choose|q: int| p <= q && #[trigger] two_at(t, q, '*', '/');
            assert(p + 1 <= q);
        }
    }
}

proof fn lemma_in_line_comment(t: Seq<char>, m: int)
    requires
        0 <= m <= t.len(),
        standing(t, m) is LineComment,
    ensures
        forall|p: int| m <= p < line_end(t, m) ==> #[trigger] standing(t, p) is LineComment,
        line_end(t, m) < t.len() ==> standing(t, line_end(t, m)) is Plain,
        line_end(t, m) == t.len() ==> !(standing(t, line_end(t, m)) is Quoted),
    decreases t.len() - m,
{
    if m < t.len() {
        if t[m] == '\n' {
            assert(standing(t, m + 1) is Plain);
        } else {
            assert(standing(t, m + 1) is LineComment);
            lemma_line_end(t, m + 1);
            lemma_in_line_comment(t, m + 1);
        }
    }
}

proof fn lemma_in_block_comment(t: Seq<char>, i: int, m: int)
    requires
        0 <= i,
        i + 2 <= m <= t.len(),
        standing(t, m) == (Standing::BlockComment { from: i }),
        m > i + 2 ==> !pair_at(t, m - 1, '*', '/'),
        block_end(t, m) is Some,
    ensures
        forall|p: int|
            m <= p < block_end(t, m)->0 ==> #[trigger] standing(t, p) is BlockComment,
        standing(t, block_end(t, m)->0) is Plain,
    decreases t.len() - m,
{
    let s = Standing::BlockComment { from: i };
    lemma_block_end(t, m);
    if pair_at(t, m, '*', '/') {
        assert(standing(t, m + 1) == s);
        assert(standing(t, m + 2) is Plain);
    } else {
        lemma_block_end(t, m + 1);
        assert(standing(t, m + 1) == s);
        lemma_in_block_comment(t, i, m + 1);
    }
}

proof fn lemma_in_comment(t: Seq<char>, i: int)
    requires
        0 <= i < t.len(),
        standing(t, i) is Plain,
    ensures
        is_comment(opened_at(t, i)) <==> comment_end(t, i) is Some,
        comment_end(t, i) matches Some(j) ==> {
            &&& i < j <= t.len()
            &&& forall|p: int| i <= p < j ==> #[trigger] in_comment(t, p)
            &&& j < t.len() ==> standing(t, j) is Plain
            &&& !is_space(t[i])
        },
{
    lemma_comment_end(t, i);
    lemma_closed_behind(t, i + 2);
    assert(standing(t, i + 1) == opened_at(t, i));
    if let Some(j) = comment_end(t, i) {
        if pair_at(t, i, '-', '-') {
            assert(standing(t, i + 2) is LineComment);
            lemma_in_line_comment(t, i + 2);
        } else {
            assert(standing(t, i + 2) == (Standing::BlockComment { from: i }));
            lemma_in_block_comment(t, i, i + 2);
        }
        assert forall|p: int| i <= p < j implies #[trigger] in_comment(t, p) by {
            if p > i + 1 {
                assert(is_comment(standing(t, p)));
            }
        }
    }
}

proof fn lemma_in_gap(t: Seq<char>, i: int)
    requires
        0 <= i <= t.len(),
        standing(t, i) is Plain,
    ensures
        i <= gap_end(t, i) <= t.len(),
        forall|p: int| i <= p < gap_end(t, i) ==> #[trigger] in_gap(t, p),
        gap_end(t, i) < t.len() ==> {
            &&& standing(t, gap_end(t, i)) is Plain
            &&& !in_gap(t, gap_end(t, i))
        },
        (exists|p: int| i <= p < gap_end(t, i) && #[trigger] in_comment(t, p)) <==> (exists|p: int|
            i <= p < gap_end(t, i) && !is_blank(#[trigger] t[p])),
    decreases t.len() - i,
{
    let g = gap_end(t, i);
    lemma_gap_end(t, i);
    if i < t.len() {
        lemma_in_comment(t, i);
        assert(standing(t, i + 1) == opened_at(t, i));
        if is_blank(t[i]) {
            assert(standing(t, i + 1) is Plain);
            lemma_in_gap(t, i + 1);
            assert(in_gap(t, i));
            assert(!in_comment(t, i));
            if exists|p: int| i <= p < g && #[trigger] in_comment(t, p) {
                let p = choose|p: int| i <= p < g && #[trigger] in_comment(t, p);
                assert(i + 1 <= p < g && in_comment(t, p));
                let q = choose|q: int| i + 1 <= q < g && !is_blank(#[trigger] t[q]);
                assert(i <= q < g && !is_blank(t[q]));
            }
            if exists|p: int| i <= p < g && !is_blank(#[trigger] t[p]) {
                let p = choose|p: int| i <= p < g && !is_blank(#[trigger] t[p]);
                assert(i + 1 <= p < g && !is_blank(t[p]));
                let q = choose|q: int| i + 1 <= q < g && #[trigger] in_comment(t, q);
                assert(i <= q < g && in_comment(t, q));
            }
        } else if let Some(j) = comment_end(t, i) {
            lemma_gap_end(t, j);
            if j < t.len() {
                lemma_in_gap(t, j);
            }
            assert forall|p: int| i <= p < g implies #[trigger] in_gap(t, p) by {
                if p < j {
                    assert(in_comment(t, p));
                }
            }
            assert(i <= i < g && in_comment(t, i));
            assert(i <= i < g && !is_blank(t[i]));
        }
    }
}

proof fn lemma_in_literal(t: Seq<char>, i: int, m: int)
    requires
        0 <= i < m <= t.len(),
        quote_len(t, i) > 0,
        i + quote_len(t, i) <= m,
        standing(t, m) == (Standing::Quoted { from: i }),
        quote_len(t, i) == 2 && m > i + 2 ==> !pair_at(t, m - 1, '$', '$'),
    ensures
        forall|p: int|
            m <= p < literal_end(t, i, m) ==> (#[trigger] standing(t, p)) is Quoted && t[p] != ';',
        literal_end(t, i, m) < t.len() ==> {
            ||| standing(t, literal_end(t, i, m)) is Plain
            ||| standing(t, literal_end(t, i, m)) is Quoted && t[literal_end(t, i, m)] == ';'
        },
        literal_end(t, i, m) == t.len() ==> !is_comment(standing(t, literal_end(t, i, m))),
    decreases t.len() - m,
{
    let s = Standing::Quoted { from: i };
    lemma_literal_end(t, i, m);
    if m < t.len() && t[m] != ';' {
        if quote_len(t, m) == quote_len(t, i) && t[m] == t[i] {
            if quote_len(t, i) == 2 {
                assert(standing(t, m + 1) == s);
                assert(standing(t, m + 2) is Plain);
            } else {
                assert(standing(t, m + 1) is Plain);
            }
        } else {
            assert(standing(t, m + 1) == s);
            lemma_literal_end(t, i, m + 1);
            lemma_in_literal(t, i, m + 1);
        }
    }
}

// ---------------------------------------------------------------------------
// A statement
// ---------------------------------------------------------------------------

proof fn lemma_gap_adds_nothing(t: Seq<char>, s: int, i: int, j: int)
    requires
        0 <= s <= i <= j,
        forall|p: int| i <= p < j ==> #[trigger] in_gap(t, p),
    ensures
        kept(t, s, j) == kept(t, s, i),
        !(i > 0 && in_gap(t, i - 1)) ==> gap_begin(t, j) == i,
    decreases j - i,
{
    if i < j {
        assert(in_gap(t, j - 1));
        lemma_gap_adds_nothing(t, s, i, j - 1);
    }
}

proof fn lemma_run_is_added(t: Seq<char>, s: int, i: int, j: int)
    requires
        0 <= s < i <= j <= t.len(),
        forall|p: int| i - 1 <= p < j ==> !#[trigger] in_gap(t, p),
    ensures
        kept(t, s, j) == kept(t, s, i) + t.subrange(i, j),
    decreases j - i,
{
    if i < j {
        lemma_run_is_added(t, s, i, j - 1);
        assert(!in_gap(t, j - 1) && !in_gap(t, j - 2));
        assert(gap_begin(t, j - 1) == j - 1);
        assert(joint(t, j - 1, j - 1) == Seq::<char>::empty());
        assert(kept(t, s, j) =~= kept(t, s, i) + t.subrange(i, j));
    } else {
        assert(t.subrange(i, j) =~= Seq::<char>::empty());
    }
}

/// What is kept up to `i`, and what joins it to the character at `i`.
spec fn joined(t: Seq<char>, s: int, i: int) -> Seq<char> {
    kept(t, s, i) + if s < i && in_gap(t, i - 1) && t[i] != ';' {
        joint(t, gap_begin(t, i), i)
    } else {
        seq![]
    }
}

proof fn lemma_gap_piece(t: Seq<char>, s: int, i: int)
    requires
        0 <= s < i < t.len(),
        standing(t, i) is Plain,
        !in_gap(t, i - 1),
        i < gap_end(t, i) < t.len(),
    ensures
        joined(t, s, gap_end(t, i)) == joined(t, s, i) + gap_text(t, i, gap_end(t, i)),
{
    let j = gap_end(t, i);
    lemma_in_gap(t, i);
    lemma_gap_adds_nothing(t, s, i, j);
    assert(in_gap(t, j - 1));
    if t[j] != ';' {
        assert(gap_text(t, i, j) == joint(t, i, j));
        assert(joined(t, s, j) =~= joined(t, s, i) + gap_text(t, i, j));
    } else {
        assert(joined(t, s, j) =~= joined(t, s, i) + gap_text(t, i, j));
    }
}

proof fn lemma_kept_piece(t: Seq<char>, s: int, i: int, j: int)
    requires
        0 <= s <= i < j <= t.len(),
        t[i] != ';',
        forall|p: int| i <= p < j ==> !#[trigger] in_gap(t, p),
    ensures
        joined(t, s, j) == joined(t, s, i) + t.subrange(i, j),
{
    assert(!in_gap(t, i));
    if i > s && !in_gap(t, i - 1) {
        assert(gap_begin(t, i) == i);
        assert(joint(t, i, i) =~= Seq::<char>::empty());
    }
    assert(kept(t, s, i + 1) =~= joined(t, s, i) + seq![t[i]]);
    lemma_run_is_added(t, s, i + 1, j);
    assert(!in_gap(t, j - 1));
    assert(joined(t, s, j) =~= joined(t, s, i) + t.subrange(i, j));
}

proof fn lemma_account_of_piece(t: Seq<char>, s: int, i: int)
    requires
        0 <= s <= i < t.len(),
        t[i] != ';',
        standing(t, i) is Plain,
        in_gap(t, i) ==> s < i && !in_gap(t, i - 1),
    ensures
        i < piece_end(t, i) <= t.len(),
        forall|p: int| i <= p < piece_end(t, i) ==> !#[trigger] ends_at(t, p),
        piece_end(t, i) < t.len() ==> {
            let j = piece_end(t, i);
            &&& standing(t, j) is Plain || (standing(t, j) is Quoted && t[j] == ';')
            &&& in_gap(t, j) ==> !in_gap(t, j - 1)
            &&& joined(t, s, j) == joined(t, s, i) + piece_text(t, i, j)
        },
{
    let j = piece_end(t, i);
    lemma_piece_end(t, i);
    lemma_in_gap(t, i);
    assert(standing(t, i + 1) == opened_at(t, i));
    if gap_end(t, i) > i {
        assert(in_gap(t, i));
        assert forall|p: int| i <= p < j implies !#[trigger] ends_at(t, p) by {
            assert(in_gap(t, p));
        }
        if j < t.len() {
            lemma_gap_piece(t, s, i);
        }
    } else {
        assert(!in_gap(t, i));
        if quote_len(t, i) > 0 {
            let m = i + quote_len(t, i);
            assert(standing(t, i + 1) == (Standing::Quoted { from: i }));
            if quote_len(t, i) == 2 {
                assert(standing(t, i + 2) == (Standing::Quoted { from: i }));
            }
            lemma_in_literal(t, i, m);
            assert forall|p: int| i <= p < j implies !#[trigger] in_gap(t, p) && t[p] != ';' by {
                assert(p > i ==> standing(t, p) is Quoted);
                assert(p + 1 < j ==> standing(t, p + 1) is Quoted);
            }
        } else {
            assert(standing(t, i + 1) is Plain);
        }
        assert forall|p: int| i <= p < j implies !#[trigger] ends_at(t, p) by {
            assert(!in_gap(t, p));
        }
        if j < t.len() {
            lemma_kept_piece(t, s, i, j);
            assert(!in_gap(t, j - 1));
        }
    }
}

proof fn lemma_account_of_rest(t: Seq<char>, s: int, i: int)
    requires
        0 <= s <= i <= t.len(),
        i < t.len() ==> standing(t, i) is Plain || (standing(t, i) is Quoted && t[i] == ';'),
        i < t.len() && in_gap(t, i) ==> s < i && !in_gap(t, i - 1),
    ensures
        match rest_of_statement(t, i) {
            Some((cql, end)) => {
                &&& i <= end < t.len()
                &&& ends_at(t, end)
                &&& standing(t, end + 1) is Plain
                &&& forall|p: int| i <= p < end ==> !#[trigger] ends_at(t, p)
                &&& kept(t, s, end) == joined(t, s, i) + cql
            },
            None => forall|p: int| i <= p < t.len() ==> !#[trigger] ends_at(t, p),
        },
    decreases t.len() - i,
{
    if i < t.len() {
        if t[i] == ';' {
            assert(standing(t, i + 1) is Plain);
            assert(kept(t, s, i) =~= joined(t, s, i) + Seq::<char>::empty());
        } else {
            let j = piece_end(t, i);
            lemma_account_of_piece(t, s, i);
            lemma_account_of_rest(t, s, j);
            if let Some((rest, end)) = rest_of_statement(t, j) {
                assert(j < t.len());
                assert(kept(t, s, end) =~= joined(t, s, i) + (piece_text(t, i, j) + rest));
                assert forall|p: int| i <= p < end implies !#[trigger] ends_at(t, p) by {}
            }
        }
    }
}

// ---------------------------------------------------------------------------
// All statements
// ---------------------------------------------------------------------------

proof fn lemma_line_feeds(t: Seq<char>, p: int)
    requires
        0 <= p <= t.len(),
    ensures
        line_at(t, p) == line_feeds(t, p) + 1,
    decreases p,
{
    broadcast use vstd::seq_lib::group_to_multiset_ensures;

    if p > 0 {
        lemma_line_feeds(t, p - 1);
        assert(t.take(p) =~= t.take(p - 1).push(t[p - 1]));
    } else {
        assert(t.take(p) =~= Seq::<char>::empty());
    }
}

proof fn lemma_no_ending(t: Seq<char>, i: int, j: int)
    requires
        0 <= i <= j,
        forall|p: int| i <= p < j ==> !#[trigger] ends_at(t, p),
    ensures
        endings(t, j) == endings(t, i),
        behind_ending(t, j) == behind_ending(t, i),
    decreases j - i,
{
    if i < j {
        assert(!ends_at(t, j - 1));
        lemma_no_ending(t, i, j - 1);
    }
}

proof fn lemma_endings_grow(t: Seq<char>, i: int, j: int)
    requires
        0 <= i <= j,
    ensures
        endings(t, i) <= endings(t, j),
    decreases j - i,
{
    if i < j {
        lemma_endings_grow(t, i, j - 1);
    }
}

proof fn lemma_behind_gap(t: Seq<char>, i: int, g: int, p: int)
    requires
        0 <= i <= g <= p,
        forall|q: int| i <= q < g ==> #[trigger] in_gap(t, q),
        g < p ==> !in_gap(t, g),
    ensures
        behind_gap(t, i, p) == g,
    decreases g - i,
{
    if i < g {
        assert(in_gap(t, i));
        lemma_behind_gap(t, i + 1, g, p);
    }
}

/// Where the statement begins that the `;` at `p` ends.
pub open spec fn statement_begin(t: Seq<char>, p: int) -> int {
    behind_gap(t, behind_ending(t, p), p)
}

proof fn lemma_account(t: Seq<char>, i: int, p: int)
    requires
        0 <= i <= t.len(),
        i > 0 ==> ends_at(t, i - 1),
        standing(t, i) is Plain,
        i <= p <= t.len(),
    ensures
        statements_from(t, i).len() == endings(t, t.len() as int) - endings(t, i),
        p < t.len() && ends_at(t, p) ==> {
            let b = statement_begin(t, p);
            let k = endings(t, p) - endings(t, i);
            &&& 0 <= k < statements_from(t, i).len()
            &&& statements_from(t, i)[k] == (Statement {
                cql: kept(t, b, p),
                lines: (line_feeds(t, b) + 1, line_feeds(t, p) + 1),
            })
        },
    decreases t.len() - i,
{
    let n = t.len() as int;
    let start = gap_end(t, i);
    lemma_in_gap(t, i);
    lemma_account_of_rest(t, start, start);
    assert forall|q: int| i <= q < start implies !#[trigger] ends_at(t, q) by {
        assert(in_gap(t, q));
    }
    match rest_of_statement(t, start) {
        None => {
            lemma_no_ending(t, i, n);
        },
        Some((cql, end)) => {
            lemma_no_ending(t, i, end);
            assert(endings(t, end + 1) == endings(t, i) + 1);
            lemma_account(t, end + 1, if p > end {
                p
            } else {
                n
            });
            lemma_endings_grow(t, end + 1, n);
            let first = Statement { cql, lines: (line_at(t, start), line_at(t, end)) };
            assert(statements_from(t, i) == seq![first] + statements_from(t, end + 1));
            if p < n && ends_at(t, p) {
                assert(p >= end);
                if p == end {
                    assert(behind_ending(t, p) == i);
                    lemma_behind_gap(t, i, start, p);
                    lemma_line_feeds(t, start);
                    lemma_line_feeds(t, end);
                    assert(kept(t, start, end) =~= cql);
                    assert(statements_from(t, i)[0] == first);
                } else {
                    let k = endings(t, p) - endings(t, end + 1);
                    assert(statements_from(t, i)[k + 1] == statements_from(t, end + 1)[k]);
                }
            }
        },
    }
}

/// No statement is lost and none is made up: each `;` outside of a comment ends
/// one statement, so there are as many statements as such `;`.
pub proof fn law_each_semicolon_ends_one_statement(t: Seq<char>)
    ensures
        statements_of(t).len() == endings(t, t.len() as int),
{
    lemma_account(t, 0, 0);
}

/// The statement that the `;` at `p` ends comes in its turn. It begins at the
/// first character behind the `;` before it that is neither a space nor in a
/// comment. Its text is what is kept from there on, and its lines are that of its
/// first character and that of its `;`.
pub proof fn law_account_of_a_statement(t: Seq<char>, p: int)
    requires
        0 <= p < t.len(),
        ends_at(t, p),
    ensures
        endings(t, p) < statements_of(t).len(),
        statements_of(t)[endings(t, p) as int].cql == kept(t, statement_begin(t, p), p),
        statements_of(t)[endings(t, p) as int].lines.0 == line_feeds(t, statement_begin(t, p)) + 1,
        statements_of(t)[endings(t, p) as int].lines.1 == line_feeds(t, p) + 1,
{
    lemma_account(t, 0, p);
}

proof fn lemma_solid_concat(a: Seq<char>, b: Seq<char>)
    ensures
        solid(a + b) == solid(a) + solid(b),
    decreases b.len(),
{
    reveal(Seq::filter);
    if b.len() > 0 {
        lemma_solid_concat(a, b.drop_last());
        assert((a + b).drop_last() =~= a + b.drop_last());
        assert(solid(a + b) =~= solid(a) + solid(b));
    } else {
        assert(a + b =~= a);
        assert(solid(a + b) =~= solid(a) + solid(b));
    }
}

proof fn lemma_no_solid(s: Seq<char>)
    requires
        forall|k: int| 0 <= k < s.len() ==> is_space(#[trigger] s[k]),
    ensures
        solid(s) == Seq::<char>::empty(),
    decreases s.len(),
{
    reveal(Seq::filter);
    if s.len() > 0 {
        lemma_no_solid(s.drop_last());
    }
}

proof fn lemma_gap_begin(t: Seq<char>, p: int)
    requires
        0 <= p,
    ensures
        0 <= gap_begin(t, p) <= p,
        forall|q: int| gap_begin(t, p) <= q < p ==> #[trigger] in_gap(t, q),
    decreases p,
{
    if p > 0 && in_gap(t, p - 1) {
        lemma_gap_begin(t, p - 1);
    }
}

proof fn lemma_kept_solid(t: Seq<char>, s: int, p: int)
    requires
        0 <= s <= p <= t.len(),
    ensures
        solid(kept(t, s, p)) == solid_outside(t, s, p),
    decreases p - s,
{
    reveal(Seq::filter);
    if s < p {
        let c = t[p - 1];
        lemma_kept_solid(t, s, p - 1);
        if !in_gap(t, p - 1) {
            assert(solid(seq![c]) =~= if is_space(c) {
                seq![]
            } else {
                seq![c]
            }) by {
                assert(seq![c].drop_last() =~= Seq::<char>::empty());
                assert(seq![c].last() == c);
                assert(solid(seq![c].drop_last()) =~= Seq::<char>::empty());
            }
            if p - 1 > s {
                let a = gap_begin(t, p - 1);
                let j = joint(t, a, p - 1);
                lemma_gap_begin(t, p - 1);
                assert forall|k: int| 0 <= k < j.len() implies is_space(#[trigger] j[k]) by {
                    if !(exists|q: int| a <= q < p - 1 && #[trigger] in_comment(t, q)) && k < p - 1
                        - a {
                        assert(in_gap(t, a + k));
                        assert(!in_comment(t, a + k));
                    }
                }
                lemma_no_solid(j);
                lemma_solid_concat(kept(t, s, p - 1), j);
                lemma_solid_concat(kept(t, s, p - 1) + j, seq![c]);
            }
            assert(solid(kept(t, s, p)) =~= solid_outside(t, s, p));
        }
    }
}

proof fn lemma_solid_behind_gap(t: Seq<char>, i: int, p: int, q: int)
    requires
        0 <= i <= q,
        i <= p,
        behind_gap(t, i, p) <= q,
    ensures
        solid_outside(t, i, q) == solid_outside(t, behind_gap(t, i, p), q),
    decreases q,
{
    let g = behind_gap(t, i, p);
    lemma_behind_gap_range(t, i, p);
    if q > g {
        lemma_solid_behind_gap(t, i, p, q - 1);
    } else {
        lemma_gap_is_not_solid(t, i, g);
    }
}

proof fn lemma_behind_gap_range(t: Seq<char>, i: int, p: int)
    requires
        i <= p,
    ensures
        i <= behind_gap(t, i, p) <= p,
        forall|q: int| i <= q < behind_gap(t, i, p) ==> #[trigger] in_gap(t, q),
    decreases p - i,
{
    if i < p && in_gap(t, i) {
        lemma_behind_gap_range(t, i + 1, p);
    }
}

proof fn lemma_gap_is_not_solid(t: Seq<char>, i: int, j: int)
    requires
        i <= j,
        forall|q: int| i <= q < j ==> #[trigger] in_gap(t, q),
    ensures
        solid_outside(t, i, j) == Seq::<char>::empty(),
    decreases j - i,
{
    if i < j {
        assert(in_gap(t, j - 1));
        lemma_gap_is_not_solid(t, i, j - 1);
    }
}

proof fn lemma_behind_ending_range(t: Seq<char>, p: int)
    requires
        0 <= p,
    ensures
        0 <= behind_ending(t, p) <= p,
    decreases p,
{
    if p > 0 {
        lemma_behind_ending_range(t, p - 1);
    }
}

/// No character is lost and none is made up: but for spaces, a statement holds the
/// characters outside of comments between the `;` before it and its own `;`, in
/// their order.
pub proof fn law_no_character_is_lost(t: Seq<char>, p: int)
    requires
        0 <= p < t.len(),
        ends_at(t, p),
    ensures
        endings(t, p) < statements_of(t).len(),
        solid(statements_of(t)[endings(t, p) as int].cql) == solid_outside(
            t,
            behind_ending(t, p),
            p,
        ),
{
    let i = behind_ending(t, p);
    let b = statement_begin(t, p);
    lemma_account(t, 0, p);
    lemma_behind_ending_range(t, p);
    lemma_behind_gap_range(t, i, p);
    lemma_kept_solid(t, b, p);
    lemma_solid_behind_gap(t, i, p, p);
}

// ---------------------------------------------------------------------------
// Two texts in a row
// ---------------------------------------------------------------------------

/// A `/*` in the plain text of `t` is no comment, as no `*/` follows it.
pub open spec fn leaves_block_open(t: Seq<char>) -> bool {
    exists|p: int| #[trigger]
        two_at(t, p, '/', '*') && standing(t, p) is Plain && !closed_behind(t, p + 2)
}

proof fn lemma_all_is_statements(t: Seq<char>, i: int)
    requires
        0 <= i <= t.len(),
        i > 0 ==> ends_at(t, i - 1),
        standing(t, i) is Plain,
        t.len() > 0,
        ends_at(t, t.len() - 1),
    ensures
        statements_end(t, i) == t.len(),
    decreases t.len() - i,
{
    let start = gap_end(t, i);
    lemma_in_gap(t, i);
    lemma_account_of_rest(t, start, start);
    if let Some((_, end)) = rest_of_statement(t, start) {
        lemma_all_is_statements(t, end + 1);
    } else if i < t.len() {
        if t.len() - 1 < start {
            assert(in_gap(t, t.len() - 1));
        }
        assert(false);
    }
}

proof fn lemma_rest_leaves_block_open(t: Seq<char>, s: int, i: int)
    requires
        0 <= s <= i <= t.len(),
        i < t.len() ==> standing(t, i) is Plain || (standing(t, i) is Quoted && t[i] == ';'),
        i < t.len() && in_gap(t, i) ==> s < i && !in_gap(t, i - 1),
        rest_opens_block(t, i),
    ensures
        leaves_block_open(t),
    decreases t.len() - i,
{
    if gap_end(t, i) == i && pair_at(t, i, '/', '*') {
        lemma_closed_behind(t, i + 2);
        lemma_comment_end(t, i);
        if let Some(j) = comment_end(t, i) {
            lemma_gap_end(t, j);
        }
        assert(two_at(t, i, '/', '*'));
    } else {
        lemma_account_of_piece(t, s, i);
        lemma_rest_leaves_block_open(t, s, piece_end(t, i));
    }
}

proof fn lemma_leaves_block_open(t: Seq<char>, i: int)
    requires
        0 <= i <= t.len(),
        i > 0 ==> ends_at(t, i - 1),
        standing(t, i) is Plain,
        opens_block(t, i),
    ensures
        leaves_block_open(t),
    decreases t.len() - i,
{
    let start = gap_end(t, i);
    lemma_in_gap(t, i);
    lemma_account_of_rest(t, start, start);
    let (_, end) = rest_of_statement(t, start)->0;
    if rest_opens_block(t, start) {
        lemma_rest_leaves_block_open(t, start, start);
    } else {
        lemma_leaves_block_open(t, end + 1);
    }
}

/// Where a text ends with the `;` of a statement, what follows it adds its own
/// statements, whatever their number, further down by as many lines as the text
/// has line feeds. What follows must not close a `/*` that the text leaves open.
pub proof fn law_two_texts_in_a_row(a: Seq<char>, b: Seq<char>)
    requires
        a.len() > 0,
        ends_at(a, a.len() - 1),
        leaves_block_open(a) ==> !closed_behind(b, 0),
    ensures
        statements_of(a + b) == statements_of(a) + moved_down(
            statements_of(b),
            line_feeds(a, a.len() as int) as int,
        ),
{
    lemma_all_is_statements(a, 0);
    if opens_block(a, 0) {
        lemma_leaves_block_open(a, 0);
    }
    if closes_block(b) {
        let i = choose|i: int| #[trigger] pair_at(b, i, '*', '/');
        assert(0 <= i && two_at(b, i, '*', '/'));
    }
    lemma_line_feeds(a, a.len() as int);
    law_statements_of_both(a, b);
}

} // verus!
