//! What holds of the statements of every text.
use vstd::prelude::*;

use crate::statement::{
    block_end, comment_end, gap_end, gap_text, is_blank, lemma_block_end, lemma_comment_end,
    lemma_gap_end, lemma_line_at, lemma_literal_end, lemma_piece_end,
    lemma_rest_of_statement, line_at, line_end, literal_end, pair_at, piece_end, piece_text,
    quote_len, rest_of_statement, statements_from, statements_of, Statement,
};

verus! {

// ---------------------------------------------------------------------------
// What a statement holds
// ---------------------------------------------------------------------------

/// A literal holds no `;` behind its opening quote.
proof fn lemma_literal_without_semicolon(t: Seq<char>, i: int, j: int)
    requires
        0 <= i < j <= t.len(),
        quote_len(t, i) > 0,
    ensures
        forall|k: int| j <= k < literal_end(t, i, j) ==> t[k] != ';',
    decreases t.len() - j,
{
    if j < t.len() && t[j] != ';' && !(quote_len(t, j) == quote_len(t, i) && t[j] == t[i]) {
        lemma_literal_without_semicolon(t, i, j + 1);
    }
}

proof fn lemma_piece_without_semicolon(t: Seq<char>, i: int)
    requires
        0 <= i < t.len(),
        t[i] != ';',
    ensures
        !piece_text(t, i, piece_end(t, i)).contains(';'),
{
    let j = piece_end(t, i);
    lemma_piece_end(t, i);
    lemma_gap_end(t, i);
    if gap_end(t, i) == i && quote_len(t, i) > 0 {
        lemma_literal_without_semicolon(t, i, i + quote_len(t, i));
    }
    if piece_text(t, i, j).contains(';') {
        let k = piece_text(t, i, j).index_of(';');
        assert(piece_text(t, i, j)[k] == ';');
        assert(t[i + k] == ';');
    }
}

proof fn lemma_rest_without_semicolon(t: Seq<char>, i: int)
    ensures
        rest_of_statement(t, i) matches Some((cql, _)) ==> !cql.contains(';'),
    decreases t.len() - i,
{
    if 0 <= i < t.len() && t[i] != ';' {
        let j = piece_end(t, i);
        lemma_piece_end(t, i);
        lemma_piece_without_semicolon(t, i);
        lemma_rest_without_semicolon(t, j);
        if let Some((rest, _)) = rest_of_statement(t, j) {
            let piece = piece_text(t, i, j);
            assert forall|k: int| 0 <= k < (piece + rest).len() implies (piece + rest)[k] != ';' by {
                if k < piece.len() {
                    assert(piece.contains(piece[k]));
                } else {
                    assert(rest.contains(rest[k - piece.len()]));
                }
            }
        }
    }
}

proof fn lemma_statements_without_semicolon(t: Seq<char>, i: int, k: int)
    requires
        0 <= i,
        0 <= k < statements_from(t, i).len(),
    ensures
        !statements_from(t, i)[k].cql.contains(';'),
    decreases t.len() - i,
{
    let start = gap_end(t, i);
    lemma_gap_end(t, i);
    lemma_rest_of_statement(t, start);
    lemma_rest_without_semicolon(t, start);
    if k > 0 {
        let (_, end) = rest_of_statement(t, start)->0;
        lemma_statements_without_semicolon(t, end + 1, k - 1);
    }
}

/// No statement holds a `;`.
pub proof fn law_no_semicolon(t: Seq<char>, k: int)
    requires
        0 <= k < statements_of(t).len(),
    ensures
        !statements_of(t)[k].cql.contains(';'),
{
    lemma_statements_without_semicolon(t, 0, k);
}

// ---------------------------------------------------------------------------
// Text without statements
// ---------------------------------------------------------------------------

/// Text that is nothing but blanks and comments holds no statement.
pub proof fn law_gap_holds_no_statement(t: Seq<char>)
    requires
        gap_end(t, 0) == t.len(),
    ensures
        statements_of(t) == Seq::<Statement>::empty(),
{
    lemma_gap_end(t, 0);
}

/// Text that no `;` ends holds no statement.
pub proof fn law_unended_text_holds_no_statement(t: Seq<char>)
    requires
        !t.contains(';'),
    ensures
        statements_of(t) == Seq::<Statement>::empty(),
{
    let start = gap_end(t, 0);
    lemma_gap_end(t, 0);
    lemma_rest_of_statement(t, start);
    if let Some((_, end)) = rest_of_statement(t, start) {
        assert(t.contains(t[end]));
    }
}

// ---------------------------------------------------------------------------
// Lines
// ---------------------------------------------------------------------------

proof fn lemma_lines_grow(t: Seq<char>, p: int, q: int)
    requires
        0 <= p <= q,
    ensures
        1 <= line_at(t, p) <= line_at(t, q),
    decreases q - p,
{
    lemma_line_at(t, p);
    if p < q {
        lemma_lines_grow(t, p, q - 1);
    }
}

proof fn lemma_statement_lines(t: Seq<char>, i: int, k: int)
    requires
        0 <= i <= t.len(),
        0 <= k < statements_from(t, i).len(),
    ensures
        line_at(t, i) <= statements_from(t, i)[k].lines.0,
        statements_from(t, i)[k].lines.0 <= statements_from(t, i)[k].lines.1,
        statements_from(t, i)[k].lines.1 <= line_at(t, t.len() as int),
        k > 0 ==> statements_from(t, i)[k - 1].lines.1 <= statements_from(t, i)[k].lines.0,
    decreases t.len() - i,
{
    let start = gap_end(t, i);
    lemma_gap_end(t, i);
    lemma_rest_of_statement(t, start);
    let (_, end) = rest_of_statement(t, start)->0;
    lemma_lines_grow(t, i, start);
    lemma_lines_grow(t, start, end);
    lemma_lines_grow(t, end, t.len() as int);
    if k > 0 {
        lemma_lines_grow(t, end, end + 1);
        lemma_lines_grow(t, i, end + 1);
        lemma_statement_lines(t, end + 1, k - 1);
    }
}

/// A statement ends on the line on which it begins or further down, inside the
/// text, and does not begin above the line on which the one before it ends.
pub proof fn law_lines_in_order(t: Seq<char>, k: int)
    requires
        0 <= k < statements_of(t).len(),
    ensures
        1 <= statements_of(t)[k].lines.0 <= statements_of(t)[k].lines.1 <= line_at(
            t,
            t.len() as int,
        ),
        k > 0 ==> statements_of(t)[k - 1].lines.1 <= statements_of(t)[k].lines.0,
{
    lemma_statement_lines(t, 0, k);
}

// ---------------------------------------------------------------------------
// Text behind other text
// ---------------------------------------------------------------------------

/// `statements`, `lines` lines further down.
pub open spec fn moved_down(statements: Seq<Statement>, lines: int) -> Seq<Statement> {
    statements.map_values(
        |s: Statement|
            Statement {
                cql: s.cql,
                lines: ((s.lines.0 + lines) as nat, (s.lines.1 + lines) as nat),
            },
    )
}

proof fn lemma_line_end_behind(g: Seq<char>, t: Seq<char>, i: int)
    requires
        0 <= i,
    ensures
        i <= t.len() ==> line_end(g + t, g.len() + i) == g.len() + line_end(t, i),
    decreases t.len() - i,
{
    if i < t.len() {
        assert((g + t)[g.len() + i] == t[i]);
        lemma_line_end_behind(g, t, i + 1);
    }
}

proof fn lemma_block_end_behind(g: Seq<char>, t: Seq<char>, i: int)
    requires
        0 <= i,
    ensures
        block_end(g + t, g.len() + i) == (match block_end(t, i) {
            Some(j) => Some(g.len() + j),
            None => None,
        }),
    decreases t.len() - i,
{
    if i < t.len() {
        assert((g + t)[g.len() + i] == t[i]);
        lemma_block_end_behind(g, t, i + 1);
    }
}

proof fn lemma_comment_end_behind(g: Seq<char>, t: Seq<char>, i: int)
    requires
        0 <= i,
    ensures
        comment_end(g + t, g.len() + i) == (match comment_end(t, i) {
            Some(j) => Some(g.len() + j),
            None => None,
        }),
{
    lemma_line_end_behind(g, t, i + 2);
    lemma_block_end_behind(g, t, i + 2);
    if i < t.len() {
        assert((g + t)[g.len() + i] == t[i]);
    }
    if i + 1 < t.len() {
        assert((g + t)[g.len() + i + 1] == t[i + 1]);
    }
}

proof fn lemma_gap_end_behind(g: Seq<char>, t: Seq<char>, i: int)
    requires
        0 <= i,
    ensures
        gap_end(g + t, g.len() + i) == g.len() + gap_end(t, i),
    decreases t.len() - i,
{
    if i < t.len() {
        assert((g + t)[g.len() + i] == t[i]);
        lemma_comment_end(t, i);
        lemma_comment_end_behind(g, t, i);
        if is_blank(t[i]) {
            lemma_gap_end_behind(g, t, i + 1);
        } else if let Some(j) = comment_end(t, i) {
            lemma_gap_end_behind(g, t, j);
        }
    }
}

proof fn lemma_quote_len_behind(g: Seq<char>, t: Seq<char>, i: int)
    requires
        0 <= i,
    ensures
        quote_len(g + t, g.len() + i) == quote_len(t, i),
{
    if i < t.len() {
        assert((g + t)[g.len() + i] == t[i]);
    }
    if i + 1 < t.len() {
        assert((g + t)[g.len() + i + 1] == t[i + 1]);
    }
}

proof fn lemma_literal_end_behind(g: Seq<char>, t: Seq<char>, i: int, j: int)
    requires
        0 <= i < t.len(),
        0 <= j <= t.len(),
    ensures
        literal_end(g + t, g.len() + i, g.len() + j) == g.len() + literal_end(t, i, j),
    decreases t.len() - j,
{
    if j < t.len() {
        assert((g + t)[g.len() + i] == t[i]);
        assert((g + t)[g.len() + j] == t[j]);
        lemma_quote_len_behind(g, t, i);
        lemma_quote_len_behind(g, t, j);
        lemma_literal_end_behind(g, t, i, j + 1);
    }
}

proof fn lemma_piece_behind(g: Seq<char>, t: Seq<char>, i: int)
    requires
        0 <= i < t.len(),
        i > 0 || gap_end(t, i) == i,
    ensures
        piece_end(g + t, g.len() + i) == g.len() + piece_end(t, i),
        piece_text(g + t, g.len() + i, g.len() + piece_end(t, i)) == piece_text(
            t,
            i,
            piece_end(t, i),
        ),
{
    let u = g + t;
    let n = g.len() as int;
    let j = piece_end(t, i);
    lemma_gap_end(t, i);
    lemma_piece_end(t, i);
    lemma_gap_end_behind(g, t, i);
    lemma_quote_len_behind(g, t, i);
    if quote_len(t, i) > 0 {
        lemma_literal_end_behind(g, t, i, i + quote_len(t, i));
    }
    assert forall|k: int| i <= k < j implies u[n + k] == t[k] by {}
    assert(u.subrange(n + i, n + j) == t.subrange(i, j));
    if gap_end(t, i) > i {
        assert(u[n + i - 1] == t[i - 1]);
        if j < t.len() {
            assert(u[n + j] == t[j]);
        }
        if exists|k: int| i <= k < j && !is_blank(#[trigger] t[k]) {
            let k = choose|k: int| i <= k < j && !is_blank(#[trigger] t[k]);
            assert(!is_blank(u[n + k]));
        }
        if exists|k: int| n + i <= k < n + j && !is_blank(#[trigger] u[k]) {
            let k = choose|k: int| n + i <= k < n + j && !is_blank(#[trigger] u[k]);
            assert(!is_blank(t[k - n]));
        }
        if exists|k: int| i <= k < j && #[trigger] t[k] == '\n' {
            let k = choose|k: int| i <= k < j && #[trigger] t[k] == '\n';
            assert(u[n + k] == '\n');
        }
        if exists|k: int| n + i <= k < n + j && #[trigger] u[k] == '\n' {
            let k = choose|k: int| n + i <= k < n + j && #[trigger] u[k] == '\n';
            assert(t[k - n] == '\n');
        }
    }
}

proof fn lemma_rest_behind(g: Seq<char>, t: Seq<char>, i: int)
    requires
        0 <= i,
        i > 0 || gap_end(t, i) == i,
    ensures
        rest_of_statement(g + t, g.len() + i) == (match rest_of_statement(t, i) {
            Some((cql, end)) => Some((cql, g.len() + end)),
            None => None,
        }),
    decreases t.len() - i,
{
    if i < t.len() {
        assert((g + t)[g.len() + i] == t[i]);
        if t[i] != ';' {
            lemma_piece_end(t, i);
            lemma_piece_behind(g, t, i);
            lemma_rest_behind(g, t, piece_end(t, i));
        }
    }
}

proof fn lemma_line_at_behind(g: Seq<char>, t: Seq<char>, i: int)
    requires
        0 <= i <= t.len(),
    ensures
        line_at(g + t, g.len() + i) == line_at(g, g.len() as int) + line_at(t, i) - 1,
    decreases i,
{
    if i > 0 {
        lemma_line_at_behind(g, t, i - 1);
        assert((g + t)[g.len() + i - 1] == t[i - 1]);
    } else {
        lemma_line_at_in_front(g, t, g.len() as int);
    }
}

proof fn lemma_line_at_in_front(g: Seq<char>, t: Seq<char>, i: int)
    requires
        i <= g.len(),
    ensures
        line_at(g + t, i) == line_at(g, i),
    decreases i,
{
    if i > 0 {
        lemma_line_at_in_front(g, t, i - 1);
        assert((g + t)[i - 1] == g[i - 1]);
    }
}

proof fn lemma_gap_end_twice(t: Seq<char>, i: int)
    ensures
        gap_end(t, gap_end(t, i)) == gap_end(t, i),
    decreases t.len() - i,
{
    if 0 <= i < t.len() {
        lemma_comment_end(t, i);
        if is_blank(t[i]) {
            lemma_gap_end_twice(t, i + 1);
        } else if let Some(j) = comment_end(t, i) {
            lemma_gap_end_twice(t, j);
        }
    }
}

/// The statements of `t` are those of `g + t` from behind `g` on, but for their
/// lines.
proof fn lemma_statements_behind(g: Seq<char>, t: Seq<char>, i: int)
    requires
        0 <= i <= t.len(),
    ensures
        statements_from(g + t, g.len() + i) == moved_down(
            statements_from(t, i),
            line_at(g, g.len() as int) - 1,
        ),
    decreases t.len() - i,
{
    let u = g + t;
    let n = g.len() as int;
    let lines = line_at(g, n) - 1;
    let start = gap_end(t, i);
    lemma_gap_end(t, i);
    lemma_gap_end_behind(g, t, i);
    lemma_gap_end_twice(t, i);
    lemma_rest_behind(g, t, start);
    lemma_rest_of_statement(t, start);
    lemma_line_at(g, n);
    if let Some((cql, end)) = rest_of_statement(t, start) {
        lemma_line_at_behind(g, t, start);
        lemma_line_at_behind(g, t, end);
        lemma_statements_behind(g, t, end + 1);
        assert(n + (end + 1) == (n + end) + 1);
        assert(statements_from(u, n + i) == seq![
            Statement { cql, lines: (line_at(u, n + start), line_at(u, n + end)) },
        ] + statements_from(u, n + end + 1));
        assert(statements_from(u, n + i) =~= moved_down(statements_from(t, i), lines));
    } else {
        assert(statements_from(u, n + i) =~= moved_down(statements_from(t, i), lines));
    }
}

/// A blank in front of a text changes no statement; a line break moves them all
/// down by a line.
pub proof fn law_blank_in_front(blank: char, t: Seq<char>)
    requires
        is_blank(blank),
    ensures
        statements_of(seq![blank] + t) == moved_down(
            statements_of(t),
            if blank == '\n' {
                1
            } else {
                0
            },
        ),
{
    let g = seq![blank];
    assert((g + t)[0] == blank);
    assert(gap_end(g + t, 0) == gap_end(g + t, 1));
    assert(line_at(g, 0) == 1);
    lemma_statements_behind(g, t, 0);
}

/// A comment in front of a text that runs to the end of its line, whatever it
/// holds, changes no statement and moves them all down by a line.
pub proof fn law_line_comment_in_front(comment: Seq<char>, t: Seq<char>)
    requires
        !comment.contains('\n'),
    ensures
        statements_of(seq!['-', '-'] + comment + seq!['\n'] + t) == moved_down(statements_of(t), 1),
{
    let g = seq!['-', '-'] + comment + seq!['\n'];
    let u = g + t;
    let n = g.len() as int;
    assert(u[0] == '-' && u[1] == '-');
    assert forall|k: int| 2 <= k < n - 1 implies u[k] != '\n' by {
        assert(u[k] == comment[k - 2]);
        assert(comment.contains(comment[k - 2]));
    }
    assert(u[n - 1] == '\n');
    lemma_line_end_at(u, 2, n - 1);
    assert(gap_end(u, 0) == gap_end(u, n));
    lemma_line_at_flat(g, n - 1);
    lemma_statements_behind(g, t, 0);
}

/// A comment in front of a text that ends in `*/`, whatever it holds, changes no
/// statement and moves them all down by as many lines as it has.
pub proof fn law_block_comment_in_front(comment: Seq<char>, t: Seq<char>)
    requires
        forall|k: int| !#[trigger] pair_at(comment, k, '*', '/'),
    ensures
        statements_of(seq!['/', '*'] + comment + seq!['*', '/'] + t) == moved_down(
            statements_of(t),
            line_at(comment, comment.len() as int) - 1,
        ),
{
    let g = seq!['/', '*'] + comment + seq!['*', '/'];
    let u = g + t;
    let n = g.len() as int;
    assert(u[0] == '/' && u[1] == '*');
    assert forall|k: int| 2 <= k < n - 2 implies !pair_at(u, k, '*', '/') by {
        assert(u[k] == comment[k - 2]);
        if k < n - 3 {
            assert(u[k + 1] == comment[k - 1]);
            assert(!pair_at(comment, k - 2, '*', '/'));
        } else {
            assert(u[k + 1] == '*');
        }
    }
    assert(u[n - 2] == '*' && u[n - 1] == '/');
    lemma_block_end_at(u, 2, n - 2);
    assert(gap_end(u, 0) == gap_end(u, n));
    let head = seq!['/', '*'];
    assert(line_at(head, 1) == line_at(head, 0));
    assert(line_at(head, 2) == 1);
    lemma_line_at_behind(head, comment, comment.len() as int);
    lemma_line_at_in_front(head + comment, seq!['*', '/'], n - 2);
    assert(line_at(g, n - 1) == line_at(g, n - 2));
    assert(line_at(g, n) == line_at(g, n - 1));
    lemma_statements_behind(g, t, 0);
}

/// `g` is, from `i` on, a row of blanks and of comments that are closed: by a line
/// break or by a `*/`.
pub open spec fn is_closed_gap(g: Seq<char>, i: int) -> bool
    decreases g.len() - i,
{
    proof {
        lemma_comment_end(g, i);
    }
    if !(0 <= i < g.len()) {
        i == g.len()
    } else if is_blank(g[i]) {
        is_closed_gap(g, i + 1)
    } else {
        match comment_end(g, i) {
            Some(j) => (pair_at(g, i, '-', '-') ==> g[j - 1] == '\n') && is_closed_gap(g, j),
            None => false,
        }
    }
}

proof fn lemma_closed_gap(g: Seq<char>, t: Seq<char>, i: int)
    requires
        0 <= i,
        is_closed_gap(g, i),
    ensures
        gap_end(g + t, i) == gap_end(g + t, g.len() as int),
    decreases g.len() - i,
{
    let u = g + t;
    if i < g.len() {
        assert(u[i] == g[i]);
        if i + 1 < g.len() {
            assert(u[i + 1] == g[i + 1]);
        }
        if is_blank(g[i]) {
            lemma_closed_gap(g, t, i + 1);
        } else {
            let j = comment_end(g, i)->0;
            lemma_comment_end(g, i);
            if pair_at(g, i, '-', '-') {
                lemma_line_end_in_front(g, t, i + 2);
            } else {
                lemma_block_end_in_front(g, t, i + 2);
            }
            assert(comment_end(u, i) == Some(j));
            lemma_closed_gap(g, t, j);
        }
    }
}

/// A whole row of blanks and closed comments in front of a text changes no
/// statement and moves them all down by as many lines as it has.
pub proof fn law_gap_in_front(g: Seq<char>, t: Seq<char>)
    requires
        is_closed_gap(g, 0),
    ensures
        statements_of(g + t) == moved_down(statements_of(t), line_at(g, g.len() as int) - 1),
{
    lemma_closed_gap(g, t, 0);
    lemma_statements_behind(g, t, 0);
}

proof fn lemma_line_end_at(t: Seq<char>, i: int, j: int)
    requires
        0 <= i <= j < t.len(),
        t[j] == '\n',
        forall|k: int| i <= k < j ==> t[k] != '\n',
    ensures
        line_end(t, i) == j + 1,
    decreases j - i,
{
    if i < j {
        lemma_line_end_at(t, i + 1, j);
    }
}

proof fn lemma_block_end_at(t: Seq<char>, i: int, j: int)
    requires
        0 <= i <= j,
        pair_at(t, j, '*', '/'),
        forall|k: int| i <= k < j ==> !#[trigger] pair_at(t, k, '*', '/'),
    ensures
        block_end(t, i) == Some(j + 2),
    decreases j - i,
{
    if i < j {
        assert(!pair_at(t, i, '*', '/'));
        lemma_block_end_at(t, i + 1, j);
    }
}

proof fn lemma_line_at_flat(t: Seq<char>, p: int)
    requires
        0 <= p <= t.len(),
        forall|k: int| 0 <= k < p ==> t[k] != '\n',
    ensures
        line_at(t, p) == 1,
    decreases p,
{
    if p > 0 {
        lemma_line_at_flat(t, p - 1);
    }
}

// ---------------------------------------------------------------------------
// Text in front of other text
// ---------------------------------------------------------------------------

/// `t` holds a `*/`.
pub open spec fn closes_block(t: Seq<char>) -> bool {
    exists|i: int| #[trigger] pair_at(t, i, '*', '/')
}

/// The statement whose rest begins at `i` holds a `/*` that is no comment, as no
/// `*/` follows it.
pub open spec fn rest_opens_block(t: Seq<char>, i: int) -> bool
    decreases t.len() - i,
{
    proof {
        lemma_piece_end(t, i);
    }
    if !(0 <= i < t.len()) || t[i] == ';' {
        false
    } else {
        (gap_end(t, i) == i && pair_at(t, i, '/', '*')) || rest_opens_block(t, piece_end(t, i))
    }
}

/// A statement of `t` from `i` on holds a `/*` that is no comment, as no `*/`
/// follows it.
pub open spec fn opens_block(t: Seq<char>, i: int) -> bool
    decreases t.len() - i,
{
    let start = gap_end(t, i);
    proof {
        lemma_gap_end(t, i);
        lemma_rest_of_statement(t, start);
    }
    match rest_of_statement(t, start) {
        Some((_, end)) => rest_opens_block(t, start) || opens_block(t, end + 1),
        None => false,
    }
}

/// The position behind the last statement of `t` from `i` on.
pub open spec fn statements_end(t: Seq<char>, i: int) -> int
    decreases t.len() - i,
{
    let start = gap_end(t, i);
    proof {
        lemma_gap_end(t, i);
        lemma_rest_of_statement(t, start);
    }
    match rest_of_statement(t, start) {
        Some((_, end)) => statements_end(t, end + 1),
        None => i,
    }
}

proof fn lemma_line_end_in_front(a: Seq<char>, b: Seq<char>, i: int)
    requires
        0 <= i,
        line_end(a, i) < a.len() || (i < a.len() && a.last() == '\n'),
    ensures
        line_end(a + b, i) == line_end(a, i),
    decreases a.len() - i,
{
    if i < a.len() {
        assert((a + b)[i] == a[i]);
        if a[i] != '\n' {
            lemma_line_end_in_front(a, b, i + 1);
        }
    }
}

proof fn lemma_block_end_in_front(a: Seq<char>, b: Seq<char>, i: int)
    requires
        0 <= i,
        block_end(a, i) is Some,
    ensures
        block_end(a + b, i) == block_end(a, i),
    decreases a.len() - i,
{
    assert((a + b)[i] == a[i]);
    lemma_block_end(a, i);
    if pair_at(a, i, '*', '/') {
        assert((a + b)[i + 1] == a[i + 1]);
    } else {
        lemma_block_end(a, i + 1);
        assert((a + b)[i + 1] == a[i + 1]);
        lemma_block_end_in_front(a, b, i + 1);
    }
}

proof fn lemma_no_block_end_in_front(a: Seq<char>, b: Seq<char>, i: int)
    requires
        0 <= i,
        block_end(a, i) is None,
        !closes_block(b),
        a.len() > 0,
        a.last() == ';',
    ensures
        block_end(a + b, i) is None,
    decreases (a + b).len() - i,
{
    let u = a + b;
    if i < u.len() {
        if i < a.len() {
            assert(u[i] == a[i]);
            if i + 1 < a.len() {
                assert(u[i + 1] == a[i + 1]);
            }
        } else {
            assert(u[i] == b[i - a.len()]);
            assert(!pair_at(b, i - a.len(), '*', '/'));
        }
        lemma_no_block_end_in_front(a, b, i + 1);
    }
}

/// A gap that ends inside `a`, in front of a `;` or of two more characters, is
/// the same whatever follows `a`, unless what follows closes a `/*` there.
proof fn lemma_gap_end_in_front(a: Seq<char>, b: Seq<char>, i: int)
    requires
        0 <= i,
        gap_end(a, i) < a.len(),
        gap_end(a, i) + 1 < a.len() || a[gap_end(a, i)] == ';',
        pair_at(a, gap_end(a, i), '/', '*') ==> !closes_block(b),
        a.last() == ';',
    ensures
        gap_end(a + b, i) == gap_end(a, i),
    decreases a.len() - i,
{
    lemma_gap_end(a, i);
    assert((a + b)[i] == a[i]);
    if i + 1 < a.len() {
        assert((a + b)[i + 1] == a[i + 1]);
    }
    lemma_comment_end(a, i);
    if is_blank(a[i]) {
        lemma_gap_end_in_front(a, b, i + 1);
    } else if let Some(j) = comment_end(a, i) {
        lemma_gap_end(a, j);
        if pair_at(a, i, '-', '-') {
            lemma_line_end_in_front(a, b, i + 2);
        } else {
            lemma_block_end_in_front(a, b, i + 2);
        }
        lemma_gap_end_in_front(a, b, j);
    } else if pair_at(a, i, '/', '*') {
        lemma_no_block_end_in_front(a, b, i + 2);
    }
}

proof fn lemma_quote_len_in_front(a: Seq<char>, b: Seq<char>, i: int)
    requires
        0 <= i,
        i + 1 < a.len(),
    ensures
        quote_len(a + b, i) == quote_len(a, i),
{
    assert((a + b)[i] == a[i]);
    assert((a + b)[i + 1] == a[i + 1]);
}

proof fn lemma_literal_end_in_front(a: Seq<char>, b: Seq<char>, i: int, j: int)
    requires
        0 <= i < j,
        i + 1 < a.len(),
        literal_end(a, i, j) < a.len(),
        quote_len(a, i) > 0,
    ensures
        literal_end(a + b, i, j) == literal_end(a, i, j),
    decreases a.len() - j,
{
    if j < a.len() {
        assert((a + b)[i] == a[i]);
        assert((a + b)[j] == a[j]);
        lemma_quote_len_in_front(a, b, i);
        if a[j] != ';' {
            if j + 1 < a.len() {
                lemma_quote_len_in_front(a, b, j);
            }
            if !(quote_len(a, j) == quote_len(a, i) && a[j] == a[i]) {
                lemma_literal_end_in_front(a, b, i, j + 1);
            }
        }
    }
}

/// A statement that `a` ends is the same whatever follows `a`.
proof fn lemma_rest_in_front(a: Seq<char>, b: Seq<char>, i: int)
    requires
        0 <= i,
        rest_of_statement(a, i) is Some,
        rest_opens_block(a, i) ==> !closes_block(b),
        a.last() == ';',
    ensures
        rest_of_statement(a + b, i) == rest_of_statement(a, i),
    decreases a.len() - i,
{
    let u = a + b;
    assert(u[i] == a[i]);
    lemma_rest_of_statement(a, i);
    if a[i] != ';' {
        let j = piece_end(a, i);
        lemma_piece_end(a, i);
        lemma_rest_of_statement(a, j);
        let (_, end) = rest_of_statement(a, j)->0;
        assert(i + 1 <= j <= end < a.len());
        assert(u[i + 1] == a[i + 1]);
        lemma_gap_end(a, i);
        if gap_end(a, i) == end {
            assert(a[gap_end(a, i)] == ';');
        }
        lemma_gap_end_twice(a, i);
        if gap_end(a, i) > i && pair_at(a, gap_end(a, i), '/', '*') {
            assert(rest_opens_block(a, j));
        }
        lemma_gap_end_in_front(a, b, i);
        lemma_quote_len_in_front(a, b, i);
        if gap_end(a, i) == i && quote_len(a, i) > 0 {
            lemma_literal_end_in_front(a, b, i, i + quote_len(a, i));
        }
        assert(piece_end(u, i) == j);
        assert(u.subrange(i, j) == a.subrange(i, j));
        assert(u[j] == a[j]);
        assert forall|k: int| i - 1 <= k <= j && 0 <= k implies u[k] == a[k] by {}
        assert(gap_text(u, i, j) == gap_text(a, i, j)) by {
            if exists|k: int| i <= k < j && !is_blank(#[trigger] a[k]) {
                let k = choose|k: int| i <= k < j && !is_blank(#[trigger] a[k]);
                assert(!is_blank(u[k]));
            }
            if exists|k: int| i <= k < j && #[trigger] a[k] == '\n' {
                let k = choose|k: int| i <= k < j && #[trigger] a[k] == '\n';
                assert(u[k] == '\n');
            }
        }
        lemma_rest_in_front(a, b, j);
    }
}

proof fn lemma_statements_in_front(a: Seq<char>, b: Seq<char>, i: int)
    requires
        0 <= i <= a.len(),
        statements_end(a, i) == a.len(),
        opens_block(a, i) ==> !closes_block(b),
        a.len() > 0 ==> a.last() == ';',
    ensures
        statements_from(a + b, i) == statements_from(a, i) + statements_from(
            a + b,
            a.len() as int,
        ),
    decreases a.len() - i,
{
    let u = a + b;
    let start = gap_end(a, i);
    lemma_gap_end(a, i);
    lemma_rest_of_statement(a, start);
    match rest_of_statement(a, start) {
        None => {
            assert(statements_from(a, i) + statements_from(u, i) == statements_from(u, i));
        },
        Some((cql, end)) => {
            if start + 1 >= a.len() {
                assert(start == end);
            }
            lemma_gap_end_twice(a, i);
            if pair_at(a, start, '/', '*') {
                assert(rest_opens_block(a, start));
            }
            lemma_gap_end_in_front(a, b, i);
            lemma_rest_in_front(a, b, start);
            lemma_line_at_in_front(a, b, start);
            lemma_line_at_in_front(a, b, end);
            lemma_statements_in_front(a, b, end + 1);
            let first = seq![Statement { cql, lines: (line_at(a, start), line_at(a, end)) }];
            assert(statements_from(u, i) == first + statements_from(u, end + 1));
            assert(first + (statements_from(a, end + 1) + statements_from(u, a.len() as int)) == (
            first + statements_from(a, end + 1)) + statements_from(u, a.len() as int));
        },
    }
}

proof fn lemma_statements_end(t: Seq<char>, i: int)
    requires
        0 <= i < t.len(),
        statements_end(t, i) == t.len(),
    ensures
        t.last() == ';',
    decreases t.len() - i,
{
    let start = gap_end(t, i);
    lemma_gap_end(t, i);
    lemma_rest_of_statement(t, start);
    let (_, end) = rest_of_statement(t, start)->0;
    if end + 1 < t.len() {
        lemma_statements_end(t, end + 1);
    }
}

/// Where a text ends with a statement, the statements of what follows are read as
/// if they stood alone, further down. What follows must not close a `/*` that a
/// statement of the text leaves open.
pub proof fn law_statements_of_both(a: Seq<char>, b: Seq<char>)
    requires
        statements_end(a, 0) == a.len(),
        opens_block(a, 0) ==> !closes_block(b),
    ensures
        statements_of(a + b) == statements_of(a) + moved_down(
            statements_of(b),
            line_at(a, a.len() as int) - 1,
        ),
{
    if a.len() > 0 {
        lemma_statements_end(a, 0);
    }
    lemma_statements_in_front(a, b, 0);
    lemma_statements_behind(a, b, 0);
}

// ---------------------------------------------------------------------------
// Reading a statement again
// ---------------------------------------------------------------------------

/// What a statement keeps of a gap is blank and holds no line break.
proof fn lemma_gap_text(t: Seq<char>, i: int, j: int)
    requires
        0 <= i <= j <= t.len(),
    ensures
        gap_text(t, i, j).len() > 0 ==> j < t.len() && t[j] != ';',
        forall|k: int|
            0 <= k < gap_text(t, i, j).len() ==> is_blank(#[trigger] gap_text(t, i, j)[k])
                && gap_text(t, i, j)[k] != '\n',
{
    let kept = gap_text(t, i, j);
    assert forall|k: int| 0 <= k < kept.len() implies is_blank(#[trigger] kept[k]) && kept[k]
        != '\n' by {
        if kept == t.subrange(i, j) {
            assert(kept[k] == t[i + k]);
        }
    }
}

/// The character with which the rest of a statement goes on.
proof fn lemma_next_char(t: Seq<char>, i: int)
    requires
        0 <= i,
        rest_of_statement(t, i) is Some,
    ensures
        ({
            let next = (rest_of_statement(t, i)->0).0.push(';')[0];
            if gap_end(t, i) == i {
                next == t[i]
            } else {
                is_blank(next) || next == ';' || next == ')' || (i > 0 && t[i - 1] == '(')
            }
        }),
    decreases t.len() - i,
{
    lemma_rest_of_statement(t, i);
    if t[i] != ';' {
        let j = piece_end(t, i);
        lemma_piece_end(t, i);
        lemma_gap_end(t, i);
        lemma_rest_of_statement(t, j);
        let (rest, _) = rest_of_statement(t, j)->0;
        let piece = piece_text(t, i, j);
        if gap_end(t, i) > i {
            lemma_gap_text(t, i, j);
            lemma_gap_end_twice(t, i);
            if piece.len() == 0 {
                lemma_next_char(t, j);
                assert((piece + rest).push(';') == rest.push(';'));
            } else {
                assert((piece + rest).push(';')[0] == piece[0]);
            }
        } else {
            assert((piece + rest).push(';')[0] == piece[0]);
        }
    }
}

/// How a literal ends: at a `;`, or with its quote.
proof fn lemma_literal_last(t: Seq<char>, i: int, j: int)
    requires
        0 <= i < j <= t.len(),
        quote_len(t, i) > 0,
        literal_end(t, i, j) < t.len(),
    ensures
        t[literal_end(t, i, j)] == ';' || t[literal_end(t, i, j) - 1] == t[i],
    decreases t.len() - j,
{
    if t[j] != ';' && !(quote_len(t, j) == quote_len(t, i) && t[j] == t[i]) {
        lemma_literal_last(t, i, j + 1);
    }
}

proof fn lemma_no_block_end(t: Seq<char>, i: int, k: int)
    requires
        0 <= i <= k,
        block_end(t, i) is None,
    ensures
        block_end(t, k) is None,
        !pair_at(t, k, '*', '/'),
    decreases k - i,
{
    if i < k && i < t.len() {
        lemma_no_block_end(t, i + 1, k);
    }
}

proof fn lemma_block_end_none(t: Seq<char>, i: int)
    requires
        0 <= i,
        forall|k: int| i <= k ==> !#[trigger] pair_at(t, k, '*', '/'),
    ensures
        block_end(t, i) is None,
    decreases t.len() - i,
{
    if i < t.len() {
        assert(!pair_at(t, i, '*', '/'));
        lemma_block_end_none(t, i + 1);
    }
}

/// Where no `*/` follows, the rest of the statement holds none either.
proof fn lemma_rest_closes_no_block(t: Seq<char>, i: int)
    requires
        0 <= i,
        rest_of_statement(t, i) is Some,
        block_end(t, i) is None,
    ensures
        forall|k: int|
            !#[trigger] pair_at((rest_of_statement(t, i)->0).0.push(';'), k, '*', '/'),
    decreases t.len() - i,
{
    lemma_rest_of_statement(t, i);
    if t[i] != ';' {
        let j = piece_end(t, i);
        lemma_piece_end(t, i);
        lemma_gap_end(t, i);
        lemma_rest_of_statement(t, j);
        lemma_no_block_end(t, i, j);
        lemma_rest_closes_no_block(t, j);
        lemma_next_char(t, j);
        let (rest, _) = rest_of_statement(t, j)->0;
        let piece = piece_text(t, i, j);
        let all = (piece + rest).push(';');
        assert(all == piece + rest.push(';'));
        let n = piece.len() as int;
        assert forall|k: int| !#[trigger] pair_at(all, k, '*', '/') by {
            if pair_at(all, k, '*', '/') {
                if k >= n {
                    assert(!pair_at(rest.push(';'), k - n, '*', '/'));
                } else if gap_end(t, i) > i {
                    lemma_gap_text(t, i, j);
                    assert(is_blank(piece[k]));
                } else if k + 1 < n {
                    lemma_no_block_end(t, i, i + k);
                    assert(t[i + k] == piece[k] && t[i + k + 1] == piece[k + 1]);
                } else {
                    lemma_no_block_end(t, i, i + k);
                    assert(t[j - 1] == '*');
                    if quote_len(t, i) > 0 {
                        lemma_literal_last(t, i, i + quote_len(t, i));
                    }
                    assert(rest.push(';')[0] == '/');
                    lemma_gap_end(t, j);
                    assert(t[j] == '/');
                }
            }
        }
    }
}

/// A piece of a statement that is no gap is none in the finished statement.
proof fn lemma_no_gap_again(o: Seq<char>, t: Seq<char>, i: int)
    requires
        0 <= i < t.len(),
        t[i] != ';',
        gap_end(t, i) == i,
        rest_of_statement(t, i) is Some,
    ensures
        gap_end(o + (rest_of_statement(t, i)->0).0.push(';'), o.len() as int) == o.len(),
{
    let n = o.len() as int;
    let u = o + (rest_of_statement(t, i)->0).0.push(';');
    let j = piece_end(t, i);
    lemma_piece_end(t, i);
    lemma_rest_of_statement(t, j);
    lemma_next_char(t, i);
    lemma_next_char(t, j);
    let (rest, _) = rest_of_statement(t, j)->0;
    let piece = piece_text(t, i, j);
    assert(u == o + piece + rest.push(';'));
    assert(u[n] == t[i]);
    lemma_comment_end(t, i);
    if let Some(k) = comment_end(t, i) {
        lemma_gap_end(t, k);
    }
    assert(comment_end(t, i) is None);
    lemma_gap_end(t, i + 1);
    assert(!is_blank(u[n]));
    if t[i] == '-' || t[i] == '/' {
        assert(quote_len(t, i) == 0);
        assert(piece.len() == 1);
        assert(u[n + 1] == rest.push(';')[0]);
        lemma_gap_end(t, j);
        assert(pair_at(t, i, t[i], t[j]));
        if t[i] == '-' {
            assert(u[n + 1] != '-');
        }
        if t[i] == '/' && u[n + 1] == '*' {
            assert(t[j] == '*' && gap_end(t, j) == j);
            assert(block_end(t, i + 2) is None);
            assert(piece_end(t, j) == j + 1);
            lemma_rest_of_statement(t, j + 1);
            lemma_rest_closes_no_block(t, j + 1);
            let (tail, _) = rest_of_statement(t, j + 1)->0;
            assert(rest == seq!['*'] + tail);
            assert forall|k: int| n + 2 <= k implies !#[trigger] pair_at(u, k, '*', '/') by {
                assert(!pair_at(tail.push(';'), k - n - 2, '*', '/'));
                if k < u.len() {
                    assert(u[k] == tail.push(';')[k - n - 2]);
                }
                if k + 1 < u.len() {
                    assert(u[k + 1] == tail.push(';')[k + 1 - n - 2]);
                }
            }
            lemma_block_end_none(u, n + 2);
        }
    }
    assert(comment_end(u, n) is None);
}

/// A literal is the same literal in the finished statement.
proof fn lemma_literal_again(o: Seq<char>, t: Seq<char>, i: int, k: int, u: Seq<char>)
    requires
        0 <= i < k,
        i + quote_len(t, i) <= k <= literal_end(t, i, i + quote_len(t, i)) < t.len(),
        quote_len(t, i) > 0,
        literal_end(t, i, k) == literal_end(t, i, i + quote_len(t, i)),
        o.len() + literal_end(t, i, k) - i < u.len(),
        forall|m: int|
            i <= m < literal_end(t, i, k) ==> u[o.len() + m - i] == #[trigger] t[m],
        t[literal_end(t, i, k)] == ';' ==> u[o.len() + literal_end(t, i, k) - i] == ';',
    ensures
        literal_end(u, o.len() as int, o.len() + k - i) == o.len() + literal_end(t, i, k) - i,
    decreases t.len() - k,
{
    let n = o.len() as int;
    let end = literal_end(t, i, k);
    assert(u[n] == t[i]);
    if quote_len(t, i) == 2 {
        assert(u[n + 1] == t[i + 1]);
    }
    assert(quote_len(u, n) == quote_len(t, i));
    lemma_literal_end(t, i, k);
    if t[k] == ';' {
        assert(u[n + k - i] == ';');
    } else {
        lemma_literal_end(t, i, k + 1);
        assert(u[n + k - i] == t[k]);
        if quote_len(t, k) == quote_len(t, i) && t[k] == t[i] {
            if quote_len(t, k) == 2 {
                assert(u[n + k + 1 - i] == t[k + 1]);
            }
        } else {
            if k + 1 < end {
                assert(u[n + k + 1 - i] == t[k + 1]);
            } else {
                lemma_literal_last(t, i, k + 1);
                lemma_short_literal(t, i, k + 1);
                assert(t[end] == ';');
            }
            assert(!(quote_len(u, n + k - i) == quote_len(u, n) && u[n + k - i] == u[n]));
            lemma_literal_again(o, t, i, k + 1, u);
        }
    }
}

/// A literal that ends where its search begins ends at a `;`.
proof fn lemma_short_literal(t: Seq<char>, i: int, j: int)
    requires
        0 <= i < j < t.len(),
        quote_len(t, i) > 0,
        literal_end(t, i, j) == j,
    ensures
        t[j] == ';',
{
    if t[j] != ';' && !(quote_len(t, j) == quote_len(t, i) && t[j] == t[i]) {
        lemma_literal_end(t, i, j + 1);
    }
}

/// The rest of a statement, read again, is the same.
proof fn lemma_rest_again(o: Seq<char>, t: Seq<char>, i: int)
    requires
        0 <= i,
        rest_of_statement(t, i) is Some,
    ensures
        ({
            let cql = (rest_of_statement(t, i)->0).0;
            rest_of_statement(o + cql.push(';'), o.len() as int) == Some(
                (cql, (o.len() + cql.len()) as int),
            )
        }),
    decreases t.len() - i,
{
    let n = o.len() as int;
    let (cql, _) = rest_of_statement(t, i)->0;
    let u = o + cql.push(';');
    lemma_rest_of_statement(t, i);
    if t[i] == ';' {
        assert(u[n] == ';');
    } else {
        let j = piece_end(t, i);
        lemma_piece_end(t, i);
        lemma_gap_end(t, i);
        lemma_rest_of_statement(t, j);
        let (rest, _) = rest_of_statement(t, j)->0;
        let piece = piece_text(t, i, j);
        let m = piece.len() as int;
        assert(u == (o + piece) + rest.push(';'));
        lemma_rest_again(o + piece, t, j);
        if gap_end(t, i) > i {
            lemma_gap_end_twice(t, i);
            if m == 0 {
                assert(o + piece == o);
                assert(piece + rest == rest);
            } else {
                lemma_gap_text(t, i, j);
                lemma_no_gap_again(o + piece, t, j);
                lemma_next_char(t, j);
                assert(u[n + m] == t[j]);
                assert forall|k: int| n <= k < n + m implies is_blank(u[k]) && u[k] != '\n' by {
                    assert(u[k] == piece[k - n]);
                }
                lemma_blanks(u, n, n + m);
                assert(u.subrange(n, n + m) == piece);
                assert(piece_end(u, n) == n + m);
                assert(piece_text(u, n, n + m) == piece);
            }
        } else {
            lemma_no_gap_again(o, t, i);
            assert(u[n] == piece[0] == t[i]);
            if quote_len(t, i) > 0 {
                let q = quote_len(t, i);
                assert forall|k: int| i <= k < j implies u[n + k - i] == #[trigger] t[k] by {
                    assert(u[n + k - i] == piece[k - i]);
                }
                lemma_literal_end(t, i, i + q);
                if t[j] == ';' {
                    assert(rest.len() == 0);
                    assert(u[n + j - i] == ';');
                }
                lemma_literal_again(o, t, i, i + q, u);
                if q == 2 {
                    assert(u[n + 1] == t[i + 1]);
                }
            } else {
                lemma_next_char(t, j);
                lemma_gap_end(t, j);
                assert(u[n + 1] == rest.push(';')[0]);
                assert(quote_len(u, n) == 0);
            }
            assert(piece_end(u, n) == n + m);
            assert(u.subrange(n, n + m) == piece);
        }
    }
}

proof fn lemma_blanks(t: Seq<char>, i: int, j: int)
    requires
        0 <= i <= j <= t.len(),
        forall|k: int| i <= k < j ==> is_blank(#[trigger] t[k]),
        gap_end(t, j) == j,
    ensures
        gap_end(t, i) == j,
    decreases j - i,
{
    if i < j {
        lemma_blanks(t, i + 1, j);
    }
}

proof fn lemma_finished_statement(t: Seq<char>, start: int)
    requires
        0 <= start < t.len(),
        gap_end(t, start) == start,
        rest_of_statement(t, start) is Some,
    ensures
        ({
            let cql = (rest_of_statement(t, start)->0).0;
            statements_of(cql.push(';')) == seq![
                Statement { cql, lines: (1, line_at(cql, cql.len() as int)) },
            ]
        }),
{
    let (cql, _) = rest_of_statement(t, start)->0;
    let o = Seq::<char>::empty();
    let u = cql.push(';');
    let n = cql.len() as int;
    assert(o + u == u);
    assert(gap_end(u, 0) == 0) by {
        if t[start] == ';' {
            assert(u[0] == ';');
        } else {
            lemma_no_gap_again(o, t, start);
        }
    }
    assert(rest_of_statement(u, 0) == Some((cql, n))) by {
        lemma_rest_again(o, t, start);
    }
    assert(line_at(u, n) == line_at(cql, n)) by {
        lemma_line_at_in_front(cql, seq![';'], n);
        assert(cql + seq![';'] == u);
    }
    assert(statements_from(u, n + 1) == Seq::<Statement>::empty()) by {
        assert(u.len() == n + 1);
        assert(gap_end(u, n + 1) == n + 1);
    }
    assert(statements_from(u, 0) == seq![Statement { cql, lines: (1, line_at(cql, n)) }]
        + statements_from(u, n + 1));
}

proof fn lemma_statement_again(t: Seq<char>, i: int, k: int)
    requires
        0 <= i <= t.len(),
        0 <= k < statements_from(t, i).len(),
    ensures
        ({
            let cql = statements_from(t, i)[k].cql;
            statements_of(cql.push(';')) == seq![
                Statement { cql, lines: (1, line_at(cql, cql.len() as int)) },
            ]
        }),
    decreases t.len() - i,
{
    let start = gap_end(t, i);
    lemma_gap_end(t, i);
    lemma_gap_end_twice(t, i);
    lemma_rest_of_statement(t, start);
    let (cql, end) = rest_of_statement(t, start)->0;
    let first = seq![Statement { cql, lines: (line_at(t, start), line_at(t, end)) }];
    assert(statements_from(t, i) == first + statements_from(t, end + 1));
    if k > 0 {
        lemma_statement_again(t, end + 1, k - 1);
    } else {
        lemma_finished_statement(t, start);
    }
}

/// A statement, ended by a `;` and read again, is the same statement.
pub proof fn law_read_again(t: Seq<char>, k: int)
    requires
        0 <= k < statements_of(t).len(),
    ensures
        ({
            let cql = statements_of(t)[k].cql;
            statements_of(cql.push(';')) == seq![
                Statement { cql, lines: (1, line_at(cql, cql.len() as int)) },
            ]
        }),
{
    lemma_statement_again(t, 0, k);
}

// ---------------------------------------------------------------------------
// Statements without quotes
// ---------------------------------------------------------------------------

/// `s` holds no quote.
pub open spec fn unquoted(s: Seq<char>) -> bool {
    forall|k: int| #[trigger] quote_len(s, k) == 0
}

/// `s` stands on one line and neither begins nor ends with a blank.
pub open spec fn is_tidy(s: Seq<char>) -> bool {
    &&& !s.contains('\n')
    &&& s.len() > 0 ==> !is_blank(s.first()) && !is_blank(s.last())
}

proof fn lemma_rest_is_tidy(t: Seq<char>, i: int)
    requires
        0 <= i,
        rest_of_statement(t, i) is Some,
        unquoted((rest_of_statement(t, i)->0).0),
    ensures
        ({
            let cql = (rest_of_statement(t, i)->0).0;
            &&& forall|k: int| 0 <= k < cql.len() ==> #[trigger] cql[k] != '\n'
            &&& cql.len() > 0 ==> !is_blank(cql.last())
            &&& cql.len() > 0 && gap_end(t, i) == i ==> !is_blank(cql.first())
        }),
    decreases t.len() - i,
{
    lemma_rest_of_statement(t, i);
    if t[i] != ';' {
        let j = piece_end(t, i);
        lemma_piece_end(t, i);
        lemma_gap_end(t, i);
        lemma_gap_end(t, i + 1);
        lemma_rest_of_statement(t, j);
        let (rest, _) = rest_of_statement(t, j)->0;
        let piece = piece_text(t, i, j);
        let cql = piece + rest;
        let n = piece.len() as int;
        lemma_unquoted_rest(t, i);
        lemma_rest_is_tidy(t, j);
        if gap_end(t, i) > i {
            lemma_gap_end_twice(t, i);
            lemma_gap_text(t, i, j);
            if n > 0 {
                lemma_next_char(t, j);
                assert(rest.len() > 0) by {
                    assert(rest.push(';')[0] == t[j]);
                }
            }
        } else {
            assert(piece == seq![t[i]]);
        }
        if rest.len() > 0 {
            assert(cql.last() == rest.last());
        } else {
            assert(cql == piece);
        }
        assert forall|k: int| 0 <= k < cql.len() implies #[trigger] cql[k] != '\n' by {
            if k >= n {
                assert(cql[k] == rest[k - n]);
            } else {
                assert(cql[k] == piece[k]);
            }
        }
    }
}

proof fn lemma_statement_is_tidy(t: Seq<char>, i: int, k: int)
    requires
        0 <= i <= t.len(),
        0 <= k < statements_from(t, i).len(),
        unquoted(statements_from(t, i)[k].cql),
    ensures
        is_tidy(statements_from(t, i)[k].cql),
    decreases t.len() - i,
{
    let start = gap_end(t, i);
    lemma_gap_end(t, i);
    lemma_gap_end_twice(t, i);
    lemma_rest_of_statement(t, start);
    let (cql, end) = rest_of_statement(t, start)->0;
    let first = seq![Statement { cql, lines: (line_at(t, start), line_at(t, end)) }];
    assert(statements_from(t, i) == first + statements_from(t, end + 1));
    if k > 0 {
        lemma_statement_is_tidy(t, end + 1, k - 1);
    } else {
        lemma_rest_is_tidy(t, start);
    }
}

/// A statement without quotes stands on one line, with no blank at either end.
/// Inside quotes, line breaks and blanks are kept.
pub proof fn law_statement_is_tidy(t: Seq<char>, k: int)
    requires
        0 <= k < statements_of(t).len(),
        unquoted(statements_of(t)[k].cql),
    ensures
        is_tidy(statements_of(t)[k].cql),
{
    lemma_statement_is_tidy(t, 0, k);
}

proof fn lemma_unquoted_rest(t: Seq<char>, i: int)
    requires
        0 <= i < t.len(),
        t[i] != ';',
        rest_of_statement(t, i) is Some,
        unquoted((rest_of_statement(t, i)->0).0),
    ensures
        rest_of_statement(t, piece_end(t, i)) is Some,
        unquoted((rest_of_statement(t, piece_end(t, i))->0).0),
        gap_end(t, i) == i ==> piece_end(t, i) == i + 1,
{
    let j = piece_end(t, i);
    lemma_piece_end(t, i);
    let (rest, _) = rest_of_statement(t, j)->0;
    let piece = piece_text(t, i, j);
    let cql = piece + rest;
    let n = piece.len() as int;
    assert forall|k: int| #[trigger] quote_len(rest, k) == 0 by {
        assert(quote_len(cql, n + k) == 0);
        if 0 <= k < rest.len() {
            assert(cql[n + k] == rest[k]);
        }
        if 0 <= k && k + 1 < rest.len() {
            assert(cql[n + k + 1] == rest[k + 1]);
        }
    }
    if gap_end(t, i) == i {
        assert(quote_len(cql, 0) == 0);
        assert(cql[0] == t[i]);
        if quote_len(t, i) == 2 {
            lemma_literal_end(t, i, i + 2);
            assert(cql[1] == t[i + 1]);
        }
    }
}

proof fn lemma_rest_without_comment(o: Seq<char>, t: Seq<char>, i: int, p: int)
    requires
        0 <= i,
        rest_of_statement(t, i) is Some,
        unquoted((rest_of_statement(t, i)->0).0),
        o.len() <= p,
    ensures
        comment_end(o + (rest_of_statement(t, i)->0).0.push(';'), p) is None,
    decreases t.len() - i,
{
    lemma_rest_of_statement(t, i);
    let n = o.len() as int;
    let (cql, _) = rest_of_statement(t, i)->0;
    let u = o + cql.push(';');
    if t[i] != ';' {
        let j = piece_end(t, i);
        lemma_piece_end(t, i);
        lemma_gap_end(t, i);
        lemma_unquoted_rest(t, i);
        let (rest, _) = rest_of_statement(t, j)->0;
        let piece = piece_text(t, i, j);
        assert(u == (o + piece) + rest.push(';'));
        if p >= n + piece.len() {
            lemma_rest_without_comment(o + piece, t, j, p);
        } else if gap_end(t, i) > i {
            lemma_gap_text(t, i, j);
            assert(u[p] == piece[p - n]);
            assert(is_blank(u[p]));
        } else {
            lemma_no_gap_again(o, t, i);
            lemma_comment_end(u, n);
            if let Some(k) = comment_end(u, n) {
                lemma_gap_end(u, k);
            }
        }
    } else {
        assert(u[n] == ';');
    }
}

proof fn lemma_statement_without_comment(t: Seq<char>, i: int, k: int, p: int)
    requires
        0 <= i <= t.len(),
        0 <= k < statements_from(t, i).len(),
        unquoted(statements_from(t, i)[k].cql),
        0 <= p,
    ensures
        comment_end(statements_from(t, i)[k].cql, p) is None,
    decreases t.len() - i,
{
    let start = gap_end(t, i);
    lemma_gap_end(t, i);
    lemma_rest_of_statement(t, start);
    let (cql, end) = rest_of_statement(t, start)->0;
    let first = seq![Statement { cql, lines: (line_at(t, start), line_at(t, end)) }];
    assert(statements_from(t, i) == first + statements_from(t, end + 1));
    if k > 0 {
        lemma_statement_without_comment(t, end + 1, k - 1, p);
    } else {
        let o = Seq::<char>::empty();
        let u = cql.push(';');
        assert(o + u == u);
        assert(cql + seq![';'] == u);
        lemma_rest_without_comment(o, t, start, p);
        if pair_at(cql, p, '/', '*') && block_end(cql, p + 2) is Some {
            lemma_block_end_in_front(cql, seq![';'], p + 2);
            assert(u[p] == cql[p] && u[p + 1] == cql[p + 1]);
        }
        if pair_at(cql, p, '-', '-') {
            assert(u[p] == cql[p] && u[p + 1] == cql[p + 1]);
        }
    }
}

/// A statement without quotes holds no comment. Inside quotes, what looks like a
/// comment is kept.
pub proof fn law_no_comment_left(t: Seq<char>, k: int, p: int)
    requires
        0 <= k < statements_of(t).len(),
        unquoted(statements_of(t)[k].cql),
    ensures
        comment_end(statements_of(t)[k].cql, p) is None,
{
    if p >= 0 {
        lemma_statement_without_comment(t, 0, k, p);
    }
}

// ---------------------------------------------------------------------------
// Statements that are kept as they are
// ---------------------------------------------------------------------------

proof fn lemma_no_comment_with_semicolon(s: Seq<char>, p: int)
    requires
        0 <= p,
        comment_end(s, p) is None,
    ensures
        comment_end(s.push(';'), p) is None,
{
    let u = s.push(';');
    if pair_at(s, p, '/', '*') {
        assert forall|k: int| p + 2 <= k implies !#[trigger] pair_at(u, k, '*', '/') by {
            lemma_no_block_end(s, p + 2, k);
        }
        lemma_block_end_none(u, p + 2);
    }
}

/// Where there are no comments, a gap is made of blanks.
proof fn lemma_gap_of_blanks(t: Seq<char>, i: int)
    requires
        0 <= i,
        forall|p: int| 0 <= p ==> #[trigger] comment_end(t, p) is None,
    ensures
        forall|k: int| i <= k < gap_end(t, i) ==> is_blank(#[trigger] t[k]),
    decreases t.len() - i,
{
    if i < t.len() {
        assert(comment_end(t, i) is None);
        if is_blank(t[i]) {
            lemma_gap_of_blanks(t, i + 1);
        }
    }
}

proof fn lemma_rest_is_kept(s: Seq<char>, i: int)
    requires
        0 <= i <= s.len(),
        !s.contains(';'),
        !s.contains('\n'),
        s.len() > 0 ==> !is_blank(s.last()),
        forall|p: int| 0 <= p ==> #[trigger] comment_end(s.push(';'), p) is None,
    ensures
        rest_of_statement(s.push(';'), i) == Some((s.subrange(i, s.len() as int), s.len() as int)),
    decreases s.len() - i,
{
    let u = s.push(';');
    let n = s.len() as int;
    if i == n {
        assert(s.subrange(n, n) == Seq::<char>::empty());
    } else {
        assert(s.contains(s[i]));
        let j = piece_end(u, i);
        lemma_piece_end(u, i);
        lemma_gap_end(u, i);
        lemma_gap_of_blanks(u, i);
        assert(j <= n) by {
            if j > n {
                if gap_end(u, i) > i {
                    assert(is_blank(u[n]));
                } else if quote_len(u, i) > 0 {
                    let q = quote_len(u, i);
                    lemma_literal_without_semicolon(u, i, i + q);
                    assert(u[n] != ';');
                }
            }
        }
        assert(piece_text(u, i, j) == s.subrange(i, j)) by {
            assert(u.subrange(i, j) == s.subrange(i, j));
            if gap_end(u, i) > i {
                assert(is_blank(u[j - 1]));
                assert(j < n);
                assert(s.contains(s[j]));
                assert forall|k: int| i <= k < j implies is_blank(#[trigger] u[k]) && u[k]
                    != '\n' by {
                    assert(s.contains(s[k]));
                }
            }
        }
        lemma_rest_is_kept(s, j);
        assert(s.subrange(i, j) + s.subrange(j, n) == s.subrange(i, n));
    }
}

/// A statement on one line, without comments, is kept as it stands.
pub proof fn law_plain_line_is_kept(s: Seq<char>)
    requires
        !s.contains(';'),
        !s.contains('\n'),
        forall|p: int| #[trigger] comment_end(s, p) is None,
        s.len() > 0 ==> !is_blank(s.first()) && !is_blank(s.last()),
    ensures
        statements_of(s.push(';')) == seq![Statement { cql: s, lines: (1, 1) }],
{
    let u = s.push(';');
    let n = s.len() as int;
    assert forall|p: int| 0 <= p implies #[trigger] comment_end(u, p) is None by {
        assert(comment_end(s, p) is None);
        lemma_no_comment_with_semicolon(s, p);
    }
    assert(comment_end(u, 0) is None);
    assert(gap_end(u, 0) == 0);
    lemma_rest_is_kept(s, 0);
    assert(s.subrange(0, n) == s);
    assert forall|k: int| 0 <= k < n implies u[k] != '\n' by {
        assert(s.contains(s[k]));
    }
    lemma_line_at_flat(u, n);
    assert(gap_end(u, n + 1) == n + 1);
    assert(statements_from(u, n + 1) == Seq::<Statement>::empty());
    assert(statements_from(u, 0) == seq![Statement { cql: s, lines: (1, 1) }] + statements_from(
        u,
        n + 1,
    ));
}

} // verus!
