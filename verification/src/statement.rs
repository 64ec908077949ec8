//! The statements of a CQL file.
//!
//! A file is a row of statements, each ended by a `;`. Blanks and comments may
//! stand anywhere between them and inside them. A statement is handed out
//! without its `;` and without its comments, on one line. What stands in quotes
//! is kept as it is, but for a `;`, which ends the statement there too. Text that
//! no `;` ends is left out.
use vstd::prelude::*;

use crate::text::{append_range, chars_of};

verus! {

/// A statement of a CQL file.
#[derive(Debug)]
pub struct CqlStatement {
    /// The statement, without the `;` that ends it.
    pub cql: String,
    /// The line on which the statement begins and the line of its `;`; the
    /// first line of a file is line 1.
    pub lines: (usize, usize),
}

/// What a [`CqlStatement`] says.
pub struct Statement {
    pub cql: Seq<char>,
    pub lines: (nat, nat),
}

impl DeepView for CqlStatement {
    type V = Statement;

    open spec fn deep_view(&self) -> Statement {
        Statement { cql: self.cql@, lines: (self.lines.0 as nat, self.lines.1 as nat) }
    }
}

// ---------------------------------------------------------------------------
// The grammar
// ---------------------------------------------------------------------------

/// The characters that may stand between two words. A tab is not among them.
pub open spec fn is_blank(c: char) -> bool {
    c == ' ' || c == '\n' || c == '\r'
}

/// The characters `a` and `b` stand at `i` and right behind it.
pub open spec fn pair_at(t: Seq<char>, i: int, a: char, b: char) -> bool {
    0 <= i && i + 1 < t.len() && t[i] == a && t[i + 1] == b
}

/// The position behind the first line break at or behind `i`, or the end of the
/// text where there is none.
pub open spec fn line_end(t: Seq<char>, i: int) -> int
    decreases t.len() - i,
{
    if i >= t.len() {
        t.len() as int
    } else if t[i] == '\n' {
        i + 1
    } else {
        line_end(t, i + 1)
    }
}

/// The position behind the first `*/` at or behind `i`, if there is one.
pub open spec fn block_end(t: Seq<char>, i: int) -> Option<int>
    decreases t.len() - i,
{
    if i >= t.len() {
        None
    } else if pair_at(t, i, '*', '/') {
        Some(i + 2)
    } else {
        block_end(t, i + 1)
    }
}

/// The position behind the comment that opens at `i`, if one does. `--` opens a
/// comment that runs to the end of its line. `/*` opens one that runs to the
/// next `*/`; where none follows, `/*` is no comment.
pub open spec fn comment_end(t: Seq<char>, i: int) -> Option<int> {
    if pair_at(t, i, '-', '-') {
        Some(line_end(t, i + 2))
    } else if pair_at(t, i, '/', '*') {
        block_end(t, i + 2)
    } else {
        None
    }
}

/// The end of the gap at `i`: the longest row of blanks and comments that
/// begins there. It is `i` itself where neither stands at `i`.
pub open spec fn gap_end(t: Seq<char>, i: int) -> int
    decreases t.len() - i,
{
    proof {
        lemma_comment_end(t, i);
    }
    if !(0 <= i < t.len()) {
        i
    } else if is_blank(t[i]) {
        gap_end(t, i + 1)
    } else {
        match comment_end(t, i) {
            Some(j) => gap_end(t, j),
            None => i,
        }
    }
}

/// The length of the quote at `i`: one for `'` and `"`, two for `$$`, zero where
/// none stands there.
pub open spec fn quote_len(t: Seq<char>, i: int) -> int {
    if 0 <= i < t.len() && (t[i] == '\'' || t[i] == '"') {
        1
    } else if pair_at(t, i, '$', '$') {
        2
    } else {
        0
    }
}

/// The end of the literal whose opening quote stands at `i`, searched from `j`
/// on: behind the next quote of the same kind, or at a `;` that comes first.
pub open spec fn literal_end(t: Seq<char>, i: int, j: int) -> int
    decreases t.len() - j,
{
    if j >= t.len() {
        t.len() as int
    } else if t[j] == ';' {
        j
    } else if quote_len(t, j) == quote_len(t, i) && t[j] == t[i] {
        j + quote_len(t, i)
    } else {
        literal_end(t, i, j + 1)
    }
}

/// The end of what stands as one piece at `i`: a gap, a literal or a single
/// character.
pub open spec fn piece_end(t: Seq<char>, i: int) -> int {
    if gap_end(t, i) > i {
        gap_end(t, i)
    } else if quote_len(t, i) > 0 {
        literal_end(t, i, i + quote_len(t, i))
    } else {
        i + 1
    }
}

/// What a statement keeps of the gap from `i` to `j` inside it.
///
/// Nothing is kept in front of the `;`. A gap with a comment in it is one
/// space. So is one with a line break in it, but for a line break right behind
/// a `(` or right in front of a `)`, which leaves nothing. Any other gap is kept
/// as it is: spaces, and carriage returns that no line break follows.
pub open spec fn gap_text(t: Seq<char>, i: int, j: int) -> Seq<char> {
    if j >= t.len() || t[j] == ';' {
        seq![]
    } else if exists|k: int| i <= k < j && !is_blank(#[trigger] t[k]) {
        seq![' ']
    } else if exists|k: int| i <= k < j && #[trigger] t[k] == '\n' {
        if (i > 0 && t[i - 1] == '(') || t[j] == ')' {
            seq![]
        } else {
            seq![' ']
        }
    } else {
        t.subrange(i, j)
    }
}

/// What a statement keeps of the piece from `i` to `j`.
pub open spec fn piece_text(t: Seq<char>, i: int, j: int) -> Seq<char> {
    if gap_end(t, i) > i {
        gap_text(t, i, j)
    } else {
        t.subrange(i, j)
    }
}

/// What a statement keeps of the text from `i` up to the `;` that ends it, and
/// the position of that `;`. `None` where no `;` ends it.
pub open spec fn rest_of_statement(t: Seq<char>, i: int) -> Option<(Seq<char>, int)>
    decreases t.len() - i,
{
    proof {
        lemma_piece_end(t, i);
    }
    if !(0 <= i < t.len()) {
        None
    } else if t[i] == ';' {
        Some((seq![], i))
    } else {
        match rest_of_statement(t, piece_end(t, i)) {
            Some((rest, end)) => Some((piece_text(t, i, piece_end(t, i)) + rest, end)),
            None => None,
        }
    }
}

/// The line on which position `p` stands.
pub open spec fn line_at(t: Seq<char>, p: int) -> nat
    decreases p,
{
    if p <= 0 {
        1
    } else if t[p - 1] == '\n' {
        line_at(t, p - 1) + 1
    } else {
        line_at(t, p - 1)
    }
}

/// The statements of `t` from `i` on. Text that no `;` ends is no statement.
pub open spec fn statements_from(t: Seq<char>, i: int) -> Seq<Statement>
    decreases t.len() - i,
{
    let start = gap_end(t, i);
    proof {
        lemma_gap_end(t, i);
        lemma_rest_of_statement(t, start);
    }
    match rest_of_statement(t, start) {
        Some((cql, end)) => seq![
            Statement { cql, lines: (line_at(t, start), line_at(t, end)) },
        ] + statements_from(t, end + 1),
        None => seq![],
    }
}

/// The statements of the text `t`.
pub open spec fn statements_of(t: Seq<char>) -> Seq<Statement> {
    statements_from(t, 0)
}

// ---------------------------------------------------------------------------
// Where the parts of the grammar end
// ---------------------------------------------------------------------------

pub proof fn lemma_line_end(t: Seq<char>, i: int)
    requires
        i <= t.len(),
    ensures
        i <= line_end(t, i) <= t.len(),
    decreases t.len() - i,
{
    if i < t.len() {
        lemma_line_end(t, i + 1);
    }
}

pub proof fn lemma_block_end(t: Seq<char>, i: int)
    ensures
        block_end(t, i) matches Some(j) ==> i + 2 <= j <= t.len(),
    decreases t.len() - i,
{
    if i < t.len() {
        lemma_block_end(t, i + 1);
    }
}

pub proof fn lemma_comment_end(t: Seq<char>, i: int)
    ensures
        comment_end(t, i) matches Some(j) ==> i + 2 <= j <= t.len(),
{
    if i + 2 <= t.len() {
        lemma_line_end(t, i + 2);
    }
    lemma_block_end(t, i + 2);
}

pub proof fn lemma_gap_end(t: Seq<char>, i: int)
    ensures
        i <= gap_end(t, i),
        i <= t.len() ==> gap_end(t, i) <= t.len(),
    decreases t.len() - i,
{
    if 0 <= i < t.len() {
        lemma_comment_end(t, i);
        if is_blank(t[i]) {
            lemma_gap_end(t, i + 1);
        } else if let Some(j) = comment_end(t, i) {
            lemma_gap_end(t, j);
        }
    }
}

pub proof fn lemma_literal_end(t: Seq<char>, i: int, j: int)
    requires
        j <= t.len(),
    ensures
        j <= literal_end(t, i, j) <= t.len(),
    decreases t.len() - j,
{
    if j < t.len() {
        lemma_literal_end(t, i, j + 1);
    }
}

pub proof fn lemma_piece_end(t: Seq<char>, i: int)
    ensures
        i < piece_end(t, i),
        0 <= i < t.len() ==> piece_end(t, i) <= t.len(),
{
    lemma_gap_end(t, i);
    if quote_len(t, i) > 0 {
        lemma_literal_end(t, i, i + quote_len(t, i));
    }
}

pub proof fn lemma_rest_of_statement(t: Seq<char>, i: int)
    ensures
        rest_of_statement(t, i) matches Some((_, end)) ==> i <= end < t.len() && t[end] == ';',
    decreases t.len() - i,
{
    if 0 <= i < t.len() && t[i] != ';' {
        lemma_piece_end(t, i);
        lemma_rest_of_statement(t, piece_end(t, i));
    }
}

pub proof fn lemma_line_at(t: Seq<char>, p: int)
    requires
        0 <= p,
    ensures
        1 <= line_at(t, p) <= p + 1,
    decreases p,
{
    if p > 0 {
        lemma_line_at(t, p - 1);
    }
}

// ---------------------------------------------------------------------------
// Reading
// ---------------------------------------------------------------------------

fn is_pair(t: &Vec<char>, i: usize, a: char, b: char) -> (yes: bool)
    ensures
        yes == pair_at(t@, i as int, a, b),
{
    t.len() >= 2 && i < t.len() - 1 && t[i] == a && t[i + 1] == b
}

fn find_line_end(t: &Vec<char>, i: usize) -> (end: usize)
    requires
        i <= t@.len(),
    ensures
        end == line_end(t@, i as int),
        i <= end <= t@.len(),
{
    let mut j: usize = i;
    while j < t.len()
        invariant
            i <= j <= t@.len(),
            line_end(t@, i as int) == line_end(t@, j as int),
        decreases t@.len() - j,
    {
        if t[j] == '\n' {
            return j + 1;
        }
        j += 1;
    }
    j
}

fn find_block_end(t: &Vec<char>, i: usize) -> (end: Option<usize>)
    requires
        i <= t@.len(),
    ensures
        block_end(t@, i as int) == (match end {
            Some(j) => Some(j as int),
            None => None,
        }),
        end matches Some(j) ==> i <= j <= t@.len(),
{
    let mut j: usize = i;
    while j < t.len()
        invariant
            i <= j <= t@.len(),
            block_end(t@, i as int) == block_end(t@, j as int),
        decreases t@.len() - j,
    {
        if is_pair(t, j, '*', '/') {
            return Some(j + 2);
        }
        j += 1;
    }
    None
}

fn find_comment_end(t: &Vec<char>, i: usize) -> (end: Option<usize>)
    ensures
        comment_end(t@, i as int) == (match end {
            Some(j) => Some(j as int),
            None => None,
        }),
        end matches Some(j) ==> i < j <= t@.len(),
{
    assert(t@.len() == t.len());
    if is_pair(t, i, '-', '-') {
        Some(find_line_end(t, i + 2))
    } else if is_pair(t, i, '/', '*') {
        find_block_end(t, i + 2)
    } else {
        None
    }
}

fn find_gap_end(t: &Vec<char>, i: usize) -> (end: usize)
    requires
        i <= t@.len(),
    ensures
        end == gap_end(t@, i as int),
        i <= end <= t@.len(),
{
    let mut j: usize = i;
    while j < t.len()
        invariant
            i <= j <= t@.len(),
            gap_end(t@, i as int) == gap_end(t@, j as int),
        decreases t@.len() - j,
    {
        let c: char = t[j];
        if c == ' ' || c == '\n' || c == '\r' {
            j += 1;
        } else {
            match find_comment_end(t, j) {
                Some(k) => {
                    j = k;
                },
                None => {
                    return j;
                },
            }
        }
    }
    j
}

fn find_quote_len(t: &Vec<char>, i: usize) -> (len: usize)
    ensures
        len == quote_len(t@, i as int),
{
    if i < t.len() && (t[i] == '\'' || t[i] == '"') {
        1
    } else if is_pair(t, i, '$', '$') {
        2
    } else {
        0
    }
}

fn find_literal_end(t: &Vec<char>, i: usize, len: usize) -> (end: usize)
    requires
        i < t@.len(),
        len == quote_len(t@, i as int),
        i + len <= t@.len(),
    ensures
        end == literal_end(t@, i as int, i + len),
        i + len <= end <= t@.len(),
{
    assert(t@.len() == t.len());
    let mut j: usize = i + len;
    while j < t.len()
        invariant
            i < t@.len(),
            len == quote_len(t@, i as int),
            i + len <= j <= t@.len(),
            literal_end(t@, i as int, i + len) == literal_end(t@, i as int, j as int),
        decreases t@.len() - j,
    {
        if t[j] == ';' {
            return j;
        }
        if find_quote_len(t, j) == len && t[j] == t[i] {
            return j + len;
        }
        j += 1;
    }
    j
}

fn append_gap(out: &mut String, t: &Vec<char>, i: usize, j: usize)
    requires
        i <= j <= t@.len(),
    ensures
        final(out)@ == old(out)@ + gap_text(t@, i as int, j as int),
{
    if j >= t.len() || t[j] == ';' {
        return;
    }
    let mut comment: bool = false;
    let mut line_break: bool = false;
    let mut k: usize = i;
    while k < j
        invariant
            i <= k <= j <= t@.len(),
            comment <==> exists|m: int| i <= m < k && !is_blank(#[trigger] t@[m]),
            line_break <==> exists|m: int| i <= m < k && #[trigger] t@[m] == '\n',
        decreases j - k,
    {
        let c: char = t[k];
        if c == '\n' {
            line_break = true;
        } else if c != ' ' && c != '\r' {
            comment = true;
        }
        k += 1;
    }
    if comment {
        out.push(' ');
    } else if line_break {
        if !((i > 0 && t[i - 1] == '(') || t[j] == ')') {
            out.push(' ');
        }
    } else {
        append_range(out, t, i, j);
    }
}

/// Reads the statement that begins at `start`: what it keeps of its text, and
/// the position of its `;`.
fn read_statement(t: &Vec<char>, start: usize) -> (read: Option<(String, usize)>)
    requires
        start <= t@.len(),
    ensures
        match read {
            Some((cql, end)) => rest_of_statement(t@, start as int) == Some((cql@, end as int))
                && start <= end < t@.len() && t@[end as int] == ';',
            None => rest_of_statement(t@, start as int) is None,
        },
{
    let mut cql: String = String::new();
    let mut i: usize = start;
    while i < t.len()
        invariant
            start <= i <= t@.len(),
            rest_of_statement(t@, start as int) == (match rest_of_statement(t@, i as int) {
                Some((rest, end)) => Some((cql@ + rest, end)),
                None => None,
            }),
        decreases t@.len() - i,
    {
        if t[i] == ';' {
            assert(cql@ + Seq::<char>::empty() == cql@);
            return Some((cql, i));
        }
        let ghost before = cql@;
        let gap: usize = find_gap_end(t, i);
        let next: usize;
        if gap > i {
            next = gap;
            append_gap(&mut cql, t, i, gap);
        } else {
            let quote: usize = find_quote_len(t, i);
            if quote > 0 {
                next = find_literal_end(t, i, quote);
            } else {
                next = i + 1;
            }
            append_range(&mut cql, t, i, next);
        }
        proof {
            assert(next == piece_end(t@, i as int));
            let piece = piece_text(t@, i as int, next as int);
            assert(cql@ == before + piece);
            if let Some((rest, end)) = rest_of_statement(t@, next as int) {
                assert(before + (piece + rest) == cql@ + rest);
            }
        }
        i = next;
    }
    None
}

/// The line of `to`, counted on from `line`, which is that of `from`.
fn advance_line(t: &Vec<char>, line: usize, from: usize, to: usize) -> (moved: usize)
    requires
        from <= to < t@.len(),
        line == line_at(t@, from as int),
    ensures
        moved == line_at(t@, to as int),
{
    let mut moved: usize = line;
    let mut k: usize = from;
    assert(t@.len() == t.len());
    while k < to
        invariant
            from <= k <= to < t@.len() <= usize::MAX,
            moved == line_at(t@, k as int),
        decreases to - k,
    {
        proof {
            lemma_line_at(t@, k as int);
        }
        if t[k] == '\n' {
            moved += 1;
        }
        k += 1;
    }
    moved
}

/// Reads the statements of `text`.
pub fn parse_statements(text: &str) -> (statements: Vec<CqlStatement>)
    ensures
        statements.deep_view() == statements_of(text@),
{
    let t: Vec<char> = chars_of(text);
    let mut statements: Vec<CqlStatement> = Vec::new();
    let mut i: usize = 0;
    let mut line: usize = 1;
    loop
        invariant
            t@ == text@,
            i <= t@.len(),
            i < t@.len() ==> line == line_at(t@, i as int),
            statements.deep_view() + statements_from(t@, i as int) == statements_of(t@),
        decreases t@.len() - i,
    {
        let start: usize = find_gap_end(&t, i);
        match read_statement(&t, start) {
            None => {
                assert(statements.deep_view() + Seq::<Statement>::empty() == statements.deep_view());
                return statements;
            },
            Some((cql, end)) => {
                let first: usize = advance_line(&t, line, i, start);
                let last: usize = advance_line(&t, first, start, end);
                let ghost before = statements.deep_view();
                let statement = CqlStatement { cql, lines: (first, last) };
                statements.push(statement);
                proof {
                    assert(statements.deep_view() == before + seq![statement.deep_view()]);
                    assert(before + (seq![statement.deep_view()] + statements_from(t@, end + 1))
                        == statements.deep_view() + statements_from(t@, end + 1));
                }
                line = last;
                i = end + 1;
            },
        }
    }
}

} // verus!
