//! Parser for the plaintext Life format.
//!
//! The input is a sequence of lines. Leading lines whose first character is
//! `!` are comments and are skipped; the first other line begins the cell
//! block. Within the block, `.` is a dead cell and `O` an alive one; the
//! block ends at the first empty line or at the end of the input. Raw rows
//! may differ in length and are right-padded with dead cells to the longest
//! raw row, so the returned grid is rectangular.

use vstd::prelude::*;

use crate::grid::grid_wf;
use crate::grid::CellState;
use crate::grid::Cells;

verus! {

/// Why an input failed to parse.
#[derive(Copy, Clone, PartialEq, Eq, Structural, Debug)]
pub enum ParseError {
    /// The input ended before any cell row was found.
    UnexpectedEndOfInput,
    /// An empty line was found while still skipping comment lines.
    UnexpectedEmptyLine,
    /// A character other than `.` or `O` inside a cell row, with the
    /// 1-based number of the input line that holds it.
    InvalidCellCharacter { character: char, line: usize },
}

/// The lines of a text: maximal segments separated by `'\n'`. A trailing
/// newline does not open a final empty line, matching how lines of a file
/// are usually counted.
pub open spec fn lines_of(s: Seq<char>) -> Seq<Seq<char>>
    decreases s.len(),
{
    if s.len() == 0 {
        seq![]
    } else if s[0] == '\n' {
        seq![Seq::<char>::empty()] + lines_of(s.drop_first())
    } else {
        let rest = lines_of(s.drop_first());
        if rest.len() == 0 {
            seq![seq![s[0]]]
        } else {
            seq![seq![s[0]] + rest[0]] + rest.drop_first()
        }
    }
}

/// The index of the first line at or after `i` that does not begin with
/// `!`; an empty line while still skipping is an error, and so is running
/// out of lines.
pub open spec fn first_cell_line(lines: Seq<Seq<char>>, i: int) -> Result<int, ParseError>
    decreases lines.len() - i,
{
    if i >= lines.len() {
        Err(ParseError::UnexpectedEndOfInput)
    } else if lines[i].len() == 0 {
        Err(ParseError::UnexpectedEmptyLine)
    } else if lines[i][0] == '!' {
        first_cell_line(lines, i + 1)
    } else {
        Ok(i)
    }
}

/// Whether a character may stand in a cell row.
pub open spec fn valid_cell_char(ch: char) -> bool {
    ch == '.' || ch == 'O'
}

/// The cell a valid character stands for.
pub open spec fn cell_of(ch: char) -> CellState {
    if ch == 'O' {
        CellState::Alive
    } else {
        CellState::Dead
    }
}

/// The index of the first character of a line that is not a valid cell
/// character, or the line's length if every character is valid.
pub open spec fn first_invalid(line: Seq<char>) -> int
    decreases line.len(),
{
    if line.len() == 0 {
        0
    } else if !valid_cell_char(line[0]) {
        0
    } else {
        1 + first_invalid(line.drop_first())
    }
}

/// A line as a row of cells: every character mapped through [`cell_of`],
/// or the first invalid character as the error.
pub open spec fn parse_row_spec(line: Seq<char>) -> Result<Seq<CellState>, char> {
    if first_invalid(line) == line.len() {
        Ok(Seq::new(line.len(), |k: int| cell_of(line[k])))
    } else {
        Err(line[first_invalid(line)])
    }
}

/// The raw cell rows from line `i` on: one row per line until the first
/// empty line or the end of the input, whichever comes first. An invalid
/// character aborts with its 1-based line number.
pub open spec fn collect_rows(lines: Seq<Seq<char>>, i: int) -> Result<
    Seq<Seq<CellState>>,
    ParseError,
>
    decreases lines.len() - i,
{
    if i >= lines.len() || lines[i].len() == 0 {
        Ok(seq![])
    } else {
        match parse_row_spec(lines[i]) {
            Err(ch) => Err(
                ParseError::InvalidCellCharacter { character: ch, line: (i + 1) as usize },
            ),
            Ok(row) => match collect_rows(lines, i + 1) {
                Err(e) => Err(e),
                Ok(rows) => Ok(seq![row] + rows),
            },
        }
    }
}

/// The length of the longest row, or 0 if there are none.
pub open spec fn max_row_len(rows: Seq<Seq<CellState>>) -> int
    decreases rows.len(),
{
    if rows.len() == 0 {
        0
    } else {
        let m = max_row_len(rows.drop_last());
        if rows.last().len() > m {
            rows.last().len() as int
        } else {
            m
        }
    }
}

/// A row right-padded with dead cells up to width `w` (unchanged if it is
/// already at least that wide).
pub open spec fn pad_row(row: Seq<CellState>, w: int) -> Seq<CellState> {
    row + Seq::new((w - row.len()) as nat, |k: int| CellState::Dead)
}

/// Every row right-padded to width `w`.
pub open spec fn pad_rows(rows: Seq<Seq<CellState>>, w: int) -> Seq<Seq<CellState>> {
    Seq::new(rows.len(), |i: int| pad_row(rows[i], w))
}

/// What parsing a whole input returns: the collected raw rows, padded to
/// the longest raw row, or the first error.
pub open spec fn parse_life_spec(s: Seq<char>) -> Result<Seq<Seq<CellState>>, ParseError> {
    let lines = lines_of(s);
    match first_cell_line(lines, 0) {
        Err(e) => Err(e),
        Ok(f) => match collect_rows(lines, f) {
            Err(e) => Err(e),
            Ok(rows) => Ok(pad_rows(rows, max_row_len(rows))),
        },
    }
}

/// Splitting off the first line: if the characters before `n` hold no
/// newline and `n` is a newline (or the end), the lines of `s` are the
/// segment before `n` followed by the lines of what comes after it.
proof fn lemma_lines_split(s: Seq<char>, n: int)
    requires
        0 < s.len(),
        0 <= n <= s.len(),
        forall|k: int| 0 <= k < n ==> s[k] != '\n',
        n < s.len() ==> s[n] == '\n',
    ensures
        n == s.len() ==> lines_of(s) == seq![s],
        n < s.len() ==> lines_of(s) == seq![s.take(n)] + lines_of(s.skip(n + 1)),
    decreases s.len(),
{
    if n == 0 {
        assert(s[0] == '\n');
        assert(s.take(0) =~= Seq::<char>::empty());
        assert(s.skip(1) =~= s.drop_first());
    } else {
        let t = s.drop_first();
        assert forall|k: int| 0 <= k < n - 1 implies t[k] != '\n' by {
            assert(t[k] == s[k + 1]);
        }
        assert(n - 1 < t.len() ==> t[n - 1] == s[n]);
        if n == s.len() {
            if s.len() == 1 {
                assert(t.len() == 0);
                assert(lines_of(t) == Seq::<Seq<char>>::empty());
                assert(lines_of(s) == seq![seq![s[0]]]);
                assert(seq![s[0]] =~= s);
                assert(lines_of(s) =~= seq![s]);
            } else {
                lemma_lines_split(t, n - 1);
                let rest = lines_of(t);
                assert(rest == seq![t]);
                assert(seq![s[0]] + rest[0] =~= s);
                assert(rest.drop_first() =~= Seq::<Seq<char>>::empty());
                assert(lines_of(s) =~= seq![s]);
            }
        } else {
            lemma_lines_split(t, n - 1);
            let rest = lines_of(t);
            assert(rest == seq![t.take(n - 1)] + lines_of(t.skip(n)));
            assert(rest.len() >= 1);
            assert(rest[0] == t.take(n - 1));
            assert(seq![s[0]] + t.take(n - 1) =~= s.take(n));
            assert(t.skip(n) =~= s.skip(n + 1));
            assert(rest.drop_first() =~= lines_of(t.skip(n)));
            assert(lines_of(s) =~= seq![s.take(n)] + lines_of(s.skip(n + 1)));
        }
    }
}

/// If every character before `j` is valid and the one at `j` (if any) is
/// not, then `j` is the first invalid index (or the length).
proof fn lemma_first_invalid(line: Seq<char>, j: int)
    requires
        0 <= j <= line.len(),
        forall|k: int| 0 <= k < j ==> valid_cell_char(line[k]),
        j < line.len() ==> !valid_cell_char(line[j]),
    ensures
        first_invalid(line) == j,
    decreases j,
{
    if j > 0 {
        let t = line.drop_first();
        assert(forall|k: int| 0 <= k < j - 1 ==> t[k] == line[k + 1]);
        lemma_first_invalid(t, j - 1);
    }
}

/// No row is longer than the longest.
proof fn lemma_max_row_len_bound(rows: Seq<Seq<CellState>>)
    ensures
        max_row_len(rows) >= 0,
        forall|i: int| 0 <= i < rows.len() ==> (#[trigger] rows[i]).len() <= max_row_len(rows),
    decreases rows.len(),
{
    if rows.len() > 0 {
        lemma_max_row_len_bound(rows.drop_last());
        assert forall|i: int| 0 <= i < rows.len() implies (#[trigger] rows[i]).len()
            <= max_row_len(rows) by {
            if i < rows.len() - 1 {
                assert(rows.drop_last()[i] == rows[i]);
            } else {
                assert(rows.last() == rows[i]);
            }
        }
    }
}

/// A found first cell line lies within the input, is not empty, and does
/// not begin a comment.
proof fn lemma_first_cell_line_ok(lines: Seq<Seq<char>>, i: int)
    requires
        0 <= i,
        first_cell_line(lines, i) is Ok,
    ensures
        ({
            let f = first_cell_line(lines, i)->Ok_0;
            &&& i <= f < lines.len()
            &&& lines[f].len() > 0
            &&& lines[f][0] != '!'
        }),
    decreases lines.len() - i,
{
    if i < lines.len() && lines[i].len() > 0 && lines[i][0] == '!' {
        lemma_first_cell_line_ok(lines, i + 1);
    }
}

/// A block that starts at a non-empty line yields at least one raw row,
/// whose length is that line's length.
proof fn lemma_collect_rows_first(lines: Seq<Seq<char>>, i: int)
    requires
        0 <= i < lines.len(),
        lines[i].len() > 0,
        collect_rows(lines, i) is Ok,
    ensures
        collect_rows(lines, i)->Ok_0.len() >= 1,
        collect_rows(lines, i)->Ok_0[0].len() == lines[i].len(),
{
}

/// Rectangularity: a successful parse yields a well-formed grid with as
/// many rows as were collected, every row of the same length — that of the
/// longest raw row — each raw row kept as a prefix, and the rest of each
/// row dead.
pub proof fn lemma_parse_rectangular(s: Seq<char>)
    requires
        parse_life_spec(s) is Ok,
    ensures
        grid_wf(parse_life_spec(s)->Ok_0),
        ({
            let g = parse_life_spec(s)->Ok_0;
            let lines = lines_of(s);
            let f = first_cell_line(lines, 0)->Ok_0;
            let raw = collect_rows(lines, f)->Ok_0;
            let w = max_row_len(raw);
            &&& g.len() == raw.len()
            &&& forall|i: int| 0 <= i < g.len() ==> (#[trigger] g[i]).len() == w
            &&& forall|i: int| 0 <= i < g.len() ==> (#[trigger] raw[i]).len() <= w
            &&& forall|i: int, j: int|
                0 <= i < g.len() && 0 <= j < raw[i].len() ==> #[trigger] g[i][j] == raw[i][j]
            &&& forall|i: int, j: int|
                0 <= i < g.len() && raw[i].len() <= j < w ==> #[trigger] g[i][j]
                    == CellState::Dead
        }),
{
    let g = parse_life_spec(s)->Ok_0;
    let lines = lines_of(s);
    let f = first_cell_line(lines, 0)->Ok_0;
    let raw = collect_rows(lines, f)->Ok_0;
    let w = max_row_len(raw);
    lemma_max_row_len_bound(raw);
    lemma_first_cell_line_ok(lines, 0);
    lemma_collect_rows_first(lines, f);
    assert(raw[0].len() <= w);
    assert forall|i: int| 0 <= i < g.len() implies (#[trigger] g[i]).len() == w by {
        assert(g[i] == pad_row(raw[i], w));
    }
    assert(g[0].len() == w);
    assert(w >= raw[0].len() >= 1);
}

/// The deep view of a line of characters is its plain view.
proof fn lemma_char_row_deep_view(r: Vec<char>)
    ensures
        r.deep_view() == r@,
{
    assert(r.deep_view() =~= r@);
}

/// Collect the characters of a string into a vector.
fn chars_of(s: &str) -> (v: Vec<char>)
    ensures
        v@ == s@,
{
    let mut v: Vec<char> = Vec::new();
    for c in it: s.chars()
        invariant
            it.seq() == s@,
            v@ == it.seq().take(it.index() as int),
    {
        proof {
            assert(it.seq().take(it.index() as int + 1) =~= it.seq().take(it.index() as int).push(
                it.seq()[it.index() as int],
            ));
        }
        v.push(c);
    }
    proof {
        assert(v@ =~= s@);
    }
    v
}

/// Break a character vector into its lines, splitting on newlines.
fn split_lines(v: &Vec<char>) -> (lines: Vec<Vec<char>>)
    ensures
        lines.deep_view() == lines_of(v@),
{
    let mut lines: Vec<Vec<char>> = Vec::new();
    let mut i: usize = 0;
    proof {
        assert(lines.deep_view() =~= Seq::<Seq<char>>::empty());
        assert(v@.skip(0) =~= v@);
        assert(Seq::<Seq<char>>::empty() + lines_of(v@) =~= lines_of(v@));
    }
    while i < v.len()
        invariant
            i <= v@.len(),
            lines_of(v@) == lines.deep_view() + lines_of(v@.skip(i as int)),
        decreases v@.len() - i,
    {
        let mut j: usize = i;
        while j < v.len() && v[j] != '\n'
            invariant
                i <= j <= v@.len(),
                forall|k: int| i <= k < j ==> v@[k] != '\n',
            decreases v@.len() - j,
        {
            j += 1;
        }
        let mut line: Vec<char> = Vec::new();
        let mut k: usize = i;
        while k < j
            invariant
                i <= k <= j <= v@.len(),
                line@ == v@.subrange(i as int, k as int),
            decreases j - k,
        {
            line.push(v[k]);
            proof {
                assert(line@ =~= v@.subrange(i as int, k as int + 1));
            }
            k += 1;
        }
        let ghost t = v@.skip(i as int);
        proof {
            assert forall|m: int| 0 <= m < j - i implies t[m] != '\n' by {
                assert(t[m] == v@[i + m]);
            }
            assert(j < v@.len() ==> t[j - i] == v@[j as int]);
            lemma_lines_split(t, j - i);
            assert(line@ =~= t.take(j - i));
            if j == v@.len() {
                assert(line@ =~= t);
            }
        }
        let ghost prev = lines.deep_view();
        let ghost prevat = lines@;
        lines.push(line);
        proof {
            assert forall|m: int| 0 <= m < lines@.len() implies #[trigger] lines.deep_view()[m]
                == prev.push(line@)[m] by {
                lemma_char_row_deep_view(lines@[m]);
                if m < prevat.len() {
                    lemma_char_row_deep_view(prevat[m]);
                    assert(prev[m] == prevat[m].deep_view());
                }
            }
            assert(lines.deep_view() =~= prev.push(line@));
        }
        if j < v.len() {
            proof {
                assert(t.skip(j - i + 1) =~= v@.skip(j + 1));
                assert(lines_of(t) == seq![line@] + lines_of(v@.skip(j + 1)));
                assert(prev + lines_of(t) =~= prev.push(line@) + lines_of(v@.skip(j + 1)));
            }
            i = j + 1;
        } else {
            proof {
                assert(lines_of(t) == seq![line@]);
                assert(prev + lines_of(t) =~= prev.push(line@));
                assert(v@.skip(v@.len() as int).len() == 0);
                assert(lines_of(v@.skip(v@.len() as int)) == Seq::<Seq<char>>::empty());
                assert(prev.push(line@) + lines_of(v@.skip(v@.len() as int)) =~= prev.push(
                    line@,
                ));
            }
            i = j;
        }
    }
    proof {
        assert(v@.skip(i as int).len() == 0);
        assert(lines_of(v@.skip(i as int)) == Seq::<Seq<char>>::empty());
        assert(lines.deep_view() =~= lines.deep_view() + lines_of(v@.skip(i as int)));
    }
    lines
}

/// Parse one line as a row of cells: `.` is dead, `O` is alive, anything
/// else is returned as the offending character.
fn parse_row(line: &Vec<char>) -> (r: Result<Vec<CellState>, char>)
    ensures
        match r {
            Ok(row) => parse_row_spec(line@) == Ok::<Seq<CellState>, char>(row@),
            Err(ch) => parse_row_spec(line@) == Err::<Seq<CellState>, char>(ch),
        },
{
    let mut row: Vec<CellState> = Vec::new();
    let mut j: usize = 0;
    while j < line.len()
        invariant
            j <= line@.len(),
            row@.len() == j,
            forall|k: int| 0 <= k < j ==> valid_cell_char(line@[k]),
            forall|k: int| 0 <= k < j ==> row@[k] == cell_of(line@[k]),
        decreases line@.len() - j,
    {
        let ch = line[j];
        if ch == '.' {
            row.push(CellState::Dead);
        } else if ch == 'O' {
            row.push(CellState::Alive);
        } else {
            proof {
                lemma_first_invalid(line@, j as int);
            }
            return Err(ch);
        }
        j += 1;
    }
    proof {
        lemma_first_invalid(line@, line@.len() as int);
        assert(row@ =~= Seq::new(line@.len(), |k: int| cell_of(line@[k])));
    }
    Ok(row)
}

/// Right-pad a row with dead cells up to width `w`.
fn pad_to(row: &mut Vec<CellState>, w: usize)
    requires
        old(row)@.len() <= w,
    ensures
        final(row)@ == pad_row(old(row)@, w as int),
{
    let ghost orig = row@;
    proof {
        assert(row@ =~= orig + Seq::new((row@.len() - orig.len()) as nat, |k: int| CellState::Dead));
    }
    while row.len() < w
        invariant
            orig.len() <= row@.len() <= w,
            row@ == orig + Seq::new((row@.len() - orig.len()) as nat, |k: int| CellState::Dead),
        decreases w - row@.len(),
    {
        row.push(CellState::Dead);
        proof {
            assert(row@ =~= orig + Seq::new(
                (row@.len() - orig.len()) as nat,
                |k: int| CellState::Dead,
            ));
        }
    }
    proof {
        assert(row@ =~= pad_row(orig, w as int));
    }
}

/// Find the first line that does not begin a comment, skipping `!` lines.
fn find_first_cell_line(lines: &Vec<Vec<char>>) -> (r: Result<usize, ParseError>)
    ensures
        match r {
            Ok(f) => first_cell_line(lines.deep_view(), 0) == Ok::<int, ParseError>(f as int)
                && f < lines@.len(),
            Err(e) => first_cell_line(lines.deep_view(), 0) == Err::<int, ParseError>(e),
        },
{
    let ghost lv = lines.deep_view();
    let mut f: usize = 0;
    while f < lines.len()
        invariant
            lv == lines.deep_view(),
            lv.len() == lines@.len(),
            f <= lines@.len(),
            first_cell_line(lv, f as int) == first_cell_line(lv, 0),
        decreases lines@.len() - f,
    {
        proof {
            assert(lv[f as int] == lines@[f as int].deep_view());
            lemma_char_row_deep_view(lines@[f as int]);
        }
        if lines[f].len() == 0 {
            return Err(ParseError::UnexpectedEmptyLine);
        }
        if lines[f][0] != '!' {
            return Ok(f);
        }
        f += 1;
    }
    Err(ParseError::UnexpectedEndOfInput)
}

/// Collect the raw cell rows of the block that starts at line `f`.
fn collect_raw_rows(lines: &Vec<Vec<char>>, f: usize) -> (r: Result<
    Vec<Vec<CellState>>,
    ParseError,
>)
    requires
        f <= lines@.len(),
    ensures
        match r {
            Ok(raw) => collect_rows(lines.deep_view(), f as int) == Ok::<
                Seq<Seq<CellState>>,
                ParseError,
            >(raw.deep_view()),
            Err(e) => collect_rows(lines.deep_view(), f as int) == Err::<
                Seq<Seq<CellState>>,
                ParseError,
            >(e),
        },
{
    let ghost lv = lines.deep_view();
    let mut raw: Vec<Vec<CellState>> = Vec::new();
    let mut i: usize = f;
    loop
        invariant
            f <= i <= lines@.len(),
            lv == lines.deep_view(),
            lv.len() == lines@.len(),
            collect_rows(lv, f as int) == (match collect_rows(lv, i as int) {
                Ok(rest) => Ok::<Seq<Seq<CellState>>, ParseError>(raw.deep_view() + rest),
                Err(e) => Err::<Seq<Seq<CellState>>, ParseError>(e),
            }),
        ensures
            collect_rows(lv, f as int) == Ok::<Seq<Seq<CellState>>, ParseError>(raw.deep_view()),
        decreases lines@.len() - i,
    {
        if i == lines.len() {
            proof {
                assert(collect_rows(lv, i as int) == Ok::<Seq<Seq<CellState>>, ParseError>(
                    Seq::empty(),
                ));
                assert(raw.deep_view() + Seq::<Seq<CellState>>::empty() =~= raw.deep_view());
            }
            break;
        }
        proof {
            assert(lv[i as int] == lines@[i as int].deep_view());
            lemma_char_row_deep_view(lines@[i as int]);
        }
        if lines[i].len() == 0 {
            proof {
                assert(collect_rows(lv, i as int) == Ok::<Seq<Seq<CellState>>, ParseError>(
                    Seq::empty(),
                ));
                assert(raw.deep_view() + Seq::<Seq<CellState>>::empty() =~= raw.deep_view());
            }
            break;
        }
        match parse_row(&lines[i]) {
            Err(ch) => {
                return Err(ParseError::InvalidCellCharacter { character: ch, line: i + 1 });
            },
            Ok(row) => {
                let ghost prev = raw.deep_view();
                let ghost prevat = raw@;
                let ghost rowv = row@;
                raw.push(row);
                proof {
                    assert forall|m: int|
                        0 <= m < raw@.len() implies #[trigger] raw.deep_view()[m] == prev.push(
                        rowv,
                    )[m] by {
                        crate::grid::lemma_row_deep_view(raw@[m]);
                        if m < prevat.len() {
                            crate::grid::lemma_row_deep_view(prevat[m]);
                            assert(prev[m] == prevat[m].deep_view());
                        }
                    }
                    assert(raw.deep_view() =~= prev.push(rowv));
                    if collect_rows(lv, i as int + 1) is Ok {
                        let rest = collect_rows(lv, i as int + 1)->Ok_0;
                        assert(prev + (seq![rowv] + rest) =~= prev.push(rowv) + rest);
                    }
                }
                i += 1;
            },
        }
    }
    Ok(raw)
}

/// Parse a textual Life description into a grid of cells.
///
/// Lines that begin with `!` before the cell block are skipped as comments.
/// The first other line opens the block: `.` is a dead cell, `O` an alive
/// one, and any other character is rejected. The block ends at the first
/// empty line or at the end of the input; whatever follows a terminating
/// empty line is ignored. Shorter rows are right-padded with dead cells to
/// the longest raw row, so a returned grid is rectangular and well-formed.
/// The result, success or error, is exactly [`parse_life_spec`] of the
/// input's characters.
pub fn parse_life(input: String) -> (r: Result<Cells, ParseError>)
    ensures
        match r {
            Ok(cells) => {
                &&& parse_life_spec(input@) == Ok::<Seq<Seq<CellState>>, ParseError>(
                    cells.deep_view(),
                )
                &&& grid_wf(cells.deep_view())
            },
            Err(e) => parse_life_spec(input@) == Err::<Seq<Seq<CellState>>, ParseError>(e),
        },
{
    let chars = chars_of(input.as_str());
    let lines = split_lines(&chars);
    let ghost lv = lines.deep_view();
    let f = match find_first_cell_line(&lines) {
        Err(e) => {
            return Err(e);
        },
        Ok(f) => f,
    };
    let mut raw = match collect_raw_rows(&lines, f) {
        Err(e) => {
            return Err(e);
        },
        Ok(raw) => raw,
    };
    let ghost rdv = raw.deep_view();

    // The width of the widest raw row.
    let mut w: usize = 0;
    let mut i: usize = 0;
    proof {
        assert(rdv.take(0).len() == 0);
        assert(max_row_len(rdv.take(0)) == 0);
    }
    while i < raw.len()
        invariant
            i <= raw@.len(),
            rdv == raw.deep_view(),
            rdv.len() == raw@.len(),
            w == max_row_len(rdv.take(i as int)),
        decreases raw@.len() - i,
    {
        proof {
            assert(rdv[i as int] == raw@[i as int].deep_view());
            crate::grid::lemma_row_deep_view(raw@[i as int]);
            assert(rdv.take(i as int + 1).drop_last() =~= rdv.take(i as int));
            assert(rdv.take(i as int + 1).last() == rdv[i as int]);
        }
        if raw[i].len() > w {
            w = raw[i].len();
        }
        i += 1;
    }
    proof {
        assert(rdv.take(rdv.len() as int) =~= rdv);
        lemma_max_row_len_bound(rdv);
    }

    // Pad every row to that width.
    let mut idx: usize = 0;
    while idx < raw.len()
        invariant
            idx <= raw@.len(),
            raw@.len() == rdv.len(),
            w == max_row_len(rdv),
            forall|k: int| 0 <= k < rdv.len() ==> (#[trigger] rdv[k]).len() <= w,
            forall|k: int| idx <= k < rdv.len() ==> #[trigger] raw.deep_view()[k] == rdv[k],
            forall|k: int|
                0 <= k < idx ==> #[trigger] raw.deep_view()[k] == pad_row(rdv[k], w as int),
        decreases raw@.len() - idx,
    {
        proof {
            assert(raw.deep_view()[idx as int] == raw@[idx as int].deep_view());
            crate::grid::lemma_row_deep_view(raw@[idx as int]);
            assert(raw@[idx as int]@ == rdv[idx as int]);
        }
        let ghost prevat = raw@;
        let ghost prev = raw.deep_view();
        pad_to(&mut raw[idx], w);
        proof {
            assert forall|m: int|
                0 <= m < raw@.len() implies #[trigger] raw.deep_view()[m] == (if m == idx as int {
                pad_row(rdv[m], w as int)
            } else {
                prev[m]
            }) by {
                crate::grid::lemma_row_deep_view(raw@[m]);
                crate::grid::lemma_row_deep_view(prevat[m]);
                assert(prev[m] == prevat[m].deep_view());
                if m != idx as int {
                    assert(raw@[m] == prevat[m]);
                }
            }
        }
        idx += 1;
    }
    proof {
        assert(raw.deep_view() =~= pad_rows(rdv, w as int));
        lemma_parse_rectangular(input@);
    }
    Ok(raw)
}

} // verus!
