use vstd::prelude::*;
use vstd::string::StrSliceExecFns;

verus! {

/// The character drawn for a cell: its own character, or `'.'` when empty.
pub open spec fn cell_char(cell: Option<char>) -> char {
    match cell {
        Some(c) => c,
        None => '.',
    }
}

/// One past the index of the last non-empty cell of a row, 0 when there is none.
pub open spec fn last_filled(row: Seq<Option<char>>) -> int
    decreases row.len(),
{
    if row.len() == 0 {
        0
    } else if row.last() is Some {
        row.len() as int
    } else {
        last_filled(row.drop_last())
    }
}

/// Length of the drawn line of row `r`: up to its last non-empty cell, and at
/// least `pad_to` cells when the row is one of the first `pad_to` rows.
pub open spec fn line_len(row: Seq<Option<char>>, r: int, pad_to: int) -> int {
    let pad = if r < pad_to {
        pad_to
    } else {
        0
    };
    if pad >= last_filled(row) {
        pad
    } else {
        last_filled(row)
    }
}

/// The drawn line of row `r`, without its line break.
pub open spec fn line(row: Seq<Option<char>>, r: int, pad_to: int) -> Seq<char> {
    Seq::new(line_len(row, r, pad_to) as nat, |c: int| cell_char(row[c]))
}

/// The drawn lines of the first `n` rows, each followed by a line break.
pub open spec fn text_upto(rows: Seq<Seq<Option<char>>>, pad_to: int, n: nat) -> Seq<char>
    decreases n,
{
    if n == 0 {
        Seq::empty()
    } else {
        text_upto(rows, pad_to, (n - 1) as nat) + line(rows[n - 1], n - 1, pad_to) + seq!['\n']
    }
}

/// One past the index of the last row whose drawn line is not empty, 0 when there is none.
pub open spec fn last_line(rows: Seq<Seq<Option<char>>>, pad_to: int) -> nat
    decreases rows.len(),
{
    if rows.len() == 0 {
        0
    } else if line_len(rows.last(), rows.len() - 1, pad_to) > 0 {
        rows.len()
    } else {
        last_line(rows.drop_last(), pad_to)
    }
}

/// The text drawn for a grid of cells: every row up to the last one with a
/// non-empty line, each line followed by a line break.
pub open spec fn ascii_text(rows: Seq<Seq<Option<char>>>, pad_to: int) -> Seq<char> {
    text_upto(rows, pad_to, last_line(rows, pad_to))
}

/// The cells of a vector of rows.
pub open spec fn rows_of(rows: Seq<Vec<Option<char>>>) -> Seq<Seq<Option<char>>> {
    rows.map_values(|v: Vec<Option<char>>| v@)
}

/// Row and column of the character at index `i` of a text: rows are separated
/// by line breaks, columns count the characters since the last line break.
pub open spec fn cursor(s: Seq<char>, i: nat) -> (int, int)
    decreases i,
{
    if i == 0 {
        (0, 0)
    } else {
        let prev = cursor(s, (i - 1) as nat);
        if s[i - 1] == '\n' {
            (prev.0 + 1, 0)
        } else {
            (prev.0, prev.1 + 1)
        }
    }
}

/// The row and column of every occurrence of `ch` in a text.
pub open spec fn marked_cells(s: Seq<char>, ch: char) -> Set<(int, int)> {
    Set::new(
        |p: (int, int)| exists|i: int| 0 <= i < s.len() && s[i] == ch && #[trigger] cursor(s, i as nat) == p,
    )
}

/// `String::from_iter` over the characters of a vector: a string of those characters.
#[verifier::external_body]
fn string_from_chars(chars: &Vec<char>) -> (s: String)
    ensures
        s@ == chars@,
{
    chars.iter().collect()
}

pub(crate) proof fn lemma_last_filled(row: Seq<Option<char>>, k: int)
    requires
        0 <= k <= row.len(),
    ensures
        0 <= last_filled(row) <= row.len(),
        (forall|c: int| k <= c < row.len() ==> row[c] is None) ==> last_filled(row) <= k,
        (k > 0 && row[k - 1] is Some) ==> last_filled(row) >= k,
        last_filled(row) > 0 ==> row[last_filled(row) - 1] is Some,
    decreases row.len(),
{
    if row.len() > 0 {
        let k2 = if k == row.len() {
            k - 1
        } else {
            k
        };
        lemma_last_filled(row.drop_last(), k2);
        if row.last() is None {
            if k == row.len() && k > 0 && row[k - 1] is Some {
                assert(false);
            }
            if forall|c: int| k <= c < row.len() ==> row[c] is None {
                if k < row.len() {
                    assert forall|c: int| k <= c < row.len() - 1 implies row.drop_last()[c] is None by {
                        assert(row[c] is None);
                    }
                }
            }
        } else {
            if k < row.len() && forall|c: int| k <= c < row.len() ==> row[c] is None {
                assert(row[row.len() - 1] is None);
            }
        }
    }
}

proof fn lemma_last_line(rows: Seq<Seq<Option<char>>>, pad_to: int, n: nat)
    requires
        n <= rows.len(),
        n == 0 || line_len(rows[n - 1], n - 1, pad_to) > 0,
        forall|r: int| n <= r < rows.len() ==> line_len(#[trigger] rows[r], r, pad_to) == 0,
    ensures
        last_line(rows, pad_to) == n,
    decreases rows.len(),
{
    if rows.len() > n {
        let d = rows.drop_last();
        assert(line_len(rows[rows.len() - 1], rows.len() - 1, pad_to) == 0);
        assert forall|r: int| n <= r < d.len() implies line_len(#[trigger] d[r], r, pad_to) == 0 by {
            assert(d[r] == rows[r]);
        }
        if n > 0 {
            assert(d[n - 1] == rows[n - 1]);
        }
        lemma_last_line(d, pad_to, n);
    }
}

proof fn lemma_text_empty_lines(rows: Seq<Seq<Option<char>>>, pad_to: int, n: nat, m: nat)
    requires
        n <= m <= rows.len(),
        forall|r: int| n <= r < m ==> line_len(#[trigger] rows[r], r, pad_to) == 0,
    ensures
        text_upto(rows, pad_to, m) == text_upto(rows, pad_to, n) + Seq::new(
            (m - n) as nat,
            |i: int| '\n',
        ),
    decreases m,
{
    if m > n {
        lemma_text_empty_lines(rows, pad_to, n, (m - 1) as nat);
        assert(line(rows[m - 1], m - 1, pad_to) =~= Seq::<char>::empty());
        assert(text_upto(rows, pad_to, m) =~= text_upto(rows, pad_to, n) + Seq::new(
            (m - n) as nat,
            |i: int| '\n',
        ));
    } else {
        assert(text_upto(rows, pad_to, m) =~= text_upto(rows, pad_to, n) + Seq::new(
            (m - n) as nat,
            |i: int| '\n',
        ));
    }
}

/// Helper to format a grid of cells to ascii.
/// Empty positions are drawn as `'.'` if within a `pad_to` by `pad_to` square,
/// otherwise only if followed by a set position.
/// Panics on out of range (> 16) `pad_to` or if `rows` or any of the first `pad_to`
/// rows has less entries than `pad_to`.
pub fn format_ascii_helper(rows: &Vec<Vec<Option<char>>>, pad_to: usize) -> (s: String)
    requires
        pad_to <= 16,
        rows@.len() >= pad_to,
        forall|r: int| 0 <= r < pad_to ==> (#[trigger] rows@[r])@.len() >= pad_to,
    ensures
        s@ == ascii_text(rows_of(rows@), pad_to as int),
{
    let ghost cells = rows_of(rows@);
    let ghost pad = pad_to as int;
    let mut result: Vec<char> = Vec::new();
    let mut pending_rows: usize = 0;
    let mut row: usize = 0;
    while row < rows.len()
        invariant
            cells == rows_of(rows@),
            pad == pad_to as int,
            pad_to <= 16,
            rows@.len() >= pad_to,
            forall|r: int| 0 <= r < pad_to ==> (#[trigger] rows@[r])@.len() >= pad_to,
            row <= rows@.len(),
            pending_rows <= row,
            result@ == text_upto(cells, pad, (row - pending_rows) as nat),
            forall|r: int| row - pending_rows <= r < row ==> line_len(#[trigger] cells[r], r, pad) == 0,
            row - pending_rows == 0 || line_len(
                cells[row - pending_rows - 1],
                row - pending_rows - 1,
                pad,
            ) > 0,
            row <= pad_to ==> pending_rows == 0,
        decreases rows@.len() - row,
    {
        let row_data = &rows[row];
        let ghost cur = cells[row as int];
        assert(cur == row_data@);
        let ghost base = result@;
        let ghost emitted = (row - pending_rows) as int;
        let mut pending_cols: usize = 0;
        let mut is_row_empty = true;
        let mut col: usize = 0;
        while col < row_data.len()
            invariant
                cells == rows_of(rows@),
                pad == pad_to as int,
                row < rows@.len(),
                cur == cells[row as int],
                cur == row_data@,
                row_data == rows@[row as int],
                rows@.len() >= pad_to,
                row < pad_to ==> row_data@.len() >= pad_to,
                col <= row_data@.len(),
                0 <= emitted <= row,
                row <= pad_to ==> emitted == row,
                is_row_empty ==> pending_rows == row - emitted,
                !is_row_empty ==> pending_rows == 0,
                base == text_upto(cells, pad, emitted as nat),
                forall|r: int| emitted <= r < row ==> line_len(#[trigger] cells[r], r, pad) == 0,
                pending_cols <= col,
                forall|c: int|
                    col - pending_cols <= c < col ==> cur[c] is None && !(row < pad_to && c < pad_to),
                (row < pad_to && col <= pad_to) ==> pending_cols == 0,
                is_row_empty ==> pending_cols == col && result@ == base,
                !is_row_empty ==> {
                    &&& col - pending_cols > 0
                    &&& result@ == text_upto(cells, pad, row as nat) + Seq::new(
                        (col - pending_cols) as nat,
                        |c: int| cell_char(cur[c]),
                    )
                    &&& (cur[col - pending_cols - 1] is Some || (row < pad_to && col - pending_cols
                        <= pad_to))
                },
            decreases row_data@.len() - col,
        {
            let cell = row_data[col];
            match cell {
                Some(ch) => {
                    if is_row_empty {
                        proof {
                            lemma_text_empty_lines(
                                cells,
                                pad,
                                (row - pending_rows) as nat,
                                row as nat,
                            );
                        }
                        let mut k: usize = 0;
                        while k < pending_rows
                            invariant
                                k <= pending_rows,
                                result@ == base + Seq::new(k as nat, |i: int| '\n'),
                            decreases pending_rows - k,
                        {
                            result.push('\n');
                            proof {
                                assert(result@ =~= base + Seq::new((k + 1) as nat, |i: int| '\n'));
                            }
                            k += 1;
                        }
                        pending_rows = 0;
                        assert(result@ == text_upto(cells, pad, row as nat));
                    }
                    let ghost before = result@;
                    let ghost start = (col - pending_cols) as int;
                    let mut k: usize = 0;
                    while k < pending_cols
                        invariant
                            k <= pending_cols,
                            pending_cols <= col,
                            col < cur.len(),
                            start == col - pending_cols,
                            forall|c: int| start <= c < col ==> cur[c] is None,
                            result@ == before + Seq::new(k as nat, |i: int| '.'),
                        decreases pending_cols - k,
                    {
                        result.push('.');
                        proof {
                            assert(result@ =~= before + Seq::new((k + 1) as nat, |i: int| '.'));
                        }
                        k += 1;
                    }
                    pending_cols = 0;
                    result.push(ch);
                    proof {
                        let want = text_upto(cells, pad, row as nat) + Seq::new(
                            (col + 1) as nat,
                            |c: int| cell_char(cur[c]),
                        );
                        assert(result@ =~= want);
                    }
                    is_row_empty = false;
                },
                None => {
                    if row < pad_to && col < pad_to {
                        assert(pending_rows == 0);
                        assert(pending_cols == 0);
                        result.push('.');
                        proof {
                            if is_row_empty {
                                assert(base == text_upto(cells, pad, row as nat));
                            }
                            let want = text_upto(cells, pad, row as nat) + Seq::new(
                                (col + 1) as nat,
                                |c: int| cell_char(cur[c]),
                            );
                            assert(result@ =~= want);
                        }
                        is_row_empty = false;
                    } else {
                        pending_cols += 1;
                    }
                },
            }
            col += 1;
        }
        proof {
            let k = (col - pending_cols) as int;
            lemma_last_filled(cur, k);
            if is_row_empty {
                if row < pad_to {
                    assert(pad_to > 0);
                    assert(cur[0] is None);
                }
                assert(line_len(cur, row as int, pad) == 0);
            } else {
                assert(last_filled(cur) <= k);
                if row < pad_to {
                    if k < cur.len() {
                        assert(col == cur.len());
                        assert(cur[k] is None);
                        assert(!(row < pad_to && k < pad_to));
                    }
                    assert(pad_to <= k);
                }
                if cur[k - 1] is Some {
                    assert(last_filled(cur) >= k);
                } else {
                    assert(row < pad_to);
                }
                assert(line_len(cur, row as int, pad) == k);
                assert(line(cur, row as int, pad) =~= Seq::new(k as nat, |c: int| cell_char(cur[c])));
            }
        }
        if is_row_empty {
            pending_rows += 1;
        } else {
            result.push('\n');
            proof {
                assert(result@ =~= text_upto(cells, pad, (row + 1) as nat));
            }
        }
        row += 1;
    }
    proof {
        lemma_last_line(cells, pad, (row - pending_rows) as nat);
    }
    string_from_chars(&result)
}

/// The row and column of the occurrences of `ch` among the first `n` characters of a text.
pub open spec fn marked_upto(s: Seq<char>, ch: char, n: int) -> Set<(int, int)> {
    Set::new(
        |p: (int, int)| exists|i: int| 0 <= i < n && s[i] == ch && #[trigger] cursor(s, i as nat) == p,
    )
}

/// The cursor never runs ahead of the text.
pub proof fn lemma_cursor_bound(s: Seq<char>, i: nat)
    ensures
        0 <= cursor(s, i).0,
        0 <= cursor(s, i).1,
        cursor(s, i).0 + cursor(s, i).1 <= i,
    decreases i,
{
    if i > 0 {
        lemma_cursor_bound(s, (i - 1) as nat);
    }
}

/// A text reader that follows the cursor: the character at index `i`, with the
/// cursor moved past it.
pub fn step_cursor(s: &str, i: usize, row: usize, col: usize) -> (r: (char, usize, usize))
    requires
        i < s@.len(),
        s@.len() <= usize::MAX,
        (row as int, col as int) == cursor(s@, i as nat),
    ensures
        r.0 == s@[i as int],
        (r.1 as int, r.2 as int) == cursor(s@, (i + 1) as nat),
{
    proof {
        lemma_cursor_bound(s@, i as nat);
    }
    let c = s.get_char(i);
    if c == '\n' {
        (c, row + 1, 0)
    } else {
        (c, row, col + 1)
    }
}

/// The cells whose drawn character is `ch`: row, and column within the drawn line.
pub open spec fn drawn_cells(rows: Seq<Seq<Option<char>>>, pad_to: int, ch: char) -> Set<(int, int)> {
    Set::new(
        |p: (int, int)|
            0 <= p.0 < rows.len() && 0 <= p.1 < line_len(rows[p.0], p.0, pad_to) && cell_char(
                rows[p.0][p.1],
            ) == ch,
    )
}

/// The cursor at index `i` only depends on the characters before it.
proof fn lemma_cursor_prefix(s1: Seq<char>, s2: Seq<char>, i: nat)
    requires
        i <= s1.len(),
        i <= s2.len(),
        s1.take(i as int) == s2.take(i as int),
    ensures
        cursor(s1, i) == cursor(s2, i),
    decreases i,
{
    if i > 0 {
        assert(s1.take(i - 1) =~= s1.take(i as int).take(i - 1));
        assert(s2.take(i - 1) =~= s2.take(i as int).take(i - 1));
        lemma_cursor_prefix(s1, s2, (i - 1) as nat);
        assert(s1[i - 1] == s1.take(i as int)[i - 1]);
        assert(s2[i - 1] == s2.take(i as int)[i - 1]);
    }
}

/// Within a line without line breaks that starts at index `start` with the cursor at
/// `(r, 0)`, the cursor counts columns.
proof fn lemma_cursor_line(s: Seq<char>, start: nat, len: nat, r: int, j: nat)
    requires
        start + len <= s.len(),
        cursor(s, start) == (r, 0int),
        forall|k: int| start <= k < start + len ==> s[k] != '\n',
        j <= len,
    ensures
        cursor(s, start + j) == (r, j as int),
    decreases j,
{
    if j > 0 {
        lemma_cursor_line(s, start, len, r, (j - 1) as nat);
        assert((start + j - 1) as nat == start + (j - 1));
    }
}

/// The occurrences of `ch` in the drawn lines of the first `n` rows, and the cursor at
/// the end of them.
proof fn lemma_text_upto_marks(rows: Seq<Seq<Option<char>>>, pad_to: int, n: nat, ch: char)
    requires
        n <= rows.len(),
        ch != '\n',
        forall|r: int, c: int|
            0 <= r < rows.len() && 0 <= c < rows[r].len() ==> #[trigger] rows[r][c] != Some('\n'),
        forall|r: int| 0 <= r < rows.len() ==> line_len(#[trigger] rows[r], r, pad_to) <= rows[r].len(),
    ensures
        cursor(text_upto(rows, pad_to, n), text_upto(rows, pad_to, n).len()) == (n as int, 0int),
        marked_cells(text_upto(rows, pad_to, n), ch) == Set::new(
            |p: (int, int)|
                0 <= p.0 < n && 0 <= p.1 < line_len(rows[p.0], p.0, pad_to) && cell_char(
                    rows[p.0][p.1],
                ) == ch,
        ),
    decreases n,
{
    let want = Set::new(
        |p: (int, int)|
            0 <= p.0 < n && 0 <= p.1 < line_len(rows[p.0], p.0, pad_to) && cell_char(rows[p.0][p.1])
                == ch,
    );
    if n == 0 {
        assert(marked_cells(text_upto(rows, pad_to, 0), ch) =~= want);
    } else {
        let prev = text_upto(rows, pad_to, (n - 1) as nat);
        lemma_text_upto_marks(rows, pad_to, (n - 1) as nat, ch);
        let l = line(rows[n - 1], n - 1, pad_to);
        let t = text_upto(rows, pad_to, n);
        assert(t == prev + l + seq!['\n']);
        let start = prev.len();
        assert(t.take(start as int) =~= prev);
        assert(prev.take(start as int) =~= prev);
        lemma_cursor_prefix(t, prev, start);
        assert forall|k: int| start <= k < start + l.len() implies t[k] != '\n' by {
            assert(t[k] == l[k - start]);
            assert(rows[n - 1][k - start] != Some('\n'));
        }
        lemma_cursor_line(t, start, l.len(), n - 1, l.len());
        assert(t[(start + l.len()) as int] == '\n');
        assert(cursor(t, t.len()) == (n as int, 0int));
        assert forall|p: (int, int)| marked_cells(t, ch).contains(p) <==> want.contains(p) by {
            if marked_cells(t, ch).contains(p) {
                let i = choose|i: int| 0 <= i < t.len() && t[i] == ch && #[trigger] cursor(t, i as nat) == p;
                if i < start {
                    assert(t.take(i) =~= prev.take(i));
                    lemma_cursor_prefix(t, prev, i as nat);
                    assert(prev[i] == t[i]);
                    assert(marked_cells(prev, ch).contains(p));
                } else {
                    let j = i - start;
                    assert(j < l.len());
                    lemma_cursor_line(t, start, l.len(), n - 1, j as nat);
                    assert(t[i] == l[j]);
                }
            }
            if want.contains(p) {
                if p.0 < n - 1 {
                    assert(marked_cells(prev, ch).contains(p));
                    let i = choose|i: int| 0 <= i < prev.len() && prev[i] == ch && #[trigger] cursor(prev, i as nat) == p;
                    assert(t.take(i) =~= prev.take(i));
                    lemma_cursor_prefix(t, prev, i as nat);
                    assert(t[i] == prev[i]);
                    assert(cursor(t, i as nat) == p);
                } else {
                    let i = start + p.1;
                    lemma_cursor_line(t, start, l.len(), n - 1, p.1 as nat);
                    assert(t[i] == l[p.1]);
                    assert(cursor(t, i as nat) == p);
                }
            }
        }
        assert(marked_cells(t, ch) =~= want);
    }
}

proof fn lemma_last_line_bound(rows: Seq<Seq<Option<char>>>, pad_to: int)
    ensures
        last_line(rows, pad_to) <= rows.len(),
        forall|r: int|
            last_line(rows, pad_to) <= r < rows.len() ==> line_len(#[trigger] rows[r], r, pad_to)
                == 0,
    decreases rows.len(),
{
    if rows.len() > 0 {
        lemma_last_line_bound(rows.drop_last(), pad_to);
        if line_len(rows.last(), rows.len() - 1, pad_to) <= 0 {
            assert forall|r: int| last_line(rows, pad_to) <= r < rows.len() implies line_len(
                #[trigger] rows[r],
                r,
                pad_to,
            ) == 0 by {
                if r < rows.len() - 1 {
                    assert(rows.drop_last()[r] == rows[r]);
                }
                lemma_last_filled(rows[r], 0);
            }
        }
    }
}

/// Reading the drawn text back finds each character where it was drawn.
pub proof fn lemma_ascii_marks(rows: Seq<Seq<Option<char>>>, pad_to: int, ch: char)
    requires
        pad_to >= 0,
        ch != '\n',
        forall|r: int, c: int|
            0 <= r < rows.len() && 0 <= c < rows[r].len() ==> #[trigger] rows[r][c] != Some('\n'),
        forall|r: int| 0 <= r < rows.len() ==> line_len(#[trigger] rows[r], r, pad_to) <= rows[r].len(),
    ensures
        marked_cells(ascii_text(rows, pad_to), ch) == drawn_cells(rows, pad_to, ch),
{
    lemma_last_line_bound(rows, pad_to);
    let n = last_line(rows, pad_to);
    lemma_text_upto_marks(rows, pad_to, n, ch);
    assert forall|r: int| n <= r < rows.len() implies line_len(#[trigger] rows[r], r, pad_to) <= 0 by {
    }
    assert(marked_cells(ascii_text(rows, pad_to), ch) =~= drawn_cells(rows, pad_to, ch));
}

/// A drawn line reaches past every non-empty cell of its row.
pub proof fn lemma_line_covers(row: Seq<Option<char>>, r: int, pad_to: int, c: int)
    requires
        0 <= c < row.len(),
        row[c] is Some,
    ensures
        c < line_len(row, r, pad_to),
{
    lemma_last_filled(row, c + 1);
}

/// The length of a drawn line is the padding or up to the last non-empty cell.
pub proof fn lemma_line_len_bound(row: Seq<Option<char>>, r: int, pad_to: int)
    requires
        pad_to <= row.len(),
    ensures
        line_len(row, r, pad_to) <= row.len(),
{
    lemma_last_filled(row, 0);
}

/// The row before `last_line` has a non-empty line, the rows from it on have empty lines.
pub proof fn lemma_last_line_props(rows: Seq<Seq<Option<char>>>, pad_to: int)
    ensures
        last_line(rows, pad_to) <= rows.len(),
        last_line(rows, pad_to) > 0 ==> line_len(
            rows[last_line(rows, pad_to) - 1],
            last_line(rows, pad_to) - 1,
            pad_to,
        ) > 0,
        forall|r: int|
            0 <= r < rows.len() && line_len(#[trigger] rows[r], r, pad_to) > 0 ==> r < last_line(
                rows,
                pad_to,
            ),
    decreases rows.len(),
{
    lemma_last_line_bound(rows, pad_to);
    if rows.len() > 0 {
        lemma_last_line_props(rows.drop_last(), pad_to);
        let n = last_line(rows, pad_to);
        if n > 0 && n < rows.len() {
            assert(rows.drop_last()[n - 1] == rows[n - 1]);
        }
        assert forall|r: int| 0 <= r < rows.len() && line_len(#[trigger] rows[r], r, pad_to) > 0 implies r
            < last_line(rows, pad_to) by {
            if r < rows.len() - 1 {
                assert(rows.drop_last()[r] == rows[r]);
            }
        }
    }
}

/// Without padding, a non-empty line ends with the row's last non-empty cell.
pub proof fn lemma_last_filled_last(row: Seq<Option<char>>)
    ensures
        last_filled(row) > 0 ==> row[last_filled(row) - 1] is Some,
        line_len(row, 0, 0) == last_filled(row),
{
    lemma_last_filled(row, 0);
}

/// Each line of `t` ends at one of the characters `a` and `b`, or is empty, and `t`,
/// unless empty, ends with one of them and a line break: no line carries trailing
/// filler and no empty line trails.
pub open spec fn lines_end_with(t: Seq<char>, a: char, b: char) -> bool {
    &&& forall|i: int|
        1 <= i < t.len() && #[trigger] t[i] == '\n' ==> t[i - 1] == '\n' || t[i - 1] == a || t[i
            - 1] == b
    &&& t.len() > 0 ==> t.len() >= 2 && t[t.len() - 1] == '\n' && (t[t.len() - 2] == a || t[t.len()
        - 2] == b)
}

/// Every line break in the first `n` lines of compact text follows a line break or a
/// filled cell, and the text ends with a line break.
#[verifier::rlimit(60)]
proof fn lemma_compact_upto(rows: Seq<Seq<Option<char>>>, a: char, b: char, n: nat)
    requires
        n <= rows.len(),
        a != '\n',
        b != '\n',
        forall|r: int, c: int|
            0 <= r < rows.len() && 0 <= c < rows[r].len() && #[trigger] rows[r][c] is Some
                ==> rows[r][c] == Some(a) || rows[r][c] == Some(b),
    ensures
        forall|i: int|
            1 <= i < text_upto(rows, 0, n).len() && #[trigger] text_upto(rows, 0, n)[i] == '\n'
                ==> text_upto(rows, 0, n)[i - 1] == '\n' || text_upto(rows, 0, n)[i - 1] == a
                || text_upto(rows, 0, n)[i - 1] == b,
        text_upto(rows, 0, n).len() > 0 ==> text_upto(rows, 0, n)[text_upto(rows, 0, n).len() - 1]
            == '\n',
    decreases n,
{
    if n > 0 {
        lemma_compact_upto(rows, a, b, (n - 1) as nat);
        let prev = text_upto(rows, 0, (n - 1) as nat);
        let row = rows[n - 1];
        let l = line(row, n - 1, 0);
        let t = text_upto(rows, 0, n);
        assert(t == prev + l + seq!['\n']);
        lemma_last_filled(row, 0);
        assert(line_len(row, n - 1, 0) == last_filled(row));
        assert forall|i: int| 1 <= i < t.len() && #[trigger] t[i] == '\n' implies t[i - 1] == '\n'
            || t[i - 1] == a || t[i - 1] == b by {
            if i < prev.len() {
                assert(t[i] == prev[i]);
                assert(t[i - 1] == prev[i - 1]);
            } else if i < prev.len() + l.len() {
                let c = i - prev.len();
                assert(t[i] == l[c]);
                assert(l[c] == cell_char(row[c]));
                if row[c] is Some {
                    assert(rows[n - 1][c] is Some);
                }
            } else {
                if l.len() > 0 {
                    let c = l.len() - 1;
                    assert(t[i - 1] == l[c]);
                    assert(row[c] is Some);
                    assert(rows[n - 1][c] is Some);
                } else {
                    assert(t[i - 1] == prev[prev.len() - 1]);
                }
            }
        }
    }
}

/// Compact text (nothing padded) of a grid whose filled cells hold `a` or `b`: each
/// line ends at a filled cell or is empty, and the text ends at a filled cell.
pub proof fn lemma_compact_text(rows: Seq<Seq<Option<char>>>, a: char, b: char)
    requires
        a != '\n',
        b != '\n',
        forall|r: int, c: int|
            0 <= r < rows.len() && 0 <= c < rows[r].len() && #[trigger] rows[r][c] is Some
                ==> rows[r][c] == Some(a) || rows[r][c] == Some(b),
    ensures
        lines_end_with(ascii_text(rows, 0), a, b),
{
    lemma_last_line_props(rows, 0);
    let n = last_line(rows, 0);
    lemma_compact_upto(rows, a, b, n);
    if n > 0 {
        let prev = text_upto(rows, 0, (n - 1) as nat);
        let row = rows[n - 1];
        let l = line(row, n - 1, 0);
        let t = text_upto(rows, 0, n);
        assert(t == prev + l + seq!['\n']);
        lemma_last_filled(row, 0);
        assert(l.len() > 0);
        let c = l.len() - 1;
        assert(t[t.len() - 2] == l[c]);
        assert(row[c] is Some);
        assert(rows[n - 1][c] is Some);
    }
}

} // verus!
