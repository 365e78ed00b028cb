//! Rendering of statement outcomes as text: a box-drawn table for a result
//! set, one sentence for a row count. Every column is as wide as its widest
//! cell or header, and cells are right-aligned within their column.

use vstd::prelude::*;

use crate::connector::{MySqlOutputTable, MySqlResult, MySqlRowsAffected};
use crate::text::dec_digits;
use crate::text::u64_to_dec;

verus! {

/// The characters of each cell of a row.
pub open spec fn cell_views(row: Vec<String>) -> Seq<Seq<char>> {
    row@.map_values(|s: String| s@)
}

/// The characters of each header.
pub open spec fn header_views(t: MySqlOutputTable) -> Seq<Seq<char>> {
    t.headers@.map_values(|s: String| s@)
}

/// The characters of every cell of every row.
pub open spec fn row_views(t: MySqlOutputTable) -> Seq<Seq<Seq<char>>> {
    t.values@.map_values(|r: Vec<String>| cell_views(r))
}

/// The width column `c` needs considering its header and the first `k`
/// rows.
pub open spec fn col_width_upto(
    hs: Seq<Seq<char>>,
    rs: Seq<Seq<Seq<char>>>,
    c: int,
    k: int,
) -> nat
    decreases k,
{
    if k <= 0 {
        hs[c].len()
    } else {
        let prev = col_width_upto(hs, rs, c, k - 1);
        if rs[k - 1][c].len() > prev {
            rs[k - 1][c].len()
        } else {
            prev
        }
    }
}

/// The width of column `c`: its widest cell, the header counted in.
pub open spec fn col_width(hs: Seq<Seq<char>>, rs: Seq<Seq<Seq<char>>>, c: int) -> nat {
    col_width_upto(hs, rs, c, rs.len() as int)
}

/// `n` spaces.
pub open spec fn spaces(n: nat) -> Seq<char> {
    Seq::new(n, |i: int| ' ')
}

/// `s`, right-aligned in a field `w` wide; a longer `s` is not cut.
pub open spec fn pad_left(s: Seq<char>, w: nat) -> Seq<char> {
    if s.len() >= w {
        s
    } else {
        spaces((w - s.len()) as nat) + s
    }
}

/// The horizontal rule of one column: its width plus one space either side.
pub open spec fn dashes(w: nat) -> Seq<char> {
    Seq::new(w + 2, |i: int| '─')
}

/// The rules of the first `c` columns, joined by `tee`.
pub open spec fn sep_cells(hs: Seq<Seq<char>>, rs: Seq<Seq<Seq<char>>>, tee: char, c: int) -> Seq<
    char,
>
    decreases c,
{
    if c <= 0 {
        Seq::<char>::empty()
    } else if c == 1 {
        dashes(col_width(hs, rs, 0))
    } else {
        sep_cells(hs, rs, tee, c - 1) + seq![tee] + dashes(col_width(hs, rs, c - 1))
    }
}

/// One whole separator line, with its corners or junctions.
pub open spec fn sep_line(
    hs: Seq<Seq<char>>,
    rs: Seq<Seq<Seq<char>>>,
    l: char,
    tee: char,
    r: char,
) -> Seq<char> {
    seq![l] + sep_cells(hs, rs, tee, hs.len() as int) + seq![r] + seq!['\n']
}

/// The first `c` cells of a text line, each padded to its column and closed
/// by a column border.
pub open spec fn text_cells(
    hs: Seq<Seq<char>>,
    rs: Seq<Seq<Seq<char>>>,
    cells: Seq<Seq<char>>,
    c: int,
) -> Seq<char>
    decreases c,
{
    if c <= 0 {
        Seq::<char>::empty()
    } else {
        text_cells(hs, rs, cells, c - 1) + pad_left(cells[c - 1], col_width(hs, rs, c - 1))
            + " │ "@
    }
}

/// One whole text line: headers or one row of cells.
pub open spec fn text_line(
    hs: Seq<Seq<char>>,
    rs: Seq<Seq<Seq<char>>>,
    cells: Seq<Seq<char>>,
) -> Seq<char> {
    "│ "@ + text_cells(hs, rs, cells, hs.len() as int) + seq!['\n']
}

/// The text lines of the first `k` rows.
pub open spec fn rows_block(hs: Seq<Seq<char>>, rs: Seq<Seq<Seq<char>>>, k: int) -> Seq<char>
    decreases k,
{
    if k <= 0 {
        Seq::<char>::empty()
    } else {
        rows_block(hs, rs, k - 1) + text_line(hs, rs, rs[k - 1])
    }
}

/// The whole box-drawn table: top rule, headers, header rule, rows, bottom
/// rule.
pub open spec fn table_text(hs: Seq<Seq<char>>, rs: Seq<Seq<Seq<char>>>) -> Seq<char> {
    sep_line(hs, rs, '┌', '┬', '┐') + text_line(hs, rs, hs) + sep_line(hs, rs, '├', '┼', '┤')
        + rows_block(hs, rs, rs.len() as int) + sep_line(hs, rs, '└', '┴', '┘')
}

/// The sentence for a row count.
pub open spec fn rows_affected_text(n: u64) -> Seq<char> {
    if n == 0 {
        "No rows affected\n"@
    } else if n == 1 {
        "1 Row affected\n"@
    } else {
        dec_digits(n as nat) + " Rows affected\n"@
    }
}

/// The rendering of a whole statement outcome.
pub open spec fn result_text(r: MySqlResult) -> Seq<char> {
    match r {
        MySqlResult::Table(t) => table_text(header_views(t), row_views(t)),
        MySqlResult::RowsAffected(ra) => rows_affected_text(ra.affected_rows),
    }
}

/// Appends one column's horizontal rule: `w + 2` line characters.
fn append_dashes(out: &mut String, w: usize)
    ensures
        final(out)@ == old(out)@ + dashes(w as nat),
{
    proof {
        reveal_strlit("─");
        assert("─"@.len() == 1 && "─"@[0] == '─');
    }
    let ghost base = out@;
    out.append("─");
    out.append("─");
    proof {
        assert(out@ =~= base + dashes(w as nat).take(2));
    }
    let mut j: usize = 0;
    while j < w
        invariant
            j <= w,
            out@ == base + dashes(w as nat).take(2 + j as int),
        decreases w - j,
    {
        out.append("─");
        proof {
            reveal_strlit("─");
            assert("─"@.len() == 1 && "─"@[0] == '─');
            assert(out@ =~= base + dashes(w as nat).take(2 + j + 1 as int));
        }
        j = j + 1;
    }
    proof {
        assert(out@ =~= base + dashes(w as nat));
    }
}

/// Appends a cell, right-aligned to the column width and closed by the
/// column border.
fn append_padded(out: &mut String, cell: &String, w: usize)
    ensures
        final(out)@ == old(out)@ + pad_left(cell@, w as nat) + " │ "@,
{
    proof {
        reveal_strlit(" ");
        reveal_strlit(" │ ");
        assert(" "@.len() == 1 && " "@[0] == ' ');
    }
    let ghost base = out@;
    let len = cell.as_str().unicode_len();
    if len < w {
        let gap = w - len;
        let ghost sp = spaces((w - cell@.len()) as nat);
        let mut j: usize = 0;
        proof {
            assert(out@ =~= base + sp.take(0));
        }
        while j < gap
            invariant
                j <= gap,
                gap as nat == sp.len(),
                sp == spaces((w - cell@.len()) as nat),
                cell@.len() < w as nat,
                out@ == base + sp.take(j as int),
            decreases gap - j,
        {
            out.append(" ");
            proof {
                reveal_strlit(" ");
                assert(" "@.len() == 1 && " "@[0] == ' ');
                assert(out@ =~= base + sp.take(j + 1 as int));
            }
            j = j + 1;
        }
        proof {
            assert(sp.take(gap as int) =~= sp);
        }
    }
    out.append(cell.as_str());
    proof {
        assert(out@ =~= base + pad_left(cell@, w as nat));
    }
    out.append(" │ ");
}

/// Appends one whole separator line.
fn append_sep_line(
    out: &mut String,
    widths: &Vec<usize>,
    l: &str,
    tee: &str,
    r: &str,
    Ghost(hs): Ghost<Seq<Seq<char>>>,
    Ghost(rs): Ghost<Seq<Seq<Seq<char>>>>,
    Ghost(lc): Ghost<char>,
    Ghost(tc): Ghost<char>,
    Ghost(rc): Ghost<char>,
)
    requires
        widths@.len() == hs.len(),
        hs.len() >= 1,
        forall|c: int| 0 <= c < hs.len() ==> (#[trigger] widths@[c]) as nat == col_width(hs, rs, c),
        l@ == seq![lc],
        tee@ == seq![tc],
        r@ == seq![rc],
    ensures
        final(out)@ == old(out)@ + sep_line(hs, rs, lc, tc, rc),
{
    proof {
        reveal_strlit("\n");
    }
    let ghost base = out@;
    out.append(l);
    let n = widths.len();
    let mut c: usize = 1;
    append_dashes(out, widths[0]);
    proof {
        assert(out@ =~= base + seq![lc] + sep_cells(hs, rs, tc, 1));
    }
    while c < n
        invariant
            n == widths@.len(),
            n == hs.len(),
            1 <= c <= n,
            tee@ == seq![tc],
            forall|cc: int|
                0 <= cc < hs.len() ==> (#[trigger] widths@[cc]) as nat == col_width(hs, rs, cc),
            out@ == base + seq![lc] + sep_cells(hs, rs, tc, c as int),
        decreases n - c,
    {
        out.append(tee);
        append_dashes(out, widths[c]);
        proof {
            assert(out@ =~= base + seq![lc] + sep_cells(hs, rs, tc, c + 1 as int));
        }
        c = c + 1;
    }
    out.append(r);
    out.append("\n");
    proof {
        assert(out@ =~= base + sep_line(hs, rs, lc, tc, rc));
    }
}

/// Appends one whole text line for the given cells.
fn append_text_line(
    out: &mut String,
    widths: &Vec<usize>,
    cells: &Vec<String>,
    Ghost(hs): Ghost<Seq<Seq<char>>>,
    Ghost(rs): Ghost<Seq<Seq<Seq<char>>>>,
    Ghost(cv): Ghost<Seq<Seq<char>>>,
)
    requires
        widths@.len() == hs.len(),
        cells@.len() == hs.len(),
        cv.len() == hs.len(),
        forall|c: int| 0 <= c < hs.len() ==> (#[trigger] widths@[c]) as nat == col_width(hs, rs, c),
        forall|c: int| 0 <= c < hs.len() ==> (#[trigger] cells@[c])@ == cv[c],
    ensures
        final(out)@ == old(out)@ + text_line(hs, rs, cv),
{
    proof {
        reveal_strlit("│ ");
        reveal_strlit("\n");
    }
    let ghost base = out@;
    out.append("│ ");
    let n = cells.len();
    let mut c: usize = 0;
    proof {
        assert(out@ =~= base + "│ "@ + text_cells(hs, rs, cv, 0));
    }
    while c < n
        invariant
            n == hs.len(),
            n == cells@.len(),
            n == widths@.len(),
            cv.len() == n,
            c <= n,
            forall|cc: int|
                0 <= cc < hs.len() ==> (#[trigger] widths@[cc]) as nat == col_width(hs, rs, cc),
            forall|cc: int| 0 <= cc < hs.len() ==> (#[trigger] cells@[cc])@ == cv[cc],
            out@ == base + "│ "@ + text_cells(hs, rs, cv, c as int),
        decreases n - c,
    {
        append_padded(out, &cells[c], widths[c]);
        proof {
            assert(out@ =~= base + "│ "@ + text_cells(hs, rs, cv, c + 1 as int));
        }
        c = c + 1;
    }
    out.append("\n");
    proof {
        assert(out@ =~= base + text_line(hs, rs, cv));
    }
}

/// Renders a result set as a box-drawn table.
pub fn format_table(t: &MySqlOutputTable) -> (out: String)
    requires
        t.wf(),
        t.headers@.len() >= 1,
    ensures
        out@ == table_text(header_views(*t), row_views(*t)),
{
    let ghost hs = header_views(*t);
    let ghost rs = row_views(*t);
    let ncols = t.headers.len();
    let nrows = t.values.len();
    let mut widths: Vec<usize> = Vec::new();
    let mut c: usize = 0;
    while c < ncols
        invariant
            t.wf(),
            hs == header_views(*t),
            rs == row_views(*t),
            ncols == t.headers@.len(),
            nrows == t.values@.len(),
            c <= ncols,
            widths@.len() == c,
            forall|cc: int|
                0 <= cc < c ==> (#[trigger] widths@[cc]) as nat == col_width(hs, rs, cc),
        decreases ncols - c,
    {
        let mut w = t.headers[c].as_str().unicode_len();
        proof {
            assert(hs[c as int] == t.headers@[c as int]@);
            assert(w as nat == col_width_upto(hs, rs, c as int, 0));
        }
        let mut r: usize = 0;
        while r < nrows
            invariant
                t.wf(),
                hs == header_views(*t),
                rs == row_views(*t),
                ncols == t.headers@.len(),
                nrows == t.values@.len(),
                c < ncols,
                r <= nrows,
                w as nat == col_width_upto(hs, rs, c as int, r as int),
            decreases nrows - r,
        {
            proof {
                assert(t.values@[r as int]@.len() == t.headers@.len());
                assert(rs[r as int] == cell_views(t.values@[r as int]));
                assert(rs[r as int][c as int] == t.values@[r as int]@[c as int]@);
            }
            let cl = t.values[r][c].as_str().unicode_len();
            if cl > w {
                w = cl;
            }
            r = r + 1;
        }
        widths.push(w);
        c = c + 1;
    }
    let mut out = String::new();
    proof {
        reveal_strlit("┌");
        reveal_strlit("┬");
        reveal_strlit("┐");
        reveal_strlit("├");
        reveal_strlit("┼");
        reveal_strlit("┤");
        reveal_strlit("└");
        reveal_strlit("┴");
        reveal_strlit("┘");
        assert("┌"@ =~= seq!['┌']);
        assert("┬"@ =~= seq!['┬']);
        assert("┐"@ =~= seq!['┐']);
        assert("├"@ =~= seq!['├']);
        assert("┼"@ =~= seq!['┼']);
        assert("┤"@ =~= seq!['┤']);
        assert("└"@ =~= seq!['└']);
        assert("┴"@ =~= seq!['┴']);
        assert("┘"@ =~= seq!['┘']);
    }
    let ghost e = Seq::<char>::empty();
    append_sep_line(
        &mut out,
        &widths,
        "┌",
        "┬",
        "┐",
        Ghost(hs),
        Ghost(rs),
        Ghost('┌'),
        Ghost('┬'),
        Ghost('┐'),
    );
    proof {
        assert(e + sep_line(hs, rs, '┌', '┬', '┐') =~= sep_line(hs, rs, '┌', '┬', '┐'));
    }
    append_text_line(&mut out, &widths, &t.headers, Ghost(hs), Ghost(rs), Ghost(hs));
    append_sep_line(
        &mut out,
        &widths,
        "├",
        "┼",
        "┤",
        Ghost(hs),
        Ghost(rs),
        Ghost('├'),
        Ghost('┼'),
        Ghost('┤'),
    );
    let ghost mid = out@;
    proof {
        assert(mid + rows_block(hs, rs, 0) =~= mid);
    }
    let mut r: usize = 0;
    while r < nrows
        invariant
            t.wf(),
            hs == header_views(*t),
            rs == row_views(*t),
            ncols == t.headers@.len(),
            ncols >= 1,
            nrows == t.values@.len(),
            widths@.len() == ncols,
            forall|cc: int|
                0 <= cc < ncols ==> (#[trigger] widths@[cc]) as nat == col_width(hs, rs, cc),
            r <= nrows,
            out@ == mid + rows_block(hs, rs, r as int),
        decreases nrows - r,
    {
        proof {
            assert(t.values@[r as int]@.len() == t.headers@.len());
            assert(rs[r as int] == cell_views(t.values@[r as int]));
            assert forall|cc: int|
                0 <= cc < ncols implies (#[trigger] t.values@[r as int]@[cc])@ == rs[r as int][cc] by {
            }
        }
        append_text_line(&mut out, &widths, &t.values[r], Ghost(hs), Ghost(rs), Ghost(rs[r as int]));
        proof {
            assert(out@ =~= mid + rows_block(hs, rs, r + 1 as int));
        }
        r = r + 1;
    }
    append_sep_line(
        &mut out,
        &widths,
        "└",
        "┴",
        "┘",
        Ghost(hs),
        Ghost(rs),
        Ghost('└'),
        Ghost('┴'),
        Ghost('┘'),
    );
    proof {
        assert(out@ =~= table_text(hs, rs));
    }
    out
}

/// Renders a row count as its sentence.
pub fn format_rows_affected(ra: &MySqlRowsAffected) -> (out: String)
    ensures
        out@ == rows_affected_text(ra.affected_rows),
{
    proof {
        reveal_strlit("No rows affected\n");
        reveal_strlit("1 Row affected\n");
        reveal_strlit(" Rows affected\n");
    }
    if ra.affected_rows == 0 {
        String::from_str("No rows affected\n")
    } else if ra.affected_rows == 1 {
        String::from_str("1 Row affected\n")
    } else {
        let mut out = u64_to_dec(ra.affected_rows);
        out.append(" Rows affected\n");
        out
    }
}

/// Renders a whole statement outcome.
pub fn format_result(r: &MySqlResult) -> (out: String)
    requires
        match *r {
            MySqlResult::Table(t) => t.wf() && t.headers@.len() >= 1,
            MySqlResult::RowsAffected(_) => true,
        },
    ensures
        out@ == result_text(*r),
{
    match r {
        MySqlResult::Table(t) => format_table(t),
        MySqlResult::RowsAffected(ra) => format_rows_affected(ra),
    }
}

} // verus!
