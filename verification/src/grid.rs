//! Tables: where each cell starts, which cells vertical merges take, and the HTML of a table.
use vstd::prelude::*;
use crate::docx::{CellData, RowData};
use crate::htmlutil::push_char;
use crate::text::{append_signed, signed_decimal};

verus! {

broadcast use vstd::string::group_string_axioms;

/// A table cell as plain values.
pub struct CellView {
    pub html: Seq<char>,
    pub css: Seq<char>,
    pub colspan: i32,
    pub vmerge: i32,
}

/// A table row as plain values.
pub struct RowView {
    pub cells: Seq<CellView>,
    pub header: bool,
}

pub open spec fn cell_view(c: CellData) -> CellView {
    CellView { html: c.html@, css: c.css@, colspan: c.colspan, vmerge: c.vmerge }
}

pub open spec fn row_view(r: RowData) -> RowView {
    RowView { cells: r.cells@.map_values(|c: CellData| cell_view(c)), header: r.header }
}

pub open spec fn rows_view(rows: Seq<RowData>) -> Seq<RowView> {
    rows.map_values(|r: RowData| row_view(r))
}

/// The column at which cell `ci` of a row starts: the colspans of the cells before it, added
/// with i32 wrap-around.
pub open spec fn col_start(cells: Seq<CellView>, ci: int) -> i32
    decreases ci,
{
    if ci <= 0 {
        0
    } else {
        col_start(cells, ci - 1).wrapping_add(cells[ci - 1].colspan)
    }
}

/// A table of vectors as a table of sequences.
pub open spec fn grid<T>(g: Seq<Vec<T>>) -> Seq<Seq<T>> {
    g.map_values(|v: Vec<T>| v@)
}

/// `g` holds one value for each cell of `rows`.
pub open spec fn fits<T>(g: Seq<Seq<T>>, rows: Seq<RowView>) -> bool {
    &&& g.len() == rows.len()
    &&& forall|r: int| 0 <= r < rows.len() ==> (#[trigger] g[r]).len() == rows[r].cells.len()
}

/// The first cell of row `rr`, at `cj` or after it, that continues a vertical merge at column
/// `col` and that no merge has taken yet (`cov` marks the cells taken).
pub open spec fn free_continuation(
    rows: Seq<RowView>,
    cov: Seq<Seq<bool>>,
    rr: int,
    col: i32,
    cj: int,
) -> Option<int>
    decreases rows[rr].cells.len() - cj,
{
    if cj < 0 || cj >= rows[rr].cells.len() {
        None
    } else if col_start(rows[rr].cells, cj) == col && rows[rr].cells[cj].vmerge == 2
        && !cov[rr][cj] {
        Some(cj)
    } else {
        free_continuation(rows, cov, rr, col, cj + 1)
    }
}

/// A merge at column `col` reaching down from row `rr`: each row that has a free continuation
/// gives it to the merge, until a row has none. The cells taken then, and the merge's row count
/// grown from `span` by one for each row it took.
pub open spec fn extend_merge(
    rows: Seq<RowView>,
    cov: Seq<Seq<bool>>,
    col: i32,
    rr: int,
    span: i32,
) -> (Seq<Seq<bool>>, i32)
    decreases rows.len() - rr,
{
    if rr < 0 || rr >= rows.len() {
        (cov, span)
    } else {
        match free_continuation(rows, cov, rr, col, 0) {
            None => (cov, span),
            Some(cj) => extend_merge(
                rows,
                cov.update(rr, cov[rr].update(cj, true)),
                col,
                rr + 1,
                span.wrapping_add(1),
            ),
        }
    }
}

/// Row `r` from cell `ci` on, left to right: each cell that starts a vertical merge, and that
/// no merge above has taken, takes its continuations below and records how many rows it spans.
pub open spec fn merge_row(
    rows: Seq<RowView>,
    cov: Seq<Seq<bool>>,
    span: Seq<Seq<i32>>,
    r: int,
    ci: int,
) -> (Seq<Seq<bool>>, Seq<Seq<i32>>)
    decreases rows[r].cells.len() - ci,
{
    if ci < 0 || ci >= rows[r].cells.len() {
        (cov, span)
    } else if rows[r].cells[ci].vmerge == 1 && !cov[r][ci] {
        let m = extend_merge(rows, cov, col_start(rows[r].cells, ci), r + 1, span[r][ci]);
        merge_row(rows, m.0, span.update(r, span[r].update(ci, m.1)), r, ci + 1)
    } else {
        merge_row(rows, cov, span, r, ci + 1)
    }
}

/// The rows from `r` on, top to bottom, each as `merge_row` treats it.
pub open spec fn merge_rows(
    rows: Seq<RowView>,
    cov: Seq<Seq<bool>>,
    span: Seq<Seq<i32>>,
    r: int,
) -> (Seq<Seq<bool>>, Seq<Seq<i32>>)
    decreases rows.len() - r,
{
    if r < 0 || r >= rows.len() {
        (cov, span)
    } else {
        let m = merge_row(rows, cov, span, r, 0);
        merge_rows(rows, m.0, m.1, r + 1)
    }
}

/// No cell taken by a merge.
pub open spec fn none_taken(rows: Seq<RowView>) -> Seq<Seq<bool>> {
    Seq::new(rows.len(), |r: int| Seq::new(rows[r].cells.len(), |c: int| false))
}

/// Every cell spanning one row.
pub open spec fn single_rows(rows: Seq<RowView>) -> Seq<Seq<i32>> {
    Seq::new(rows.len(), |r: int| Seq::new(rows[r].cells.len(), |c: int| 1i32))
}

/// For each cell: whether a merge above took it, and how many rows it spans.
pub open spec fn merge_plan(rows: Seq<RowView>) -> (Seq<Seq<bool>>, Seq<Seq<i32>>) {
    merge_rows(rows, none_taken(rows), single_rows(rows), 0)
}

/// The cell tag of a header row and of another row.
pub open spec fn cell_tag(header: bool) -> Seq<char> {
    if header {
        "th"@
    } else {
        "td"@
    }
}

/// The HTML of cell `c` with tag `tag` spanning `rowspan` rows.
pub open spec fn cell_html(c: CellView, tag: Seq<char>, rowspan: i32) -> Seq<char> {
    "<"@ + tag + (if c.colspan > 1 {
        " colspan=\""@ + signed_decimal(c.colspan as int) + "\""@
    } else {
        Seq::empty()
    }) + (if rowspan > 1 {
        " rowspan=\""@ + signed_decimal(rowspan as int) + "\""@
    } else {
        Seq::empty()
    }) + (if c.css.len() > 0 {
        " style=\""@ + c.css + "\""@
    } else {
        Seq::empty()
    }) + ">"@ + c.html + "</"@ + tag + ">"@
}

/// The HTML of the first `n` cells of `row`, leaving out those that a merge took.
pub open spec fn cells_html(row: RowView, cov: Seq<bool>, span: Seq<i32>, n: int) -> Seq<char>
    decreases n,
{
    if n <= 0 {
        Seq::empty()
    } else {
        cells_html(row, cov, span, n - 1) + (if cov[n - 1] {
            Seq::empty()
        } else {
            cell_html(row.cells[n - 1], cell_tag(row.header), span[n - 1])
        })
    }
}

/// The HTML of the first `n` rows.
pub open spec fn rows_html(
    rows: Seq<RowView>,
    cov: Seq<Seq<bool>>,
    span: Seq<Seq<i32>>,
    n: int,
) -> Seq<char>
    decreases n,
{
    if n <= 0 {
        Seq::empty()
    } else {
        rows_html(rows, cov, span, n - 1) + "<tr>"@ + cells_html(
            rows[n - 1],
            cov[n - 1],
            span[n - 1],
            rows[n - 1].cells.len() as int,
        ) + "</tr>"@
    }
}

/// The HTML of a table with `rows`.
pub open spec fn table_html(rows: Seq<RowView>) -> Seq<char> {
    let plan = merge_plan(rows);
    "<table>"@ + rows_html(rows, plan.0, plan.1, rows.len() as int) + "</table>"@
}

/// `starts` holds where each cell of `rows` starts.
pub open spec fn starts_of(rows: Seq<RowView>, starts: Seq<Seq<i32>>) -> bool {
    &&& fits(starts, rows)
    &&& forall|r: int, c: int|
        0 <= r < rows.len() && 0 <= c < rows[r].cells.len() ==> #[trigger] starts[r][c]
            == col_start(rows[r].cells, c)
}

/// Where each cell of each row starts.
fn column_starts(rows: &Vec<RowData>) -> (starts: Vec<Vec<i32>>)
    ensures
        starts_of(rows_view(rows@), grid(starts@)),
{
    let mut starts: Vec<Vec<i32>> = Vec::new();
    let mut r: usize = 0;
    while r < rows.len()
        invariant
            r <= rows@.len(),
            starts@.len() == r,
            forall|q: int| 0 <= q < r ==> (#[trigger] starts@[q])@.len() == rows_view(rows@)[q].cells.len(),
            forall|q: int, c: int|
                0 <= q < r && 0 <= c < rows_view(rows@)[q].cells.len() ==> #[trigger] starts@[q]@[c]
                    == col_start(rows_view(rows@)[q].cells, c),
        decreases rows@.len() - r,
    {
        let cells = &rows[r].cells;
        let mut row: Vec<i32> = Vec::new();
        let mut c: i32 = 0;
        let mut ci: usize = 0;
        while ci < cells.len()
            invariant
                ci <= cells@.len(),
                row@.len() == ci,
                cells == rows@[r as int].cells,
                r < rows@.len(),
                c == col_start(rows_view(rows@)[r as int].cells, ci as int),
                forall|j: int| 0 <= j < ci ==> #[trigger] row@[j] == col_start(rows_view(rows@)[r as int].cells, j),
            decreases cells@.len() - ci,
        {
            row.push(c);
            c = c.wrapping_add(cells[ci].colspan);
            ci += 1;
        }
        starts.push(row);
        r += 1;
    }
    assert(fits(grid(starts@), rows_view(rows@)));
    starts
}

/// The first free continuation of a merge at column `col` in row `rr`.
fn find_continuation(
    rows: &Vec<RowData>,
    starts: &Vec<Vec<i32>>,
    cov: &Vec<Vec<bool>>,
    rr: usize,
    col: i32,
) -> (r: Option<usize>)
    requires
        rr < rows@.len(),
        starts_of(rows_view(rows@), grid(starts@)),
        fits(grid(cov@), rows_view(rows@)),
    ensures
        match r {
            Some(j) => free_continuation(rows_view(rows@), grid(cov@), rr as int, col, 0) == Some(j as int),
            None => free_continuation(rows_view(rows@), grid(cov@), rr as int, col, 0) is None,
        },
{
    let ghost g = grid(cov@);
    let n = rows[rr].cells.len();
    assert(grid(starts@)[rr as int].len() == n);
    assert(g[rr as int].len() == n);
    let mut cj: usize = 0;
    while cj < n
        invariant
            rr < rows@.len(),
            n == rows_view(rows@)[rr as int].cells.len(),
            starts_of(rows_view(rows@), grid(starts@)),
            g == grid(cov@),
            fits(g, rows_view(rows@)),
            cj <= n,
            free_continuation(rows_view(rows@), g, rr as int, col, 0) == free_continuation(
                rows_view(rows@),
                g,
                rr as int,
                col,
                cj as int,
            ),
        decreases n - cj,
    {
        assert(grid(starts@)[rr as int][cj as int] == col_start(rows_view(rows@)[rr as int].cells, cj as int));
        assert(g[rr as int].len() == n);
        if starts[rr][cj] == col && rows[rr].cells[cj].vmerge == 2 && !cov[rr][cj] {
            return Some(cj);
        }
        cj += 1;
    }
    None
}

/// Lets a merge at column `col`, spanning `span` rows so far, take its continuations from row
/// `from` on; returns how many rows it spans then.
fn extend_down(
    rows: &Vec<RowData>,
    starts: &Vec<Vec<i32>>,
    cov: &mut Vec<Vec<bool>>,
    col: i32,
    from: usize,
    span: i32,
) -> (s: i32)
    requires
        starts_of(rows_view(rows@), grid(starts@)),
        fits(grid(old(cov)@), rows_view(rows@)),
    ensures
        fits(grid(final(cov)@), rows_view(rows@)),
        (grid(final(cov)@), s) == extend_merge(rows_view(rows@), grid(old(cov)@), col, from as int, span),
{
    let ghost g0 = grid(cov@);
    let mut s = span;
    let mut rr = from;
    while rr < rows.len()
        invariant
            starts_of(rows_view(rows@), grid(starts@)),
            fits(grid(cov@), rows_view(rows@)),
            from <= rr,
            g0 == grid(old(cov)@),
            extend_merge(rows_view(rows@), g0, col, from as int, span) == extend_merge(
                rows_view(rows@),
                grid(cov@),
                col,
                rr as int,
                s,
            ),
        decreases rows@.len() - rr,
    {
        match find_continuation(rows, starts, cov, rr, col) {
            None => {
                assert(extend_merge(rows_view(rows@), grid(cov@), col, rr as int, s) == (grid(cov@), s));
                return s;
            },
            Some(cj) => {
                let ghost g = grid(cov@);
                proof {
                    lemma_found_in_row(rows_view(rows@), g, rr as int, col, 0, cj as int);
                }
                let mut row = cov[rr].clone();
                assert(row@ =~= cov@[rr as int]@);
                row.set(cj, true);
                cov.set(rr, row);
                assert(grid(cov@) =~= g.update(rr as int, g[rr as int].update(cj as int, true)));
                s = s.wrapping_add(1);
                rr += 1;
            },
        }
    }
    s
}

/// A free continuation found in a row is a cell of that row.
proof fn lemma_found_in_row(rows: Seq<RowView>, cov: Seq<Seq<bool>>, rr: int, col: i32, cj: int, j: int)
    requires
        free_continuation(rows, cov, rr, col, cj) == Some(j),
    ensures
        cj <= j < rows[rr].cells.len(),
    decreases rows[rr].cells.len() - cj,
{
    if cj < 0 || cj >= rows[rr].cells.len() {
    } else if col_start(rows[rr].cells, cj) == col && rows[rr].cells[cj].vmerge == 2
        && !cov[rr][cj] {
    } else {
        lemma_found_in_row(rows, cov, rr, col, cj + 1, j);
    }
}

/// For each cell of `rows`: whether a merge above took it, and how many rows it spans.
fn plan_merges(rows: &Vec<RowData>, starts: &Vec<Vec<i32>>) -> (res: (Vec<Vec<bool>>, Vec<Vec<i32>>))
    requires
        starts_of(rows_view(rows@), grid(starts@)),
    ensures
        fits(grid(res.0@), rows_view(rows@)),
        fits(grid(res.1@), rows_view(rows@)),
        (grid(res.0@), grid(res.1@)) == merge_plan(rows_view(rows@)),
{
    let nr = rows.len();
    let mut cov: Vec<Vec<bool>> = Vec::new();
    let mut span: Vec<Vec<i32>> = Vec::new();
    let mut r: usize = 0;
    while r < nr
        invariant
            nr == rows@.len(),
            r <= nr,
            cov@.len() == r,
            span@.len() == r,
            forall|q: int| 0 <= q < r ==> (#[trigger] cov@[q])@ == none_taken(rows_view(rows@))[q],
            forall|q: int| 0 <= q < r ==> (#[trigger] span@[q])@ == single_rows(rows_view(rows@))[q],
        decreases nr - r,
    {
        let n = rows[r].cells.len();
        let mut crow: Vec<bool> = Vec::new();
        let mut srow: Vec<i32> = Vec::new();
        let mut c: usize = 0;
        while c < n
            invariant
                c <= n,
                crow@.len() == c,
                srow@.len() == c,
                forall|j: int| 0 <= j < c ==> #[trigger] crow@[j] == false,
                forall|j: int| 0 <= j < c ==> #[trigger] srow@[j] == 1i32,
            decreases n - c,
        {
            crow.push(false);
            srow.push(1);
            c += 1;
        }
        assert(crow@ =~= none_taken(rows_view(rows@))[r as int]);
        assert(srow@ =~= single_rows(rows_view(rows@))[r as int]);
        cov.push(crow);
        span.push(srow);
        r += 1;
    }
    assert(grid(cov@) =~= none_taken(rows_view(rows@)));
    assert(grid(span@) =~= single_rows(rows_view(rows@)));
    r = 0;
    while r < nr
        invariant
            nr == rows@.len(),
            r <= nr,
            starts_of(rows_view(rows@), grid(starts@)),
            fits(grid(cov@), rows_view(rows@)),
            fits(grid(span@), rows_view(rows@)),
            merge_rows(rows_view(rows@), grid(cov@), grid(span@), r as int) == merge_plan(rows_view(rows@)),
        decreases nr - r,
    {
        let n = rows[r].cells.len();
        let mut ci: usize = 0;
        while ci < n
            invariant
                nr == rows@.len(),
                r < nr,
                n == rows_view(rows@)[r as int].cells.len(),
                ci <= n,
                starts_of(rows_view(rows@), grid(starts@)),
                fits(grid(cov@), rows_view(rows@)),
                fits(grid(span@), rows_view(rows@)),
                ({
                    let m = merge_row(rows_view(rows@), grid(cov@), grid(span@), r as int, ci as int);
                    merge_rows(rows_view(rows@), m.0, m.1, r as int + 1)
                }) == merge_plan(rows_view(rows@)),
            decreases n - ci,
        {
            let ghost gc = grid(cov@);
            let ghost gs = grid(span@);
            assert(gc[r as int].len() == n && gs[r as int].len() == n);
            if rows[r].cells[ci].vmerge == 1 && !cov[r][ci] {
                assert(grid(starts@)[r as int][ci as int] == col_start(rows_view(rows@)[r as int].cells, ci as int));
                let col = starts[r][ci];
                let s0 = span[r][ci];
                let s = extend_down(rows, starts, &mut cov, col, r + 1, s0);
                let mut srow = span[r].clone();
                assert(srow@ =~= span@[r as int]@);
                srow.set(ci, s);
                span.set(r, srow);
                assert(grid(span@) =~= gs.update(r as int, gs[r as int].update(ci as int, s)));
            }
            ci += 1;
        }
        r += 1;
    }
    (cov, span)
}

/// Appends ` name="v"` (`lead` holding ` name="`) when `v` is above 1.
fn append_count_attr(out: &mut String, lead: &str, v: i32)
    ensures
        final(out)@ == old(out)@ + (if v > 1 {
            lead@ + signed_decimal(v as int) + "\""@
        } else {
            Seq::empty()
        }),
{
    if v > 1 {
        out.append(lead);
        append_signed(out, v as i64);
        push_char(out, '"');
        proof {
            reveal_strlit("\"");
        }
    }
    assert(out@ =~= old(out)@ + (if v > 1 {
        lead@ + signed_decimal(v as int) + "\""@
    } else {
        Seq::empty()
    }));
}

/// Appends the HTML of cell `c` with tag `tag` spanning `rowspan` rows.
fn append_cell(out: &mut String, c: &CellData, tag: &str, rowspan: i32)
    ensures
        final(out)@ == old(out)@ + cell_html(cell_view(*c), tag@, rowspan),
{
    push_char(out, '<');
    out.append(tag);
    append_count_attr(out, " colspan=\"", c.colspan);
    append_count_attr(out, " rowspan=\"", rowspan);
    let ghost o2 = out@;
    if !c.css.as_str().is_empty() {
        out.append(" style=\"");
        out.append(c.css.as_str());
        push_char(out, '"');
        proof {
            reveal_strlit("\"");
        }
    }
    let ghost o3 = out@;
    assert(o3 =~= o2 + (if c.css@.len() > 0 {
        " style=\""@ + c.css@ + "\""@
    } else {
        Seq::empty()
    }));
    push_char(out, '>');
    out.append(c.html.as_str());
    out.append("</");
    out.append(tag);
    push_char(out, '>');
    proof {
        reveal_strlit("<");
        reveal_strlit(">");
        assert(out@ =~= old(out)@ + cell_html(cell_view(*c), tag@, rowspan));
    }
}

/// Appends the HTML of a table with `rows`, given which cells merges took (`cov`) and how many
/// rows each cell spans (`span`).
fn append_table(out: &mut String, rows: &Vec<RowData>, cov: &Vec<Vec<bool>>, span: &Vec<Vec<i32>>)
    requires
        fits(grid(cov@), rows_view(rows@)),
        fits(grid(span@), rows_view(rows@)),
    ensures
        final(out)@ == old(out)@ + "<table>"@ + rows_html(rows_view(rows@), grid(cov@), grid(span@), rows@.len() as int)
            + "</table>"@,
{
    let ghost gc = grid(cov@);
    let ghost gs = grid(span@);
    out.append("<table>");
    let ghost o0 = out@;
    let mut r: usize = 0;
    while r < rows.len()
        invariant
            r <= rows@.len(),
            gc == grid(cov@),
            gs == grid(span@),
            fits(gc, rows_view(rows@)),
            fits(gs, rows_view(rows@)),
            out@ == o0 + rows_html(rows_view(rows@), gc, gs, r as int),
        decreases rows@.len() - r,
    {
        out.append("<tr>");
        let ghost ob = out@;
        let row = &rows[r];
        let tag = if row.header {
            "th"
        } else {
            "td"
        };
        proof {
            reveal_strlit("th");
            reveal_strlit("td");
        }
        let n = row.cells.len();
        assert(gc[r as int].len() == n && gs[r as int].len() == n);
        let mut ci: usize = 0;
        while ci < n
            invariant
                r < rows@.len(),
                row == rows@[r as int],
                n == row.cells@.len(),
                ci <= n,
                tag@ == cell_tag(row.header),
                gc == grid(cov@),
                gs == grid(span@),
                gc[r as int].len() == n,
                gs[r as int].len() == n,
                cov@.len() == rows@.len(),
                span@.len() == rows@.len(),
                cov@[r as int]@ == gc[r as int],
                span@[r as int]@ == gs[r as int],
                out@ == ob + cells_html(row_view(*row), gc[r as int], gs[r as int], ci as int),
            decreases n - ci,
        {
            let ghost before = out@;
            if !cov[r][ci] {
                append_cell(out, &row.cells[ci], tag, span[r][ci]);
            }
            assert(out@ =~= ob + cells_html(row_view(*row), gc[r as int], gs[r as int], ci + 1));
            ci += 1;
        }
        out.append("</tr>");
        proof {
            assert(out@ =~= o0 + rows_html(rows_view(rows@), gc, gs, r + 1));
        }
        r += 1;
    }
    proof {
        reveal_strlit("</table>");
    }
    out.append("</table>");
}

/// Appends the HTML of a table with `rows`: vertical merges become row spans, the cells they
/// take are left out, and a header row has `th` cells.
pub fn append_table_html(out: &mut String, rows: &Vec<RowData>)
    ensures
        final(out)@ == old(out)@ + table_html(rows_view(rows@)),
{
    let starts = column_starts(rows);
    let (cov, span) = plan_merges(rows, &starts);
    append_table(out, rows, &cov, &span);
    assert(out@ =~= old(out)@ + table_html(rows_view(rows@)));
}

} // verus!
