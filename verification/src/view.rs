//! The data-view layer's exact parts: the filter operators and sort order a view names, the
//! page window of a result, and the JSON page the view endpoint returns. Comparing cells
//! (numbers are compared as floating point) stays with the caller.

use vstd::prelude::*;
use crate::lower::{join_comma, join_strs};
use crate::parser::strings_v;
use crate::text::{chars_of, dec_digits, push_char, push_decimal, push_str, string_from};

verus! {

/// A filter's comparison.
#[derive(Debug, Clone, Copy, PartialEq, Eq, Structural)]
pub enum Op {
    Eq,
    Ne,
    Gt,
    Ge,
    Lt,
    Le,
    Contains,
}

/// Sort direction.
#[derive(Debug, Clone, Copy, PartialEq, Eq, Structural)]
pub enum SortDir {
    Asc,
    Desc,
}

/// Sort the rows by a column.
#[derive(Debug, Clone)]
pub struct Sort {
    pub column: String,
    pub dir: SortDir,
}

/// Which rows of a result of `total` rows a page shows, and how many pages there are.
#[derive(Debug, Clone, Copy, PartialEq, Eq, Structural)]
pub struct PageWindow {
    /// The page size in effect (an unpaged view shows every row on one page).
    pub page_size: usize,
    pub total_pages: usize,
    /// The first row shown.
    pub start: usize,
    /// One past the last row shown.
    pub end: usize,
}

/// The page size in effect: the asked size, or for 0 (unpaged) all rows, at least 1.
pub open spec fn size_in_effect(total: nat, page_size: nat) -> nat {
    if page_size == 0 {
        if total > 1 {
            total
        } else {
            1
        }
    } else {
        page_size
    }
}

/// The number of pages: `total` divided by the size, rounded up.
pub open spec fn pages_for(total: nat, size: nat) -> nat {
    if total == 0 {
        0
    } else {
        ((total + size - 1) / (size as int)) as nat
    }
}

/// The first row of page `page`: `page * size`, saturating, and at most `total`.
pub open spec fn page_start(total: nat, page: nat, size: nat) -> nat {
    let p = if page * size > usize::MAX {
        usize::MAX as nat
    } else {
        page * size
    };
    if p < total {
        p
    } else {
        total
    }
}

pub open spec fn window_s(total: nat, page: nat, page_size: nat) -> PageWindow {
    let size = size_in_effect(total, page_size);
    let start = page_start(total, page, size);
    let end = if start + size < total {
        start + size
    } else {
        total
    };
    PageWindow {
        page_size: size as usize,
        total_pages: pages_for(total, size) as usize,
        start: start as usize,
        end: end as usize,
    }
}

proof fn lemma_ceil_div(total: int, size: int)
    requires
        total >= 0,
        size > 0,
    ensures
        (total + size - 1) / size == total / size + if total % size != 0 {
            1int
        } else {
            0int
        },
        0 <= total / size <= total,
        total % size != 0 ==> total / size < total,
{
    assert((total + size - 1) / size == total / size + if total % size != 0 {
        1int
    } else {
        0int
    }) by (nonlinear_arith)
        requires
            size > 0,
            total >= 0,
    ;
    assert(0 <= total / size <= total) by (nonlinear_arith)
        requires
            size > 0,
            total >= 0,
    ;
    assert(total % size != 0 ==> total > 0) by (nonlinear_arith)
        requires
            size > 0,
            total >= 0,
    ;
    if total % size != 0 {
        assert(size >= 2);
        assert(total / size < total) by (nonlinear_arith)
            requires
                size >= 2,
                total > 0,
        ;
    }
}

/// The page window for a result of `total` rows, page `page` (from 0) and page size
/// `page_size` (0 for unpaged).
pub fn page_window(total: usize, page: usize, page_size: usize) -> (w: PageWindow)
    ensures
        w == window_s(total as nat, page as nat, page_size as nat),
{
    let size: usize = if page_size == 0 {
        if total > 1 {
            total
        } else {
            1
        }
    } else {
        page_size
    };
    let total_pages: usize = if total == 0 {
        0
    } else {
        proof {
            lemma_ceil_div(total as int, size as int);
        }
        let q = total / size;
        if total % size != 0 {
            q + 1
        } else {
            q
        }
    };
    let p: usize = match page.checked_mul(size) {
        Some(x) => x,
        None => usize::MAX,
    };
    let start: usize = if p < total {
        p
    } else {
        total
    };
    let end: usize = if size < total - start {
        start + size
    } else {
        total
    };
    PageWindow { page_size: size, total_pages, start, end }
}

/// A page window shows a contiguous run of at most one page of rows within the result,
/// and the pages cover the result.
pub proof fn law_window_bounds(total: nat, page: nat, page_size: nat)
    requires
        total <= usize::MAX,
        page <= usize::MAX,
        page_size <= usize::MAX,
    ensures
        ({
            let w = window_s(total, page, page_size);
            &&& w.start <= w.end <= total
            &&& w.end - w.start <= w.page_size
            &&& w.page_size > 0
            &&& w.total_pages * w.page_size >= total
        }),
{
    let size = size_in_effect(total, page_size);
    if total > 0 {
        assert(pages_for(total, size) * size >= total) by (nonlinear_arith)
            requires
                size > 0,
                total > 0,
                pages_for(total, size) == (total + size - 1) / (size as int),
        ;
    }
    lemma_window_casts(total, page, page_size);
}

proof fn lemma_window_casts(total: nat, page: nat, page_size: nat)
    requires
        total <= usize::MAX,
        page <= usize::MAX,
        page_size <= usize::MAX,
    ensures
        pages_for(total, size_in_effect(total, page_size)) <= usize::MAX,
{
    let size = size_in_effect(total, page_size);
    if total > 0 {
        lemma_ceil_div(total as int, size as int);
    }
}

/// A text with backslashes and double quotes escaped by a backslash.
pub open spec fn esc_s(s: Seq<char>) -> Seq<char>
    decreases s.len(),
{
    if s.len() == 0 {
        Seq::empty()
    } else {
        esc_s(s.drop_last()) + if s.last() == '\\' || s.last() == '"' {
            seq!['\\', s.last()]
        } else {
            seq![s.last()]
        }
    }
}

/// `s` with backslashes and double quotes escaped.
pub fn esc(s: &str) -> (r: String)
    ensures
        r@ == esc_s(s@),
{
    let cs = chars_of(s);
    let mut o = String::new();
    let mut i: usize = 0;
    assert(s@.take(0) =~= Seq::<char>::empty());
    while i < cs.len()
        invariant
            i <= cs@.len(),
            cs@ == s@,
            o@ == esc_s(s@.take(i as int)),
        decreases cs.len() - i,
    {
        let c = cs[i];
        assert(s@.take(i + 1).drop_last() =~= s@.take(i as int));
        if c == '\\' || c == '"' {
            push_char(&mut o, '\\');
        }
        push_char(&mut o, c);
        i = i + 1;
    }
    assert(s@.take(cs@.len() as int) =~= s@);
    o
}

/// A quoted, escaped text.
pub open spec fn quoted(s: Seq<char>) -> Seq<char> {
    seq!['"'] + esc_s(s) + seq!['"']
}

/// The text of column `c` in a row of display texts; empty where the row has none.
pub open spec fn cell_at(row: Seq<Seq<char>>, c: int) -> Seq<char> {
    if 0 <= c < row.len() {
        row[c]
    } else {
        Seq::empty()
    }
}

/// A row as a JSON object from column names to display texts.
pub open spec fn row_json_s(cols: Seq<Seq<char>>, row: Seq<Seq<char>>) -> Seq<char> {
    seq!['{'] + join_comma(Seq::new(cols.len(), |c: int| quoted(cols[c]) + seq![':'] + quoted(cell_at(row, c))))
        + seq!['}']
}

pub open spec fn rows_v(rows: Seq<Vec<String>>) -> Seq<Seq<Seq<char>>> {
    rows.map_values(|r: Vec<String>| strings_v(r@))
}

/// A page as the view endpoint's JSON: pagination figures, the columns, and each row.
pub open spec fn page_json_s(
    total: nat,
    page: nat,
    page_size: nat,
    total_pages: nat,
    cols: Seq<Seq<char>>,
    rows: Seq<Seq<Seq<char>>>,
) -> Seq<char> {
    "{\"total\":"@ + dec_digits(total) + ",\"page\":"@ + dec_digits(page) + ",\"page_size\":"@
        + dec_digits(page_size) + ",\"total_pages\":"@ + dec_digits(total_pages) + ",\"columns\":["@
        + join_comma(cols.map_values(|c: Seq<char>| quoted(c))) + "],\"rows\":["@ + join_comma(
        rows.map_values(|r: Seq<Seq<char>>| row_json_s(cols, r)),
    ) + "]}"@
}

fn quoted_esc(s: &str) -> (r: String)
    ensures
        r@ == quoted(s@),
{
    let mut r = String::new();
    push_char(&mut r, '"');
    push_str(&mut r, esc(s).as_str());
    push_char(&mut r, '"');
    r
}

fn row_json(cols: &Vec<String>, row: &Vec<String>) -> (r: String)
    ensures
        r@ == row_json_s(strings_v(cols@), strings_v(row@)),
{
    let ghost cv = strings_v(cols@);
    let ghost rv = strings_v(row@);
    let ghost items = Seq::new(cv.len(), |c: int| quoted(cv[c]) + seq![':'] + quoted(cell_at(rv, c)));
    let mut parts: Vec<String> = Vec::new();
    let mut c: usize = 0;
    while c < cols.len()
        invariant
            c <= cols@.len(),
            cv == strings_v(cols@),
            rv == strings_v(row@),
            items == Seq::new(cv.len(), |c: int| quoted(cv[c]) + seq![':'] + quoted(cell_at(rv, c))),
            strings_v(parts@) == items.take(c as int),
        decreases cols.len() - c,
    {
        let mut p = quoted_esc(cols[c].as_str());
        push_char(&mut p, ':');
        let cell = if c < row.len() {
            quoted_esc(row[c].as_str())
        } else {
            quoted_esc("")
        };
        proof {
            reveal_strlit("");
        }
        push_str(&mut p, cell.as_str());
        assert(p@ == items[c as int]);
        let ghost before = parts@;
        parts.push(p);
        assert(strings_v(parts@) =~= strings_v(before).push(items[c as int]));
        assert(strings_v(parts@) =~= items.take(c + 1));
        c = c + 1;
    }
    assert(items.take(cols@.len() as int) =~= items);
    let mut r = String::new();
    push_char(&mut r, '{');
    push_str(&mut r, join_strs(&parts).as_str());
    push_char(&mut r, '}');
    r
}

/// A page as the view endpoint's JSON; `rows` holds each row's display texts in column
/// order.
pub fn page_json(
    total: usize,
    page: usize,
    page_size: usize,
    total_pages: usize,
    cols: &Vec<String>,
    rows: &Vec<Vec<String>>,
) -> (r: String)
    ensures
        r@ == page_json_s(
            total as nat,
            page as nat,
            page_size as nat,
            total_pages as nat,
            strings_v(cols@),
            rows_v(rows@),
        ),
{
    let ghost cv = strings_v(cols@);
    let mut cparts: Vec<String> = Vec::new();
    let mut i: usize = 0;
    while i < cols.len()
        invariant
            i <= cols@.len(),
            cv == strings_v(cols@),
            strings_v(cparts@) == cv.map_values(|c: Seq<char>| quoted(c)).take(i as int),
        decreases cols.len() - i,
    {
        let q = quoted_esc(cols[i].as_str());
        let ghost before = cparts@;
        cparts.push(q);
        assert(strings_v(cparts@) =~= strings_v(before).push(q@));
        assert(strings_v(cparts@) =~= cv.map_values(|c: Seq<char>| quoted(c)).take(i + 1));
        i = i + 1;
    }
    assert(cv.map_values(|c: Seq<char>| quoted(c)).take(cols@.len() as int) =~= cv.map_values(
        |c: Seq<char>| quoted(c),
    ));
    let ghost rv = rows_v(rows@);
    let mut rparts: Vec<String> = Vec::new();
    let mut j: usize = 0;
    while j < rows.len()
        invariant
            j <= rows@.len(),
            cv == strings_v(cols@),
            rv == rows_v(rows@),
            strings_v(rparts@) == rv.map_values(|r: Seq<Seq<char>>| row_json_s(cv, r)).take(j as int),
        decreases rows.len() - j,
    {
        let rj = row_json(cols, &rows[j]);
        assert(rv[j as int] == strings_v(rows@[j as int]@));
        let ghost before = rparts@;
        rparts.push(rj);
        assert(strings_v(rparts@) =~= strings_v(before).push(rj@));
        assert(strings_v(rparts@) =~= rv.map_values(|r: Seq<Seq<char>>| row_json_s(cv, r)).take(
            j + 1,
        ));
        j = j + 1;
    }
    assert(rv.map_values(|r: Seq<Seq<char>>| row_json_s(cv, r)).take(rows@.len() as int)
        =~= rv.map_values(|r: Seq<Seq<char>>| row_json_s(cv, r)));
    let mut s = string_from("{\"total\":");
    push_decimal(&mut s, total as u64);
    push_str(&mut s, ",\"page\":");
    push_decimal(&mut s, page as u64);
    push_str(&mut s, ",\"page_size\":");
    push_decimal(&mut s, page_size as u64);
    push_str(&mut s, ",\"total_pages\":");
    push_decimal(&mut s, total_pages as u64);
    push_str(&mut s, ",\"columns\":[");
    push_str(&mut s, join_strs(&cparts).as_str());
    push_str(&mut s, "],\"rows\":[");
    push_str(&mut s, join_strs(&rparts).as_str());
    push_str(&mut s, "]}");
    s
}

} // verus!
