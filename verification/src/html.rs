//! Scanner for the quote source's HTML tables, and the quote and page
//! parsers built on it.

use vstd::prelude::*;

use crate::parse::spec_strip_commas;
use crate::parse::spec_parse_int;
use crate::parse::chars_of;
use crate::parse::parse_comma_int;
use crate::parse::parse_comma_centi;
use crate::parse::spec_parse_centi;
use crate::model::StockQuote;
use crate::model::StockQuotePage;
use crate::model::IndexQuote;
use crate::model::IndexQuotePage;
use crate::util::string_of_chars;

verus! {

/// State of the table scanner: rows finished so far, the open row and
/// cell, the text run being gathered, and the tag being read.
pub struct Scan {
    pub rows: Seq<Seq<Seq<char>>>,
    pub row: Seq<Seq<char>>,
    pub in_row: bool,
    pub cell: Seq<char>,
    pub in_cell: bool,
    pub run: Seq<char>,
    pub ws: Seq<char>,
    pub in_tag: bool,
    pub tag: Seq<char>,
}

pub open spec fn scan_init() -> Scan {
    Scan {
        rows: Seq::empty(),
        row: Seq::empty(),
        in_row: false,
        cell: Seq::empty(),
        in_cell: false,
        run: Seq::empty(),
        ws: Seq::empty(),
        in_tag: false,
        tag: Seq::empty(),
    }
}

pub open spec fn is_ws(c: char) -> bool {
    c == ' ' || c == '\t' || c == '\n' || c == '\r'
}

/// Letters and digits, as they may continue a tag name.
pub open spec fn is_name_char(c: char) -> bool {
    (48 <= c as u32 && c as u32 <= 57) || (65 <= c as u32 && c as u32 <= 90) || (97 <= c as u32
        && c as u32 <= 122)
}

/// The tag text opens an element named by the two given letters.
pub open spec fn tag_opens(tag: Seq<char>, a: char, b: char) -> bool {
    tag.len() >= 2 && tag[0] == a && tag[1] == b && (tag.len() == 2 || !is_name_char(tag[2]))
}

/// The tag text closes an element named by the two given letters.
pub open spec fn tag_closes(tag: Seq<char>, a: char, b: char) -> bool {
    tag.len() >= 3 && tag[0] == '/' && tag[1] == a && tag[2] == b && (tag.len() == 3
        || !is_name_char(tag[3]))
}

/// End the text run: inside a cell its kept part joins the cell's text;
/// pending trailing whitespace is dropped, as each text run is trimmed.
pub open spec fn scan_commit_run(st: Scan) -> Scan {
    Scan {
        rows: st.rows,
        row: st.row,
        in_row: st.in_row,
        cell: if st.in_cell {
            st.cell + st.run
        } else {
            st.cell
        },
        in_cell: st.in_cell,
        run: Seq::empty(),
        ws: Seq::empty(),
        in_tag: st.in_tag,
        tag: st.tag,
    }
}

/// Close the open cell, appending its text to the open row.
pub open spec fn scan_close_cell(st: Scan) -> Scan {
    let st2 = scan_commit_run(st);
    if st2.in_cell {
        Scan {
            rows: st2.rows,
            row: st2.row.push(st2.cell),
            in_row: st2.in_row,
            cell: Seq::empty(),
            in_cell: false,
            run: st2.run,
            ws: st2.ws,
            in_tag: st2.in_tag,
            tag: st2.tag,
        }
    } else {
        st2
    }
}

/// Close the open row, appending it to the finished rows.
pub open spec fn scan_close_row(st: Scan) -> Scan {
    let st2 = scan_close_cell(st);
    if st2.in_row {
        Scan {
            rows: st2.rows.push(st2.row),
            row: Seq::empty(),
            in_row: false,
            cell: st2.cell,
            in_cell: st2.in_cell,
            run: st2.run,
            ws: st2.ws,
            in_tag: st2.in_tag,
            tag: st2.tag,
        }
    } else {
        st2
    }
}

/// Act on a complete tag: row tags close and open rows, cell tags close
/// and open cells (a cell outside any row opens one), anything else is
/// ignored. The tag buffer is cleared either way.
pub open spec fn scan_apply_tag(st: Scan) -> Scan {
    let t = st.tag;
    let st2 = if tag_opens(t, 't', 'r') {
        let c = scan_close_row(st);
        Scan {
            rows: c.rows,
            row: c.row,
            in_row: true,
            cell: c.cell,
            in_cell: c.in_cell,
            run: c.run,
            ws: c.ws,
            in_tag: c.in_tag,
            tag: c.tag,
        }
    } else if tag_closes(t, 't', 'r') {
        scan_close_row(st)
    } else if tag_opens(t, 't', 'd') {
        let c = scan_close_cell(st);
        Scan {
            rows: c.rows,
            row: c.row,
            in_row: true,
            cell: Seq::empty(),
            in_cell: true,
            run: c.run,
            ws: c.ws,
            in_tag: c.in_tag,
            tag: c.tag,
        }
    } else if tag_closes(t, 't', 'd') {
        scan_close_cell(st)
    } else {
        st
    };
    Scan {
        rows: st2.rows,
        row: st2.row,
        in_row: st2.in_row,
        cell: st2.cell,
        in_cell: st2.in_cell,
        run: st2.run,
        ws: st2.ws,
        in_tag: false,
        tag: Seq::empty(),
    }
}

/// One character of input fed to the scanner.
pub open spec fn scan_step(st: Scan, c: char) -> Scan {
    if st.in_tag {
        if c == '>' {
            scan_apply_tag(st)
        } else {
            Scan {
                rows: st.rows,
                row: st.row,
                in_row: st.in_row,
                cell: st.cell,
                in_cell: st.in_cell,
                run: st.run,
                ws: st.ws,
                in_tag: true,
                tag: st.tag.push(c),
            }
        }
    } else if c == '<' {
        let st2 = scan_commit_run(st);
        Scan {
            rows: st2.rows,
            row: st2.row,
            in_row: st2.in_row,
            cell: st2.cell,
            in_cell: st2.in_cell,
            run: st2.run,
            ws: st2.ws,
            in_tag: true,
            tag: Seq::empty(),
        }
    } else if !st.in_cell {
        st
    } else if is_ws(c) {
        if st.run.len() == 0 {
            st
        } else {
            Scan {
                rows: st.rows,
                row: st.row,
                in_row: st.in_row,
                cell: st.cell,
                in_cell: st.in_cell,
                run: st.run,
                ws: st.ws.push(c),
                in_tag: st.in_tag,
                tag: st.tag,
            }
        }
    } else {
        Scan {
            rows: st.rows,
            row: st.row,
            in_row: st.in_row,
            cell: st.cell,
            in_cell: st.in_cell,
            run: st.run + st.ws + seq![c],
            ws: Seq::empty(),
            in_tag: st.in_tag,
            tag: st.tag,
        }
    }
}

/// The scanner run over a whole text.
pub open spec fn scan_text(s: Seq<char>) -> Scan
    decreases s.len(),
{
    if s.len() == 0 {
        scan_init()
    } else {
        scan_step(scan_text(s.drop_last()), s.last())
    }
}

/// The table rows of a text: each row the trimmed inner texts of its
/// cells, any trailing open row or cell closed at the end.
pub open spec fn spec_rows(s: Seq<char>) -> Seq<Seq<Seq<char>>> {
    scan_close_row(scan_text(s)).rows
}

/// Exec counterpart of the scanner state.
struct HtmlScanner {
    rows: Vec<Vec<String>>,
    row: Vec<String>,
    in_row: bool,
    cell: Vec<char>,
    in_cell: bool,
    run: Vec<char>,
    ws: Vec<char>,
    in_tag: bool,
    tag: Vec<char>,
}

impl HtmlScanner {
    spec fn abs(&self) -> Scan {
        Scan {
            rows: self.rows.deep_view(),
            row: self.row.deep_view(),
            in_row: self.in_row,
            cell: self.cell@,
            in_cell: self.in_cell,
            run: self.run@,
            ws: self.ws@,
            in_tag: self.in_tag,
            tag: self.tag@,
        }
    }

    fn new() -> (r: Self)
        ensures
            r.abs() == scan_init(),
    {
        let r = HtmlScanner {
            rows: Vec::new(),
            row: Vec::new(),
            in_row: false,
            cell: Vec::new(),
            in_cell: false,
            run: Vec::new(),
            ws: Vec::new(),
            in_tag: false,
            tag: Vec::new(),
        };
        proof {
            assert(r.rows.deep_view() =~= Seq::<Seq<Seq<char>>>::empty());
            assert(r.row.deep_view() =~= Seq::<Seq<char>>::empty());
        }
        r
    }

    fn commit_run(&mut self)
        ensures
            final(self).abs() == scan_commit_run(old(self).abs()),
    {
        if self.in_cell {
            self.cell.append(&mut self.run);
        } else {
            self.run.clear();
        }
        self.ws.clear();
    }

    fn close_cell(&mut self)
        ensures
            final(self).abs() == scan_close_cell(old(self).abs()),
    {
        self.commit_run();
        if self.in_cell {
            let text = string_of_chars(&self.cell);
            self.row.push(text);
            self.cell.clear();
            self.in_cell = false;
            proof {
                assert(self.row.deep_view() =~= scan_close_cell(old(self).abs()).row);
            }
        }
    }

    fn close_row(&mut self)
        ensures
            final(self).abs() == scan_close_row(old(self).abs()),
    {
        self.close_cell();
        if self.in_row {
            let mut fresh: Vec<String> = Vec::new();
            core::mem::swap(&mut self.row, &mut fresh);
            self.rows.push(fresh);
            self.in_row = false;
            proof {
                assert(self.rows.deep_view() =~= scan_close_row(old(self).abs()).rows);
                assert(self.row.deep_view() =~= Seq::<Seq<char>>::empty());
            }
        }
    }

    fn tag_matches(&self, close: bool, a: char, b: char) -> (r: bool)
        ensures
            r == if close {
                tag_closes(self.tag@, a, b)
            } else {
                tag_opens(self.tag@, a, b)
            },
    {
        let off: usize = if close {
            1
        } else {
            0
        };
        let t = &self.tag;
        if t.len() < off + 2 {
            return false;
        }
        if close && t[0] != '/' {
            return false;
        }
        if t[off] != a || t[off + 1] != b {
            return false;
        }
        if t.len() == off + 2 {
            return true;
        }
        let c = t[off + 2];
        let u = c as u32;
        !((48 <= u && u <= 57) || (65 <= u && u <= 90) || (97 <= u && u <= 122))
    }

    fn apply_tag(&mut self)
        ensures
            final(self).abs() == scan_apply_tag(old(self).abs()),
    {
        if self.tag_matches(false, 't', 'r') {
            self.close_row();
            self.in_row = true;
        } else if self.tag_matches(true, 't', 'r') {
            self.close_row();
        } else if self.tag_matches(false, 't', 'd') {
            self.close_cell();
            self.in_row = true;
            self.in_cell = true;
            self.cell.clear();
        } else if self.tag_matches(true, 't', 'd') {
            self.close_cell();
        }
        self.in_tag = false;
        self.tag.clear();
    }

    fn step(&mut self, c: char)
        ensures
            final(self).abs() == scan_step(old(self).abs(), c),
    {
        if self.in_tag {
            if c == '>' {
                self.apply_tag();
            } else {
                self.tag.push(c);
            }
        } else if c == '<' {
            self.commit_run();
            self.in_tag = true;
            self.tag.clear();
        } else if !self.in_cell {
        } else if c == ' ' || c == '\t' || c == '\n' || c == '\r' {
            if self.run.len() > 0 {
                self.ws.push(c);
            }
        } else {
            self.run.append(&mut self.ws);
            self.run.push(c);
            proof {
                assert(self.run@ =~= old(self).run@ + old(self).ws@ + seq![c]);
            }
        }
    }
}

/// Scan a quote table: the trimmed inner texts of every cell, grouped by
/// row.
pub fn scan_html_rows(html: &str) -> (r: Vec<Vec<String>>)
    ensures
        r.deep_view() == spec_rows(html@),
{
    let chars = chars_of(html);
    let n = chars.len();
    let mut sc = HtmlScanner::new();
    let mut i: usize = 0;
    proof {
        assert(chars@.take(0) =~= Seq::<char>::empty());
    }
    while i < n
        invariant
            i <= n,
            n == chars@.len(),
            chars@ == html@,
            sc.abs() == scan_text(chars@.take(i as int)),
        decreases n - i,
    {
        proof {
            assert(chars@.take(i + 1).drop_last() =~= chars@.take(i as int));
            assert(chars@.take(i + 1).last() == chars@[i as int]);
        }
        sc.step(chars[i]);
        i += 1;
    }
    proof {
        assert(chars@.take(n as int) =~= chars@);
    }
    sc.close_row();
    let HtmlScanner { rows, .. } = sc;
    rows
}

/// Whether `needle` occurs as a contiguous run within `hay`.
pub open spec fn spec_contains_seq(hay: Seq<char>, needle: Seq<char>) -> bool {
    exists|i: int|
        0 <= i && i + needle.len() <= hay.len() && #[trigger] hay.subrange(i, i + needle.len())
            == needle
}

fn contains_chars(hay: &Vec<char>, needle: &Vec<char>) -> (r: bool)
    ensures
        r == spec_contains_seq(hay@, needle@),
{
    let n = hay.len();
    let m = needle.len();
    if m == 0 {
        proof {
            assert(hay@.subrange(0, 0 + needle@.len() as int) =~= needle@);
        }
        return true;
    }
    if m > n {
        proof {
            if spec_contains_seq(hay@, needle@) {
                let i = choose|i: int|
                    0 <= i && i + needle@.len() <= hay@.len() && #[trigger] hay@.subrange(
                        i,
                        i + needle@.len(),
                    ) == needle@;
            }
        }
        return false;
    }
    let mut i: usize = 0;
    while i <= n - m
        invariant
            1 <= m <= n,
            n == hay@.len(),
            m == needle@.len(),
            i <= n - m + 1,
            forall|k: int| 0 <= k < i ==> #[trigger] hay@.subrange(k, k + needle@.len())
                != needle@,
        decreases n - m + 1 - i,
    {
        let mut j: usize = 0;
        let mut hit = true;
        while j < m
            invariant
                i + m <= n,
                n == hay@.len(),
                m == needle@.len(),
                j <= m,
                hit ==> forall|t: int| 0 <= t < j ==> hay@[i + t] == needle@[t],
                !hit ==> hay@.subrange(i as int, i + needle@.len()) != needle@,
            decreases m - j,
        {
            if hay[i + j] != needle[j] {
                proof {
                    assert(hay@.subrange(i as int, i + needle@.len())[j as int] == hay@[i
                        + j]);
                }
                hit = false;
                j = m;
            } else {
                j += 1;
            }
        }
        if hit {
            proof {
                assert(hay@.subrange(i as int, i + needle@.len()) =~= needle@);
            }
            return true;
        }
        i += 1;
    }
    proof {
        if spec_contains_seq(hay@, needle@) {
            let k = choose|k: int|
                0 <= k && k + needle@.len() <= hay@.len() && #[trigger] hay@.subrange(
                    k,
                    k + needle@.len(),
                ) == needle@;
        }
    }
    false
}

/// The pager marks every page but the final one with this token.
pub fn html_has_more_pages(html: &str) -> (r: bool)
    ensures
        r == spec_contains_seq(html@, "pgRR"@),
{
    let hay = chars_of(html);
    let needle = chars_of("pgRR");
    contains_chars(&hay, &needle)
}

/// Whether a cell's text denotes an `i64`, commas ignored.
pub open spec fn cell_int_ok(c: Seq<char>) -> bool {
    match spec_parse_int(spec_strip_commas(c)) {
        Some(v) => i64::MIN <= v <= i64::MAX,
        None => false,
    }
}

/// The value a cell's text denotes, commas ignored.
pub open spec fn cell_int_val(c: Seq<char>) -> int {
    match spec_parse_int(spec_strip_commas(c)) {
        Some(v) => v,
        None => 0,
    }
}

/// Whether a cell's text denotes a two-decimal point value within range.
pub open spec fn cell_centi_ok(c: Seq<char>) -> bool {
    match spec_parse_centi(c) {
        Some(v) => i64::MIN <= v <= i64::MAX,
        None => false,
    }
}

/// The hundredths value a cell's text denotes.
pub open spec fn cell_centi_val(c: Seq<char>) -> int {
    match spec_parse_centi(c) {
        Some(v) => v,
        None => 0,
    }
}

/// An equity table row with enough cells and numeric price, delta and
/// volume columns (the first, second, seventh and sixth cells).
pub open spec fn stock_row_ok(cells: Seq<Seq<char>>) -> bool {
    cells.len() >= 7 && cell_int_ok(cells[1]) && cell_int_ok(cells[6]) && cell_int_ok(cells[5])
}

/// The equity quote a well-formed row denotes.
pub open spec fn stock_quote_matches(q: StockQuote, cells: Seq<Seq<char>>) -> bool {
    &&& q.time@ == cells[0]
    &&& q.value as int == cell_int_val(cells[1])
    &&& q.trading_vol_move as int == cell_int_val(cells[6])
    &&& q.trading_volume as int == cell_int_val(cells[5])
}

/// An index table row with enough cells and numeric value, delta and
/// volume columns (the first, second, fourth and fifth cells; the value
/// column is a two-decimal point count).
pub open spec fn index_row_ok(cells: Seq<Seq<char>>) -> bool {
    cells.len() >= 5 && cell_centi_ok(cells[1]) && cell_int_ok(cells[3]) && cell_int_ok(
        cells[4],
    )
}

/// The index quote a well-formed row denotes.
pub open spec fn index_quote_matches(q: IndexQuote, cells: Seq<Seq<char>>) -> bool {
    &&& q.time@ == cells[0]
    &&& q.value as int == cell_centi_val(cells[1])
    &&& q.trading_vol_move as int == cell_int_val(cells[3])
    &&& q.trading_volume as int == cell_int_val(cells[4])
}

/// Read one equity quote out of a row's cell texts.
pub fn stock_quote_of_cells(cells: &Vec<String>) -> (r: Option<StockQuote>)
    ensures
        r is Some <==> stock_row_ok(cells.deep_view()),
        r matches Some(q) ==> stock_quote_matches(q, cells.deep_view()),
{
    proof {
        assert(forall|i: int|
            0 <= i < cells@.len() ==> cells.deep_view()[i] == (#[trigger] cells@[i])@);
    }
    if cells.len() < 7 {
        return None;
    }
    let value = match parse_comma_int(cells[1].as_str()) {
        Some(v) => v,
        None => {
            return None;
        },
    };
    let vol_move = match parse_comma_int(cells[6].as_str()) {
        Some(v) => v,
        None => {
            return None;
        },
    };
    let volume = match parse_comma_int(cells[5].as_str()) {
        Some(v) => v,
        None => {
            return None;
        },
    };
    Some(
        StockQuote {
            time: cells[0].clone(),
            value,
            trading_vol_move: vol_move,
            trading_volume: volume,
        },
    )
}

/// Read one index quote out of a row's cell texts.
pub fn index_quote_of_cells(cells: &Vec<String>) -> (r: Option<IndexQuote>)
    ensures
        r is Some <==> index_row_ok(cells.deep_view()),
        r matches Some(q) ==> index_quote_matches(q, cells.deep_view()),
{
    proof {
        assert(forall|i: int|
            0 <= i < cells@.len() ==> cells.deep_view()[i] == (#[trigger] cells@[i])@);
    }
    if cells.len() < 5 {
        return None;
    }
    let value = match parse_comma_centi(cells[1].as_str()) {
        Some(v) => v,
        None => {
            return None;
        },
    };
    let vol_move = match parse_comma_int(cells[3].as_str()) {
        Some(v) => v,
        None => {
            return None;
        },
    };
    let volume = match parse_comma_int(cells[4].as_str()) {
        Some(v) => v,
        None => {
            return None;
        },
    };
    Some(
        IndexQuote {
            time: cells[0].clone(),
            value,
            trading_vol_move: vol_move,
            trading_volume: volume,
        },
    )
}

/// The cells of all rows, in order.
pub open spec fn spec_all_cells(rows: Seq<Seq<Seq<char>>>) -> Seq<Seq<char>>
    decreases rows.len(),
{
    if rows.len() == 0 {
        Seq::empty()
    } else {
        spec_all_cells(rows.drop_last()) + rows.last()
    }
}

/// All cell texts of a table, rows flattened in order.
fn all_cells(html: &str) -> (r: Vec<String>)
    ensures
        r.deep_view() == spec_all_cells(spec_rows(html@)),
{
    let rows = scan_html_rows(html);
    let mut r: Vec<String> = Vec::new();
    let n = rows.len();
    let mut i: usize = 0;
    proof {
        assert(r.deep_view() =~= spec_all_cells(rows.deep_view().take(0)));
    }
    while i < n
        invariant
            i <= n,
            n == rows@.len(),
            rows.deep_view() == spec_rows(html@),
            r.deep_view() == spec_all_cells(rows.deep_view().take(i as int)),
        decreases n - i,
    {
        proof {
            assert(rows.deep_view().take(i + 1).drop_last() =~= rows.deep_view().take(
                i as int,
            ));
            assert(rows.deep_view().take(i + 1).last() == rows.deep_view()[i as int]);
        }
        let m = rows[i].len();
        let mut j: usize = 0;
        while j < m
            invariant
                i < n,
                n == rows@.len(),
                m == rows@[i as int]@.len(),
                j <= m,
                rows.deep_view()[i as int] == rows@[i as int].deep_view(),
                r.deep_view() == spec_all_cells(rows.deep_view().take(i as int))
                    + rows.deep_view()[i as int].take(j as int),
            decreases m - j,
        {
            let ghost r0 = r.deep_view();
            r.push(rows[i][j].clone());
            proof {
                assert(r.deep_view() =~= r0.push(rows@[i as int]@[j as int]@));
                assert(rows@[i as int].deep_view().take(j + 1) =~= rows@[i as int
                ].deep_view().take(j as int).push(rows@[i as int]@[j as int]@));
                assert(r.deep_view() =~= spec_all_cells(rows.deep_view().take(i as int))
                    + rows.deep_view()[i as int].take(j + 1));
            }
            j += 1;
        }
        proof {
            assert(rows.deep_view()[i as int].take(m as int) =~= rows.deep_view()[i as int]);
        }
        i += 1;
    }
    proof {
        assert(rows.deep_view().take(n as int) =~= rows.deep_view());
    }
    r
}

/// Read one equity quote from a table snippet: the leading cells of the
/// table supply the quote's columns.
pub fn parse_stock_quote(html: &str) -> (r: Option<StockQuote>)
    ensures
        r is Some <==> stock_row_ok(spec_all_cells(spec_rows(html@))),
        r matches Some(q) ==> stock_quote_matches(q, spec_all_cells(spec_rows(html@))),
{
    let cells = all_cells(html);
    stock_quote_of_cells(&cells)
}

/// Read one index quote from a table snippet: the leading cells of the
/// table supply the quote's columns.
pub fn parse_index_quote(html: &str) -> (r: Option<IndexQuote>)
    ensures
        r is Some <==> index_row_ok(spec_all_cells(spec_rows(html@))),
        r matches Some(q) ==> index_quote_matches(q, spec_all_cells(spec_rows(html@))),
{
    let cells = all_cells(html);
    index_quote_of_cells(&cells)
}

/// Parse one page of an equity quote table: one quote per row that
/// carries the columns, and the pager's final-page mark.
pub fn parse_stock_quote_page(html: &str) -> (r: StockQuotePage)
    ensures
        r.is_last == !spec_contains_seq(html@, "pgRR"@),
        r.quotes@.len() == spec_rows(html@).filter(|c: Seq<Seq<char>>| stock_row_ok(c)).len(),
        forall|i: int|
            0 <= i < r.quotes@.len() ==> stock_quote_matches(
                #[trigger] r.quotes@[i],
                spec_rows(html@).filter(|c: Seq<Seq<char>>| stock_row_ok(c))[i],
            ),
{
    let ghost ok = |c: Seq<Seq<char>>| stock_row_ok(c);
    let rows = scan_html_rows(html);
    let mut quotes: Vec<StockQuote> = Vec::new();
    let n = rows.len();
    let mut i: usize = 0;
    proof {
        assert(rows.deep_view().take(0).filter(ok) =~= Seq::<Seq<Seq<char>>>::empty()) by {
            reveal(Seq::filter);
            assert(rows.deep_view().take(0) =~= Seq::<Seq<Seq<char>>>::empty());
        }
    }
    while i < n
        invariant
            i <= n,
            n == rows@.len(),
            rows.deep_view() == spec_rows(html@),
            ok == (|c: Seq<Seq<char>>| stock_row_ok(c)),
            quotes@.len() == rows.deep_view().take(i as int).filter(ok).len(),
            forall|k: int|
                0 <= k < quotes@.len() ==> stock_quote_matches(
                    #[trigger] quotes@[k],
                    rows.deep_view().take(i as int).filter(ok)[k],
                ),
        decreases n - i,
    {
        proof {
            crate::seqtools::lemma_filter_take_step(rows.deep_view(), ok, i as int);
            assert(rows.deep_view()[i as int] == rows@[i as int].deep_view());
        }
        match stock_quote_of_cells(&rows[i]) {
            Some(q) => {
                quotes.push(q);
            },
            None => {},
        }
        i += 1;
    }
    proof {
        assert(rows.deep_view().take(n as int) =~= rows.deep_view());
    }
    let is_last = !html_has_more_pages(html);
    StockQuotePage { quotes, is_last }
}

/// Parse one page of an index quote table: one quote per row that
/// carries the columns, and the pager's final-page mark.
pub fn parse_index_quote_page(html: &str) -> (r: IndexQuotePage)
    ensures
        r.is_last == !spec_contains_seq(html@, "pgRR"@),
        r.quotes@.len() == spec_rows(html@).filter(|c: Seq<Seq<char>>| index_row_ok(c)).len(),
        forall|i: int|
            0 <= i < r.quotes@.len() ==> index_quote_matches(
                #[trigger] r.quotes@[i],
                spec_rows(html@).filter(|c: Seq<Seq<char>>| index_row_ok(c))[i],
            ),
{
    let ghost ok = |c: Seq<Seq<char>>| index_row_ok(c);
    let rows = scan_html_rows(html);
    let mut quotes: Vec<IndexQuote> = Vec::new();
    let n = rows.len();
    let mut i: usize = 0;
    proof {
        assert(rows.deep_view().take(0).filter(ok) =~= Seq::<Seq<Seq<char>>>::empty()) by {
            reveal(Seq::filter);
            assert(rows.deep_view().take(0) =~= Seq::<Seq<Seq<char>>>::empty());
        }
    }
    while i < n
        invariant
            i <= n,
            n == rows@.len(),
            rows.deep_view() == spec_rows(html@),
            ok == (|c: Seq<Seq<char>>| index_row_ok(c)),
            quotes@.len() == rows.deep_view().take(i as int).filter(ok).len(),
            forall|k: int|
                0 <= k < quotes@.len() ==> index_quote_matches(
                    #[trigger] quotes@[k],
                    rows.deep_view().take(i as int).filter(ok)[k],
                ),
        decreases n - i,
    {
        proof {
            crate::seqtools::lemma_filter_take_step(rows.deep_view(), ok, i as int);
            assert(rows.deep_view()[i as int] == rows@[i as int].deep_view());
        }
        match index_quote_of_cells(&rows[i]) {
            Some(q) => {
                quotes.push(q);
            },
            None => {},
        }
        i += 1;
    }
    proof {
        assert(rows.deep_view().take(n as int) =~= rows.deep_view());
    }
    let is_last = !html_has_more_pages(html);
    IndexQuotePage { quotes, is_last }
}

} // verus!
