//! Textual form of puzzles: rendering a grid as bracketed rows, reading
//! the digits back out of rendered text, and parsing puzzle records.

use vstd::prelude::*;
use vstd::string::StrSliceExecFns;
use vstd::string::StringExecFns;

use crate::grid::cell;
use crate::grid::wf_grid;
use crate::grid::Sudoku;

verus! {

/// `ch` is a decimal digit character.
pub open spec fn is_digit_char(ch: char) -> bool {
    ||| ch == '0'
    ||| ch == '1'
    ||| ch == '2'
    ||| ch == '3'
    ||| ch == '4'
    ||| ch == '5'
    ||| ch == '6'
    ||| ch == '7'
    ||| ch == '8'
    ||| ch == '9'
}

/// The numeric value of a digit character (`0` for anything else).
pub open spec fn digit_val(ch: char) -> u8 {
    if ch == '1' {
        1
    } else if ch == '2' {
        2
    } else if ch == '3' {
        3
    } else if ch == '4' {
        4
    } else if ch == '5' {
        5
    } else if ch == '6' {
        6
    } else if ch == '7' {
        7
    } else if ch == '8' {
        8
    } else if ch == '9' {
        9
    } else {
        0
    }
}

/// The digit character for a value in `0..=9`.
pub open spec fn digit_char(v: u8) -> char {
    if v == 0 {
        '0'
    } else if v == 1 {
        '1'
    } else if v == 2 {
        '2'
    } else if v == 3 {
        '3'
    } else if v == 4 {
        '4'
    } else if v == 5 {
        '5'
    } else if v == 6 {
        '6'
    } else if v == 7 {
        '7'
    } else if v == 8 {
        '8'
    } else {
        '9'
    }
}

/// The values of the digit characters of `s`, in order, with every other
/// character ignored.
pub open spec fn digits_of(s: Seq<char>) -> Seq<u8>
    decreases s.len(),
{
    if s.len() == 0 {
        Seq::empty()
    } else if is_digit_char(s[0]) {
        seq![digit_val(s[0])] + digits_of(s.subrange(1, s.len() as int))
    } else {
        digits_of(s.subrange(1, s.len() as int))
    }
}

/// Digit extraction distributes over concatenation.
proof fn lemma_digits_of_concat(a: Seq<char>, b: Seq<char>)
    ensures
        digits_of(a + b) == digits_of(a) + digits_of(b),
    decreases a.len(),
{
    if a.len() == 0 {
        assert(a + b =~= b);
        assert(digits_of(a) + digits_of(b) =~= digits_of(b));
    } else {
        let t = a.subrange(1, a.len() as int);
        lemma_digits_of_concat(t, b);
        assert((a + b).subrange(1, (a + b).len() as int) =~= t + b);
        assert((a + b)[0] == a[0]);
        if is_digit_char(a[0]) {
            assert(digits_of(a + b) == seq![digit_val(a[0])] + (digits_of(t) + digits_of(b)));
            assert(seq![digit_val(a[0])] + (digits_of(t) + digits_of(b)) =~= (seq![
                digit_val(a[0]),
            ] + digits_of(t)) + digits_of(b));
        }
    }
}

/// The digits of a one-character text.
proof fn lemma_digits_of_single(ch: char)
    ensures
        is_digit_char(ch) ==> digits_of(seq![ch]) == seq![digit_val(ch)],
        !is_digit_char(ch) ==> digits_of(seq![ch]) == Seq::<u8>::empty(),
{
    let s = seq![ch];
    assert(s.len() == 1 && s[0] == ch);
    assert(s.subrange(1, 1) =~= Seq::<char>::empty());
    assert(digits_of(s.subrange(1, 1)) == Seq::<u8>::empty());
    if is_digit_char(ch) {
        assert(digits_of(s) == seq![digit_val(ch)] + Seq::<u8>::empty());
        assert(seq![digit_val(ch)] + Seq::<u8>::empty() =~= seq![digit_val(ch)]);
    } else {
        assert(digits_of(s) == Seq::<u8>::empty());
    }
}

/// The numeric value of a digit character, or `None` for any other
/// character.
fn digit_of_char(ch: char) -> (r: Option<u8>)
    ensures
        r is Some <==> is_digit_char(ch),
        r matches Some(v) ==> v == digit_val(ch),
{
    if ch == '0' {
        Some(0)
    } else if ch == '1' {
        Some(1)
    } else if ch == '2' {
        Some(2)
    } else if ch == '3' {
        Some(3)
    } else if ch == '4' {
        Some(4)
    } else if ch == '5' {
        Some(5)
    } else if ch == '6' {
        Some(6)
    } else if ch == '7' {
        Some(7)
    } else if ch == '8' {
        Some(8)
    } else if ch == '9' {
        Some(9)
    } else {
        None
    }
}

/// Collects the values of all digit characters of `s`, in order, ignoring
/// every other character (brackets, commas, spaces, line breaks).
pub fn extract_digits(s: &str) -> (ds: Vec<u8>)
    ensures
        ds@ == digits_of(s@),
{
    let n = s.unicode_len();
    let mut ds: Vec<u8> = Vec::new();
    let mut i: usize = 0;
    while i < n
        invariant
            n == s@.len(),
            i <= n,
            ds@ == digits_of(s@.subrange(0, i as int)),
        decreases n - i,
    {
        let ch = s.get_char(i);
        let ghost pre = ds@;
        match digit_of_char(ch) {
            Some(v) => {
                ds.push(v);
            },
            None => {},
        }
        proof {
            lemma_digits_of_concat(s@.subrange(0, i as int), seq![s@[i as int]]);
            lemma_digits_of_single(s@[i as int]);
            assert(s@.subrange(0, i as int) + seq![s@[i as int]] =~= s@.subrange(0, i as int + 1));
            if is_digit_char(ch) {
                assert(ds@ =~= pre + seq![digit_val(ch)]);
            } else {
                assert(ds@ =~= pre + Seq::<u8>::empty());
            }
        }
        i = i + 1;
    }
    proof {
        assert(s@.subrange(0, n as int) =~= s@);
    }
    ds
}

/// The rendering of cells `c..9` of row `r`: digit characters with
/// `", "` between them.
pub open spec fn render_row_cells(g: Seq<u8>, r: int, c: int) -> Seq<char>
    decreases 9 - c,
{
    if c < 0 || c >= 9 {
        Seq::empty()
    } else if c < 8 {
        seq![digit_char(cell(g, r, c)), ',', ' '] + render_row_cells(g, r, c + 1)
    } else {
        seq![digit_char(cell(g, r, c))]
    }
}

/// The rendering of row `r`: its nine values, bracketed and
/// comma-separated, on a line of their own.
pub open spec fn render_row(g: Seq<u8>, r: int) -> Seq<char> {
    seq!['['] + render_row_cells(g, r, 0) + seq![']', '\n']
}

/// The rendering of rows `r..9`, one line each.
pub open spec fn render_rows(g: Seq<u8>, r: int) -> Seq<char>
    decreases 9 - r,
{
    if r < 0 || r >= 9 {
        Seq::empty()
    } else {
        render_row(g, r) + render_rows(g, r + 1)
    }
}

/// The full rendering of a grid: nine bracketed rows.
pub open spec fn render_spec(g: Seq<u8>) -> Seq<char> {
    render_rows(g, 0)
}

/// The digits of a two-character text with no digit in it.
proof fn lemma_digits_of_sep(c1: char, c2: char)
    requires
        !is_digit_char(c1),
        !is_digit_char(c2),
    ensures
        digits_of(seq![c1, c2]) == Seq::<u8>::empty(),
{
    assert(seq![c1, c2] =~= seq![c1] + seq![c2]);
    lemma_digits_of_concat(seq![c1], seq![c2]);
    lemma_digits_of_single(c1);
    lemma_digits_of_single(c2);
    assert(Seq::<u8>::empty() + Seq::<u8>::empty() =~= Seq::<u8>::empty());
}

/// Reading the digits back out of the rendered cells `c..9` of row `r`
/// yields exactly those cells.
proof fn lemma_digits_of_row_cells(g: Seq<u8>, r: int, c: int)
    requires
        wf_grid(g),
        0 <= r < 9,
        0 <= c <= 9,
    ensures
        digits_of(render_row_cells(g, r, c)) == g.subrange(r * 9 + c, r * 9 + 9),
    decreases 9 - c,
{
    if c >= 9 {
        assert(g.subrange(r * 9 + 9, r * 9 + 9) =~= Seq::<u8>::empty());
    } else {
        let v = cell(g, r, c);
        assert(v <= 9);
        assert(is_digit_char(digit_char(v)) && digit_val(digit_char(v)) == v);
        if c < 8 {
            lemma_digits_of_row_cells(g, r, c + 1);
            assert(seq![digit_char(v), ',', ' '] =~= seq![digit_char(v)] + seq![',', ' ']);
            lemma_digits_of_concat(seq![digit_char(v)] + seq![',', ' '], render_row_cells(g, r, c + 1));
            lemma_digits_of_concat(seq![digit_char(v)], seq![',', ' ']);
            lemma_digits_of_single(digit_char(v));
            lemma_digits_of_sep(',', ' ');
            assert(digits_of(render_row_cells(g, r, c)) =~= g.subrange(r * 9 + c, r * 9 + 9));
        } else {
            lemma_digits_of_single(digit_char(v));
            assert(digits_of(render_row_cells(g, r, c)) =~= g.subrange(r * 9 + 8, r * 9 + 9));
        }
    }
}

/// Reading the digits back out of one rendered row yields that row.
proof fn lemma_digits_of_row(g: Seq<u8>, r: int)
    requires
        wf_grid(g),
        0 <= r < 9,
    ensures
        digits_of(render_row(g, r)) == g.subrange(r * 9, r * 9 + 9),
{
    lemma_digits_of_row_cells(g, r, 0);
    lemma_digits_of_concat(seq!['['] + render_row_cells(g, r, 0), seq![']', '\n']);
    lemma_digits_of_concat(seq!['['], render_row_cells(g, r, 0));
    lemma_digits_of_single('[');
    lemma_digits_of_sep(']', '\n');
    assert(digits_of(render_row(g, r)) =~= g.subrange(r * 9, r * 9 + 9));
}

/// Reading the digits back out of the rendered rows `r..9` yields those
/// rows' cells.
proof fn lemma_digits_of_rows(g: Seq<u8>, r: int)
    requires
        wf_grid(g),
        0 <= r <= 9,
    ensures
        digits_of(render_rows(g, r)) == g.subrange(r * 9, 81),
    decreases 9 - r,
{
    if r >= 9 {
        assert(g.subrange(81, 81) =~= Seq::<u8>::empty());
    } else {
        lemma_digits_of_rows(g, r + 1);
        lemma_digits_of_row(g, r);
        lemma_digits_of_concat(render_row(g, r), render_rows(g, r + 1));
        assert(g.subrange(r * 9, r * 9 + 9) + g.subrange(r * 9 + 9, 81) =~= g.subrange(r * 9, 81));
    }
}

/// Round trip: parsing the digits back out of a rendered grid, ignoring
/// the bracket, comma, space, and line-break characters, reproduces the
/// grid's 81 cell values exactly.
pub proof fn lemma_render_round_trip(g: Seq<u8>)
    requires
        wf_grid(g),
    ensures
        digits_of(render_spec(g)) == g,
{
    lemma_digits_of_rows(g, 0);
    assert(g.subrange(0, 81) =~= g);
}

/// The one-character text of a digit value.
fn digit_str(v: u8) -> (s: &'static str)
    requires
        v <= 9,
    ensures
        s@ == seq![digit_char(v)],
{
    if v == 0 {
        let s = "0";
        proof {
            reveal_strlit("0");
            assert(s@ =~= seq![digit_char(v)]);
        }
        s
    } else if v == 1 {
        let s = "1";
        proof {
            reveal_strlit("1");
            assert(s@ =~= seq![digit_char(v)]);
        }
        s
    } else if v == 2 {
        let s = "2";
        proof {
            reveal_strlit("2");
            assert(s@ =~= seq![digit_char(v)]);
        }
        s
    } else if v == 3 {
        let s = "3";
        proof {
            reveal_strlit("3");
            assert(s@ =~= seq![digit_char(v)]);
        }
        s
    } else if v == 4 {
        let s = "4";
        proof {
            reveal_strlit("4");
            assert(s@ =~= seq![digit_char(v)]);
        }
        s
    } else if v == 5 {
        let s = "5";
        proof {
            reveal_strlit("5");
            assert(s@ =~= seq![digit_char(v)]);
        }
        s
    } else if v == 6 {
        let s = "6";
        proof {
            reveal_strlit("6");
            assert(s@ =~= seq![digit_char(v)]);
        }
        s
    } else if v == 7 {
        let s = "7";
        proof {
            reveal_strlit("7");
            assert(s@ =~= seq![digit_char(v)]);
        }
        s
    } else if v == 8 {
        let s = "8";
        proof {
            reveal_strlit("8");
            assert(s@ =~= seq![digit_char(v)]);
        }
        s
    } else {
        let s = "9";
        proof {
            reveal_strlit("9");
            assert(s@ =~= seq![digit_char(v)]);
        }
        s
    }
}

impl Sudoku {
    /// Renders the grid as nine lines, each row a bracketed,
    /// comma-separated list of its nine values.
    pub fn render(&self) -> (out: String)
        requires
            self.wf(),
        ensures
            out@ == render_spec(self@),
    {
        let mut out = String::new();
        let mut r: usize = 0;
        while r < 9
            invariant
                self.wf(),
                r <= 9,
                out@ + render_rows(self@, r as int) == render_spec(self@),
            decreases 9 - r,
        {
            let ghost out_row = out@;
            out.append("[");
            proof {
                reveal_strlit("[");
                assert(out@ =~= out_row + seq!['[']);
                assert((out_row + render_rows(self@, r as int)) =~= (out_row + seq!['['])
                    + render_row_cells(self@, r as int, 0) + seq![']', '\n'] + render_rows(
                    self@,
                    r as int + 1,
                ));
            }
            let mut c: usize = 0;
            while c < 9
                invariant
                    self.wf(),
                    r < 9,
                    c <= 9,
                    out@ + render_row_cells(self@, r as int, c as int) + seq![']', '\n']
                        + render_rows(self@, r as int + 1) == render_spec(self@),
                decreases 9 - c,
            {
                let ghost out_pre = out@;
                let v = self.cell_at(r, c);
                out.append(digit_str(v));
                if c < 8 {
                    out.append(", ");
                    proof {
                        reveal_strlit(", ");
                        assert(out@ =~= out_pre + seq![digit_char(cell(self@, r as int, c as int)), ',', ' ']);
                        assert((out_pre + render_row_cells(self@, r as int, c as int) + seq![
                            ']',
                            '\n',
                        ] + render_rows(self@, r as int + 1)) =~= (out@ + render_row_cells(
                            self@,
                            r as int,
                            c as int + 1,
                        ) + seq![']', '\n'] + render_rows(self@, r as int + 1)));
                    }
                } else {
                    proof {
                        assert(out@ =~= out_pre + seq![digit_char(cell(self@, r as int, c as int))]);
                        assert(render_row_cells(self@, r as int, c as int + 1)
                            =~= Seq::<char>::empty());
                        assert((out_pre + render_row_cells(self@, r as int, c as int) + seq![
                            ']',
                            '\n',
                        ] + render_rows(self@, r as int + 1)) =~= (out@ + render_row_cells(
                            self@,
                            r as int,
                            c as int + 1,
                        ) + seq![']', '\n'] + render_rows(self@, r as int + 1)));
                    }
                }
                c = c + 1;
            }
            let ghost out_end = out@;
            out.append("]\n");
            proof {
                reveal_strlit("]\n");
                assert(out@ =~= out_end + seq![']', '\n']);
                assert(render_row_cells(self@, r as int, 9) =~= Seq::<char>::empty());
                assert((out_end + render_row_cells(self@, r as int, 9) + seq![']', '\n']
                    + render_rows(self@, r as int + 1)) =~= (out@ + render_rows(
                    self@,
                    r as int + 1,
                )));
            }
            r = r + 1;
        }
        proof {
            assert(render_rows(self@, 9) =~= Seq::<char>::empty());
            assert((out@ + render_rows(self@, 9)) =~= out@);
        }
        out
    }
}

/// Why an input text failed to parse as a sequence of puzzle records.
#[derive(Clone, Copy, Debug, PartialEq, Eq)]
pub enum ParseError {
    /// The line count is not a multiple of ten (records are ten lines:
    /// a header line and nine grid rows).
    BadLineCount,
    /// Some grid row is not exactly nine decimal digit characters.
    BadRow,
}

/// `s` is a well-formed grid row: exactly nine digit characters.
pub open spec fn row_chars_ok(s: Seq<char>) -> bool {
    &&& s.len() == 9
    &&& forall|j: int| 0 <= j < 9 ==> is_digit_char(#[trigger] s[j])
}

/// The nine grid rows of record `b` (lines `10*b + 1 .. 10*b + 10`; line
/// `10*b` is the skipped header) are all well formed.
pub open spec fn record_rows_ok(lines: Seq<String>, b: int) -> bool {
    forall|r: int| 1 <= r < 10 ==> row_chars_ok(#[trigger] lines[10 * b + r]@)
}

/// The whole input parses: a whole number of ten-line records, each with
/// nine well-formed grid rows.
pub open spec fn puzzles_ok(lines: Seq<String>) -> bool {
    &&& lines.len() % 10 == 0
    &&& forall|b: int| 0 <= b < lines.len() / 10 ==> record_rows_ok(lines, b)
}

/// The 81 cell values spelled out by the grid rows of record `b`.
pub open spec fn grid_of_record(lines: Seq<String>, b: int) -> Seq<u8> {
    Seq::new(81, |k: int| digit_val(lines[10 * b + 1 + k / 9]@[k % 9]))
}

/// Parses one grid row: nine digit characters give nine cell values.
fn parse_row(line: &str) -> (r: Option<Vec<u8>>)
    ensures
        r is Some <==> row_chars_ok(line@),
        r matches Some(v) ==> v@.len() == 9 && forall|j: int|
            0 <= j < 9 ==> v@[j] == digit_val(line@[j]),
{
    if line.unicode_len() != 9 {
        return None;
    }
    let mut v: Vec<u8> = Vec::new();
    let mut j: usize = 0;
    while j < 9
        invariant
            line@.len() == 9,
            j <= 9,
            v@.len() == j,
            forall|i: int| 0 <= i < j ==> is_digit_char(#[trigger] line@[i]),
            forall|i: int| 0 <= i < j ==> v@[i] == digit_val(line@[i]),
        decreases 9 - j,
    {
        let ch = line.get_char(j);
        match digit_of_char(ch) {
            Some(d) => {
                v.push(d);
            },
            None => {
                return None;
            },
        }
        j = j + 1;
    }
    Some(v)
}

/// Parses the ten-line record `b` of `lines` into a grid, skipping the
/// record's header line.
fn parse_record(lines: &Vec<String>, b: usize) -> (r: Option<Sudoku>)
    requires
        10 * b + 10 <= lines@.len(),
    ensures
        r is Some <==> record_rows_ok(lines@, b as int),
        r matches Some(s) ==> s.wf() && s@ == grid_of_record(lines@, b as int),
{
    let total = lines.len();
    let mut vals: Vec<u8> = Vec::new();
    let mut rr: usize = 0;
    while rr < 9
        invariant
            total == lines@.len(),
            10 * b + 10 <= lines@.len(),
            rr <= 9,
            vals@.len() == 9 * rr,
            forall|i: int| 1 <= i < rr + 1 ==> row_chars_ok(#[trigger] lines@[10 * b + i]@),
            forall|k: int|
                0 <= k < vals@.len() ==> vals@[k] == digit_val(
                    lines@[10 * b + 1 + k / 9]@[k % 9],
                ) && vals@[k] <= 9,
        decreases 9 - rr,
    {
        let line = &lines[10 * b + 1 + rr];
        let ghost pre = vals@;
        match parse_row(line.as_str()) {
            Some(mut row) => {
                vals.append(&mut row);
                proof {
                    assert forall|k: int|
                        0 <= k < vals@.len() implies vals@[k] == digit_val(
                        lines@[10 * b + 1 + k / 9]@[k % 9],
                    ) && vals@[k] <= 9 by {
                        if k < pre.len() {
                            assert(vals@[k] == pre[k]);
                        } else {
                            assert(k / 9 == rr && k % 9 == k - 9 * rr);
                        }
                    }
                }
            },
            None => {
                proof {
                    assert(!row_chars_ok(lines@[10 * b + (rr + 1)]@));
                }
                return None;
            },
        }
        rr = rr + 1;
    }
    let s = Sudoku::from_digits(&vals);
    match s {
        Some(s) => {
            proof {
                assert(s@ =~= grid_of_record(lines@, b as int));
            }
            Some(s)
        },
        None => {
            proof {
                assert(false);
            }
            None
        },
    }
}

/// Parses a whole input text, already split into lines, as a sequence of
/// ten-line puzzle records: a header line to skip, then nine grid rows of
/// nine digit characters each.  An empty input yields no puzzles.
pub fn parse_puzzles(lines: &Vec<String>) -> (r: Result<Vec<Sudoku>, ParseError>)
    ensures
        r is Ok <==> puzzles_ok(lines@),
        r matches Ok(v) ==> v@.len() == lines@.len() / 10 && forall|b: int|
            0 <= b < v@.len() ==> (#[trigger] v@[b]).wf() && v@[b]@ == grid_of_record(lines@, b),
        lines@.len() % 10 != 0 ==> r == Result::<Vec<Sudoku>, ParseError>::Err(
            ParseError::BadLineCount,
        ),
        r is Err && lines@.len() % 10 == 0 ==> r == Result::<Vec<Sudoku>, ParseError>::Err(
            ParseError::BadRow,
        ),
{
    if lines.len() % 10 != 0 {
        return Err(ParseError::BadLineCount);
    }
    let nrecords = lines.len() / 10;
    let mut out: Vec<Sudoku> = Vec::new();
    let mut b: usize = 0;
    while b < nrecords
        invariant
            nrecords == lines@.len() / 10,
            lines@.len() % 10 == 0,
            b <= nrecords,
            out@.len() == b,
            forall|i: int| 0 <= i < b ==> record_rows_ok(lines@, i),
            forall|i: int|
                0 <= i < b ==> (#[trigger] out@[i]).wf() && out@[i]@ == grid_of_record(lines@, i),
        decreases nrecords - b,
    {
        match parse_record(lines, b) {
            Some(s) => {
                out.push(s);
            },
            None => {
                assert(!puzzles_ok(lines@));
                return Err(ParseError::BadRow);
            },
        }
        b = b + 1;
    }
    Ok(out)
}

} // verus!
