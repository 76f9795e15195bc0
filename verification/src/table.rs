//! Fixed-width table rendering: right-aligns labels and values in declared
//! column widths; no domain logic, only aligned text.

use crate::sim::ReportRow;
use vstd::prelude::*;
use vstd::string::StrSliceExecFns;
use vstd::string::StringExecFns;

verus! {

/// One column: its header label and its width in characters.
pub struct Column {
    pub label: String,
    pub width: usize,
}

/// `n` spaces.
pub open spec fn spaces(n: nat) -> Seq<char> {
    Seq::new(n, |i: int| ' ')
}

/// `n` rule characters, for the separator under the header.
pub open spec fn rule_chars(n: nat) -> Seq<char> {
    Seq::new(n, |i: int| '=')
}

/// `s` right-aligned in a field of `width` characters: left-padded with
/// spaces, never truncated.
pub open spec fn right_aligned(s: Seq<char>, width: nat) -> Seq<char> {
    if s.len() >= width {
        s
    } else {
        spaces((width - s.len()) as nat) + s
    }
}

/// The concatenation of all labels, each right-aligned in its column.
pub open spec fn header_labels(cols: Seq<Column>) -> Seq<char>
    decreases cols.len(),
{
    if cols.len() == 0 {
        Seq::empty()
    } else {
        header_labels(cols.drop_last()) + right_aligned(
            cols.last().label@,
            cols.last().width as nat,
        )
    }
}

/// The summed width of all columns.
pub open spec fn total_width(cols: Seq<Column>) -> nat
    decreases cols.len(),
{
    if cols.len() == 0 {
        0
    } else {
        total_width(cols.drop_last()) + cols.last().width as nat
    }
}

/// The header block: the label line, a newline, and a full-width rule.
pub open spec fn header_text(cols: Seq<Column>) -> Seq<char> {
    header_labels(cols) + seq!['\n'] + rule_chars(total_width(cols))
}

/// The concatenation of the given cell texts, each right-aligned in the
/// corresponding column.
pub open spec fn row_text(cols: Seq<Column>, cells: Seq<Seq<char>>) -> Seq<char>
    decreases cols.len(),
{
    if cols.len() == 0 || cols.len() != cells.len() {
        Seq::empty()
    } else {
        row_text(cols.drop_last(), cells.drop_last()) + right_aligned(
            cells.last(),
            cols.last().width as nat,
        )
    }
}

/// Appends `s` right-aligned in a field of `width` characters to `buf`.
fn append_aligned(buf: &mut String, s: &str, width: usize)
    ensures
        final(buf)@ == old(buf)@ + right_aligned(s@, width as nat),
{
    let len = s.unicode_len();
    let ghost base = buf@;
    if len < width {
        let pad = width - len;
        let mut p: usize = 0;
        while p < pad
            invariant
                0 <= p <= pad,
                buf@ == base + spaces(p as nat),
            decreases pad - p,
        {
            buf.append(" ");
            proof {
                reveal_strlit(" ");
                assert(" "@ =~= seq![' ']);
                assert(base + spaces(p as nat) + seq![' '] =~= base + spaces((p + 1) as nat));
            }
            p = p + 1;
        }
        buf.append(s);
        proof {
            assert(base + spaces(pad as nat) + s@ =~= base + right_aligned(s@, width as nat));
        }
    } else {
        buf.append(s);
        proof {
            assert(base + s@ =~= base + right_aligned(s@, width as nat));
        }
    }
}

/// Renders values right-aligned in the declared columns; the header line and
/// each row carry exactly one cell per column.
pub struct TableFormatter {
    fields: Vec<Column>,
}

/// One report line being assembled, cell by cell, left to right.
pub struct Row {
    fields: Vec<Column>,
    pos: usize,
    buffer: String,
}

/// An exact copy of a column list.
fn copy_columns(cols: &Vec<Column>) -> (r: Vec<Column>)
    ensures
        r@.len() == cols@.len(),
        forall|i: int|
            0 <= i < cols@.len() ==> (#[trigger] r@[i]).label@ == cols@[i].label@ && r@[i].width
                == cols@[i].width,
{
    let mut r: Vec<Column> = Vec::new();
    let mut i: usize = 0;
    while i < cols.len()
        invariant
            0 <= i <= cols@.len(),
            r@.len() == i,
            forall|t: int|
                0 <= t < i ==> (#[trigger] r@[t]).label@ == cols@[t].label@ && r@[t].width
                    == cols@[t].width,
        decreases cols@.len() - i,
    {
        let label = cols[i].label.clone();
        let width = cols[i].width;
        r.push(Column { label, width });
        i = i + 1;
    }
    r
}

impl TableFormatter {
    /// The declared columns.
    pub closed spec fn cols(&self) -> Seq<Column> {
        self.fields@
    }

    /// Every label fits strictly inside its column, and the total width
    /// fits the machine word.
    pub open spec fn wf(&self) -> bool {
        &&& forall|i: int|
            0 <= i < self.cols().len() ==> (#[trigger] self.cols()[i]).label@.len()
                < self.cols()[i].width
        &&& total_width(self.cols()) <= usize::MAX
    }

    /// Declares the columns.  Each label must be strictly narrower than its
    /// column, and the combined width must fit the machine word.
    pub fn new(fields: Vec<Column>) -> (r: Self)
        requires
            forall|i: int|
                0 <= i < fields@.len() ==> (#[trigger] fields@[i]).label@.len()
                    < fields@[i].width,
            total_width(fields@) <= usize::MAX,
        ensures
            r.wf(),
            r.cols() == fields@,
    {
        TableFormatter { fields }
    }

    /// The header block: every label right-aligned in its column, a newline,
    /// then a rule of `=` across the whole width.
    pub fn header(&self) -> (r: String)
        requires
            self.wf(),
        ensures
            r@ == header_text(self.cols()),
    {
        let mut buf = String::new();
        let mut total: usize = 0;
        let mut i: usize = 0;
        while i < self.fields.len()
            invariant
                self.wf(),
                0 <= i <= self.cols().len(),
                buf@ == header_labels(self.cols().take(i as int)),
                total == total_width(self.cols().take(i as int)),
            decreases self.cols().len() - i,
        {
            proof {
                assert(self.cols().take(i + 1).drop_last() =~= self.cols().take(i as int));
                assert(self.cols().take(i + 1).last() == self.cols()[i as int]);
                lemma_total_width_le(self.cols(), i + 1);
                assert(total_width(self.cols().take(i + 1)) <= total_width(self.cols()));
            }
            append_aligned(&mut buf, self.fields[i].label.as_str(), self.fields[i].width);
            total = total + self.fields[i].width;
            i = i + 1;
        }
        proof {
            assert(self.cols().take(self.cols().len() as int) =~= self.cols());
        }
        buf.append("\n");
        let ghost labels = header_labels(self.cols());
        proof {
            reveal_strlit("\n");
            assert("\n"@ =~= seq!['\n']);
        }
        let mut p: usize = 0;
        while p < total
            invariant
                0 <= p <= total,
                buf@ == labels + seq!['\n'] + rule_chars(p as nat),
            decreases total - p,
        {
            buf.append("=");
            proof {
                reveal_strlit("=");
                assert("="@ =~= seq!['=']);
                assert(labels + seq!['\n'] + rule_chars(p as nat) + seq!['='] =~= labels
                    + seq!['\n'] + rule_chars((p + 1) as nat));
            }
            p = p + 1;
        }
        buf
    }

    /// Starts an empty row for this formatter's columns.
    pub fn row(&self) -> (r: Row)
        ensures
            r.cols().len() == self.cols().len(),
            forall|i: int|
                0 <= i < self.cols().len() ==> (#[trigger] r.cols()[i]).label@
                    == self.cols()[i].label@ && r.cols()[i].width == self.cols()[i].width,
            r.filled() == 0,
            r.rendered() == Seq::<char>::empty(),
    {
        Row { fields: copy_columns(&self.fields), pos: 0, buffer: String::new() }
    }
}

impl Row {
    /// The columns this row is rendered against.
    pub closed spec fn cols(&self) -> Seq<Column> {
        self.fields@
    }

    /// How many cells were added so far.
    pub closed spec fn filled(&self) -> nat {
        self.pos as nat
    }

    /// The text assembled so far.
    pub closed spec fn rendered(&self) -> Seq<char> {
        self.buffer@
    }

    /// Appends one more cell, right-aligned in the next column.
    pub fn add(self, value: &str) -> (r: Row)
        requires
            self.filled() < self.cols().len(),
        ensures
            r.cols() == self.cols(),
            r.filled() == self.filled() + 1,
            r.rendered() == self.rendered() + right_aligned(
                value@,
                self.cols()[self.filled() as int].width as nat,
            ),
    {
        let Row { fields, pos, mut buffer } = self;
        let n: usize = fields.len();
        assert(pos < n);
        append_aligned(&mut buffer, value, fields[pos].width);
        Row { fields, pos: pos + 1, buffer }
    }

    /// The finished line; every declared column must have received a cell.
    pub fn finish(self) -> (r: String)
        requires
            self.filled() == self.cols().len(),
        ensures
            r@ == self.rendered(),
    {
        self.buffer
    }
}

proof fn lemma_total_width_le(cols: Seq<Column>, i: int)
    requires
        0 <= i <= cols.len(),
    ensures
        total_width(cols.take(i)) <= total_width(cols),
    decreases cols.len() - i,
{
    if i == cols.len() {
        assert(cols.take(i) =~= cols);
    } else {
        lemma_total_width_le(cols, i + 1);
        assert(cols.take(i + 1).drop_last() =~= cols.take(i));
        assert(total_width(cols.take(i)) <= total_width(cols.take(i + 1)));
    }
}

/// Which digit character stands for `d`.
pub open spec fn digit_char(d: nat) -> char {
    if d == 0 {
        '0'
    } else if d == 1 {
        '1'
    } else if d == 2 {
        '2'
    } else if d == 3 {
        '3'
    } else if d == 4 {
        '4'
    } else if d == 5 {
        '5'
    } else if d == 6 {
        '6'
    } else if d == 7 {
        '7'
    } else if d == 8 {
        '8'
    } else {
        '9'
    }
}

/// The decimal digits of `n`, most significant first.
pub open spec fn dec_chars(n: nat) -> Seq<char>
    decreases n,
{
    if n < 10 {
        seq![digit_char(n)]
    } else {
        dec_chars(n / 10).push(digit_char(n % 10))
    }
}

/// One decimal digit as text.
fn digit_str(d: usize) -> (r: &'static str)
    requires
        d < 10,
    ensures
        r@ == seq![digit_char(d as nat)],
{
    proof {
        reveal_strlit("0");
        reveal_strlit("1");
        reveal_strlit("2");
        reveal_strlit("3");
        reveal_strlit("4");
        reveal_strlit("5");
        reveal_strlit("6");
        reveal_strlit("7");
        reveal_strlit("8");
        reveal_strlit("9");
    }
    if d == 0 {
        proof {
            assert("0"@ =~= seq![digit_char(0)]);
        }
        "0"
    } else if d == 1 {
        proof {
            assert("1"@ =~= seq![digit_char(1)]);
        }
        "1"
    } else if d == 2 {
        proof {
            assert("2"@ =~= seq![digit_char(2)]);
        }
        "2"
    } else if d == 3 {
        proof {
            assert("3"@ =~= seq![digit_char(3)]);
        }
        "3"
    } else if d == 4 {
        proof {
            assert("4"@ =~= seq![digit_char(4)]);
        }
        "4"
    } else if d == 5 {
        proof {
            assert("5"@ =~= seq![digit_char(5)]);
        }
        "5"
    } else if d == 6 {
        proof {
            assert("6"@ =~= seq![digit_char(6)]);
        }
        "6"
    } else if d == 7 {
        proof {
            assert("7"@ =~= seq![digit_char(7)]);
        }
        "7"
    } else if d == 8 {
        proof {
            assert("8"@ =~= seq![digit_char(8)]);
        }
        "8"
    } else {
        proof {
            assert("9"@ =~= seq![digit_char(9)]);
        }
        "9"
    }
}

/// `n` in decimal.
pub fn usize_to_string(n: usize) -> (r: String)
    ensures
        r@ == dec_chars(n as nat),
    decreases n,
{
    if n < 10 {
        let s = digit_str(n);
        let r = String::from_str(s);
        r
    } else {
        let mut r = usize_to_string(n / 10);
        let d = digit_str(n % 10);
        r.append(d);
        proof {
            assert(dec_chars((n / 10) as nat) + seq![digit_char((n % 10) as nat)] =~= dec_chars(
                n as nat,
            ));
        }
        r
    }
}

/// The standard report columns: step index, current corpus size,
/// deduplicated estimate, cumulative raw size, distinct chunk count, and
/// hash-collision count.
pub fn report_formatter() -> (r: TableFormatter)
    ensures
        r.wf(),
        r.cols().len() == 6,
{
    proof {
        reveal_strlit("#");
        reveal_strlit("text");
        reveal_strlit("bytes");
        reveal_strlit("cumul");
        reveal_strlit("uniq");
        reveal_strlit("collides");
    }
    let mut cols: Vec<Column> = Vec::new();
    cols.push(Column { label: String::from_str("#"), width: 4 });
    cols.push(Column { label: String::from_str("text"), width: 8 });
    cols.push(Column { label: String::from_str("bytes"), width: 8 });
    cols.push(Column { label: String::from_str("cumul"), width: 8 });
    cols.push(Column { label: String::from_str("uniq"), width: 8 });
    cols.push(Column { label: String::from_str("collides"), width: 10 });
    proof {
        assert(cols@.take(0) =~= Seq::<Column>::empty());
        assert(cols@.take(1).drop_last() =~= cols@.take(0));
        assert(cols@.take(2).drop_last() =~= cols@.take(1));
        assert(cols@.take(3).drop_last() =~= cols@.take(2));
        assert(cols@.take(4).drop_last() =~= cols@.take(3));
        assert(cols@.take(5).drop_last() =~= cols@.take(4));
        assert(cols@.take(6).drop_last() =~= cols@.take(5));
        assert(total_width(cols@.take(0)) == 0);
        assert(total_width(cols@.take(1)) == 4);
        assert(total_width(cols@.take(2)) == 12);
        assert(total_width(cols@.take(3)) == 20);
        assert(total_width(cols@.take(4)) == 28);
        assert(total_width(cols@.take(5)) == 36);
        assert(total_width(cols@.take(6)) == 46);
        assert(cols@.take(6) =~= cols@);
    }
    TableFormatter::new(cols)
}

/// Renders one report row against a six-column formatter: each metric in
/// decimal, right-aligned in its column.  Returns nothing when the
/// formatter does not declare exactly six columns.
pub fn render_report_row(fmt: &TableFormatter, row: &ReportRow) -> (r: Option<String>)
    ensures
        fmt.cols().len() == 6 ==> (r matches Some(line) && line@ == row_text(
            fmt.cols(),
            seq![
                dec_chars(row.step as nat),
                dec_chars(row.text_len as nat),
                dec_chars(row.bytes_estimate as nat),
                dec_chars(row.total_bytes as nat),
                dec_chars(row.unique_chunks as nat),
                dec_chars(row.collisions as nat),
            ],
        )),
        fmt.cols().len() != 6 ==> r is None,
{
    if fmt.fields.len() != 6 {
        return None;
    }
    let ghost cells = seq![
        dec_chars(row.step as nat),
        dec_chars(row.text_len as nat),
        dec_chars(row.bytes_estimate as nat),
        dec_chars(row.total_bytes as nat),
        dec_chars(row.unique_chunks as nat),
        dec_chars(row.collisions as nat),
    ];
    let r0 = fmt.row();
    let r1 = r0.add(usize_to_string(row.step).as_str());
    let r2 = r1.add(usize_to_string(row.text_len).as_str());
    let r3 = r2.add(usize_to_string(row.bytes_estimate).as_str());
    let r4 = r3.add(usize_to_string(row.total_bytes).as_str());
    let r5 = r4.add(usize_to_string(row.unique_chunks).as_str());
    let r6 = r5.add(usize_to_string(row.collisions).as_str());
    proof {
        lemma_row_text_unfold(fmt.cols(), cells, r0.cols());
    }
    Some(r6.finish())
}

/// Spells out `row_text` for six columns whose widths agree with `cols`.
proof fn lemma_row_text_unfold(cols: Seq<Column>, cells: Seq<Seq<char>>, actual: Seq<Column>)
    requires
        cols.len() == 6,
        cells.len() == 6,
        actual.len() == 6,
        forall|i: int| 0 <= i < 6 ==> (#[trigger] actual[i]).width == cols[i].width,
    ensures
        row_text(cols, cells) == right_aligned(cells[0], actual[0].width as nat) + right_aligned(
            cells[1],
            actual[1].width as nat,
        ) + right_aligned(cells[2], actual[2].width as nat) + right_aligned(
            cells[3],
            actual[3].width as nat,
        ) + right_aligned(cells[4], actual[4].width as nat) + right_aligned(
            cells[5],
            actual[5].width as nat,
        ),
{
    lemma_row_text_step(cols, cells, 1);
    lemma_row_text_step(cols, cells, 2);
    lemma_row_text_step(cols, cells, 3);
    lemma_row_text_step(cols, cells, 4);
    lemma_row_text_step(cols, cells, 5);
    lemma_row_text_step(cols, cells, 6);
    assert(cols.take(6) =~= cols);
    assert(cells.take(6) =~= cells);
    assert(row_text(cols.take(0), cells.take(0)) =~= Seq::<char>::empty());
    assert(Seq::<char>::empty() + right_aligned(cells[0], cols[0].width as nat) =~= right_aligned(
        cells[0],
        cols[0].width as nat,
    ));
}

/// One unfolding of `row_text` over a prefix.
proof fn lemma_row_text_step(cols: Seq<Column>, cells: Seq<Seq<char>>, t: int)
    requires
        cols.len() == cells.len(),
        0 < t <= cols.len(),
    ensures
        row_text(cols.take(t), cells.take(t)) == row_text(cols.take(t - 1), cells.take(t - 1))
            + right_aligned(cells[t - 1], cols[t - 1].width as nat),
{
    assert(cols.take(t).drop_last() =~= cols.take(t - 1));
    assert(cells.take(t).drop_last() =~= cells.take(t - 1));
    assert(cols.take(t).last() == cols[t - 1]);
    assert(cells.take(t).last() == cells[t - 1]);
}

} // verus!
