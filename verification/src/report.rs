//! The CSV report of a benchmark: a header line naming the columns, then one line
//! per measured input.

use vstd::prelude::*;
use vstd::string::*;
use crate::decimal::{
    decimal, push_decimal, signed_decimal, push_signed_decimal, is_digit, lemma_decimal_reads_back,
    is_decimal_text_of, is_signed_decimal_text_of, lemma_decimal_is_text_of,
    lemma_signed_decimal_is_text_of,
};
use crate::elapsed::Elapsed;

verus! {

/// A value that can stand in the first column of a report.
pub trait CsvCell {
    /// The text of the value in its cell.
    spec fn cell_text(&self) -> Seq<char>;

    /// Appends the text of the value to `out`.
    fn push_cell(&self, out: &mut String)
        ensures
            final(out)@ == old(out)@ + self.cell_text(),
    ;
}

impl CsvCell for u32 {
    open spec fn cell_text(&self) -> Seq<char> {
        decimal(*self as nat)
    }

    fn push_cell(&self, out: &mut String) {
        push_decimal(out, *self as u128);
    }
}

impl CsvCell for u64 {
    open spec fn cell_text(&self) -> Seq<char> {
        decimal(*self as nat)
    }

    fn push_cell(&self, out: &mut String) {
        push_decimal(out, *self as u128);
    }
}

impl CsvCell for usize {
    open spec fn cell_text(&self) -> Seq<char> {
        decimal(*self as nat)
    }

    fn push_cell(&self, out: &mut String) {
        push_decimal(out, *self as u128);
    }
}

impl CsvCell for u8 {
    open spec fn cell_text(&self) -> Seq<char> {
        decimal(*self as nat)
    }

    fn push_cell(&self, out: &mut String) {
        push_decimal(out, *self as u128);
    }
}

impl CsvCell for u16 {
    open spec fn cell_text(&self) -> Seq<char> {
        decimal(*self as nat)
    }

    fn push_cell(&self, out: &mut String) {
        push_decimal(out, *self as u128);
    }
}

impl CsvCell for u128 {
    open spec fn cell_text(&self) -> Seq<char> {
        decimal(*self as nat)
    }

    fn push_cell(&self, out: &mut String) {
        push_decimal(out, *self as u128);
    }
}

impl CsvCell for i8 {
    open spec fn cell_text(&self) -> Seq<char> {
        signed_decimal(*self as int)
    }

    fn push_cell(&self, out: &mut String) {
        push_signed_decimal(out, *self as i128);
    }
}

impl CsvCell for i16 {
    open spec fn cell_text(&self) -> Seq<char> {
        signed_decimal(*self as int)
    }

    fn push_cell(&self, out: &mut String) {
        push_signed_decimal(out, *self as i128);
    }
}

impl CsvCell for i32 {
    open spec fn cell_text(&self) -> Seq<char> {
        signed_decimal(*self as int)
    }

    fn push_cell(&self, out: &mut String) {
        push_signed_decimal(out, *self as i128);
    }
}

impl CsvCell for i64 {
    open spec fn cell_text(&self) -> Seq<char> {
        signed_decimal(*self as int)
    }

    fn push_cell(&self, out: &mut String) {
        push_signed_decimal(out, *self as i128);
    }
}

impl CsvCell for i128 {
    open spec fn cell_text(&self) -> Seq<char> {
        signed_decimal(*self as int)
    }

    fn push_cell(&self, out: &mut String) {
        push_signed_decimal(out, *self as i128);
    }
}

impl CsvCell for isize {
    open spec fn cell_text(&self) -> Seq<char> {
        signed_decimal(*self as int)
    }

    fn push_cell(&self, out: &mut String) {
        push_signed_decimal(out, *self as i128);
    }
}

/// Text stands in its cell as it is, with no quoting.
impl<'a> CsvCell for &'a str {
    open spec fn cell_text(&self) -> Seq<char> {
        (**self)@
    }

    fn push_cell(&self, out: &mut String) {
        out.append(*self);
    }
}

/// Text stands in its cell as it is, with no quoting.
impl CsvCell for String {
    open spec fn cell_text(&self) -> Seq<char> {
        self@
    }

    fn push_cell(&self, out: &mut String) {
        out.append(self.as_str());
    }
}

/// The names of the columns after the first.
pub open spec fn measure_columns() -> Seq<char> {
    ",prover time (ms),proof size (bytes)"@
}

/// The name of the column that a report with cycle counts adds.
pub open spec fn cycles_column() -> Seq<char> {
    ",cycles"@
}

/// The header line of a report whose first column is named `name`.
pub open spec fn header(name: Seq<char>) -> Seq<char> {
    name + measure_columns() + "\n"@
}

/// The header line of a report with cycle counts.
pub open spec fn header_v2(name: Seq<char>) -> Seq<char> {
    name + measure_columns() + cycles_column() + "\n"@
}

/// The cells shared by both kinds of line: the input, the whole milliseconds of
/// the time and the proof size, separated by commas.
pub open spec fn row_cells<T: CsvCell>(input: T, time: Elapsed, size: usize) -> Seq<char> {
    input.cell_text() + ","@ + decimal(time.whole_millis()) + ","@ + decimal(size as nat)
}

/// The line of one measured input.
pub open spec fn row<T: CsvCell>(input: T, result: (Elapsed, usize)) -> Seq<char> {
    row_cells(input, result.0, result.1) + "\n"@
}

/// The line of one measured input, with its cycle count.
pub open spec fn row_v2<T: CsvCell>(input: T, result: (Elapsed, usize, u64)) -> Seq<char> {
    row_cells(input, result.0, result.1) + ","@ + decimal(result.2 as nat) + "\n"@
}

/// The lines of the first `n` inputs and results.
pub open spec fn rows<T: CsvCell>(inputs: Seq<T>, results: Seq<(Elapsed, usize)>, n: nat) -> Seq<
    char,
>
    decreases n,
{
    if n == 0 {
        Seq::empty()
    } else {
        rows(inputs, results, (n - 1) as nat) + row(inputs[n - 1], results[n - 1])
    }
}

/// The lines of the first `n` inputs and results, with cycle counts.
pub open spec fn rows_v2<T: CsvCell>(
    inputs: Seq<T>,
    results: Seq<(Elapsed, usize, u64)>,
    n: nat,
) -> Seq<char>
    decreases n,
{
    if n == 0 {
        Seq::empty()
    } else {
        rows_v2(inputs, results, (n - 1) as nat) + row_v2(inputs[n - 1], results[n - 1])
    }
}

/// The smaller of two lengths: inputs and results are paired in order, and
/// what has no partner is left out.
pub open spec fn paired(a: nat, b: nat) -> nat {
    if a < b {
        a
    } else {
        b
    }
}

/// The whole report: the header, then one line per input paired with a result.
pub open spec fn csv_report<T: CsvCell>(
    name: Seq<char>,
    inputs: Seq<T>,
    results: Seq<(Elapsed, usize)>,
) -> Seq<char> {
    header(name) + rows(inputs, results, paired(inputs.len(), results.len()))
}

/// The whole report with cycle counts.
pub open spec fn csv_report_v2<T: CsvCell>(
    name: Seq<char>,
    inputs: Seq<T>,
    results: Seq<(Elapsed, usize, u64)>,
) -> Seq<char> {
    header_v2(name) + rows_v2(inputs, results, paired(inputs.len(), results.len()))
}

/// Appends the cells shared by both kinds of line.
fn push_row_cells<T: CsvCell>(out: &mut String, input: &T, time: &Elapsed, size: usize)
    ensures
        final(out)@ == old(out)@ + row_cells(*input, *time, size),
{
    input.push_cell(out);
    out.append(",");
    push_decimal(out, time.as_millis());
    out.append(",");
    push_decimal(out, size as u128);
    assert(final(out)@ =~= old(out)@ + row_cells(*input, *time, size));
}

/// Renders the report of `results` measured on `inputs`, under a first column
/// named `input_name`. Inputs and results are paired in order; where one list is
/// longer, its tail is left out.
pub fn format_csv<T: CsvCell>(input_name: &str, inputs: &[T], results: &[(Elapsed, usize)]) -> (text: String)
    ensures
        text@ == csv_report(input_name@, inputs@, results@),
{
    let n: usize = if inputs.len() < results.len() {
        inputs.len()
    } else {
        results.len()
    };
    let mut out = String::new();
    out.append(input_name);
    out.append(",prover time (ms),proof size (bytes)");
    out.append("\n");
    assert(out@ =~= header(input_name@) + rows(inputs@, results@, 0));
    let mut i: usize = 0;
    while i < n
        invariant
            n == paired(inputs@.len(), results@.len()),
            i <= n,
            out@ == header(input_name@) + rows(inputs@, results@, i as nat),
        decreases n - i,
    {
        let ghost before = out@;
        let (time, size) = results[i];
        push_row_cells(&mut out, &inputs[i], &time, size);
        out.append("\n");
        i = i + 1;
        assert(out@ =~= before + row(inputs@[i - 1], results@[i - 1]));
        assert(out@ =~= header(input_name@) + rows(inputs@, results@, i as nat));
    }
    out
}

/// Renders the report with cycle counts of `results` measured on `inputs`, under
/// a first column named `input_name`, pairing them as `format_csv` does.
pub fn format_csv_v2<T: CsvCell>(
    input_name: &str,
    inputs: &[T],
    results: &[(Elapsed, usize, u64)],
) -> (text: String)
    ensures
        text@ == csv_report_v2(input_name@, inputs@, results@),
{
    let n: usize = if inputs.len() < results.len() {
        inputs.len()
    } else {
        results.len()
    };
    let mut out = String::new();
    out.append(input_name);
    out.append(",prover time (ms),proof size (bytes)");
    out.append(",cycles");
    out.append("\n");
    assert(out@ =~= header_v2(input_name@) + rows_v2(inputs@, results@, 0));
    let mut i: usize = 0;
    while i < n
        invariant
            n == paired(inputs@.len(), results@.len()),
            i <= n,
            out@ == header_v2(input_name@) + rows_v2(inputs@, results@, i as nat),
        decreases n - i,
    {
        let ghost before = out@;
        let (time, size, cycles) = results[i];
        push_row_cells(&mut out, &inputs[i], &time, size);
        out.append(",");
        push_decimal(&mut out, cycles as u128);
        out.append("\n");
        i = i + 1;
        assert(out@ =~= before + row_v2(inputs@[i - 1], results@[i - 1]));
        assert(out@ =~= header_v2(input_name@) + rows_v2(inputs@, results@, i as nat));
    }
    out
}

/// The number of line breaks in `s`.
pub open spec fn line_breaks(s: Seq<char>) -> nat
    decreases s.len(),
{
    if s.len() == 0 {
        0
    } else {
        line_breaks(s.drop_last()) + if s.last() == '\n' {
            1nat
        } else {
            0nat
        }
    }
}

/// `s` holds no line break.
pub open spec fn single_line(s: Seq<char>) -> bool {
    forall|i: int| 0 <= i < s.len() ==> s[i] != '\n'
}

proof fn lemma_line_breaks_concat(a: Seq<char>, b: Seq<char>)
    ensures
        line_breaks(a + b) == line_breaks(a) + line_breaks(b),
    decreases b.len(),
{
    if b.len() == 0 {
        assert(a + b =~= a);
    } else {
        lemma_line_breaks_concat(a, b.drop_last());
        assert((a + b).drop_last() =~= a + b.drop_last());
    }
}

proof fn lemma_single_line(s: Seq<char>)
    requires
        single_line(s),
    ensures
        line_breaks(s) == 0,
    decreases s.len(),
{
    if s.len() > 0 {
        lemma_single_line(s.drop_last());
    }
}

proof fn lemma_newline()
    ensures
        line_breaks("\n"@) == 1,
{
    reveal_strlit("\n");
    assert("\n"@.drop_last() =~= Seq::<char>::empty());
    assert("\n"@.last() == '\n');
    assert(line_breaks(Seq::<char>::empty()) == 0);
}

proof fn lemma_comma()
    ensures
        line_breaks(","@) == 0,
{
    reveal_strlit(",");
    lemma_single_line(","@);
}

/// The decimal text of a number holds no line break, so an integer input meets
/// the condition of `lemma_report_lines`.
pub proof fn lemma_decimal_single_line(n: nat)
    ensures
        single_line(decimal(n)),
        line_breaks(decimal(n)) == 0,
{
    lemma_decimal_reads_back(n);
    assert forall|i: int| 0 <= i < decimal(n).len() implies decimal(n)[i] != '\n' by {
        assert(is_digit(decimal(n)[i]));
    }
    lemma_single_line(decimal(n));
}

proof fn lemma_column_names_single_line()
    ensures
        line_breaks(measure_columns()) == 0,
        line_breaks(cycles_column()) == 0,
{
    reveal_strlit(",prover time (ms),proof size (bytes)");
    reveal_strlit(",cycles");
    lemma_single_line(measure_columns());
    lemma_single_line(cycles_column());
}

proof fn lemma_row_cells_single_line<T: CsvCell>(input: T, time: Elapsed, size: usize)
    requires
        single_line(input.cell_text()),
    ensures
        line_breaks(row_cells(input, time, size)) == 0,
{
    lemma_single_line(input.cell_text());
    lemma_comma();
    lemma_decimal_single_line(time.whole_millis());
    lemma_decimal_single_line(size as nat);
    let a = input.cell_text();
    let b = ","@;
    let c = decimal(time.whole_millis());
    let e = decimal(size as nat);
    lemma_line_breaks_concat(a, b);
    lemma_line_breaks_concat(a + b, c);
    lemma_line_breaks_concat(a + b + c, b);
    lemma_line_breaks_concat(a + b + c + b, e);
}

proof fn lemma_rows_lines<T: CsvCell>(inputs: Seq<T>, results: Seq<(Elapsed, usize)>, n: nat)
    requires
        n <= inputs.len(),
        n <= results.len(),
        forall|i: int| 0 <= i < inputs.len() ==> single_line(#[trigger] inputs[i].cell_text()),
    ensures
        line_breaks(rows(inputs, results, n)) == n,
    decreases n,
{
    if n > 0 {
        lemma_rows_lines(inputs, results, (n - 1) as nat);
        let x = inputs[n - 1];
        let r = results[n - 1];
        lemma_row_cells_single_line(x, r.0, r.1);
        lemma_newline();
        lemma_line_breaks_concat(row_cells(x, r.0, r.1), "\n"@);
        lemma_line_breaks_concat(rows(inputs, results, (n - 1) as nat), row(x, r));
    }
}

proof fn lemma_rows_v2_lines<T: CsvCell>(
    inputs: Seq<T>,
    results: Seq<(Elapsed, usize, u64)>,
    n: nat,
)
    requires
        n <= inputs.len(),
        n <= results.len(),
        forall|i: int| 0 <= i < inputs.len() ==> single_line(#[trigger] inputs[i].cell_text()),
    ensures
        line_breaks(rows_v2(inputs, results, n)) == n,
    decreases n,
{
    if n > 0 {
        lemma_rows_v2_lines(inputs, results, (n - 1) as nat);
        let x = inputs[n - 1];
        let r = results[n - 1];
        let a = row_cells(x, r.0, r.1);
        lemma_row_cells_single_line(x, r.0, r.1);
        lemma_comma();
        lemma_newline();
        lemma_decimal_single_line(r.2 as nat);
        lemma_line_breaks_concat(a, ","@);
        lemma_line_breaks_concat(a + ","@, decimal(r.2 as nat));
        lemma_line_breaks_concat(a + ","@ + decimal(r.2 as nat), "\n"@);
        lemma_line_breaks_concat(rows_v2(inputs, results, (n - 1) as nat), row_v2(x, r));
    }
}

/// A report has one line for the header and one for each input paired with a
/// result, when neither the first column's name nor any input's text holds a
/// line break.
pub proof fn lemma_report_lines<T: CsvCell>(
    name: Seq<char>,
    inputs: Seq<T>,
    results: Seq<(Elapsed, usize)>,
)
    requires
        single_line(name),
        forall|i: int| 0 <= i < inputs.len() ==> single_line(#[trigger] inputs[i].cell_text()),
    ensures
        line_breaks(csv_report(name, inputs, results)) == 1 + paired(inputs.len(), results.len()),
{
    let n = paired(inputs.len(), results.len());
    lemma_rows_lines(inputs, results, n);
    lemma_single_line(name);
    lemma_column_names_single_line();
    lemma_newline();
    lemma_line_breaks_concat(name, measure_columns());
    lemma_line_breaks_concat(name + measure_columns(), "\n"@);
    lemma_line_breaks_concat(header(name), rows(inputs, results, n));
}

/// A report with cycle counts has one line for the header and one for each input
/// paired with a result, when neither the first column's name nor any input's
/// text holds a line break.
pub proof fn lemma_report_v2_lines<T: CsvCell>(
    name: Seq<char>,
    inputs: Seq<T>,
    results: Seq<(Elapsed, usize, u64)>,
)
    requires
        single_line(name),
        forall|i: int| 0 <= i < inputs.len() ==> single_line(#[trigger] inputs[i].cell_text()),
    ensures
        line_breaks(csv_report_v2(name, inputs, results)) == 1 + paired(
            inputs.len(),
            results.len(),
        ),
{
    let n = paired(inputs.len(), results.len());
    lemma_rows_v2_lines(inputs, results, n);
    lemma_single_line(name);
    lemma_column_names_single_line();
    lemma_newline();
    lemma_line_breaks_concat(name, measure_columns());
    lemma_line_breaks_concat(name + measure_columns(), cycles_column());
    lemma_line_breaks_concat(name + measure_columns() + cycles_column(), "\n"@);
    lemma_line_breaks_concat(header_v2(name), rows_v2(inputs, results, n));
}

/// The report with cycle counts is the plain report with one more column: its
/// header and each of its lines are those of the plain report with `,cycles`,
/// or the cycle count, put before the line break.
pub proof fn lemma_cycles_column_added<T: CsvCell>(
    name: Seq<char>,
    input: T,
    time: Elapsed,
    size: usize,
    cycles: u64,
)
    ensures
        header_v2(name) == header(name).drop_last() + cycles_column() + "\n"@,
        row_v2(input, (time, size, cycles)) == row(input, (time, size)).drop_last() + ","@
            + decimal(cycles as nat) + "\n"@,
{
    reveal_strlit("\n");
    assert(header(name).drop_last() =~= name + measure_columns());
    assert(row(input, (time, size)).drop_last() =~= row_cells(input, time, size));
    assert(header_v2(name) =~= header(name).drop_last() + cycles_column() + "\n"@);
    assert(row_v2(input, (time, size, cycles)) =~= row(input, (time, size)).drop_last() + ","@
        + decimal(cycles as nat) + "\n"@);
}

proof fn lemma_rows_agree<T: CsvCell>(
    s1: Seq<T>,
    r1: Seq<(Elapsed, usize)>,
    s2: Seq<T>,
    r2: Seq<(Elapsed, usize)>,
    k: nat,
)
    requires
        k <= s1.len(),
        k <= s2.len(),
        k <= r1.len(),
        k <= r2.len(),
        forall|i: int| #![trigger s1[i]] 0 <= i < k ==> s1[i] == s2[i] && r1[i] == r2[i],
    ensures
        rows(s1, r1, k) == rows(s2, r2, k),
    decreases k,
{
    if k > 0 {
        lemma_rows_agree(s1, r1, s2, r2, (k - 1) as nat);
    }
}

proof fn lemma_rows_v2_agree<T: CsvCell>(
    s1: Seq<T>,
    r1: Seq<(Elapsed, usize, u64)>,
    s2: Seq<T>,
    r2: Seq<(Elapsed, usize, u64)>,
    k: nat,
)
    requires
        k <= s1.len(),
        k <= s2.len(),
        k <= r1.len(),
        k <= r2.len(),
        forall|i: int| #![trigger s1[i]] 0 <= i < k ==> s1[i] == s2[i] && r1[i] == r2[i],
    ensures
        rows_v2(s1, r1, k) == rows_v2(s2, r2, k),
    decreases k,
{
    if k > 0 {
        lemma_rows_v2_agree(s1, r1, s2, r2, (k - 1) as nat);
    }
}

proof fn lemma_rows_concat_upto<T: CsvCell>(
    a: Seq<T>,
    ra: Seq<(Elapsed, usize)>,
    b: Seq<T>,
    rb: Seq<(Elapsed, usize)>,
    n: nat,
)
    requires
        ra.len() == a.len(),
        rb.len() == b.len(),
        n <= b.len(),
    ensures
        rows(a + b, ra + rb, a.len() + n) == rows(a, ra, a.len()) + rows(b, rb, n),
    decreases n,
{
    if n == 0 {
        lemma_rows_agree(a + b, ra + rb, a, ra, a.len());
        assert(rows(b, rb, 0) =~= Seq::<char>::empty());
        assert(rows(a, ra, a.len()) + rows(b, rb, 0) =~= rows(a, ra, a.len()));
    } else {
        lemma_rows_concat_upto(a, ra, b, rb, (n - 1) as nat);
        assert((a + b)[a.len() + n - 1] == b[n - 1]);
        assert((ra + rb)[a.len() + n - 1] == rb[n - 1]);
        assert(rows(a + b, ra + rb, a.len() + n) =~= rows(a, ra, a.len()) + rows(b, rb, (n - 1) as nat)
            + row(b[n - 1], rb[n - 1]));
    }
}

proof fn lemma_rows_v2_concat_upto<T: CsvCell>(
    a: Seq<T>,
    ra: Seq<(Elapsed, usize, u64)>,
    b: Seq<T>,
    rb: Seq<(Elapsed, usize, u64)>,
    n: nat,
)
    requires
        ra.len() == a.len(),
        rb.len() == b.len(),
        n <= b.len(),
    ensures
        rows_v2(a + b, ra + rb, a.len() + n) == rows_v2(a, ra, a.len()) + rows_v2(b, rb, n),
    decreases n,
{
    if n == 0 {
        lemma_rows_v2_agree(a + b, ra + rb, a, ra, a.len());
        assert(rows_v2(b, rb, 0) =~= Seq::<char>::empty());
        assert(rows_v2(a, ra, a.len()) + rows_v2(b, rb, 0) =~= rows_v2(a, ra, a.len()));
    } else {
        lemma_rows_v2_concat_upto(a, ra, b, rb, (n - 1) as nat);
        assert((a + b)[a.len() + n - 1] == b[n - 1]);
        assert((ra + rb)[a.len() + n - 1] == rb[n - 1]);
        assert(rows_v2(a + b, ra + rb, a.len() + n) =~= rows_v2(a, ra, a.len()) + rows_v2(
            b,
            rb,
            (n - 1) as nat,
        ) + row_v2(b[n - 1], rb[n - 1]));
    }
}

/// The report of two lists of inputs measured one after the other is the header
/// followed by the lines of the first list and then those of the second: the
/// report of the first list with the lines of the second appended.
pub proof fn lemma_report_concat<T: CsvCell>(
    name: Seq<char>,
    a: Seq<T>,
    ra: Seq<(Elapsed, usize)>,
    b: Seq<T>,
    rb: Seq<(Elapsed, usize)>,
)
    requires
        ra.len() == a.len(),
        rb.len() == b.len(),
    ensures
        csv_report(name, a, ra) == header(name) + rows(a, ra, a.len()),
        csv_report(name, b, rb) == header(name) + rows(b, rb, b.len()),
        csv_report(name, a + b, ra + rb) == header(name) + rows(a, ra, a.len()) + rows(
            b,
            rb,
            b.len(),
        ),
{
    lemma_rows_concat_upto(a, ra, b, rb, b.len());
    assert(paired((a + b).len(), (ra + rb).len()) == a.len() + b.len());
}

/// The report with cycle counts of two lists of inputs measured one after the
/// other is the header followed by the lines of the first list and then those of
/// the second.
pub proof fn lemma_report_v2_concat<T: CsvCell>(
    name: Seq<char>,
    a: Seq<T>,
    ra: Seq<(Elapsed, usize, u64)>,
    b: Seq<T>,
    rb: Seq<(Elapsed, usize, u64)>,
)
    requires
        ra.len() == a.len(),
        rb.len() == b.len(),
    ensures
        csv_report_v2(name, a, ra) == header_v2(name) + rows_v2(a, ra, a.len()),
        csv_report_v2(name, b, rb) == header_v2(name) + rows_v2(b, rb, b.len()),
        csv_report_v2(name, a + b, ra + rb) == header_v2(name) + rows_v2(a, ra, a.len())
            + rows_v2(b, rb, b.len()),
{
    lemma_rows_v2_concat_upto(a, ra, b, rb, b.len());
    assert(paired((a + b).len(), (ra + rb).len()) == a.len() + b.len());
}

/// Every line of `s` with its last comma-separated field removed: the comma
/// that opens that field and what follows it up to the line break go, and the
/// line break stays. A line with no comma is left empty.
pub open spec fn strip_last_fields(s: Seq<char>) -> Seq<char>
    decreases s.len(), 1nat,
{
    if s.len() == 0 {
        Seq::empty()
    } else if s.last() == '\n' {
        cut_last_field(s.drop_last()) + seq!['\n']
    } else {
        cut_last_field(s)
    }
}

/// `t` with the last field of its last line (which has no line break after it)
/// removed, and the last field of each earlier line removed.
pub open spec fn cut_last_field(t: Seq<char>) -> Seq<char>
    decreases t.len(), 0nat,
{
    if t.len() == 0 {
        Seq::empty()
    } else if t.last() == ',' {
        keep_line_rest(t.drop_last())
    } else if t.last() == '\n' {
        cut_last_field(t.drop_last()) + seq!['\n']
    } else {
        cut_last_field(t.drop_last())
    }
}

/// `t` with its last line (which has no line break after it) kept as it is, and
/// the last field of each earlier line removed.
pub open spec fn keep_line_rest(t: Seq<char>) -> Seq<char>
    decreases t.len(), 0nat,
{
    if t.len() == 0 {
        Seq::empty()
    } else if t.last() == '\n' {
        cut_last_field(t.drop_last()) + seq!['\n']
    } else {
        keep_line_rest(t.drop_last()).push(t.last())
    }
}

/// `s` is empty or ends with a line break.
pub open spec fn whole_lines(s: Seq<char>) -> bool {
    s.len() == 0 || s.last() == '\n'
}

proof fn lemma_keep_line_rest_append(p: Seq<char>, line: Seq<char>)
    requires
        single_line(line),
    ensures
        keep_line_rest(p + line) == keep_line_rest(p) + line,
    decreases line.len(),
{
    if line.len() == 0 {
        assert(p + line =~= p);
        assert(keep_line_rest(p) + line =~= keep_line_rest(p));
    } else {
        lemma_keep_line_rest_append(p, line.drop_last());
        assert((p + line).drop_last() =~= p + line.drop_last());
        assert((p + line).last() == line.last());
        assert(keep_line_rest(p) + line =~= (keep_line_rest(p) + line.drop_last()).push(line.last()));
    }
}

proof fn lemma_keep_line_rest_whole(p: Seq<char>)
    requires
        whole_lines(p),
    ensures
        keep_line_rest(p) == strip_last_fields(p),
{
}

/// Cutting after a field that holds neither a comma nor a line break removes it.
proof fn lemma_cut_field(p: Seq<char>, field: Seq<char>)
    requires
        forall|i: int| 0 <= i < field.len() ==> #[trigger] field[i] != ',' && field[i] != '\n',
    ensures
        cut_last_field(p + seq![','] + field) == keep_line_rest(p),
    decreases field.len(),
{
    if field.len() == 0 {
        assert(p + seq![','] + field =~= p.push(','));
        assert(p.push(',').drop_last() =~= p);
    } else {
        lemma_cut_field(p, field.drop_last());
        assert((p + seq![','] + field).drop_last() =~= p + seq![','] + field.drop_last());
        assert((p + seq![','] + field).last() == field[field.len() - 1]);
    }
}

proof fn lemma_decimal_plain_field(n: nat)
    ensures
        forall|i: int| 0 <= i < decimal(n).len() ==> #[trigger] decimal(n)[i] != ',' && decimal(n)[i]
            != '\n',
{
    lemma_decimal_reads_back(n);
    assert forall|i: int| 0 <= i < decimal(n).len() implies #[trigger] decimal(n)[i] != ','
        && decimal(n)[i] != '\n' by {
        assert(is_digit(decimal(n)[i]));
    }
}

proof fn lemma_strip_header(name: Seq<char>)
    requires
        single_line(name),
    ensures
        strip_last_fields(header_v2(name)) == header(name),
{
    reveal_strlit("\n");
    reveal_strlit(",cycles");
    reveal_strlit(",prover time (ms),proof size (bytes)");
    let x = name + measure_columns();
    let word = seq!['c', 'y', 'c', 'l', 'e', 's'];
    assert(single_line(x));
    assert(header_v2(name) =~= x + seq![','] + word + seq!['\n']);
    assert((x + seq![','] + word + seq!['\n']).drop_last() =~= x + seq![','] + word);
    lemma_cut_field(x, word);
    lemma_keep_line_rest_append(Seq::empty(), x);
    assert(Seq::<char>::empty() + x =~= x);
    assert(keep_line_rest(Seq::<char>::empty()) + x =~= x);
    assert(header(name) =~= x + seq!['\n']);
}

proof fn lemma_strip_row<T: CsvCell>(p: Seq<char>, input: T, result: (Elapsed, usize, u64))
    requires
        whole_lines(p),
        single_line(input.cell_text()),
    ensures
        strip_last_fields(p + row_v2(input, result)) == strip_last_fields(p) + row(
            input,
            (result.0, result.1),
        ),
{
    reveal_strlit("\n");
    reveal_strlit(",");
    let cells = row_cells(input, result.0, result.1);
    let d = decimal(result.2 as nat);
    lemma_row_cells_single_line(input, result.0, result.1);
    assert(single_line(cells)) by {
        lemma_line_breaks_zero_single(cells);
    }
    assert(p + row_v2(input, result) =~= p + cells + seq![','] + d + seq!['\n']);
    assert((p + cells + seq![','] + d + seq!['\n']).drop_last() =~= p + cells + seq![','] + d);
    lemma_decimal_plain_field(result.2 as nat);
    lemma_cut_field(p + cells, d);
    lemma_keep_line_rest_append(p, cells);
    lemma_keep_line_rest_whole(p);
    assert(row(input, (result.0, result.1)) =~= cells + seq!['\n']);
}

proof fn lemma_line_breaks_zero_single(s: Seq<char>)
    requires
        line_breaks(s) == 0,
    ensures
        single_line(s),
    decreases s.len(),
{
    if s.len() > 0 {
        lemma_line_breaks_zero_single(s.drop_last());
        assert forall|i: int| 0 <= i < s.len() implies s[i] != '\n' by {
            if i < s.len() - 1 {
                assert(s[i] == s.drop_last()[i]);
            }
        }
    }
}

proof fn lemma_strip_rows<T: CsvCell>(
    name: Seq<char>,
    inputs: Seq<T>,
    with_cycles: Seq<(Elapsed, usize, u64)>,
    plain: Seq<(Elapsed, usize)>,
    k: nat,
)
    requires
        single_line(name),
        k <= inputs.len(),
        k <= with_cycles.len(),
        plain.len() == with_cycles.len(),
        forall|i: int| 0 <= i < inputs.len() ==> single_line(#[trigger] inputs[i].cell_text()),
        forall|i: int|
            0 <= i < with_cycles.len() ==> #[trigger] plain[i] == (
                with_cycles[i].0,
                with_cycles[i].1,
            ),
    ensures
        strip_last_fields(header_v2(name) + rows_v2(inputs, with_cycles, k)) == header(name)
            + rows(inputs, plain, k),
        whole_lines(header_v2(name) + rows_v2(inputs, with_cycles, k)),
    decreases k,
{
    reveal_strlit("\n");
    if k == 0 {
        assert(header_v2(name) + rows_v2(inputs, with_cycles, 0) =~= header_v2(name));
        assert(header(name) + rows(inputs, plain, 0) =~= header(name));
        lemma_strip_header(name);
    } else {
        lemma_strip_rows(name, inputs, with_cycles, plain, (k - 1) as nat);
        let p = header_v2(name) + rows_v2(inputs, with_cycles, (k - 1) as nat);
        let x = inputs[k - 1];
        let r = with_cycles[k - 1];
        lemma_strip_row(p, x, r);
        assert(plain[k - 1] == (r.0, r.1));
        assert(header_v2(name) + rows_v2(inputs, with_cycles, k) =~= p + row_v2(x, r));
        assert(header(name) + rows(inputs, plain, k) =~= header(name) + rows(
            inputs,
            plain,
            (k - 1) as nat,
        ) + row(x, (r.0, r.1)));
    }
}

/// Removing the cycle count, the last field, from every line of a report with
/// cycle counts gives the plain report of the same measurements without their
/// cycle counts, when neither the first column's name nor any input's text holds
/// a line break.
pub proof fn lemma_strip_cycles<T: CsvCell>(
    name: Seq<char>,
    inputs: Seq<T>,
    with_cycles: Seq<(Elapsed, usize, u64)>,
    plain: Seq<(Elapsed, usize)>,
)
    requires
        single_line(name),
        forall|i: int| 0 <= i < inputs.len() ==> single_line(#[trigger] inputs[i].cell_text()),
        plain.len() == with_cycles.len(),
        forall|i: int|
            0 <= i < with_cycles.len() ==> #[trigger] plain[i] == (
                with_cycles[i].0,
                with_cycles[i].1,
            ),
    ensures
        strip_last_fields(csv_report_v2(name, inputs, with_cycles)) == csv_report(
            name,
            inputs,
            plain,
        ),
{
    lemma_strip_rows(name, inputs, with_cycles, plain, paired(inputs.len(), with_cycles.len()));
}

/// The cell of a `u8` is its usual decimal text: nonempty digits, no leading
/// zero, reading back as the number.
pub proof fn lemma_u8_cell(x: u8)
    ensures
        is_decimal_text_of(x.cell_text(), x as nat),
{
    lemma_decimal_is_text_of(x as nat);
}

/// The cell of a `u16` is its usual decimal text: nonempty digits, no leading
/// zero, reading back as the number.
pub proof fn lemma_u16_cell(x: u16)
    ensures
        is_decimal_text_of(x.cell_text(), x as nat),
{
    lemma_decimal_is_text_of(x as nat);
}

/// The cell of a `u32` is its usual decimal text: nonempty digits, no leading
/// zero, reading back as the number.
pub proof fn lemma_u32_cell(x: u32)
    ensures
        is_decimal_text_of(x.cell_text(), x as nat),
{
    lemma_decimal_is_text_of(x as nat);
}

/// The cell of a `u64` is its usual decimal text: nonempty digits, no leading
/// zero, reading back as the number.
pub proof fn lemma_u64_cell(x: u64)
    ensures
        is_decimal_text_of(x.cell_text(), x as nat),
{
    lemma_decimal_is_text_of(x as nat);
}

/// The cell of a `u128` is its usual decimal text: nonempty digits, no leading
/// zero, reading back as the number.
pub proof fn lemma_u128_cell(x: u128)
    ensures
        is_decimal_text_of(x.cell_text(), x as nat),
{
    lemma_decimal_is_text_of(x as nat);
}

/// The cell of a `usize` is its usual decimal text: nonempty digits, no leading
/// zero, reading back as the number.
pub proof fn lemma_usize_cell(x: usize)
    ensures
        is_decimal_text_of(x.cell_text(), x as nat),
{
    lemma_decimal_is_text_of(x as nat);
}

/// The cell of an `i8` is its usual decimal text: a minus sign exactly when
/// it is negative, then the digits of its magnitude.
pub proof fn lemma_i8_cell(x: i8)
    ensures
        is_signed_decimal_text_of(x.cell_text(), x as int),
{
    lemma_signed_decimal_is_text_of(x as int);
}

/// The cell of an `i16` is its usual decimal text: a minus sign exactly when
/// it is negative, then the digits of its magnitude.
pub proof fn lemma_i16_cell(x: i16)
    ensures
        is_signed_decimal_text_of(x.cell_text(), x as int),
{
    lemma_signed_decimal_is_text_of(x as int);
}

/// The cell of an `i32` is its usual decimal text: a minus sign exactly when
/// it is negative, then the digits of its magnitude.
pub proof fn lemma_i32_cell(x: i32)
    ensures
        is_signed_decimal_text_of(x.cell_text(), x as int),
{
    lemma_signed_decimal_is_text_of(x as int);
}

/// The cell of an `i64` is its usual decimal text: a minus sign exactly when
/// it is negative, then the digits of its magnitude.
pub proof fn lemma_i64_cell(x: i64)
    ensures
        is_signed_decimal_text_of(x.cell_text(), x as int),
{
    lemma_signed_decimal_is_text_of(x as int);
}

/// The cell of an `i128` is its usual decimal text: a minus sign exactly when
/// it is negative, then the digits of its magnitude.
pub proof fn lemma_i128_cell(x: i128)
    ensures
        is_signed_decimal_text_of(x.cell_text(), x as int),
{
    lemma_signed_decimal_is_text_of(x as int);
}

/// The cell of an `isize` is its usual decimal text: a minus sign exactly when
/// it is negative, then the digits of its magnitude.
pub proof fn lemma_isize_cell(x: isize)
    ensures
        is_signed_decimal_text_of(x.cell_text(), x as int),
{
    lemma_signed_decimal_is_text_of(x as int);
}

/// The cell of a text is the text itself, with no quoting or escaping.
pub proof fn lemma_str_cell(x: &str)
    ensures
        x.cell_text() == x@,
{
}

/// The cell of a text is the text itself, with no quoting or escaping.
pub proof fn lemma_string_cell(x: String)
    ensures
        x.cell_text() == x@,
{
}

} // verus!
