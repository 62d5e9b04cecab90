//! Running a measurement over a list of inputs and reporting the results.

use vstd::prelude::*;
use crate::decimal::{decimal, push_decimal};
use crate::elapsed::Elapsed;
use crate::report::{
    CsvCell, csv_report, csv_report_v2, format_csv, format_csv_v2, header, header_v2, rows, rows_v2,
    lemma_report_concat, lemma_report_v2_concat, lemma_strip_cycles, single_line, strip_last_fields,
};

verus! {

/// `results` holds, in order, one outcome of `func` on each of `inputs`.
pub open spec fn measured<T, F: Fn(T) -> (Elapsed, usize)>(
    func: F,
    inputs: Seq<T>,
    results: Seq<(Elapsed, usize)>,
) -> bool {
    &&& results.len() == inputs.len()
    &&& forall|i: int| 0 <= i < inputs.len() ==> call_ensures(func, (inputs[i],), #[trigger] results[i])
}

/// `results` holds, in order, one outcome of `func` on each of `inputs`.
pub open spec fn measured_v2<T, F: Fn(T) -> (Elapsed, usize, u64)>(
    func: F,
    inputs: Seq<T>,
    results: Seq<(Elapsed, usize, u64)>,
) -> bool {
    &&& results.len() == inputs.len()
    &&& forall|i: int| 0 <= i < inputs.len() ==> call_ensures(func, (inputs[i],), #[trigger] results[i])
}

/// `result` is one outcome of `func` on `iter` and the decimal text of
/// `shard_size`.
pub open spec fn run_with_shard_size<F: Fn(u32, String) -> (Elapsed, usize, u64)>(
    func: F,
    iter: u32,
    shard_size: usize,
    result: (Elapsed, usize, u64),
) -> bool {
    exists|shard: String|
        shard@ == decimal(shard_size as nat) && #[trigger] call_ensures(func, (iter, shard), result)
}

/// `results` holds, in order, one outcome of `func` on each of `iters`, where
/// the `i`-th call is handed the decimal text of `shard_sizes[i]` beside
/// `iters[i]`.
pub open spec fn measured_with_shard_size<F: Fn(u32, String) -> (Elapsed, usize, u64)>(
    func: F,
    iters: Seq<u32>,
    shard_sizes: Seq<usize>,
    results: Seq<(Elapsed, usize, u64)>,
) -> bool {
    &&& results.len() == iters.len()
    &&& forall|i: int|
        0 <= i < iters.len() ==> run_with_shard_size(func, iters[i], shard_sizes[i], #[trigger] results[i])
}

/// Runs `func` once on each of `inputs`, in order, and returns the report of
/// the results under a first column named `input_name`.
pub fn benchmark<T: Copy + CsvCell, F: Fn(T) -> (Elapsed, usize)>(
    func: F,
    inputs: &[T],
    input_name: &str,
) -> (report: String)
    requires
        forall|i: int| 0 <= i < inputs.len() ==> call_requires(func, (#[trigger] inputs@[i],)),
    ensures
        exists|results: Seq<(Elapsed, usize)>|
            measured(func, inputs@, results) && report@ == #[trigger] csv_report(
                input_name@,
                inputs@,
                results,
            ),
{
    let mut results: Vec<(Elapsed, usize)> = Vec::new();
    let mut i: usize = 0;
    while i < inputs.len()
        invariant
            i <= inputs.len(),
            forall|j: int| 0 <= j < inputs.len() ==> call_requires(func, (#[trigger] inputs@[j],)),
            measured(func, inputs@.take(i as int), results@),
        decreases inputs.len() - i,
    {
        let input: T = inputs[i];
        let result = func(input);
        results.push(result);
        i = i + 1;
        assert(inputs@.take(i as int).drop_last() =~= inputs@.take(i - 1));
    }
    assert(inputs@.take(i as int) =~= inputs@);
    format_csv(input_name, inputs, &results)
}

/// Runs `func` once on each of `inputs`, in order, and returns the report with
/// cycle counts of the results under a first column named `input_name`.
pub fn benchmark_v2<T: Copy + CsvCell, F: Fn(T) -> (Elapsed, usize, u64)>(
    func: F,
    inputs: &[T],
    input_name: &str,
) -> (report: String)
    requires
        forall|i: int| 0 <= i < inputs.len() ==> call_requires(func, (#[trigger] inputs@[i],)),
    ensures
        exists|results: Seq<(Elapsed, usize, u64)>|
            measured_v2(func, inputs@, results) && report@ == #[trigger] csv_report_v2(
                input_name@,
                inputs@,
                results,
            ),
{
    let mut results: Vec<(Elapsed, usize, u64)> = Vec::new();
    let mut i: usize = 0;
    while i < inputs.len()
        invariant
            i <= inputs.len(),
            forall|j: int| 0 <= j < inputs.len() ==> call_requires(func, (#[trigger] inputs@[j],)),
            measured_v2(func, inputs@.take(i as int), results@),
        decreases inputs.len() - i,
    {
        let input: T = inputs[i];
        let result = func(input);
        results.push(result);
        i = i + 1;
        assert(inputs@.take(i as int).drop_last() =~= inputs@.take(i - 1));
    }
    assert(inputs@.take(i as int) =~= inputs@);
    format_csv_v2(input_name, inputs, &results)
}

/// Runs `func` once on each of `iters`, in order, handing it beside `iters[i]`
/// the decimal text of `shard_sizes[i]` (the shard size to run that benchmark
/// with), and returns the report with cycle counts of the results under a first
/// column named `input_name`.
pub fn benchmark_with_shard_size<F: Fn(u32, String) -> (Elapsed, usize, u64)>(
    func: F,
    iters: &[u32],
    shard_sizes: &[usize],
    input_name: &str,
) -> (report: String)
    requires
        iters.len() == shard_sizes.len(),
        forall|i: int, shard: String|
            0 <= i < iters.len() && shard@ == decimal(shard_sizes@[i] as nat) ==> #[trigger] call_requires(
                func,
                (iters@[i], shard),
            ),
    ensures
        exists|results: Seq<(Elapsed, usize, u64)>|
            measured_with_shard_size(func, iters@, shard_sizes@, results) && report@
                == #[trigger] csv_report_v2(input_name@, iters@, results),
{
    let mut results: Vec<(Elapsed, usize, u64)> = Vec::new();
    let mut i: usize = 0;
    while i < iters.len()
        invariant
            i <= iters.len(),
            iters.len() == shard_sizes.len(),
            forall|j: int, shard: String|
                0 <= j < iters.len() && shard@ == decimal(shard_sizes@[j] as nat) ==> #[trigger] call_requires(
                    func,
                    (iters@[j], shard),
                ),
            measured_with_shard_size(
                func,
                iters@.take(i as int),
                shard_sizes@.take(i as int),
                results@,
            ),
        decreases iters.len() - i,
    {
        let mut shard = String::new();
        push_decimal(&mut shard, shard_sizes[i] as u128);
        assert(shard@ =~= decimal(shard_sizes@[i as int] as nat));
        let ghost handed: String = shard;
        let ghost before = results@;
        let result = func(iters[i], shard);
        results.push(result);
        i = i + 1;
        assert(run_with_shard_size(func, iters@[i - 1], shard_sizes@[i - 1], results@[i - 1])) by {
            assert(call_ensures(func, (iters@[i - 1], handed), results@[i - 1]));
        }
        assert forall|j: int| 0 <= j < i implies run_with_shard_size(
            func,
            iters@.take(i as int)[j],
            shard_sizes@.take(i as int)[j],
            #[trigger] results@[j],
        ) by {
            if j < i - 1 {
                assert(iters@.take(i - 1)[j] == iters@.take(i as int)[j]);
                assert(shard_sizes@.take(i - 1)[j] == shard_sizes@.take(i as int)[j]);
                assert(before[j] == results@[j]);
            }
        }
    }
    assert(iters@.take(i as int) =~= iters@);
    assert(shard_sizes@.take(i as int) =~= shard_sizes@);
    format_csv_v2(input_name, iters, &results)
}

/// Measuring two lists of inputs one after the other measures their
/// concatenation, and the report of the concatenation is the header followed by
/// the lines of the first list's report and then those of the second's.
pub proof fn lemma_benchmark_concat<T: CsvCell, F: Fn(T) -> (Elapsed, usize)>(
    func: F,
    name: Seq<char>,
    a: Seq<T>,
    ra: Seq<(Elapsed, usize)>,
    b: Seq<T>,
    rb: Seq<(Elapsed, usize)>,
)
    requires
        measured(func, a, ra),
        measured(func, b, rb),
    ensures
        measured(func, a + b, ra + rb),
        csv_report(name, a, ra) == header(name) + rows(a, ra, a.len()),
        csv_report(name, b, rb) == header(name) + rows(b, rb, b.len()),
        csv_report(name, a + b, ra + rb) == header(name) + rows(a, ra, a.len()) + rows(
            b,
            rb,
            b.len(),
        ),
{
    assert forall|i: int| 0 <= i < (a + b).len() implies call_ensures(
        func,
        ((a + b)[i],),
        #[trigger] (ra + rb)[i],
    ) by {
        if i < a.len() {
            assert((a + b)[i] == a[i]);
            assert((ra + rb)[i] == ra[i]);
        } else {
            assert((a + b)[i] == b[i - a.len()]);
            assert((ra + rb)[i] == rb[i - a.len()]);
        }
    }
    lemma_report_concat(name, a, ra, b, rb);
}

/// Measuring two lists of inputs one after the other measures their
/// concatenation, and the report with cycle counts of the concatenation is the
/// header followed by the lines of the first list's report and then those of the
/// second's.
pub proof fn lemma_benchmark_v2_concat<T: CsvCell, F: Fn(T) -> (Elapsed, usize, u64)>(
    func: F,
    name: Seq<char>,
    a: Seq<T>,
    ra: Seq<(Elapsed, usize, u64)>,
    b: Seq<T>,
    rb: Seq<(Elapsed, usize, u64)>,
)
    requires
        measured_v2(func, a, ra),
        measured_v2(func, b, rb),
    ensures
        measured_v2(func, a + b, ra + rb),
        csv_report_v2(name, a, ra) == header_v2(name) + rows_v2(a, ra, a.len()),
        csv_report_v2(name, b, rb) == header_v2(name) + rows_v2(b, rb, b.len()),
        csv_report_v2(name, a + b, ra + rb) == header_v2(name) + rows_v2(a, ra, a.len())
            + rows_v2(b, rb, b.len()),
{
    assert forall|i: int| 0 <= i < (a + b).len() implies call_ensures(
        func,
        ((a + b)[i],),
        #[trigger] (ra + rb)[i],
    ) by {
        if i < a.len() {
            assert((a + b)[i] == a[i]);
            assert((ra + rb)[i] == ra[i]);
        } else {
            assert((a + b)[i] == b[i - a.len()]);
            assert((ra + rb)[i] == rb[i - a.len()]);
        }
    }
    lemma_report_v2_concat(name, a, ra, b, rb);
}

/// Measuring with `f`, which also counts cycles, and with `g`, which gives the
/// same times and sizes as `f` without the cycle counts: removing the last field
/// from every line of the first report gives the second, when neither the first
/// column's name nor any input's text holds a line break.
pub proof fn lemma_benchmark_v2_without_cycles<
    T: CsvCell,
    F: Fn(T) -> (Elapsed, usize, u64),
    G: Fn(T) -> (Elapsed, usize),
>(
    f: F,
    g: G,
    name: Seq<char>,
    inputs: Seq<T>,
    with_cycles: Seq<(Elapsed, usize, u64)>,
    plain: Seq<(Elapsed, usize)>,
)
    requires
        measured_v2(f, inputs, with_cycles),
        measured(g, inputs, plain),
        forall|i: int|
            0 <= i < inputs.len() ==> #[trigger] plain[i] == (with_cycles[i].0, with_cycles[i].1),
        single_line(name),
        forall|i: int| 0 <= i < inputs.len() ==> single_line(#[trigger] inputs[i].cell_text()),
    ensures
        strip_last_fields(csv_report_v2(name, inputs, with_cycles)) == csv_report(
            name,
            inputs,
            plain,
        ),
{
    lemma_strip_cycles(name, inputs, with_cycles, plain);
}

} // verus!
