use zkvm_bench::decimal::push_decimal;
use zkvm_bench::elapsed::Elapsed;
use zkvm_bench::report::{format_csv, format_csv_v2, CsvCell};

fn ms(secs: u64, nanos: u32) -> Elapsed {
    Elapsed { secs, nanos }
}

#[test]
fn decimal_of_zero() {
    let mut s = String::new();
    push_decimal(&mut s, 0);
    assert_eq!(s, "0");
}

#[test]
fn decimal_appends_after_existing_text() {
    let mut s = String::from("x=");
    push_decimal(&mut s, 1234567890);
    assert_eq!(s, "x=1234567890");
}

#[test]
fn decimal_of_largest_u128() {
    let mut s = String::new();
    push_decimal(&mut s, u128::MAX);
    assert_eq!(s, u128::MAX.to_string());
}

#[test]
fn decimal_of_powers_of_ten() {
    for k in 0..39u32 {
        let n: u128 = 10u128.pow(k);
        let mut s = String::new();
        push_decimal(&mut s, n);
        assert_eq!(s, n.to_string());
    }
}

#[test]
fn cells_of_integer_types() {
    let mut s = String::new();
    42u32.push_cell(&mut s);
    s.push('|');
    u64::MAX.push_cell(&mut s);
    s.push('|');
    2048usize.push_cell(&mut s);
    assert_eq!(s, format!("42|{}|2048", u64::MAX));
}

#[test]
fn millis_are_whole_milliseconds() {
    assert_eq!(ms(1, 500_000_000).as_millis(), 1500);
    assert_eq!(ms(0, 999_999).as_millis(), 0);
    assert_eq!(ms(0, 1_000_000).as_millis(), 1);
    assert_eq!(ms(2, 0).as_millis(), 2000);
    assert_eq!(ms(u64::MAX, 999_999_999).as_millis(), u64::MAX as u128 * 1000 + 999);
}

#[test]
fn millis_match_std_duration() {
    let d = std::time::Duration::new(12, 345_678_901);
    assert_eq!(ms(d.as_secs(), d.subsec_nanos()).as_millis(), d.as_millis());
}

#[test]
fn nanos_past_a_second_count_in_full() {
    // 1 s plus 2.5 s written as nanoseconds
    assert_eq!(ms(1, 2_500_000_000).as_millis(), 3500);
}

#[test]
fn report_header_and_rows() {
    let inputs = [32usize, 256];
    let results = [(ms(1, 500_000_000), 7usize), (ms(0, 42_000_000), 1024)];
    let text = format_csv("byte length", &inputs, &results);
    assert_eq!(
        text,
        "byte length,prover time (ms),proof size (bytes)\n32,1500,7\n256,42,1024\n"
    );
}

#[test]
fn report_of_no_inputs_is_the_header() {
    let inputs: [u32; 0] = [];
    let results: [(Elapsed, usize); 0] = [];
    assert_eq!(format_csv("n", &inputs, &results), "n,prover time (ms),proof size (bytes)\n");
}

#[test]
fn report_pairs_up_to_the_shorter_list() {
    let inputs = [1u32, 2, 3];
    let results = [(ms(0, 3_000_000), 10usize)];
    assert_eq!(
        format_csv("n", &inputs, &results),
        "n,prover time (ms),proof size (bytes)\n1,3,10\n"
    );
    let inputs = [9u32];
    let results = [(ms(0, 0), 1usize), (ms(0, 0), 2)];
    assert_eq!(
        format_csv("n", &inputs, &results),
        "n,prover time (ms),proof size (bytes)\n9,0,1\n"
    );
}

#[test]
fn report_with_cycles() {
    let inputs = [230u32, 460];
    let results = [(ms(61, 0), 1_000usize, 123_456u64), (ms(120, 999_999), 2_000, 0)];
    assert_eq!(
        format_csv_v2("iters", &inputs, &results),
        "iters,prover time (ms),proof size (bytes),cycles\n230,61000,1000,123456\n460,120000,2000,0\n"
    );
}

#[test]
fn report_lines_count_header_plus_pairs() {
    let inputs = [1u32, 2, 3, 4];
    let results = [(ms(0, 0), 1usize), (ms(0, 0), 2), (ms(0, 0), 3)];
    let text = format_csv("value", &inputs, &results);
    assert_eq!(text.matches('\n').count(), 1 + 3);
    let results2 = [(ms(0, 0), 1usize, 5u64), (ms(0, 0), 2, 6)];
    let text2 = format_csv_v2("value", &inputs, &results2);
    assert_eq!(text2.matches('\n').count(), 1 + 2);
}

#[test]
fn cycles_report_adds_one_column() {
    let inputs = [7u32, 8];
    let plain = [(ms(3, 4_000_000), 11usize), (ms(0, 9_000_000), 12)];
    let with_cycles = [(ms(3, 4_000_000), 11usize, 99u64), (ms(0, 9_000_000), 12, 100)];
    let a = format_csv("n", &inputs, &plain);
    let b = format_csv_v2("n", &inputs, &with_cycles);
    let a_lines: Vec<&str> = a.lines().collect();
    let b_lines: Vec<&str> = b.lines().collect();
    assert_eq!(b_lines[0], format!("{},cycles", a_lines[0]));
    assert_eq!(b_lines[1], format!("{},99", a_lines[1]));
    assert_eq!(b_lines[2], format!("{},100", a_lines[2]));
}

#[test]
fn report_numbers_read_back() {
    let inputs = [u32::MAX];
    let results = [(ms(5, 123_456_789), usize::MAX, u64::MAX)];
    let text = format_csv_v2("n", &inputs, &results);
    let row = text.lines().nth(1).unwrap();
    let cells: Vec<&str> = row.split(',').collect();
    assert_eq!(cells[0].parse::<u32>().unwrap(), u32::MAX);
    assert_eq!(cells[1].parse::<u128>().unwrap(), 5123);
    assert_eq!(cells[2].parse::<usize>().unwrap(), usize::MAX);
    assert_eq!(cells[3].parse::<u64>().unwrap(), u64::MAX);
}

#[test]
fn report_of_text_inputs_stops_at_shorter_list() {
    let inputs = ["a", "b", "c"];
    let results = [(ms(0, 5_000_000), 10usize)];
    assert_eq!(
        format_csv("x", &inputs, &results),
        "x,prover time (ms),proof size (bytes)\na,5,10\n"
    );
}

#[test]
fn text_inputs_are_written_verbatim() {
    let inputs = ["a,b"];
    let results = [(ms(0, 0), 0usize)];
    assert_eq!(
        format_csv("h", &inputs, &results),
        "h,prover time (ms),proof size (bytes)\na,b,0,0\n"
    );
    let owned = [String::from("q\"r"), String::new()];
    let results = [(ms(0, 1_000_000), 1usize, 2u64), (ms(0, 0), 3, 4)];
    assert_eq!(
        format_csv_v2("s", &owned, &results),
        "s,prover time (ms),proof size (bytes),cycles\nq\"r,1,1,2\n,0,3,4\n"
    );
}

#[test]
fn cells_of_signed_and_other_integer_types() {
    let mut s = String::new();
    (-42i32).push_cell(&mut s);
    s.push('|');
    i64::MIN.push_cell(&mut s);
    s.push('|');
    i128::MIN.push_cell(&mut s);
    s.push('|');
    0i8.push_cell(&mut s);
    s.push('|');
    (-1isize).push_cell(&mut s);
    s.push('|');
    255u8.push_cell(&mut s);
    s.push('|');
    u128::MAX.push_cell(&mut s);
    s.push('|');
    i16::MAX.push_cell(&mut s);
    assert_eq!(
        s,
        format!("-42|{}|{}|0|-1|255|{}|32767", i64::MIN, i128::MIN, u128::MAX)
    );
}

#[test]
fn report_of_concatenated_inputs() {
    let a = [1u32, 2];
    let ra = [(ms(0, 1_000_000), 10usize), (ms(0, 2_000_000), 20)];
    let b = [3u32];
    let rb = [(ms(0, 3_000_000), 30usize)];
    let ab = [1u32, 2, 3];
    let rab = [ra[0], ra[1], rb[0]];
    let whole = format_csv("n", &ab, &rab);
    let first = format_csv("n", &a, &ra);
    let second = format_csv("n", &b, &rb);
    let header_len = first.find('\n').unwrap() + 1;
    assert_eq!(whole, format!("{}{}", first, &second[header_len..]));
}

#[test]
fn dropping_cycles_gives_plain_report() {
    let inputs = ["x,y", "z"];
    let with_cycles = [(ms(1, 0), 5usize, 77u64), (ms(0, 2_000_000), 6, 88)];
    let plain = [(ms(1, 0), 5usize), (ms(0, 2_000_000), 6)];
    let v2 = format_csv_v2("n", &inputs, &with_cycles);
    let stripped: String = v2
        .lines()
        .map(|l| format!("{}\n", &l[..l.rfind(',').unwrap()]))
        .collect();
    assert_eq!(stripped, format_csv("n", &inputs, &plain));
}
