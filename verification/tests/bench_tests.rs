use std::cell::RefCell;

use zkvm_bench::bench::{benchmark, benchmark_v2, benchmark_with_shard_size};
use zkvm_bench::chain::sha2_chain;
use zkvm_bench::elapsed::Elapsed;

#[test]
fn benchmark_runs_each_input_once_in_order() {
    let seen = RefCell::new(Vec::new());
    let inputs = [100u32, 1000, 10000, 50000];
    let report = benchmark(
        |n: u32| {
            seen.borrow_mut().push(n);
            (Elapsed { secs: 0, nanos: n * 1000 }, n as usize + 1)
        },
        &inputs,
        "n",
    );
    assert_eq!(*seen.borrow(), vec![100, 1000, 10000, 50000]);
    assert_eq!(
        report,
        "n,prover time (ms),proof size (bytes)\n100,0,101\n1000,1,1001\n10000,10,10001\n50000,50,50001\n"
    );
}

#[test]
fn benchmark_of_no_inputs_calls_nothing() {
    let calls = RefCell::new(0);
    let inputs: [usize; 0] = [];
    let report = benchmark(
        |_n: usize| {
            *calls.borrow_mut() += 1;
            (Elapsed { secs: 0, nanos: 0 }, 0usize)
        },
        &inputs,
        "byte length",
    );
    assert_eq!(*calls.borrow(), 0);
    assert_eq!(report, "byte length,prover time (ms),proof size (bytes)\n");
}

#[test]
fn benchmark_v2_reports_cycles() {
    let inputs = [32usize, 256, 512];
    let report = benchmark_v2(
        |len: usize| (Elapsed { secs: len as u64, nanos: 0 }, len * 2, len as u64 * 3),
        &inputs,
        "byte length",
    );
    assert_eq!(
        report,
        "byte length,prover time (ms),proof size (bytes),cycles\n32,32000,64,96\n256,256000,512,768\n512,512000,1024,1536\n"
    );
}

#[test]
fn shard_size_benchmark_hands_decimal_shard_sizes() {
    let seen = RefCell::new(Vec::new());
    let iters = [230u32, 460];
    let shard_sizes = [1usize << 20, 1 << 21];
    let report = benchmark_with_shard_size(
        |it: u32, shard: String| {
            seen.borrow_mut().push((it, shard));
            (Elapsed { secs: 1, nanos: 0 }, it as usize, 7)
        },
        &iters,
        &shard_sizes,
        "iters",
    );
    assert_eq!(
        *seen.borrow(),
        vec![(230, "1048576".to_string()), (460, "2097152".to_string())]
    );
    assert_eq!(
        report,
        "iters,prover time (ms),proof size (bytes),cycles\n230,1000,230,7\n460,1000,460,7\n"
    );
}

const DIGEST_OF_FIVES: [u8; 32] = [
    248, 73, 214, 115, 37, 250, 207, 4, 23, 123, 198, 99, 178, 220, 84, 64, 81, 131, 28, 88, 158,
    245, 129, 212, 18, 242, 235, 164, 72, 52, 231, 124,
];

#[test]
fn sha2_chain_without_rounds_keeps_input() {
    assert_eq!(sha2_chain([5u8; 32], 0), [5u8; 32]);
}

#[test]
fn sha2_chain_one_round_is_sha256() {
    assert_eq!(sha2_chain([5u8; 32], 1), DIGEST_OF_FIVES);
}

#[test]
fn sha2_chain_rounds_agree() {
    assert_eq!(sha2_chain([5u8; 32], 230), DIGEST_OF_FIVES);
    assert_eq!(sha2_chain([5u8; 32], 460), sha2_chain([5u8; 32], 2));
}

#[test]
fn sha2_chain_of_other_input() {
    let mut input = [0u8; 32];
    for (i, b) in input.iter_mut().enumerate() {
        *b = i as u8;
    }
    let expected: [u8; 32] = [
        99, 13, 205, 41, 102, 196, 51, 102, 145, 18, 84, 72, 187, 178, 91, 79, 244, 18, 164, 156,
        115, 45, 178, 200, 171, 193, 184, 88, 27, 215, 16, 221,
    ];
    assert_eq!(sha2_chain(input, 3), expected);
}

#[test]
fn benchmark_of_text_inputs() {
    let inputs = ["small", "large"];
    let report = benchmark(
        |s: &str| (Elapsed { secs: 0, nanos: s.len() as u32 * 1_000_000 }, s.len()),
        &inputs,
        "case",
    );
    assert_eq!(report, "case,prover time (ms),proof size (bytes)\nsmall,5,5\nlarge,5,5\n");
}
