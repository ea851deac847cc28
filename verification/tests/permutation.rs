use lair_core::field::Fp;
use lair_core::poseidon::Poseidon2Chip;

fn f(x: u32) -> Fp {
    Fp::from_u32(x)
}

fn chip(width: u32, full: usize, partial: usize) -> Poseidon2Chip {
    let rounds = full + partial;
    let constants: Vec<Vec<Fp>> = (0..rounds)
        .map(|r| (0..width).map(|i| f(r as u32 * width + i + 1)).collect())
        .collect();
    Poseidon2Chip {
        width: width as usize,
        full_rounds: full,
        partial_rounds: partial,
        constants,
    }
}

#[test]
fn permutation_trace_has_one_row_per_round_plus_initial() {
    let c = chip(3, 2, 1);
    let inputs = vec![vec![f(1), f(2), f(3)]];
    let trace = c.generate_trace(&inputs);
    assert_eq!(trace.width, 3);
    // 1 block * (3 rounds + 1 initial row) = 4 rows, already a power of two
    assert_eq!(trace.values.len(), 12);
    // the initial row is the input block itself
    assert_eq!(&trace.values[0..3], &[f(1), f(2), f(3)][..]);
}

#[test]
fn permutation_rounds_are_deterministic_across_blocks() {
    let c = chip(3, 2, 1);
    let block = vec![f(7), f(11), f(13)];
    let inputs = vec![block.clone(), block];
    let trace = c.generate_trace(&inputs);
    // 2 blocks * 4 rows = 8 rows
    assert_eq!(trace.values.len(), 24);
    // identical inputs produce identical row groups
    assert_eq!(&trace.values[0..12], &trace.values[12..24]);
}

#[test]
fn first_round_applies_constants_box_and_mixing() {
    // width 1, one full round, no partial rounds: with input x and constant c,
    // the next row is sbox(x + c) + sbox(x + c) (the lane sum equals the lane)
    let c = Poseidon2Chip {
        width: 1,
        full_rounds: 1,
        partial_rounds: 0,
        constants: vec![vec![f(1)]],
    };
    let inputs = vec![vec![f(1)]];
    let trace = c.generate_trace(&inputs);
    assert_eq!(trace.width, 1);
    assert_eq!(trace.values.len(), 2);
    assert_eq!(trace.values[0], f(1));
    // (1 + 1)^7 = 128, mixed: 128 + 128 = 256
    assert_eq!(trace.values[1], f(256));
}

#[test]
fn partial_rounds_box_only_lane_zero() {
    // width 2, no full rounds, one partial round, zero constants, input (2, 3):
    // nonlinear layer gives (2^7, 3) = (128, 3); sum 131; mixed (259, 134)
    let c = Poseidon2Chip {
        width: 2,
        full_rounds: 0,
        partial_rounds: 1,
        constants: vec![vec![f(0), f(0)]],
    };
    let inputs = vec![vec![f(2), f(3)]];
    let trace = c.generate_trace(&inputs);
    assert_eq!(trace.values.len(), 4);
    assert_eq!(&trace.values[2..4], &[f(259), f(134)][..]);
}

#[test]
fn permutation_trace_pads_with_zero_rows() {
    let c = chip(2, 1, 1);
    // 1 block * 3 rows pads to height 4: the last row is zero
    let inputs = vec![vec![f(5), f(6)]];
    let trace = c.generate_trace(&inputs);
    assert_eq!(trace.values.len(), 8);
    assert_eq!(&trace.values[6..8], &[f(0), f(0)][..]);
}

#[test]
fn empty_input_produces_a_single_zero_row() {
    let c = chip(2, 1, 1);
    let inputs: Vec<Vec<Fp>> = Vec::new();
    let trace = c.generate_trace(&inputs);
    assert_eq!(trace.width, 2);
    assert_eq!(trace.values.len(), 2);
    assert_eq!(&trace.values[..], &[f(0), f(0)][..]);
}
