use lair_core::field::Fp;
use lair_core::memory::{MemChip, MemError};
use lair_core::record::QueryRecord;

fn f(x: u32) -> Fp {
    Fp::from_u32(x)
}

fn tuple(xs: &[u32]) -> Vec<Fp> {
    xs.iter().map(|&x| f(x)).collect()
}

#[test]
fn lair_memory_test() {
    let queries = &mut QueryRecord::new();
    let ptr1 = queries.store(tuple(&[1, 2, 3]));
    let ptr2 = queries.store(tuple(&[1, 1, 1]));
    assert_eq!(ptr1, 1);
    assert_eq!(ptr2, 2);
    let loaded = queries.load(3, ptr1).unwrap();
    assert_eq!(loaded, tuple(&[1, 2, 3]));

    let mem_len = 3;
    let mem_chip = MemChip { len: mem_len };
    let mem_trace = mem_chip.generate_trace(queries);

    let expected_trace: Vec<Fp> = [
        // index, mult, memory values
        1, 2, 1, 2, 3, //
        2, 1, 1, 1, 1, //
        3, 0, 0, 0, 0, //
        4, 0, 0, 0, 0, //
    ]
    .into_iter()
    .map(f)
    .collect();
    assert_eq!(mem_trace.values, expected_trace);
    assert!(mem_chip.eval(&mem_trace));
}

#[test]
fn store_load_round_trip() {
    let queries = &mut QueryRecord::new();
    let addr = queries.store(tuple(&[7, 8]));
    let loaded = queries.load(2, addr).unwrap();
    assert_eq!(loaded, tuple(&[7, 8]));
}

#[test]
fn store_deduplicates_and_counts_multiplicity() {
    let queries = &mut QueryRecord::new();
    let a1 = queries.store(tuple(&[9, 9]));
    let a2 = queries.store(tuple(&[9, 9]));
    assert_eq!(a1, a2);
    assert_eq!(queries.mem.len(), 1);
    assert_eq!(queries.mem[0].entries.len(), 1);
    assert_eq!(queries.mem[0].entries[0].mult, 2);
}

#[test]
fn multiplicity_counts_every_store_and_load() {
    let queries = &mut QueryRecord::new();
    let a1 = queries.store(tuple(&[4, 2]));
    let a2 = queries.store(tuple(&[4, 2]));
    let a3 = queries.store(tuple(&[4, 2]));
    assert_eq!(a1, a2);
    assert_eq!(a2, a3);
    for _ in 0..4 {
        assert_eq!(queries.load(2, a1).unwrap(), tuple(&[4, 2]));
    }
    assert_eq!(queries.mem.len(), 1);
    assert_eq!(queries.mem[0].entries.len(), 1);
    // 3 stores + 4 loads: one multiplicity per access
    assert_eq!(queries.mem[0].entries[0].mult, 7);
}

#[test]
fn load_of_unknown_address_is_fatal() {
    let queries = &mut QueryRecord::new();
    queries.store(tuple(&[5]));
    assert_eq!(queries.load(1, 0), Err(MemError::UnknownAddress));
    assert_eq!(queries.load(1, 2), Err(MemError::UnknownAddress));
    // an arity that never appeared
    assert_eq!(queries.load(4, 1), Err(MemError::UnknownAddress));
}

#[test]
fn empty_table_trace_is_dense_and_padded_to_four() {
    let queries = QueryRecord::new();
    let chip = MemChip { len: 2 };
    let trace = chip.generate_trace(&queries);
    assert_eq!(trace.width, 4);
    assert_eq!(trace.values.len(), 16);
    for i in 0..4usize {
        assert_eq!(trace.values[i * 4].as_u32(), (i + 1) as u32);
        for j in 1..4usize {
            assert_eq!(trace.values[i * 4 + j].as_u32(), 0);
        }
    }
    assert!(chip.eval(&trace));
}

#[test]
fn address_column_is_dense_for_every_run() {
    let queries = &mut QueryRecord::new();
    for x in 0..5u32 {
        queries.store(tuple(&[x, x + 1]));
    }
    let chip = MemChip { len: 2 };
    let trace = chip.generate_trace(queries);
    // 5 entries pad to height 8
    assert_eq!(trace.values.len() / trace.width, 8);
    for i in 0..8usize {
        assert_eq!(trace.values[i * trace.width].as_u32(), (i + 1) as u32);
    }
}

#[test]
fn sequential_and_parallel_traces_are_identical() {
    let queries = &mut QueryRecord::new();
    for x in 0..9u32 {
        queries.store(tuple(&[x, 2 * x, x + 5]));
    }
    queries.load(3, 4).unwrap();
    queries.load(3, 4).unwrap();
    let chip = MemChip { len: 3 };
    let seq_trace = chip.generate_trace(queries);
    let par_trace = chip.generate_trace_parallel(queries);
    assert_eq!(seq_trace.width, par_trace.width);
    assert_eq!(seq_trace.values, par_trace.values);
}

#[test]
fn air_ignores_padding_mutations_but_not_address_ones() {
    let queries = &mut QueryRecord::new();
    queries.store(tuple(&[1, 2, 3]));
    queries.store(tuple(&[1, 1, 1]));
    queries.load(3, 1).unwrap();
    let chip = MemChip { len: 3 };
    let trace = chip.generate_trace(queries);
    assert!(chip.eval(&trace));

    // mutating any non-address cell of a padding row is not rejected by the
    // air alone: padding rows are unconstrained by design
    let width = trace.width;
    for row in 2..4usize {
        for col in 1..width {
            let mut tampered = trace.clone();
            tampered.values[row * width + col] = f(99);
            assert!(chip.eval(&tampered));
        }
    }

    // the address column, in contrast, is pinned down
    for row in 0..4usize {
        let mut tampered = trace.clone();
        tampered.values[row * width] = f(77);
        assert!(!chip.eval(&tampered));
    }
}
