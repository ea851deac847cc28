use lair_core::field::Fp;
use lair_core::record::{QueryRecord, Record, RequireRecord};
use lair_core::u64_chip::U64;

fn f(x: u32) -> Fp {
    Fp::from_u32(x)
}

fn word_fps(x: u64) -> Vec<Fp> {
    (0..8).map(|k| f(((x >> (8 * k)) & 0xff) as u32)).collect()
}

fn pair_input(a: u64, b: u64) -> Vec<Fp> {
    let mut v = word_fps(a);
    v.extend(word_fps(b));
    v
}

fn run(op: U64, a: u64, b: u64) -> Vec<Fp> {
    let mut queries = QueryRecord::new();
    let mut reqs: Vec<Record> = Vec::new();
    op.execute(&pair_input(a, b), 0, &mut queries, &mut reqs)
}

fn vals(v: &[Fp]) -> Vec<u32> {
    v.iter().map(|x| x.as_u32()).collect()
}

#[test]
fn u64_add_test() {
    // little endian: add(200, 56) == 256
    let args = pair_input(200, 56);
    let mut queries = QueryRecord::new();
    let mut reqs: Vec<Record> = Vec::new();
    let out = U64::Add.execute(&args, 0, &mut queries, &mut reqs);
    assert_eq!(out, vec![f(0), f(1), f(0), f(0), f(0), f(0), f(0), f(0)]);
}

#[test]
fn u64_sub_test() {
    // little endian: sub(256, 1) == 255
    let args = pair_input(256, 1);
    let mut queries = QueryRecord::new();
    let mut reqs: Vec<Record> = Vec::new();
    let out = U64::Sub.execute(&args, 0, &mut queries, &mut reqs);
    assert_eq!(out, vec![f(255), f(0), f(0), f(0), f(0), f(0), f(0), f(0)]);
}

#[test]
fn u64_mul_test() {
    // square 2*2 four more times: ((((2*2)^2)^2)^2)^2 == 2^32
    let mut queries = QueryRecord::new();
    let mut reqs: Vec<Record> = Vec::new();
    let c = U64::Mul.execute(&pair_input(2, 2), 0, &mut queries, &mut reqs);
    let mut cc = c.clone();
    cc.extend(c);
    let d = U64::Mul.execute(&cc, 1, &mut queries, &mut reqs);
    let mut dd = d.clone();
    dd.extend(d);
    let e = U64::Mul.execute(&dd, 2, &mut queries, &mut reqs);
    let mut ee = e.clone();
    ee.extend(e);
    let g = U64::Mul.execute(&ee, 3, &mut queries, &mut reqs);
    let mut gg = g.clone();
    gg.extend(g);
    let out = U64::Mul.execute(&gg, 4, &mut queries, &mut reqs);
    assert_eq!(out, vec![f(0), f(0), f(0), f(0), f(1), f(0), f(0), f(0)]);
}

#[test]
fn u64_divrem_test() {
    // 65536 = 7 * 9362 + 2, and 9362 = 146 + 36 * 256 in little endian
    let out = run(U64::DivRem, 65536, 7);
    assert_eq!(out.len(), 16);
    assert_eq!(
        vals(&out),
        vec![146, 36, 0, 0, 0, 0, 0, 0, 2, 0, 0, 0, 0, 0, 0, 0]
    );
}

#[test]
fn u64_lessthan_test() {
    let a = 200 + (200 << 8) + (200 << 16);
    let b = 10u64 << 40;
    let out = run(U64::LessThan, a, b);
    assert_eq!(out, vec![f(1)]);
}

#[test]
fn arithmetic_wraps_modulo_two_to_the_64() {
    assert_eq!(vals(&run(U64::Add, u64::MAX, 1)), vec![0; 8]);
    assert_eq!(vals(&run(U64::Sub, 0, 1)), vec![255; 8]);
    assert_eq!(vals(&run(U64::Mul, 1 << 63, 2)), vec![0; 8]);
    let out = run(U64::Mul, u64::MAX, u64::MAX);
    // low 64 bits of (2^64 - 1)^2 = 2^128 - 2^65 + 1
    assert_eq!(vals(&out), vals(&word_fps((u64::MAX).wrapping_mul(u64::MAX))));
}

#[test]
fn divrem_by_zero_uses_the_documented_convention() {
    let out = run(U64::DivRem, 1234, 0);
    let mut expected = vec![255u32; 8];
    expected.extend(vals(&word_fps(1234)));
    assert_eq!(vals(&out), expected);
}

#[test]
fn lessthan_matches_unsigned_ordering() {
    assert_eq!(vals(&run(U64::LessThan, 5, 5)), vec![0]);
    assert_eq!(vals(&run(U64::LessThan, 6, 5)), vec![0]);
    assert_eq!(vals(&run(U64::LessThan, 5, 6)), vec![1]);
    assert_eq!(vals(&run(U64::LessThan, u64::MAX, 0)), vec![0]);
    assert_eq!(vals(&run(U64::LessThan, 0, u64::MAX)), vec![1]);
}

#[test]
fn execute_emits_one_require_per_checked_byte() {
    for op in [U64::Add, U64::Sub, U64::Mul, U64::DivRem, U64::LessThan] {
        let mut queries = QueryRecord::new();
        let mut reqs: Vec<Record> = Vec::new();
        op.execute(&pair_input(65536, 7), 3, &mut queries, &mut reqs);
        assert_eq!(reqs.len(), op.require_size());
        let total: u64 = queries.bytes.iter().map(|&m| m as u64).sum();
        assert_eq!(total as usize, op.require_size());
        for r in &reqs {
            assert_eq!(r.nonce, 3);
            assert!(r.index < 256);
        }
        // a chipset call touches nothing but the byte table and the requires
        assert_eq!(queries.mem.len(), 0);
        assert_eq!(queries.calls.len(), 0);
    }
}

#[test]
fn dispatcher_records_invocations() {
    let op = U64::Add;
    let input = pair_input(200, 56);
    let mut queries = QueryRecord::new();
    let mut reqs: Vec<Record> = Vec::new();
    let out = op.execute(&input, 0, &mut queries, &mut reqs);
    assert_eq!(queries.calls.len(), 0);
    queries.record_call(op, input.clone(), out.clone());
    assert_eq!(queries.calls.len(), 1);
    assert_eq!(queries.calls[0].op, op);
    assert_eq!(queries.calls[0].input, input);
    assert_eq!(queries.calls[0].output, out);
}

#[test]
fn populate_witness_matches_execute_outputs() {
    for op in [U64::Add, U64::Sub, U64::Mul, U64::DivRem, U64::LessThan] {
        let input = pair_input(0xfedc_ba98_7654_3210, 0x0f0f_0f0f_1234_5678);
        let mut queries = QueryRecord::new();
        let mut reqs: Vec<Record> = Vec::new();
        let executed = op.execute(&input, 0, &mut queries, &mut reqs);
        let mut witness = vec![Fp::zero(); op.witness_size()];
        let populated = op.populate_witness(&input, &mut witness);
        assert_eq!(executed, populated);
        assert_eq!(witness.len(), op.witness_size());
    }
}

#[test]
fn eval_accepts_the_honest_witness_and_rejects_tampering() {
    for op in [U64::Add, U64::Sub, U64::Mul, U64::DivRem, U64::LessThan] {
        let input = pair_input(65536, 7);
        let mut queries = QueryRecord::new();
        let mut reqs: Vec<Record> = Vec::new();
        let executed = op.execute(&input, 5, &mut queries, &mut reqs);
        let mut witness = vec![Fp::zero(); op.witness_size()];
        op.populate_witness(&input, &mut witness);
        let rr: Vec<RequireRecord> = reqs
            .iter()
            .map(|r| RequireRecord {
                index: f(r.index),
                nonce: f(r.nonce),
                count: f(r.count),
            })
            .collect();
        let (outs, ok) = op.eval(true, &input, &witness, f(5), &rr);
        assert!(ok);
        match op {
            U64::LessThan => assert_eq!(vals(&outs), vec![0]),
            _ => assert_eq!(outs, executed[..outs.len()].to_vec()),
        }

        // padding rows impose no constraint
        let zeroed = vec![Fp::zero(); op.witness_size()];
        let (_, ok_padding) = op.eval(false, &input, &zeroed, f(5), &rr);
        assert!(ok_padding);

        // a tampered witness cell fails the constraints on a real row
        let mut tampered = witness.clone();
        tampered[0] = tampered[0].add(f(1));
        let (_, ok_tampered) = op.eval(true, &input, &tampered, f(5), &rr);
        assert!(!ok_tampered);

        // a require citing the wrong nonce fails the lookup match
        let mut wrong_nonce = rr.clone();
        wrong_nonce[0].nonce = f(6);
        let (_, ok_nonce) = op.eval(true, &input, &witness, f(5), &wrong_nonce);
        assert!(!ok_nonce);
    }
}

#[test]
fn eval_checks_divrem_divide_by_zero_convention() {
    let op = U64::DivRem;
    let input = pair_input(1234, 0);
    let mut queries = QueryRecord::new();
    let mut reqs: Vec<Record> = Vec::new();
    op.execute(&input, 0, &mut queries, &mut reqs);
    let mut witness = vec![Fp::zero(); op.witness_size()];
    op.populate_witness(&input, &mut witness);
    let rr: Vec<RequireRecord> = reqs
        .iter()
        .map(|r| RequireRecord {
            index: f(r.index),
            nonce: f(r.nonce),
            count: f(r.count),
        })
        .collect();
    let (outs, ok) = op.eval(true, &input, &witness, f(0), &rr);
    assert!(ok);
    let mut expected = vec![255u32; 8];
    expected.extend(vals(&word_fps(1234)));
    assert_eq!(vals(&outs), expected);
}

#[test]
fn size_metadata_is_fixed_per_variant() {
    for op in [U64::Add, U64::Sub, U64::Mul, U64::DivRem, U64::LessThan] {
        assert_eq!(op.input_size(), 16);
    }
    assert_eq!(U64::Add.output_size(), 8);
    assert_eq!(U64::DivRem.output_size(), 16);
    assert_eq!(U64::LessThan.output_size(), 1);
    assert_eq!(U64::Add.witness_size(), 16);
    assert_eq!(U64::Mul.witness_size(), 24);
    assert_eq!(U64::DivRem.witness_size(), 64);
    assert_eq!(U64::Add.require_size(), 8);
    assert_eq!(U64::Mul.require_size(), 24);
    assert_eq!(U64::DivRem.require_size(), 48);
}
