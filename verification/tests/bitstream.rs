use atracdenc_core::bitstream::encode::{
    BitAllocHandler, BitStreamEncodeError, BitStreamEncoder, BitStreamPartEncoder, EncodeStatus,
};
use atracdenc_core::bitstream::{make_sign, BitStream};

#[test]
fn default_constructor() {
    let bs = BitStream::new();
    assert_eq!(0, bs.size_in_bits());
    assert_eq!(0, BitStream::default().buf_size());
}

#[test]
fn simple_write_read() {
    let mut bs = BitStream::new();
    bs.write(5, 3);
    bs.write(1, 1);
    assert_eq!(4, bs.size_in_bits());
    assert_eq!(5, bs.read(3));
    assert_eq!(1, bs.read(1));
}

#[test]
fn overlap_write_read() {
    let mut bs = BitStream::new();
    bs.write(101, 22);
    assert_eq!(22, bs.size_in_bits());

    bs.write(212, 22);
    assert_eq!(44, bs.size_in_bits());

    bs.write(323, 22);
    assert_eq!(66, bs.size_in_bits());

    assert_eq!(101, bs.read(22));
    assert_eq!(212, bs.read(22));
    assert_eq!(323, bs.read(22));
}

#[test]
fn overlap_write_read_2() {
    let mut bs = BitStream::new();
    bs.write(2, 2);
    bs.write(7, 4);
    bs.write(10003, 16);

    assert_eq!(2, bs.read(2));
    assert_eq!(7, bs.read(4));
    assert_eq!(10003, bs.read(16));
}

#[test]
fn overlap_write_read_3() {
    let mut bs = BitStream::new();
    let values = [
        (40, 6),
        (3, 2),
        (0, 3),
        (0, 3),
        (0, 3),
        (0, 3),
        (3, 5),
        (1, 2),
        (1, 1),
        (1, 1),
        (1, 1),
        (1, 1),
        (0, 3),
        (4, 3),
        (35, 6),
        (25, 6),
        (3, 3),
        (32, 6),
        (29, 6),
        (3, 3),
        (36, 6),
        (49, 6),
    ];

    for (val, bits) in values {
        bs.write(val, bits);
    }

    for (val, bits) in values {
        assert_eq!(val, bs.read(bits));
    }
}

#[test]
fn sign_write_read() {
    let mut bs = BitStream::new();
    bs.write(make_sign(-2, 3) as u32, 3);
    bs.write(make_sign(-1, 3) as u32, 3);
    bs.write(make_sign(1, 2) as u32, 2);
    bs.write(make_sign(-7, 4) as u32, 4);

    assert_eq!(-2, make_sign(bs.read(3) as i32, 3));
    assert_eq!(-1, make_sign(bs.read(3) as i32, 3));
    assert_eq!(1, make_sign(bs.read(2) as i32, 2));
    assert_eq!(-7, make_sign(bs.read(4) as i32, 4));
}

#[test]
fn fixed_seed_round_trip_property() {
    let mut state = 0x1234_5678_u32;
    let mut seq = Vec::new();
    let mut bs = BitStream::new();

    for _ in 0..300 {
        state = state.wrapping_mul(1_664_525).wrapping_add(1_013_904_223);
        let n = (state as usize % 23) + 1;
        state = state.wrapping_mul(1_664_525).wrapping_add(1_013_904_223);
        let mask = (1_u32 << n) - 1;
        let val = state & mask;
        seq.push((val, n));
        bs.write(val, n);
    }

    for (val, n) in seq {
        assert_eq!(val, bs.read(n));
    }
}

#[test]
fn bytes_are_filled_up_with_zeros_and_read_back() {
    let mut bs = BitStream::new();
    bs.write(0b101, 3);
    bs.write(0xff, 8);
    assert_eq!(11, bs.size_in_bits());
    assert_eq!(2, bs.buf_size());
    assert_eq!(&[0b1011_1111, 0b1110_0000], bs.bytes());

    let mut again = BitStream::from_bytes(bs.bytes());
    assert_eq!(16, again.size_in_bits());
    assert_eq!(0b101, again.read(3));
    assert_eq!(0xff, again.read(8));
    assert_eq!(0, again.read(5));
}

#[test]
fn only_the_low_bits_of_a_value_are_written() {
    let mut bs = BitStream::new();
    bs.write(0xffff_fff5, 4);
    bs.write(7, 0);
    assert_eq!(4, bs.size_in_bits());
    assert_eq!(&[0x50], bs.bytes());
}

#[test]
fn sign_is_restored_once() {
    for (val, bits, want) in [(7, 3, -1), (3, 3, 3), (4, 3, -4), (-1, 32, -1), (0x8000, 16, -32768)]
    {
        let r = make_sign(val, bits);
        assert_eq!(want, r);
        assert_eq!(want, make_sign(r, bits));
    }
}

#[test]
fn search_moves_towards_the_budget() {
    let mut ba = BitAllocHandler::new(0_i32);
    ba.start(100, -15, -1);
    assert_eq!(-8, ba.cont(false, -8));
    assert!(ba.check(99));
    assert!(!ba.check(100));
    assert!(!ba.submit(99, false, -9, -7));
    assert_eq!((-9, -8), (ba.max_lambda, ba.last_lambda));
    assert!(!ba.submit(101, false, -9, -7));
    assert_eq!(-7, ba.min_lambda);
    assert!(ba.submit(100, false, -9, -7));
    assert!(ba.submit(5, true, 0, 0));
    assert_eq!(-8, ba.cont(true, 3));
    assert_eq!(0, ba.cur_global_consumption());
}

#[test]
fn encode_errors_tell_their_numbers() {
    let e = BitStreamEncodeError::TonalBandsExceedQuantUnits {
        tone_bands: 16,
        quant_units: 7,
    };
    assert_eq!("tonal bands (16) exceed quant units (7)", e.message());
}

fn some_bit_fn_1(lambda: f32) -> usize {
    ((-lambda).sqrt() * 300.0) as usize
}

fn some_bit_fn_2(lambda: f32) -> usize {
    1 + (some_bit_fn_1(lambda) & !7_usize)
}

struct Frame;

enum Part {
    Start { exp_calls: usize, enc_calls: usize },
    Search { exp_calls: usize, enc_calls: usize, bits: usize, f: fn(f32) -> usize },
    Count { exp_calls: usize, enc_calls: usize },
    RepeatOnce { enc_calls: usize },
}

fn cont(ba: &mut BitAllocHandler<f32>) -> f32 {
    let exhausted = ba.max_lambda <= ba.min_lambda;
    let mid = (ba.max_lambda + ba.min_lambda) / 2.0;
    ba.cont(exhausted, mid)
}

fn submit(ba: &mut BitAllocHandler<f32>, bits: usize) {
    let exhausted = ba.max_lambda <= ba.min_lambda;
    let (below, above) = (ba.cur_lambda - 0.01, ba.cur_lambda + 0.01);
    ba.submit(bits, exhausted, below, above);
}

impl BitStreamPartEncoder<Frame, f32> for Part {
    type Model = ();
    type FrameModel = ();

    fn encode(
        &mut self,
        _frame: &mut Frame,
        ba: &mut BitAllocHandler<f32>,
    ) -> Result<EncodeStatus, BitStreamEncodeError> {
        match self {
            Part::Start { enc_calls, .. } => {
                *enc_calls += 1;
                ba.start(1000, -15.0, -1.0);
            }
            Part::Search { enc_calls, bits, f, .. } => {
                *enc_calls += 1;
                let lambda = cont(ba);
                *bits = f(lambda);
                submit(ba, *bits);
            }
            Part::Count { enc_calls, .. } => *enc_calls += 1,
            Part::RepeatOnce { enc_calls } => {
                if *enc_calls == 0 {
                    *enc_calls += 1;
                    return Ok(EncodeStatus::Repeat);
                }
            }
        }
        Ok(EncodeStatus::Done)
    }

    fn dump(&mut self, bs: &mut BitStream) {
        match self {
            Part::Start { exp_calls, enc_calls } | Part::Count { exp_calls, enc_calls } => {
                assert_eq!(exp_calls, enc_calls);
            }
            Part::Search { exp_calls, enc_calls, bits, .. } => {
                assert_eq!(exp_calls, enc_calls);
                for _ in 0..*bits {
                    bs.write(1, 1);
                }
            }
            Part::RepeatOnce { enc_calls } => assert_eq!(1, *enc_calls),
        }
    }

    fn reset(&mut self) {}

    fn consumption(&self) -> u32 {
        match self {
            Part::Search { bits, .. } => *bits as u32,
            _ => 0,
        }
    }
}

fn start(exp_calls: usize) -> Part {
    Part::Start { exp_calls, enc_calls: 0 }
}

fn search(exp_calls: usize, f: fn(f32) -> usize) -> Part {
    Part::Search { exp_calls, enc_calls: 0, bits: 0, f }
}

fn count(exp_calls: usize) -> Part {
    Part::Count { exp_calls, enc_calls: 0 }
}

#[test]
fn simple_alloc() {
    let mut frame = Frame;
    let mut bs = BitStream::new();
    let mut encoder = BitStreamEncoder::new(vec![start(1), search(8, some_bit_fn_1), count(1)]);

    encoder.run(&mut frame, &mut bs, 0.0_f32).unwrap();

    assert_eq!(1000, bs.size_in_bits());
}

#[test]
fn alloc_with_repeat() {
    let mut frame = Frame;
    let mut bs = BitStream::new();
    let mut encoder = BitStreamEncoder::new(vec![
        start(2),
        search(16, some_bit_fn_1),
        count(2),
        Part::RepeatOnce { enc_calls: 0 },
    ]);

    encoder.run(&mut frame, &mut bs, 0.0_f32).unwrap();

    assert_eq!(1000, bs.size_in_bits());
}

#[test]
fn not_exact_alloc() {
    let mut frame = Frame;
    let mut bs = BitStream::new();
    let mut encoder = BitStreamEncoder::new(vec![start(1), search(11, some_bit_fn_2), count(1)]);

    encoder.run(&mut frame, &mut bs, 0.0_f32).unwrap();

    assert_eq!(993, bs.size_in_bits());
}
