use hephaistos::gguf::{align_up, write_string, write_value, GgufWriter, Kv};
use hephaistos::scalar::{Scalar, Single};
use rand::rngs::StdRng;
use rand::Rng;

#[derive(Clone, Copy, Debug, PartialEq)]
struct S(f32);

impl Scalar for S {
    fn zero() -> Self {
        S(0.0)
    }
    fn one() -> Self {
        S(1.0)
    }
    fn neg_infinity() -> Self {
        S(f32::NEG_INFINITY)
    }
    fn pi() -> Self {
        S(std::f32::consts::PI)
    }
    fn from_ratio(num: usize, den: usize) -> Self {
        S((num as f64 / den as f64) as f32)
    }
    fn plus(self, other: Self) -> Self {
        S(self.0 + other.0)
    }
    fn minus(self, other: Self) -> Self {
        S(self.0 - other.0)
    }
    fn times(self, other: Self) -> Self {
        S(self.0 * other.0)
    }
    fn divide(self, other: Self) -> Self {
        S(self.0 / other.0)
    }
    fn negate(self) -> Self {
        S(-self.0)
    }
    fn exp(self) -> Self {
        S(self.0.exp())
    }
    fn ln(self) -> Self {
        S(self.0.ln())
    }
    fn sqrt(self) -> Self {
        S(self.0.sqrt())
    }
    fn sin(self) -> Self {
        S(self.0.sin())
    }
    fn cos(self) -> Self {
        S(self.0.cos())
    }
    fn abs(self) -> Self {
        S(self.0.abs())
    }
    fn powf(self, exponent: Self) -> Self {
        S(self.0.powf(exponent.0))
    }
    fn powi(self, exponent: i32) -> Self {
        S(self.0.powi(exponent))
    }
    fn larger(self, other: Self) -> Self {
        S(self.0.max(other.0))
    }
    fn exceeds(self, other: Self) -> bool {
        self.0 > other.0
    }
    fn at_least(self, other: Self) -> bool {
        self.0 >= other.0
    }
    fn order_key(self) -> i64 {
        let bits = self.0.to_bits() as i32;
        (bits ^ ((((bits >> 31) as u32) >> 1) as i32)) as i64
    }
}

impl Single for S {
    type Wide = S;
    fn widen(self) -> S {
        self
    }
    fn to_bits(self) -> u32 {
        self.0.to_bits()
    }
    fn from_bits(bits: u32) -> Self {
        S(f32::from_bits(bits))
    }
    fn uniform(rng: &mut StdRng) -> Self {
        S(rng.gen::<f32>())
    }
}

fn u32_at(b: &[u8], at: usize) -> u32 {
    u32::from_le_bytes([b[at], b[at + 1], b[at + 2], b[at + 3]])
}

fn u64_at(b: &[u8], at: usize) -> u64 {
    u32_at(b, at) as u64 | (u32_at(b, at + 4) as u64) << 32
}

#[test]
fn align_up_gives_the_next_multiple() {
    assert_eq!(align_up(0, 32), 0);
    assert_eq!(align_up(1, 32), 32);
    assert_eq!(align_up(32, 32), 32);
    assert_eq!(align_up(33, 32), 64);
    assert_eq!(align_up(7, 1), 7);
    assert_eq!(align_up(usize::MAX - 31, 32), usize::MAX - 31);
}

#[test]
fn strings_carry_their_byte_length() {
    let mut buf = vec![1u8];
    write_string(&mut buf, "aé");
    assert_eq!(buf, vec![1, 3, 0, 0, 0, 0, 0, 0, 0, 0x61, 0xc3, 0xa9]);
}

#[test]
fn values_carry_their_tag() {
    let bytes = |v: Kv| {
        let mut buf = Vec::new();
        write_value(&mut buf, &v);
        buf
    };
    assert_eq!(bytes(Kv::U32(7)), vec![4, 0, 0, 0, 7, 0, 0, 0]);
    assert_eq!(bytes(Kv::F32(1.5f32.to_bits())), vec![6, 0, 0, 0, 0, 0, 0xc0, 0x3f]);
    assert_eq!(bytes(Kv::Bool(true)), vec![7, 0, 0, 0, 1]);
    assert_eq!(bytes(Kv::Bool(false)), vec![7, 0, 0, 0, 0]);
    assert_eq!(
        bytes(Kv::Str(String::from("x"))),
        vec![8, 0, 0, 0, 1, 0, 0, 0, 0, 0, 0, 0, b'x']
    );
    assert_eq!(
        bytes(Kv::ArrStr(vec![String::from("x"), String::new()])),
        vec![
            9, 0, 0, 0, 8, 0, 0, 0, 2, 0, 0, 0, 0, 0, 0, 0, 1, 0, 0, 0, 0, 0, 0, 0, b'x', 0, 0, 0,
            0, 0, 0, 0, 0,
        ]
    );
    assert_eq!(
        bytes(Kv::ArrI32(vec![1, -2])),
        vec![
            9, 0, 0, 0, 5, 0, 0, 0, 2, 0, 0, 0, 0, 0, 0, 0, 1, 0, 0, 0, 0xfe, 0xff, 0xff, 0xff,
        ]
    );
}

#[test]
fn an_empty_file_is_a_padded_header() {
    let file = GgufWriter::new().write();
    assert_eq!(file.len(), 32);
    assert_eq!(&file[..4], b"GGUF");
    assert_eq!(u32_at(&file, 4), 3);
    assert!(file[8..].iter().all(|&b| b == 0));
}

#[test]
fn tensors_are_found_at_aligned_offsets() {
    let mut w = GgufWriter::new();
    w.kv_u32("a.b", 5);
    w.kv_f32("c", S(-2.0));
    w.add_tensor("t0", vec![3], &[S(1.0), S(2.0), S(3.0)]);
    w.add_tensor("t1", vec![4, 2], &[S(0.5); 8]);
    w.add_tensor("t2", vec![0], &[] as &[S]);
    w.add_tensor("t3", vec![1], &[S(-1.0)]);
    let file = w.write();
    assert_eq!(u64_at(&file, 8), 4);
    assert_eq!(u64_at(&file, 16), 2);
    // Two pairs: (8 + 3) + 8 bytes and (8 + 1) + 8 bytes.
    assert_eq!(u32_at(&file, 24 + 11), 4);
    assert_eq!(u32_at(&file, 24 + 15), 5);
    assert_eq!(u32_at(&file, 24 + 19 + 13), (-2.0f32).to_bits());
    let mut at = 24 + 19 + 17;
    let mut offsets = Vec::new();
    for (name, dims) in [("t0", 1), ("t1", 2), ("t2", 1), ("t3", 1)] {
        assert_eq!(u64_at(&file, at), 2);
        assert_eq!(&file[at + 8..at + 10], name.as_bytes());
        assert_eq!(u32_at(&file, at + 10) as usize, dims);
        at += 14 + 8 * dims;
        assert_eq!(u32_at(&file, at), 0);
        offsets.push(u64_at(&file, at + 4) as usize);
        at += 12;
    }
    assert_eq!(offsets, vec![0, 32, 64, 64]);
    let start = align_up(at, 32);
    assert!(file[at..start].iter().all(|&b| b == 0));
    let value = |k: usize| f32::from_bits(u32_at(&file, start + k));
    assert_eq!((value(0), value(4), value(8)), (1.0, 2.0, 3.0));
    assert!((0..8).all(|k| value(32 + 4 * k) == 0.5));
    assert_eq!(value(64), -1.0);
    assert_eq!(file.len(), start + 68);
    assert!(file[start + 12..start + 32].iter().all(|&b| b == 0));
}
