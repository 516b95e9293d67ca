//! Typed integer semantics: two's-complement values of 8, 16 and 32 bits held
//! as bit patterns, and the operations of the machine on them.

use vstd::prelude::*;
use vstd::arithmetic::div_mod::{
    lemma_add_mod_noop, lemma_fundamental_div_mod, lemma_fundamental_div_mod_converse,
    lemma_mod_add_multiples_vanish, lemma_mod_multiples_vanish, lemma_mul_mod_noop_general,
    lemma_mul_mod_noop_left, lemma_small_mod, lemma_sub_mod_noop,
};
use vstd::arithmetic::power2::{pow2, lemma_pow2_unfold, lemma2_to64};
use crate::instruction::{BinOp, Condition, Type};
use crate::types::CeriumError;

verus! {

/// How many bit patterns a value of `width` bytes has.
pub open spec fn modulus(width: nat) -> int {
    if width == 1 {
        0x100
    } else if width == 2 {
        0x1_0000
    } else {
        0x1_0000_0000
    }
}

/// The two's-complement value of a bit pattern.
pub open spec fn signed(bits: u32, width: nat) -> int {
    if bits >= modulus(width) / 2 {
        bits - modulus(width)
    } else {
        bits as int
    }
}

/// The bit pattern of `x` reduced to `width` bytes (wrapping).
pub open spec fn bits_of(x: int, width: nat) -> u32 {
    (x % modulus(width)) as u32
}

pub open spec fn abs(x: int) -> int {
    if x < 0 {
        -x
    } else {
        x
    }
}

/// Division that truncates toward zero.
pub open spec fn tdiv(x: int, y: int) -> int {
    if (x < 0) != (y < 0) {
        -(abs(x) / abs(y))
    } else {
        abs(x) / abs(y)
    }
}

/// The remainder of truncating division; it takes the sign of `x`.
pub open spec fn trem(x: int, y: int) -> int {
    if x < 0 {
        -(abs(x) % abs(y))
    } else {
        abs(x) % abs(y)
    }
}

/// The machine's modulo: `((x rem m) + m) rem m`.
pub open spec fn modulo(x: int, m: int) -> int {
    trem(trem(x, m) + m, m)
}

/// A shift count: the second operand reduced modulo the bit width.
pub open spec fn shift_count(y: int, width: nat) -> nat {
    (y % (8 * width as int)) as nat
}

/// The result of a ternary integer operation on the bit patterns `a` and `b`.
pub open spec fn int_binop(op: BinOp, width: nat, a: u32, b: u32) -> Result<u32, CeriumError> {
    let x = signed(a, width);
    let y = signed(b, width);
    match op {
        BinOp::XOR => Ok(a ^ b),
        BinOp::OR => Ok(a | b),
        BinOp::AND => Ok(a & b),
        BinOp::SHL => Ok(bits_of(x * pow2(shift_count(y, width)), width)),
        BinOp::SHR => Ok(bits_of(x / pow2(shift_count(y, width)) as int, width)),
        BinOp::MUL => Ok(bits_of(x * y, width)),
        BinOp::ADD => Ok(bits_of(x + y, width)),
        BinOp::SUB => Ok(bits_of(x - y, width)),
        BinOp::DIV => if y == 0 {
            Err(CeriumError::DivisionByZero)
        } else {
            Ok(bits_of(tdiv(x, y), width))
        },
        BinOp::MOD => if y == 0 {
            Err(CeriumError::DivisionByZero)
        } else {
            Ok(bits_of(modulo(x, y), width))
        },
    }
}

pub open spec fn int_width(width: nat) -> bool {
    width == 1 || width == 2 || width == 4
}

fn modulus_of(width: u32) -> (r: u64)
    requires
        int_width(width as nat),
    ensures
        r == modulus(width as nat),
{
    if width == 1 {
        0x100
    } else if width == 2 {
        0x1_0000
    } else {
        0x1_0000_0000
    }
}

proof fn lemma_signed_mod(bits: u32, width: nat)
    requires
        int_width(width),
        bits < modulus(width),
    ensures
        signed(bits, width) % modulus(width) == bits,
        -modulus(width) / 2 <= signed(bits, width) < modulus(width) / 2,
        signed(bits, width) == 0 <==> bits == 0,
{
    let m = modulus(width);
    if bits >= m / 2 {
        lemma_fundamental_div_mod_converse(bits - m, m, -1, bits as int);
    } else {
        lemma_small_mod(bits as nat, m as nat);
    }
}

/// The two's-complement value of a bit pattern of `width` bytes.
pub fn to_signed(bits: u32, width: u32) -> (r: i64)
    requires
        int_width(width as nat),
        bits < modulus(width as nat),
    ensures
        r == signed(bits, width as nat),
{
    let m = modulus_of(width);
    if bits as u64 >= m / 2 {
        bits as i64 - m as i64
    } else {
        bits as i64
    }
}

/// The bit pattern of a value within one modulus of zero.
pub fn wrap(x: i64, width: u32) -> (r: u32)
    requires
        int_width(width as nat),
        -modulus(width as nat) <= x < modulus(width as nat),
    ensures
        r == bits_of(x as int, width as nat),
{
    let m = modulus_of(width);
    proof {
        if x < 0 {
            lemma_fundamental_div_mod_converse(x as int, m as int, -1, x + m);
        } else {
            lemma_small_mod(x as nat, m as nat);
        }
    }
    if x < 0 {
        (x + m as i64) as u32
    } else {
        x as u32
    }
}

fn pow2_u64(s: u32) -> (r: u64)
    requires
        s < 32,
    ensures
        r == pow2(s as nat),
        1 <= r <= 0x8000_0000,
{
    let mut r: u64 = 1;
    let mut i: u32 = 0;
    proof {
        lemma2_to64();
    }
    while i < s
        invariant
            i <= s < 32,
            r == pow2(i as nat),
            r >= 1,
            pow2(31) == 0x8000_0000,
            forall|j: nat| j <= 31 ==> #[trigger] pow2(j) <= 0x8000_0000,
        decreases s - i,
    {
        proof {
            lemma_pow2_unfold((i + 1) as nat);
        }
        r = r * 2;
        i = i + 1;
    }
    r
}

proof fn lemma_pow2_le(i: nat, j: nat)
    requires
        i <= j,
    ensures
        pow2(i) <= pow2(j),
    decreases j - i,
{
    if i < j {
        lemma_pow2_le(i, (j - 1) as nat);
        lemma_pow2_unfold(j);
    }
}

proof fn lemma_floor_div_neg(x: int, p: int)
    requires
        x < 0,
        p > 0,
    ensures
        x / p == -((-x + p - 1) / p),
{
    let n = -x;
    let q = (n + p - 1) / p;
    let r = (n + p - 1) % p;
    lemma_fundamental_div_mod(n + p - 1, p);
    assert(x == (-q) * p + (p - 1 - r)) by (nonlinear_arith)
        requires
            n + p - 1 == p * q + r,
            x == -n,
    ;
    lemma_fundamental_div_mod_converse(x, p, -q, p - 1 - r);
}

fn add_bits(width: u32, a: u32, b: u32) -> (r: u32)
    requires
        int_width(width as nat),
        a < modulus(width as nat),
        b < modulus(width as nat),
    ensures
        r == bits_of(signed(a, width as nat) + signed(b, width as nat), width as nat),
{
    let m = modulus_of(width);
    proof {
        lemma_signed_mod(a, width as nat);
        lemma_signed_mod(b, width as nat);
        lemma_add_mod_noop(signed(a, width as nat), signed(b, width as nat), m as int);
    }
    ((a as u64 + b as u64) % m) as u32
}

fn sub_bits(width: u32, a: u32, b: u32) -> (r: u32)
    requires
        int_width(width as nat),
        a < modulus(width as nat),
        b < modulus(width as nat),
    ensures
        r == bits_of(signed(a, width as nat) - signed(b, width as nat), width as nat),
{
    let m = modulus_of(width);
    proof {
        lemma_signed_mod(a, width as nat);
        lemma_signed_mod(b, width as nat);
        lemma_sub_mod_noop(signed(a, width as nat), signed(b, width as nat), m as int);
        lemma_mod_add_multiples_vanish(a - b, m as int);
    }
    ((a as u64 + m - b as u64) % m) as u32
}

fn mul_bits(width: u32, a: u32, b: u32) -> (r: u32)
    requires
        int_width(width as nat),
        a < modulus(width as nat),
        b < modulus(width as nat),
    ensures
        r == bits_of(signed(a, width as nat) * signed(b, width as nat), width as nat),
{
    let m = modulus_of(width);
    proof {
        lemma_signed_mod(a, width as nat);
        lemma_signed_mod(b, width as nat);
        lemma_mul_mod_noop_general(signed(a, width as nat), signed(b, width as nat), m as int);
        assert(a as u64 * b as u64 <= 0xFFFF_FFFF * 0xFFFF_FFFF) by (nonlinear_arith)
            requires
                a <= 0xFFFF_FFFFu32,
                b <= 0xFFFF_FFFFu32,
        ;
    }
    ((a as u64 * b as u64) % m) as u32
}

fn shift_count_exec(width: u32, b: u32) -> (r: u32)
    requires
        int_width(width as nat),
        b < modulus(width as nat),
    ensures
        r == shift_count(signed(b, width as nat), width as nat),
        r < 32,
{
    let k = 8 * width;
    let ghost mi = modulus(width as nat);
    let ghost d: int = if width == 1 {
        32
    } else if width == 2 {
        4096
    } else {
        0x800_0000
    };
    proof {
        assert(mi == k * d) by {
            if width == 1 {
                assert(mi == 8 * 32);
            } else if width == 2 {
                assert(mi == 16 * 4096);
            } else {
                assert(mi == 32 * 0x800_0000);
            }
        }
        if b >= mi / 2 {
            lemma_mod_multiples_vanish(-d, b as int, k as int);
            assert(k * (-d) == -(k * d)) by (nonlinear_arith);
        }
    }
    b % k
}

fn shl_bits(width: u32, a: u32, b: u32) -> (r: u32)
    requires
        int_width(width as nat),
        a < modulus(width as nat),
        b < modulus(width as nat),
    ensures
        r == bits_of(signed(a, width as nat) * pow2(shift_count(signed(b, width as nat), width as nat)), width as nat),
{
    let m = modulus_of(width);
    let s = shift_count_exec(width, b);
    let p = pow2_u64(s);
    proof {
        lemma_signed_mod(a, width as nat);
        lemma_mul_mod_noop_left(signed(a, width as nat), p as int, m as int);
        assert(a as u64 * p <= 0xFFFF_FFFF * 0x8000_0000) by (nonlinear_arith)
            requires
                a <= 0xFFFF_FFFFu32,
                p <= 0x8000_0000,
        ;
    }
    ((a as u64 * p) % m) as u32
}

fn shr_bits(width: u32, a: u32, b: u32) -> (r: u32)
    requires
        int_width(width as nat),
        a < modulus(width as nat),
        b < modulus(width as nat),
    ensures
        r == bits_of(signed(a, width as nat) / pow2(shift_count(signed(b, width as nat), width as nat)) as int, width as nat),
{
    let s = shift_count_exec(width, b);
    let p = pow2_u64(s);
    proof {
        lemma_signed_mod(a, width as nat);
    }
    let x = to_signed(a, width);
    let q: i64 = if x >= 0 {
        proof {
            assert((x as int) / (p as int) <= x) by (nonlinear_arith)
                requires
                    x >= 0,
                    p >= 1,
            ;
            assert((x as int) / (p as int) >= 0) by (nonlinear_arith)
                requires
                    x >= 0,
                    p >= 1,
            ;
        }
        ((x as u64) / p) as i64
    } else {
        proof {
            lemma_floor_div_neg(x as int, p as int);
            let n = -x;
            assert((n + p - 1) / (p as int) <= n) by (nonlinear_arith)
                requires
                    n >= 1,
                    p >= 1,
            ;
            assert((n + p - 1) / (p as int) >= 0) by (nonlinear_arith)
                requires
                    n >= 1,
                    p >= 1,
            ;
        }
        let c = ((((-x) as u64) + p - 1) / p) as i64;
        -c
    };
    wrap(q, width)
}

fn div_bits(width: u32, a: u32, b: u32) -> (r: u32)
    requires
        int_width(width as nat),
        a < modulus(width as nat),
        b < modulus(width as nat),
        b != 0,
    ensures
        r == bits_of(tdiv(signed(a, width as nat), signed(b, width as nat)), width as nat),
{
    proof {
        lemma_signed_mod(a, width as nat);
        lemma_signed_mod(b, width as nat);
    }
    let x = to_signed(a, width);
    let y = to_signed(b, width);
    let ax: u64 = if x < 0 { (-x) as u64 } else { x as u64 };
    let ay: u64 = if y < 0 { (-y) as u64 } else { y as u64 };
    let q = ax / ay;
    proof {
        assert(q <= ax) by (nonlinear_arith)
            requires
                q == ax / ay,
                ay >= 1,
        ;
    }
    let v: i64 = if (x < 0) != (y < 0) { -(q as i64) } else { q as i64 };
    wrap(v, width)
}

fn mod_bits(width: u32, a: u32, b: u32) -> (r: u32)
    requires
        int_width(width as nat),
        a < modulus(width as nat),
        b < modulus(width as nat),
        b != 0,
    ensures
        r == bits_of(modulo(signed(a, width as nat), signed(b, width as nat)), width as nat),
{
    proof {
        lemma_signed_mod(a, width as nat);
        lemma_signed_mod(b, width as nat);
    }
    let x = to_signed(a, width);
    let y = to_signed(b, width);
    let ax: u64 = if x < 0 { (-x) as u64 } else { x as u64 };
    let ay: u64 = if y < 0 { (-y) as u64 } else { y as u64 };
    let r1 = ax % ay;
    let t: i64 = if x < 0 { -(r1 as i64) } else { r1 as i64 };
    let t2 = t + y;
    let at2: u64 = if t2 < 0 { (-t2) as u64 } else { t2 as u64 };
    let r2 = at2 % ay;
    let v: i64 = if t2 < 0 { -(r2 as i64) } else { r2 as i64 };
    wrap(v, width)
}

/// Applies a ternary integer operation to the bit patterns `a` and `b` of `width` bytes.
pub fn int_binop_exec(op: BinOp, width: u32, a: u32, b: u32) -> (r: Result<u32, CeriumError>)
    requires
        int_width(width as nat),
        a < modulus(width as nat),
        b < modulus(width as nat),
    ensures
        r == int_binop(op, width as nat, a, b),
        r matches Ok(v) ==> v < modulus(width as nat),
{
    proof {
        lemma_signed_mod(b, width as nat);
        lemma_bitwise_bound(a, b, width);
        lemma_bits_of_bound(signed(a, width as nat) / pow2(shift_count(signed(b, width as nat), width as nat)) as int, width as nat);
        if b != 0 {
            lemma_bits_of_bound(tdiv(signed(a, width as nat), signed(b, width as nat)), width as nat);
            lemma_bits_of_bound(modulo(signed(a, width as nat), signed(b, width as nat)), width as nat);
        }
    }
    match op {
        BinOp::XOR => Ok(a ^ b),
        BinOp::OR => Ok(a | b),
        BinOp::AND => Ok(a & b),
        BinOp::ADD => Ok(add_bits(width, a, b)),
        BinOp::SUB => Ok(sub_bits(width, a, b)),
        BinOp::MUL => Ok(mul_bits(width, a, b)),
        BinOp::SHL => Ok(shl_bits(width, a, b)),
        BinOp::SHR => Ok(shr_bits(width, a, b)),
        BinOp::DIV => if b == 0 {
            Err(CeriumError::DivisionByZero)
        } else {
            Ok(div_bits(width, a, b))
        },
        BinOp::MOD => if b == 0 {
            Err(CeriumError::DivisionByZero)
        } else {
            Ok(mod_bits(width, a, b))
        },
    }
}

/// Arithmetic negation of a bit pattern (two's complement).
pub open spec fn negate(a: u32, width: nat) -> u32 {
    bits_of(-signed(a, width), width)
}

/// Bitwise complement of a bit pattern of `width` bytes.
pub open spec fn complement(a: u32, width: nat) -> u32 {
    bits_of(-1 - signed(a, width), width)
}

/// The bit pattern of a `from`-byte value converted to `to` bytes: sign
/// extension when widening, truncation to the low-order bytes when narrowing.
pub open spec fn convert(a: u32, from: nat, to: nat) -> u32 {
    bits_of(signed(a, from), to)
}

pub fn neg_bits(width: u32, a: u32) -> (r: u32)
    requires
        int_width(width as nat),
        a < modulus(width as nat),
    ensures
        r == negate(a, width as nat),
{
    let m = modulus_of(width);
    proof {
        lemma_signed_mod(a, width as nat);
        lemma_sub_mod_noop(0, signed(a, width as nat), m as int);
        lemma_mod_add_multiples_vanish(-a, m as int);
        lemma_small_mod(0, m as nat);
    }
    ((m - a as u64) % m) as u32
}

pub fn not_bits(width: u32, a: u32) -> (r: u32)
    requires
        int_width(width as nat),
        a < modulus(width as nat),
    ensures
        r == complement(a, width as nat),
{
    let m = modulus_of(width);
    proof {
        lemma_signed_mod(a, width as nat);
        lemma_sub_mod_noop(-1, signed(a, width as nat), m as int);
        lemma_fundamental_div_mod_converse(-1, m as int, -1, m - 1);
        lemma_small_mod((m - 1 - a) as nat, m as nat);
        lemma_mod_add_multiples_vanish(-1 - a, m as int);
    }
    (m - 1 - a as u64) as u32
}

/// The bit pattern of `x` in `width` bytes.
fn bits_of_exec(x: i64, width: u32) -> (r: u32)
    requires
        int_width(width as nat),
        -0x1_0000_0000 <= x <= 0x1_0000_0000,
    ensures
        r == bits_of(x as int, width as nat),
{
    let m = modulus_of(width);
    if x >= 0 {
        (x as u64 % m) as u32
    } else {
        let t = ((-x) as u64) % m;
        proof {
            lemma_sub_mod_noop(0, -x, m as int);
            lemma_small_mod(0, m as nat);
            lemma_mod_add_multiples_vanish(-t, m as int);
        }
        ((m - t) % m) as u32
    }
}

pub fn convert_bits(a: u32, from: u32, to: u32) -> (r: u32)
    requires
        int_width(from as nat),
        int_width(to as nat),
        a < modulus(from as nat),
    ensures
        r == convert(a, from as nat, to as nat),
{
    let x = to_signed(a, from);
    proof {
        lemma_signed_mod(a, from as nat);
    }
    bits_of_exec(x, to)
}

/// How a value compares with zero: `Some(-1)`, `Some(0)` or `Some(1)`;
/// `None` for a float that is not a number.
pub open spec fn operand_sign(ty: Type, bits: u32) -> Option<int> {
    match ty {
        Type::Float => {
            let magnitude = bits % 0x8000_0000;
            if magnitude > 0x7f80_0000 {
                None
            } else if magnitude == 0 {
                Some(0)
            } else if bits >= 0x8000_0000 {
                Some(-1)
            } else {
                Some(1)
            }
        },
        _ => {
            let x = signed(bits, ty.spec_width() as nat);
            if x < 0 {
                Some(-1)
            } else if x == 0 {
                Some(0)
            } else {
                Some(1)
            }
        },
    }
}

/// Whether a value of the given sign satisfies a condition. A float that is
/// not a number satisfies only `NE` and `ALWAYS`.
pub open spec fn condition_holds(cnd: Condition, sign: Option<int>) -> bool {
    match cnd {
        Condition::NEVER => false,
        Condition::ALWAYS => true,
        Condition::NE => sign != Some(0int),
        Condition::GT => sign == Some(1int),
        Condition::EQ => sign == Some(0int),
        Condition::GE => sign == Some(1int) || sign == Some(0int),
        Condition::LT => sign == Some(-1int),
        Condition::LE => sign == Some(-1int) || sign == Some(0int),
    }
}

pub fn test_condition(cnd: Condition, ty: Type, bits: u32) -> (r: bool)
    requires
        bits < modulus(ty.spec_width() as nat),
    ensures
        r == condition_holds(cnd, operand_sign(ty, bits)),
{
    let sign: i8;
    let nan: bool;
    match ty {
        Type::Float => {
            let magnitude = bits % 0x8000_0000;
            nan = magnitude > 0x7f80_0000;
            sign = if magnitude == 0 {
                0
            } else if bits >= 0x8000_0000 {
                -1
            } else {
                1
            };
        },
        _ => {
            let x = to_signed(bits, ty.width());
            nan = false;
            sign = if x < 0 {
                -1
            } else if x == 0 {
                0
            } else {
                1
            };
        },
    }
    match cnd {
        Condition::NEVER => false,
        Condition::ALWAYS => true,
        Condition::NE => nan || sign != 0,
        Condition::GT => !nan && sign == 1,
        Condition::EQ => !nan && sign == 0,
        Condition::GE => !nan && sign >= 0,
        Condition::LT => !nan && sign == -1,
        Condition::LE => !nan && sign <= 0,
    }
}

pub proof fn lemma_bits_of_bound(x: int, width: nat)
    requires
        int_width(width),
    ensures
        bits_of(x, width) < modulus(width),
        bits_of(x, width) == x % modulus(width),
{
}

proof fn lemma_bitwise_bound(a: u32, b: u32, width: u32)
    requires
        int_width(width as nat),
        a < modulus(width as nat),
        b < modulus(width as nat),
    ensures
        a ^ b < modulus(width as nat),
        a | b < modulus(width as nat),
        a & b < modulus(width as nat),
{
    if width == 1 {
        assert(a ^ b < 0x100 && a | b < 0x100 && a & b < 0x100) by (bit_vector)
            requires
                a < 0x100u32,
                b < 0x100u32,
        ;
    } else if width == 2 {
        assert(a ^ b < 0x1_0000 && a | b < 0x1_0000 && a & b < 0x1_0000) by (bit_vector)
            requires
                a < 0x1_0000u32,
                b < 0x1_0000u32,
        ;
    }
}

/// For a positive modulus, the machine's modulo lies in `[0, m)`.
pub proof fn lemma_modulo_range(x: int, m: int)
    requires
        m > 0,
    ensures
        0 <= modulo(x, m) < m,
{
    let t = trem(x, m);
    assert(-m < t < m);
    assert(0 < t + m);
}

/// `MOD` with a positive modulus gives a non-negative result below the
/// modulus, whatever the sign of the dividend.
pub proof fn lemma_mod_non_negative(width: nat, a: u32, b: u32)
    requires
        int_width(width),
        a < modulus(width),
        b < modulus(width),
        signed(b, width) > 0,
    ensures
        int_binop(BinOp::MOD, width, a, b) matches Ok(v) && 0 <= signed(v, width) < signed(b, width),
{
    let m = modulus(width);
    let r = modulo(signed(a, width), signed(b, width));
    lemma_signed_mod(b, width);
    lemma_modulo_range(signed(a, width), signed(b, width));
    lemma_small_mod(r as nat, m as nat);
}

/// Comparisons against zero: 0 satisfies `==`, `>=` and `<=`; 1 satisfies
/// `!=`, `>` and `>=`; and -1 satisfies `!=`, `<` and `<=`.
pub proof fn lemma_conditions_against_zero(ty: Type)
    requires
        ty != Type::Float,
    ensures
        condition_holds(Condition::EQ, operand_sign(ty, 0)),
        !condition_holds(Condition::EQ, operand_sign(ty, 1)),
        !condition_holds(Condition::NE, operand_sign(ty, 0)),
        condition_holds(Condition::NE, operand_sign(ty, 1)),
        !condition_holds(Condition::GT, operand_sign(ty, 0)),
        condition_holds(Condition::GT, operand_sign(ty, 1)),
        condition_holds(Condition::GE, operand_sign(ty, 0)),
        condition_holds(Condition::GE, operand_sign(ty, 1)),
        !condition_holds(Condition::LT, operand_sign(ty, 0)),
        !condition_holds(Condition::LT, operand_sign(ty, 1)),
        condition_holds(Condition::LE, operand_sign(ty, 0)),
        !condition_holds(Condition::LE, operand_sign(ty, 1)),
        condition_holds(Condition::LT, operand_sign(ty, (modulus(ty.spec_width() as nat) - 1) as u32)),
        condition_holds(Condition::LE, operand_sign(ty, (modulus(ty.spec_width() as nat) - 1) as u32)),
        !condition_holds(Condition::GE, operand_sign(ty, (modulus(ty.spec_width() as nat) - 1) as u32)),
        !condition_holds(Condition::GT, operand_sign(ty, (modulus(ty.spec_width() as nat) - 1) as u32)),
        condition_holds(Condition::NE, operand_sign(ty, (modulus(ty.spec_width() as nat) - 1) as u32)),
{
}

} // verus!
