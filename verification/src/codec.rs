//! Text encoding and decoding of measurements and programs.
//!
//! The format is deliberately plain: every number is a fixed run of
//! twenty decimal digits, a sign is one byte, a byte string is its
//! length followed by its raw bytes, and every list is its length
//! followed by its items.  The decoder accepts exactly what the encoder
//! produces; decoding an encoded value returns the value itself, and
//! that round trip is proved below.

use vstd::prelude::*;

use crate::circuit::Complexf;
use crate::circuit::lemma_ops_view;
use crate::circuit::Circuit;
use crate::circuit::op_view;
use crate::circuit::ops_view;
use crate::circuit::Operation;
use crate::circuit::SpecOp;
use crate::expression::expr_view;
use crate::expression::CalcExpr;
use crate::measurement::combos_view;
use crate::measurement::indices_view;
use crate::measurement::masks_view;
use crate::measurement::terms_view;
use crate::measurement::LinearCombination;
use crate::measurement::PauliProductMask;
use crate::measurement::PauliZProductInput;
use crate::program::circuits_view;
use crate::program::names_view;
use crate::program::PauliZProduct;
use crate::program::QuantumProgram;
use crate::expression::SpecExpr;
use crate::fixed::Fixed;
use crate::measurement::SpecPZInput;
use crate::program::SpecPauliZProduct;
use crate::program::SpecQuantumProgram;

verus! {

broadcast use vstd::seq::group_seq_axioms, vstd::std_specs::vec::group_vec_axioms;

/// Powers of ten.
pub open spec fn pow10(k: nat) -> int
    decreases k,
{
    if k == 0 {
        1
    } else {
        10 * pow10((k - 1) as nat)
    }
}

/// The twenty decimal digits of `n`, most significant first.
pub open spec fn spec_enc_digits(n: int, k: nat) -> Seq<u8>
    decreases k,
{
    if k == 0 {
        Seq::empty()
    } else {
        spec_enc_digits(n / 10, (k - 1) as nat).push((n % 10 + 48) as u8)
    }
}

/// Encoding of an unsigned number: exactly twenty digits.
pub open spec fn spec_enc_u64(n: int) -> Seq<u8> {
    spec_enc_digits(n, 20)
}

/// The value of a digit run, most significant first.
pub open spec fn digits_val(s: Seq<u8>) -> int
    decreases s.len(),
{
    if s.len() == 0 {
        0
    } else {
        digits_val(s.drop_last()) * 10 + (s.last() - 48)
    }
}

/// Whether every byte is a decimal digit.
pub open spec fn all_digits(s: Seq<u8>) -> bool {
    forall|k: int| 0 <= k < s.len() ==> 48 <= #[trigger] s[k] <= 57
}

/// Decoding of an unsigned number: twenty digit bytes whose value fits.
pub open spec fn spec_dec_u64(s: Seq<u8>) -> Option<(int, int)> {
    if s.len() >= 20 && all_digits(s.take(20)) && digits_val(s.take(20)) <= u64::MAX {
        Some((digits_val(s.take(20)), 20))
    } else {
        None
    }
}

/// A digit run holds digits and decodes to the encoded number.
proof fn lemma_enc_digits(n: int, k: nat)
    requires
        0 <= n < pow10(k),
    ensures
        spec_enc_digits(n, k).len() == k,
        all_digits(spec_enc_digits(n, k)),
        digits_val(spec_enc_digits(n, k)) == n,
    decreases k,
{
    if k == 0 {
    } else {
        vstd::arithmetic::div_mod::lemma_fundamental_div_mod(n, 10);
        vstd::arithmetic::div_mod::lemma_div_pos_is_pos(n, 10);
        assert(n / 10 < pow10((k - 1) as nat)) by {
            vstd::arithmetic::div_mod::lemma_multiply_divide_lt(n, pow10((k - 1) as nat), 10);
        }
        lemma_enc_digits(n / 10, (k - 1) as nat);
        let s = spec_enc_digits(n, k);
        assert(s.drop_last() =~= spec_enc_digits(n / 10, (k - 1) as nat));
        assert(0 <= n % 10 < 10) by {
            vstd::arithmetic::div_mod::lemma_mod_bound(n, 10);
        }
    }
}

/// Ten to the twentieth, spelled out.
proof fn lemma_pow10_20()
    ensures
        pow10(20) == 100_000_000_000_000_000_000,
{
    reveal_with_fuel(pow10, 21);
}

/// Powers of ten are positive.
proof fn lemma_pow10_pos(k: nat)
    ensures
        pow10(k) >= 1,
    decreases k,
{
    if k > 0 {
        lemma_pow10_pos((k - 1) as nat);
    }
}

/// Powers of ten grow with the exponent.
proof fn lemma_pow10_mono(a: nat, b: nat)
    requires
        a <= b,
    ensures
        pow10(a) <= pow10(b),
    decreases b,
{
    if a < b {
        lemma_pow10_mono(a, (b - 1) as nat);
        lemma_pow10_pos((b - 1) as nat);
    }
}

/// Round trip of the unsigned-number encoding.
pub proof fn lemma_dec_enc_u64(n: int, rest: Seq<u8>)
    requires
        0 <= n <= u64::MAX,
    ensures
        spec_enc_u64(n).len() == 20,
        spec_dec_u64(spec_enc_u64(n) + rest) == Some((n, 20int)),
{
    lemma_pow10_20();
    lemma_enc_digits(n, 20);
    assert((spec_enc_u64(n) + rest).take(20) =~= spec_enc_u64(n));
}

/// A run of digits is worth less than ten to its length.
proof fn lemma_digits_val_bound(s: Seq<u8>)
    requires
        all_digits(s),
    ensures
        0 <= digits_val(s) < pow10(s.len() as nat),
    decreases s.len(),
{
    if s.len() > 0 {
        assert(all_digits(s.drop_last()));
        lemma_digits_val_bound(s.drop_last());
    }
}

/// Appends the `k` least significant decimal digit positions of `n`,
/// most significant first.
pub(crate) fn push_digits(out: &mut Vec<u8>, n: u64, k: usize)
    ensures
        final(out)@ == old(out)@ + spec_enc_digits(n as int, k as nat),
    decreases k,
{
    if k == 0 {
        proof {
            assert(out@ =~= out@ + spec_enc_digits(n as int, 0));
        }
    } else {
        push_digits(out, n / 10, k - 1);
        out.push((n % 10) as u8 + 48);
        proof {
            assert(out@ =~= old(out)@ + spec_enc_digits(n as int, k as nat));
        }
    }
}

/// Appends the encoding of an unsigned number.
fn enc_u64(out: &mut Vec<u8>, n: u64)
    ensures
        final(out)@ == old(out)@ + spec_enc_u64(n as int),
{
    push_digits(out, n, 20);
}

/// Reads the value of `k` digit bytes starting at `pos`; `None` on a
/// non-digit byte.
fn dec_digits(buf: &Vec<u8>, pos: usize, k: usize) -> (r: Option<u128>)
    requires
        pos + k <= buf@.len(),
        k <= 20,
    ensures
        match r {
            Some(v) => all_digits(buf@.subrange(pos as int, pos + k)) && v as int == digits_val(
                buf@.subrange(pos as int, pos + k),
            ) && (v as int) < pow10((k) as nat),
            None => !all_digits(buf@.subrange(pos as int, pos + k)),
        },
    decreases k,
{
    if k == 0 {
        proof {
            assert(buf@.subrange(pos as int, pos as int) =~= Seq::<u8>::empty());
        }
        Some(0)
    } else {
        match dec_digits(buf, pos, k - 1) {
            None => {
                proof {
                    let shorter = buf@.subrange(pos as int, pos + k - 1);
                    let longer = buf@.subrange(pos as int, pos + k);
                    assert(shorter =~= longer.drop_last());
                    assert(!all_digits(longer)) by {
                        let j = choose|j: int| 0 <= j < shorter.len() && !(48 <= #[trigger] shorter[j] <= 57);
                        assert(longer[j] == shorter[j]);
                    }
                }
                None
            },
            Some(v) => {
                proof {
                    assert(pos + k <= buf.len());
                }
                let b = buf[pos + (k - 1)];
                let ghost longer = buf@.subrange(pos as int, pos + k);
                proof {
                    assert(longer.drop_last() =~= buf@.subrange(pos as int, pos + k - 1));
                    assert(longer.last() == buf@[pos + k - 1]);
                }
                if b < 48 || b > 57 {
                    proof {
                        assert(longer[longer.len() - 1] == b);
                    }
                    return None;
                }
                proof {
                    lemma_pow10_mono((k - 1) as nat, 20);
                    lemma_pow10_20();
                }
                let v2 = v * 10 + ((b - 48) as u128);
                proof {
                    assert(all_digits(longer));
                    lemma_digits_val_bound(longer);
                    lemma_pow10_mono(longer.len() as nat, 20);
                    lemma_pow10_20();
                    assert(v2 as int == digits_val(longer));
                }
                Some(v2)
            },
        }
    }
}

/// Decodes an unsigned number at `pos`.
fn dec_u64(buf: &Vec<u8>, pos: usize) -> (r: Option<(u64, usize)>)
    requires
        pos <= buf@.len(),
    ensures
        match r {
            Some((v, p2)) => spec_dec_u64(buf@.skip(pos as int)) == Some((v as int, 20int)) && p2
                == pos + 20,
            None => spec_dec_u64(buf@.skip(pos as int)) is None,
        },
{
    let ghost s = buf@.skip(pos as int);
    if buf.len() - pos < 20 {
        return None;
    }
    proof {
        assert(s.take(20) =~= buf@.subrange(pos as int, pos + 20));
    }
    match dec_digits(buf, pos, 20) {
        None => None,
        Some(v) => {
            proof {
                lemma_pow10_20();
            }
            if v <= 0xffff_ffff_ffff_ffffu128 {
                Some((v as u64, pos + 20))
            } else {
                None
            }
        },
    }
}

/// Encoding of a sign-and-magnitude number: one sign byte, then the
/// magnitude.
pub open spec fn spec_enc_i64(v: int) -> Seq<u8> {
    if v < 0 {
        Seq::empty().push(45u8) + spec_enc_u64(-v)
    } else {
        Seq::empty().push(43u8) + spec_enc_u64(v)
    }
}

/// Decoding of a sign-and-magnitude number.
pub open spec fn spec_dec_i64(s: Seq<u8>) -> Option<(int, int)> {
    if s.len() < 1 {
        None
    } else if s[0] == 45u8 {
        match spec_dec_u64(s.skip(1)) {
            Some((m, c)) => {
                if 0 < m <= 0x8000_0000_0000_0000 {
                    Some((-m, 1 + c))
                } else {
                    None
                }
            },
            None => None,
        }
    } else if s[0] == 43u8 {
        match spec_dec_u64(s.skip(1)) {
            Some((m, c)) => {
                if m <= i64::MAX {
                    Some((m, 1 + c))
                } else {
                    None
                }
            },
            None => None,
        }
    } else {
        None
    }
}

/// Round trip of the signed-number encoding.
pub proof fn lemma_dec_enc_i64(v: int, rest: Seq<u8>)
    requires
        i64::MIN <= v <= i64::MAX,
    ensures
        spec_enc_i64(v).len() == 21,
        spec_dec_i64(spec_enc_i64(v) + rest) == Some((v, 21int)),
{
    let s = spec_enc_i64(v) + rest;
    if v < 0 {
        lemma_dec_enc_u64(-v, rest);
        assert(s.skip(1) =~= spec_enc_u64(-v) + rest);
    } else {
        lemma_dec_enc_u64(v, rest);
        assert(s.skip(1) =~= spec_enc_u64(v) + rest);
    }
}

/// Appends the encoding of a signed number.
fn enc_i64(out: &mut Vec<u8>, v: i64)
    ensures
        final(out)@ == old(out)@ + spec_enc_i64(v as int),
{
    if v < 0 {
        out.push(45u8);
        enc_u64(out, (-(v as i128)) as u64);
    } else {
        out.push(43u8);
        enc_u64(out, v as u64);
    }
    proof {
        assert(out@ =~= old(out)@ + spec_enc_i64(v as int));
    }
}

/// Decodes a signed number at `pos`.
fn dec_i64(buf: &Vec<u8>, pos: usize) -> (r: Option<(i64, usize)>)
    requires
        pos <= buf@.len(),
    ensures
        match r {
            Some((v, p2)) => spec_dec_i64(buf@.skip(pos as int)) == Some((v as int, 21int)) && p2
                == pos + 21 && p2 <= buf@.len(),
            None => spec_dec_i64(buf@.skip(pos as int)) is None,
        },
{
    let ghost s = buf@.skip(pos as int);
    if pos >= buf.len() {
        return None;
    }
    let sign = buf[pos];
    proof {
        assert(s[0] == buf@[pos as int]);
        assert(s.skip(1) =~= buf@.skip(pos + 1));
    }
    if sign == 45u8 {
        match dec_u64(buf, pos + 1) {
            Some((m, p2)) => {
                if 0 < m && m <= 0x8000_0000_0000_0000u64 {
                    Some(((-(m as i128)) as i64, p2))
                } else {
                    None
                }
            },
            None => None,
        }
    } else if sign == 43u8 {
        match dec_u64(buf, pos + 1) {
            Some((m, p2)) => {
                if m <= 0x7fff_ffff_ffff_ffffu64 {
                    Some((m as i64, p2))
                } else {
                    None
                }
            },
            None => None,
        }
    } else {
        None
    }
}

/// Encoding of one boolean: one byte.
pub open spec fn spec_enc_bool(b: bool) -> Seq<u8> {
    if b {
        Seq::empty().push(49u8)
    } else {
        Seq::empty().push(48u8)
    }
}

/// Decoding of one boolean.
pub open spec fn spec_dec_bool(s: Seq<u8>) -> Option<(bool, int)> {
    if s.len() < 1 {
        None
    } else if s[0] == 49u8 {
        Some((true, 1))
    } else if s[0] == 48u8 {
        Some((false, 1))
    } else {
        None
    }
}

/// Round trip of the boolean encoding.
pub proof fn lemma_dec_enc_bool(b: bool, rest: Seq<u8>)
    ensures
        spec_enc_bool(b).len() == 1,
        spec_dec_bool(spec_enc_bool(b) + rest) == Some((b, 1int)),
{
}

/// Appends the encoding of one boolean.
fn enc_bool(out: &mut Vec<u8>, b: bool)
    ensures
        final(out)@ == old(out)@ + spec_enc_bool(b),
{
    if b {
        out.push(49u8);
    } else {
        out.push(48u8);
    }
    proof {
        assert(out@ =~= old(out)@ + spec_enc_bool(b));
    }
}

/// Decodes one boolean at `pos`.
fn dec_bool(buf: &Vec<u8>, pos: usize) -> (r: Option<(bool, usize)>)
    requires
        pos <= buf@.len(),
    ensures
        match r {
            Some((b, p2)) => spec_dec_bool(buf@.skip(pos as int)) == Some((b, 1int)) && p2 == pos
                + 1 && p2 <= buf@.len(),
            None => spec_dec_bool(buf@.skip(pos as int)) is None,
        },
{
    if pos >= buf.len() {
        return None;
    }
    let b = buf[pos];
    proof {
        assert(buf@.skip(pos as int)[0] == buf@[pos as int]);
    }
    if b == 49u8 {
        Some((true, pos + 1))
    } else if b == 48u8 {
        Some((false, pos + 1))
    } else {
        None
    }
}

/// Encoding of a byte string: its length, then its raw bytes.
pub open spec fn spec_enc_bytes(s: Seq<u8>) -> Seq<u8> {
    spec_enc_u64(s.len() as int) + s
}

/// Decoding of a byte string.
pub open spec fn spec_dec_bytes(s: Seq<u8>) -> Option<(Seq<u8>, int)> {
    match spec_dec_u64(s) {
        None => None,
        Some((n, c)) => {
            if c + n <= s.len() {
                Some((s.subrange(c, c + n), c + n))
            } else {
                None
            }
        },
    }
}

/// Round trip of the byte-string encoding.
pub proof fn lemma_dec_enc_bytes(v: Seq<u8>, rest: Seq<u8>)
    requires
        v.len() <= u64::MAX,
    ensures
        spec_enc_bytes(v).len() == 20 + v.len(),
        spec_dec_bytes(spec_enc_bytes(v) + rest) == Some((v, 20 + v.len() as int)),
{
    let s = spec_enc_bytes(v) + rest;
    lemma_dec_enc_u64(v.len() as int, v + rest);
    assert(s =~= spec_enc_u64(v.len() as int) + (v + rest));
    assert(s.subrange(20, 20 + v.len() as int) =~= v);
}

/// Appends the encoding of a byte string.
fn enc_bytes(out: &mut Vec<u8>, v: &Vec<u8>)
    ensures
        final(out)@ == old(out)@ + spec_enc_bytes(v@),
{
    proof {
        assert(v@.len() == v.len());
    }
    enc_u64(out, v.len() as u64);
    let mut i: usize = 0;
    while i < v.len()
        invariant
            i <= v@.len(),
            out@ =~= old(out)@ + spec_enc_u64(v@.len() as int) + v@.take(i as int),
        decreases v@.len() - i,
    {
        out.push(v[i]);
        i = i + 1;
    }
    proof {
        assert(out@ =~= old(out)@ + spec_enc_bytes(v@));
    }
}

/// Decodes a byte string at `pos`.
fn dec_bytes(buf: &Vec<u8>, pos: usize) -> (r: Option<(Vec<u8>, usize)>)
    requires
        pos <= buf@.len(),
    ensures
        match r {
            Some((v, p2)) => spec_dec_bytes(buf@.skip(pos as int)) == Some(
                (v@, p2 - pos),
            ) && pos < p2 <= buf@.len(),
            None => spec_dec_bytes(buf@.skip(pos as int)) is None,
        },
{
    let ghost s = buf@.skip(pos as int);
    match dec_u64(buf, pos) {
        None => None,
        Some((n, p1)) => {
            if n > (buf.len() - p1) as u64 {
                return None;
            }
            let n = n as usize;
            let mut v: Vec<u8> = Vec::new();
            let mut i: usize = 0;
            while i < n
                invariant
                    i <= n,
                    p1 + n <= buf@.len(),
                    p1 == pos + 20,
                    pos <= buf@.len(),
                    v@ =~= buf@.subrange(p1 as int, p1 + i),
                decreases n - i,
            {
                proof {
                    assert(p1 + i < buf.len());
                }
                v.push(buf[p1 + i]);
                i = i + 1;
            }
            proof {
                assert(s.subrange(20, 20 + n) =~= buf@.subrange(p1 as int, p1 + n));
            }
            Some((v, p1 + n))
        },
    }
}

/// Skipping twice is skipping the sum.
proof fn lemma_skip_skip(s: Seq<u8>, a: int, b: int)
    requires
        0 <= a,
        0 <= b,
        a + b <= s.len(),
    ensures
        s.skip(a).skip(b) =~= s.skip(a + b),
{
}

/// Encoding of a symbolic expression, by a one-byte tag per node.
pub open spec fn spec_enc_expr(e: SpecExpr) -> Seq<u8>
    decreases e,
{
    match e {
        SpecExpr::Literal { value } => Seq::empty().push(108u8) + spec_enc_i64(value),
        SpecExpr::Variable { name } => Seq::empty().push(118u8) + spec_enc_bytes(name),
        SpecExpr::Add { left, right } => Seq::empty().push(97u8) + spec_enc_expr(*left)
            + spec_enc_expr(*right),
        SpecExpr::Sub { left, right } => Seq::empty().push(115u8) + spec_enc_expr(*left)
            + spec_enc_expr(*right),
        SpecExpr::Mul { left, right } => Seq::empty().push(109u8) + spec_enc_expr(*left)
            + spec_enc_expr(*right),
        SpecExpr::Div { left, right } => Seq::empty().push(100u8) + spec_enc_expr(*left)
            + spec_enc_expr(*right),
    }
}

/// Decoding of a symbolic expression.
pub open spec fn spec_dec_expr(s: Seq<u8>) -> Option<(SpecExpr, int)>
    decreases s.len(), 0nat,
{
    if s.len() < 1 {
        None
    } else if s[0] == 108u8 {
        match spec_dec_i64(s.skip(1)) {
            Some((v, c)) => Some((SpecExpr::Literal { value: v }, 1 + c)),
            None => None,
        }
    } else if s[0] == 118u8 {
        match spec_dec_bytes(s.skip(1)) {
            Some((n, c)) => Some((SpecExpr::Variable { name: n }, 1 + c)),
            None => None,
        }
    } else if s[0] == 97u8 || s[0] == 115u8 || s[0] == 109u8 || s[0] == 100u8 {
        match spec_dec_expr_pair(s.skip(1)) {
            Some((l, r, c)) => {
                let node = if s[0] == 97u8 {
                    SpecExpr::Add { left: Box::new(l), right: Box::new(r) }
                } else if s[0] == 115u8 {
                    SpecExpr::Sub { left: Box::new(l), right: Box::new(r) }
                } else if s[0] == 109u8 {
                    SpecExpr::Mul { left: Box::new(l), right: Box::new(r) }
                } else {
                    SpecExpr::Div { left: Box::new(l), right: Box::new(r) }
                };
                Some((node, 1 + c))
            },
            None => None,
        }
    } else {
        None
    }
}

/// Decoding of two consecutive expressions.
pub open spec fn spec_dec_expr_pair(s: Seq<u8>) -> Option<(SpecExpr, SpecExpr, int)>
    decreases s.len(), 1nat,
{
    match spec_dec_expr(s) {
        None => None,
        Some((l, cl)) => {
            if 0 < cl <= s.len() {
                match spec_dec_expr(s.skip(cl)) {
                    None => None,
                    Some((r, cr)) => Some((l, r, cl + cr)),
                }
            } else {
                None
            }
        },
    }
}

/// Whether an expression's numbers and names are representable.
pub open spec fn expr_fits(e: SpecExpr) -> bool
    decreases e,
{
    match e {
        SpecExpr::Literal { value } => i64::MIN <= value <= i64::MAX,
        SpecExpr::Variable { name } => name.len() <= u64::MAX,
        SpecExpr::Add { left, right } => expr_fits(*left) && expr_fits(*right),
        SpecExpr::Sub { left, right } => expr_fits(*left) && expr_fits(*right),
        SpecExpr::Mul { left, right } => expr_fits(*left) && expr_fits(*right),
        SpecExpr::Div { left, right } => expr_fits(*left) && expr_fits(*right),
    }
}

/// Round trip of the expression encoding.
#[verifier::rlimit(100)]
#[verifier::spinoff_prover]
pub proof fn lemma_dec_enc_expr(e: SpecExpr, rest: Seq<u8>)
    requires
        expr_fits(e),
    ensures
        spec_enc_expr(e).len() >= 1,
        spec_dec_expr(spec_enc_expr(e) + rest) == Some((e, spec_enc_expr(e).len() as int)),
    decreases e,
{
    let s = spec_enc_expr(e) + rest;
    match e {
        SpecExpr::Literal { value } => {
            assert(s.skip(1) =~= spec_enc_i64(value) + rest);
            lemma_dec_enc_i64(value, rest);
        },
        SpecExpr::Variable { name } => {
            assert(s.skip(1) =~= spec_enc_bytes(name) + rest);
            lemma_dec_enc_bytes(name, rest);
        },
        SpecExpr::Add { left, right } => {
            let payload = s.skip(1);
            assert(payload =~= spec_enc_expr(*left) + (spec_enc_expr(*right) + rest));
            lemma_dec_enc_expr(*left, spec_enc_expr(*right) + rest);
            let cl = spec_enc_expr(*left).len() as int;
            assert(payload.skip(cl) =~= spec_enc_expr(*right) + rest);
            lemma_dec_enc_expr(*right, rest);
        },
        SpecExpr::Sub { left, right } => {
            let payload = s.skip(1);
            assert(payload =~= spec_enc_expr(*left) + (spec_enc_expr(*right) + rest));
            lemma_dec_enc_expr(*left, spec_enc_expr(*right) + rest);
            let cl = spec_enc_expr(*left).len() as int;
            assert(payload.skip(cl) =~= spec_enc_expr(*right) + rest);
            lemma_dec_enc_expr(*right, rest);
        },
        SpecExpr::Mul { left, right } => {
            let payload = s.skip(1);
            assert(payload =~= spec_enc_expr(*left) + (spec_enc_expr(*right) + rest));
            lemma_dec_enc_expr(*left, spec_enc_expr(*right) + rest);
            let cl = spec_enc_expr(*left).len() as int;
            assert(payload.skip(cl) =~= spec_enc_expr(*right) + rest);
            lemma_dec_enc_expr(*right, rest);
        },
        SpecExpr::Div { left, right } => {
            let payload = s.skip(1);
            assert(payload =~= spec_enc_expr(*left) + (spec_enc_expr(*right) + rest));
            lemma_dec_enc_expr(*left, spec_enc_expr(*right) + rest);
            let cl = spec_enc_expr(*left).len() as int;
            assert(payload.skip(cl) =~= spec_enc_expr(*right) + rest);
            lemma_dec_enc_expr(*right, rest);
        },
    }
}

/// Appends the encoding of an expression.
fn enc_expr(out: &mut Vec<u8>, e: &CalcExpr)
    ensures
        final(out)@ == old(out)@ + spec_enc_expr(e@),
    decreases *e,
{
    match e {
        CalcExpr::Literal { value } => {
            out.push(108u8);
            enc_i64(out, value.units);
        },
        CalcExpr::Variable { name } => {
            out.push(118u8);
            proof {
                assert(name@.len() <= u64::MAX) by {
                    assert(name@.len() == name.len());
                }
            }
            enc_bytes(out, name);
        },
        CalcExpr::Add { left, right } => {
            out.push(97u8);
            enc_expr(out, left);
            enc_expr(out, right);
        },
        CalcExpr::Sub { left, right } => {
            out.push(115u8);
            enc_expr(out, left);
            enc_expr(out, right);
        },
        CalcExpr::Mul { left, right } => {
            out.push(109u8);
            enc_expr(out, left);
            enc_expr(out, right);
        },
        CalcExpr::Div { left, right } => {
            out.push(100u8);
            enc_expr(out, left);
            enc_expr(out, right);
        },
    }
    proof {
        assert(out@ =~= old(out)@ + spec_enc_expr(e@));
    }
}

/// Decodes an expression at `pos`.
fn dec_expr(buf: &Vec<u8>, pos: usize) -> (r: Option<(CalcExpr, usize)>)
    requires
        pos <= buf@.len(),
    ensures
        match r {
            Some((e, p2)) => spec_dec_expr(buf@.skip(pos as int)) == Some((e@, p2 - pos as int))
                && pos < p2 <= buf@.len(),
            None => spec_dec_expr(buf@.skip(pos as int)) is None,
        },
    decreases buf@.len() - pos,
{
    let ghost s = buf@.skip(pos as int);
    if pos >= buf.len() {
        return None;
    }
    let tag = buf[pos];
    proof {
        assert(s[0] == buf@[pos as int]);
        assert(s.skip(1) =~= buf@.skip(pos + 1));
    }
    if tag == 108u8 {
        match dec_i64(buf, pos + 1) {
            Some((v, p2)) => Some((CalcExpr::Literal { value: Fixed { units: v } }, p2)),
            None => None,
        }
    } else if tag == 118u8 {
        match dec_bytes(buf, pos + 1) {
            Some((n, p2)) => Some((CalcExpr::Variable { name: n }, p2)),
            None => None,
        }
    } else if tag == 97u8 || tag == 115u8 || tag == 109u8 || tag == 100u8 {
        match dec_expr(buf, pos + 1) {
            None => None,
            Some((l, p1)) => {
                proof {
                    lemma_skip_skip(buf@, pos + 1, p1 - pos - 1);
                }
                match dec_expr(buf, p1) {
                    None => None,
                    Some((rgt, p2)) => {
                        let node = if tag == 97u8 {
                            CalcExpr::Add { left: Box::new(l), right: Box::new(rgt) }
                        } else if tag == 115u8 {
                            CalcExpr::Sub { left: Box::new(l), right: Box::new(rgt) }
                        } else if tag == 109u8 {
                            CalcExpr::Mul { left: Box::new(l), right: Box::new(rgt) }
                        } else {
                            CalcExpr::Div { left: Box::new(l), right: Box::new(rgt) }
                        };
                        Some((node, p2))
                    },
                }
            },
        }
    } else {
        None
    }
}

/// Encoding of the items of an index list: one number each.
pub open spec fn spec_enc_u64s_items(s: Seq<int>) -> Seq<u8>
    decreases s,
{
    if s.len() == 0 {
        Seq::empty()
    } else {
        spec_enc_u64(s[0]) + spec_enc_u64s_items(s.drop_first())
    }
}

/// Encoding of an index list: its length, then its items.
pub open spec fn spec_enc_u64s(s: Seq<int>) -> Seq<u8> {
    spec_enc_u64(s.len() as int) + spec_enc_u64s_items(s)
}

/// Decoding of `n` index items.
pub open spec fn spec_dec_u64s_items(s: Seq<u8>, n: nat) -> Option<(Seq<int>, int)>
    decreases n,
{
    if n == 0 {
        Some((Seq::empty(), 0))
    } else {
        match spec_dec_u64(s) {
            None => None,
            Some((v, c)) => {
                if v <= usize::MAX {
                    match spec_dec_u64s_items(s.skip(c), (n - 1) as nat) {
                        None => None,
                        Some((rest, c2)) => Some((Seq::empty().push(v) + rest, c + c2)),
                    }
                } else {
                    None
                }
            },
        }
    }
}

/// Decoding of an index list.
pub open spec fn spec_dec_u64s(s: Seq<u8>) -> Option<(Seq<int>, int)> {
    match spec_dec_u64(s) {
        None => None,
        Some((n, c)) => {
            if n <= usize::MAX {
                match spec_dec_u64s_items(s.skip(c), n as nat) {
                    None => None,
                    Some((items, c2)) => Some((items, c + c2)),
                }
            } else {
                None
            }
        },
    }
}

/// Whether an index list is representable.
pub open spec fn u64s_fits(s: Seq<int>) -> bool {
    s.len() <= usize::MAX && forall|k: int| 0 <= k < s.len() ==> 0 <= #[trigger] s[k] <= usize::MAX
}

/// Round trip of the index-item encoding.
proof fn lemma_dec_enc_u64s_items(s: Seq<int>, rest: Seq<u8>)
    requires
        u64s_fits(s),
    ensures
        spec_dec_u64s_items(spec_enc_u64s_items(s) + rest, s.len() as nat) == Some(
            (s, spec_enc_u64s_items(s).len() as int),
        ),
    decreases s,
{
    if s.len() == 0 {
        assert(spec_enc_u64s_items(s) + rest =~= rest);
        assert(Seq::empty() =~= s);
    } else {
        let whole = spec_enc_u64s_items(s) + rest;
        assert(usize::MAX <= u64::MAX);
        lemma_dec_enc_u64(s[0], spec_enc_u64s_items(s.drop_first()) + rest);
        assert(whole =~= spec_enc_u64(s[0]) + (spec_enc_u64s_items(s.drop_first()) + rest));
        assert(whole.skip(20) =~= spec_enc_u64s_items(s.drop_first()) + rest);
        assert(u64s_fits(s.drop_first()));
        lemma_dec_enc_u64s_items(s.drop_first(), rest);
        assert(Seq::empty().push(s[0]) + s.drop_first() =~= s);
    }
}

/// Round trip of the index-list encoding.
pub proof fn lemma_dec_enc_u64s(s: Seq<int>, rest: Seq<u8>)
    requires
        u64s_fits(s),
    ensures
        spec_dec_u64s(spec_enc_u64s(s) + rest) == Some((s, spec_enc_u64s(s).len() as int)),
{
    let whole = spec_enc_u64s(s) + rest;
    assert(usize::MAX <= u64::MAX);
    lemma_dec_enc_u64(s.len() as int, spec_enc_u64s_items(s) + rest);
    assert(whole =~= spec_enc_u64(s.len() as int) + (spec_enc_u64s_items(s) + rest));
    assert(whole.skip(20) =~= spec_enc_u64s_items(s) + rest);
    lemma_dec_enc_u64s_items(s, rest);
}

/// Appends the items of an index list from position `i` on.
fn enc_u64s_from(out: &mut Vec<u8>, v: &Vec<usize>, i: usize)
    requires
        i <= v@.len(),
    ensures
        final(out)@ == old(out)@ + spec_enc_u64s_items(
            indices_view(v@).skip(i as int),
        ),
    decreases v@.len() - i,
{
    let ghost iv = indices_view(v@);
    if i == v.len() {
        proof {
            assert(iv.skip(i as int).len() == 0);
            assert(out@ =~= out@ + spec_enc_u64s_items(iv.skip(i as int)));
        }
    } else {
        proof {
            assert(iv.skip(i as int)[0] == v@[i as int] as int);
            assert(iv.skip(i as int).drop_first() =~= iv.skip(i + 1));
        }
        enc_u64(out, v[i] as u64);
        enc_u64s_from(out, v, i + 1);
        proof {
            assert(out@ =~= old(out)@ + spec_enc_u64s_items(iv.skip(i as int)));
        }
    }
}

/// Appends the encoding of an index list.
fn enc_u64s(out: &mut Vec<u8>, v: &Vec<usize>)
    ensures
        final(out)@ == old(out)@ + spec_enc_u64s(indices_view(v@)),
{
    let ghost iv = indices_view(v@);
    enc_u64(out, v.len() as u64);
    enc_u64s_from(out, v, 0);
    proof {
        assert(iv.skip(0) =~= iv);
        assert(out@ =~= old(out)@ + spec_enc_u64s(iv));
    }
}

/// Decodes `n` index items at `pos`.
#[verifier::rlimit(100)]
#[verifier::spinoff_prover]
fn dec_u64s_items(buf: &Vec<u8>, pos: usize, n: usize) -> (r: Option<(Vec<usize>, usize)>)
    requires
        pos <= buf@.len(),
    ensures
        match r {
            Some((v, p2)) => spec_dec_u64s_items(buf@.skip(pos as int), n as nat) == Some(
                (indices_view(v@), p2 - pos as int),
            ) && pos <= p2 <= buf@.len() && v@.len() == n,
            None => spec_dec_u64s_items(buf@.skip(pos as int), n as nat) is None,
        },
    decreases n,
{
    let ghost s = buf@.skip(pos as int);
    if n == 0 {
        let v: Vec<usize> = Vec::new();
        proof {
            assert(indices_view(v@) =~= Seq::<int>::empty());
        }
        return Some((v, pos));
    }
    match dec_u64(buf, pos) {
        None => None,
        Some((x, p1)) => {
            if x > usize::MAX as u64 {
                return None;
            }
            proof {
                assert(p1 <= buf@.len()) by {
                    assert(s.len() >= 20);
                    assert(buf@.len() - pos >= 20);
                }
                lemma_skip_skip(buf@, pos as int, 20);
            }
            match dec_u64s_items(buf, p1, n - 1) {
                None => None,
                Some((mut v, p2)) => {
                    let ghost rest_iv = indices_view(v@);
                    v.insert(0, x as usize);
                    proof {
                        assert(indices_view(v@) =~= Seq::empty().push(x as int) + rest_iv);
                    }
                    Some((v, p2))
                },
            }
        },
    }
}

/// Decoding of an unsigned number that must fit a machine index.
pub open spec fn spec_dec_usize(s: Seq<u8>) -> Option<(int, int)> {
    match spec_dec_u64(s) {
        Some((v, c)) => {
            if v <= usize::MAX {
                Some((v, c))
            } else {
                None
            }
        },
        None => None,
    }
}

/// Round trip of the machine-index encoding.
pub proof fn lemma_dec_enc_usize(n: int, rest: Seq<u8>)
    requires
        0 <= n <= usize::MAX,
    ensures
        spec_enc_u64(n).len() == 20,
        spec_dec_usize(spec_enc_u64(n) + rest) == Some((n, 20int)),
{
    assert(usize::MAX <= u64::MAX);
    lemma_dec_enc_u64(n, rest);
}

/// Decodes a machine index at `pos`.
fn dec_usize(buf: &Vec<u8>, pos: usize) -> (r: Option<(usize, usize)>)
    requires
        pos <= buf@.len(),
    ensures
        match r {
            Some((v, p2)) => spec_dec_usize(buf@.skip(pos as int)) == Some((v as int, 20int)) && p2
                == pos + 20 && pos < p2 <= buf@.len(),
            None => spec_dec_usize(buf@.skip(pos as int)) is None,
        },
{
    match dec_u64(buf, pos) {
        Some((v, p2)) => {
            if v <= usize::MAX as u64 {
                proof {
                    assert(buf@.skip(pos as int).len() >= 20);
                }
                Some((v as usize, p2))
            } else {
                None
            }
        },
        None => None,
    }
}

/// Encoding of the items of an index-pair list: two numbers each.
pub open spec fn spec_enc_prs_items(s: Seq<(int, int)>) -> Seq<u8>
    decreases s,
{
    if s.len() == 0 {
        Seq::empty()
    } else {
        spec_enc_u64(s[0].0) + spec_enc_u64(s[0].1) + spec_enc_prs_items(s.drop_first())
    }
}

/// Encoding of an index-pair list: its length, then its items.
pub open spec fn spec_enc_prs(s: Seq<(int, int)>) -> Seq<u8> {
    spec_enc_u64(s.len() as int) + spec_enc_prs_items(s)
}

/// Decoding of `n` index-pair items.
pub open spec fn spec_dec_prs_items(s: Seq<u8>, n: nat) -> Option<(Seq<(int, int)>, int)>
    decreases n,
{
    if n == 0 {
        Some((Seq::empty(), 0))
    } else {
        match spec_dec_usize(s) {
            None => None,
            Some((a, _)) => match spec_dec_usize(s.skip(20)) {
                None => None,
                Some((b, _)) => match spec_dec_prs_items(s.skip(40), (n - 1) as nat) {
                    None => None,
                    Some((rest, c2)) => Some((Seq::empty().push((a, b)) + rest, 40 + c2)),
                },
            },
        }
    }
}

/// Decoding of an index-pair list.
pub open spec fn spec_dec_prs(s: Seq<u8>) -> Option<(Seq<(int, int)>, int)> {
    match spec_dec_usize(s) {
        None => None,
        Some((n, c)) => match spec_dec_prs_items(s.skip(c), n as nat) {
            None => None,
            Some((items, c2)) => Some((items, c + c2)),
        },
    }
}

/// Whether an index-pair list is representable.
pub open spec fn prs_fits(s: Seq<(int, int)>) -> bool {
    s.len() <= usize::MAX && forall|k: int|
        0 <= k < s.len() ==> 0 <= #[trigger] s[k].0 <= usize::MAX && 0 <= s[k].1 <= usize::MAX
}

/// Round trip of the index-pair items.
proof fn lemma_dec_enc_prs_items(s: Seq<(int, int)>, rest: Seq<u8>)
    requires
        prs_fits(s),
    ensures
        spec_dec_prs_items(spec_enc_prs_items(s) + rest, s.len() as nat) == Some(
            (s, spec_enc_prs_items(s).len() as int),
        ),
    decreases s,
{
    if s.len() == 0 {
        assert(spec_enc_prs_items(s) + rest =~= rest);
        assert(Seq::empty() =~= s);
    } else {
        let whole = spec_enc_prs_items(s) + rest;
        let after_a = spec_enc_u64(s[0].1) + (spec_enc_prs_items(s.drop_first()) + rest);
        lemma_dec_enc_usize(s[0].0, after_a);
        assert(whole =~= spec_enc_u64(s[0].0) + after_a);
        assert(whole.skip(20) =~= after_a);
        lemma_dec_enc_usize(s[0].1, spec_enc_prs_items(s.drop_first()) + rest);
        assert(whole.skip(40) =~= spec_enc_prs_items(s.drop_first()) + rest) by {
            lemma_skip_skip(whole, 20, 20);
            assert(after_a.skip(20) =~= spec_enc_prs_items(s.drop_first()) + rest);
        }
        assert(prs_fits(s.drop_first()));
        lemma_dec_enc_prs_items(s.drop_first(), rest);
        assert(Seq::empty().push(s[0]) + s.drop_first() =~= s);
    }
}

/// Round trip of the index-pair list encoding.
pub proof fn lemma_dec_enc_prs(s: Seq<(int, int)>, rest: Seq<u8>)
    requires
        prs_fits(s),
    ensures
        spec_dec_prs(spec_enc_prs(s) + rest) == Some((s, spec_enc_prs(s).len() as int)),
{
    let whole = spec_enc_prs(s) + rest;
    lemma_dec_enc_usize(s.len() as int, spec_enc_prs_items(s) + rest);
    assert(whole =~= spec_enc_u64(s.len() as int) + (spec_enc_prs_items(s) + rest));
    assert(whole.skip(20) =~= spec_enc_prs_items(s) + rest);
    lemma_dec_enc_prs_items(s, rest);
}

/// Appends the items of an index-pair list from position `i` on.
fn enc_prs_from(out: &mut Vec<u8>, v: &Vec<(usize, usize)>, i: usize)
    requires
        i <= v@.len(),
    ensures
        final(out)@ == old(out)@ + spec_enc_prs_items(
            crate::circuit::pairs_view(v@).skip(i as int),
        ),
    decreases v@.len() - i,
{
    let ghost pv = crate::circuit::pairs_view(v@);
    if i == v.len() {
        proof {
            assert(pv.skip(i as int).len() == 0);
            assert(out@ =~= out@ + spec_enc_prs_items(pv.skip(i as int)));
        }
    } else {
        proof {
            assert(pv.skip(i as int)[0] == (v@[i as int].0 as int, v@[i as int].1 as int));
            assert(pv.skip(i as int).drop_first() =~= pv.skip(i + 1));
        }
        enc_u64(out, v[i].0 as u64);
        enc_u64(out, v[i].1 as u64);
        enc_prs_from(out, v, i + 1);
        proof {
            assert(out@ =~= old(out)@ + spec_enc_prs_items(pv.skip(i as int)));
        }
    }
}

/// Appends the encoding of an index-pair list.
fn enc_prs(out: &mut Vec<u8>, v: &Vec<(usize, usize)>)
    ensures
        final(out)@ == old(out)@ + spec_enc_prs(crate::circuit::pairs_view(v@)),
{
    let ghost pv = crate::circuit::pairs_view(v@);
    enc_u64(out, v.len() as u64);
    enc_prs_from(out, v, 0);
    proof {
        assert(pv.skip(0) =~= pv);
        assert(out@ =~= old(out)@ + spec_enc_prs(pv));
    }
}

/// Decodes `n` index-pair items at `pos`.
#[verifier::rlimit(100)]
#[verifier::spinoff_prover]
fn dec_prs_items(buf: &Vec<u8>, pos: usize, n: usize) -> (r: Option<(Vec<(usize, usize)>, usize)>)
    requires
        pos <= buf@.len(),
    ensures
        match r {
            Some((v, p2)) => spec_dec_prs_items(buf@.skip(pos as int), n as nat) == Some(
                (crate::circuit::pairs_view(v@), p2 - pos as int),
            ) && pos <= p2 <= buf@.len(),
            None => spec_dec_prs_items(buf@.skip(pos as int), n as nat) is None,
        },
    decreases n,
{
    let ghost s = buf@.skip(pos as int);
    if n == 0 {
        let v: Vec<(usize, usize)> = Vec::new();
        proof {
            assert(crate::circuit::pairs_view(v@) =~= Seq::<(int, int)>::empty());
        }
        return Some((v, pos));
    }
    match dec_usize(buf, pos) {
        None => None,
        Some((a, p1)) => {
            proof {
                lemma_skip_skip(buf@, pos as int, 20);
            }
            match dec_usize(buf, p1) {
                None => None,
                Some((b, p2)) => {
                    proof {
                        lemma_skip_skip(buf@, pos as int, 40);
                    }
                    match dec_prs_items(buf, p2, n - 1) {
                        None => None,
                        Some((mut v, p3)) => {
                            let ghost rest_pv = crate::circuit::pairs_view(v@);
                            v.insert(0, (a, b));
                            proof {
                                assert(crate::circuit::pairs_view(v@) =~= Seq::empty().push(
                                    (a as int, b as int),
                                ) + rest_pv);
                            }
                            Some((v, p3))
                        },
                    }
                },
            }
        },
    }
}

/// Encoding of the items of an amplitude list: two signed numbers each.
pub open spec fn spec_enc_amps_items(s: Seq<(int, int)>) -> Seq<u8>
    decreases s,
{
    if s.len() == 0 {
        Seq::empty()
    } else {
        spec_enc_i64(s[0].0) + spec_enc_i64(s[0].1) + spec_enc_amps_items(s.drop_first())
    }
}

/// Encoding of an amplitude list: its length, then its items.
pub open spec fn spec_enc_amps(s: Seq<(int, int)>) -> Seq<u8> {
    spec_enc_u64(s.len() as int) + spec_enc_amps_items(s)
}

/// Decoding of `n` amplitude items.
pub open spec fn spec_dec_amps_items(s: Seq<u8>, n: nat) -> Option<(Seq<(int, int)>, int)>
    decreases n,
{
    if n == 0 {
        Some((Seq::empty(), 0))
    } else {
        match spec_dec_i64(s) {
            None => None,
            Some((a, _)) => match spec_dec_i64(s.skip(21)) {
                None => None,
                Some((b, _)) => match spec_dec_amps_items(s.skip(42), (n - 1) as nat) {
                    None => None,
                    Some((rest, c2)) => Some((Seq::empty().push((a, b)) + rest, 42 + c2)),
                },
            },
        }
    }
}

/// Decoding of an amplitude list.
pub open spec fn spec_dec_amps(s: Seq<u8>) -> Option<(Seq<(int, int)>, int)> {
    match spec_dec_usize(s) {
        None => None,
        Some((n, c)) => match spec_dec_amps_items(s.skip(c), n as nat) {
            None => None,
            Some((items, c2)) => Some((items, c + c2)),
        },
    }
}

/// Whether an amplitude list is representable.
pub open spec fn amps_fits(s: Seq<(int, int)>) -> bool {
    s.len() <= usize::MAX && forall|k: int|
        0 <= k < s.len() ==> i64::MIN <= #[trigger] s[k].0 <= i64::MAX && i64::MIN <= s[k].1
            <= i64::MAX
}

/// Round trip of the amplitude items.
proof fn lemma_dec_enc_amps_items(s: Seq<(int, int)>, rest: Seq<u8>)
    requires
        amps_fits(s),
    ensures
        spec_dec_amps_items(spec_enc_amps_items(s) + rest, s.len() as nat) == Some(
            (s, spec_enc_amps_items(s).len() as int),
        ),
    decreases s,
{
    if s.len() == 0 {
        assert(spec_enc_amps_items(s) + rest =~= rest);
        assert(Seq::empty() =~= s);
    } else {
        let whole = spec_enc_amps_items(s) + rest;
        let after_a = spec_enc_i64(s[0].1) + (spec_enc_amps_items(s.drop_first()) + rest);
        lemma_dec_enc_i64(s[0].0, after_a);
        assert(whole =~= spec_enc_i64(s[0].0) + after_a);
        assert(whole.skip(21) =~= after_a);
        lemma_dec_enc_i64(s[0].1, spec_enc_amps_items(s.drop_first()) + rest);
        assert(whole.skip(42) =~= spec_enc_amps_items(s.drop_first()) + rest) by {
            lemma_skip_skip(whole, 21, 21);
            assert(after_a.skip(21) =~= spec_enc_amps_items(s.drop_first()) + rest);
        }
        assert(amps_fits(s.drop_first()));
        lemma_dec_enc_amps_items(s.drop_first(), rest);
        assert(Seq::empty().push(s[0]) + s.drop_first() =~= s);
    }
}

/// Round trip of the amplitude-list encoding.
pub proof fn lemma_dec_enc_amps(s: Seq<(int, int)>, rest: Seq<u8>)
    requires
        amps_fits(s),
    ensures
        spec_dec_amps(spec_enc_amps(s) + rest) == Some((s, spec_enc_amps(s).len() as int)),
{
    let whole = spec_enc_amps(s) + rest;
    lemma_dec_enc_usize(s.len() as int, spec_enc_amps_items(s) + rest);
    assert(whole =~= spec_enc_u64(s.len() as int) + (spec_enc_amps_items(s) + rest));
    assert(whole.skip(20) =~= spec_enc_amps_items(s) + rest);
    lemma_dec_enc_amps_items(s, rest);
}

/// Appends the items of an amplitude list from position `i` on.
fn enc_amps_from(out: &mut Vec<u8>, v: &Vec<Complexf>, i: usize)
    requires
        i <= v@.len(),
    ensures
        final(out)@ == old(out)@ + spec_enc_amps_items(
            crate::circuit::amplitudes_view(v@).skip(i as int),
        ),
    decreases v@.len() - i,
{
    let ghost av = crate::circuit::amplitudes_view(v@);
    if i == v.len() {
        proof {
            assert(av.skip(i as int).len() == 0);
            assert(out@ =~= out@ + spec_enc_amps_items(av.skip(i as int)));
        }
    } else {
        proof {
            assert(av.skip(i as int)[0] == (
                v@[i as int].re.units as int,
                v@[i as int].im.units as int,
            ));
            assert(av.skip(i as int).drop_first() =~= av.skip(i + 1));
        }
        enc_i64(out, v[i].re.units);
        enc_i64(out, v[i].im.units);
        enc_amps_from(out, v, i + 1);
        proof {
            assert(out@ =~= old(out)@ + spec_enc_amps_items(av.skip(i as int)));
        }
    }
}

/// Appends the encoding of an amplitude list.
fn enc_amps(out: &mut Vec<u8>, v: &Vec<Complexf>)
    ensures
        final(out)@ == old(out)@ + spec_enc_amps(crate::circuit::amplitudes_view(v@)),
{
    let ghost av = crate::circuit::amplitudes_view(v@);
    enc_u64(out, v.len() as u64);
    enc_amps_from(out, v, 0);
    proof {
        assert(av.skip(0) =~= av);
        assert(out@ =~= old(out)@ + spec_enc_amps(av));
    }
}

/// Decodes `n` amplitude items at `pos`.
#[verifier::rlimit(100)]
#[verifier::spinoff_prover]
fn dec_amps_items(buf: &Vec<u8>, pos: usize, n: usize) -> (r: Option<(Vec<Complexf>, usize)>)
    requires
        pos <= buf@.len(),
    ensures
        match r {
            Some((v, p2)) => spec_dec_amps_items(buf@.skip(pos as int), n as nat) == Some(
                (crate::circuit::amplitudes_view(v@), p2 - pos as int),
            ) && pos <= p2 <= buf@.len(),
            None => spec_dec_amps_items(buf@.skip(pos as int), n as nat) is None,
        },
    decreases n,
{
    let ghost s = buf@.skip(pos as int);
    if n == 0 {
        let v: Vec<Complexf> = Vec::new();
        proof {
            assert(crate::circuit::amplitudes_view(v@) =~= Seq::<(int, int)>::empty());
        }
        return Some((v, pos));
    }
    match dec_i64(buf, pos) {
        None => None,
        Some((a, p1)) => {
            proof {
                lemma_skip_skip(buf@, pos as int, 21);
            }
            match dec_i64(buf, p1) {
                None => None,
                Some((b, p2)) => {
                    proof {
                        lemma_skip_skip(buf@, pos as int, 42);
                    }
                    match dec_amps_items(buf, p2, n - 1) {
                        None => None,
                        Some((mut v, p3)) => {
                            let ghost rest_av = crate::circuit::amplitudes_view(v@);
                            v.insert(0, Complexf { re: Fixed { units: a }, im: Fixed { units: b } });
                            proof {
                                assert(crate::circuit::amplitudes_view(v@) =~= Seq::empty().push(
                                    (a as int, b as int),
                                ) + rest_av);
                            }
                            Some((v, p3))
                        },
                    }
                },
            }
        },
    }
}

/// Encoding of an optional index-pair list.
pub open spec fn spec_enc_opt_prs(o: Option<Seq<(int, int)>>) -> Seq<u8> {
    match o {
        None => Seq::empty().push(110u8),
        Some(m) => Seq::empty().push(115u8) + spec_enc_prs(m),
    }
}

/// Decoding of an optional index-pair list.
pub open spec fn spec_dec_opt_prs(s: Seq<u8>) -> Option<(Option<Seq<(int, int)>>, int)> {
    if s.len() < 1 {
        None
    } else if s[0] == 110u8 {
        Some((None, 1))
    } else if s[0] == 115u8 {
        match spec_dec_prs(s.skip(1)) {
            None => None,
            Some((m, c)) => Some((Some(m), 1 + c)),
        }
    } else {
        None
    }
}

/// Round trip of the optional index-pair list.
proof fn lemma_dec_enc_opt_prs(o: Option<Seq<(int, int)>>, rest: Seq<u8>)
    requires
        match o {
            Some(m) => prs_fits(m),
            None => true,
        },
    ensures
        spec_dec_opt_prs(spec_enc_opt_prs(o) + rest) == Some((o, spec_enc_opt_prs(o).len() as int)),
{
    let whole = spec_enc_opt_prs(o) + rest;
    match o {
        None => {
            assert(whole[0] == 110u8);
        },
        Some(m) => {
            assert(whole[0] == 115u8);
            assert(whole.skip(1) =~= spec_enc_prs(m) + rest);
            lemma_dec_enc_prs(m, rest);
        },
    }
}

/// Encoding of one operation: a one-byte tag, then its fields.
pub open spec fn spec_enc_op(op: SpecOp) -> Seq<u8>
    decreases op, 0nat,
{
    match op {
        SpecOp::Hadamard { qubit } => Seq::empty().push(65u8) + spec_enc_u64(qubit),
        SpecOp::PauliX { qubit } => Seq::empty().push(66u8) + spec_enc_u64(qubit),
        SpecOp::PauliY { qubit } => Seq::empty().push(67u8) + spec_enc_u64(qubit),
        SpecOp::PauliZ { qubit } => Seq::empty().push(68u8) + spec_enc_u64(qubit),
        SpecOp::SGate { qubit } => Seq::empty().push(69u8) + spec_enc_u64(qubit),
        SpecOp::CNOT { control, target } => Seq::empty().push(70u8) + spec_enc_u64(control)
            + spec_enc_u64(target),
        SpecOp::RotateX { qubit, theta } => Seq::empty().push(71u8) + spec_enc_u64(qubit)
            + spec_enc_expr(theta),
        SpecOp::RotateY { qubit, theta } => Seq::empty().push(72u8) + spec_enc_u64(qubit)
            + spec_enc_expr(theta),
        SpecOp::RotateZ { qubit, theta } => Seq::empty().push(73u8) + spec_enc_u64(qubit)
            + spec_enc_expr(theta),
        SpecOp::DefinitionBit { name, length, is_output } => Seq::empty().push(74u8)
            + spec_enc_bytes(name) + spec_enc_u64(length) + spec_enc_bool(is_output),
        SpecOp::DefinitionFloat { name, length, is_output } => Seq::empty().push(75u8)
            + spec_enc_bytes(name) + spec_enc_u64(length) + spec_enc_bool(is_output),
        SpecOp::DefinitionComplex { name, length, is_output } => Seq::empty().push(76u8)
            + spec_enc_bytes(name) + spec_enc_u64(length) + spec_enc_bool(is_output),
        SpecOp::MeasureQubit { qubit, readout, readout_index } => Seq::empty().push(77u8)
            + spec_enc_u64(qubit) + spec_enc_bytes(readout) + spec_enc_u64(readout_index),
        SpecOp::PragmaRepeatedMeasurement { readout, number_measurements, qubit_mapping } => {
            Seq::empty().push(78u8) + spec_enc_bytes(readout) + spec_enc_u64(number_measurements)
                + spec_enc_opt_prs(qubit_mapping)
        },
        SpecOp::PragmaSetNumberOfMeasurements { number_measurements, readout } => {
            Seq::empty().push(79u8) + spec_enc_u64(number_measurements) + spec_enc_bytes(readout)
        },
        SpecOp::PragmaSetStateVector { statevector } => Seq::empty().push(80u8) + spec_enc_amps(
            statevector,
        ),
        SpecOp::PragmaGetStateVector { readout, circuit } => Seq::empty().push(81u8)
            + spec_enc_bytes(readout) + spec_enc_opt_ops(circuit),
        SpecOp::PragmaConditional { condition_register, condition_index, circuit } => {
            Seq::empty().push(82u8) + spec_enc_bytes(condition_register) + spec_enc_u64(
                condition_index,
            ) + spec_enc_ops(circuit)
        },
    }
}

/// Encoding of the items of an operation sequence.
pub open spec fn spec_enc_ops_items(s: Seq<SpecOp>) -> Seq<u8>
    decreases s, 0nat,
{
    if s.len() == 0 {
        Seq::empty()
    } else {
        spec_enc_op(s[0]) + spec_enc_ops_items(s.drop_first())
    }
}

/// Encoding of an operation sequence: its length, then its items.
pub open spec fn spec_enc_ops(s: Seq<SpecOp>) -> Seq<u8>
    decreases s, 1nat,
{
    spec_enc_u64(s.len() as int) + spec_enc_ops_items(s)
}

/// Encoding of an optional operation sequence.
pub open spec fn spec_enc_opt_ops(o: Option<Seq<SpecOp>>) -> Seq<u8>
    decreases o, 0nat,
{
    match o {
        None => Seq::empty().push(110u8),
        Some(c) => Seq::empty().push(115u8) + spec_enc_ops(c),
    }
}

/// Decoding of one operation.
pub open spec fn spec_dec_op(s: Seq<u8>) -> Option<(SpecOp, int)>
    decreases s.len(), 0nat, 0nat,
{
    if s.len() < 1 {
        None
    } else {
        let t = s[0];
        let p = s.skip(1);
        if t == 65u8 || t == 66u8 || t == 67u8 || t == 68u8 || t == 69u8 {
            match spec_dec_usize(p) {
                None => None,
                Some((q, c)) => {
                    let op = if t == 65u8 {
                        SpecOp::Hadamard { qubit: q }
                    } else if t == 66u8 {
                        SpecOp::PauliX { qubit: q }
                    } else if t == 67u8 {
                        SpecOp::PauliY { qubit: q }
                    } else if t == 68u8 {
                        SpecOp::PauliZ { qubit: q }
                    } else {
                        SpecOp::SGate { qubit: q }
                    };
                    Some((op, 1 + c))
                },
            }
        } else if t == 70u8 {
            match spec_dec_usize(p) {
                None => None,
                Some((a, c1)) => match spec_dec_usize(p.skip(c1)) {
                    None => None,
                    Some((b, c2)) => Some((SpecOp::CNOT { control: a, target: b }, 1 + c1 + c2)),
                },
            }
        } else if t == 71u8 || t == 72u8 || t == 73u8 {
            match spec_dec_usize(p) {
                None => None,
                Some((q, c1)) => match spec_dec_expr(p.skip(c1)) {
                    None => None,
                    Some((theta, c2)) => {
                        let op = if t == 71u8 {
                            SpecOp::RotateX { qubit: q, theta }
                        } else if t == 72u8 {
                            SpecOp::RotateY { qubit: q, theta }
                        } else {
                            SpecOp::RotateZ { qubit: q, theta }
                        };
                        Some((op, 1 + c1 + c2))
                    },
                },
            }
        } else if t == 74u8 || t == 75u8 || t == 76u8 {
            match spec_dec_bytes(p) {
                None => None,
                Some((name, c1)) => match spec_dec_usize(p.skip(c1)) {
                    None => None,
                    Some((length, c2)) => match spec_dec_bool(p.skip(c1).skip(c2)) {
                        None => None,
                        Some((is_output, c3)) => {
                            let op = if t == 74u8 {
                                SpecOp::DefinitionBit { name, length, is_output }
                            } else if t == 75u8 {
                                SpecOp::DefinitionFloat { name, length, is_output }
                            } else {
                                SpecOp::DefinitionComplex { name, length, is_output }
                            };
                            Some((op, 1 + c1 + c2 + c3))
                        },
                    },
                },
            }
        } else if t == 77u8 {
            match spec_dec_usize(p) {
                None => None,
                Some((q, c1)) => match spec_dec_bytes(p.skip(c1)) {
                    None => None,
                    Some((readout, c2)) => match spec_dec_usize(p.skip(c1).skip(c2)) {
                        None => None,
                        Some((ri, c3)) => Some(
                            (
                                SpecOp::MeasureQubit {
                                    qubit: q,
                                    readout,
                                    readout_index: ri,
                                },
                                1 + c1 + c2 + c3,
                            ),
                        ),
                    },
                },
            }
        } else if t == 78u8 {
            match spec_dec_bytes(p) {
                None => None,
                Some((readout, c1)) => match spec_dec_usize(p.skip(c1)) {
                    None => None,
                    Some((nm, c2)) => match spec_dec_opt_prs(p.skip(c1).skip(c2)) {
                        None => None,
                        Some((m, c3)) => Some(
                            (
                                SpecOp::PragmaRepeatedMeasurement {
                                    readout,
                                    number_measurements: nm,
                                    qubit_mapping: m,
                                },
                                1 + c1 + c2 + c3,
                            ),
                        ),
                    },
                },
            }
        } else if t == 79u8 {
            match spec_dec_usize(p) {
                None => None,
                Some((nm, c1)) => match spec_dec_bytes(p.skip(c1)) {
                    None => None,
                    Some((readout, c2)) => Some(
                        (
                            SpecOp::PragmaSetNumberOfMeasurements {
                                number_measurements: nm,
                                readout,
                            },
                            1 + c1 + c2,
                        ),
                    ),
                },
            }
        } else if t == 80u8 {
            match spec_dec_amps(p) {
                None => None,
                Some((sv, c1)) => Some((SpecOp::PragmaSetStateVector { statevector: sv }, 1 + c1)),
            }
        } else if t == 81u8 {
            match spec_dec_bytes(p) {
                None => None,
                Some((readout, c1)) => {
                    if 0 < c1 <= p.len() {
                        match spec_dec_opt_ops(p.skip(c1)) {
                            None => None,
                            Some((c, c2)) => Some(
                                (SpecOp::PragmaGetStateVector { readout, circuit: c }, 1 + c1 + c2),
                            ),
                        }
                    } else {
                        None
                    }
                },
            }
        } else if t == 82u8 {
            match spec_dec_bytes(p) {
                None => None,
                Some((name, c1)) => match spec_dec_usize(p.skip(c1)) {
                    None => None,
                    Some((ci, c2)) => {
                        if 0 < c1 + c2 <= p.len() {
                            match spec_dec_ops(p.skip(c1 + c2)) {
                                None => None,
                                Some((circuit, c3)) => Some(
                                    (
                                        SpecOp::PragmaConditional {
                                            condition_register: name,
                                            condition_index: ci,
                                            circuit,
                                        },
                                        1 + c1 + c2 + c3,
                                    ),
                                ),
                            }
                        } else {
                            None
                        }
                    },
                },
            }
        } else {
            None
        }
    }
}

/// Decoding of `n` operation items.
pub open spec fn spec_dec_ops_items(s: Seq<u8>, n: nat) -> Option<(Seq<SpecOp>, int)>
    decreases s.len(), 1nat, n,
{
    if n == 0 {
        Some((Seq::empty(), 0))
    } else {
        match spec_dec_op(s) {
            None => None,
            Some((op, c)) => {
                if 0 < c <= s.len() {
                    match spec_dec_ops_items(s.skip(c), (n - 1) as nat) {
                        None => None,
                        Some((rest, c2)) => Some((Seq::empty().push(op) + rest, c + c2)),
                    }
                } else {
                    None
                }
            },
        }
    }
}

/// Decoding of an operation sequence.
pub open spec fn spec_dec_ops(s: Seq<u8>) -> Option<(Seq<SpecOp>, int)>
    decreases s.len(), 2nat, 0nat,
{
    match spec_dec_usize(s) {
        None => None,
        Some((n, c)) => {
            if 0 < c <= s.len() {
                match spec_dec_ops_items(s.skip(c), n as nat) {
                    None => None,
                    Some((items, c2)) => Some((items, c + c2)),
                }
            } else {
                None
            }
        },
    }
}

/// Decoding of an optional operation sequence.
pub open spec fn spec_dec_opt_ops(s: Seq<u8>) -> Option<(Option<Seq<SpecOp>>, int)>
    decreases s.len(), 3nat, 0nat,
{
    if s.len() < 1 {
        None
    } else if s[0] == 110u8 {
        Some((None, 1))
    } else if s[0] == 115u8 {
        match spec_dec_ops(s.skip(1)) {
            None => None,
            Some((c, c1)) => Some((Some(c), 1 + c1)),
        }
    } else {
        None
    }
}

/// Whether an operation's numbers and names are representable.
pub open spec fn op_fits(op: SpecOp) -> bool
    decreases op,
{
    match op {
        SpecOp::Hadamard { qubit } => 0 <= qubit <= usize::MAX,
        SpecOp::PauliX { qubit } => 0 <= qubit <= usize::MAX,
        SpecOp::PauliY { qubit } => 0 <= qubit <= usize::MAX,
        SpecOp::PauliZ { qubit } => 0 <= qubit <= usize::MAX,
        SpecOp::SGate { qubit } => 0 <= qubit <= usize::MAX,
        SpecOp::CNOT { control, target } => 0 <= control <= usize::MAX && 0 <= target
            <= usize::MAX,
        SpecOp::RotateX { qubit, theta } => 0 <= qubit <= usize::MAX && expr_fits(theta),
        SpecOp::RotateY { qubit, theta } => 0 <= qubit <= usize::MAX && expr_fits(theta),
        SpecOp::RotateZ { qubit, theta } => 0 <= qubit <= usize::MAX && expr_fits(theta),
        SpecOp::DefinitionBit { name, length, .. } => name.len() <= u64::MAX && 0 <= length
            <= usize::MAX,
        SpecOp::DefinitionFloat { name, length, .. } => name.len() <= u64::MAX && 0 <= length
            <= usize::MAX,
        SpecOp::DefinitionComplex { name, length, .. } => name.len() <= u64::MAX && 0 <= length
            <= usize::MAX,
        SpecOp::MeasureQubit { qubit, readout, readout_index } => 0 <= qubit <= usize::MAX
            && readout.len() <= u64::MAX && 0 <= readout_index <= usize::MAX,
        SpecOp::PragmaRepeatedMeasurement { readout, number_measurements, qubit_mapping } => {
            readout.len() <= u64::MAX && 0 <= number_measurements <= usize::MAX && match qubit_mapping {
                Some(m) => prs_fits(m),
                None => true,
            }
        },
        SpecOp::PragmaSetNumberOfMeasurements { number_measurements, readout } => readout.len()
            <= u64::MAX && 0 <= number_measurements <= usize::MAX,
        SpecOp::PragmaSetStateVector { statevector } => amps_fits(statevector),
        SpecOp::PragmaGetStateVector { readout, circuit } => readout.len() <= u64::MAX
            && match circuit {
            Some(c) => ops_fits(c),
            None => true,
        },
        SpecOp::PragmaConditional { condition_register, condition_index, circuit } => {
            condition_register.len() <= u64::MAX && 0 <= condition_index <= usize::MAX && ops_fits(
                circuit,
            )
        },
    }
}

/// Whether an operation sequence is representable.
pub open spec fn ops_fits(s: Seq<SpecOp>) -> bool
    decreases s,
{
    if s.len() == 0 {
        true
    } else {
        s.len() <= usize::MAX && op_fits(s[0]) && ops_fits(s.drop_first())
    }
}

/// Round trip of the operation encoding.
pub proof fn lemma_dec_enc_op(op: SpecOp, rest: Seq<u8>)
    requires
        op_fits(op),
    ensures
        spec_enc_op(op).len() >= 1,
        spec_dec_op(spec_enc_op(op) + rest) == Some((op, spec_enc_op(op).len() as int)),
    decreases op, 1nat,
{
    match op {
        SpecOp::Hadamard { .. } => lemma_dec_enc_op_hadamard(op, rest),
        SpecOp::PauliX { .. } => lemma_dec_enc_op_paulix(op, rest),
        SpecOp::PauliY { .. } => lemma_dec_enc_op_pauliy(op, rest),
        SpecOp::PauliZ { .. } => lemma_dec_enc_op_pauliz(op, rest),
        SpecOp::SGate { .. } => lemma_dec_enc_op_sgate(op, rest),
        SpecOp::CNOT { .. } => lemma_dec_enc_op_cnot(op, rest),
        SpecOp::RotateX { .. } => lemma_dec_enc_op_rotatex(op, rest),
        SpecOp::RotateY { .. } => lemma_dec_enc_op_rotatey(op, rest),
        SpecOp::RotateZ { .. } => lemma_dec_enc_op_rotatez(op, rest),
        SpecOp::DefinitionBit { .. } => lemma_dec_enc_op_definitionbit(op, rest),
        SpecOp::DefinitionFloat { .. } => lemma_dec_enc_op_definitionfloat(op, rest),
        SpecOp::DefinitionComplex { .. } => lemma_dec_enc_op_definitioncomplex(op, rest),
        SpecOp::MeasureQubit { .. } => lemma_dec_enc_op_measurequbit(op, rest),
        SpecOp::PragmaRepeatedMeasurement { .. } => lemma_dec_enc_op_pragmarepeatedmeasurement(op, rest),
        SpecOp::PragmaSetNumberOfMeasurements { .. } => lemma_dec_enc_op_pragmasetnumberofmeasurements(op, rest),
        SpecOp::PragmaSetStateVector { .. } => lemma_dec_enc_op_pragmasetstatevector(op, rest),
        SpecOp::PragmaGetStateVector { .. } => lemma_dec_enc_op_pragmagetstatevector(op, rest),
        SpecOp::PragmaConditional { .. } => lemma_dec_enc_op_pragmaconditional(op, rest),
    }
}

/// Helper for `lemma_dec_enc_op`.
#[verifier::rlimit(100)]
#[verifier::spinoff_prover]
proof fn lemma_dec_enc_op_hadamard(op: SpecOp, rest: Seq<u8>)
    requires
        op_fits(op),
        op matches SpecOp::Hadamard { .. },
    ensures
        spec_enc_op(op).len() >= 1,
        spec_dec_op(spec_enc_op(op) + rest) == Some((op, spec_enc_op(op).len() as int)),
    decreases op, 0nat,
{
    let s = spec_enc_op(op) + rest;
    let p = s.skip(1);
    match op {
        SpecOp::Hadamard { qubit } => {
            assert(p =~= spec_enc_u64(qubit) + rest);
            lemma_dec_enc_usize(qubit, rest);
        },
        _ => {
            assert(false);
        },
    }
}

/// Helper for `lemma_dec_enc_op`.
#[verifier::rlimit(100)]
#[verifier::spinoff_prover]
proof fn lemma_dec_enc_op_paulix(op: SpecOp, rest: Seq<u8>)
    requires
        op_fits(op),
        op matches SpecOp::PauliX { .. },
    ensures
        spec_enc_op(op).len() >= 1,
        spec_dec_op(spec_enc_op(op) + rest) == Some((op, spec_enc_op(op).len() as int)),
    decreases op, 0nat,
{
    let s = spec_enc_op(op) + rest;
    let p = s.skip(1);
    match op {
        SpecOp::PauliX { qubit } => {
            assert(p =~= spec_enc_u64(qubit) + rest);
            lemma_dec_enc_usize(qubit, rest);
        },
        _ => {
            assert(false);
        },
    }
}

/// Helper for `lemma_dec_enc_op`.
#[verifier::rlimit(100)]
#[verifier::spinoff_prover]
proof fn lemma_dec_enc_op_pauliy(op: SpecOp, rest: Seq<u8>)
    requires
        op_fits(op),
        op matches SpecOp::PauliY { .. },
    ensures
        spec_enc_op(op).len() >= 1,
        spec_dec_op(spec_enc_op(op) + rest) == Some((op, spec_enc_op(op).len() as int)),
    decreases op, 0nat,
{
    let s = spec_enc_op(op) + rest;
    let p = s.skip(1);
    match op {
        SpecOp::PauliY { qubit } => {
            assert(p =~= spec_enc_u64(qubit) + rest);
            lemma_dec_enc_usize(qubit, rest);
        },
        _ => {
            assert(false);
        },
    }
}

/// Helper for `lemma_dec_enc_op`.
#[verifier::rlimit(100)]
#[verifier::spinoff_prover]
proof fn lemma_dec_enc_op_pauliz(op: SpecOp, rest: Seq<u8>)
    requires
        op_fits(op),
        op matches SpecOp::PauliZ { .. },
    ensures
        spec_enc_op(op).len() >= 1,
        spec_dec_op(spec_enc_op(op) + rest) == Some((op, spec_enc_op(op).len() as int)),
    decreases op, 0nat,
{
    let s = spec_enc_op(op) + rest;
    let p = s.skip(1);
    match op {
        SpecOp::PauliZ { qubit } => {
            assert(p =~= spec_enc_u64(qubit) + rest);
            lemma_dec_enc_usize(qubit, rest);
        },
        _ => {
            assert(false);
        },
    }
}

/// Helper for `lemma_dec_enc_op`.
#[verifier::rlimit(100)]
#[verifier::spinoff_prover]
proof fn lemma_dec_enc_op_sgate(op: SpecOp, rest: Seq<u8>)
    requires
        op_fits(op),
        op matches SpecOp::SGate { .. },
    ensures
        spec_enc_op(op).len() >= 1,
        spec_dec_op(spec_enc_op(op) + rest) == Some((op, spec_enc_op(op).len() as int)),
    decreases op, 0nat,
{
    let s = spec_enc_op(op) + rest;
    let p = s.skip(1);
    match op {
        SpecOp::SGate { qubit } => {
            assert(p =~= spec_enc_u64(qubit) + rest);
            lemma_dec_enc_usize(qubit, rest);
        },
        _ => {
            assert(false);
        },
    }
}

/// Helper for `lemma_dec_enc_op`.
#[verifier::rlimit(100)]
#[verifier::spinoff_prover]
proof fn lemma_dec_enc_op_cnot(op: SpecOp, rest: Seq<u8>)
    requires
        op_fits(op),
        op matches SpecOp::CNOT { .. },
    ensures
        spec_enc_op(op).len() >= 1,
        spec_dec_op(spec_enc_op(op) + rest) == Some((op, spec_enc_op(op).len() as int)),
    decreases op, 0nat,
{
    let s = spec_enc_op(op) + rest;
    let p = s.skip(1);
    match op {
        SpecOp::CNOT { control, target } => {
            assert(p =~= spec_enc_u64(control) + (spec_enc_u64(target) + rest));
            lemma_dec_enc_usize(control, spec_enc_u64(target) + rest);
            assert(p.skip(20) =~= spec_enc_u64(target) + rest);
            lemma_dec_enc_usize(target, rest);
        },
        _ => {
            assert(false);
        },
    }
}

/// Helper for `lemma_dec_enc_op`.
#[verifier::rlimit(100)]
#[verifier::spinoff_prover]
proof fn lemma_dec_enc_op_rotatex(op: SpecOp, rest: Seq<u8>)
    requires
        op_fits(op),
        op matches SpecOp::RotateX { .. },
    ensures
        spec_enc_op(op).len() >= 1,
        spec_dec_op(spec_enc_op(op) + rest) == Some((op, spec_enc_op(op).len() as int)),
    decreases op, 0nat,
{
    let s = spec_enc_op(op) + rest;
    let p = s.skip(1);
    match op {
        SpecOp::RotateX { qubit, theta } => {
            assert(p =~= spec_enc_u64(qubit) + (spec_enc_expr(theta) + rest));
            lemma_dec_enc_usize(qubit, spec_enc_expr(theta) + rest);
            assert(p.skip(20) =~= spec_enc_expr(theta) + rest);
            lemma_dec_enc_expr(theta, rest);
        },
        _ => {
            assert(false);
        },
    }
}

/// Helper for `lemma_dec_enc_op`.
#[verifier::rlimit(100)]
#[verifier::spinoff_prover]
proof fn lemma_dec_enc_op_rotatey(op: SpecOp, rest: Seq<u8>)
    requires
        op_fits(op),
        op matches SpecOp::RotateY { .. },
    ensures
        spec_enc_op(op).len() >= 1,
        spec_dec_op(spec_enc_op(op) + rest) == Some((op, spec_enc_op(op).len() as int)),
    decreases op, 0nat,
{
    let s = spec_enc_op(op) + rest;
    let p = s.skip(1);
    match op {
        SpecOp::RotateY { qubit, theta } => {
            assert(p =~= spec_enc_u64(qubit) + (spec_enc_expr(theta) + rest));
            lemma_dec_enc_usize(qubit, spec_enc_expr(theta) + rest);
            assert(p.skip(20) =~= spec_enc_expr(theta) + rest);
            lemma_dec_enc_expr(theta, rest);
        },
        _ => {
            assert(false);
        },
    }
}

/// Helper for `lemma_dec_enc_op`.
#[verifier::rlimit(100)]
#[verifier::spinoff_prover]
proof fn lemma_dec_enc_op_rotatez(op: SpecOp, rest: Seq<u8>)
    requires
        op_fits(op),
        op matches SpecOp::RotateZ { .. },
    ensures
        spec_enc_op(op).len() >= 1,
        spec_dec_op(spec_enc_op(op) + rest) == Some((op, spec_enc_op(op).len() as int)),
    decreases op, 0nat,
{
    let s = spec_enc_op(op) + rest;
    let p = s.skip(1);
    match op {
        SpecOp::RotateZ { qubit, theta } => {
            assert(p =~= spec_enc_u64(qubit) + (spec_enc_expr(theta) + rest));
            lemma_dec_enc_usize(qubit, spec_enc_expr(theta) + rest);
            assert(p.skip(20) =~= spec_enc_expr(theta) + rest);
            lemma_dec_enc_expr(theta, rest);
        },
        _ => {
            assert(false);
        },
    }
}

/// Helper for `lemma_dec_enc_op`.
#[verifier::rlimit(100)]
#[verifier::spinoff_prover]
proof fn lemma_dec_enc_op_definitionbit(op: SpecOp, rest: Seq<u8>)
    requires
        op_fits(op),
        op matches SpecOp::DefinitionBit { .. },
    ensures
        spec_enc_op(op).len() >= 1,
        spec_dec_op(spec_enc_op(op) + rest) == Some((op, spec_enc_op(op).len() as int)),
    decreases op, 0nat,
{
    let s = spec_enc_op(op) + rest;
    let p = s.skip(1);
    match op {
        SpecOp::DefinitionBit { name, length, is_output } => {
            assert(p =~= spec_enc_bytes(name) + spec_enc_u64(length) + spec_enc_bool(is_output)
                + rest);
            lemma_dec_enc_def(name, length, is_output, p, rest);
        },
        _ => {
            assert(false);
        },
    }
}

/// Helper for `lemma_dec_enc_op`.
#[verifier::rlimit(100)]
#[verifier::spinoff_prover]
proof fn lemma_dec_enc_op_definitionfloat(op: SpecOp, rest: Seq<u8>)
    requires
        op_fits(op),
        op matches SpecOp::DefinitionFloat { .. },
    ensures
        spec_enc_op(op).len() >= 1,
        spec_dec_op(spec_enc_op(op) + rest) == Some((op, spec_enc_op(op).len() as int)),
    decreases op, 0nat,
{
    let s = spec_enc_op(op) + rest;
    let p = s.skip(1);
    match op {
        SpecOp::DefinitionFloat { name, length, is_output } => {
            assert(p =~= spec_enc_bytes(name) + spec_enc_u64(length) + spec_enc_bool(is_output)
                + rest);
            lemma_dec_enc_def(name, length, is_output, p, rest);
        },
        _ => {
            assert(false);
        },
    }
}

/// Helper for `lemma_dec_enc_op`.
#[verifier::rlimit(100)]
#[verifier::spinoff_prover]
proof fn lemma_dec_enc_op_definitioncomplex(op: SpecOp, rest: Seq<u8>)
    requires
        op_fits(op),
        op matches SpecOp::DefinitionComplex { .. },
    ensures
        spec_enc_op(op).len() >= 1,
        spec_dec_op(spec_enc_op(op) + rest) == Some((op, spec_enc_op(op).len() as int)),
    decreases op, 0nat,
{
    let s = spec_enc_op(op) + rest;
    let p = s.skip(1);
    match op {
        SpecOp::DefinitionComplex { name, length, is_output } => {
            assert(p =~= spec_enc_bytes(name) + spec_enc_u64(length) + spec_enc_bool(is_output)
                + rest);
            lemma_dec_enc_def(name, length, is_output, p, rest);
        },
        _ => {
            assert(false);
        },
    }
}

/// Helper for `lemma_dec_enc_op`.
#[verifier::rlimit(100)]
#[verifier::spinoff_prover]
proof fn lemma_dec_enc_op_measurequbit(op: SpecOp, rest: Seq<u8>)
    requires
        op_fits(op),
        op matches SpecOp::MeasureQubit { .. },
    ensures
        spec_enc_op(op).len() >= 1,
        spec_dec_op(spec_enc_op(op) + rest) == Some((op, spec_enc_op(op).len() as int)),
    decreases op, 0nat,
{
    let s = spec_enc_op(op) + rest;
    let p = s.skip(1);
    match op {
        SpecOp::MeasureQubit { qubit, readout, readout_index } => {
            let t2 = spec_enc_bytes(readout) + (spec_enc_u64(readout_index) + rest);
            assert(p =~= spec_enc_u64(qubit) + t2);
            lemma_dec_enc_usize(qubit, t2);
            assert(p.skip(20) =~= t2);
            lemma_dec_enc_bytes(readout, spec_enc_u64(readout_index) + rest);
            let c2 = spec_enc_bytes(readout).len() as int;
            assert(p.skip(20).skip(c2) =~= spec_enc_u64(readout_index) + rest);
            lemma_dec_enc_usize(readout_index, rest);
        },
        _ => {
            assert(false);
        },
    }
}

/// Helper for `lemma_dec_enc_op`.
#[verifier::rlimit(100)]
#[verifier::spinoff_prover]
proof fn lemma_dec_enc_op_pragmarepeatedmeasurement(op: SpecOp, rest: Seq<u8>)
    requires
        op_fits(op),
        op matches SpecOp::PragmaRepeatedMeasurement { .. },
    ensures
        spec_enc_op(op).len() >= 1,
        spec_dec_op(spec_enc_op(op) + rest) == Some((op, spec_enc_op(op).len() as int)),
    decreases op, 0nat,
{
    let s = spec_enc_op(op) + rest;
    let p = s.skip(1);
    match op {
        SpecOp::PragmaRepeatedMeasurement { readout, number_measurements, qubit_mapping } => {
            let t2 = spec_enc_u64(number_measurements) + (spec_enc_opt_prs(qubit_mapping) + rest);
            assert(p =~= spec_enc_bytes(readout) + t2);
            lemma_dec_enc_bytes(readout, t2);
            let c1 = spec_enc_bytes(readout).len() as int;
            assert(p.skip(c1) =~= t2);
            lemma_dec_enc_usize(number_measurements, spec_enc_opt_prs(qubit_mapping) + rest);
            assert(p.skip(c1).skip(20) =~= spec_enc_opt_prs(qubit_mapping) + rest);
            lemma_dec_enc_opt_prs(qubit_mapping, rest);
        },
        _ => {
            assert(false);
        },
    }
}

/// Helper for `lemma_dec_enc_op`.
#[verifier::rlimit(100)]
#[verifier::spinoff_prover]
proof fn lemma_dec_enc_op_pragmasetnumberofmeasurements(op: SpecOp, rest: Seq<u8>)
    requires
        op_fits(op),
        op matches SpecOp::PragmaSetNumberOfMeasurements { .. },
    ensures
        spec_enc_op(op).len() >= 1,
        spec_dec_op(spec_enc_op(op) + rest) == Some((op, spec_enc_op(op).len() as int)),
    decreases op, 0nat,
{
    let s = spec_enc_op(op) + rest;
    let p = s.skip(1);
    match op {
        SpecOp::PragmaSetNumberOfMeasurements { number_measurements, readout } => {
            assert(p =~= spec_enc_u64(number_measurements) + (spec_enc_bytes(readout) + rest));
            lemma_dec_enc_usize(number_measurements, spec_enc_bytes(readout) + rest);
            assert(p.skip(20) =~= spec_enc_bytes(readout) + rest);
            lemma_dec_enc_bytes(readout, rest);
        },
        _ => {
            assert(false);
        },
    }
}

/// Helper for `lemma_dec_enc_op`.
#[verifier::rlimit(100)]
#[verifier::spinoff_prover]
proof fn lemma_dec_enc_op_pragmasetstatevector(op: SpecOp, rest: Seq<u8>)
    requires
        op_fits(op),
        op matches SpecOp::PragmaSetStateVector { .. },
    ensures
        spec_enc_op(op).len() >= 1,
        spec_dec_op(spec_enc_op(op) + rest) == Some((op, spec_enc_op(op).len() as int)),
    decreases op, 0nat,
{
    let s = spec_enc_op(op) + rest;
    let p = s.skip(1);
    match op {
        SpecOp::PragmaSetStateVector { statevector } => {
            assert(p =~= spec_enc_amps(statevector) + rest);
            lemma_dec_enc_amps(statevector, rest);
        },
        _ => {
            assert(false);
        },
    }
}

/// Helper for `lemma_dec_enc_op`.
#[verifier::rlimit(100)]
#[verifier::spinoff_prover]
proof fn lemma_dec_enc_op_pragmagetstatevector(op: SpecOp, rest: Seq<u8>)
    requires
        op_fits(op),
        op matches SpecOp::PragmaGetStateVector { .. },
    ensures
        spec_enc_op(op).len() >= 1,
        spec_dec_op(spec_enc_op(op) + rest) == Some((op, spec_enc_op(op).len() as int)),
    decreases op, 0nat,
{
    let s = spec_enc_op(op) + rest;
    let p = s.skip(1);
    match op {
        SpecOp::PragmaGetStateVector { readout, circuit } => {
            assert(p =~= spec_enc_bytes(readout) + (spec_enc_opt_ops(circuit) + rest));
            lemma_dec_enc_bytes(readout, spec_enc_opt_ops(circuit) + rest);
            let c1 = spec_enc_bytes(readout).len() as int;
            assert(p.skip(c1) =~= spec_enc_opt_ops(circuit) + rest);
            lemma_dec_enc_opt_ops(circuit, rest);
            assert(0 < c1 <= p.len());
        },
        _ => {
            assert(false);
        },
    }
}

/// Helper for `lemma_dec_enc_op`.
#[verifier::rlimit(100)]
#[verifier::spinoff_prover]
proof fn lemma_dec_enc_op_pragmaconditional(op: SpecOp, rest: Seq<u8>)
    requires
        op_fits(op),
        op matches SpecOp::PragmaConditional { .. },
    ensures
        spec_enc_op(op).len() >= 1,
        spec_dec_op(spec_enc_op(op) + rest) == Some((op, spec_enc_op(op).len() as int)),
    decreases op, 0nat,
{
    let s = spec_enc_op(op) + rest;
    let p = s.skip(1);
    match op {
        SpecOp::PragmaConditional { condition_register, condition_index, circuit } => {
            assert(p =~= spec_enc_bytes(condition_register) + spec_enc_u64(condition_index)
                + spec_enc_ops(circuit) + rest);
            lemma_dec_enc_cond_payload(condition_register, condition_index, circuit, p, rest);
        },
        _ => {
            assert(false);
        },
    }
}

/// Helper: round trip of a conditional-pragma payload.
proof fn lemma_dec_enc_cond_payload(
    name: Seq<u8>,
    ci: int,
    circuit: Seq<SpecOp>,
    p: Seq<u8>,
    rest: Seq<u8>,
)
    requires
        name.len() <= u64::MAX,
        0 <= ci <= usize::MAX,
        ops_fits(circuit),
        p == spec_enc_bytes(name) + spec_enc_u64(ci) + spec_enc_ops(circuit) + rest,
    ensures
        ({
            let c1 = spec_enc_bytes(name).len() as int;
            let c3 = spec_enc_ops(circuit).len() as int;
            &&& c1 == 20 + name.len()
            &&& c3 >= 20
            &&& spec_dec_bytes(p) == Some((name, c1))
            &&& spec_dec_usize(p.skip(c1)) == Some((ci, 20int))
            &&& 0 < c1 + 20 <= p.len()
            &&& spec_dec_ops(p.skip(c1 + 20)) == Some((circuit, c3))
            &&& p.len() == c1 + 20 + c3 + rest.len()
        }),
    decreases circuit, 3nat,
{
    let t2 = spec_enc_u64(ci) + (spec_enc_ops(circuit) + rest);
    assert(p =~= spec_enc_bytes(name) + t2);
    lemma_dec_enc_bytes(name, t2);
    let c1 = spec_enc_bytes(name).len() as int;
    assert(p.skip(c1) =~= t2);
    lemma_dec_enc_usize(ci, spec_enc_ops(circuit) + rest);
    assert(p.skip(c1 + 20) =~= spec_enc_ops(circuit) + rest) by {
        lemma_skip_skip(p, c1, 20);
        assert(p.skip(c1).skip(20) =~= spec_enc_ops(circuit) + rest);
    }
    lemma_dec_enc_ops(circuit, rest);
}

/// Helper: round trip of a register-definition payload.
proof fn lemma_dec_enc_def(name: Seq<u8>, length: int, is_output: bool, p: Seq<u8>, rest: Seq<u8>)
    requires
        name.len() <= u64::MAX,
        0 <= length <= usize::MAX,
        p == spec_enc_bytes(name) + spec_enc_u64(length) + spec_enc_bool(is_output) + rest,
    ensures
        ({
            let c1 = spec_enc_bytes(name).len() as int;
            &&& c1 == 20 + name.len()
            &&& spec_enc_u64(length).len() == 20
            &&& spec_enc_bool(is_output).len() == 1
            &&& spec_dec_bytes(p) == Some((name, c1))
            &&& spec_dec_usize(p.skip(c1)) == Some((length, 20int))
            &&& spec_dec_bool(p.skip(c1).skip(20)) == Some((is_output, 1int))
        }),
{
    let t2 = spec_enc_u64(length) + (spec_enc_bool(is_output) + rest);
    assert(p =~= spec_enc_bytes(name) + t2);
    lemma_dec_enc_bytes(name, t2);
    let c1 = spec_enc_bytes(name).len() as int;
    assert(p.skip(c1) =~= t2);
    lemma_dec_enc_usize(length, spec_enc_bool(is_output) + rest);
    assert(p.skip(c1).skip(20) =~= spec_enc_bool(is_output) + rest);
    lemma_dec_enc_bool(is_output, rest);
}

/// Round trip of the operation items.
pub proof fn lemma_dec_enc_ops_items(s: Seq<SpecOp>, rest: Seq<u8>)
    requires
        ops_fits(s),
    ensures
        spec_dec_ops_items(spec_enc_ops_items(s) + rest, s.len() as nat) == Some(
            (s, spec_enc_ops_items(s).len() as int),
        ),
    decreases s, 1nat,
{
    if s.len() == 0 {
        assert(spec_enc_ops_items(s) + rest =~= rest);
        assert(Seq::empty() =~= s);
    } else {
        let whole = spec_enc_ops_items(s) + rest;
        lemma_dec_enc_op(s[0], spec_enc_ops_items(s.drop_first()) + rest);
        let c = spec_enc_op(s[0]).len() as int;
        assert(whole =~= spec_enc_op(s[0]) + (spec_enc_ops_items(s.drop_first()) + rest));
        assert(whole.skip(c) =~= spec_enc_ops_items(s.drop_first()) + rest);
        lemma_dec_enc_ops_items(s.drop_first(), rest);
        assert(Seq::empty().push(s[0]) + s.drop_first() =~= s);
        assert(0 < c <= whole.len());
    }
}

/// Round trip of the operation-sequence encoding.
pub proof fn lemma_dec_enc_ops(s: Seq<SpecOp>, rest: Seq<u8>)
    requires
        ops_fits(s),
    ensures
        spec_enc_ops(s).len() >= 20,
        spec_dec_ops(spec_enc_ops(s) + rest) == Some((s, spec_enc_ops(s).len() as int)),
    decreases s, 2nat,
{
    let whole = spec_enc_ops(s) + rest;
    lemma_dec_enc_usize(s.len() as int, spec_enc_ops_items(s) + rest);
    assert(whole =~= spec_enc_u64(s.len() as int) + (spec_enc_ops_items(s) + rest));
    assert(whole.skip(20) =~= spec_enc_ops_items(s) + rest);
    lemma_dec_enc_ops_items(s, rest);
}

/// Round trip of the optional operation sequence.
pub proof fn lemma_dec_enc_opt_ops(o: Option<Seq<SpecOp>>, rest: Seq<u8>)
    requires
        match o {
            Some(c) => ops_fits(c),
            None => true,
        },
    ensures
        spec_enc_opt_ops(o).len() >= 1,
        spec_dec_opt_ops(spec_enc_opt_ops(o) + rest) == Some(
            (o, spec_enc_opt_ops(o).len() as int),
        ),
    decreases o, 0nat,
{
    let whole = spec_enc_opt_ops(o) + rest;
    match o {
        None => {
            assert(whole[0] == 110u8);
        },
        Some(c) => {
            assert(whole[0] == 115u8);
            assert(whole.skip(1) =~= spec_enc_ops(c) + rest);
            lemma_dec_enc_ops(c, rest);
        },
    }
}

/// Appends the encoding of one operation.
fn enc_op(out: &mut Vec<u8>, op: &Operation)
    ensures
        final(out)@ == old(out)@ + spec_enc_op(op@),
    decreases *op, 0nat,
{
    match op {
        Operation::Hadamard { qubit } => {
            out.push(65u8);
            enc_u64(out, *qubit as u64);
        },
        Operation::PauliX { qubit } => {
            out.push(66u8);
            enc_u64(out, *qubit as u64);
        },
        Operation::PauliY { qubit } => {
            out.push(67u8);
            enc_u64(out, *qubit as u64);
        },
        Operation::PauliZ { qubit } => {
            out.push(68u8);
            enc_u64(out, *qubit as u64);
        },
        Operation::SGate { qubit } => {
            out.push(69u8);
            enc_u64(out, *qubit as u64);
        },
        Operation::CNOT { control, target } => {
            out.push(70u8);
            enc_u64(out, *control as u64);
            enc_u64(out, *target as u64);
        },
        Operation::RotateX { qubit, theta } => {
            out.push(71u8);
            enc_u64(out, *qubit as u64);
            enc_expr(out, theta);
        },
        Operation::RotateY { qubit, theta } => {
            out.push(72u8);
            enc_u64(out, *qubit as u64);
            enc_expr(out, theta);
        },
        Operation::RotateZ { qubit, theta } => {
            out.push(73u8);
            enc_u64(out, *qubit as u64);
            enc_expr(out, theta);
        },
        Operation::DefinitionBit { name, length, is_output } => {
            out.push(74u8);
            enc_bytes(out, name);
            enc_u64(out, *length as u64);
            enc_bool(out, *is_output);
        },
        Operation::DefinitionFloat { name, length, is_output } => {
            out.push(75u8);
            enc_bytes(out, name);
            enc_u64(out, *length as u64);
            enc_bool(out, *is_output);
        },
        Operation::DefinitionComplex { name, length, is_output } => {
            out.push(76u8);
            enc_bytes(out, name);
            enc_u64(out, *length as u64);
            enc_bool(out, *is_output);
        },
        Operation::MeasureQubit { qubit, readout, readout_index } => {
            out.push(77u8);
            enc_u64(out, *qubit as u64);
            enc_bytes(out, readout);
            enc_u64(out, *readout_index as u64);
        },
        Operation::PragmaRepeatedMeasurement { readout, number_measurements, qubit_mapping } => {
            out.push(78u8);
            enc_bytes(out, readout);
            enc_u64(out, *number_measurements as u64);
            match qubit_mapping {
                None => {
                    out.push(110u8);
                },
                Some(m) => {
                    out.push(115u8);
                    enc_prs(out, m);
                },
            }
        },
        Operation::PragmaSetNumberOfMeasurements { number_measurements, readout } => {
            out.push(79u8);
            enc_u64(out, *number_measurements as u64);
            enc_bytes(out, readout);
        },
        Operation::PragmaSetStateVector { statevector } => {
            out.push(80u8);
            enc_amps(out, statevector);
        },
        Operation::PragmaGetStateVector { readout, circuit } => {
            out.push(81u8);
            enc_bytes(out, readout);
            match circuit {
                None => {
                    out.push(110u8);
                },
                Some(c) => {
                    out.push(115u8);
                    enc_ops(out, &c.operations);
                },
            }
        },
        Operation::PragmaConditional { condition_register, condition_index, circuit } => {
            out.push(82u8);
            enc_bytes(out, condition_register);
            enc_u64(out, *condition_index as u64);
            enc_ops(out, &circuit.operations);
        },
    }
    proof {
        assert(out@ =~= old(out)@ + spec_enc_op(op@));
    }
}

/// Appends the encodings of the operations from position `i` on.
fn enc_ops_from(out: &mut Vec<u8>, v: &Vec<Operation>, i: usize)
    requires
        i <= v@.len(),
    ensures
        final(out)@ == old(out)@ + spec_enc_ops_items(ops_view(v@).skip(i as int)),
    decreases *v, v@.len() - i,
{
    let ghost vs = ops_view(v@);
    proof {
        lemma_ops_view(v@);
    }
    if i == v.len() {
        proof {
            assert(vs.skip(i as int).len() == 0);
            assert(out@ =~= out@ + spec_enc_ops_items(vs.skip(i as int)));
        }
    } else {
        proof {
            assert(vs.skip(i as int)[0] == op_view(v@[i as int]));
            assert(vs.skip(i as int).drop_first() =~= vs.skip(i + 1));
        }
        enc_op(out, &v[i]);
        enc_ops_from(out, v, i + 1);
        proof {
            assert(out@ =~= old(out)@ + spec_enc_ops_items(vs.skip(i as int)));
        }
    }
}

/// Appends the encoding of an operation sequence.
fn enc_ops(out: &mut Vec<u8>, v: &Vec<Operation>)
    ensures
        final(out)@ == old(out)@ + spec_enc_ops(ops_view(v@)),
    decreases *v, v@.len() + 1,
{
    let ghost vs = ops_view(v@);
    proof {
        lemma_ops_view(v@);
    }
    enc_u64(out, v.len() as u64);
    enc_ops_from(out, v, 0);
    proof {
        assert(vs.skip(0) =~= vs);
        assert(out@ =~= old(out)@ + spec_enc_ops(vs));
    }
}

/// Decodes an optional index-pair list at `pos`.
#[verifier::rlimit(100)]
#[verifier::spinoff_prover]
fn dec_opt_prs(buf: &Vec<u8>, pos: usize) -> (r: Option<(Option<Vec<(usize, usize)>>, usize)>)
    requires
        pos <= buf@.len(),
    ensures
        match r {
            Some((m, p2)) => spec_dec_opt_prs(buf@.skip(pos as int)) == Some(
                (
                    match m {
                        Some(v) => Some(crate::circuit::pairs_view(v@)),
                        None => None,
                    },
                    p2 - pos as int,
                ),
            ) && pos < p2 <= buf@.len(),
            None => spec_dec_opt_prs(buf@.skip(pos as int)) is None,
        },
{
    let ghost s = buf@.skip(pos as int);
    if pos >= buf.len() {
        return None;
    }
    let tag = buf[pos];
    proof {
        assert(s[0] == buf@[pos as int]);
        assert(s.skip(1) =~= buf@.skip(pos + 1));
    }
    if tag == 110u8 {
        Some((None, pos + 1))
    } else if tag == 115u8 {
        match dec_usize(buf, pos + 1) {
            None => None,
            Some((n, p1)) => {
                proof {
                    lemma_skip_skip(buf@, pos + 1, 20);
                }
                match dec_prs_items(buf, p1, n) {
                    None => None,
                    Some((v, p2)) => Some((Some(v), p2)),
                }
            },
        }
    } else {
        None
    }
}

/// Decodes one operation at `pos`.
fn dec_op(buf: &Vec<u8>, pos: usize) -> (r: Option<(Operation, usize)>)
    requires
        pos <= buf@.len(),
    ensures
        match r {
            Some((op, p2)) => spec_dec_op(buf@.skip(pos as int)) == Some(
                (op@, p2 - pos as int),
            ) && pos < p2 <= buf@.len(),
            None => spec_dec_op(buf@.skip(pos as int)) is None,
        },
    decreases buf@.len() - pos, 0nat, 2nat,
{
    let ghost s = buf@.skip(pos as int);
    if pos >= buf.len() {
        return None;
    }
    let tag = buf[pos];
    proof {
        assert(s[0] == buf@[pos as int]);
    }
    if false {
        None
    } else if tag == 65u8 || tag == 66u8 || tag == 67u8 || tag == 68u8 || tag == 69u8 {
        dec_op_gate(buf, pos, tag)
    } else if tag == 70u8 {
        dec_op_cnot(buf, pos, tag)
    } else if tag == 71u8 || tag == 72u8 || tag == 73u8 {
        dec_op_rot(buf, pos, tag)
    } else if tag == 74u8 || tag == 75u8 || tag == 76u8 {
        dec_op_def(buf, pos, tag)
    } else if tag == 77u8 {
        dec_op_measure(buf, pos, tag)
    } else if tag == 78u8 {
        dec_op_reprm(buf, pos, tag)
    } else if tag == 79u8 {
        dec_op_setnm(buf, pos, tag)
    } else if tag == 80u8 {
        dec_op_setsv(buf, pos, tag)
    } else if tag == 81u8 {
        dec_op_getsv(buf, pos, tag)
    } else if tag == 82u8 {
        dec_op_cond(buf, pos, tag)
    } else {
        None
    }
}

/// Decodes the fields of one operation after its tag byte (gate group).
#[verifier::rlimit(100)]
#[verifier::spinoff_prover]
fn dec_op_gate(buf: &Vec<u8>, pos: usize, tag: u8) -> (r: Option<(Operation, usize)>)
    requires
        pos < buf@.len(),
        buf@[pos as int] == tag,
        tag == 65u8 || tag == 66u8 || tag == 67u8 || tag == 68u8 || tag == 69u8,
    ensures
        match r {
            Some((op, p2)) => spec_dec_op(buf@.skip(pos as int)) == Some(
                (op@, p2 - pos as int),
            ) && pos < p2 <= buf@.len(),
            None => spec_dec_op(buf@.skip(pos as int)) is None,
        },
    decreases buf@.len() - pos, 0nat, 1nat,
{
    let ghost s = buf@.skip(pos as int);
    proof {
        assert(buf@.len() == buf.len());
        assert(s[0] == buf@[pos as int]);
        assert(s.skip(1) =~= buf@.skip(pos + 1));
    }
        match dec_usize(buf, pos + 1) {
            None => None,
            Some((q, p2)) => {
                let op = if tag == 65u8 {
                    Operation::Hadamard { qubit: q }
                } else if tag == 66u8 {
                    Operation::PauliX { qubit: q }
                } else if tag == 67u8 {
                    Operation::PauliY { qubit: q }
                } else if tag == 68u8 {
                    Operation::PauliZ { qubit: q }
                } else {
                    Operation::SGate { qubit: q }
                };
                Some((op, p2))
            },
        }
}

/// Decodes the fields of one operation after its tag byte (cnot group).
#[verifier::rlimit(100)]
#[verifier::spinoff_prover]
fn dec_op_cnot(buf: &Vec<u8>, pos: usize, tag: u8) -> (r: Option<(Operation, usize)>)
    requires
        pos < buf@.len(),
        buf@[pos as int] == tag,
        tag == 70u8,
    ensures
        match r {
            Some((op, p2)) => spec_dec_op(buf@.skip(pos as int)) == Some(
                (op@, p2 - pos as int),
            ) && pos < p2 <= buf@.len(),
            None => spec_dec_op(buf@.skip(pos as int)) is None,
        },
    decreases buf@.len() - pos, 0nat, 1nat,
{
    let ghost s = buf@.skip(pos as int);
    proof {
        assert(buf@.len() == buf.len());
        assert(s[0] == buf@[pos as int]);
        assert(s.skip(1) =~= buf@.skip(pos + 1));
    }
        match dec_usize(buf, pos + 1) {
            None => None,
            Some((a, p1)) => {
                proof {
                    lemma_skip_skip(buf@, pos + 1, p1 - pos - 1);
                }
                match dec_usize(buf, p1) {
                    None => None,
                    Some((b, p2)) => Some((Operation::CNOT { control: a, target: b }, p2)),
                }
            },
        }
}

/// Decodes the fields of one operation after its tag byte (rot group).
#[verifier::rlimit(100)]
#[verifier::spinoff_prover]
fn dec_op_rot(buf: &Vec<u8>, pos: usize, tag: u8) -> (r: Option<(Operation, usize)>)
    requires
        pos < buf@.len(),
        buf@[pos as int] == tag,
        tag == 71u8 || tag == 72u8 || tag == 73u8,
    ensures
        match r {
            Some((op, p2)) => spec_dec_op(buf@.skip(pos as int)) == Some(
                (op@, p2 - pos as int),
            ) && pos < p2 <= buf@.len(),
            None => spec_dec_op(buf@.skip(pos as int)) is None,
        },
    decreases buf@.len() - pos, 0nat, 1nat,
{
    let ghost s = buf@.skip(pos as int);
    proof {
        assert(buf@.len() == buf.len());
        assert(s[0] == buf@[pos as int]);
        assert(s.skip(1) =~= buf@.skip(pos + 1));
    }
        match dec_usize(buf, pos + 1) {
            None => None,
            Some((q, p1)) => {
                proof {
                    lemma_skip_skip(buf@, pos + 1, p1 - pos - 1);
                }
                match dec_expr(buf, p1) {
                    None => None,
                    Some((theta, p2)) => {
                        let op = if tag == 71u8 {
                            Operation::RotateX { qubit: q, theta }
                        } else if tag == 72u8 {
                            Operation::RotateY { qubit: q, theta }
                        } else {
                            Operation::RotateZ { qubit: q, theta }
                        };
                        Some((op, p2))
                    },
                }
            },
        }
}

/// Decodes the fields of one operation after its tag byte (def group).
#[verifier::rlimit(100)]
#[verifier::spinoff_prover]
fn dec_op_def(buf: &Vec<u8>, pos: usize, tag: u8) -> (r: Option<(Operation, usize)>)
    requires
        pos < buf@.len(),
        buf@[pos as int] == tag,
        tag == 74u8 || tag == 75u8 || tag == 76u8,
    ensures
        match r {
            Some((op, p2)) => spec_dec_op(buf@.skip(pos as int)) == Some(
                (op@, p2 - pos as int),
            ) && pos < p2 <= buf@.len(),
            None => spec_dec_op(buf@.skip(pos as int)) is None,
        },
    decreases buf@.len() - pos, 0nat, 1nat,
{
    let ghost s = buf@.skip(pos as int);
    proof {
        assert(buf@.len() == buf.len());
        assert(s[0] == buf@[pos as int]);
        assert(s.skip(1) =~= buf@.skip(pos + 1));
    }
        match dec_bytes(buf, pos + 1) {
            None => None,
            Some((name, p1)) => {
                proof {
                    lemma_skip_skip(buf@, pos + 1, p1 - pos - 1);
                }
                match dec_usize(buf, p1) {
                    None => None,
                    Some((length, p2)) => {
                        proof {
                            lemma_skip_skip(buf@, p1 as int, p2 - p1);
                        }
                        match dec_bool(buf, p2) {
                            None => None,
                            Some((is_output, p3)) => {
                                let op = if tag == 74u8 {
                                    Operation::DefinitionBit { name, length, is_output }
                                } else if tag == 75u8 {
                                    Operation::DefinitionFloat { name, length, is_output }
                                } else {
                                    Operation::DefinitionComplex { name, length, is_output }
                                };
                                Some((op, p3))
                            },
                        }
                    },
                }
            },
        }
}

/// Decodes the fields of one operation after its tag byte (measure group).
#[verifier::rlimit(100)]
#[verifier::spinoff_prover]
fn dec_op_measure(buf: &Vec<u8>, pos: usize, tag: u8) -> (r: Option<(Operation, usize)>)
    requires
        pos < buf@.len(),
        buf@[pos as int] == tag,
        tag == 77u8,
    ensures
        match r {
            Some((op, p2)) => spec_dec_op(buf@.skip(pos as int)) == Some(
                (op@, p2 - pos as int),
            ) && pos < p2 <= buf@.len(),
            None => spec_dec_op(buf@.skip(pos as int)) is None,
        },
    decreases buf@.len() - pos, 0nat, 1nat,
{
    let ghost s = buf@.skip(pos as int);
    proof {
        assert(buf@.len() == buf.len());
        assert(s[0] == buf@[pos as int]);
        assert(s.skip(1) =~= buf@.skip(pos + 1));
    }
        match dec_usize(buf, pos + 1) {
            None => None,
            Some((q, p1)) => {
                proof {
                    lemma_skip_skip(buf@, pos + 1, p1 - pos - 1);
                }
                match dec_bytes(buf, p1) {
                    None => None,
                    Some((readout, p2)) => {
                        proof {
                            lemma_skip_skip(buf@, p1 as int, p2 - p1);
                        }
                        match dec_usize(buf, p2) {
                            None => None,
                            Some((ri, p3)) => Some(
                                (
                                    Operation::MeasureQubit {
                                        qubit: q,
                                        readout,
                                        readout_index: ri,
                                    },
                                    p3,
                                ),
                            ),
                        }
                    },
                }
            },
        }
}

/// Decodes the fields of one operation after its tag byte (reprm group).
#[verifier::rlimit(100)]
#[verifier::spinoff_prover]
fn dec_op_reprm(buf: &Vec<u8>, pos: usize, tag: u8) -> (r: Option<(Operation, usize)>)
    requires
        pos < buf@.len(),
        buf@[pos as int] == tag,
        tag == 78u8,
    ensures
        match r {
            Some((op, p2)) => spec_dec_op(buf@.skip(pos as int)) == Some(
                (op@, p2 - pos as int),
            ) && pos < p2 <= buf@.len(),
            None => spec_dec_op(buf@.skip(pos as int)) is None,
        },
    decreases buf@.len() - pos, 0nat, 1nat,
{
    let ghost s = buf@.skip(pos as int);
    proof {
        assert(buf@.len() == buf.len());
        assert(s[0] == buf@[pos as int]);
        assert(s.skip(1) =~= buf@.skip(pos + 1));
    }
        match dec_bytes(buf, pos + 1) {
            None => None,
            Some((readout, p1)) => {
                proof {
                    lemma_skip_skip(buf@, pos + 1, p1 - pos - 1);
                }
                match dec_usize(buf, p1) {
                    None => None,
                    Some((nm, p2)) => {
                        proof {
                            lemma_skip_skip(buf@, p1 as int, p2 - p1);
                        }
                        match dec_opt_prs(buf, p2) {
                            None => None,
                            Some((m, p3)) => Some(
                                (
                                    Operation::PragmaRepeatedMeasurement {
                                        readout,
                                        number_measurements: nm,
                                        qubit_mapping: m,
                                    },
                                    p3,
                                ),
                            ),
                        }
                    },
                }
            },
        }
}

/// Decodes the fields of one operation after its tag byte (setnm group).
#[verifier::rlimit(100)]
#[verifier::spinoff_prover]
fn dec_op_setnm(buf: &Vec<u8>, pos: usize, tag: u8) -> (r: Option<(Operation, usize)>)
    requires
        pos < buf@.len(),
        buf@[pos as int] == tag,
        tag == 79u8,
    ensures
        match r {
            Some((op, p2)) => spec_dec_op(buf@.skip(pos as int)) == Some(
                (op@, p2 - pos as int),
            ) && pos < p2 <= buf@.len(),
            None => spec_dec_op(buf@.skip(pos as int)) is None,
        },
    decreases buf@.len() - pos, 0nat, 1nat,
{
    let ghost s = buf@.skip(pos as int);
    proof {
        assert(buf@.len() == buf.len());
        assert(s[0] == buf@[pos as int]);
        assert(s.skip(1) =~= buf@.skip(pos + 1));
    }
        match dec_usize(buf, pos + 1) {
            None => None,
            Some((nm, p1)) => {
                proof {
                    lemma_skip_skip(buf@, pos + 1, p1 - pos - 1);
                }
                match dec_bytes(buf, p1) {
                    None => None,
                    Some((readout, p2)) => Some(
                        (
                            Operation::PragmaSetNumberOfMeasurements {
                                number_measurements: nm,
                                readout,
                            },
                            p2,
                        ),
                    ),
                }
            },
        }
}

/// Decodes the fields of one operation after its tag byte (setsv group).
#[verifier::rlimit(100)]
#[verifier::spinoff_prover]
fn dec_op_setsv(buf: &Vec<u8>, pos: usize, tag: u8) -> (r: Option<(Operation, usize)>)
    requires
        pos < buf@.len(),
        buf@[pos as int] == tag,
        tag == 80u8,
    ensures
        match r {
            Some((op, p2)) => spec_dec_op(buf@.skip(pos as int)) == Some(
                (op@, p2 - pos as int),
            ) && pos < p2 <= buf@.len(),
            None => spec_dec_op(buf@.skip(pos as int)) is None,
        },
    decreases buf@.len() - pos, 0nat, 1nat,
{
    let ghost s = buf@.skip(pos as int);
    proof {
        assert(buf@.len() == buf.len());
        assert(s[0] == buf@[pos as int]);
        assert(s.skip(1) =~= buf@.skip(pos + 1));
    }
        match dec_usize(buf, pos + 1) {
            None => None,
            Some((n, p1)) => {
                proof {
                    lemma_skip_skip(buf@, pos + 1, 20);
                }
                match dec_amps_items(buf, p1, n) {
                    None => None,
                    Some((sv, p2)) => Some((Operation::PragmaSetStateVector { statevector: sv }, p2)),
                }
            },
        }
}

/// Decodes the fields of one operation after its tag byte (getsv group).
#[verifier::rlimit(100)]
#[verifier::spinoff_prover]
fn dec_op_getsv(buf: &Vec<u8>, pos: usize, tag: u8) -> (r: Option<(Operation, usize)>)
    requires
        pos < buf@.len(),
        buf@[pos as int] == tag,
        tag == 81u8,
    ensures
        match r {
            Some((op, p2)) => spec_dec_op(buf@.skip(pos as int)) == Some(
                (op@, p2 - pos as int),
            ) && pos < p2 <= buf@.len(),
            None => spec_dec_op(buf@.skip(pos as int)) is None,
        },
    decreases buf@.len() - pos, 0nat, 1nat,
{
    let ghost s = buf@.skip(pos as int);
    proof {
        assert(buf@.len() == buf.len());
        assert(s[0] == buf@[pos as int]);
        assert(s.skip(1) =~= buf@.skip(pos + 1));
    }
        match dec_bytes(buf, pos + 1) {
            None => None,
            Some((readout, p1)) => {
                proof {
                    lemma_skip_skip(buf@, pos + 1, p1 - pos - 1);
                }
                match dec_opt_ops(buf, p1) {
                    None => None,
                    Some((c, p2)) => {
                        let circuit: Option<Circuit> = match c {
                            Some(ops) => Some(Circuit { operations: ops }),
                            None => None,
                        };
                        Some((Operation::PragmaGetStateVector { readout, circuit }, p2))
                    },
                }
            },
        }
}

/// Decodes the fields of one operation after its tag byte (cond group).
#[verifier::rlimit(100)]
#[verifier::spinoff_prover]
fn dec_op_cond(buf: &Vec<u8>, pos: usize, tag: u8) -> (r: Option<(Operation, usize)>)
    requires
        pos < buf@.len(),
        buf@[pos as int] == tag,
        tag == 82u8,
    ensures
        match r {
            Some((op, p2)) => spec_dec_op(buf@.skip(pos as int)) == Some(
                (op@, p2 - pos as int),
            ) && pos < p2 <= buf@.len(),
            None => spec_dec_op(buf@.skip(pos as int)) is None,
        },
    decreases buf@.len() - pos, 0nat, 1nat,
{
    let ghost s = buf@.skip(pos as int);
    proof {
        assert(buf@.len() == buf.len());
        assert(s[0] == buf@[pos as int]);
        assert(s.skip(1) =~= buf@.skip(pos + 1));
    }
        match dec_bytes(buf, pos + 1) {
            None => None,
            Some((name, p1)) => {
                proof {
                    lemma_skip_skip(buf@, pos + 1, p1 - pos - 1);
                }
                match dec_usize(buf, p1) {
                    None => None,
                    Some((ci, p2)) => {
                        proof {
                            lemma_skip_skip(buf@, p1 as int, p2 - p1);
                            lemma_skip_skip(buf@, pos + 1, p2 - pos - 1);
                        }
                        match dec_ops(buf, p2) {
                            None => None,
                            Some((ops, p3)) => Some(
                                (
                                    Operation::PragmaConditional {
                                        condition_register: name,
                                        condition_index: ci,
                                        circuit: Circuit { operations: ops },
                                    },
                                    p3,
                                ),
                            ),
                        }
                    },
                }
            },
        }

}

/// Decodes `n` operation items at `pos`.
#[verifier::rlimit(100)]
#[verifier::spinoff_prover]
fn dec_ops_items(buf: &Vec<u8>, pos: usize, n: usize) -> (r: Option<(Vec<Operation>, usize)>)
    requires
        pos <= buf@.len(),
    ensures
        match r {
            Some((v, p2)) => spec_dec_ops_items(buf@.skip(pos as int), n as nat) == Some(
                (ops_view(v@), p2 - pos as int),
            ) && pos <= p2 <= buf@.len(),
            None => spec_dec_ops_items(buf@.skip(pos as int), n as nat) is None,
        },
    decreases buf@.len() - pos, 1nat, n,
{
    let ghost s = buf@.skip(pos as int);
    if n == 0 {
        let v: Vec<Operation> = Vec::new();
        proof {
            assert(ops_view(v@) =~= Seq::<SpecOp>::empty());
        }
        return Some((v, pos));
    }
    match dec_op(buf, pos) {
        None => None,
        Some((op, p1)) => {
            proof {
                lemma_skip_skip(buf@, pos as int, p1 - pos);
            }
            match dec_ops_items(buf, p1, n - 1) {
                None => None,
                Some((mut v, p2)) => {
                    let ghost old_v = v@;
                    let ghost rest_vs = ops_view(v@);
                    let ghost op_v = op@;
                    v.insert(0, op);
                    proof {
                        assert(v@ =~= Seq::empty().push(op) + old_v);
                        lemma_ops_view(v@);
                        lemma_ops_view(old_v);
                        assert(ops_view(v@) =~= Seq::empty().push(op_v) + rest_vs);
                    }
                    Some((v, p2))
                },
            }
        },
    }
}

/// Decodes an operation sequence at `pos`.
#[verifier::rlimit(100)]
#[verifier::spinoff_prover]
fn dec_ops(buf: &Vec<u8>, pos: usize) -> (r: Option<(Vec<Operation>, usize)>)
    requires
        pos <= buf@.len(),
    ensures
        match r {
            Some((v, p2)) => spec_dec_ops(buf@.skip(pos as int)) == Some(
                (ops_view(v@), p2 - pos as int),
            ) && pos < p2 <= buf@.len(),
            None => spec_dec_ops(buf@.skip(pos as int)) is None,
        },
    decreases buf@.len() - pos, 2nat, 0nat,
{
    let ghost s = buf@.skip(pos as int);
    match dec_usize(buf, pos) {
        None => None,
        Some((n, p1)) => {
            proof {
                lemma_skip_skip(buf@, pos as int, 20);
            }
            match dec_ops_items(buf, p1, n) {
                None => None,
                Some((v, p2)) => Some((v, p2)),
            }
        },
    }
}

/// Decodes an optional operation sequence at `pos`.
#[verifier::rlimit(100)]
#[verifier::spinoff_prover]
fn dec_opt_ops(buf: &Vec<u8>, pos: usize) -> (r: Option<(Option<Vec<Operation>>, usize)>)
    requires
        pos <= buf@.len(),
    ensures
        match r {
            Some((o, p2)) => spec_dec_opt_ops(buf@.skip(pos as int)) == Some(
                (
                    match o {
                        Some(v) => Some(ops_view(v@)),
                        None => None,
                    },
                    p2 - pos as int,
                ),
            ) && pos < p2 <= buf@.len(),
            None => spec_dec_opt_ops(buf@.skip(pos as int)) is None,
        },
    decreases buf@.len() - pos, 3nat, 0nat,
{
    let ghost s = buf@.skip(pos as int);
    if pos >= buf.len() {
        return None;
    }
    let tag = buf[pos];
    proof {
        assert(s[0] == buf@[pos as int]);
        assert(s.skip(1) =~= buf@.skip(pos + 1));
    }
    if tag == 110u8 {
        Some((None, pos + 1))
    } else if tag == 115u8 {
        match dec_ops(buf, pos + 1) {
            None => None,
            Some((v, p2)) => Some((Some(v), p2)),
        }
    } else {
        None
    }
}

/// Encoding of one product term: its register, then its indices.
pub open spec fn spec_enc_mask(m: (Seq<u8>, Seq<int>)) -> Seq<u8> {
    spec_enc_bytes(m.0) + spec_enc_u64s(m.1)
}

/// Encoding of the product-term items.
pub open spec fn spec_enc_masks_items(s: Seq<(Seq<u8>, Seq<int>)>) -> Seq<u8>
    decreases s,
{
    if s.len() == 0 {
        Seq::empty()
    } else {
        spec_enc_mask(s[0]) + spec_enc_masks_items(s.drop_first())
    }
}

/// Encoding of the product-term list.
pub open spec fn spec_enc_masks(s: Seq<(Seq<u8>, Seq<int>)>) -> Seq<u8> {
    spec_enc_u64(s.len() as int) + spec_enc_masks_items(s)
}

/// Decoding of one product term.
pub open spec fn spec_dec_mask(s: Seq<u8>) -> Option<((Seq<u8>, Seq<int>), int)> {
    match spec_dec_bytes(s) {
        None => None,
        Some((name, c1)) => match spec_dec_u64s(s.skip(c1)) {
            None => None,
            Some((idxs, c2)) => Some(((name, idxs), c1 + c2)),
        },
    }
}

/// Decoding of `n` product-term items.
pub open spec fn spec_dec_masks_items(s: Seq<u8>, n: nat) -> Option<(Seq<(Seq<u8>, Seq<int>)>, int)>
    decreases n,
{
    if n == 0 {
        Some((Seq::empty(), 0))
    } else {
        match spec_dec_mask(s) {
            None => None,
            Some((m, c)) => {
                if 0 < c <= s.len() {
                    match spec_dec_masks_items(s.skip(c), (n - 1) as nat) {
                        None => None,
                        Some((rest, c2)) => Some((Seq::empty().push(m) + rest, c + c2)),
                    }
                } else {
                    None
                }
            },
        }
    }
}

/// Decoding of the product-term list.
pub open spec fn spec_dec_masks(s: Seq<u8>) -> Option<(Seq<(Seq<u8>, Seq<int>)>, int)> {
    match spec_dec_usize(s) {
        None => None,
        Some((n, c)) => match spec_dec_masks_items(s.skip(c), n as nat) {
            None => None,
            Some((items, c2)) => Some((items, c + c2)),
        },
    }
}

/// Whether a product-term list is representable.
pub open spec fn masks_fits(s: Seq<(Seq<u8>, Seq<int>)>) -> bool {
    s.len() <= usize::MAX && forall|k: int|
        0 <= k < s.len() ==> (#[trigger] s[k]).0.len() <= u64::MAX && u64s_fits(s[k].1)
}

/// Round trip of one product term.
proof fn lemma_dec_enc_mask(m: (Seq<u8>, Seq<int>), rest: Seq<u8>)
    requires
        m.0.len() <= u64::MAX,
        u64s_fits(m.1),
    ensures
        spec_enc_mask(m).len() >= 20,
        spec_dec_mask(spec_enc_mask(m) + rest) == Some((m, spec_enc_mask(m).len() as int)),
{
    let whole = spec_enc_mask(m) + rest;
    lemma_dec_enc_bytes(m.0, spec_enc_u64s(m.1) + rest);
    assert(whole =~= spec_enc_bytes(m.0) + (spec_enc_u64s(m.1) + rest));
    let c1 = spec_enc_bytes(m.0).len() as int;
    assert(whole.skip(c1) =~= spec_enc_u64s(m.1) + rest);
    lemma_dec_enc_u64s(m.1, rest);
}

/// Round trip of the product-term items.
proof fn lemma_dec_enc_masks_items(s: Seq<(Seq<u8>, Seq<int>)>, rest: Seq<u8>)
    requires
        masks_fits(s),
    ensures
        spec_dec_masks_items(spec_enc_masks_items(s) + rest, s.len() as nat) == Some(
            (s, spec_enc_masks_items(s).len() as int),
        ),
    decreases s,
{
    if s.len() == 0 {
        assert(spec_enc_masks_items(s) + rest =~= rest);
        assert(Seq::empty() =~= s);
    } else {
        let whole = spec_enc_masks_items(s) + rest;
        lemma_dec_enc_mask(s[0], spec_enc_masks_items(s.drop_first()) + rest);
        let c = spec_enc_mask(s[0]).len() as int;
        assert(whole =~= spec_enc_mask(s[0]) + (spec_enc_masks_items(s.drop_first()) + rest));
        assert(whole.skip(c) =~= spec_enc_masks_items(s.drop_first()) + rest);
        assert(masks_fits(s.drop_first()));
        lemma_dec_enc_masks_items(s.drop_first(), rest);
        assert(Seq::empty().push(s[0]) + s.drop_first() =~= s);
        assert(0 < c <= whole.len());
    }
}

/// Round trip of the product-term list.
pub proof fn lemma_dec_enc_masks(s: Seq<(Seq<u8>, Seq<int>)>, rest: Seq<u8>)
    requires
        masks_fits(s),
    ensures
        spec_dec_masks(spec_enc_masks(s) + rest) == Some((s, spec_enc_masks(s).len() as int)),
{
    let whole = spec_enc_masks(s) + rest;
    lemma_dec_enc_usize(s.len() as int, spec_enc_masks_items(s) + rest);
    assert(whole =~= spec_enc_u64(s.len() as int) + (spec_enc_masks_items(s) + rest));
    assert(whole.skip(20) =~= spec_enc_masks_items(s) + rest);
    lemma_dec_enc_masks_items(s, rest);
}

/// Encoding of the entries of one combination: a term index and its
/// coefficient each.
pub open spec fn spec_enc_terms_items(s: Seq<(int, int)>) -> Seq<u8>
    decreases s,
{
    if s.len() == 0 {
        Seq::empty()
    } else {
        spec_enc_u64(s[0].0) + spec_enc_i64(s[0].1) + spec_enc_terms_items(s.drop_first())
    }
}

/// Encoding of one combination's entry list.
pub open spec fn spec_enc_terms(s: Seq<(int, int)>) -> Seq<u8> {
    spec_enc_u64(s.len() as int) + spec_enc_terms_items(s)
}

/// Decoding of `n` combination entries.
pub open spec fn spec_dec_terms_items(s: Seq<u8>, n: nat) -> Option<(Seq<(int, int)>, int)>
    decreases n,
{
    if n == 0 {
        Some((Seq::empty(), 0))
    } else {
        match spec_dec_usize(s) {
            None => None,
            Some((k, _)) => match spec_dec_i64(s.skip(20)) {
                None => None,
                Some((cf, _)) => match spec_dec_terms_items(s.skip(41), (n - 1) as nat) {
                    None => None,
                    Some((rest, c2)) => Some((Seq::empty().push((k, cf)) + rest, 41 + c2)),
                },
            },
        }
    }
}

/// Decoding of one combination's entry list.
pub open spec fn spec_dec_terms(s: Seq<u8>) -> Option<(Seq<(int, int)>, int)> {
    match spec_dec_usize(s) {
        None => None,
        Some((n, c)) => match spec_dec_terms_items(s.skip(c), n as nat) {
            None => None,
            Some((items, c2)) => Some((items, c + c2)),
        },
    }
}

/// Whether a combination entry list is representable.
pub open spec fn terms_fits(s: Seq<(int, int)>) -> bool {
    s.len() <= usize::MAX && forall|k: int|
        0 <= k < s.len() ==> 0 <= (#[trigger] s[k]).0 <= usize::MAX && i64::MIN <= s[k].1
            <= i64::MAX
}

/// Round trip of the combination entries.
proof fn lemma_dec_enc_terms_items(s: Seq<(int, int)>, rest: Seq<u8>)
    requires
        terms_fits(s),
    ensures
        spec_dec_terms_items(spec_enc_terms_items(s) + rest, s.len() as nat) == Some(
            (s, spec_enc_terms_items(s).len() as int),
        ),
    decreases s,
{
    if s.len() == 0 {
        assert(spec_enc_terms_items(s) + rest =~= rest);
        assert(Seq::empty() =~= s);
    } else {
        let whole = spec_enc_terms_items(s) + rest;
        let after_k = spec_enc_i64(s[0].1) + (spec_enc_terms_items(s.drop_first()) + rest);
        lemma_dec_enc_usize(s[0].0, after_k);
        assert(whole =~= spec_enc_u64(s[0].0) + after_k);
        assert(whole.skip(20) =~= after_k);
        lemma_dec_enc_i64(s[0].1, spec_enc_terms_items(s.drop_first()) + rest);
        assert(whole.skip(41) =~= spec_enc_terms_items(s.drop_first()) + rest) by {
            lemma_skip_skip(whole, 20, 21);
            assert(after_k.skip(21) =~= spec_enc_terms_items(s.drop_first()) + rest);
        }
        assert(terms_fits(s.drop_first()));
        lemma_dec_enc_terms_items(s.drop_first(), rest);
        assert(Seq::empty().push(s[0]) + s.drop_first() =~= s);
    }
}

/// Round trip of one combination's entry list.
pub proof fn lemma_dec_enc_terms(s: Seq<(int, int)>, rest: Seq<u8>)
    requires
        terms_fits(s),
    ensures
        spec_dec_terms(spec_enc_terms(s) + rest) == Some((s, spec_enc_terms(s).len() as int)),
{
    let whole = spec_enc_terms(s) + rest;
    lemma_dec_enc_usize(s.len() as int, spec_enc_terms_items(s) + rest);
    assert(whole =~= spec_enc_u64(s.len() as int) + (spec_enc_terms_items(s) + rest));
    assert(whole.skip(20) =~= spec_enc_terms_items(s) + rest);
    lemma_dec_enc_terms_items(s, rest);
}

/// Encoding of one named combination.
pub open spec fn spec_enc_combo(c: (Seq<u8>, Seq<(int, int)>)) -> Seq<u8> {
    spec_enc_bytes(c.0) + spec_enc_terms(c.1)
}

/// Encoding of the combination items.
pub open spec fn spec_enc_combos_items(s: Seq<(Seq<u8>, Seq<(int, int)>)>) -> Seq<u8>
    decreases s,
{
    if s.len() == 0 {
        Seq::empty()
    } else {
        spec_enc_combo(s[0]) + spec_enc_combos_items(s.drop_first())
    }
}

/// Encoding of the combination list.
pub open spec fn spec_enc_combos(s: Seq<(Seq<u8>, Seq<(int, int)>)>) -> Seq<u8> {
    spec_enc_u64(s.len() as int) + spec_enc_combos_items(s)
}

/// Decoding of one named combination.
pub open spec fn spec_dec_combo(s: Seq<u8>) -> Option<((Seq<u8>, Seq<(int, int)>), int)> {
    match spec_dec_bytes(s) {
        None => None,
        Some((name, c1)) => match spec_dec_terms(s.skip(c1)) {
            None => None,
            Some((terms, c2)) => Some(((name, terms), c1 + c2)),
        },
    }
}

/// Decoding of `n` combination items.
pub open spec fn spec_dec_combos_items(s: Seq<u8>, n: nat) -> Option<
    (Seq<(Seq<u8>, Seq<(int, int)>)>, int),
>
    decreases n,
{
    if n == 0 {
        Some((Seq::empty(), 0))
    } else {
        match spec_dec_combo(s) {
            None => None,
            Some((cb, c)) => {
                if 0 < c <= s.len() {
                    match spec_dec_combos_items(s.skip(c), (n - 1) as nat) {
                        None => None,
                        Some((rest, c2)) => Some((Seq::empty().push(cb) + rest, c + c2)),
                    }
                } else {
                    None
                }
            },
        }
    }
}

/// Decoding of the combination list.
pub open spec fn spec_dec_combos(s: Seq<u8>) -> Option<(Seq<(Seq<u8>, Seq<(int, int)>)>, int)> {
    match spec_dec_usize(s) {
        None => None,
        Some((n, c)) => match spec_dec_combos_items(s.skip(c), n as nat) {
            None => None,
            Some((items, c2)) => Some((items, c + c2)),
        },
    }
}

/// Whether a combination list is representable.
pub open spec fn combos_fits(s: Seq<(Seq<u8>, Seq<(int, int)>)>) -> bool {
    s.len() <= usize::MAX && forall|k: int|
        0 <= k < s.len() ==> (#[trigger] s[k]).0.len() <= u64::MAX && terms_fits(s[k].1)
}

/// Round trip of one named combination.
proof fn lemma_dec_enc_combo(c: (Seq<u8>, Seq<(int, int)>), rest: Seq<u8>)
    requires
        c.0.len() <= u64::MAX,
        terms_fits(c.1),
    ensures
        spec_enc_combo(c).len() >= 20,
        spec_dec_combo(spec_enc_combo(c) + rest) == Some((c, spec_enc_combo(c).len() as int)),
{
    let whole = spec_enc_combo(c) + rest;
    lemma_dec_enc_bytes(c.0, spec_enc_terms(c.1) + rest);
    assert(whole =~= spec_enc_bytes(c.0) + (spec_enc_terms(c.1) + rest));
    let c1 = spec_enc_bytes(c.0).len() as int;
    assert(whole.skip(c1) =~= spec_enc_terms(c.1) + rest);
    lemma_dec_enc_terms(c.1, rest);
}

/// Round trip of the combination items.
proof fn lemma_dec_enc_combos_items(s: Seq<(Seq<u8>, Seq<(int, int)>)>, rest: Seq<u8>)
    requires
        combos_fits(s),
    ensures
        spec_dec_combos_items(spec_enc_combos_items(s) + rest, s.len() as nat) == Some(
            (s, spec_enc_combos_items(s).len() as int),
        ),
    decreases s,
{
    if s.len() == 0 {
        assert(spec_enc_combos_items(s) + rest =~= rest);
        assert(Seq::empty() =~= s);
    } else {
        let whole = spec_enc_combos_items(s) + rest;
        lemma_dec_enc_combo(s[0], spec_enc_combos_items(s.drop_first()) + rest);
        let c = spec_enc_combo(s[0]).len() as int;
        assert(whole =~= spec_enc_combo(s[0]) + (spec_enc_combos_items(s.drop_first()) + rest));
        assert(whole.skip(c) =~= spec_enc_combos_items(s.drop_first()) + rest);
        assert(combos_fits(s.drop_first()));
        lemma_dec_enc_combos_items(s.drop_first(), rest);
        assert(Seq::empty().push(s[0]) + s.drop_first() =~= s);
        assert(0 < c <= whole.len());
    }
}

/// Round trip of the combination list.
pub proof fn lemma_dec_enc_combos(s: Seq<(Seq<u8>, Seq<(int, int)>)>, rest: Seq<u8>)
    requires
        combos_fits(s),
    ensures
        spec_dec_combos(spec_enc_combos(s) + rest) == Some((s, spec_enc_combos(s).len() as int)),
{
    let whole = spec_enc_combos(s) + rest;
    lemma_dec_enc_usize(s.len() as int, spec_enc_combos_items(s) + rest);
    assert(whole =~= spec_enc_u64(s.len() as int) + (spec_enc_combos_items(s) + rest));
    assert(whole.skip(20) =~= spec_enc_combos_items(s) + rest);
    lemma_dec_enc_combos_items(s, rest);
}

/// Encoding of a measurement declaration.
pub open spec fn spec_enc_input(v: SpecPZInput) -> Seq<u8> {
    spec_enc_u64(v.number_qubits) + spec_enc_masks(v.products) + spec_enc_combos(v.combos)
}

/// Decoding of a measurement declaration.
pub open spec fn spec_dec_input(s: Seq<u8>) -> Option<(SpecPZInput, int)> {
    match spec_dec_usize(s) {
        None => None,
        Some((nq, c1)) => match spec_dec_masks(s.skip(c1)) {
            None => None,
            Some((products, c2)) => match spec_dec_combos(s.skip(c1).skip(c2)) {
                None => None,
                Some((combos, c3)) => Some(
                    (SpecPZInput { number_qubits: nq, products, combos }, c1 + c2 + c3),
                ),
            },
        },
    }
}

/// Whether a measurement declaration is representable.
pub open spec fn input_fits(v: SpecPZInput) -> bool {
    0 <= v.number_qubits <= usize::MAX && masks_fits(v.products) && combos_fits(v.combos)
}

/// Round trip of the measurement declaration.
pub proof fn lemma_dec_enc_input(v: SpecPZInput, rest: Seq<u8>)
    requires
        input_fits(v),
    ensures
        spec_dec_input(spec_enc_input(v) + rest) == Some((v, spec_enc_input(v).len() as int)),
{
    let whole = spec_enc_input(v) + rest;
    let t2 = spec_enc_masks(v.products) + (spec_enc_combos(v.combos) + rest);
    lemma_dec_enc_usize(v.number_qubits, t2);
    assert(whole =~= spec_enc_u64(v.number_qubits) + t2);
    assert(whole.skip(20) =~= t2);
    lemma_dec_enc_masks(v.products, spec_enc_combos(v.combos) + rest);
    let c2 = spec_enc_masks(v.products).len() as int;
    assert(whole.skip(20).skip(c2) =~= spec_enc_combos(v.combos) + rest);
    lemma_dec_enc_combos(v.combos, rest);
}

/// Encoding of the measurement-circuit items.
pub open spec fn spec_enc_circuits_items(s: Seq<Seq<SpecOp>>) -> Seq<u8>
    decreases s,
{
    if s.len() == 0 {
        Seq::empty()
    } else {
        spec_enc_ops(s[0]) + spec_enc_circuits_items(s.drop_first())
    }
}

/// Encoding of the measurement-circuit list.
pub open spec fn spec_enc_circuits(s: Seq<Seq<SpecOp>>) -> Seq<u8> {
    spec_enc_u64(s.len() as int) + spec_enc_circuits_items(s)
}

/// Decoding of `n` measurement-circuit items.
pub open spec fn spec_dec_circuits_items(s: Seq<u8>, n: nat) -> Option<(Seq<Seq<SpecOp>>, int)>
    decreases s.len(), 4nat, n,
{
    if n == 0 {
        Some((Seq::empty(), 0))
    } else {
        match spec_dec_ops(s) {
            None => None,
            Some((c, cc)) => {
                if 0 < cc <= s.len() {
                    match spec_dec_circuits_items(s.skip(cc), (n - 1) as nat) {
                        None => None,
                        Some((rest, c2)) => Some((Seq::empty().push(c) + rest, cc + c2)),
                    }
                } else {
                    None
                }
            },
        }
    }
}

/// Decoding of the measurement-circuit list.
pub open spec fn spec_dec_circuits(s: Seq<u8>) -> Option<(Seq<Seq<SpecOp>>, int)> {
    match spec_dec_usize(s) {
        None => None,
        Some((n, c)) => {
            if 0 < c <= s.len() {
                match spec_dec_circuits_items(s.skip(c), n as nat) {
                    None => None,
                    Some((items, c2)) => Some((items, c + c2)),
                }
            } else {
                None
            }
        },
    }
}

/// Whether a measurement-circuit list is representable.
pub open spec fn circuits_fits(s: Seq<Seq<SpecOp>>) -> bool
    decreases s,
{
    if s.len() == 0 {
        true
    } else {
        s.len() <= usize::MAX && ops_fits(s[0]) && circuits_fits(s.drop_first())
    }
}

/// Round trip of the measurement-circuit items.
#[verifier::rlimit(100)]
#[verifier::spinoff_prover]
proof fn lemma_dec_enc_circuits_items(s: Seq<Seq<SpecOp>>, rest: Seq<u8>)
    requires
        circuits_fits(s),
    ensures
        spec_dec_circuits_items(spec_enc_circuits_items(s) + rest, s.len() as nat) == Some(
            (s, spec_enc_circuits_items(s).len() as int),
        ),
    decreases s,
{
    if s.len() == 0 {
        assert(spec_enc_circuits_items(s) + rest =~= rest);
        assert(Seq::empty() =~= s);
    } else {
        let whole = spec_enc_circuits_items(s) + rest;
        lemma_dec_enc_ops(s[0], spec_enc_circuits_items(s.drop_first()) + rest);
        let c = spec_enc_ops(s[0]).len() as int;
        assert(whole =~= spec_enc_ops(s[0]) + (spec_enc_circuits_items(s.drop_first()) + rest));
        assert(whole.skip(c) =~= spec_enc_circuits_items(s.drop_first()) + rest);
        lemma_dec_enc_circuits_items(s.drop_first(), rest);
        assert(Seq::empty().push(s[0]) + s.drop_first() =~= s);
        assert(0 < c <= whole.len());
    }
}

/// Round trip of the measurement-circuit list.
pub proof fn lemma_dec_enc_circuits(s: Seq<Seq<SpecOp>>, rest: Seq<u8>)
    requires
        circuits_fits(s),
    ensures
        spec_dec_circuits(spec_enc_circuits(s) + rest) == Some(
            (s, spec_enc_circuits(s).len() as int),
        ),
{
    let whole = spec_enc_circuits(s) + rest;
    lemma_dec_enc_usize(s.len() as int, spec_enc_circuits_items(s) + rest);
    assert(whole =~= spec_enc_u64(s.len() as int) + (spec_enc_circuits_items(s) + rest));
    assert(whole.skip(20) =~= spec_enc_circuits_items(s) + rest);
    lemma_dec_enc_circuits_items(s, rest);
}

/// Encoding of a whole measurement.
pub open spec fn spec_enc_pzp(m: SpecPauliZProduct) -> Seq<u8> {
    spec_enc_input(m.input) + spec_enc_circuits(m.circuits) + spec_enc_opt_ops(m.constant_circuit)
}

/// Decoding of a whole measurement.
pub open spec fn spec_dec_pzp(s: Seq<u8>) -> Option<(SpecPauliZProduct, int)> {
    match spec_dec_input(s) {
        None => None,
        Some((input, c1)) => {
            if 0 < c1 <= s.len() {
                match spec_dec_circuits(s.skip(c1)) {
                    None => None,
                    Some((circuits, c2)) => {
                        if 0 < c2 <= s.skip(c1).len() {
                            match spec_dec_opt_ops(s.skip(c1).skip(c2)) {
                                None => None,
                                Some((constant_circuit, c3)) => Some(
                                    (
                                        SpecPauliZProduct { input, circuits, constant_circuit },
                                        c1 + c2 + c3,
                                    ),
                                ),
                            }
                        } else {
                            None
                        }
                    },
                }
            } else {
                None
            }
        },
    }
}

/// Whether a whole measurement is representable.
pub open spec fn pzp_fits(m: SpecPauliZProduct) -> bool {
    input_fits(m.input) && circuits_fits(m.circuits) && match m.constant_circuit {
        Some(c) => ops_fits(c),
        None => true,
    }
}

/// Round trip of a whole measurement.
#[verifier::rlimit(100)]
#[verifier::spinoff_prover]
pub proof fn lemma_dec_enc_pzp(m: SpecPauliZProduct, rest: Seq<u8>)
    requires
        pzp_fits(m),
    ensures
        spec_dec_pzp(spec_enc_pzp(m) + rest) == Some((m, spec_enc_pzp(m).len() as int)),
{
    let whole = spec_enc_pzp(m) + rest;
    let t2 = spec_enc_circuits(m.circuits) + (spec_enc_opt_ops(m.constant_circuit) + rest);
    lemma_dec_enc_input(m.input, t2);
    assert(whole =~= spec_enc_input(m.input) + t2);
    let c1 = spec_enc_input(m.input).len() as int;
    assert(whole.skip(c1) =~= t2);
    lemma_dec_enc_circuits(m.circuits, spec_enc_opt_ops(m.constant_circuit) + rest);
    let c2 = spec_enc_circuits(m.circuits).len() as int;
    assert(whole.skip(c1).skip(c2) =~= spec_enc_opt_ops(m.constant_circuit) + rest);
    lemma_dec_enc_opt_ops(m.constant_circuit, rest);
    assert(0 < c1 <= whole.len());
    assert(0 < c2 <= whole.skip(c1).len());
}

/// Encoding of the parameter-name items.
pub open spec fn spec_enc_names_items(s: Seq<Seq<u8>>) -> Seq<u8>
    decreases s,
{
    if s.len() == 0 {
        Seq::empty()
    } else {
        spec_enc_bytes(s[0]) + spec_enc_names_items(s.drop_first())
    }
}

/// Encoding of the parameter-name list.
pub open spec fn spec_enc_names(s: Seq<Seq<u8>>) -> Seq<u8> {
    spec_enc_u64(s.len() as int) + spec_enc_names_items(s)
}

/// Decoding of `n` parameter-name items.
pub open spec fn spec_dec_names_items(s: Seq<u8>, n: nat) -> Option<(Seq<Seq<u8>>, int)>
    decreases n,
{
    if n == 0 {
        Some((Seq::empty(), 0))
    } else {
        match spec_dec_bytes(s) {
            None => None,
            Some((name, c)) => {
                if 0 < c <= s.len() {
                    match spec_dec_names_items(s.skip(c), (n - 1) as nat) {
                        None => None,
                        Some((rest, c2)) => Some((Seq::empty().push(name) + rest, c + c2)),
                    }
                } else {
                    None
                }
            },
        }
    }
}

/// Decoding of the parameter-name list.
pub open spec fn spec_dec_names(s: Seq<u8>) -> Option<(Seq<Seq<u8>>, int)> {
    match spec_dec_usize(s) {
        None => None,
        Some((n, c)) => match spec_dec_names_items(s.skip(c), n as nat) {
            None => None,
            Some((items, c2)) => Some((items, c + c2)),
        },
    }
}

/// Whether a parameter-name list is representable.
pub open spec fn names_fits(s: Seq<Seq<u8>>) -> bool {
    s.len() <= usize::MAX && forall|k: int| 0 <= k < s.len() ==> (#[trigger] s[k]).len() <= u64::MAX
}

/// Round trip of the parameter-name items.
proof fn lemma_dec_enc_names_items(s: Seq<Seq<u8>>, rest: Seq<u8>)
    requires
        names_fits(s),
    ensures
        spec_dec_names_items(spec_enc_names_items(s) + rest, s.len() as nat) == Some(
            (s, spec_enc_names_items(s).len() as int),
        ),
    decreases s,
{
    if s.len() == 0 {
        assert(spec_enc_names_items(s) + rest =~= rest);
        assert(Seq::empty() =~= s);
    } else {
        let whole = spec_enc_names_items(s) + rest;
        lemma_dec_enc_bytes(s[0], spec_enc_names_items(s.drop_first()) + rest);
        let c = spec_enc_bytes(s[0]).len() as int;
        assert(whole =~= spec_enc_bytes(s[0]) + (spec_enc_names_items(s.drop_first()) + rest));
        assert(whole.skip(c) =~= spec_enc_names_items(s.drop_first()) + rest);
        assert(names_fits(s.drop_first()));
        lemma_dec_enc_names_items(s.drop_first(), rest);
        assert(Seq::empty().push(s[0]) + s.drop_first() =~= s);
        assert(0 < c <= whole.len());
    }
}

/// Round trip of the parameter-name list.
pub proof fn lemma_dec_enc_names(s: Seq<Seq<u8>>, rest: Seq<u8>)
    requires
        names_fits(s),
    ensures
        spec_dec_names(spec_enc_names(s) + rest) == Some((s, spec_enc_names(s).len() as int)),
{
    let whole = spec_enc_names(s) + rest;
    lemma_dec_enc_usize(s.len() as int, spec_enc_names_items(s) + rest);
    assert(whole =~= spec_enc_u64(s.len() as int) + (spec_enc_names_items(s) + rest));
    assert(whole.skip(20) =~= spec_enc_names_items(s) + rest);
    lemma_dec_enc_names_items(s, rest);
}

/// Encoding of a whole program.
pub open spec fn spec_enc_program(v: SpecQuantumProgram) -> Seq<u8> {
    spec_enc_pzp(v.measurement) + spec_enc_names(v.input_parameter_names)
}

/// Decoding of a whole program.
pub open spec fn spec_dec_program(s: Seq<u8>) -> Option<(SpecQuantumProgram, int)> {
    match spec_dec_pzp(s) {
        None => None,
        Some((measurement, c1)) => match spec_dec_names(s.skip(c1)) {
            None => None,
            Some((input_parameter_names, c2)) => Some(
                (SpecQuantumProgram { measurement, input_parameter_names }, c1 + c2),
            ),
        },
    }
}

/// Whether a whole program is representable.
pub open spec fn program_fits(v: SpecQuantumProgram) -> bool {
    pzp_fits(v.measurement) && names_fits(v.input_parameter_names)
}

/// Round trip of a whole program.
#[verifier::rlimit(100)]
#[verifier::spinoff_prover]
pub proof fn lemma_dec_enc_program(v: SpecQuantumProgram, rest: Seq<u8>)
    requires
        program_fits(v),
    ensures
        spec_dec_program(spec_enc_program(v) + rest) == Some(
            (v, spec_enc_program(v).len() as int),
        ),
{
    let whole = spec_enc_program(v) + rest;
    lemma_dec_enc_pzp(v.measurement, spec_enc_names(v.input_parameter_names) + rest);
    assert(whole =~= spec_enc_pzp(v.measurement) + (spec_enc_names(v.input_parameter_names)
        + rest));
    let c1 = spec_enc_pzp(v.measurement).len() as int;
    assert(whole.skip(c1) =~= spec_enc_names(v.input_parameter_names) + rest);
    lemma_dec_enc_names(v.input_parameter_names, rest);
}

/// Appends the encodings of the product terms from position `i` on.
fn enc_masks_from(out: &mut Vec<u8>, v: &Vec<PauliProductMask>, i: usize)
    requires
        i <= v@.len(),
    ensures
        final(out)@ == old(out)@ + spec_enc_masks_items(masks_view(v@).skip(i as int)),
    decreases v@.len() - i,
{
    let ghost mv = masks_view(v@);
    if i == v.len() {
        proof {
            assert(mv.skip(i as int).len() == 0);
            assert(out@ =~= out@ + spec_enc_masks_items(mv.skip(i as int)));
        }
    } else {
        proof {
            assert(mv.skip(i as int)[0] == (v@[i as int].readout@, indices_view(
                v@[i as int].indices@,
            )));
            assert(mv.skip(i as int).drop_first() =~= mv.skip(i + 1));
        }
        enc_bytes(out, &v[i].readout);
        enc_u64s(out, &v[i].indices);
        enc_masks_from(out, v, i + 1);
        proof {
            assert(out@ =~= old(out)@ + spec_enc_masks_items(mv.skip(i as int)));
        }
    }
}

/// Decodes `n` product terms at `pos`.
#[verifier::rlimit(100)]
#[verifier::spinoff_prover]
fn dec_masks_items(buf: &Vec<u8>, pos: usize, n: usize) -> (r: Option<(Vec<PauliProductMask>, usize)>)
    requires
        pos <= buf@.len(),
    ensures
        match r {
            Some((v, p2)) => spec_dec_masks_items(buf@.skip(pos as int), n as nat) == Some(
                (masks_view(v@), p2 - pos as int),
            ) && pos <= p2 <= buf@.len(),
            None => spec_dec_masks_items(buf@.skip(pos as int), n as nat) is None,
        },
    decreases n,
{
    let ghost s = buf@.skip(pos as int);
    if n == 0 {
        let v: Vec<PauliProductMask> = Vec::new();
        proof {
            assert(masks_view(v@) =~= Seq::<(Seq<u8>, Seq<int>)>::empty());
        }
        return Some((v, pos));
    }
    match dec_bytes(buf, pos) {
        None => None,
        Some((readout, p1)) => {
            proof {
                lemma_skip_skip(buf@, pos as int, p1 - pos);
            }
            match dec_u64(buf, p1) {
                None => None,
                Some((cnt, p2)) => {
                    if cnt > usize::MAX as u64 {
                        return None;
                    }
                    proof {
                        lemma_skip_skip(buf@, p1 as int, 20);
                        lemma_skip_skip(buf@, pos as int, p2 - pos);
                    }
                    match dec_u64s_items(buf, p2, cnt as usize) {
                        None => None,
                        Some((indices, p3)) => {
                            proof {
                                lemma_skip_skip(buf@, pos as int, p3 - pos);
                            }
                            match dec_masks_items(buf, p3, n - 1) {
                                None => None,
                                Some((mut v, p4)) => {
                                    let ghost old_v = v@;
                                    let ghost rest_mv = masks_view(v@);
                                    let mask = PauliProductMask { readout, indices };
                                    let ghost mask_v = (mask.readout@, indices_view(mask.indices@));
                                    v.insert(0, mask);
                                    proof {
                                        assert(v@ =~= Seq::empty().push(mask) + old_v);
                                        assert(masks_view(v@) =~= Seq::empty().push(mask_v)
                                            + rest_mv);
                                    }
                                    Some((v, p4))
                                },
                            }
                        },
                    }
                },
            }
        },
    }
}

/// Appends the encodings of the combination entries from position `i`
/// on.
fn enc_terms_from(out: &mut Vec<u8>, v: &Vec<(usize, Fixed)>, i: usize)
    requires
        i <= v@.len(),
    ensures
        final(out)@ == old(out)@ + spec_enc_terms_items(terms_view(v@).skip(i as int)),
    decreases v@.len() - i,
{
    let ghost tv = terms_view(v@);
    if i == v.len() {
        proof {
            assert(tv.skip(i as int).len() == 0);
            assert(out@ =~= out@ + spec_enc_terms_items(tv.skip(i as int)));
        }
    } else {
        proof {
            assert(tv.skip(i as int)[0] == (v@[i as int].0 as int, v@[i as int].1.units as int));
            assert(tv.skip(i as int).drop_first() =~= tv.skip(i + 1));
        }
        enc_u64(out, v[i].0 as u64);
        enc_i64(out, v[i].1.units);
        enc_terms_from(out, v, i + 1);
        proof {
            assert(out@ =~= old(out)@ + spec_enc_terms_items(tv.skip(i as int)));
        }
    }
}

/// Decodes `n` combination entries at `pos`.
#[verifier::rlimit(100)]
#[verifier::spinoff_prover]
fn dec_terms_items(buf: &Vec<u8>, pos: usize, n: usize) -> (r: Option<(Vec<(usize, Fixed)>, usize)>)
    requires
        pos <= buf@.len(),
    ensures
        match r {
            Some((v, p2)) => spec_dec_terms_items(buf@.skip(pos as int), n as nat) == Some(
                (terms_view(v@), p2 - pos as int),
            ) && pos <= p2 <= buf@.len(),
            None => spec_dec_terms_items(buf@.skip(pos as int), n as nat) is None,
        },
    decreases n,
{
    let ghost s = buf@.skip(pos as int);
    if n == 0 {
        let v: Vec<(usize, Fixed)> = Vec::new();
        proof {
            assert(terms_view(v@) =~= Seq::<(int, int)>::empty());
        }
        return Some((v, pos));
    }
    match dec_usize(buf, pos) {
        None => None,
        Some((k, p1)) => {
            proof {
                lemma_skip_skip(buf@, pos as int, 20);
            }
            match dec_i64(buf, p1) {
                None => None,
                Some((cf, p2)) => {
                    proof {
                        lemma_skip_skip(buf@, pos as int, 41);
                    }
                    match dec_terms_items(buf, p2, n - 1) {
                        None => None,
                        Some((mut v, p3)) => {
                            let ghost old_v = v@;
                            let ghost rest_tv = terms_view(v@);
                            v.insert(0, (k, Fixed { units: cf }));
                            proof {
                                assert(v@ =~= Seq::empty().push((k, Fixed { units: cf })) + old_v);
                                assert(terms_view(v@) =~= Seq::empty().push((k as int, cf as int))
                                    + rest_tv);
                            }
                            Some((v, p3))
                        },
                    }
                },
            }
        },
    }
}

/// Appends the encodings of the combinations from position `i` on.
fn enc_combos_from(out: &mut Vec<u8>, v: &Vec<LinearCombination>, i: usize)
    requires
        i <= v@.len(),
    ensures
        final(out)@ == old(out)@ + spec_enc_combos_items(combos_view(v@).skip(i as int)),
    decreases v@.len() - i,
{
    let ghost cv = combos_view(v@);
    if i == v.len() {
        proof {
            assert(cv.skip(i as int).len() == 0);
            assert(out@ =~= out@ + spec_enc_combos_items(cv.skip(i as int)));
        }
    } else {
        proof {
            assert(cv.skip(i as int)[0] == (v@[i as int].name@, terms_view(v@[i as int].terms@)));
            assert(cv.skip(i as int).drop_first() =~= cv.skip(i + 1));
        }
        enc_bytes(out, &v[i].name);
        let ghost tv = terms_view(v@[i as int].terms@);
        proof {
            assert(v@[i as int].terms@.len() == v@[i as int].terms.len());
        }
        enc_u64(out, v[i].terms.len() as u64);
        enc_terms_from(out, &v[i].terms, 0);
        proof {
            assert(tv.skip(0) =~= tv);
        }
        enc_combos_from(out, v, i + 1);
        proof {
            assert(out@ =~= old(out)@ + spec_enc_combos_items(cv.skip(i as int)));
        }
    }
}

/// Decodes `n` combinations at `pos`.
#[verifier::rlimit(100)]
#[verifier::spinoff_prover]
fn dec_combos_items(buf: &Vec<u8>, pos: usize, n: usize) -> (r: Option<
    (Vec<LinearCombination>, usize),
>)
    requires
        pos <= buf@.len(),
    ensures
        match r {
            Some((v, p2)) => spec_dec_combos_items(buf@.skip(pos as int), n as nat) == Some(
                (combos_view(v@), p2 - pos as int),
            ) && pos <= p2 <= buf@.len(),
            None => spec_dec_combos_items(buf@.skip(pos as int), n as nat) is None,
        },
    decreases n,
{
    let ghost s = buf@.skip(pos as int);
    if n == 0 {
        let v: Vec<LinearCombination> = Vec::new();
        proof {
            assert(combos_view(v@) =~= Seq::<(Seq<u8>, Seq<(int, int)>)>::empty());
        }
        return Some((v, pos));
    }
    match dec_bytes(buf, pos) {
        None => None,
        Some((name, p1)) => {
            proof {
                lemma_skip_skip(buf@, pos as int, p1 - pos);
            }
            match dec_usize(buf, p1) {
                None => None,
                Some((cnt, p2)) => {
                    proof {
                        lemma_skip_skip(buf@, p1 as int, 20);
                        lemma_skip_skip(buf@, pos as int, p2 - pos);
                    }
                    match dec_terms_items(buf, p2, cnt) {
                        None => None,
                        Some((terms, p3)) => {
                            proof {
                                lemma_skip_skip(buf@, pos as int, p3 - pos);
                            }
                            match dec_combos_items(buf, p3, n - 1) {
                                None => None,
                                Some((mut v, p4)) => {
                                    let ghost old_v = v@;
                                    let ghost rest_cv = combos_view(v@);
                                    let combo = LinearCombination { name, terms };
                                    let ghost combo_v = (combo.name@, terms_view(combo.terms@));
                                    v.insert(0, combo);
                                    proof {
                                        assert(v@ =~= Seq::empty().push(combo) + old_v);
                                        assert(combos_view(v@) =~= Seq::empty().push(combo_v)
                                            + rest_cv);
                                    }
                                    Some((v, p4))
                                },
                            }
                        },
                    }
                },
            }
        },
    }
}

/// Appends the encoding of a measurement declaration.
fn enc_input(out: &mut Vec<u8>, v: &PauliZProductInput)
    ensures
        final(out)@ == old(out)@ + spec_enc_input(v@),
{
    enc_u64(out, v.number_qubits as u64);
    proof {
        assert(v.pauli_products@.len() == v.pauli_products.len());
        assert(masks_view(v.pauli_products@).skip(0) =~= masks_view(v.pauli_products@));
    }
    enc_u64(out, v.pauli_products.len() as u64);
    enc_masks_from(out, &v.pauli_products, 0);
    proof {
        assert(v.linear_combinations@.len() == v.linear_combinations.len());
        assert(combos_view(v.linear_combinations@).skip(0) =~= combos_view(
            v.linear_combinations@,
        ));
    }
    enc_u64(out, v.linear_combinations.len() as u64);
    enc_combos_from(out, &v.linear_combinations, 0);
    proof {
        assert(out@ =~= old(out)@ + spec_enc_input(v@));
    }
}

/// Decodes a measurement declaration at `pos`.
#[verifier::rlimit(100)]
#[verifier::spinoff_prover]
fn dec_input(buf: &Vec<u8>, pos: usize) -> (r: Option<(PauliZProductInput, usize)>)
    requires
        pos <= buf@.len(),
    ensures
        match r {
            Some((v, p2)) => spec_dec_input(buf@.skip(pos as int)) == Some(
                (v@, p2 - pos as int),
            ) && pos < p2 <= buf@.len(),
            None => spec_dec_input(buf@.skip(pos as int)) is None,
        },
{
    let ghost s = buf@.skip(pos as int);
    match dec_usize(buf, pos) {
        None => None,
        Some((nq, p1)) => {
            proof {
                lemma_skip_skip(buf@, pos as int, 20);
            }
            match dec_usize(buf, p1) {
                None => None,
                Some((nm, p2)) => {
                    proof {
                        lemma_skip_skip(buf@, p1 as int, 20);
                    }
                    match dec_masks_items(buf, p2, nm) {
                        None => None,
                        Some((products, p3)) => {
                            proof {
                                lemma_skip_skip(buf@, p1 as int, p3 - p1);
                                lemma_skip_skip(buf@, pos as int, p3 - pos);
                            }
                            match dec_usize(buf, p3) {
                                None => None,
                                Some((nc, p4)) => {
                                    proof {
                                        lemma_skip_skip(buf@, p3 as int, 20);
                                    }
                                    match dec_combos_items(buf, p4, nc) {
                                        None => None,
                                        Some((combos, p5)) => {
                                            proof {
                                                lemma_skip_skip(buf@, p3 as int, p5 - p3);
                                            }
                                            Some(
                                                (
                                                    PauliZProductInput {
                                                        number_qubits: nq,
                                                        pauli_products: products,
                                                        linear_combinations: combos,
                                                    },
                                                    p5,
                                                ),
                                            )
                                        },
                                    }
                                },
                            }
                        },
                    }
                },
            }
        },
    }
}

/// Appends the encodings of the measurement circuits from position `i`
/// on.
fn enc_circuits_from(out: &mut Vec<u8>, v: &Vec<Circuit>, i: usize)
    requires
        i <= v@.len(),
    ensures
        final(out)@ == old(out)@ + spec_enc_circuits_items(circuits_view(v@).skip(i as int)),
    decreases v@.len() - i,
{
    let ghost cv = circuits_view(v@);
    if i == v.len() {
        proof {
            assert(cv.skip(i as int).len() == 0);
            assert(out@ =~= out@ + spec_enc_circuits_items(cv.skip(i as int)));
        }
    } else {
        proof {
            assert(cv.skip(i as int)[0] == ops_view(v@[i as int].operations@));
            assert(cv.skip(i as int).drop_first() =~= cv.skip(i + 1));
        }
        enc_ops(out, &v[i].operations);
        enc_circuits_from(out, v, i + 1);
        proof {
            assert(out@ =~= old(out)@ + spec_enc_circuits_items(cv.skip(i as int)));
        }
    }
}

/// Decodes `n` measurement circuits at `pos`.
#[verifier::rlimit(100)]
#[verifier::spinoff_prover]
fn dec_circuits_items(buf: &Vec<u8>, pos: usize, n: usize) -> (r: Option<(Vec<Circuit>, usize)>)
    requires
        pos <= buf@.len(),
    ensures
        match r {
            Some((v, p2)) => spec_dec_circuits_items(buf@.skip(pos as int), n as nat) == Some(
                (circuits_view(v@), p2 - pos as int),
            ) && pos <= p2 <= buf@.len(),
            None => spec_dec_circuits_items(buf@.skip(pos as int), n as nat) is None,
        },
    decreases n,
{
    let ghost s = buf@.skip(pos as int);
    if n == 0 {
        let v: Vec<Circuit> = Vec::new();
        proof {
            assert(circuits_view(v@) =~= Seq::<Seq<SpecOp>>::empty());
        }
        return Some((v, pos));
    }
    match dec_ops(buf, pos) {
        None => None,
        Some((ops, p1)) => {
            proof {
                lemma_skip_skip(buf@, pos as int, p1 - pos);
            }
            match dec_circuits_items(buf, p1, n - 1) {
                None => None,
                Some((mut v, p2)) => {
                    let ghost old_v = v@;
                    let ghost rest_cv = circuits_view(v@);
                    let c = Circuit { operations: ops };
                    let ghost c_v = ops_view(c.operations@);
                    v.insert(0, c);
                    proof {
                        assert(v@ =~= Seq::empty().push(c) + old_v);
                        assert(circuits_view(v@) =~= Seq::empty().push(c_v) + rest_cv);
                    }
                    Some((v, p2))
                },
            }
        },
    }
}

/// Appends the encoding of a whole measurement.
fn enc_pzp(out: &mut Vec<u8>, m: &PauliZProduct)
    ensures
        final(out)@ == old(out)@ + spec_enc_pzp(m@),
{
    enc_input(out, &m.input);
    proof {
        assert(m.circuits@.len() == m.circuits.len());
        assert(circuits_view(m.circuits@).skip(0) =~= circuits_view(m.circuits@));
    }
    enc_u64(out, m.circuits.len() as u64);
    enc_circuits_from(out, &m.circuits, 0);
    match &m.constant_circuit {
        None => {
            out.push(110u8);
        },
        Some(c) => {
            out.push(115u8);
            enc_ops(out, &c.operations);
        },
    }
    proof {
        assert(out@ =~= old(out)@ + spec_enc_pzp(m@));
    }
}

/// Decodes a whole measurement at `pos`.
#[verifier::rlimit(100)]
#[verifier::spinoff_prover]
fn dec_pzp(buf: &Vec<u8>, pos: usize) -> (r: Option<(PauliZProduct, usize)>)
    requires
        pos <= buf@.len(),
    ensures
        match r {
            Some((m, p2)) => spec_dec_pzp(buf@.skip(pos as int)) == Some(
                (m@, p2 - pos as int),
            ) && pos < p2 <= buf@.len(),
            None => spec_dec_pzp(buf@.skip(pos as int)) is None,
        },
{
    let ghost s = buf@.skip(pos as int);
    match dec_input(buf, pos) {
        None => None,
        Some((input, p1)) => {
            proof {
                lemma_skip_skip(buf@, pos as int, p1 - pos);
            }
            match dec_usize(buf, p1) {
                None => None,
                Some((nc, p2)) => {
                    proof {
                        lemma_skip_skip(buf@, p1 as int, 20);
                    }
                    match dec_circuits_items(buf, p2, nc) {
                        None => None,
                        Some((circuits, p3)) => {
                            proof {
                                lemma_skip_skip(buf@, p1 as int, p3 - p1);
                            }
                            match dec_opt_ops(buf, p3) {
                                None => None,
                                Some((cc, p4)) => {
                                    proof {
                                        lemma_skip_skip(buf@, p1 as int, p3 - p1);
                                    }
                                    let constant_circuit: Option<Circuit> = match cc {
                                        Some(ops) => Some(Circuit { operations: ops }),
                                        None => None,
                                    };
                                    Some(
                                        (
                                            PauliZProduct { input, circuits, constant_circuit },
                                            p4,
                                        ),
                                    )
                                },
                            }
                        },
                    }
                },
            }
        },
    }
}

/// Appends the encodings of the parameter names from position `i` on.
fn enc_names_from(out: &mut Vec<u8>, v: &Vec<Vec<u8>>, i: usize)
    requires
        i <= v@.len(),
    ensures
        final(out)@ == old(out)@ + spec_enc_names_items(names_view(v@).skip(i as int)),
    decreases v@.len() - i,
{
    let ghost nv = names_view(v@);
    if i == v.len() {
        proof {
            assert(nv.skip(i as int).len() == 0);
            assert(out@ =~= out@ + spec_enc_names_items(nv.skip(i as int)));
        }
    } else {
        proof {
            assert(nv.skip(i as int)[0] == v@[i as int]@);
            assert(nv.skip(i as int).drop_first() =~= nv.skip(i + 1));
        }
        enc_bytes(out, &v[i]);
        enc_names_from(out, v, i + 1);
        proof {
            assert(out@ =~= old(out)@ + spec_enc_names_items(nv.skip(i as int)));
        }
    }
}

/// Decodes `n` parameter names at `pos`.
#[verifier::rlimit(100)]
#[verifier::spinoff_prover]
fn dec_names_items(buf: &Vec<u8>, pos: usize, n: usize) -> (r: Option<(Vec<Vec<u8>>, usize)>)
    requires
        pos <= buf@.len(),
    ensures
        match r {
            Some((v, p2)) => spec_dec_names_items(buf@.skip(pos as int), n as nat) == Some(
                (names_view(v@), p2 - pos as int),
            ) && pos <= p2 <= buf@.len(),
            None => spec_dec_names_items(buf@.skip(pos as int), n as nat) is None,
        },
    decreases n,
{
    let ghost s = buf@.skip(pos as int);
    if n == 0 {
        let v: Vec<Vec<u8>> = Vec::new();
        proof {
            assert(names_view(v@) =~= Seq::<Seq<u8>>::empty());
        }
        return Some((v, pos));
    }
    match dec_bytes(buf, pos) {
        None => None,
        Some((name, p1)) => {
            proof {
                lemma_skip_skip(buf@, pos as int, p1 - pos);
            }
            match dec_names_items(buf, p1, n - 1) {
                None => None,
                Some((mut v, p2)) => {
                    let ghost old_v = v@;
                    let ghost rest_nv = names_view(v@);
                    let ghost name_v = name@;
                    v.insert(0, name);
                    proof {
                        assert(v@ =~= Seq::empty().push(v@[0]) + old_v);
                        assert(names_view(v@) =~= Seq::empty().push(name_v) + rest_nv);
                    }
                    Some((v, p2))
                },
            }
        },
    }
}

/// Decoding of a whole buffer as a measurement: every byte must belong
/// to the encoding.
pub open spec fn spec_decode_pzp(s: Seq<u8>) -> Option<SpecPauliZProduct> {
    match spec_dec_pzp(s) {
        Some((m, c)) => {
            if c == s.len() {
                Some(m)
            } else {
                None
            }
        },
        None => None,
    }
}

/// Decoding of a whole buffer as a program: every byte must belong to
/// the encoding.
pub open spec fn spec_decode_program(s: Seq<u8>) -> Option<SpecQuantumProgram> {
    match spec_dec_program(s) {
        Some((v, c)) => {
            if c == s.len() {
                Some(v)
            } else {
                None
            }
        },
        None => None,
    }
}

/// Round trip: decoding an encoded measurement returns that very
/// measurement.
pub proof fn lemma_measurement_round_trip(m: SpecPauliZProduct)
    requires
        pzp_fits(m),
    ensures
        spec_decode_pzp(spec_enc_pzp(m)) == Some(m),
{
    lemma_dec_enc_pzp(m, Seq::empty());
    assert(spec_enc_pzp(m) + Seq::<u8>::empty() =~= spec_enc_pzp(m));
}

/// Round trip: decoding an encoded program returns that very program.
pub proof fn lemma_program_round_trip(v: SpecQuantumProgram)
    requires
        program_fits(v),
    ensures
        spec_decode_program(spec_enc_program(v)) == Some(v),
{
    lemma_dec_enc_program(v, Seq::empty());
    assert(spec_enc_program(v) + Seq::<u8>::empty() =~= spec_enc_program(v));
}

/// The view of any expression value is representable.
proof fn lemma_expr_view_fits(e: CalcExpr)
    ensures
        expr_fits(expr_view(e)),
    decreases e,
{
    match e {
        CalcExpr::Literal { .. } => {},
        CalcExpr::Variable { name } => {
            assert(name@.len() == vstd::std_specs::vec::spec_vec_len(&name));
        },
        CalcExpr::Add { left, right } => {
            lemma_expr_view_fits(*left);
            lemma_expr_view_fits(*right);
        },
        CalcExpr::Sub { left, right } => {
            lemma_expr_view_fits(*left);
            lemma_expr_view_fits(*right);
        },
        CalcExpr::Mul { left, right } => {
            lemma_expr_view_fits(*left);
            lemma_expr_view_fits(*right);
        },
        CalcExpr::Div { left, right } => {
            lemma_expr_view_fits(*left);
            lemma_expr_view_fits(*right);
        },
    }
}

/// The view of any operation value is representable.
proof fn lemma_op_view_fits(op: Operation)
    ensures
        op_fits(op_view(op)),
    decreases op, 0nat,
{
    match op {
        Operation::RotateX { theta, .. } => {
            lemma_expr_view_fits(theta);
        },
        Operation::RotateY { theta, .. } => {
            lemma_expr_view_fits(theta);
        },
        Operation::RotateZ { theta, .. } => {
            lemma_expr_view_fits(theta);
        },
        Operation::DefinitionBit { name, .. } => {
            assert(name@.len() == vstd::std_specs::vec::spec_vec_len(&name));
        },
        Operation::DefinitionFloat { name, .. } => {
            assert(name@.len() == vstd::std_specs::vec::spec_vec_len(&name));
        },
        Operation::DefinitionComplex { name, .. } => {
            assert(name@.len() == vstd::std_specs::vec::spec_vec_len(&name));
        },
        Operation::MeasureQubit { readout, .. } => {
            assert(readout@.len() == vstd::std_specs::vec::spec_vec_len(&readout));
        },
        Operation::PragmaRepeatedMeasurement { readout, qubit_mapping, .. } => {
            assert(readout@.len() == vstd::std_specs::vec::spec_vec_len(&readout));
            match qubit_mapping {
                Some(m) => {
                    assert(m@.len() == vstd::std_specs::vec::spec_vec_len(&m));
                },
                None => {},
            }
        },
        Operation::PragmaSetNumberOfMeasurements { readout, .. } => {
            assert(readout@.len() == vstd::std_specs::vec::spec_vec_len(&readout));
        },
        Operation::PragmaSetStateVector { statevector } => {
            assert(statevector@.len() == vstd::std_specs::vec::spec_vec_len(&statevector));
        },
        Operation::PragmaGetStateVector { readout, circuit } => {
            assert(readout@.len() == vstd::std_specs::vec::spec_vec_len(&readout));
            match circuit {
                Some(c) => {
                    assert(c.operations@.len() == vstd::std_specs::vec::spec_vec_len(
                        &c.operations,
                    ));
                    lemma_seq_ops_view_fits(c.operations@);
                },
                None => {},
            }
        },
        Operation::PragmaConditional { condition_register, circuit, .. } => {
            assert(condition_register@.len() == vstd::std_specs::vec::spec_vec_len(
                &condition_register,
            ));
            assert(circuit.operations@.len() == vstd::std_specs::vec::spec_vec_len(
                &circuit.operations,
            ));
            lemma_seq_ops_view_fits(circuit.operations@);
        },
        _ => {},
    }
}

/// The view of any bounded operation sequence is representable.
proof fn lemma_seq_ops_view_fits(s: Seq<Operation>)
    requires
        s.len() <= usize::MAX,
    ensures
        ops_fits(ops_view(s)),
    decreases s, 1nat,
{
    lemma_ops_view(s);
    if s.len() > 0 {
        lemma_op_view_fits(s[0]);
        lemma_seq_ops_view_fits(s.drop_first());
        lemma_ops_view(s.drop_first());
        assert(ops_view(s).drop_first() =~= ops_view(s.drop_first()));
        assert(ops_view(s)[0] == op_view(s[0]));
    }
}

/// The view of any measurement declaration is representable.
proof fn lemma_input_view_fits(v: PauliZProductInput)
    ensures
        input_fits(v@),
{
    assert(v.pauli_products@.len() == vstd::std_specs::vec::spec_vec_len(&v.pauli_products));
    assert(v.linear_combinations@.len() == vstd::std_specs::vec::spec_vec_len(
        &v.linear_combinations,
    ));
    let mv = masks_view(v.pauli_products@);
    assert forall|k: int| 0 <= k < mv.len() implies (#[trigger] mv[k]).0.len() <= u64::MAX
        && u64s_fits(mv[k].1) by {
        let m = v.pauli_products@[k];
        assert(m.readout@.len() == vstd::std_specs::vec::spec_vec_len(&m.readout));
        assert(m.indices@.len() == vstd::std_specs::vec::spec_vec_len(&m.indices));
        assert(mv[k].0 == m.readout@);
        assert(mv[k].1 == indices_view(m.indices@));
        assert forall|j: int| 0 <= j < indices_view(m.indices@).len() implies 0 <= #[trigger] indices_view(
            m.indices@,
        )[j] <= usize::MAX by {
            assert(indices_view(m.indices@)[j] == m.indices@[j] as int);
        }
    }
    let cv = combos_view(v.linear_combinations@);
    assert forall|k: int| 0 <= k < cv.len() implies (#[trigger] cv[k]).0.len() <= u64::MAX
        && terms_fits(cv[k].1) by {
        let c = v.linear_combinations@[k];
        assert(c.name@.len() == vstd::std_specs::vec::spec_vec_len(&c.name));
        assert(c.terms@.len() == vstd::std_specs::vec::spec_vec_len(&c.terms));
        assert(cv[k].0 == c.name@);
        assert(cv[k].1 == terms_view(c.terms@));
        assert forall|j: int| 0 <= j < terms_view(c.terms@).len() implies 0 <= (
        #[trigger] terms_view(c.terms@)[j]).0 <= usize::MAX && i64::MIN <= terms_view(
            c.terms@,
        )[j].1 <= i64::MAX by {
            assert(terms_view(c.terms@)[j] == (c.terms@[j].0 as int, c.terms@[j].1.units as int));
        }
    }
}

/// The view of any bounded circuit list is representable.
proof fn lemma_circuits_view_fits(s: Seq<Circuit>)
    requires
        s.len() <= usize::MAX,
    ensures
        circuits_fits(circuits_view(s)),
    decreases s,
{
    if s.len() > 0 {
        assert(s[0].operations@.len() == vstd::std_specs::vec::spec_vec_len(&s[0].operations));
        lemma_seq_ops_view_fits(s[0].operations@);
        lemma_circuits_view_fits(s.drop_first());
        assert(circuits_view(s).drop_first() =~= circuits_view(s.drop_first()));
        assert(circuits_view(s)[0] == ops_view(s[0].operations@));
        assert(circuits_fits(circuits_view(s)));
    } else {
        assert(circuits_view(s).len() == 0);
    }
}

/// The view of any measurement value is representable.
pub proof fn lemma_pzp_view_fits(m: PauliZProduct)
    ensures
        pzp_fits(m@),
{
    lemma_input_view_fits(m.input);
    assert(m.circuits@.len() == vstd::std_specs::vec::spec_vec_len(&m.circuits));
    lemma_circuits_view_fits(m.circuits@);
    match m.constant_circuit {
        Some(c) => {
            assert(c.operations@.len() == vstd::std_specs::vec::spec_vec_len(&c.operations));
            lemma_seq_ops_view_fits(c.operations@);
        },
        None => {},
    }
}

/// The view of any program value is representable.
pub proof fn lemma_program_view_fits(v: QuantumProgram)
    ensures
        program_fits(v@),
{
    lemma_pzp_view_fits(v.measurement);
    assert(v.input_parameter_names@.len() == vstd::std_specs::vec::spec_vec_len(
        &v.input_parameter_names,
    ));
    let nv = names_view(v.input_parameter_names@);
    assert forall|k: int| 0 <= k < nv.len() implies (#[trigger] nv[k]).len() <= u64::MAX by {
        let n = v.input_parameter_names@[k];
        assert(n@.len() == vstd::std_specs::vec::spec_vec_len(&n));
        assert(nv[k] == n@);
    }
}

impl PauliZProduct {
    /// Encodes this measurement as text; decoding the result returns a
    /// measurement with the same mathematical view.
    pub fn to_bytes(&self) -> (r: Vec<u8>)
        ensures
            r@ == spec_enc_pzp(self@),
            pzp_fits(self@),
            spec_decode_pzp(r@) == Some(self@),
    {
        let mut out: Vec<u8> = Vec::new();
        enc_pzp(&mut out, self);
        proof {
            assert(out@ =~= spec_enc_pzp(self@));
            lemma_pzp_view_fits(*self);
            lemma_measurement_round_trip(self@);
        }
        out
    }

    /// Decodes a measurement from text; the whole buffer must belong to
    /// the encoding.
    pub fn from_bytes(buf: &Vec<u8>) -> (r: Option<PauliZProduct>)
        ensures
            match r {
                Some(m) => spec_decode_pzp(buf@) == Some(m@),
                None => spec_decode_pzp(buf@) is None,
            },
    {
        proof {
            assert(buf@.skip(0) =~= buf@);
        }
        match dec_pzp(buf, 0) {
            None => None,
            Some((m, p)) => {
                if p == buf.len() {
                    Some(m)
                } else {
                    None
                }
            },
        }
    }
}

impl QuantumProgram {
    /// Encodes this program as text; decoding the result returns a
    /// program with the same mathematical view.
    pub fn to_bytes(&self) -> (r: Vec<u8>)
        ensures
            r@ == spec_enc_program(self@),
            program_fits(self@),
            spec_decode_program(r@) == Some(self@),
    {
        let mut out: Vec<u8> = Vec::new();
        enc_pzp(&mut out, &self.measurement);
        proof {
            assert(self.input_parameter_names@.len() == vstd::std_specs::vec::spec_vec_len(
                &self.input_parameter_names,
            ));
            assert(names_view(self.input_parameter_names@).skip(0) =~= names_view(
                self.input_parameter_names@,
            ));
        }
        enc_u64(&mut out, self.input_parameter_names.len() as u64);
        enc_names_from(&mut out, &self.input_parameter_names, 0);
        proof {
            assert(out@ =~= spec_enc_program(self@));
            lemma_program_view_fits(*self);
            lemma_program_round_trip(self@);
        }
        out
    }

    /// Decodes a program from text; the whole buffer must belong to the
    /// encoding.
    pub fn from_bytes(buf: &Vec<u8>) -> (r: Option<QuantumProgram>)
        ensures
            match r {
                Some(v) => spec_decode_program(buf@) == Some(v@),
                None => spec_decode_program(buf@) is None,
            },
    {
        proof {
            assert(buf@.skip(0) =~= buf@);
        }
        match dec_pzp(buf, 0) {
            None => None,
            Some((measurement, p1)) => {
                proof {
                    lemma_skip_skip(buf@, 0, p1 as int);
                }
                match dec_usize(buf, p1) {
                    None => None,
                    Some((n, p2)) => {
                        proof {
                            lemma_skip_skip(buf@, p1 as int, 20);
                        }
                        match dec_names_items(buf, p2, n) {
                            None => None,
                            Some((input_parameter_names, p3)) => {
                                proof {
                                    lemma_skip_skip(buf@, p1 as int, p3 - p1);
                                }
                                if p3 == buf.len() {
                                    Some(QuantumProgram { measurement, input_parameter_names })
                                } else {
                                    None
                                }
                            },
                        }
                    },
                }
            },
        }
    }
}

} // verus!
