//! The four-valued operators the component kernel evaluates: bitwise gates,
//! tri-state buffering, horizontal reductions, arithmetic, shifts and
//! comparisons, each specified per bit or per value.

use crate::logic::{
    lbs_from_bits, lbs_state_bit, lbs_valid_bit, ls_all_valid, ls_bit, ls_val, spec_lbs_from_bool,
    LogicBitState, LogicState,
};
use vstd::arithmetic::power2::pow2;
use vstd::prelude::*;

verus! {

/// The base binary operator of a gate family.
#[derive(Debug, Clone, Copy, PartialEq, Eq, Structural)]
pub enum BinaryOp {
    And,
    Or,
    Xor,
}

/// The AND of two four-valued bits: the state lanes are ANDed, and the
/// result is valid when both inputs are valid or either is a valid 0.
pub open spec fn and_bit(a: LogicBitState, b: LogicBitState) -> LogicBitState {
    let sa = lbs_state_bit(a);
    let va = lbs_valid_bit(a);
    let sb = lbs_state_bit(b);
    let vb = lbs_valid_bit(b);
    lbs_from_bits(sa && sb, (va && vb) || (va && !sa) || (vb && !sb))
}

/// The OR of two four-valued bits: the state lanes are ORed, and the result
/// is valid when both inputs are valid or either is a valid 1.
pub open spec fn or_bit(a: LogicBitState, b: LogicBitState) -> LogicBitState {
    let sa = lbs_state_bit(a);
    let va = lbs_valid_bit(a);
    let sb = lbs_state_bit(b);
    let vb = lbs_valid_bit(b);
    lbs_from_bits(sa || sb, (va && vb) || (va && sa) || (vb && sb))
}

/// The XOR of two four-valued bits: the state lanes are XORed, and the
/// result is valid only when both inputs are valid.
pub open spec fn xor_bit(a: LogicBitState, b: LogicBitState) -> LogicBitState {
    let sa = lbs_state_bit(a);
    let va = lbs_valid_bit(a);
    let sb = lbs_state_bit(b);
    let vb = lbs_valid_bit(b);
    lbs_from_bits(sa != sb, va && vb)
}

/// The base operator of a gate family applied to two four-valued bits.
pub open spec fn binary_bit(op: BinaryOp, a: LogicBitState, b: LogicBitState) -> LogicBitState {
    match op {
        BinaryOp::And => and_bit(a, b),
        BinaryOp::Or => or_bit(a, b),
        BinaryOp::Xor => xor_bit(a, b),
    }
}

/// Flips the state lane of a four-valued bit and keeps its valid lane: the
/// NOT operator, and the final step of the negated gate families.
pub open spec fn invert_bit(a: LogicBitState) -> LogicBitState {
    lbs_from_bits(!lbs_state_bit(a), lbs_valid_bit(a))
}

/// The left fold of a gate's base operator over bit `j` of the first `n`
/// inputs.
pub open spec fn fold_gate_bit(op: BinaryOp, inputs: Seq<LogicState>, n: int, j: u32) -> (
    LogicBitState)
    decreases n,
{
    if n <= 1 {
        ls_bit(inputs[0], j)
    } else {
        binary_bit(op, fold_gate_bit(op, inputs, n - 1, j), ls_bit(inputs[n - 1], j))
    }
}

/// The left fold of a gate's base operator over the first `n` bits of one
/// input: the horizontal reduction.
pub open spec fn hfold_bit(op: BinaryOp, input: LogicState, n: int) -> LogicBitState
    decreases n,
{
    if n <= 1 {
        ls_bit(input, 0)
    } else {
        binary_bit(op, hfold_bit(op, input, n - 1), ls_bit(input, (n - 1) as u32))
    }
}

fn exec_binary_bit(op: BinaryOp, a: LogicBitState, b: LogicBitState) -> (r: LogicBitState)
    ensures
        r == binary_bit(op, a, b),
{
    let (sa, va) = a.to_bits();
    let (sb, vb) = b.to_bits();
    match op {
        BinaryOp::And => LogicBitState::from_bits(
            sa && sb,
            (va && vb) || (va && !sa) || (vb && !sb),
        ),
        BinaryOp::Or => LogicBitState::from_bits(sa || sb, (va && vb) || (va && sa) || (vb && sb)),
        BinaryOp::Xor => LogicBitState::from_bits(sa != sb, va && vb),
    }
}

fn exec_invert_bit(a: LogicBitState) -> (r: LogicBitState)
    ensures
        r == invert_bit(a),
{
    match a {
        LogicBitState::HighZ => LogicBitState::Undefined,
        LogicBitState::Undefined => LogicBitState::HighZ,
        LogicBitState::Logic0 => LogicBitState::Logic1,
        LogicBitState::Logic1 => LogicBitState::Logic0,
    }
}

/// Keeps the first `width` bits of a logic state and clears the rest to
/// high impedance, the convention for bits past a wire's width.
pub fn mask_ls(a: LogicState, width: u32) -> (r: LogicState)
    requires
        width <= 256,
    ensures
        forall|j: u32| j < width ==> ls_bit(r, j) == ls_bit(a, j),
        forall|j: u32| width <= j < 256 ==> ls_bit(r, j) == LogicBitState::HighZ,
{
    let mut r = LogicState::high_z();
    let mut j: u32 = 0;
    while j < width
        invariant
            j <= width <= 256,
            forall|q: u32| q < j ==> ls_bit(r, q) == ls_bit(a, q),
            forall|q: u32| j <= q < 256 ==> ls_bit(r, q) == LogicBitState::HighZ,
        decreases width - j,
    {
        r = r.with_bit(j, a.get_bit_state(j as u8));
        j = j + 1;
    }
    r
}

/// Applies a gate family's base operator bit-by-bit to two logic states.
fn binary_ls(op: BinaryOp, a: LogicState, b: LogicState) -> (r: LogicState)
    ensures
        forall|j: u32| j < 256 ==> ls_bit(r, j) == binary_bit(op, ls_bit(a, j), ls_bit(b, j)),
{
    let mut r = LogicState::high_z();
    let mut j: u32 = 0;
    while j < 256
        invariant
            j <= 256,
            forall|q: u32| q < j ==> ls_bit(r, q) == binary_bit(op, ls_bit(a, q), ls_bit(b, q)),
        decreases 256 - j,
    {
        let bit = exec_binary_bit(op, a.get_bit_state(j as u8), b.get_bit_state(j as u8));
        r = r.with_bit(j, bit);
        j = j + 1;
    }
    r
}

/// Evaluates a wide gate: the base operator folded over all inputs in
/// order, inverted for the negated families, masked to the output width.
///
/// A gate without inputs yields all-undefined output bits.
pub fn eval_wide_gate(op: BinaryOp, negate: bool, inputs: &Vec<LogicState>, width: u32) -> (r:
    LogicState)
    requires
        1 <= width <= 256,
    ensures
        inputs@.len() == 0 ==> {
            &&& forall|j: u32| j < width ==> ls_bit(r, j) == LogicBitState::Undefined
            &&& forall|j: u32| width <= j < 256 ==> ls_bit(r, j) == LogicBitState::HighZ
        },
        inputs@.len() > 0 ==> {
            &&& forall|j: u32|
                j < width ==> ls_bit(r, j) == (if negate {
                    invert_bit(fold_gate_bit(op, inputs@, inputs@.len() as int, j))
                } else {
                    fold_gate_bit(op, inputs@, inputs@.len() as int, j)
                })
            &&& forall|j: u32| width <= j < 256 ==> ls_bit(r, j) == LogicBitState::HighZ
        },
{
    if inputs.len() == 0 {
        return mask_ls(LogicState::undefined(), width);
    }
    let mut acc = inputs[0];
    let mut k: usize = 1;
    while k < inputs.len()
        invariant
            1 <= k <= inputs@.len(),
            forall|j: u32| j < 256 ==> ls_bit(acc, j) == fold_gate_bit(op, inputs@, k as int, j),
        decreases inputs@.len() - k,
    {
        acc = binary_ls(op, acc, inputs[k]);
        k = k + 1;
    }
    if negate {
        let mut inv = LogicState::high_z();
        let mut j: u32 = 0;
        while j < 256
            invariant
                j <= 256,
                forall|q: u32| q < j ==> ls_bit(inv, q) == invert_bit(ls_bit(acc, q)),
            decreases 256 - j,
        {
            inv = inv.with_bit(j, exec_invert_bit(acc.get_bit_state(j as u8)));
            j = j + 1;
        }
        mask_ls(inv, width)
    } else {
        mask_ls(acc, width)
    }
}

/// Evaluates a NOT gate: every input bit's state lane flipped where valid,
/// undefined where not, masked to the output width.
pub fn eval_not(a: LogicState, width: u32) -> (r: LogicState)
    requires
        1 <= width <= 256,
    ensures
        forall|j: u32| j < width ==> ls_bit(r, j) == invert_bit(ls_bit(a, j)),
        forall|j: u32| width <= j < 256 ==> ls_bit(r, j) == LogicBitState::HighZ,
{
    let mut r = LogicState::high_z();
    let mut j: u32 = 0;
    while j < width
        invariant
            j <= width <= 256,
            forall|q: u32| q < j ==> ls_bit(r, q) == invert_bit(ls_bit(a, q)),
            forall|q: u32| j <= q < 256 ==> ls_bit(r, q) == LogicBitState::HighZ,
        decreases width - j,
    {
        r = r.with_bit(j, exec_invert_bit(a.get_bit_state(j as u8)));
        j = j + 1;
    }
    r
}

/// Evaluates a tri-state buffer: with the enable bit at logic 1 the input
/// passes through, at logic 0 the output floats, and otherwise the output is
/// undefined; always masked to the output width.
pub fn eval_buffer(a: LogicState, enable: LogicBitState, width: u32) -> (r: LogicState)
    requires
        1 <= width <= 256,
    ensures
        enable == LogicBitState::Logic1 ==> {
            &&& forall|j: u32| j < width ==> ls_bit(r, j) == ls_bit(a, j)
            &&& forall|j: u32| width <= j < 256 ==> ls_bit(r, j) == LogicBitState::HighZ
        },
        enable == LogicBitState::Logic0 ==> forall|j: u32|
            j < 256 ==> ls_bit(r, j) == LogicBitState::HighZ,
        enable == LogicBitState::HighZ || enable == LogicBitState::Undefined ==> {
            &&& forall|j: u32| j < width ==> ls_bit(r, j) == LogicBitState::Undefined
            &&& forall|j: u32| width <= j < 256 ==> ls_bit(r, j) == LogicBitState::HighZ
        },
{
    match enable {
        LogicBitState::Logic1 => mask_ls(a, width),
        LogicBitState::Logic0 => LogicState::high_z(),
        _ => mask_ls(LogicState::undefined(), width),
    }
}

/// Evaluates a horizontal gate: the base operator folded over the first
/// `input_width` bits of the single input, inverted for the negated
/// families; the result lands in bit 0, all other output bits are logic 0.
pub fn eval_horizontal(op: BinaryOp, negate: bool, a: LogicState, input_width: u32, width: u32) -> (
    r: LogicState)
    requires
        1 <= input_width <= 256,
        1 <= width <= 256,
    ensures
        ls_bit(r, 0) == (if negate {
            invert_bit(hfold_bit(op, a, input_width as int))
        } else {
            hfold_bit(op, a, input_width as int)
        }),
        forall|j: u32| 0 < j < width ==> ls_bit(r, j) == LogicBitState::Logic0,
        forall|j: u32| width <= j < 256 ==> ls_bit(r, j) == LogicBitState::HighZ,
{
    let mut acc = a.get_bit_state(0);
    let mut j: u32 = 1;
    while j < input_width
        invariant
            1 <= j <= input_width <= 256,
            acc == hfold_bit(op, a, j as int),
        decreases input_width - j,
    {
        acc = exec_binary_bit(op, acc, a.get_bit_state(j as u8));
        j = j + 1;
    }
    if negate {
        acc = exec_invert_bit(acc);
    }
    let zero = LogicState::logic_0();
    mask_ls(zero, width).with_bit(0, acc)
}

/// Doubling steps a power of two.
proof fn lemma_pow2_double(j: nat)
    ensures
        pow2(j + 1) == 2 * pow2(j),
{
    vstd::arithmetic::power2::lemma_pow2_adds(j, 1);
    vstd::arithmetic::power2::lemma2_to64();
}

/// The value of the first `n` bits depends only on those bits.
pub proof fn lemma_ls_val_ext(s1: LogicState, s2: LogicState, n: int)
    requires
        forall|j: u32| j < n ==> ls_bit(s1, j) == ls_bit(s2, j),
    ensures
        ls_val(s1, n) == ls_val(s2, n),
    decreases n,
{
    if n > 0 {
        lemma_ls_val_ext(s1, s2, n - 1);
    }
}

/// A state without logic-1 bits below `n` is worth zero there.
pub proof fn lemma_ls_val_all_zero(s: LogicState, n: int)
    requires
        forall|j: u32| j < n ==> ls_bit(s, j) != LogicBitState::Logic1,
    ensures
        ls_val(s, n) == 0,
    decreases n,
{
    if n > 0 {
        lemma_ls_val_all_zero(s, n - 1);
    }
}

/// Two all-valid states of equal value have equal bits.
pub proof fn lemma_ls_val_determines_bits(s1: LogicState, s2: LogicState, n: int)
    requires
        0 <= n <= 256,
        ls_all_valid(s1, n),
        ls_all_valid(s2, n),
        ls_val(s1, n) == ls_val(s2, n),
    ensures
        forall|j: u32| j < n ==> ls_bit(s1, j) == ls_bit(s2, j),
    decreases n,
{
    if n > 0 {
        let m = (n - 1) as u32;
        crate::logic::lemma_ls_val_bound(s1, n - 1);
        crate::logic::lemma_ls_val_bound(s2, n - 1);
        assert(lbs_valid_bit(ls_bit(s1, m)));
        assert(lbs_valid_bit(ls_bit(s2, m)));
        assert(ls_bit(s1, m) == ls_bit(s2, m));
        assert(ls_val(s1, n - 1) == ls_val(s2, n - 1));
        lemma_ls_val_determines_bits(s1, s2, n - 1);
    }
}

/// Checks that the first `width` bits are all valid logic levels.
pub fn ls_valid_up_to(a: &LogicState, width: u32) -> (r: bool)
    requires
        width <= 256,
    ensures
        r == ls_all_valid(*a, width as int),
{
    let mut j: u32 = 0;
    while j < width
        invariant
            j <= width <= 256,
            forall|q: u32| q < j ==> lbs_valid_bit(#[trigger] ls_bit(*a, q)),
        decreases width - j,
    {
        match a.get_bit_state(j as u8) {
            LogicBitState::HighZ | LogicBitState::Undefined => {
                return false;
            },
            _ => {},
        }
        j = j + 1;
    }
    true
}

fn bit_is_one(b: LogicBitState) -> (r: bool)
    ensures
        r == (b == LogicBitState::Logic1),
{
    match b {
        LogicBitState::Logic1 => true,
        _ => false,
    }
}

/// Evaluates addition: with any non-valid input bit the whole output is
/// undefined; otherwise the state lanes are summed modulo `2^width`.
pub fn eval_add(a: LogicState, b: LogicState, width: u32) -> (r: LogicState)
    requires
        1 <= width <= 256,
    ensures
        !(ls_all_valid(a, width as int) && ls_all_valid(b, width as int)) ==> {
            &&& forall|j: u32| j < width ==> ls_bit(r, j) == LogicBitState::Undefined
            &&& forall|j: u32| width <= j < 256 ==> ls_bit(r, j) == LogicBitState::HighZ
        },
        ls_all_valid(a, width as int) && ls_all_valid(b, width as int) ==> {
            &&& ls_all_valid(r, width as int)
            &&& ls_val(r, width as int) == (ls_val(a, width as int) + ls_val(b, width as int))
                % pow2(width as nat)
            &&& forall|j: u32| width <= j < 256 ==> ls_bit(r, j) == LogicBitState::HighZ
        },
{
    if !ls_valid_up_to(&a, width) || !ls_valid_up_to(&b, width) {
        return mask_ls(LogicState::undefined(), width);
    }
    let mut r = LogicState::high_z();
    let mut carry = false;
    let mut j: u32 = 0;
    while j < width
        invariant
            j <= width <= 256,
            ls_all_valid(a, width as int),
            ls_all_valid(b, width as int),
            forall|q: u32| q < j ==> lbs_valid_bit(#[trigger] ls_bit(r, q)),
            forall|q: u32| j <= q < 256 ==> ls_bit(r, q) == LogicBitState::HighZ,
            ls_val(r, j as int) + (if carry {
                pow2(j as nat)
            } else {
                0nat
            }) == ls_val(a, j as int) + ls_val(b, j as int),
        decreases width - j,
    {
        let sa = bit_is_one(a.get_bit_state(j as u8));
        let sb = bit_is_one(b.get_bit_state(j as u8));
        let sum = (sa != sb) != carry;
        let new_carry = (sa && sb) || (sa && carry) || (sb && carry);
        let ghost old_r = r;
        let ghost old_carry = carry;
        r = r.with_bit(j, LogicBitState::from_bool(sum));
        carry = new_carry;
        proof {
            lemma_ls_val_ext(old_r, r, j as int);
            lemma_pow2_double(j as nat);
            assert(ls_val(r, j as int + 1) == ls_val(r, j as int) + (if sum {
                pow2(j as nat)
            } else {
                0nat
            }));
            assert(ls_val(a, j as int + 1) == ls_val(a, j as int) + (if sa {
                pow2(j as nat)
            } else {
                0nat
            })) by {
                assert((ls_bit(a, j) == LogicBitState::Logic1) == sa);
            }
            assert(ls_val(b, j as int + 1) == ls_val(b, j as int) + (if sb {
                pow2(j as nat)
            } else {
                0nat
            })) by {
                assert((ls_bit(b, j) == LogicBitState::Logic1) == sb);
            }
        }
        j = j + 1;
    }
    proof {
        crate::logic::lemma_ls_val_bound(r, width as int);
        let w = width as nat;
        let lsv = ls_val(r, width as int) as int;
        let total = ls_val(a, width as int) + ls_val(b, width as int);
        vstd::arithmetic::power2::lemma_pow2_pos(w);
        if carry {
            vstd::arithmetic::div_mod::lemma_fundamental_div_mod_converse(
                total as int,
                pow2(w) as int,
                1,
                lsv,
            );
        } else {
            vstd::arithmetic::div_mod::lemma_fundamental_div_mod_converse(
                total as int,
                pow2(w) as int,
                0,
                lsv,
            );
        }
    }
    r
}

/// Evaluates subtraction: with any non-valid input bit the whole output is
/// undefined; otherwise the state lanes are subtracted modulo `2^width`,
/// computed as addition of the complement with carry-in 1.
pub fn eval_sub(a: LogicState, b: LogicState, width: u32) -> (r: LogicState)
    requires
        1 <= width <= 256,
    ensures
        !(ls_all_valid(a, width as int) && ls_all_valid(b, width as int)) ==> {
            &&& forall|j: u32| j < width ==> ls_bit(r, j) == LogicBitState::Undefined
            &&& forall|j: u32| width <= j < 256 ==> ls_bit(r, j) == LogicBitState::HighZ
        },
        ls_all_valid(a, width as int) && ls_all_valid(b, width as int) ==> {
            &&& ls_all_valid(r, width as int)
            &&& ls_val(r, width as int) == (ls_val(a, width as int) + pow2(width as nat) - ls_val(
                b,
                width as int,
            )) % (pow2(width as nat) as int)
            &&& forall|j: u32| width <= j < 256 ==> ls_bit(r, j) == LogicBitState::HighZ
        },
{
    if !ls_valid_up_to(&a, width) || !ls_valid_up_to(&b, width) {
        return mask_ls(LogicState::undefined(), width);
    }
    let mut r = LogicState::high_z();
    let mut carry = true;
    let mut j: u32 = 0;
    proof {
        vstd::arithmetic::power2::lemma2_to64();
    }
    while j < width
        invariant
            j <= width <= 256,
            ls_all_valid(a, width as int),
            ls_all_valid(b, width as int),
            forall|q: u32| q < j ==> lbs_valid_bit(#[trigger] ls_bit(r, q)),
            forall|q: u32| j <= q < 256 ==> ls_bit(r, q) == LogicBitState::HighZ,
            ls_val(r, j as int) + (if carry {
                pow2(j as nat)
            } else {
                0nat
            }) == ls_val(a, j as int) + pow2(j as nat) - ls_val(b, j as int),
        decreases width - j,
    {
        proof {
            crate::logic::lemma_ls_val_bound(b, j as int);
        }
        let sa = bit_is_one(a.get_bit_state(j as u8));
        let sb = !bit_is_one(b.get_bit_state(j as u8));
        let sum = (sa != sb) != carry;
        let new_carry = (sa && sb) || (sa && carry) || (sb && carry);
        let ghost old_r = r;
        r = r.with_bit(j, LogicBitState::from_bool(sum));
        proof {
            lemma_ls_val_ext(old_r, r, j as int);
            lemma_pow2_double(j as nat);
            assert(ls_val(r, j as int + 1) == ls_val(r, j as int) + (if sum {
                pow2(j as nat)
            } else {
                0nat
            }));
            assert(ls_val(a, j as int + 1) == ls_val(a, j as int) + (if sa {
                pow2(j as nat)
            } else {
                0nat
            })) by {
                assert((ls_bit(a, j) == LogicBitState::Logic1) == sa);
            }
            assert(ls_val(b, j as int + 1) == ls_val(b, j as int) + (if !sb {
                pow2(j as nat)
            } else {
                0nat
            })) by {
                assert((ls_bit(b, j) == LogicBitState::Logic1) == !sb);
            }
        }
        carry = new_carry;
        j = j + 1;
    }
    proof {
        crate::logic::lemma_ls_val_bound(r, width as int);
        crate::logic::lemma_ls_val_bound(b, width as int);
        let w = width as nat;
        let lsv = ls_val(r, width as int) as int;
        let total = ls_val(a, width as int) + pow2(w) - ls_val(b, width as int);
        vstd::arithmetic::power2::lemma_pow2_pos(w);
        if carry {
            vstd::arithmetic::div_mod::lemma_fundamental_div_mod_converse(
                total as int,
                pow2(w) as int,
                1,
                lsv,
            );
        } else {
            vstd::arithmetic::div_mod::lemma_fundamental_div_mod_converse(
                total as int,
                pow2(w) as int,
                0,
                lsv,
            );
        }
    }
    r
}

/// Evaluates negation: with any non-valid input bit the whole output is
/// undefined; otherwise the two's complement of the input modulo `2^width`.
pub fn eval_neg(a: LogicState, width: u32) -> (r: LogicState)
    requires
        1 <= width <= 256,
    ensures
        !ls_all_valid(a, width as int) ==> {
            &&& forall|j: u32| j < width ==> ls_bit(r, j) == LogicBitState::Undefined
            &&& forall|j: u32| width <= j < 256 ==> ls_bit(r, j) == LogicBitState::HighZ
        },
        ls_all_valid(a, width as int) ==> {
            &&& ls_all_valid(r, width as int)
            &&& ls_val(r, width as int) == (pow2(width as nat) - ls_val(a, width as int)) % (pow2(
                width as nat,
            ) as int)
            &&& forall|j: u32| width <= j < 256 ==> ls_bit(r, j) == LogicBitState::HighZ
        },
{
    let zero = LogicState::logic_0();
    proof {
        lemma_ls_val_all_zero(zero, width as int);
    }
    eval_sub(zero, a, width)
}

/// The kind of a shift operator.
#[derive(Debug, Clone, Copy, PartialEq, Eq, Structural)]
pub enum ShiftOp {
    Lsh,
    LRsh,
    ARsh,
}

/// The shift amount, saturated at 256: enough to tell every in-range amount
/// apart and to recognize any amount that shifts everything out.
fn sat_amount(b: &LogicState, b_width: u32) -> (amt: u32)
    requires
        1 <= b_width <= 256,
        ls_all_valid(*b, b_width as int),
    ensures
        amt as nat == (if ls_val(*b, b_width as int) < 256 {
            ls_val(*b, b_width as int)
        } else {
            256nat
        }),
{
    let mut amt: u32 = 0;
    let mut sat = false;
    let mut j: u32 = 0;
    proof {
        vstd::arithmetic::power2::lemma2_to64();
    }
    while j < b_width
        invariant
            j <= b_width <= 256,
            ls_all_valid(*b, b_width as int),
            sat ==> ls_val(*b, j as int) >= 512,
            !sat ==> amt as nat == ls_val(*b, j as int) && amt < 512,
        decreases b_width - j,
    {
        let one = bit_is_one(b.get_bit_state(j as u8));
        proof {
            assert(ls_val(*b, j as int + 1) == ls_val(*b, j as int) + (if ls_bit(*b, j)
                == LogicBitState::Logic1 {
                pow2(j as nat)
            } else {
                0nat
            }));
        }
        if one {
            if j >= 9 {
                proof {
                    vstd::arithmetic::power2::lemma2_to64();
                    vstd::arithmetic::power2::lemma_pow2_adds(9, (j - 9) as nat);
                    vstd::arithmetic::power2::lemma_pow2_pos((j - 9) as nat);
                    assert(pow2(j as nat) >= 512) by (nonlinear_arith)
                        requires
                            pow2(j as nat) == pow2(9) * pow2((j - 9) as nat),
                            pow2(9) == 512,
                            pow2((j - 9) as nat) >= 1,
                    ;
                }
                sat = true;
            } else if !sat {
                proof {
                    vstd::arithmetic::power2::lemma2_to64();
                    vstd::arithmetic::power2::lemma_pow2_strictly_increases(j as nat, 9);
                    vstd::bits::lemma_u32_shl_is_mul(1u32, j);
                    crate::logic::lemma_ls_val_bound(*b, j as int + 1);
                    if j + 1 < 9 {
                        vstd::arithmetic::power2::lemma_pow2_strictly_increases((j + 1) as nat, 9);
                    }
                }
                amt = amt + (1u32 << j);
            } else {
                proof {
                    vstd::arithmetic::power2::lemma_pow2_pos(j as nat);
                }
            }
        }
        j = j + 1;
    }
    if sat || amt > 256 {
        256
    } else {
        amt
    }
}

/// Evaluates a shift: with any non-valid bit in the shift amount the whole
/// output is undefined; otherwise the dividend's four-valued bits move by
/// the amount, filling with logic 0, except that the arithmetic right shift
/// fills with the dividend's top bit.
pub fn eval_shift(op: ShiftOp, a: LogicState, b: LogicState, b_width: u32, width: u32) -> (r:
    LogicState)
    requires
        1 <= b_width <= 256,
        1 <= width <= 256,
    ensures
        !ls_all_valid(b, b_width as int) ==> {
            &&& forall|j: u32| j < width ==> ls_bit(r, j) == LogicBitState::Undefined
            &&& forall|j: u32| width <= j < 256 ==> ls_bit(r, j) == LogicBitState::HighZ
        },
        ls_all_valid(b, b_width as int) ==> {
            let n = ls_val(b, b_width as int);
            &&& (op == ShiftOp::Lsh ==> forall|j: u32|
                j < width ==> ls_bit(r, j) == (if j < n {
                    LogicBitState::Logic0
                } else {
                    ls_bit(a, (j - n) as u32)
                }))
            &&& (op == ShiftOp::LRsh ==> forall|j: u32|
                j < width ==> ls_bit(r, j) == (if j + n < width {
                    ls_bit(a, (j + n) as u32)
                } else {
                    LogicBitState::Logic0
                }))
            &&& (op == ShiftOp::ARsh ==> forall|j: u32|
                j < width ==> ls_bit(r, j) == (if j + n < width {
                    ls_bit(a, (j + n) as u32)
                } else {
                    ls_bit(a, (width - 1) as u32)
                }))
            &&& forall|j: u32| width <= j < 256 ==> ls_bit(r, j) == LogicBitState::HighZ
        },
{
    if !ls_valid_up_to(&b, b_width) {
        return mask_ls(LogicState::undefined(), width);
    }
    let amt = sat_amount(&b, b_width);
    let ghost n = ls_val(b, b_width as int);
    let mut r = LogicState::high_z();
    let mut j: u32 = 0;
    match op {
        ShiftOp::Lsh => {
            while j < width
                invariant
                    j <= width <= 256,
                    amt as nat == (if n < 256 {
                        n
                    } else {
                        256nat
                    }),
                    n == ls_val(b, b_width as int),
                    forall|q: u32|
                        q < j ==> ls_bit(r, q) == (if q < n {
                            LogicBitState::Logic0
                        } else {
                            ls_bit(a, (q - n) as u32)
                        }),
                    forall|q: u32| j <= q < 256 ==> ls_bit(r, q) == LogicBitState::HighZ,
                decreases width - j,
            {
                let bit = if j < amt {
                    LogicBitState::Logic0
                } else {
                    a.get_bit_state((j - amt) as u8)
                };
                r = r.with_bit(j, bit);
                j = j + 1;
            }
        },
        ShiftOp::LRsh => {
            while j < width
                invariant
                    j <= width <= 256,
                    amt as nat == (if n < 256 {
                        n
                    } else {
                        256nat
                    }),
                    n == ls_val(b, b_width as int),
                    forall|q: u32|
                        q < j ==> ls_bit(r, q) == (if q + n < width {
                            ls_bit(a, (q + n) as u32)
                        } else {
                            LogicBitState::Logic0
                        }),
                    forall|q: u32| j <= q < 256 ==> ls_bit(r, q) == LogicBitState::HighZ,
                decreases width - j,
            {
                let bit = if amt < width && j < width - amt {
                    a.get_bit_state((j + amt) as u8)
                } else {
                    LogicBitState::Logic0
                };
                r = r.with_bit(j, bit);
                j = j + 1;
            }
        },
        ShiftOp::ARsh => {
            let fill = a.get_bit_state((width - 1) as u8);
            while j < width
                invariant
                    j <= width <= 256,
                    amt as nat == (if n < 256 {
                        n
                    } else {
                        256nat
                    }),
                    n == ls_val(b, b_width as int),
                    fill == ls_bit(a, (width - 1) as u32),
                    forall|q: u32|
                        q < j ==> ls_bit(r, q) == (if q + n < width {
                            ls_bit(a, (q + n) as u32)
                        } else {
                            ls_bit(a, (width - 1) as u32)
                        }),
                    forall|q: u32| j <= q < 256 ==> ls_bit(r, q) == LogicBitState::HighZ,
                decreases width - j,
            {
                let bit = if amt < width && j < width - amt {
                    a.get_bit_state((j + amt) as u8)
                } else {
                    fill
                };
                r = r.with_bit(j, bit);
                j = j + 1;
            }
        },
    }
    r
}

/// The kind of a comparison operator.
#[derive(Debug, Clone, Copy, PartialEq, Eq, Structural)]
pub enum CompareOp {
    Eq,
    Ne,
    Ult,
    Ugt,
    Ule,
    Uge,
    Slt,
    Sgt,
    Sle,
    Sge,
}

/// The two's-complement value of the first `w` bits of an all-valid state.
pub open spec fn ls_signed_val(s: LogicState, w: int) -> int {
    ls_val(s, w) - (if ls_bit(s, (w - 1) as u32) == LogicBitState::Logic1 {
        pow2(w as nat) as int
    } else {
        0
    })
}

/// What a comparison operator states about two all-valid operands compared
/// over `w` bits.
pub open spec fn compare_spec(op: CompareOp, a: LogicState, b: LogicState, w: int) -> bool {
    match op {
        CompareOp::Eq => ls_val(a, w) == ls_val(b, w),
        CompareOp::Ne => ls_val(a, w) != ls_val(b, w),
        CompareOp::Ult => ls_val(a, w) < ls_val(b, w),
        CompareOp::Ugt => ls_val(a, w) > ls_val(b, w),
        CompareOp::Ule => ls_val(a, w) <= ls_val(b, w),
        CompareOp::Uge => ls_val(a, w) >= ls_val(b, w),
        CompareOp::Slt => ls_signed_val(a, w) < ls_signed_val(b, w),
        CompareOp::Sgt => ls_signed_val(a, w) > ls_signed_val(b, w),
        CompareOp::Sle => ls_signed_val(a, w) <= ls_signed_val(b, w),
        CompareOp::Sge => ls_signed_val(a, w) >= ls_signed_val(b, w),
    }
}

/// When two states agree on bits `m+1` to `we-1` and their bit `m` is a
/// valid 0 against a valid 1, the first is worth less over `we` bits.
proof fn lemma_msb_compare(a: LogicState, b: LogicState, we: int, m: int)
    requires
        0 <= m < we <= 256,
        forall|q: u32| m < q < we ==> ls_bit(a, q) == ls_bit(b, q),
        ls_bit(a, m as u32) != LogicBitState::Logic1,
        ls_bit(b, m as u32) == LogicBitState::Logic1,
    ensures
        ls_val(a, we) < ls_val(b, we),
    decreases we,
{
    if we == m + 1 {
        crate::logic::lemma_ls_val_bound(a, m);
        assert(ls_val(a, we) == ls_val(a, m));
        assert(ls_val(b, we) == ls_val(b, m) + pow2(m as nat));
    } else {
        lemma_msb_compare(a, b, we - 1, m);
        assert(ls_bit(a, (we - 1) as u32) == ls_bit(b, (we - 1) as u32));
    }
}

/// Compares the first `we` bits of two all-valid states, reporting whether
/// the first is worth strictly less and whether they are worth the same.
fn cmp_scan(a: &LogicState, b: &LogicState, we: u32) -> (r: (bool, bool))
    requires
        1 <= we <= 256,
        ls_all_valid(*a, we as int),
        ls_all_valid(*b, we as int),
    ensures
        r.0 == (ls_val(*a, we as int) < ls_val(*b, we as int)),
        r.1 == (ls_val(*a, we as int) == ls_val(*b, we as int)),
{
    let mut j: u32 = we;
    while j > 0
        invariant
            j <= we <= 256,
            ls_all_valid(*a, we as int),
            ls_all_valid(*b, we as int),
            forall|q: u32| j <= q < we ==> ls_bit(*a, q) == ls_bit(*b, q),
        decreases j,
    {
        let m = j - 1;
        let ba = a.get_bit_state(m as u8);
        let bb = b.get_bit_state(m as u8);
        if ba != bb {
            let lt = bit_is_one(bb);
            proof {
                if lt {
                    lemma_msb_compare(*a, *b, we as int, m as int);
                } else {
                    assert(ls_bit(*a, m) == LogicBitState::Logic1) by {
                        assert(lbs_valid_bit(ls_bit(*a, m)));
                        assert(lbs_valid_bit(ls_bit(*b, m)));
                    }
                    lemma_msb_compare(*b, *a, we as int, m as int);
                }
            }
            return (lt, false);
        }
        j = m;
    }
    proof {
        lemma_ls_val_ext(*a, *b, we as int);
    }
    (false, true)
}

/// Evaluates a comparison over the wider of the two input widths: with any
/// non-valid operand bit the whole output is undefined; otherwise bit 0 of
/// the output answers the comparison, under the unsigned or two's-complement
/// signed reading of the operands, and the other output bits are logic 0.
pub fn eval_compare(
    op: CompareOp,
    a: LogicState,
    a_width: u32,
    b: LogicState,
    b_width: u32,
    width: u32,
) -> (r: LogicState)
    requires
        1 <= a_width <= 256,
        1 <= b_width <= 256,
        1 <= width <= 256,
    ensures
        ({
            let we: u32 = if a_width >= b_width {
                a_width
            } else {
                b_width
            };
            &&& (!(ls_all_valid(a, we as int) && ls_all_valid(b, we as int)) ==> {
                &&& forall|j: u32| j < width ==> ls_bit(r, j) == LogicBitState::Undefined
                &&& forall|j: u32| width <= j < 256 ==> ls_bit(r, j) == LogicBitState::HighZ
            })
            &&& (ls_all_valid(a, we as int) && ls_all_valid(b, we as int) ==> {
                &&& ls_bit(r, 0) == spec_lbs_from_bool(compare_spec(op, a, b, we as int))
                &&& forall|j: u32| 0 < j < width ==> ls_bit(r, j) == LogicBitState::Logic0
                &&& forall|j: u32| width <= j < 256 ==> ls_bit(r, j) == LogicBitState::HighZ
            })
        }),
{
    let we: u32 = if a_width >= b_width {
        a_width
    } else {
        b_width
    };
    if !ls_valid_up_to(&a, we) || !ls_valid_up_to(&b, we) {
        return mask_ls(LogicState::undefined(), width);
    }
    let (lt, eq) = cmp_scan(&a, &b, we);
    let sign_a = bit_is_one(a.get_bit_state((we - 1) as u8));
    let sign_b = bit_is_one(b.get_bit_state((we - 1) as u8));
    let slt = if sign_a != sign_b {
        sign_a
    } else {
        lt
    };
    proof {
        crate::logic::lemma_ls_val_bound(a, we as int);
        crate::logic::lemma_ls_val_bound(b, we as int);
        vstd::arithmetic::power2::lemma_pow2_pos(we as nat);
        if eq {
            lemma_ls_val_determines_bits(a, b, we as int);
        }
        assert(slt == (ls_signed_val(a, we as int) < ls_signed_val(b, we as int)));
        assert(eq == (ls_signed_val(a, we as int) == ls_signed_val(b, we as int)));
    }
    let result = match op {
        CompareOp::Eq => eq,
        CompareOp::Ne => !eq,
        CompareOp::Ult => lt,
        CompareOp::Ugt => !lt && !eq,
        CompareOp::Ule => lt || eq,
        CompareOp::Uge => !lt,
        CompareOp::Slt => slt,
        CompareOp::Sgt => !slt && !eq,
        CompareOp::Sle => slt || eq,
        CompareOp::Sge => !slt,
    };
    let zero = LogicState::logic_0();
    mask_ls(zero, width).with_bit(0, LogicBitState::from_bool(result))
}

} // verus!
