//! The four-valued logic algebra: single bits, 32-bit packed atoms and
//! 256-bit logic states, together with parsing, formatting and integer
//! conversions.

use vstd::prelude::*;
use vstd::arithmetic::power2::pow2;
use vstd::string::StringSliceAdditionalSpecFns;

verus! {

/// The logic state of a single bit.
///
/// Encoded by two bits `(state, valid)`: `(0,0)` is high impedance, `(1,0)` is
/// undefined, `(0,1)` is logic 0 and `(1,1)` is logic 1.
#[derive(Debug, Clone, Copy, PartialEq, Eq, Structural)]
pub enum LogicBitState {
    /// The high impedance state
    HighZ,
    /// An undefined logic level
    Undefined,
    /// The low logic level
    Logic0,
    /// The high logic level
    Logic1,
}

/// The bit pair `(state, valid)` decoded into a single logic bit state.
pub open spec fn lbs_from_bits(state: bool, valid: bool) -> LogicBitState {
    match (state, valid) {
        (false, false) => LogicBitState::HighZ,
        (true, false) => LogicBitState::Undefined,
        (false, true) => LogicBitState::Logic0,
        (true, true) => LogicBitState::Logic1,
    }
}

/// The state lane of a logic bit state.
pub open spec fn lbs_state_bit(b: LogicBitState) -> bool {
    match b {
        LogicBitState::HighZ => false,
        LogicBitState::Undefined => true,
        LogicBitState::Logic0 => false,
        LogicBitState::Logic1 => true,
    }
}

/// The valid lane of a logic bit state.
pub open spec fn lbs_valid_bit(b: LogicBitState) -> bool {
    match b {
        LogicBitState::HighZ => false,
        LogicBitState::Undefined => false,
        LogicBitState::Logic0 => true,
        LogicBitState::Logic1 => true,
    }
}

impl LogicBitState {
    pub(crate) fn from_bits(state_bit: bool, valid_bit: bool) -> (r: Self)
        ensures
            r == lbs_from_bits(state_bit, valid_bit),
    {
        match (state_bit, valid_bit) {
            (false, false) => Self::HighZ,
            (true, false) => Self::Undefined,
            (false, true) => Self::Logic0,
            (true, true) => Self::Logic1,
        }
    }

    pub(crate) fn to_bits(self) -> (r: (bool, bool))
        ensures
            r.0 == lbs_state_bit(self),
            r.1 == lbs_valid_bit(self),
    {
        match self {
            Self::HighZ => (false, false),
            Self::Undefined => (true, false),
            Self::Logic0 => (false, true),
            Self::Logic1 => (true, true),
        }
    }

    /// Creates a logic bit state representing a boolean value.
    pub fn from_bool(value: bool) -> (r: Self)
        ensures
            r == spec_lbs_from_bool(value),
    {
        match value {
            false => Self::Logic0,
            true => Self::Logic1,
        }
    }

    /// The boolean value this logic bit state represents, if any.
    pub fn to_bool(self) -> (r: Option<bool>)
        ensures
            r == (match self {
                LogicBitState::Logic0 => Some(false),
                LogicBitState::Logic1 => Some(true),
                _ => None::<bool>,
            }),
    {
        match self {
            Self::HighZ | Self::Undefined => None,
            Self::Logic0 => Some(false),
            Self::Logic1 => Some(true),
        }
    }

    /// - `b'Z'` | `b'z'` => `HighZ`
    /// - `b'X'` | `b'x'` => `Undefined`
    /// - `b'0'` => `Logic0`
    /// - `b'1'` => `Logic1`
    pub fn parse_byte(c: u8) -> (r: Option<Self>)
        ensures
            r == spec_parse_byte(c),
    {
        match c {
            90u8 | 122u8 => Some(Self::HighZ),
            88u8 | 120u8 => Some(Self::Undefined),
            48u8 => Some(Self::Logic0),
            49u8 => Some(Self::Logic1),
            _ => None,
        }
    }

    /// - `'Z'` | `'z'` => `HighZ`
    /// - `'X'` | `'x'` => `Undefined`
    /// - `'0'` => `Logic0`
    /// - `'1'` => `Logic1`
    pub fn parse(c: char) -> (r: Option<Self>)
        ensures
            r == spec_parse_char(c),
    {
        match c {
            'Z' | 'z' => Some(Self::HighZ),
            'X' | 'x' => Some(Self::Undefined),
            '0' => Some(Self::Logic0),
            '1' => Some(Self::Logic1),
            _ => None,
        }
    }

    /// - `HighZ` => `'Z'`
    /// - `Undefined` => `'X'`
    /// - `Logic0` => `'0'`
    /// - `Logic1` => `'1'`
    pub fn to_char(self) -> (r: char)
        ensures
            r == spec_to_char(self),
    {
        match self {
            LogicBitState::HighZ => 'Z',
            LogicBitState::Undefined => 'X',
            LogicBitState::Logic0 => '0',
            LogicBitState::Logic1 => '1',
        }
    }
}

/// The logic bit state standing for a boolean value.
pub open spec fn spec_lbs_from_bool(value: bool) -> LogicBitState {
    if value {
        LogicBitState::Logic1
    } else {
        LogicBitState::Logic0
    }
}

/// The logic bit state a byte parses to, if any.
pub open spec fn spec_parse_byte(c: u8) -> Option<LogicBitState> {
    if c == 90u8 || c == 122u8 {
        Some(LogicBitState::HighZ)
    } else if c == 88u8 || c == 120u8 {
        Some(LogicBitState::Undefined)
    } else if c == 48u8 {
        Some(LogicBitState::Logic0)
    } else if c == 49u8 {
        Some(LogicBitState::Logic1)
    } else {
        None
    }
}

/// The logic bit state a character parses to, if any.
pub open spec fn spec_parse_char(c: char) -> Option<LogicBitState> {
    if c == 'Z' || c == 'z' {
        Some(LogicBitState::HighZ)
    } else if c == 'X' || c == 'x' {
        Some(LogicBitState::Undefined)
    } else if c == '0' {
        Some(LogicBitState::Logic0)
    } else if c == '1' {
        Some(LogicBitState::Logic1)
    } else {
        None
    }
}

/// The character a logic bit state formats to.
pub open spec fn spec_to_char(b: LogicBitState) -> char {
    match b {
        LogicBitState::HighZ => 'Z',
        LogicBitState::Undefined => 'X',
        LogicBitState::Logic0 => '0',
        LogicBitState::Logic1 => '1',
    }
}

/// Formatting a bit and parsing the character back yields the same bit.
pub proof fn lemma_char_round_trip(b: LogicBitState)
    ensures
        spec_parse_char(spec_to_char(b)) == Some(b),
{
}

/// Whether bit `i` of the word `w` is set.
pub open spec fn word_bit(w: u32, i: u32) -> bool {
    (w >> i) & 1u32 == 1u32
}

/// Reads bit `i` of the word `w`.
pub fn get_bit32(w: u32, i: u32) -> (r: bool)
    requires
        i < 32,
    ensures
        r == word_bit(w, i),
{
    (w >> i) & 1u32 == 1u32
}

/// Writes bit `i` of the word `w`.
pub fn set_bit32(w: u32, i: u32, b: bool) -> (r: u32)
    requires
        i < 32,
    ensures
        forall|j: u32| j < 32 ==> word_bit(r, j) == (if j == i { b } else { word_bit(w, j) }),
{
    if b {
        let r = w | (1u32 << i);
        assert(forall|j: u32|
            j < 32 ==> (((w | (1u32 << i)) >> j) & 1u32 == 1u32) == (if j == i {
                true
            } else {
                (w >> j) & 1u32 == 1u32
            })) by (bit_vector)
            requires
                i < 32,
        ;
        r
    } else {
        let r = w & !(1u32 << i);
        assert(forall|j: u32|
            j < 32 ==> (((w & !(1u32 << i)) >> j) & 1u32 == 1u32) == (if j == i {
                false
            } else {
                (w >> j) & 1u32 == 1u32
            })) by (bit_vector)
            requires
                i < 32,
        ;
        r
    }
}

/// The unsigned value of the low `n` bits of the word `w`.
pub open spec fn word_val(w: u32, n: int) -> nat
    decreases n,
{
    if n <= 0 {
        0
    } else {
        word_val(w, n - 1) + if word_bit(w, (n - 1) as u32) {
            pow2((n - 1) as nat)
        } else {
            0nat
        }
    }
}

/// Bit `i` of a word is the parity of the word divided by `2^i`.
pub proof fn lemma_word_bit_is_mod2(x: u32, i: u32)
    requires
        i < 32,
    ensures
        word_bit(x, i) == (((x as nat) / pow2(i as nat)) % 2 == 1),
{
    vstd::bits::lemma_u32_shr_is_div(x, i);
    let y = x >> i;
    assert((y & 1u32 == 1u32) == (y % 2 == 1)) by (bit_vector);
}

/// The low `n` bits of a word are worth the word reduced modulo `2^n`.
pub proof fn lemma_word_val_is_mod(x: u32, n: int)
    requires
        0 <= n <= 32,
    ensures
        word_val(x, n) == (x as nat) % pow2(n as nat),
    decreases n,
{
    if n == 0 {
        assert(pow2(0) == 1) by {
            vstd::arithmetic::power2::lemma2_to64();
        }
        assert((x as int) % 1 == 0) by (nonlinear_arith);
    } else {
        lemma_word_val_is_mod(x, n - 1);
        let m = pow2((n - 1) as nat);
        vstd::arithmetic::power2::lemma_pow2_pos((n - 1) as nat);
        vstd::arithmetic::div_mod::lemma_mod_breakdown(x as int, m as int, 2);
        assert(pow2(n as nat) == m * 2) by {
            vstd::arithmetic::power2::lemma_pow2_adds((n - 1) as nat, 1);
            vstd::arithmetic::power2::lemma2_to64();
        }
        lemma_word_bit_is_mod2(x, (n - 1) as u32);
        vstd::arithmetic::div_mod::lemma_div_is_ordered_by_denominator(x as int, 1, m as int);
        assert((x as nat) / m == (x as int) / (m as int));
        if word_bit(x, (n - 1) as u32) {
            assert(((x as int) / (m as int)) % 2 == 1);
        } else {
            assert(((x as nat) / m) % 2 != 1);
            assert(((x as int) / (m as int)) % 2 == 0) by {
                vstd::arithmetic::div_mod::lemma_mod_bound((x as int) / (m as int), 2);
            }
        }
    }
}

/// The low `n` bits of a word are worth less than `2^n`.
pub proof fn lemma_word_val_bound(x: u32, n: int)
    requires
        0 <= n <= 32,
    ensures
        word_val(x, n) < pow2(n as nat),
{
    lemma_word_val_is_mod(x, n);
    vstd::arithmetic::power2::lemma_pow2_pos(n as nat);
    vstd::arithmetic::div_mod::lemma_mod_bound(x as int, pow2(n as nat) as int);
}

/// All 32 bits of a word are worth the word itself.
pub proof fn lemma_word_val_full(x: u32)
    ensures
        word_val(x, 32) == x,
{
    lemma_word_val_is_mod(x, 32);
    vstd::arithmetic::power2::lemma2_to64();
    vstd::arithmetic::div_mod::lemma_small_mod(x as nat, pow2(32));
}

/// Words agreeing on their low `n` bits have the same low `n` bits' value.
pub proof fn lemma_word_val_ext(a: u32, b: u32, n: int)
    requires
        0 <= n <= 32,
        forall|i: u32| i < n ==> word_bit(a, i) == word_bit(b, i),
    ensures
        word_val(a, n) == word_val(b, n),
    decreases n,
{
    if n > 0 {
        lemma_word_val_ext(a, b, n - 1);
    }
}

/// Clearing bits above `n` does not change the low bits' value.
pub proof fn lemma_word_val_high_zero(x: u32, n: int, m: int)
    requires
        0 <= n <= m <= 32,
        forall|i: u32| n <= i < m ==> !word_bit(x, i),
    ensures
        word_val(x, m) == word_val(x, n),
    decreases m,
{
    if m > n {
        lemma_word_val_high_zero(x, n, m - 1);
    }
}

/// Two words with the same bits are the same word.
pub proof fn lemma_u32_bit_ext(a: u32, b: u32)
    requires
        forall|i: u32| i < 32 ==> word_bit(a, i) == word_bit(b, i),
    ensures
        a == b,
{
    lemma_word_val_ext(a, b, 32);
    lemma_word_val_full(a);
    lemma_word_val_full(b);
}

/// The all-zero and all-one words have constant bits.
pub proof fn lemma_word_bit_consts()
    ensures
        forall|i: u32| i < 32 ==> !word_bit(0u32, i),
        forall|i: u32| i < 32 ==> word_bit(0xFFFF_FFFFu32, i),
{
    assert(forall|i: u32|
        i < 32 ==> ((0u32 >> i) & 1u32 != 1u32) && ((0xFFFF_FFFFu32 >> i) & 1u32
            == 1u32)) by (bit_vector);
}

/// The atom whose lanes are both zero: 32 high-impedance bits.
pub open spec fn spec_high_z_atom() -> LogicStateAtom {
    LogicStateAtom { state: 0u32, valid: 0u32 }
}

/// A pair of 32-bit words representing 32 four-valued bits in bit-parallel
/// form: bit `i` of the atom is the pair `(state bit i, valid bit i)`.
#[derive(Debug, Clone, Copy, PartialEq, Eq, Structural)]
pub struct LogicStateAtom {
    pub state: u32,
    pub valid: u32,
}

/// The four-valued state of bit `i` of an atom.
pub open spec fn atom_bit(a: LogicStateAtom, i: u32) -> LogicBitState {
    lbs_from_bits(word_bit(a.state, i), word_bit(a.valid, i))
}

/// Two atoms with the same four-valued bits are the same atom.
pub proof fn lemma_atom_bit_ext(a: LogicStateAtom, b: LogicStateAtom)
    requires
        forall|i: u32| i < 32 ==> atom_bit(a, i) == atom_bit(b, i),
    ensures
        a == b,
{
    assert forall|i: u32| i < 32 implies word_bit(a.state, i) == word_bit(b.state, i)
        && word_bit(a.valid, i) == word_bit(b.valid, i) by {
        assert(atom_bit(a, i) == atom_bit(b, i));
    }
    lemma_u32_bit_ext(a.state, b.state);
    lemma_u32_bit_ext(a.valid, b.valid);
}

impl LogicStateAtom {
    /// The number of four-valued bits held by one atom.
    pub const BITS: u32 = 32;

    /// The atom whose bits are all high impedance.
    pub fn high_z() -> (r: Self)
        ensures
            forall|i: u32| i < 32 ==> atom_bit(r, i) == LogicBitState::HighZ,
            r.state == 0u32 && r.valid == 0u32,
    {
        proof {
            lemma_word_bit_consts();
        }
        Self { state: 0x0000_0000, valid: 0x0000_0000 }
    }

    /// The atom whose bits are all undefined.
    pub fn undefined() -> (r: Self)
        ensures
            forall|i: u32| i < 32 ==> atom_bit(r, i) == LogicBitState::Undefined,
            r.state == 0xFFFF_FFFFu32 && r.valid == 0u32,
    {
        proof {
            lemma_word_bit_consts();
        }
        Self { state: 0xFFFF_FFFF, valid: 0x0000_0000 }
    }

    /// The atom whose bits are all logic 0.
    pub fn logic_0() -> (r: Self)
        ensures
            forall|i: u32| i < 32 ==> atom_bit(r, i) == LogicBitState::Logic0,
            r.state == 0u32 && r.valid == 0xFFFF_FFFFu32,
    {
        proof {
            lemma_word_bit_consts();
        }
        Self { state: 0x0000_0000, valid: 0xFFFF_FFFF }
    }

    /// The atom whose bits are all logic 1.
    pub fn logic_1() -> (r: Self)
        ensures
            forall|i: u32| i < 32 ==> atom_bit(r, i) == LogicBitState::Logic1,
            r.state == 0xFFFF_FFFFu32 && r.valid == 0xFFFF_FFFFu32,
    {
        proof {
            lemma_word_bit_consts();
        }
        Self { state: 0xFFFF_FFFF, valid: 0xFFFF_FFFF }
    }

    /// The atom representing the 32-bit integer `value`: every bit is a valid
    /// logic level given by the corresponding bit of `value`.
    pub fn from_int(value: u32) -> (r: Self)
        ensures
            forall|i: u32| i < 32 ==> atom_bit(r, i) == spec_lbs_from_bool(word_bit(value, i)),
            r.state == value && r.valid == 0xFFFF_FFFFu32,
    {
        proof {
            lemma_word_bit_consts();
        }
        Self { state: value, valid: 0xFFFF_FFFF }
    }

    /// The atom representing a boolean in bit 0 and logic 0 elsewhere.
    pub fn from_bool(value: bool) -> (r: Self)
        ensures
            atom_bit(r, 0) == spec_lbs_from_bool(value),
            forall|i: u32| 0 < i < 32 ==> atom_bit(r, i) == LogicBitState::Logic0,
    {
        let v: u32 = if value {
            1
        } else {
            0
        };
        let r = Self::from_int(v);
        proof {
            assert(forall|i: u32| i < 32 ==> ((1u32 >> i) & 1u32 == 1u32) == (i
                == 0)) by (bit_vector);
            assert(forall|i: u32| i < 32 ==> ((0u32 >> i) & 1u32 != 1u32)) by (bit_vector);
        }
        r
    }

    /// The four-valued state of bit `bit_index`.
    pub fn get_bit_state(&self, bit_index: u32) -> (r: LogicBitState)
        requires
            bit_index < 32,
        ensures
            r == atom_bit(*self, bit_index),
    {
        let state_bit = get_bit32(self.state, bit_index);
        let valid_bit = get_bit32(self.valid, bit_index);
        LogicBitState::from_bits(state_bit, valid_bit)
    }

    /// The atom equal to `self` except that bit `bit_index` is `b`.
    pub fn with_bit(self, bit_index: u32, b: LogicBitState) -> (r: Self)
        requires
            bit_index < 32,
        ensures
            forall|i: u32| i < 32 ==> atom_bit(r, i) == (if i == bit_index {
                b
            } else {
                atom_bit(self, i)
            }),
    {
        let (sb, vb) = b.to_bits();
        Self { state: set_bit32(self.state, bit_index, sb), valid: set_bit32(
            self.valid,
            bit_index,
            vb,
        ) }
    }
}

/// The error of building a logic state from little-endian integer words.
#[derive(Debug, Clone, PartialEq, Eq, Structural)]
pub enum FromBigIntError {
    /// The number of words was not between 1 and 8 inclusive
    InvalidWordCount,
}

/// The error of building a logic state from a list of bits.
#[derive(Debug, Clone, PartialEq, Eq, Structural)]
pub enum FromBitsError {
    /// The number of bits was not between 1 and 256 inclusive
    InvalidWidth,
}

/// The error of parsing a logic state from text.
#[derive(Debug, Clone, PartialEq, Eq, Structural)]
pub enum ParseError {
    /// The string contained a character other than `x`, `X`, `z`, `Z`, `0` or `1`
    IllegalCharacter(u8),
    /// The number of bits was not between 1 and 256 inclusive
    InvalidWidth,
}

/// The error of extracting an integer from a logic state.
#[derive(Debug, Clone, PartialEq, Eq, Structural)]
pub enum ToIntError {
    /// The width was not between 1 and 32 (or 256) inclusive
    InvalidWidth,
    /// The first `width` bits of the logic state are not representable by an integer
    Unrepresentable,
}

/// The number of atoms a logic state holds.
pub const MAX_ATOM_COUNT: usize = 8;

/// A 256-bit wide four-valued logic state, stored as 8 packed atoms in
/// little-endian order: atom 0 holds bits 0 to 31.
#[derive(Debug, Clone, Copy)]
pub struct LogicState(pub [LogicStateAtom; 8]);

/// The four-valued state of bit `i` of an atom array.
pub open spec fn lsa_bit(atoms: [LogicStateAtom; 8], i: u32) -> LogicBitState {
    atom_bit(atoms[(i / 32) as int], i % 32)
}

/// The four-valued state of bit `i` of a logic state.
pub open spec fn ls_bit(s: LogicState, i: u32) -> LogicBitState {
    lsa_bit(s.0, i)
}

/// The unsigned value of the first `n` bits of a logic state, counting a bit
/// as 1 exactly when it is logic 1.
pub open spec fn ls_val(s: LogicState, n: int) -> nat
    decreases n,
{
    if n <= 0 {
        0
    } else {
        ls_val(s, n - 1) + if ls_bit(s, (n - 1) as u32) == LogicBitState::Logic1 {
            pow2((n - 1) as nat)
        } else {
            0nat
        }
    }
}

/// Whether the first `n` bits of a logic state are all valid logic levels.
pub open spec fn ls_all_valid(s: LogicState, n: int) -> bool {
    forall|j: u32| j < n ==> lbs_valid_bit(#[trigger] ls_bit(s, j))
}

impl LogicState {
    /// The logic state representing high impedance on all bits.
    pub fn high_z() -> (r: Self)
        ensures
            forall|i: u32| i < 256 ==> ls_bit(r, i) == LogicBitState::HighZ,
            forall|ai: int| 0 <= ai < 8 ==> r.0[ai] == spec_high_z_atom(),
    {
        let a = LogicStateAtom::high_z();
        Self([a; 8])
    }

    /// The logic state representing an undefined logic level on all bits.
    pub fn undefined() -> (r: Self)
        ensures
            forall|i: u32| i < 256 ==> ls_bit(r, i) == LogicBitState::Undefined,
    {
        let a = LogicStateAtom::undefined();
        Self([a; 8])
    }

    /// The logic state representing a low logic level on all bits.
    pub fn logic_0() -> (r: Self)
        ensures
            forall|i: u32| i < 256 ==> ls_bit(r, i) == LogicBitState::Logic0,
    {
        let a = LogicStateAtom::logic_0();
        Self([a; 8])
    }

    /// The logic state representing a high logic level on all bits.
    pub fn logic_1() -> (r: Self)
        ensures
            forall|i: u32| i < 256 ==> ls_bit(r, i) == LogicBitState::Logic1,
    {
        let a = LogicStateAtom::logic_1();
        Self([a; 8])
    }

    /// Creates a new logic state representing the given integer value.
    ///
    /// Bits past the first 32 are assigned the value 0.
    pub fn from_int(value: u32) -> (r: Self)
        ensures
            forall|i: u32| i < 32 ==> ls_bit(r, i) == spec_lbs_from_bool(word_bit(value, i)),
            forall|i: u32| 32 <= i < 256 ==> ls_bit(r, i) == LogicBitState::Logic0,
    {
        let zero = LogicStateAtom::logic_0();
        let mut atoms = [zero; 8];
        atoms[0] = LogicStateAtom::from_int(value);
        Self(atoms)
    }

    /// Creates a new logic state representing the given boolean value.
    ///
    /// Bits past the first one are assigned the value 0.
    pub fn from_bool(value: bool) -> (r: Self)
        ensures
            ls_bit(r, 0) == spec_lbs_from_bool(value),
            forall|i: u32| 0 < i < 256 ==> ls_bit(r, i) == LogicBitState::Logic0,
    {
        let v: u32 = if value {
            1
        } else {
            0
        };
        let r = Self::from_int(v);
        proof {
            assert(forall|i: u32| i < 32 ==> ((1u32 >> i) & 1u32 == 1u32) == (i
                == 0)) by (bit_vector);
            assert(forall|i: u32| i < 32 ==> ((0u32 >> i) & 1u32 != 1u32)) by (bit_vector);
        }
        r
    }

    /// Gets the logic state of a single bit.
    pub fn get_bit_state(&self, bit_index: u8) -> (r: LogicBitState)
        ensures
            r == ls_bit(*self, bit_index as u32),
    {
        let ai = (bit_index / 32) as usize;
        let off = (bit_index % 32) as u32;
        self.0[ai].get_bit_state(off)
    }

    /// The logic state equal to `self` except that bit `bit_index` is `b`.
    pub fn with_bit(self, bit_index: u32, b: LogicBitState) -> (r: Self)
        requires
            bit_index < 256,
        ensures
            forall|i: u32| i < 256 ==> ls_bit(r, i) == (if i == bit_index {
                b
            } else {
                ls_bit(self, i)
            }),
    {
        let ai = (bit_index / 32) as usize;
        let off = bit_index % 32;
        let mut r = self;
        r.0[ai] = r.0[ai].with_bit(off, b);
        proof {
            assert forall|i: u32| i < 256 implies ls_bit(r, i) == (if i == bit_index {
                b
            } else {
                ls_bit(self, i)
            }) by {
                let iai = (i / 32) as int;
                assert(0 <= iai < 8);
                if iai == ai as int {
                    assert(atom_bit(r.0[iai], i % 32) == (if i % 32 == off {
                        b
                    } else {
                        atom_bit(self.0[iai], i % 32)
                    }));
                    if i % 32 == off {
                        assert(i == bit_index) by (nonlinear_arith)
                            requires
                                i as int / 32 == bit_index as int / 32,
                                i as int % 32 == bit_index as int % 32,
                                i < 256,
                                bit_index < 256,
                        ;
                    } else {
                        assert(i != bit_index);
                    }
                } else {
                    assert(r.0[iai] == self.0[iai]);
                    assert(i != bit_index);
                }
            }
        }
        r
    }

    /// Converts the first bit of the logic state into a boolean.
    pub fn to_bool(&self) -> (r: Option<bool>)
        ensures
            r == (match ls_bit(*self, 0) {
                LogicBitState::Logic0 => Some(false),
                LogicBitState::Logic1 => Some(true),
                _ => None::<bool>,
            }),
    {
        self.get_bit_state(0).to_bool()
    }

    /// Creates a new logic state representing the given integer value.
    ///
    /// Integer words are given in little endian order; bits past the end are
    /// assigned the value 0.
    pub fn from_big_int(value: &[u32]) -> (r: Result<Self, FromBigIntError>)
        ensures
            value@.len() == 0 || value@.len() > 8 ==> r == Err::<Self, _>(
                FromBigIntError::InvalidWordCount,
            ),
            1 <= value@.len() <= 8 ==> {
                &&& r is Ok
                &&& forall|i: u32|
                    i < 256 ==> ls_bit(r->Ok_0, i) == (if i < 32 * value@.len() {
                        spec_lbs_from_bool(word_bit(value@[(i / 32) as int], i % 32))
                    } else {
                        LogicBitState::Logic0
                    })
            },
    {
        if value.len() < 1 || value.len() > 8 {
            return Err(FromBigIntError::InvalidWordCount);
        }
        let zero = LogicStateAtom::logic_0();
        let mut atoms = [zero; 8];
        let mut k: usize = 0;
        while k < value.len()
            invariant
                k <= value.len() <= 8,
                forall|ai: int|
                    0 <= ai < 8 ==> atoms[ai] == (if ai < k {
                        LogicStateAtom { state: value@[ai], valid: 0xFFFF_FFFFu32 }
                    } else {
                        LogicStateAtom { state: 0u32, valid: 0xFFFF_FFFFu32 }
                    }),
            decreases value.len() - k,
        {
            atoms[k] = LogicStateAtom::from_int(value[k]);
            k = k + 1;
        }
        let r = Self(atoms);
        proof {
            lemma_word_bit_consts();
            assert forall|i: u32| i < 256 implies ls_bit(r, i) == (if i < 32 * value@.len() {
                spec_lbs_from_bool(word_bit(value@[(i / 32) as int], i % 32))
            } else {
                LogicBitState::Logic0
            }) by {
                let ai = (i / 32) as int;
                assert(0 <= ai < 8);
                if i < 32 * value@.len() {
                    assert(ai < value@.len()) by (nonlinear_arith)
                        requires
                            i < 32 * value@.len(),
                            ai == i as int / 32,
                    ;
                } else {
                    assert(ai >= value@.len()) by (nonlinear_arith)
                        requires
                            i >= 32 * value@.len(),
                            ai == i as int / 32,
                    ;
                }
            }
        }
        Ok(r)
    }

    /// Creates a new logic state from the given bits (most significant bit
    /// first).
    ///
    /// Bits past the specified ones are implicitly assigned the value Z.
    pub fn from_bits(bits: &[LogicBitState]) -> (r: Result<Self, FromBitsError>)
        ensures
            bits@.len() == 0 || bits@.len() > 256 ==> r == Err::<Self, _>(
                FromBitsError::InvalidWidth,
            ),
            1 <= bits@.len() <= 256 ==> {
                &&& r is Ok
                &&& forall|i: u32|
                    i < 256 ==> ls_bit(r->Ok_0, i) == (if i < bits@.len() {
                        bits@[bits@.len() - 1 - i]
                    } else {
                        LogicBitState::HighZ
                    })
            },
    {
        if bits.len() < 1 || bits.len() > 256 {
            return Err(FromBitsError::InvalidWidth);
        }
        let width = bits.len();
        let mut result = Self::high_z();
        let mut p: usize = 0;
        while p < width
            invariant
                p <= width == bits@.len(),
                1 <= width <= 256,
                forall|i: u32|
                    i < 256 ==> ls_bit(result, i) == (if width - p <= i < width {
                        bits@[width - 1 - i]
                    } else {
                        LogicBitState::HighZ
                    }),
            decreases width - p,
        {
            let j: usize = width - 1 - p;
            let ai = j / 32;
            let off = (j % 32) as u32;
            let ghost old_ls = result;
            result.0[ai] = result.0[ai].with_bit(off, bits[p]);
            proof {
                assert forall|i: u32| i < 256 implies ls_bit(result, i) == (if width - (p + 1) <= i
                    < width {
                    bits@[width - 1 - i]
                } else {
                    LogicBitState::HighZ
                }) by {
                    let iai = (i / 32) as int;
                    assert(0 <= iai < 8);
                    assert(ls_bit(old_ls, i) == (if width - p <= i < width {
                        bits@[width - 1 - i]
                    } else {
                        LogicBitState::HighZ
                    }));
                    if iai == ai as int {
                        assert(atom_bit(result.0[iai], i % 32) == (if i % 32 == off {
                            bits@[p as int]
                        } else {
                            atom_bit(old_ls.0[iai], i % 32)
                        }));
                        if i % 32 == off {
                            assert(i == j) by (nonlinear_arith)
                                requires
                                    i as int / 32 == j as int / 32,
                                    i as int % 32 == j as int % 32,
                                    i < 256,
                                    j < 256,
                            ;
                        } else {
                            assert(i != j);
                        }
                    } else {
                        assert(result.0[iai] == old_ls.0[iai]);
                        assert(i != j);
                    }
                }
            }
            p = p + 1;
        }
        Ok(result)
    }

    /// Converts the first `width` bits of the logic state into an integer.
    ///
    /// The width must be between 1 and 32; every one of the first `width`
    /// bits must be a valid logic level for the conversion to succeed.
    pub fn to_int(&self, width: u32) -> (r: Result<u32, ToIntError>)
        ensures
            width < 1 || width > 32 ==> r == Err::<u32, _>(ToIntError::InvalidWidth),
            1 <= width <= 32 && !ls_all_valid(*self, width as int) ==> r == Err::<u32, _>(
                ToIntError::Unrepresentable,
            ),
            1 <= width <= 32 && ls_all_valid(*self, width as int) ==> r is Ok && r->Ok_0 as nat
                == ls_val(*self, width as int),
    {
        if width < 1 || width > 32 {
            return Err(ToIntError::InvalidWidth);
        }
        let mask = low_mask32(width);
        let atom = self.0[0];
        proof {
            lemma_word_bit_and(atom.valid, mask);
            lemma_word_bit_and(atom.state, mask);
            assert(forall|j: u32| j < width ==> (i_div_32(j) == 0 && j % 32 == j));
        }
        if (atom.valid & mask) == mask {
            let v = atom.state & mask;
            proof {
                assert forall|j: u32| j < width implies lbs_valid_bit(#[trigger] ls_bit(*self, j))
                    && ((ls_bit(*self, j) == LogicBitState::Logic1) == word_bit(v, j)) by {
                    assert(word_bit(atom.valid & mask, j) == word_bit(mask, j));
                }
                lemma_ls_val_as_word_val(*self, v, width as int);
                lemma_word_val_full(v);
                assert forall|j: u32| width <= j < 32 implies !word_bit(v, j) by {
                    assert(word_bit(atom.state & mask, j) == (word_bit(atom.state, j) && word_bit(
                        mask,
                        j,
                    )));
                }
                lemma_word_val_high_zero(v, width as int, 32);
            }
            Ok(v)
        } else {
            proof {
                if ls_all_valid(*self, width as int) {
                    assert forall|j: u32| j < 32 implies word_bit(atom.valid & mask, j) == word_bit(
                        mask,
                        j,
                    ) by {
                        if j < width {
                            assert(lbs_valid_bit(ls_bit(*self, j)));
                        }
                    }
                    lemma_u32_bit_ext(atom.valid & mask, mask);
                }
            }
            Err(ToIntError::Unrepresentable)
        }
    }

    /// Converts the first `width` bits of the logic state into an integer
    /// given as 32-bit words in little endian order.
    ///
    /// The width must be between 1 and 256; every one of the first `width`
    /// bits must be a valid logic level for the conversion to succeed.
    pub fn to_big_int(&self, width: u32) -> (r: Result<Vec<u32>, ToIntError>)
        ensures
            width < 1 || width > 256 ==> r == Err::<Vec<u32>, _>(ToIntError::InvalidWidth),
            1 <= width <= 256 && !ls_all_valid(*self, width as int) ==> r == Err::<Vec<u32>, _>(
                ToIntError::Unrepresentable,
            ),
            1 <= width <= 256 && ls_all_valid(*self, width as int) ==> r is Ok && {
                let words = r->Ok_0;
                &&& words@.len() == (width + 31) / 32
                &&& forall|k: int, j: u32|
                    0 <= k < words@.len() && j < 32 ==> #[trigger] word_bit(words@[k], j) == (32 * k
                        + j < width && ls_bit(*self, (32 * k + j) as u32) == LogicBitState::Logic1)
            },
    {
        if width < 1 || width > 256 {
            return Err(ToIntError::InvalidWidth);
        }
        let word_count = ((width + 31) / 32) as usize;
        let last_index = (width / 32) as usize;
        let last_width = width % 32;
        proof {
            if last_width == 0 {
                vstd::arithmetic::div_mod::lemma_fundamental_div_mod_converse(
                    width as int + 31,
                    32,
                    last_index as int,
                    31,
                );
            } else {
                vstd::arithmetic::div_mod::lemma_fundamental_div_mod_converse(
                    width as int + 31,
                    32,
                    last_index as int + 1,
                    last_width as int - 1,
                );
            }
        }
        let mut words: Vec<u32> = Vec::new();
        let mut k: usize = 0;
        while k < word_count
            invariant
                k <= word_count,
                1 <= width <= 256,
                width as int == 32 * (last_index as int) + last_width as int,
                0 <= last_width < 32,
                word_count as int == if last_width == 0 {
                    last_index as int
                } else {
                    last_index as int + 1
                },
                word_count <= 8,
                words@.len() == k,
                forall|q: int, j: u32|
                    0 <= q < k && j < 32 ==> #[trigger] word_bit(words@[q], j) == (32 * q + j
                        < width && ls_bit(*self, (32 * q + j) as u32) == LogicBitState::Logic1),
                forall|i: u32|
                    i < 32 * k && i < width ==> lbs_valid_bit(#[trigger] ls_bit(*self, i)),
            decreases word_count - k,
        {
            let mask = if k == last_index {
                low_mask32(last_width)
            } else {
                low_mask32(32)
            };
            let ghost mw: int = if k == last_index {
                last_width as int
            } else {
                32
            };
            let atom = self.0[k];
            proof {
                lemma_word_bit_and(atom.valid, mask);
                lemma_word_bit_and(atom.state, mask);
                assert forall|j: u32| j < 32 implies ls_bit(*self, (32 * (k as int) + j) as u32)
                    == atom_bit(atom, j) by {
                    lemma_bit_index_split(k as int, j);
                }
            }
            if (atom.valid & mask) != mask {
                proof {
                    if ls_all_valid(*self, width as int) {
                        assert forall|j: u32| j < 32 implies word_bit(atom.valid & mask, j)
                            == word_bit(mask, j) by {
                            if j < mw {
                                assert(32 * (k as int) + mw <= width as int);
                                assert(32 * (k as int) + j < width);
                                assert(lbs_valid_bit(ls_bit(*self, (32 * (k as int) + j) as u32)));
                            }
                        }
                        lemma_u32_bit_ext(atom.valid & mask, mask);
                    }
                }
                return Err(ToIntError::Unrepresentable);
            }
            let w = atom.state & mask;
            proof {
                assert forall|j: u32| j < 32 implies word_bit(w, j) == (32 * (k as int) + j < width
                    && ls_bit(*self, (32 * (k as int) + j) as u32) == LogicBitState::Logic1) by {
                    assert(word_bit(atom.valid & mask, j) == word_bit(mask, j));
                    if j < mw {
                        assert(32 * (k as int) + mw <= width as int);
                        assert(32 * (k as int) + j < width);
                    } else {
                        assert(32 * (k as int) + j >= width);
                    }
                }
                assert forall|i: u32| i < 32 * (k + 1) && i < width implies lbs_valid_bit(
                    #[trigger] ls_bit(*self, i),
                ) by {
                    if 32 * k <= i {
                        let j = (i - 32 * k) as u32;
                        lemma_bit_index_split(k as int, j);
                        assert(32 * (k as int) + j < width);
                        assert(32 * (k as int) + mw >= (if k == last_index {
                            width as int
                        } else {
                            32 * (k as int) + 32
                        }));
                        assert(j < mw);
                        assert(word_bit(atom.valid & mask, j) == word_bit(mask, j));
                        assert(word_bit(atom.valid, j));
                    }
                }
            }
            words.push(w);
            k = k + 1;
        }
        Ok(words)
    }

    /// Tests the first `width` bits of this state and another for equality.
    pub fn eq(&self, other: &Self, width: u32) -> (r: bool)
        requires
            1 <= width <= 256,
        ensures
            r == (forall|j: u32| j < width ==> ls_bit(*self, j) == ls_bit(*other, j)),
    {
        let mut j: u32 = 0;
        while j < width
            invariant
                j <= width <= 256,
                forall|q: u32| q < j ==> ls_bit(*self, q) == ls_bit(*other, q),
            decreases width - j,
        {
            if self.get_bit_state(j as u8) != other.get_bit_state(j as u8) {
                return false;
            }
            j = j + 1;
        }
        true
    }
}

/// Two logic states with the same 256 bits are the same state.
pub proof fn lemma_ls_bit_ext(s1: LogicState, s2: LogicState)
    requires
        forall|i: u32| i < 256 ==> ls_bit(s1, i) == ls_bit(s2, i),
    ensures
        s1 == s2,
{
    assert forall|ai: int| 0 <= ai < 8 implies s1.0[ai] == s2.0[ai] by {
        assert forall|k: u32| k < 32 implies atom_bit(s1.0[ai], k) == atom_bit(s2.0[ai], k) by {
            let i = (32 * ai + k) as u32;
            lemma_bit_index_split(ai, k);
            assert(ls_bit(s1, i) == ls_bit(s2, i));
        }
        lemma_atom_bit_ext(s1.0[ai], s2.0[ai]);
    }
    assert(s1.0 =~= s2.0);
}

/// Whether every byte of a sequence parses as a logic bit character.
pub open spec fn all_bytes_legal(sb: Seq<u8>) -> bool {
    forall|p: int| 0 <= p < sb.len() ==> (#[trigger] spec_parse_byte(sb[p])) is Some
}

/// The bit a parsed byte sequence assigns to bit index `i`: the bytes are
/// most significant first, and bits past the sequence are high impedance.
pub open spec fn spec_parsed_bit(sb: Seq<u8>, i: u32) -> LogicBitState {
    if i < sb.len() {
        spec_parse_byte(sb[sb.len() - 1 - i])->Some_0
    } else {
        LogicBitState::HighZ
    }
}

/// Whether `r` reports the first illegal byte of `sb`.
pub open spec fn reports_first_illegal_byte(sb: Seq<u8>, r: Result<LogicState, ParseError>) -> bool {
    exists|p: int|
        {
            &&& 0 <= p < sb.len()
            &&& (#[trigger] spec_parse_byte(sb[p])) is None
            &&& r == Err::<LogicState, ParseError>(ParseError::IllegalCharacter(sb[p]))
            &&& forall|q: int| 0 <= q < p ==> (#[trigger] spec_parse_byte(sb[q])) is Some
        }
}

impl LogicState {
    /// Constructs a logic state from a string of bits (most significant bit
    /// first).
    ///
    /// Bits past the specified ones are implicitly assigned the value Z.
    pub fn parse(s: &str) -> (r: Result<Self, ParseError>)
        ensures
            (s.spec_bytes().len() == 0 || s.spec_bytes().len() > 256) ==> r == Err::<
                Self,
                ParseError,
            >(ParseError::InvalidWidth),
            (1 <= s.spec_bytes().len() <= 256 && !all_bytes_legal(s.spec_bytes()))
                ==> reports_first_illegal_byte(s.spec_bytes(), r),
            (1 <= s.spec_bytes().len() <= 256 && all_bytes_legal(s.spec_bytes())) ==> r is Ok && (
            forall|i: u32| i < 256 ==> ls_bit(r->Ok_0, i) == spec_parsed_bit(s.spec_bytes(), i)),
    {
        let bytes = s.as_bytes();
        let n = bytes.len();
        if n < 1 || n > 256 {
            return Err(ParseError::InvalidWidth);
        }
        let mut result = Self::high_z();
        let mut p: usize = 0;
        while p < n
            invariant
                p <= n == bytes@.len(),
                bytes@ == s.spec_bytes(),
                1 <= n <= 256,
                forall|q: int| 0 <= q < p ==> (#[trigger] spec_parse_byte(bytes@[q])) is Some,
                forall|i: u32|
                    i < 256 ==> ls_bit(result, i) == (if n - p <= i < n {
                        spec_parse_byte(bytes@[n - 1 - i])->Some_0
                    } else {
                        LogicBitState::HighZ
                    }),
            decreases n - p,
        {
            let c = bytes[p];
            let bit = match LogicBitState::parse_byte(c) {
                Some(bit) => bit,
                None => {
                    proof {
                        assert(bytes@ == s.spec_bytes());
                        let pi = p as int;
                        assert(0 <= pi < s.spec_bytes().len() && spec_parse_byte(
                            s.spec_bytes()[pi],
                        ) is None && Err::<Self, ParseError>(ParseError::IllegalCharacter(c))
                            == Err::<Self, ParseError>(
                            ParseError::IllegalCharacter(s.spec_bytes()[pi]),
                        ) && forall|q: int|
                            0 <= q < pi ==> (#[trigger] spec_parse_byte(
                                s.spec_bytes()[q],
                            )) is Some);
                    }
                    return Err(ParseError::IllegalCharacter(c));
                },
            };
            let j: usize = n - 1 - p;
            let ai = j / 32;
            let off = (j % 32) as u32;
            let ghost old_ls = result;
            result.0[ai] = result.0[ai].with_bit(off, bit);
            proof {
                assert forall|i: u32| i < 256 implies ls_bit(result, i) == (if n - (p + 1) <= i
                    < n {
                    spec_parse_byte(bytes@[n - 1 - i])->Some_0
                } else {
                    LogicBitState::HighZ
                }) by {
                    let iai = (i / 32) as int;
                    assert(0 <= iai < 8);
                    assert(ls_bit(old_ls, i) == (if n - p <= i < n {
                        spec_parse_byte(bytes@[n - 1 - i])->Some_0
                    } else {
                        LogicBitState::HighZ
                    }));
                    if iai == ai as int {
                        assert(atom_bit(result.0[iai], i % 32) == (if i % 32 == off {
                            bit
                        } else {
                            atom_bit(old_ls.0[iai], i % 32)
                        }));
                        if i % 32 == off {
                            assert(i == j) by (nonlinear_arith)
                                requires
                                    i as int / 32 == j as int / 32,
                                    i as int % 32 == j as int % 32,
                                    i < 256,
                                    j < 256,
                            ;
                        } else {
                            assert(i != j);
                        }
                    } else {
                        assert(result.0[iai] == old_ls.0[iai]);
                        assert(i != j);
                    }
                }
            }
            p = p + 1;
        }
        Ok(result)
    }

    /// Creates a string representing the first `width` bits of this state,
    /// most significant bit first.
    pub fn to_string(&self, width: u32) -> (r: String)
        requires
            1 <= width <= 256,
        ensures
            r@.len() == width,
            forall|p: int|
                0 <= p < width ==> r@[p] == spec_to_char(ls_bit(*self, (width - 1 - p) as u32)),
    {
        let mut s = String::new();
        let mut p: u32 = 0;
        while p < width
            invariant
                p <= width <= 256,
                s@.len() == p,
                forall|q: int|
                    0 <= q < p ==> s@[q] == spec_to_char(ls_bit(*self, (width - 1 - q) as u32)),
            decreases width - p,
        {
            let bit = self.get_bit_state((width - 1 - p) as u8);
            match bit {
                LogicBitState::HighZ => {
                    proof {
                        reveal_strlit("Z");
                    }
                    s.append("Z");
                },
                LogicBitState::Undefined => {
                    proof {
                        reveal_strlit("X");
                    }
                    s.append("X");
                },
                LogicBitState::Logic0 => {
                    proof {
                        reveal_strlit("0");
                    }
                    s.append("0");
                },
                LogicBitState::Logic1 => {
                    proof {
                        reveal_strlit("1");
                    }
                    s.append("1");
                },
            }
            p = p + 1;
        }
        s
    }
}

/// The atom index a bit index falls in.
pub open spec fn i_div_32(i: u32) -> int {
    (i / 32) as int
}

/// Splitting a bit index `32 * k + j` into atom index `k` and offset `j`.
pub proof fn lemma_bit_index_split(k: int, j: u32)
    requires
        0 <= k < 8,
        j < 32,
    ensures
        (32 * k + j) as u32 / 32 == k,
        (32 * k + j) as u32 % 32 == j,
{
    let i = 32 * k + j;
    assert(0 <= i < 256);
    vstd::arithmetic::div_mod::lemma_fundamental_div_mod_converse(i, 32, k, j as int);
}

/// The word whose low `width` bits are set and whose other bits are clear.
pub fn low_mask32(width: u32) -> (m: u32)
    requires
        width <= 32,
    ensures
        forall|j: u32| j < 32 ==> word_bit(m, j) == (j < width),
{
    if width == 32 {
        proof {
            lemma_word_bit_consts();
        }
        0xFFFF_FFFF
    } else {
        proof {
            assert((1u32 << width) >= 1) by (bit_vector)
                requires
                    width < 32,
            ;
        }
        let m = (1u32 << width) - 1;
        proof {
            assert(forall|j: u32| j < 32 ==> ((m >> j) & 1u32 == 1u32) == (j < width)) by (bit_vector)
                requires
                    m == (1u32 << width) - 1 && width < 32,
            ;
        }
        m
    }
}

/// The bits of a bitwise AND of two words.
pub proof fn lemma_word_bit_and(a: u32, b: u32)
    ensures
        forall|j: u32| j < 32 ==> word_bit(a & b, j) == (word_bit(a, j) && word_bit(b, j)),
{
    assert(forall|j: u32|
        j < 32 ==> ((((a & b) >> j) & 1u32 == 1u32) == (((a >> j) & 1u32 == 1u32) && ((b >> j)
            & 1u32 == 1u32)))) by (bit_vector);
}

/// When the logic-1 bits of a state agree with the set bits of a word, the
/// state's value is the word's value.
pub proof fn lemma_ls_val_as_word_val(s: LogicState, w: u32, n: int)
    requires
        0 <= n <= 32,
        forall|j: u32| j < n ==> ((#[trigger] ls_bit(s, j) == LogicBitState::Logic1) == word_bit(
            w,
            j,
        )),
    ensures
        ls_val(s, n) == word_val(w, n),
    decreases n,
{
    if n > 0 {
        lemma_ls_val_as_word_val(s, w, n - 1);
    }
}

/// Round trip from an integer: a logic state whose first 32 bits spell a
/// word `value` (and which is what `from_int` builds) has all bits valid,
/// and its first `w` bits are worth `value` reduced modulo `2^w`.
pub proof fn lemma_from_int_round_trip(s: LogicState, value: u32, w: int)
    requires
        0 <= w <= 32,
        forall|i: u32| i < 32 ==> #[trigger] ls_bit(s, i) == spec_lbs_from_bool(word_bit(value, i)),
    ensures
        ls_all_valid(s, w),
        ls_val(s, w) == (value as nat) % pow2(w as nat),
{
    assert forall|j: u32| j < w implies lbs_valid_bit(#[trigger] ls_bit(s, j)) by {
        assert(ls_bit(s, j) == spec_lbs_from_bool(word_bit(value, j)));
    }
    assert forall|j: u32| j < w implies ((#[trigger] ls_bit(s, j) == LogicBitState::Logic1)
        == word_bit(value, j)) by {
        assert(ls_bit(s, j) == spec_lbs_from_bool(word_bit(value, j)));
    }
    lemma_ls_val_as_word_val(s, value, w);
    lemma_word_val_is_mod(value, w);
}

/// Round trip through text: formatting the first `w` bits of a logic state
/// and parsing the resulting characters back yields exactly those bits, with
/// high impedance above them.
///
/// `cs` is the character sequence `to_string` produces; its UTF-8 encoding
/// is one byte per character, every byte parses, and parsing reproduces the
/// first `w` bits of the state.
pub proof fn lemma_to_string_parse_round_trip(s: LogicState, w: int, cs: Seq<char>)
    requires
        1 <= w <= 256,
        cs.len() == w,
        forall|p: int| 0 <= p < w ==> cs[p] == spec_to_char(ls_bit(s, (w - 1 - p) as u32)),
    ensures
        vstd::utf8::is_ascii_chars(cs),
        vstd::utf8::encode_utf8(cs).len() == w,
        forall|p: int| 0 <= p < w ==> vstd::utf8::encode_utf8(cs)[p] == cs[p] as u8,
        all_bytes_legal(vstd::utf8::encode_utf8(cs)),
        forall|i: u32|
            i < 256 ==> spec_parsed_bit(vstd::utf8::encode_utf8(cs), i) == (if i < w {
                ls_bit(s, i)
            } else {
                LogicBitState::HighZ
            }),
{
    assert forall|p: int| 0 <= p < cs.len() implies '\0' <= #[trigger] cs[p] <= '\u{7f}' by {
        let b = ls_bit(s, (w - 1 - p) as u32);
        assert(cs[p] == spec_to_char(b));
    }
    assert(vstd::utf8::is_ascii_chars(cs));
    vstd::utf8::is_ascii_chars_encode_utf8(cs);
    let sb = vstd::utf8::encode_utf8(cs);
    assert forall|p: int| 0 <= p < w implies (#[trigger] spec_parse_byte(sb[p])) == Some(
        ls_bit(s, (w - 1 - p) as u32),
    ) by {
        let b = ls_bit(s, (w - 1 - p) as u32);
        assert(sb[p] == cs[p] as u8);
        assert(cs[p] == spec_to_char(b));
    }
    assert forall|i: u32| i < 256 implies spec_parsed_bit(sb, i) == (if i < w {
        ls_bit(s, i)
    } else {
        LogicBitState::HighZ
    }) by {
        if i < w {
            let p = w - 1 - i;
            assert(spec_parse_byte(sb[p]) == Some(ls_bit(s, (w - 1 - p) as u32)));
            assert((w - 1 - p) as u32 == i);
        }
    }
}

/// The first `n` bits of a logic state are worth less than `2^n`.
pub proof fn lemma_ls_val_bound(s: LogicState, n: int)
    requires
        0 <= n,
    ensures
        ls_val(s, n) < pow2(n as nat),
    decreases n,
{
    if n == 0 {
        vstd::arithmetic::power2::lemma_pow2_pos(0);
        assert(pow2(0) == 1) by {
            vstd::arithmetic::power2::lemma2_to64();
        }
    } else {
        lemma_ls_val_bound(s, n - 1);
        vstd::arithmetic::power2::lemma_pow2_unfold(n as nat);
    }
}

} // verus!
