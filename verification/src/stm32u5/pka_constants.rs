//! Registers and memory map of the public key accelerator.
use vstd::prelude::*;

verus! {

/// Start of the RAM region.
pub const RAM_START: usize = 0x400;

/// End of the RAM region.
pub const RAM_END: usize = 0x14D8;

/// Size of a RAM word, in bytes.
pub const WORD_SIZE: usize = 4;

/// Number of RAM words.
pub const RAM_WORDS: usize = (RAM_END - RAM_START) / WORD_SIZE;

/// Exponent length.
pub const EXP_LEN_IDX: usize = (0x400 - RAM_START) / WORD_SIZE;

/// Operand length.
pub const OP_LEN_IDX: usize = (0x408 - RAM_START) / WORD_SIZE;

/// Operand A (base of exponentiation).
pub const OP_A_IDX: usize = (0xC68 - RAM_START) / WORD_SIZE;

/// Exponent.
pub const EXP_IDX: usize = (0xE78 - RAM_START) / WORD_SIZE;

/// Modulus value.
pub const MOD_VALUE_IDX: usize = (0x1088 - RAM_START) / WORD_SIZE;

/// Result of an exponentiation.
pub const RESULT_IDX: usize = (0x838 - RAM_START) / WORD_SIZE;

/// Curve prime order length.
pub const PRIME_ORDER_LEN_IDX: usize = (0x400 - RAM_START) / WORD_SIZE;

/// Curve modulus length.
pub const CURVE_MODULUS_LEN_IDX: usize = (0x408 - RAM_START) / WORD_SIZE;

/// Curve coefficient a sign.
pub const CURVE_A_SIGN_IDX: usize = (0x410 - RAM_START) / WORD_SIZE;

/// Curve coefficient a absolute value.
pub const CURVE_A_IDX: usize = (0x418 - RAM_START) / WORD_SIZE;

/// Curve coefficient b.
pub const CURVE_B_IDX: usize = (0x520 - RAM_START) / WORD_SIZE;

/// Curve modulus value.
pub const CURVE_MODULUS_IDX: usize = (0x1088 - RAM_START) / WORD_SIZE;

/// Scalar multiplier.
pub const K_IDX: usize = (0x12A0 - RAM_START) / WORD_SIZE;

/// Point X coordinate.
pub const X_IDX: usize = (0x578 - RAM_START) / WORD_SIZE;

/// Point Y coordinate.
pub const Y_IDX: usize = (0x470 - RAM_START) / WORD_SIZE;

/// Curve prime order.
pub const PRIME_ORDER_IDX: usize = (0xF88 - RAM_START) / WORD_SIZE;

/// Result X coordinate.
pub const RESULT_X_IDX: usize = (0x578 - RAM_START) / WORD_SIZE;

/// Result Y coordinate.
pub const RESULT_Y_IDX: usize = (0x5D0 - RAM_START) / WORD_SIZE;

/// Code by which the accelerator says that no errors occurred.
pub const NO_ERRORS_OCCURED: u32 = 0xD60D;

/// Index of the RAM word at an address.
pub fn calc_idx(addr: usize) -> (idx: usize)
    requires
        addr >= RAM_START,
    ensures
        idx == (addr - RAM_START) / 4,
{
    (addr - RAM_START) / WORD_SIZE
}

/// RAM words of the operands of complete addition and of modular arithmetic, which boards state by
/// address.
#[derive(Clone, Copy, Debug, PartialEq, Eq, Structural)]
pub struct PkaLayout {
    /// Curve modulus for addition.
    pub add_curve_modulus: usize,
    /// First point.
    pub add_p_x: usize,
    pub add_p_y: usize,
    pub add_p_z: usize,
    /// Second point.
    pub add_q_x: usize,
    pub add_q_y: usize,
    pub add_q_z: usize,
    /// Sum, in projective coordinates.
    pub add_result_x: usize,
    pub add_result_y: usize,
    /// First operand of modular arithmetic.
    pub arith_op_a: usize,
    /// Result of modular arithmetic.
    pub math_result: usize,
    /// Montgomery parameter.
    pub montgomery_r2: usize,
}

impl PkaLayout {
    /// Every operand begins within the RAM.
    pub open spec fn wf(self) -> bool {
        &&& self.add_curve_modulus < RAM_WORDS
        &&& self.add_p_x < RAM_WORDS
        &&& self.add_p_y < RAM_WORDS
        &&& self.add_p_z < RAM_WORDS
        &&& self.add_q_x < RAM_WORDS
        &&& self.add_q_y < RAM_WORDS
        &&& self.add_q_z < RAM_WORDS
        &&& self.add_result_x < RAM_WORDS
        &&& self.add_result_y < RAM_WORDS
        &&& self.arith_op_a < RAM_WORDS
        &&& self.math_result < RAM_WORDS
        &&& self.montgomery_r2 < RAM_WORDS
    }
}

/// Operation codes.
#[derive(Clone, Copy, Debug, PartialEq, Eq, Structural)]
pub enum Mode {
    /// Montgomery parameter computation, then modular exponentiation.
    MontgomeryModularExp,
    /// Montgomery parameter computation only.
    MontgomeryOnly,
    /// Montgomery parameter computation, then ECC scalar multiplication (protected).
    MontgomeryECC,
    /// Point on elliptic curve check.
    FpCheck,
    /// Modular inversion.
    ModularInversion,
    /// Modular addition.
    ModularAddition,
    /// Montgomery multiplication.
    MontgomeryMultiplication,
    /// ECC complete addition.
    ECCCompleteAddition,
    /// ECC projective to affine.
    ECCProjectiveToAffine,
}

impl Mode {
    /// The six-bit code of the operation.
    pub open spec fn spec_code(self) -> u32 {
        match self {
            Mode::MontgomeryModularExp => 0x00,
            Mode::MontgomeryOnly => 0x01,
            Mode::MontgomeryECC => 0x20,
            Mode::FpCheck => 0x28,
            Mode::ModularInversion => 0x08,
            Mode::ModularAddition => 0x0e,
            Mode::MontgomeryMultiplication => 0x10,
            Mode::ECCCompleteAddition => 0x23,
            Mode::ECCProjectiveToAffine => 0x2f,
        }
    }

    /// Return the six-bit code of the operation.
    pub fn code(self) -> (code: u32)
        ensures
            code == self.spec_code(),
            code < 64,
    {
        match self {
            Mode::MontgomeryModularExp => 0x00,
            Mode::MontgomeryOnly => 0x01,
            Mode::MontgomeryECC => 0x20,
            Mode::FpCheck => 0x28,
            Mode::ModularInversion => 0x08,
            Mode::ModularAddition => 0x0e,
            Mode::MontgomeryMultiplication => 0x10,
            Mode::ECCCompleteAddition => 0x23,
            Mode::ECCProjectiveToAffine => 0x2f,
        }
    }
}

/// The bit of a flag.
pub open spec fn flag(set: bool, position: nat) -> int {
    if set {
        vstd::arithmetic::power2::pow2(position) as int
    } else {
        0
    }
}

/// The control register.
#[derive(Clone, Copy, Debug, PartialEq, Eq, Structural)]
pub struct Control {
    /// Operation error interrupt enable.
    pub operrie: bool,
    /// Address error interrupt enable.
    pub adderrie: bool,
    /// RAM error interrupt enable.
    pub ramerrie: bool,
    /// End of operation interrupt enable.
    pub procendie: bool,
    /// Operation code.
    pub mode: Mode,
    /// Start the operation.
    pub start: bool,
    /// Accelerator enable.
    pub en: bool,
}

impl Control {
    /// The register as a number.
    pub fn bits(&self) -> (bits: u32)
        ensures
            bits == flag(self.operrie, 21) + flag(self.adderrie, 20) + flag(self.ramerrie, 19)
                + flag(self.procendie, 17) + self.mode.spec_code() * 256 + flag(self.start, 1)
                + flag(self.en, 0),
    {
        proof {
            vstd::arithmetic::power2::lemma2_to64();
        }
        let mut bits: u32 = self.mode.code() * 256;
        if self.operrie {
            bits = bits + 0x20_0000;
        }
        if self.adderrie {
            bits = bits + 0x10_0000;
        }
        if self.ramerrie {
            bits = bits + 0x8_0000;
        }
        if self.procendie {
            bits = bits + 0x2_0000;
        }
        if self.start {
            bits = bits + 2;
        }
        if self.en {
            bits = bits + 1;
        }
        bits
    }
}

/// The flags of the status register that the accelerator raises and that software clears.
#[derive(Clone, Copy, Debug, PartialEq, Eq, Structural)]
pub struct Flags {
    /// Operation error.
    pub operr: bool,
    /// Address error.
    pub addrerr: bool,
    /// RAM error.
    pub ramerr: bool,
    /// End of operation.
    pub procend: bool,
}

impl Flags {
    /// The value to write to the clear flag register.
    pub fn bits(&self) -> (bits: u32)
        ensures
            bits == flag(self.operr, 21) + flag(self.addrerr, 20) + flag(self.ramerr, 19) + flag(
                self.procend,
                17,
            ),
    {
        proof {
            vstd::arithmetic::power2::lemma2_to64();
        }
        let mut bits: u32 = 0;
        if self.operr {
            bits = bits + 0x20_0000;
        }
        if self.addrerr {
            bits = bits + 0x10_0000;
        }
        if self.ramerr {
            bits = bits + 0x8_0000;
        }
        if self.procend {
            bits = bits + 0x2_0000;
        }
        bits
    }
}

/// The status register.
#[derive(Clone, Copy, Debug, PartialEq, Eq, Structural)]
pub struct Status {
    /// Flags of the last operation.
    pub flags: Flags,
    /// An operation is running.
    pub busy: bool,
}

impl Status {
    /// Decodes the status register.
    pub fn from_bits(bits: u32) -> (status: Status)
        ensures
            status.flags.operr == ((bits as nat / vstd::arithmetic::power2::pow2(21)) % 2 == 1),
            status.flags.addrerr == ((bits as nat / vstd::arithmetic::power2::pow2(20)) % 2 == 1),
            status.flags.ramerr == ((bits as nat / vstd::arithmetic::power2::pow2(19)) % 2 == 1),
            status.flags.procend == ((bits as nat / vstd::arithmetic::power2::pow2(17)) % 2 == 1),
            status.busy == ((bits as nat / vstd::arithmetic::power2::pow2(16)) % 2 == 1),
    {
        proof {
            vstd::arithmetic::power2::lemma2_to64();
        }
        Status {
            flags: Flags {
                operr: bits / 0x20_0000 % 2 == 1,
                addrerr: bits / 0x10_0000 % 2 == 1,
                ramerr: bits / 0x8_0000 % 2 == 1,
                procend: bits / 0x2_0000 % 2 == 1,
            },
            busy: bits / 0x1_0000 % 2 == 1,
        }
    }
}

} // verus!
