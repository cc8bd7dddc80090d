//! The elliptic curve NIST P-256.
use vstd::prelude::*;

verus! {

/// Size of a coordinate, in bytes.
pub const P_256_P_SIZE: usize = 32;

/// The prime of the field.
#[verifier::opaque]
pub open spec fn p() -> Seq<u8> {
    seq![
        0xffu8, 0xffu8, 0xffu8, 0xffu8, 0x00u8, 0x00u8, 0x00u8, 0x01u8,
        0x00u8, 0x00u8, 0x00u8, 0x00u8, 0x00u8, 0x00u8, 0x00u8, 0x00u8,
        0x00u8, 0x00u8, 0x00u8, 0x00u8, 0xffu8, 0xffu8, 0xffu8, 0xffu8,
        0xffu8, 0xffu8, 0xffu8, 0xffu8, 0xffu8, 0xffu8, 0xffu8, 0xffu8,
    ]
}

/// The order of the generator.
#[verifier::opaque]
pub open spec fn n() -> Seq<u8> {
    seq![
        0xffu8, 0xffu8, 0xffu8, 0xffu8, 0x00u8, 0x00u8, 0x00u8, 0x00u8,
        0xffu8, 0xffu8, 0xffu8, 0xffu8, 0xffu8, 0xffu8, 0xffu8, 0xffu8,
        0xbcu8, 0xe6u8, 0xfau8, 0xadu8, 0xa7u8, 0x17u8, 0x9eu8, 0x84u8,
        0xf3u8, 0xb9u8, 0xcau8, 0xc2u8, 0xfcu8, 0x63u8, 0x25u8, 0x51u8,
    ]
}

/// Coefficient a of the curve equation.
#[verifier::opaque]
pub open spec fn a() -> Seq<u8> {
    seq![
        0xffu8, 0xffu8, 0xffu8, 0xffu8, 0x00u8, 0x00u8, 0x00u8, 0x01u8,
        0x00u8, 0x00u8, 0x00u8, 0x00u8, 0x00u8, 0x00u8, 0x00u8, 0x00u8,
        0x00u8, 0x00u8, 0x00u8, 0x00u8, 0xffu8, 0xffu8, 0xffu8, 0xffu8,
        0xffu8, 0xffu8, 0xffu8, 0xffu8, 0xffu8, 0xffu8, 0xffu8, 0xfcu8,
    ]
}

/// Coefficient b of the curve equation.
#[verifier::opaque]
pub open spec fn b() -> Seq<u8> {
    seq![
        0x5au8, 0xc6u8, 0x35u8, 0xd8u8, 0xaau8, 0x3au8, 0x93u8, 0xe7u8,
        0xb3u8, 0xebu8, 0xbdu8, 0x55u8, 0x76u8, 0x98u8, 0x86u8, 0xbcu8,
        0x65u8, 0x1du8, 0x06u8, 0xb0u8, 0xccu8, 0x53u8, 0xb0u8, 0xf6u8,
        0x3bu8, 0xceu8, 0x3cu8, 0x3eu8, 0x27u8, 0xd2u8, 0x60u8, 0x4bu8,
    ]
}

/// The x coordinate of the generator.
#[verifier::opaque]
pub open spec fn generator_x() -> Seq<u8> {
    seq![
        0x6bu8, 0x17u8, 0xd1u8, 0xf2u8, 0xe1u8, 0x2cu8, 0x42u8, 0x47u8,
        0xf8u8, 0xbcu8, 0xe6u8, 0xe5u8, 0x63u8, 0xa4u8, 0x40u8, 0xf2u8,
        0x77u8, 0x03u8, 0x7du8, 0x81u8, 0x2du8, 0xebu8, 0x33u8, 0xa0u8,
        0xf4u8, 0xa1u8, 0x39u8, 0x45u8, 0xd8u8, 0x98u8, 0xc2u8, 0x96u8,
    ]
}

/// The y coordinate of the generator.
#[verifier::opaque]
pub open spec fn generator_y() -> Seq<u8> {
    seq![
        0x4fu8, 0xe3u8, 0x42u8, 0xe2u8, 0xfeu8, 0x1au8, 0x7fu8, 0x9bu8,
        0x8eu8, 0xe7u8, 0xebu8, 0x4au8, 0x7cu8, 0x0fu8, 0x9eu8, 0x16u8,
        0x2bu8, 0xceu8, 0x33u8, 0x57u8, 0x6bu8, 0x31u8, 0x5eu8, 0xceu8,
        0xcbu8, 0xb6u8, 0x40u8, 0x68u8, 0x37u8, 0xbfu8, 0x51u8, 0xf5u8,
    ]
}

/// The Montgomery parameter of the prime: the square of 2 to the 256, modulo the prime.
#[verifier::opaque]
pub open spec fn r2_mod_p() -> Seq<u8> {
    seq![
        0x00u8, 0x00u8, 0x00u8, 0x04u8, 0xffu8, 0xffu8, 0xffu8, 0xfdu8,
        0xffu8, 0xffu8, 0xffu8, 0xffu8, 0xffu8, 0xffu8, 0xffu8, 0xfeu8,
        0xffu8, 0xffu8, 0xffu8, 0xfbu8, 0xffu8, 0xffu8, 0xffu8, 0xffu8,
        0x00u8, 0x00u8, 0x00u8, 0x00u8, 0x00u8, 0x00u8, 0x00u8, 0x03u8,
    ]
}

/// Every constant has the size of a coordinate.
pub proof fn lemma_sizes()
    ensures
        p().len() == 32,
        n().len() == 32,
        a().len() == 32,
        b().len() == 32,
        generator_x().len() == 32,
        generator_y().len() == 32,
        r2_mod_p().len() == 32,
{
    assert(p().len() == 32) by {
        reveal(p);
    }
    assert(n().len() == 32) by {
        reveal(n);
    }
    assert(a().len() == 32) by {
        reveal(a);
    }
    assert(b().len() == 32) by {
        reveal(b);
    }
    assert(generator_x().len() == 32) by {
        reveal(generator_x);
    }
    assert(generator_y().len() == 32) by {
        reveal(generator_y);
    }
    assert(r2_mod_p().len() == 32) by {
        reveal(r2_mod_p);
    }
}

/// Constants of the curve, in big-endian order.
pub struct NistP256Constants;

impl NistP256Constants {
    /// The prime of the field.
    pub fn p() -> (bytes: [u8; 32])
        ensures
            bytes@ == self::p(),
    {
        let bytes: [u8; 32] = [
            0xff, 0xff, 0xff, 0xff, 0x00, 0x00, 0x00, 0x01,
            0x00, 0x00, 0x00, 0x00, 0x00, 0x00, 0x00, 0x00,
            0x00, 0x00, 0x00, 0x00, 0xff, 0xff, 0xff, 0xff,
            0xff, 0xff, 0xff, 0xff, 0xff, 0xff, 0xff, 0xff,
        ];
        proof {
            reveal(self::p);
            assert(bytes@ =~= self::p());
        }
        bytes
    }

    /// The order of the generator.
    pub fn n() -> (bytes: [u8; 32])
        ensures
            bytes@ == self::n(),
    {
        let bytes: [u8; 32] = [
            0xff, 0xff, 0xff, 0xff, 0x00, 0x00, 0x00, 0x00,
            0xff, 0xff, 0xff, 0xff, 0xff, 0xff, 0xff, 0xff,
            0xbc, 0xe6, 0xfa, 0xad, 0xa7, 0x17, 0x9e, 0x84,
            0xf3, 0xb9, 0xca, 0xc2, 0xfc, 0x63, 0x25, 0x51,
        ];
        proof {
            reveal(self::n);
            assert(bytes@ =~= self::n());
        }
        bytes
    }

    /// Coefficient a of the curve equation.
    pub fn a() -> (bytes: [u8; 32])
        ensures
            bytes@ == self::a(),
    {
        let bytes: [u8; 32] = [
            0xff, 0xff, 0xff, 0xff, 0x00, 0x00, 0x00, 0x01,
            0x00, 0x00, 0x00, 0x00, 0x00, 0x00, 0x00, 0x00,
            0x00, 0x00, 0x00, 0x00, 0xff, 0xff, 0xff, 0xff,
            0xff, 0xff, 0xff, 0xff, 0xff, 0xff, 0xff, 0xfc,
        ];
        proof {
            reveal(self::a);
            assert(bytes@ =~= self::a());
        }
        bytes
    }

    /// Coefficient b of the curve equation.
    pub fn b() -> (bytes: [u8; 32])
        ensures
            bytes@ == self::b(),
    {
        let bytes: [u8; 32] = [
            0x5a, 0xc6, 0x35, 0xd8, 0xaa, 0x3a, 0x93, 0xe7,
            0xb3, 0xeb, 0xbd, 0x55, 0x76, 0x98, 0x86, 0xbc,
            0x65, 0x1d, 0x06, 0xb0, 0xcc, 0x53, 0xb0, 0xf6,
            0x3b, 0xce, 0x3c, 0x3e, 0x27, 0xd2, 0x60, 0x4b,
        ];
        proof {
            reveal(self::b);
            assert(bytes@ =~= self::b());
        }
        bytes
    }

    /// The x coordinate of the generator.
    pub fn generator_x() -> (bytes: [u8; 32])
        ensures
            bytes@ == self::generator_x(),
    {
        let bytes: [u8; 32] = [
            0x6b, 0x17, 0xd1, 0xf2, 0xe1, 0x2c, 0x42, 0x47,
            0xf8, 0xbc, 0xe6, 0xe5, 0x63, 0xa4, 0x40, 0xf2,
            0x77, 0x03, 0x7d, 0x81, 0x2d, 0xeb, 0x33, 0xa0,
            0xf4, 0xa1, 0x39, 0x45, 0xd8, 0x98, 0xc2, 0x96,
        ];
        proof {
            reveal(self::generator_x);
            assert(bytes@ =~= self::generator_x());
        }
        bytes
    }

    /// The y coordinate of the generator.
    pub fn generator_y() -> (bytes: [u8; 32])
        ensures
            bytes@ == self::generator_y(),
    {
        let bytes: [u8; 32] = [
            0x4f, 0xe3, 0x42, 0xe2, 0xfe, 0x1a, 0x7f, 0x9b,
            0x8e, 0xe7, 0xeb, 0x4a, 0x7c, 0x0f, 0x9e, 0x16,
            0x2b, 0xce, 0x33, 0x57, 0x6b, 0x31, 0x5e, 0xce,
            0xcb, 0xb6, 0x40, 0x68, 0x37, 0xbf, 0x51, 0xf5,
        ];
        proof {
            reveal(self::generator_y);
            assert(bytes@ =~= self::generator_y());
        }
        bytes
    }

    /// The Montgomery parameter of the prime: the square of 2 to the 256, modulo the prime.
    pub fn r2_mod_p() -> (bytes: [u8; 32])
        ensures
            bytes@ == self::r2_mod_p(),
    {
        let bytes: [u8; 32] = [
            0x00, 0x00, 0x00, 0x04, 0xff, 0xff, 0xff, 0xfd,
            0xff, 0xff, 0xff, 0xff, 0xff, 0xff, 0xff, 0xfe,
            0xff, 0xff, 0xff, 0xfb, 0xff, 0xff, 0xff, 0xff,
            0x00, 0x00, 0x00, 0x00, 0x00, 0x00, 0x00, 0x03,
        ];
        proof {
            reveal(self::r2_mod_p);
            assert(bytes@ =~= self::r2_mod_p());
        }
        bytes
    }
}

} // verus!
