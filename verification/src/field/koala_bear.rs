//! KoalaBear: `p = 2^31 - 2^24 + 1 = 0x7f000001`, 2-adicity 24.

use vstd::arithmetic::power2::*;
use vstd::prelude::*;

use crate::zmod;

use super::ext4::{BinomialExt4Parameters, Ext4};
use super::monty::{MontyField, MontyParameters};

verus! {

/// Canonical primitive `2^k`-th roots of unity of KoalaBear.
pub const KOALA_BEAR_GENERATORS: [u32; 32] = [
    0x00000001, 0x7f000000, 0x7e010002, 0x6832fe4a, 0x08dbd69c, 0x0a28f031, 0x5c4a5b99, 0x29b75a80,
    0x17668b8a, 0x27ad539b, 0x334d48c7, 0x7744959c, 0x768fc6fa, 0x303964b2, 0x3e687d4d, 0x45a60e61,
    0x6e2f4d7a, 0x163bd499, 0x6c4a8a45, 0x143ef899, 0x514ddcad, 0x484ef19b, 0x205d63c3, 0x68e7dd49,
    0x6ac49f88, 0x00000000, 0x00000000, 0x00000000, 0x00000000, 0x00000000, 0x00000000, 0x00000000,
];

/// Marker type carrying [`MontyParameters`] for the KoalaBear field.
#[derive(Copy, Clone, Default, Debug, Eq, Hash, PartialEq)]
pub struct KoalaBearParameters;

impl MontyParameters for KoalaBearParameters {
    const PRIME: u32 = 0x7f000001;

    const MU: u32 = 0x7effffff;

    const R2: u32 = 0x17f7efe4;

    const MONT_ONE: u32 = 0x01fffffe;

    const TWO_ADICITY: u32 = 24;

    const TWO_ADIC_GENERATORS: [u32; 32] = KOALA_BEAR_GENERATORS;

    proof fn consistent() {
        lemma2_to64();
        assert(pow2((Self::TWO_ADICITY + 1) as nat) == 2 * pow2(Self::TWO_ADICITY as nat)) by {
            lemma_pow2_unfold((Self::TWO_ADICITY + 1) as nat);
        }
        assert forall|k: int| 1 <= k <= Self::TWO_ADICITY implies #[trigger] zmod::times(
            Self::PRIME as int,
            Self::TWO_ADIC_GENERATORS@[k] as int,
            Self::TWO_ADIC_GENERATORS@[k] as int,
        ) == Self::TWO_ADIC_GENERATORS@[k - 1] by {
            lemma_generator_squares(k);
        }
        lemma_fermat_at_two();
    }
}

/// Each generator squares to the one before it.
proof fn lemma_generator_squares(k: int)
    requires
        1 <= k <= 24,
    ensures
        zmod::times(
            0x7f000001,
            KOALA_BEAR_GENERATORS@[k] as int,
            KOALA_BEAR_GENERATORS@[k] as int,
        ) == KOALA_BEAR_GENERATORS@[k - 1],
{
    assert(0x7f000000int * 0x7f000000int % 0x7f000001int == 0x00000001int);
    assert(0x7e010002int * 0x7e010002int % 0x7f000001int == 0x7f000000int);
    assert(0x6832fe4aint * 0x6832fe4aint % 0x7f000001int == 0x7e010002int);
    assert(0x08dbd69cint * 0x08dbd69cint % 0x7f000001int == 0x6832fe4aint);
    assert(0x0a28f031int * 0x0a28f031int % 0x7f000001int == 0x08dbd69cint);
    assert(0x5c4a5b99int * 0x5c4a5b99int % 0x7f000001int == 0x0a28f031int);
    assert(0x29b75a80int * 0x29b75a80int % 0x7f000001int == 0x5c4a5b99int);
    assert(0x17668b8aint * 0x17668b8aint % 0x7f000001int == 0x29b75a80int);
    assert(0x27ad539bint * 0x27ad539bint % 0x7f000001int == 0x17668b8aint);
    assert(0x334d48c7int * 0x334d48c7int % 0x7f000001int == 0x27ad539bint);
    assert(0x7744959cint * 0x7744959cint % 0x7f000001int == 0x334d48c7int);
    assert(0x768fc6faint * 0x768fc6faint % 0x7f000001int == 0x7744959cint);
    assert(0x303964b2int * 0x303964b2int % 0x7f000001int == 0x768fc6faint);
    assert(0x3e687d4dint * 0x3e687d4dint % 0x7f000001int == 0x303964b2int);
    assert(0x45a60e61int * 0x45a60e61int % 0x7f000001int == 0x3e687d4dint);
    assert(0x6e2f4d7aint * 0x6e2f4d7aint % 0x7f000001int == 0x45a60e61int);
    assert(0x163bd499int * 0x163bd499int % 0x7f000001int == 0x6e2f4d7aint);
    assert(0x6c4a8a45int * 0x6c4a8a45int % 0x7f000001int == 0x163bd499int);
    assert(0x143ef899int * 0x143ef899int % 0x7f000001int == 0x6c4a8a45int);
    assert(0x514ddcadint * 0x514ddcadint % 0x7f000001int == 0x143ef899int);
    assert(0x484ef19bint * 0x484ef19bint % 0x7f000001int == 0x514ddcadint);
    assert(0x205d63c3int * 0x205d63c3int % 0x7f000001int == 0x484ef19bint);
    assert(0x68e7dd49int * 0x68e7dd49int % 0x7f000001int == 0x205d63c3int);
    assert(0x6ac49f88int * 0x6ac49f88int % 0x7f000001int == 0x68e7dd49int);
}

/// `2^(p-1) = 1 mod p`, by repeated squaring from `2^127`.
proof fn lemma_fermat_at_two()
    ensures
        zmod::power(0x7f000001, 2, 0x7f000000) == 1,
{
    let p = 0x7f000001int;
    assert(zmod::power(p, 2, 63) == 201062386) by {
        lemma2_to64_rest();
        lemma_pow2(63);
    }
    zmod::lemma_power_adds(p, 2, 63, 63);
    zmod::lemma_power_step(p, 2, 126);
    assert(201062386int * 201062386int % p == 277831459int);
    assert(277831459int * 2 % p == 555662918int);
    zmod::lemma_power_doubles(p, 2, 0x7f, 555662918, 1982911319);
    zmod::lemma_power_doubles(p, 2, 0xfe, 1982911319, 622490401);
    zmod::lemma_power_doubles(p, 2, 0x1fc, 622490401, 396602431);
    zmod::lemma_power_doubles(p, 2, 0x3f8, 396602431, 699942769);
    zmod::lemma_power_doubles(p, 2, 0x7f0, 699942769, 2074828752);
    zmod::lemma_power_doubles(p, 2, 0xfe0, 2074828752, 1464790324);
    zmod::lemma_power_doubles(p, 2, 0x1fc0, 1464790324, 745786471);
    zmod::lemma_power_doubles(p, 2, 0x3f80, 745786471, 808398305);
    zmod::lemma_power_doubles(p, 2, 0x7f00, 808398305, 42916845);
    zmod::lemma_power_doubles(p, 2, 0xfe00, 42916845, 500050103);
    zmod::lemma_power_doubles(p, 2, 0x1fc00, 500050103, 1627324140);
    zmod::lemma_power_doubles(p, 2, 0x3f800, 1627324140, 907314666);
    zmod::lemma_power_doubles(p, 2, 0x7f000, 907314666, 1620416215);
    zmod::lemma_power_doubles(p, 2, 0xfe000, 1620416215, 1790095244);
    zmod::lemma_power_doubles(p, 2, 0x1fc000, 1790095244, 1181515767);
    zmod::lemma_power_doubles(p, 2, 0x3f8000, 1181515767, 1464983071);
    zmod::lemma_power_doubles(p, 2, 0x7f0000, 1464983071, 391001680);
    zmod::lemma_power_doubles(p, 2, 0xfe0000, 391001680, 16711679);
    zmod::lemma_power_doubles(p, 2, 0x1fc0000, 16711679, 2130706432);
    zmod::lemma_power_doubles(p, 2, 0x3f80000, 2130706432, 1);
    zmod::lemma_power_doubles(p, 2, 0x7f00000, 1, 1);
    zmod::lemma_power_doubles(p, 2, 0xfe00000, 1, 1);
    zmod::lemma_power_doubles(p, 2, 0x1fc00000, 1, 1);
    zmod::lemma_power_doubles(p, 2, 0x3f800000, 1, 1);
}

/// KoalaBear field element.
pub type KoalaBear = MontyField<KoalaBearParameters>;

/// Degree-4 binomial extension parameters: `F_p[X] / (X^4 - 3)`.
///
/// KoalaBear has no degree-5 binomial extension: `gcd(5, p - 1) = 1`, so
/// every element of the field is already a fifth power.
#[derive(Copy, Clone, Default, Debug, Eq, Hash, PartialEq)]
pub struct KoalaBear4Parameters;

impl BinomialExt4Parameters for KoalaBear4Parameters {
    type Base = KoalaBearParameters;

    const W: u32 = 3;

    const W_MONT: u32 = 0x05fffffa;

    proof fn consistent() {
        lemma_w_is_no_square();
    }
}

/// `3^((p-1)/2) = -1 mod p`, by repeated squaring.
proof fn lemma_w_is_no_square()
    ensures
        zmod::power(0x7f000001, 3, 0x3f800000) == 2130706432,
{
    let p = 0x7f000001int;
    zmod::lemma_power_base(p, 3);
    zmod::lemma_reduced(p, 3);
    zmod::lemma_power_doubles(p, 3, 0x1, 3, 9);
    zmod::lemma_power_step(p, 3, 0x2);
    assert(9int * 3 % p == 27);
    zmod::lemma_power_doubles(p, 3, 0x3, 27, 729);
    zmod::lemma_power_step(p, 3, 0x6);
    assert(729int * 3 % p == 2187);
    zmod::lemma_power_doubles(p, 3, 0x7, 2187, 4782969);
    zmod::lemma_power_step(p, 3, 0xe);
    assert(4782969int * 3 % p == 14348907);
    zmod::lemma_power_doubles(p, 3, 0xf, 14348907, 969473859);
    zmod::lemma_power_step(p, 3, 0x1e);
    assert(969473859int * 3 % p == 777715144);
    zmod::lemma_power_doubles(p, 3, 0x1f, 777715144, 1296657966);
    zmod::lemma_power_step(p, 3, 0x3e);
    assert(1296657966int * 3 % p == 1759267465);
    zmod::lemma_power_doubles(p, 3, 0x3f, 1759267465, 597090264);
    zmod::lemma_power_step(p, 3, 0x7e);
    assert(597090264int * 3 % p == 1791270792);
    zmod::lemma_power_doubles(p, 3, 0x7f, 1791270792, 1760025929);
    zmod::lemma_power_doubles(p, 3, 0xfe, 1760025929, 542991299);
    zmod::lemma_power_doubles(p, 3, 0x1fc, 542991299, 1213133211);
    zmod::lemma_power_doubles(p, 3, 0x3f8, 1213133211, 1364057261);
    zmod::lemma_power_doubles(p, 3, 0x7f0, 1364057261, 339671193);
    zmod::lemma_power_doubles(p, 3, 0xfe0, 339671193, 1816824389);
    zmod::lemma_power_doubles(p, 3, 0x1fc0, 1816824389, 373019801);
    zmod::lemma_power_doubles(p, 3, 0x3f80, 373019801, 1848593786);
    zmod::lemma_power_doubles(p, 3, 0x7f00, 1848593786, 1168510561);
    zmod::lemma_power_doubles(p, 3, 0xfe00, 1168510561, 1047035213);
    zmod::lemma_power_doubles(p, 3, 0x1fc00, 1047035213, 809067698);
    zmod::lemma_power_doubles(p, 3, 0x3f800, 809067698, 1989134074);
    zmod::lemma_power_doubles(p, 3, 0x7f000, 1989134074, 2000983452);
    zmod::lemma_power_doubles(p, 3, 0xfe000, 2000983452, 860702919);
    zmod::lemma_power_doubles(p, 3, 0x1fc000, 860702919, 665670555);
    zmod::lemma_power_doubles(p, 3, 0x3f8000, 665670555, 392596362);
    zmod::lemma_power_doubles(p, 3, 0x7f0000, 392596362, 699882112);
    zmod::lemma_power_doubles(p, 3, 0xfe0000, 699882112, 1548376985);
    zmod::lemma_power_doubles(p, 3, 0x1fc0000, 1548376985, 170455089);
    zmod::lemma_power_doubles(p, 3, 0x3f80000, 170455089, 148625052);
    zmod::lemma_power_doubles(p, 3, 0x7f00000, 148625052, 1748172362);
    zmod::lemma_power_doubles(p, 3, 0xfe00000, 1748172362, 2113994754);
    zmod::lemma_power_doubles(p, 3, 0x1fc00000, 2113994754, 2130706432);
}

/// KoalaBear^4: shorthand for [`Ext4<KoalaBear4Parameters>`].
pub type KoalaBear4 = Ext4<KoalaBear4Parameters>;

/// The constants of KoalaBear and its extension.
pub proof fn law_constants()
    ensures
        KoalaBearParameters::PRIME == 0x7f000001,
        KoalaBearParameters::MU == 0x7effffff,
        KoalaBearParameters::R2 == 0x17f7efe4,
        KoalaBearParameters::MONT_ONE == 0x01fffffe,
        KoalaBearParameters::TWO_ADICITY == 24,
        KoalaBearParameters::TWO_ADIC_GENERATORS == KOALA_BEAR_GENERATORS,
        KoalaBear4Parameters::W == 3,
        KoalaBear4Parameters::W_MONT == 0x05fffffa,
{
}

/// The generators, from the one of order `2^24` down: each is the square of
/// the next.
pub proof fn law_generators(k: int)
    requires
        1 <= k <= 24,
    ensures
        KoalaBearParameters::TWO_ADIC_GENERATORS@[24] == 0x6ac49f88,
        KoalaBearParameters::TWO_ADIC_GENERATORS@[k - 1] == (
        KoalaBearParameters::TWO_ADIC_GENERATORS@[k] * KoalaBearParameters::TWO_ADIC_GENERATORS@[k])
            % 0x7f000001,
{
    lemma_generator_squares(k);
}

} // verus!
