//! BabyBear: `p = 2^31 - 2^27 + 1 = 0x78000001`, 2-adicity 27.

use vstd::arithmetic::power2::*;
use vstd::prelude::*;

use crate::zmod;

use super::ext4::{BinomialExt4Parameters, Ext4};
use super::ext5::{BinomialExt5Parameters, Ext5};
use super::monty::{MontyField, MontyParameters};

verus! {

/// Canonical primitive `2^k`-th roots of unity of BabyBear.
pub const BABY_BEAR_GENERATORS: [u32; 32] = [
    0x00000001, 0x78000000, 0x67055c21, 0x5ee99486, 0x0bb4c4e4, 0x2d4cc4da, 0x669d6090, 0x17b56c64,
    0x67456167, 0x688442f9, 0x145e952d, 0x4fe61226, 0x4c734715, 0x11c33e2a, 0x62c3d2b1, 0x77cad399,
    0x54c131f4, 0x4cabd6a6, 0x5cf5713f, 0x3e9430e8, 0x0ba067a3, 0x18adc27d, 0x21fd55bc, 0x4b859b3d,
    0x3bd57996, 0x4483d85a, 0x3a26eef8, 0x1a427a41, 0x00000000, 0x00000000, 0x00000000, 0x00000000,
];

/// Marker type carrying [`MontyParameters`] for the BabyBear field.
#[derive(Copy, Clone, Default, Debug, Eq, Hash, PartialEq)]
pub struct BabyBearParameters;

impl MontyParameters for BabyBearParameters {
    const PRIME: u32 = 0x78000001;

    const MU: u32 = 0x77ffffff;

    const R2: u32 = 0x45dddde3;

    const MONT_ONE: u32 = 0x0ffffffe;

    const TWO_ADICITY: u32 = 27;

    const TWO_ADIC_GENERATORS: [u32; 32] = BABY_BEAR_GENERATORS;

    proof fn consistent() {
        lemma2_to64();
        assert(pow2((Self::TWO_ADICITY + 1) as nat) == 2 * pow2(Self::TWO_ADICITY as nat)) by {
            lemma_pow2_unfold((Self::TWO_ADICITY + 1) as nat);
        }
        assert forall|k: int| 1 <= k <= Self::TWO_ADICITY implies #[trigger] zmod::times(
            Self::PRIME as int,
            Self::TWO_ADIC_GENERATORS@[k] as int,
            Self::TWO_ADIC_GENERATORS@[k] as int,
        ) == Self::TWO_ADIC_GENERATORS@[k - 1] by {
            lemma_generator_squares(k);
        }
        lemma_fermat_at_two();
    }
}

/// Each generator squares to the one before it.
proof fn lemma_generator_squares(k: int)
    requires
        1 <= k <= 27,
    ensures
        zmod::times(
            0x78000001,
            BABY_BEAR_GENERATORS@[k] as int,
            BABY_BEAR_GENERATORS@[k] as int,
        ) == BABY_BEAR_GENERATORS@[k - 1],
{
    assert(0x78000000int * 0x78000000int % 0x78000001int == 0x00000001int);
    assert(0x67055c21int * 0x67055c21int % 0x78000001int == 0x78000000int);
    assert(0x5ee99486int * 0x5ee99486int % 0x78000001int == 0x67055c21int);
    assert(0x0bb4c4e4int * 0x0bb4c4e4int % 0x78000001int == 0x5ee99486int);
    assert(0x2d4cc4daint * 0x2d4cc4daint % 0x78000001int == 0x0bb4c4e4int);
    assert(0x669d6090int * 0x669d6090int % 0x78000001int == 0x2d4cc4daint);
    assert(0x17b56c64int * 0x17b56c64int % 0x78000001int == 0x669d6090int);
    assert(0x67456167int * 0x67456167int % 0x78000001int == 0x17b56c64int);
    assert(0x688442f9int * 0x688442f9int % 0x78000001int == 0x67456167int);
    assert(0x145e952dint * 0x145e952dint % 0x78000001int == 0x688442f9int);
    assert(0x4fe61226int * 0x4fe61226int % 0x78000001int == 0x145e952dint);
    assert(0x4c734715int * 0x4c734715int % 0x78000001int == 0x4fe61226int);
    assert(0x11c33e2aint * 0x11c33e2aint % 0x78000001int == 0x4c734715int);
    assert(0x62c3d2b1int * 0x62c3d2b1int % 0x78000001int == 0x11c33e2aint);
    assert(0x77cad399int * 0x77cad399int % 0x78000001int == 0x62c3d2b1int);
    assert(0x54c131f4int * 0x54c131f4int % 0x78000001int == 0x77cad399int);
    assert(0x4cabd6a6int * 0x4cabd6a6int % 0x78000001int == 0x54c131f4int);
    assert(0x5cf5713fint * 0x5cf5713fint % 0x78000001int == 0x4cabd6a6int);
    assert(0x3e9430e8int * 0x3e9430e8int % 0x78000001int == 0x5cf5713fint);
    assert(0x0ba067a3int * 0x0ba067a3int % 0x78000001int == 0x3e9430e8int);
    assert(0x18adc27dint * 0x18adc27dint % 0x78000001int == 0x0ba067a3int);
    assert(0x21fd55bcint * 0x21fd55bcint % 0x78000001int == 0x18adc27dint);
    assert(0x4b859b3dint * 0x4b859b3dint % 0x78000001int == 0x21fd55bcint);
    assert(0x3bd57996int * 0x3bd57996int % 0x78000001int == 0x4b859b3dint);
    assert(0x4483d85aint * 0x4483d85aint % 0x78000001int == 0x3bd57996int);
    assert(0x3a26eef8int * 0x3a26eef8int % 0x78000001int == 0x4483d85aint);
    assert(0x1a427a41int * 0x1a427a41int % 0x78000001int == 0x3a26eef8int);
}

/// `2^(p-1) = 1 mod p`, by repeated squaring from `2^15`.
proof fn lemma_fermat_at_two()
    ensures
        zmod::power(0x78000001, 2, 0x78000000) == 1,
{
    let p = 0x78000001int;
    assert(zmod::power(p, 2, 15) == 0x8000) by {
        lemma2_to64();
        lemma_pow2(15);
        zmod::lemma_reduced(p, 0x8000);
    }
    zmod::lemma_power_doubles(p, 2, 0xf, 32768, 1073741824);
    zmod::lemma_power_doubles(p, 2, 0x1e, 1073741824, 1709039071);
    zmod::lemma_power_doubles(p, 2, 0x3c, 1709039071, 584553003);
    zmod::lemma_power_doubles(p, 2, 0x78, 584553003, 563168684);
    zmod::lemma_power_doubles(p, 2, 0xf0, 563168684, 1584030254);
    zmod::lemma_power_doubles(p, 2, 0x1e0, 1584030254, 158733553);
    zmod::lemma_power_doubles(p, 2, 0x3c0, 158733553, 1763939212);
    zmod::lemma_power_doubles(p, 2, 0x780, 1763939212, 691259344);
    zmod::lemma_power_doubles(p, 2, 0xf00, 691259344, 850357859);
    zmod::lemma_power_doubles(p, 2, 0x1e00, 850357859, 696955690);
    zmod::lemma_power_doubles(p, 2, 0x3c00, 696955690, 1816803640);
    zmod::lemma_power_doubles(p, 2, 0x7800, 1816803640, 1601241332);
    zmod::lemma_power_doubles(p, 2, 0xf000, 1601241332, 58735780);
    zmod::lemma_power_doubles(p, 2, 0x1e000, 58735780, 1648567141);
    zmod::lemma_power_doubles(p, 2, 0x3c000, 1648567141, 1061973763);
    zmod::lemma_power_doubles(p, 2, 0x78000, 1061973763, 1653077195);
    zmod::lemma_power_doubles(p, 2, 0xf0000, 1653077195, 1397122709);
    zmod::lemma_power_doubles(p, 2, 0x1e0000, 1397122709, 919403943);
    zmod::lemma_power_doubles(p, 2, 0x3c0000, 919403943, 7658004);
    zmod::lemma_power_doubles(p, 2, 0x780000, 7658004, 602251207);
    zmod::lemma_power_doubles(p, 2, 0xf00000, 602251207, 889310574);
    zmod::lemma_power_doubles(p, 2, 0x1e00000, 889310574, 1816869661);
    zmod::lemma_power_doubles(p, 2, 0x3c00000, 1816869661, 1592366214);
    zmod::lemma_power_doubles(p, 2, 0x7800000, 1592366214, 1728404513);
    zmod::lemma_power_doubles(p, 2, 0xf000000, 1728404513, 2013265920);
    zmod::lemma_power_doubles(p, 2, 0x1e000000, 2013265920, 1);
    zmod::lemma_power_doubles(p, 2, 0x3c000000, 1, 1);
}

/// BabyBear field element.
pub type BabyBear = MontyField<BabyBearParameters>;

/// Degree-4 binomial extension parameters: `F_p[X] / (X^4 - 11)`.
#[derive(Copy, Clone, Default, Debug, Eq, Hash, PartialEq)]
pub struct BabyBear4Parameters;

impl BinomialExt4Parameters for BabyBear4Parameters {
    type Base = BabyBearParameters;

    const W: u32 = 11;

    const W_MONT: u32 = 0x37ffffe9;

    proof fn consistent() {
        lemma_w_is_no_square();
    }
}

/// `11^((p-1)/2) = -1 mod p`, by repeated squaring.
proof fn lemma_w_is_no_square()
    ensures
        zmod::power(0x78000001, 11, 0x3c000000) == 2013265920,
{
    let p = 0x78000001int;
    zmod::lemma_power_base(p, 11);
    zmod::lemma_reduced(p, 11);
    zmod::lemma_power_doubles(p, 11, 0x1, 11, 121);
    zmod::lemma_power_step(p, 11, 0x2);
    assert(121int * 11 % p == 1331);
    zmod::lemma_power_doubles(p, 11, 0x3, 1331, 1771561);
    zmod::lemma_power_step(p, 11, 0x6);
    assert(1771561int * 11 % p == 19487171);
    zmod::lemma_power_doubles(p, 11, 0x7, 19487171, 1575766458);
    zmod::lemma_power_step(p, 11, 0xe);
    assert(1575766458int * 11 % p == 1227303670);
    zmod::lemma_power_doubles(p, 11, 0xf, 1227303670, 93415323);
    zmod::lemma_power_doubles(p, 11, 0x1e, 93415323, 1967256669);
    zmod::lemma_power_doubles(p, 11, 0x3c, 1967256669, 803698133);
    zmod::lemma_power_doubles(p, 11, 0x78, 803698133, 1468189886);
    zmod::lemma_power_doubles(p, 11, 0xf0, 1468189886, 551940703);
    zmod::lemma_power_doubles(p, 11, 0x1e0, 551940703, 845732530);
    zmod::lemma_power_doubles(p, 11, 0x3c0, 845732530, 1179029991);
    zmod::lemma_power_doubles(p, 11, 0x780, 1179029991, 139700921);
    zmod::lemma_power_doubles(p, 11, 0xf00, 139700921, 1161580287);
    zmod::lemma_power_doubles(p, 11, 0x1e00, 1161580287, 234232845);
    zmod::lemma_power_doubles(p, 11, 0x3c00, 234232845, 74384512);
    zmod::lemma_power_doubles(p, 11, 0x7800, 74384512, 921325686);
    zmod::lemma_power_doubles(p, 11, 0xf000, 921325686, 400588301);
    zmod::lemma_power_doubles(p, 11, 0x1e000, 400588301, 772837880);
    zmod::lemma_power_doubles(p, 11, 0x3c000, 772837880, 1619789736);
    zmod::lemma_power_doubles(p, 11, 0x78000, 1619789736, 709697997);
    zmod::lemma_power_doubles(p, 11, 0xf0000, 709697997, 1054808915);
    zmod::lemma_power_doubles(p, 11, 0x1e0000, 1054808915, 949217896);
    zmod::lemma_power_doubles(p, 11, 0x3c0000, 949217896, 1734697937);
    zmod::lemma_power_doubles(p, 11, 0x780000, 1734697937, 784229619);
    zmod::lemma_power_doubles(p, 11, 0xf00000, 784229619, 1917679203);
    zmod::lemma_power_doubles(p, 11, 0x1e00000, 1917679203, 1835875777);
    zmod::lemma_power_doubles(p, 11, 0x3c00000, 1835875777, 1400279418);
    zmod::lemma_power_doubles(p, 11, 0x7800000, 1400279418, 420899707);
    zmod::lemma_power_doubles(p, 11, 0xf000000, 420899707, 1728404513);
    zmod::lemma_power_doubles(p, 11, 0x1e000000, 1728404513, 2013265920);
}

/// BabyBear^4: shorthand for [`Ext4<BabyBear4Parameters>`].
pub type BabyBear4 = Ext4<BabyBear4Parameters>;

/// Degree-5 binomial extension parameters: `F_p[X] / (X^5 - 2)`.
#[derive(Copy, Clone, Default, Debug, Eq, Hash, PartialEq)]
pub struct BabyBear5Parameters;

impl BinomialExt5Parameters for BabyBear5Parameters {
    type Base = BabyBearParameters;

    const W: u32 = 2;

    const W_MONT: u32 = 0x1ffffffc;

    proof fn consistent() {
        lemma_w_is_no_fifth_power();
    }
}

/// `2^((p-1)/5)` is not one, by repeated squaring.
proof fn lemma_w_is_no_fifth_power()
    ensures
        zmod::power(0x78000001, 2, 0x18000000) == 815036133,
{
    let p = 0x78000001int;
    zmod::lemma_power_base(p, 2);
    zmod::lemma_reduced(p, 2);
    zmod::lemma_power_doubles(p, 2, 0x1, 2, 4);
    zmod::lemma_power_step(p, 2, 0x2);
    assert(4int * 2 % p == 8);
    zmod::lemma_power_doubles(p, 2, 0x3, 8, 64);
    zmod::lemma_power_doubles(p, 2, 0x6, 64, 4096);
    zmod::lemma_power_doubles(p, 2, 0xc, 4096, 16777216);
    zmod::lemma_power_doubles(p, 2, 0x18, 16777216, 268295646);
    zmod::lemma_power_doubles(p, 2, 0x30, 268295646, 317946875);
    zmod::lemma_power_doubles(p, 2, 0x60, 317946875, 193919812);
    zmod::lemma_power_doubles(p, 2, 0xc0, 193919812, 1290888952);
    zmod::lemma_power_doubles(p, 2, 0x180, 1290888952, 788840909);
    zmod::lemma_power_doubles(p, 2, 0x300, 788840909, 615676799);
    zmod::lemma_power_doubles(p, 2, 0x600, 615676799, 1828084696);
    zmod::lemma_power_doubles(p, 2, 0xc00, 1828084696, 824354602);
    zmod::lemma_power_doubles(p, 2, 0x1800, 824354602, 875649528);
    zmod::lemma_power_doubles(p, 2, 0x3000, 875649528, 1507524092);
    zmod::lemma_power_doubles(p, 2, 0x6000, 1507524092, 434341805);
    zmod::lemma_power_doubles(p, 2, 0xc000, 434341805, 287316044);
    zmod::lemma_power_doubles(p, 2, 0x18000, 287316044, 853323135);
    zmod::lemma_power_doubles(p, 2, 0x30000, 853323135, 911086576);
    zmod::lemma_power_doubles(p, 2, 0x60000, 911086576, 1060781122);
    zmod::lemma_power_doubles(p, 2, 0xc0000, 1060781122, 1053199331);
    zmod::lemma_power_doubles(p, 2, 0x180000, 1053199331, 45961241);
    zmod::lemma_power_doubles(p, 2, 0x300000, 45961241, 300523463);
    zmod::lemma_power_doubles(p, 2, 0x600000, 300523463, 1598704586);
    zmod::lemma_power_doubles(p, 2, 0xc00000, 1598704586, 2005718374);
    zmod::lemma_power_doubles(p, 2, 0x1800000, 2005718374, 106482514);
    zmod::lemma_power_doubles(p, 2, 0x3000000, 106482514, 1367684770);
    zmod::lemma_power_doubles(p, 2, 0x6000000, 1367684770, 1956349769);
    zmod::lemma_power_doubles(p, 2, 0xc000000, 1956349769, 815036133);
}

/// BabyBear^5: shorthand for [`Ext5<BabyBear5Parameters>`].
pub type BabyBear5 = Ext5<BabyBear5Parameters>;

/// The constants of BabyBear and its extensions.
pub proof fn law_constants()
    ensures
        BabyBearParameters::PRIME == 0x78000001,
        BabyBearParameters::MU == 0x77ffffff,
        BabyBearParameters::R2 == 0x45dddde3,
        BabyBearParameters::MONT_ONE == 0x0ffffffe,
        BabyBearParameters::TWO_ADICITY == 27,
        BabyBearParameters::TWO_ADIC_GENERATORS == BABY_BEAR_GENERATORS,
        BabyBear4Parameters::W == 11,
        BabyBear4Parameters::W_MONT == 0x37ffffe9,
        BabyBear5Parameters::W == 2,
        BabyBear5Parameters::W_MONT == 0x1ffffffc,
{
}

/// The generators, from the one of order `2^27` down: each is the square of
/// the next.
pub proof fn law_generators(k: int)
    requires
        1 <= k <= 27,
    ensures
        BabyBearParameters::TWO_ADIC_GENERATORS@[27] == 0x1a427a41,
        BabyBearParameters::TWO_ADIC_GENERATORS@[k - 1] == (
        BabyBearParameters::TWO_ADIC_GENERATORS@[k] * BabyBearParameters::TWO_ADIC_GENERATORS@[k])
            % 0x78000001,
{
    lemma_generator_squares(k);
}

} // verus!
