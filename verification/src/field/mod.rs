//! 31-bit Montgomery prime fields and their binomial extensions.
//!
//! [`baby_bear::BabyBear`] (`p = 2^31 - 2^27 + 1`, 2-adicity 27) and
//! [`koala_bear::KoalaBear`] (`p = 2^31 - 2^24 + 1`, 2-adicity 24) are
//! [`monty::MontyField`] specialized to a marker type. An element is one
//! `u32` in Montgomery form (`x * 2^32 mod p`), reduced to `[0, p)`.
//!
//! Three extensions ship: `BabyBear4` (`X^4 - 11`), `KoalaBear4` (`X^4 - 3`)
//! and `BabyBear5` (`X^5 - 2`). Polynomials over an extension are stored
//! transposed: component `c` of element `i` at offset `c * N + i` in a
//! buffer of `N` logical elements. This makes a length-`N` extension
//! polynomial word for word the same as as many length-`N` base polynomials
//! as the degree says.

pub mod baby_bear;
pub mod binomial;
pub mod ext;
pub mod ext4;
pub mod ext5;
pub mod koala_bear;
pub mod monty;
pub mod ring;
