//! The two-element field GF(2).

use std::ops::{Add, AddAssign, Mul, MulAssign};
use vstd::prelude::*;
use vstd::std_specs::ops::{AddSpecImpl, MulSpecImpl};
use vstd::string::StringExecFns;

verus! {

/// An element of GF(2): `Off` is zero, `On` is one.
#[derive(Debug, PartialEq, Eq, Clone, Copy, Structural)]
pub enum Bit {
    Off,
    On,
}

impl Bit {
    /// Sum in GF(2): exclusive or.
    pub open spec fn xor(self, rhs: Bit) -> Bit {
        if self == rhs {
            Bit::Off
        } else {
            Bit::On
        }
    }

    /// Product in GF(2): conjunction.
    pub open spec fn and(self, rhs: Bit) -> Bit {
        if self == Bit::On && rhs == Bit::On {
            Bit::On
        } else {
            Bit::Off
        }
    }

    /// The digit that renders this bit.
    pub open spec fn digit(self) -> char {
        match self {
            Bit::Off => '0',
            Bit::On => '1',
        }
    }

    /// The text that renders this bit: `"0"` or `"1"`.
    pub fn digit_text(self) -> (text: &'static str)
        ensures
            text@ == seq![self.digit()],
    {
        proof {
            reveal_strlit("0");
            reveal_strlit("1");
        }
        let text = match self {
            Bit::Off => "0",
            Bit::On => "1",
        };
        assert(text@ =~= seq![self.digit()]);
        text
    }

    /// Renders the bit as text.
    pub fn to_string(&self) -> (text: String)
        ensures
            text@ == seq![self.digit()],
    {
        let mut text = String::new();
        text.append(self.digit_text());
        assert(text@ =~= seq![self.digit()]);
        text
    }

    /// Renders the bit as `'0'` or `'1'`.
    pub fn to_char(self) -> (c: char)
        ensures
            c == self.digit(),
    {
        match self {
            Bit::Off => '0',
            Bit::On => '1',
        }
    }
}

impl AddSpecImpl<Bit> for Bit {
    open spec fn obeys_add_spec() -> bool {
        true
    }

    open spec fn add_req(self, rhs: Bit) -> bool {
        true
    }

    open spec fn add_spec(self, rhs: Bit) -> Bit {
        self.xor(rhs)
    }
}

impl Add<Bit> for Bit {
    type Output = Bit;

    fn add(self, rhs: Bit) -> (sum: Bit) {
        match (self, rhs) {
            (Bit::Off, Bit::Off) | (Bit::On, Bit::On) => Bit::Off,
            (Bit::Off, Bit::On) | (Bit::On, Bit::Off) => Bit::On,
        }
    }
}

impl AddAssign<Bit> for Bit {
    fn add_assign(&mut self, rhs: Bit)
        ensures
            *final(self) == old(self).xor(rhs),
    {
        *self = *self + rhs;
    }
}

impl MulSpecImpl<Bit> for Bit {
    open spec fn obeys_mul_spec() -> bool {
        true
    }

    open spec fn mul_req(self, rhs: Bit) -> bool {
        true
    }

    open spec fn mul_spec(self, rhs: Bit) -> Bit {
        self.and(rhs)
    }
}

impl Mul<Bit> for Bit {
    type Output = Bit;

    fn mul(self, rhs: Bit) -> (product: Bit) {
        match (self, rhs) {
            (Bit::On, Bit::On) => Bit::On,
            _ => Bit::Off,
        }
    }
}

impl MulAssign<Bit> for Bit {
    fn mul_assign(&mut self, rhs: Bit)
        ensures
            *final(self) == old(self).and(rhs),
    {
        *self = *self * rhs;
    }
}

} // verus!
