//! Resource values: unsigned integers of a fixed bit width, and the three
//! ways an update can treat a result that leaves the width's range.

use vstd::prelude::*;
use vstd::arithmetic::div_mod::lemma_fundamental_div_mod;
use vstd::arithmetic::div_mod::lemma_fundamental_div_mod_converse;
use vstd::arithmetic::div_mod::lemma_small_mod;

verus! {

/// The bit width of a resource's value.
#[derive(Clone, Copy, Debug)]
pub enum Width {
    W8,
    W16,
    W32,
    W64,
}

/// What an update does when the exact result is not representable.
#[derive(Clone, Copy, Debug)]
pub enum Overflow {
    /// The update is an arithmetic fault and the value stays as it was.
    Fault,
    /// The result is reduced modulo the size of the range.
    Wrap,
    /// The result is the nearest end of the range.
    Saturate,
}

/// A change to a resource's value.
#[derive(Clone, Copy, Debug)]
pub enum Delta {
    Add(u64),
    Sub(u64),
}

impl Width {
    /// The largest value of this width.
    pub open spec fn limit(self) -> int {
        match self {
            Width::W8 => 0xff,
            Width::W16 => 0xffff,
            Width::W32 => 0xffff_ffff,
            Width::W64 => 0xffff_ffff_ffff_ffff,
        }
    }

    /// The number of values of this width.
    pub open spec fn modulus(self) -> int {
        self.limit() + 1
    }

    /// Whether `value` is representable in this width.
    pub open spec fn holds(self, value: u64) -> bool {
        value <= self.limit()
    }

    /// The largest value of this width.
    pub fn max(self) -> (m: u64)
        ensures
            m == self.limit(),
    {
        match self {
            Width::W8 => 0xff,
            Width::W16 => 0xffff,
            Width::W32 => 0xffff_ffff,
            Width::W64 => 0xffff_ffff_ffff_ffff,
        }
    }

    /// Whether `value` is representable in this width.
    pub fn contains(self, value: u64) -> (b: bool)
        ensures
            b == self.holds(value),
    {
        value <= self.max()
    }

    /// `value` reduced modulo the number of values of this width.
    pub open spec fn wrapped(self, value: u64) -> u64 {
        ((value as int) % self.modulus()) as u64
    }

    /// Reduces `value` modulo the number of values of this width.
    pub fn wrap(self, value: u64) -> (w: u64)
        ensures
            w == self.wrapped(value),
            self.holds(w),
            self.holds(value) ==> w == value,
    {
        match self {
            Width::W8 => value % 0x100,
            Width::W16 => value % 0x1_0000,
            Width::W32 => value % 0x1_0000_0000,
            Width::W64 => {
                proof {
                    lemma_small_mod(value as nat, 0x1_0000_0000_0000_0000);
                }
                value
            },
        }
    }

    /// The result of applying `delta` to `value`: the exact sum or difference
    /// where it is representable, and otherwise what `mode` makes of it.
    /// `None` is an arithmetic fault.
    pub open spec fn apply(self, value: u64, delta: Delta, mode: Overflow) -> Option<u64> {
        let e = exact(value, delta);
        if 0 <= e <= self.limit() {
            Some(e as u64)
        } else {
            match mode {
                Overflow::Fault => None,
                Overflow::Wrap => Some((e % self.modulus()) as u64),
                Overflow::Saturate => Some(
                    if e < 0 {
                        0u64
                    } else {
                        self.limit() as u64
                    },
                ),
            }
        }
    }

    /// Applies `delta` to `value` under `mode`.
    pub fn update(self, value: u64, delta: Delta, mode: Overflow) -> (r: Option<u64>)
        requires
            self.holds(value),
        ensures
            r == self.apply(value, delta, mode),
            r matches Some(v) ==> self.holds(v),
    {
        let max: u64 = self.max();
        let modulus: u128 = max as u128 + 1;
        match delta {
            Delta::Add(k) => {
                let sum: u128 = value as u128 + k as u128;
                if sum <= max as u128 {
                    Some(sum as u64)
                } else {
                    match mode {
                        Overflow::Fault => None,
                        Overflow::Wrap => Some((sum % modulus) as u64),
                        Overflow::Saturate => Some(max),
                    }
                }
            },
            Delta::Sub(k) => {
                if k <= value {
                    Some(value - k)
                } else {
                    match mode {
                        Overflow::Fault => None,
                        Overflow::Wrap => {
                            let deficit: u128 = (k - value) as u128;
                            let rest: u128 = deficit % modulus;
                            proof {
                                lemma_negated_mod(deficit as int, modulus as int);
                            }
                            if rest == 0 {
                                Some(0)
                            } else {
                                Some((modulus - rest) as u64)
                            }
                        },
                        Overflow::Saturate => Some(0),
                    }
                }
            },
        }
    }
}

/// The mathematical result of applying `delta` to `value`.
pub open spec fn exact(value: u64, delta: Delta) -> int {
    match delta {
        Delta::Add(k) => value + k,
        Delta::Sub(k) => value - k,
    }
}

/// The remainder of a negated number, from the remainder of the number.
proof fn lemma_negated_mod(d: int, m: int)
    requires
        0 <= d,
        0 < m,
    ensures
        (-d) % m == if d % m == 0 {
            0
        } else {
            m - d % m
        },
{
    let q: int = d / m;
    let r: int = d % m;
    lemma_fundamental_div_mod(d, m);
    assert(d == m * q + r);
    if r == 0 {
        assert(-d == (-q) * m + 0) by (nonlinear_arith)
            requires
                d == m * q + r,
                r == 0,
        ;
        lemma_fundamental_div_mod_converse(-d, m, -q, 0);
    } else {
        assert(-d == (-q - 1) * m + (m - r)) by (nonlinear_arith)
            requires
                d == m * q + r,
        ;
        lemma_fundamental_div_mod_converse(-d, m, -q - 1, m - r);
    }
}

} // verus!
