use vstd::prelude::*;

verus! {

/// `x` clamped into the `i64` range.
pub open spec fn clamp_i64(x: int) -> i64 {
    if x < i64::MIN { i64::MIN } else if x > i64::MAX { i64::MAX } else { x as i64 }
}

/// Saturating `i64` addition.
pub fn sat_add_i64(a: i64, b: i64) -> (r: i64)
    ensures
        r == clamp_i64(a + b),
{
    let s: i128 = a as i128 + b as i128;
    if s > i64::MAX as i128 {
        i64::MAX
    } else if s < i64::MIN as i128 {
        i64::MIN
    } else {
        s as i64
    }
}

/// Saturating `i64` subtraction.
pub fn sat_sub_i64(a: i64, b: i64) -> (r: i64)
    ensures
        r == clamp_i64(a - b),
{
    let s: i128 = a as i128 - b as i128;
    if s > i64::MAX as i128 {
        i64::MAX
    } else if s < i64::MIN as i128 {
        i64::MIN
    } else {
        s as i64
    }
}

/// `|a - b|`, saturating at `i64::MAX`.
pub fn sat_abs_diff_i64(a: i64, b: i64) -> (r: i64)
    ensures
        r == clamp_i64(if a >= b { a - b } else { b - a }),
{
    let d: i128 = if a >= b { a as i128 - b as i128 } else { b as i128 - a as i128 };
    if d > i64::MAX as i128 {
        i64::MAX
    } else {
        d as i64
    }
}

/// `value` as an `i64`, saturating at `i64::MAX`.
pub fn usize_to_i64(value: usize) -> (r: i64)
    ensures
        r == clamp_i64(value as int),
{
    if value as u128 > i64::MAX as u128 {
        i64::MAX
    } else {
        value as i64
    }
}

/// `value` as an `i64`, saturating at `i64::MAX`.
pub fn u128_to_i64(value: u128) -> (r: i64)
    ensures
        r == clamp_i64(value as int),
{
    if value > i64::MAX as u128 {
        i64::MAX
    } else {
        value as i64
    }
}

/// `value` as a `usize`, saturating at `usize::MAX`.
pub fn u128_to_usize(value: u128) -> (r: usize)
    ensures
        r == (if value > usize::MAX { usize::MAX as int } else { value as int }),
{
    if value > usize::MAX as u128 {
        usize::MAX
    } else {
        value as usize
    }
}

/// A score with a hard and a soft level; higher is better.
#[derive(Debug, Clone, Copy, PartialEq, Eq)]
pub struct HardSoftScore {
    pub hard: i64,
    pub soft: i64,
}

impl HardSoftScore {
    pub fn of(hard: i64, soft: i64) -> (s: Self)
        ensures
            s.hard == hard,
            s.soft == soft,
    {
        HardSoftScore { hard, soft }
    }

    pub fn zero() -> (s: Self)
        ensures
            s.hard == 0,
            s.soft == 0,
    {
        HardSoftScore { hard: 0, soft: 0 }
    }

    pub fn hard(&self) -> (r: i64)
        ensures
            r == self.hard,
    {
        self.hard
    }

    pub fn soft(&self) -> (r: i64)
        ensures
            r == self.soft,
    {
        self.soft
    }

    /// Level-wise sum, saturating.
    pub fn plus(&self, other: &Self) -> (s: Self)
        ensures
            s.hard == clamp_i64(self.hard + other.hard),
            s.soft == clamp_i64(self.soft + other.soft),
    {
        HardSoftScore { hard: sat_add_i64(self.hard, other.hard), soft: sat_add_i64(self.soft, other.soft) }
    }

    /// Level-wise difference, saturating.
    pub fn minus(&self, other: &Self) -> (s: Self)
        ensures
            s.hard == clamp_i64(self.hard - other.hard),
            s.soft == clamp_i64(self.soft - other.soft),
    {
        HardSoftScore { hard: sat_sub_i64(self.hard, other.hard), soft: sat_sub_i64(self.soft, other.soft) }
    }
}

/// The package and name identifying a constraint.
#[derive(Debug, Clone, PartialEq, Eq)]
pub struct ConstraintRef {
    pub package: String,
    pub name: String,
}

impl ConstraintRef {
    pub fn new(package: &str, name: &str) -> (r: Self)
        ensures
            r.package@ == package@,
            r.name@ == name@,
    {
        ConstraintRef { package: package.to_owned(), name: name.to_owned() }
    }
}

} // verus!
