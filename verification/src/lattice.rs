//! The label lattice: label types, label values and their comparison.

use vstd::prelude::*;

use crate::text::{decimal, law_decimal_reads_back, parse_i64, spec_decimal, spec_parse_i64};

verus! {

/// Outcome of comparing two label values.
#[derive(Debug, Clone, Copy, PartialEq, Eq, Structural)]
pub enum Order {
    Less,
    Equal,
    Greater,
}

/// The kind of ordering domain a label lives in.
#[derive(Debug, Clone, Copy, PartialEq, Eq, Structural)]
pub enum LatticeType {
    /// A linear integer scale; lower values are more restrictive.
    LinearNumber,
}

/// A value inside the domain of a `LatticeType`.
#[derive(Debug, Clone, Copy, PartialEq, Eq, Structural)]
pub enum LatticeValue {
    Number(i64),
}

/// A concrete label: a type together with a value of that type.
pub type LatticePair = (LatticeType, LatticeValue);

/// Numeric order of two integers.
pub open spec fn int_order(x: int, y: int) -> Order {
    if x < y {
        Order::Less
    } else if x == y {
        Order::Equal
    } else {
        Order::Greater
    }
}

/// The order of two label values of the same type.
pub open spec fn compare_values(a: LatticeValue, b: LatticeValue) -> Order {
    match (a, b) {
        (LatticeValue::Number(x), LatticeValue::Number(y)) => int_order(x as int, y as int),
    }
}

/// The mirror image of an order.
pub open spec fn flip(o: Order) -> Order {
    match o {
        Order::Less => Order::Greater,
        Order::Equal => Order::Equal,
        Order::Greater => Order::Less,
    }
}

impl LatticeValue {
    /// The type whose domain holds this value.
    pub open spec fn spec_ltype(&self) -> LatticeType {
        match self {
            LatticeValue::Number(_) => LatticeType::LinearNumber,
        }
    }

    #[verifier::when_used_as_spec(spec_ltype)]
    pub fn ltype(&self) -> (t: LatticeType)
        ensures
            t == self.spec_ltype(),
    {
        match self {
            LatticeValue::Number(_) => LatticeType::LinearNumber,
        }
    }
}

/// A comparison engine for the values of one label type.
pub trait Lattice {
    /// The label type this engine compares.
    spec fn domain(&self) -> LatticeType;

    /// Compares two values of the engine's own type.
    fn compare(&self, rhs: &LatticeValue, lhs: &LatticeValue) -> (o: Order)
        requires
            rhs.ltype() == self.domain(),
            lhs.ltype() == self.domain(),
        ensures
            o == compare_values(*rhs, *lhs),
    ;
}

/// The comparison engine of the linear integer scale.
#[derive(Debug, Clone, Copy)]
pub struct LinearLattice;

impl Lattice for LinearLattice {
    open spec fn domain(&self) -> LatticeType {
        LatticeType::LinearNumber
    }

    fn compare(&self, rhs: &LatticeValue, lhs: &LatticeValue) -> (o: Order) {
        match (rhs, lhs) {
            (LatticeValue::Number(v1), LatticeValue::Number(v2)) => {
                if *v1 < *v2 {
                    Order::Less
                } else if *v1 == *v2 {
                    Order::Equal
                } else {
                    Order::Greater
                }
            },
        }
    }
}

/// Builds the comparison engine for `ltype`.
pub fn create_lattice(ltype: &LatticeType) -> (lattice: LinearLattice)
    ensures
        lattice.domain() == *ltype,
{
    match ltype {
        LatticeType::LinearNumber => LinearLattice,
    }
}

impl LatticeType {
    /// The value a dataset carries when nothing else is known about it.
    pub open spec fn spec_default(&self) -> LatticeValue {
        match self {
            LatticeType::LinearNumber => LatticeValue::Number(3),
        }
    }

    #[verifier::when_used_as_spec(spec_default)]
    pub fn default(&self) -> (v: LatticeValue)
        ensures
            v == self.spec_default(),
    {
        match self {
            LatticeType::LinearNumber => LatticeValue::Number(3),
        }
    }
}

impl LatticeType {
    /// The name under which label tags write this type.
    pub open spec fn spec_name(&self) -> Seq<char> {
        match self {
            LatticeType::LinearNumber => "linear"@,
        }
    }

    /// The name under which label tags write this type.
    pub fn to_string(&self) -> (s: String)
        ensures
            s@ == self.spec_name(),
    {
        match self {
            LatticeType::LinearNumber => "linear".to_owned(),
        }
    }
}

impl LatticeValue {
    /// The value that the text `s` denotes in the domain of `ltype`.
    pub open spec fn spec_parse(ltype: LatticeType, s: Seq<char>) -> Option<LatticeValue> {
        match ltype {
            LatticeType::LinearNumber => match spec_parse_i64(s) {
                Some(n) => Some(LatticeValue::Number(n)),
                None => None,
            },
        }
    }

    /// Reads a value of the type `ltype` from text; `None` where the text
    /// denotes no value of that type.
    pub fn parse(ltype: &LatticeType, s: &str) -> (v: Option<LatticeValue>)
        ensures
            v == Self::spec_parse(*ltype, s@),
    {
        match ltype {
            LatticeType::LinearNumber => match parse_i64(s) {
                Some(n) => Some(LatticeValue::Number(n)),
                None => None,
            },
        }
    }

    /// Reads a value of the type `ltype` from text that denotes one.
    pub fn from_string(ltype: &LatticeType, s: &str) -> (v: LatticeValue)
        requires
            Self::spec_parse(*ltype, s@) is Some,
        ensures
            Some(v) == Self::spec_parse(*ltype, s@),
    {
        match Self::parse(ltype, s) {
            Some(v) => v,
            None => LatticeValue::Number(0),
        }
    }

    /// The text that writes this value.
    pub open spec fn spec_text(&self) -> Seq<char> {
        match self {
            LatticeValue::Number(n) => spec_decimal(*n as int),
        }
    }

    /// The text that writes this value.
    pub fn to_string(&self) -> (s: String)
        ensures
            s@ == self.spec_text(),
    {
        match self {
            LatticeValue::Number(n) => decimal(*n),
        }
    }
}

/// The label of a dataset that carries no tag: the linear scale at its default.
pub fn lattice_pair_default() -> (pair: LatticePair)
    ensures
        pair == (LatticeType::LinearNumber, LatticeValue::Number(3)),
{
    let lattice_type = LatticeType::LinearNumber;
    let val = lattice_type.default();
    (lattice_type, val)
}

/// The most restrictive label of the linear scale.
pub fn lattice_pair_strictest() -> (pair: LatticePair)
    ensures
        pair == (LatticeType::LinearNumber, LatticeValue::Number(1)),
{
    (LatticeType::LinearNumber, LatticeValue::Number(1))
}

/// A value that was written as text reads back as the same value.
pub proof fn law_value_reads_back(v: LatticeValue)
    ensures
        LatticeValue::spec_parse(v.ltype(), v.spec_text()) == Some(v),
{
    match v {
        LatticeValue::Number(n) => {
            law_decimal_reads_back(n);
        },
    }
}

/// Comparing in the other direction gives the mirrored outcome, and two
/// values compare equal exactly when they are the same value.
pub proof fn law_compare_antisymmetric(a: LatticeValue, b: LatticeValue)
    requires
        a.ltype() == b.ltype(),
    ensures
        compare_values(b, a) == flip(compare_values(a, b)),
        compare_values(a, b) == Order::Equal <==> a == b,
        compare_values(a, b) != Order::Greater && compare_values(b, a) != Order::Greater ==> a == b,
{
}

/// The order is transitive, in its strict and in its non-strict form.
pub proof fn law_compare_transitive(a: LatticeValue, b: LatticeValue, c: LatticeValue)
    requires
        a.ltype() == b.ltype(),
        b.ltype() == c.ltype(),
    ensures
        compare_values(a, b) != Order::Greater && compare_values(b, c) != Order::Greater
            ==> compare_values(a, c) != Order::Greater,
        compare_values(a, b) == Order::Less && compare_values(b, c) != Order::Greater
            ==> compare_values(a, c) == Order::Less,
        compare_values(a, b) != Order::Greater && compare_values(b, c) == Order::Less
            ==> compare_values(a, c) == Order::Less,
{
}

/// Any two values of one type are comparable: exactly one of the three
/// outcomes holds, and a value compares equal to itself.
pub proof fn law_compare_total(a: LatticeValue, b: LatticeValue)
    requires
        a.ltype() == b.ltype(),
    ensures
        compare_values(a, a) == Order::Equal,
        compare_values(a, b) == Order::Less || compare_values(a, b) == Order::Equal
            || compare_values(a, b) == Order::Greater,
        compare_values(a, b) == Order::Less <==> compare_values(b, a) == Order::Greater,
{
}

} // verus!
