//! Comparison/assignment operators carried by attribute values, and their
//! filter-matching semantics.
//!
//! The operator on the *filter* side decides how a stored value is
//! compared: `Assign` and `Default` accept anything, `Equal`/`NotEqual`
//! compare the value strings, and an ordering filter reads both sides
//! numerically through the coercion rules and holds when the stored
//! value stands in that relation to the filter value.  The mutation
//! operators (`Unset`, `Incr`, `Decr`) are rejected as filter
//! operators.

use vstd::prelude::*;

use crate::coerce::numeric_value;

verus! {

/// The operator attached to an attribute value.
#[derive(Debug, PartialEq)]
pub enum Op {
    Assign(String),
    Unset(String),
    Incr(String),
    Decr(String),
    Equal(String),
    NotEqual(String),
    GreaterThan(String),
    LessThan(String),
    EqualOrGreaterThan(String),
    EqualOrLessThan(String),
    Default(String),
}

/// The operator alone, without its value payload; this is what the wire
/// format carries as the record's operator code.
#[derive(Clone, Copy, Debug, PartialEq, Eq, Structural)]
pub enum OpKind {
    Assign,
    Unset,
    Incr,
    Decr,
    Equal,
    NotEqual,
    GreaterThan,
    LessThan,
    EqualOrGreaterThan,
    EqualOrLessThan,
    Default,
}

/// Mathematical model of an [`Op`]: its kind and its value string.
pub struct OpModel {
    pub kind: OpKind,
    pub val: Seq<char>,
}

/// Why a filter evaluation could not produce an answer.
#[derive(Clone, Copy, Debug, PartialEq, Eq, Structural)]
pub enum FilterError {
    /// The filter carried a mutation operator, which has no meaning as a
    /// comparison.
    UnsupportedOperator,
    /// An ordering comparison was asked of a value that does not coerce
    /// to a number.
    NonNumeric,
}

impl View for Op {
    type V = OpModel;

    open spec fn view(&self) -> OpModel {
        match self {
            Op::Assign(x) => OpModel { kind: OpKind::Assign, val: x@ },
            Op::Unset(x) => OpModel { kind: OpKind::Unset, val: x@ },
            Op::Incr(x) => OpModel { kind: OpKind::Incr, val: x@ },
            Op::Decr(x) => OpModel { kind: OpKind::Decr, val: x@ },
            Op::Equal(x) => OpModel { kind: OpKind::Equal, val: x@ },
            Op::NotEqual(x) => OpModel { kind: OpKind::NotEqual, val: x@ },
            Op::GreaterThan(x) => OpModel { kind: OpKind::GreaterThan, val: x@ },
            Op::LessThan(x) => OpModel { kind: OpKind::LessThan, val: x@ },
            Op::EqualOrGreaterThan(x) => OpModel { kind: OpKind::EqualOrGreaterThan, val: x@ },
            Op::EqualOrLessThan(x) => OpModel { kind: OpKind::EqualOrLessThan, val: x@ },
            Op::Default(x) => OpModel { kind: OpKind::Default, val: x@ },
        }
    }
}

/// How a stored operator value answers a filter operator.
pub open spec fn op_matches(stored: OpModel, filter: OpModel) -> Result<bool, FilterError> {
    match filter.kind {
        OpKind::Assign => Ok(true),
        OpKind::Unset => Err(FilterError::UnsupportedOperator),
        OpKind::Incr => Err(FilterError::UnsupportedOperator),
        OpKind::Decr => Err(FilterError::UnsupportedOperator),
        OpKind::Equal => Ok(filter.val == stored.val),
        OpKind::NotEqual => Ok(filter.val != stored.val),
        OpKind::GreaterThan => match (numeric_value(stored.val), numeric_value(filter.val)) {
            (Some(a), Some(b)) => Ok(a > b),
            _ => Err(FilterError::NonNumeric),
        },
        OpKind::LessThan => match (numeric_value(stored.val), numeric_value(filter.val)) {
            (Some(a), Some(b)) => Ok(a < b),
            _ => Err(FilterError::NonNumeric),
        },
        OpKind::EqualOrGreaterThan => match (numeric_value(stored.val), numeric_value(filter.val)) {
            (Some(a), Some(b)) => Ok(a >= b),
            _ => Err(FilterError::NonNumeric),
        },
        OpKind::EqualOrLessThan => match (numeric_value(stored.val), numeric_value(filter.val)) {
            (Some(a), Some(b)) => Ok(a <= b),
            _ => Err(FilterError::NonNumeric),
        },
        OpKind::Default => Ok(true),
    }
}

impl Clone for Op {
    fn clone(&self) -> (r: Self)
        ensures
            r == self,
    {
        match self {
            Op::Assign(x) => Op::Assign(x.clone()),
            Op::Unset(x) => Op::Unset(x.clone()),
            Op::Incr(x) => Op::Incr(x.clone()),
            Op::Decr(x) => Op::Decr(x.clone()),
            Op::Equal(x) => Op::Equal(x.clone()),
            Op::NotEqual(x) => Op::NotEqual(x.clone()),
            Op::GreaterThan(x) => Op::GreaterThan(x.clone()),
            Op::LessThan(x) => Op::LessThan(x.clone()),
            Op::EqualOrGreaterThan(x) => Op::EqualOrGreaterThan(x.clone()),
            Op::EqualOrLessThan(x) => Op::EqualOrLessThan(x.clone()),
            Op::Default(x) => Op::Default(x.clone()),
        }
    }
}

impl Op {
    /// The operator's kind, as sent to the server as the wire operator
    /// code.
    pub fn op(&self) -> (k: OpKind)
        ensures
            k == self@.kind,
    {
        match self {
            Op::Assign(_) => OpKind::Assign,
            Op::Unset(_) => OpKind::Unset,
            Op::Incr(_) => OpKind::Incr,
            Op::Decr(_) => OpKind::Decr,
            Op::Equal(_) => OpKind::Equal,
            Op::NotEqual(_) => OpKind::NotEqual,
            Op::GreaterThan(_) => OpKind::GreaterThan,
            Op::LessThan(_) => OpKind::LessThan,
            Op::EqualOrGreaterThan(_) => OpKind::EqualOrGreaterThan,
            Op::EqualOrLessThan(_) => OpKind::EqualOrLessThan,
            Op::Default(_) => OpKind::Default,
        }
    }

    /// A copy of the operator's value string.
    pub fn val(&self) -> (r: String)
        ensures
            r@ == self@.val,
    {
        match self {
            Op::Assign(x) => x.clone(),
            Op::Unset(x) => x.clone(),
            Op::Incr(x) => x.clone(),
            Op::Decr(x) => x.clone(),
            Op::Equal(x) => x.clone(),
            Op::NotEqual(x) => x.clone(),
            Op::GreaterThan(x) => x.clone(),
            Op::LessThan(x) => x.clone(),
            Op::EqualOrGreaterThan(x) => x.clone(),
            Op::EqualOrLessThan(x) => x.clone(),
            Op::Default(x) => x.clone(),
        }
    }

    /// Reads both sides of an ordering comparison numerically, or reports
    /// which reading failed.
    fn numeric_pair(&self, fval: &String) -> (r: Result<(i64, i64), FilterError>)
        ensures
            match r {
                Ok(p) => numeric_value(self@.val) == Some(p.0 as int) && numeric_value(fval@)
                    == Some(p.1 as int),
                Err(e) => e == FilterError::NonNumeric && (numeric_value(self@.val) is None
                    || numeric_value(fval@) is None),
            },
    {
        let sv = self.val();
        match crate::coerce::as_number(sv.as_str()) {
            Some(a) => match crate::coerce::as_number(fval.as_str()) {
                Some(b) => Ok((a, b)),
                None => Err(FilterError::NonNumeric),
            },
            None => Err(FilterError::NonNumeric),
        }
    }

    /// Evaluates this stored operator value against a filter operator.
    pub fn apply_filter(&self, filter: &Op) -> (r: Result<bool, FilterError>)
        ensures
            r == op_matches(self@, filter@),
    {
        match filter {
            Op::Assign(_) => Ok(true),
            Op::Unset(_) => Err(FilterError::UnsupportedOperator),
            Op::Incr(_) => Err(FilterError::UnsupportedOperator),
            Op::Decr(_) => Err(FilterError::UnsupportedOperator),
            Op::Equal(x) => {
                let sv = self.val();
                Ok(crate::strutil::str_eq(x.as_str(), sv.as_str()))
            },
            Op::NotEqual(x) => {
                let sv = self.val();
                Ok(!crate::strutil::str_eq(x.as_str(), sv.as_str()))
            },
            Op::GreaterThan(x) => match self.numeric_pair(x) {
                Ok(p) => Ok(p.0 > p.1),
                Err(e) => Err(e),
            },
            Op::LessThan(x) => match self.numeric_pair(x) {
                Ok(p) => Ok(p.0 < p.1),
                Err(e) => Err(e),
            },
            Op::EqualOrGreaterThan(x) => match self.numeric_pair(x) {
                Ok(p) => Ok(p.0 >= p.1),
                Err(e) => Err(e),
            },
            Op::EqualOrLessThan(x) => match self.numeric_pair(x) {
                Ok(p) => Ok(p.0 <= p.1),
                Err(e) => Err(e),
            },
            Op::Default(_) => Ok(true),
        }
    }

    /// Builds the operator a criterion string denotes: no value at all or
    /// no operator text means a `Default` assignment, otherwise the
    /// operator text picks the variant.
    pub fn new(val: Option<String>, op: Option<&str>) -> (r: Op)
        requires
            match op {
                Some(o) => o@ == "="@ || o@ == "!="@ || o@ == "<"@ || o@ == ">"@ || o@ == "<="@
                    || o@ == ">="@,
                None => true,
            },
        ensures
            r@ == op_new_spec(
                match val {
                    Some(v) => Some(v@),
                    None => None,
                },
                match op {
                    Some(o) => Some(o@),
                    None => None,
                },
            ),
    {
        match val {
            None => Op::Default(String::new()),
            Some(v) => match op {
                None => Op::Default(v),
                Some(o) => {
                    if crate::strutil::str_eq(o, "=") {
                        Op::Equal(v)
                    } else if crate::strutil::str_eq(o, "!=") {
                        Op::NotEqual(v)
                    } else if crate::strutil::str_eq(o, "<") {
                        Op::LessThan(v)
                    } else if crate::strutil::str_eq(o, ">") {
                        Op::EqualOrGreaterThan(v)
                    } else if crate::strutil::str_eq(o, "<=") {
                        Op::EqualOrLessThan(v)
                    } else {
                        Op::GreaterThan(v)
                    }
                },
            },
        }
    }
}

/// The operator denoted by a criterion's value and operator text.  The
/// two greater-than forms mirror the wire client's historical reading of
/// `>` and `>=`.
pub open spec fn op_new_spec(v: Option<Seq<char>>, o: Option<Seq<char>>) -> OpModel {
    match v {
        None => OpModel { kind: OpKind::Default, val: Seq::empty() },
        Some(v) => match o {
            None => OpModel { kind: OpKind::Default, val: v },
            Some(o) => if o == "="@ {
                OpModel { kind: OpKind::Equal, val: v }
            } else if o == "!="@ {
                OpModel { kind: OpKind::NotEqual, val: v }
            } else if o == "<"@ {
                OpModel { kind: OpKind::LessThan, val: v }
            } else if o == ">"@ {
                OpModel { kind: OpKind::EqualOrGreaterThan, val: v }
            } else if o == "<="@ {
                OpModel { kind: OpKind::EqualOrLessThan, val: v }
            } else if o == ">="@ {
                OpModel { kind: OpKind::GreaterThan, val: v }
            } else {
                OpModel { kind: OpKind::Default, val: v }
            },
        },
    }
}

/// A `NotEqual` filter answers exactly the opposite of the `Equal` filter
/// with the same value, and neither can fail.
pub proof fn lemma_not_equal_negates_equal(stored: OpModel, x: Seq<char>)
    ensures
        op_matches(stored, (OpModel { kind: OpKind::Equal, val: x })) is Ok,
        op_matches(stored, (OpModel { kind: OpKind::NotEqual, val: x })) is Ok,
        op_matches(stored, (OpModel { kind: OpKind::NotEqual, val: x }))->Ok_0 == !op_matches(
            stored,
            (OpModel { kind: OpKind::Equal, val: x }),
        )->Ok_0,
{
}

/// A `Default` filter accepts every stored value: it only asks that the
/// attribute exist.
pub proof fn lemma_default_matches_any(stored: OpModel, x: Seq<char>)
    ensures
        op_matches(stored, (OpModel { kind: OpKind::Default, val: x })) == Ok::<
            bool,
            FilterError,
        >(true),
{
}

/// An `Assign` filter is treated as "don't care" and accepts every
/// stored value.
pub proof fn lemma_assign_matches_any(stored: OpModel, x: Seq<char>)
    ensures
        op_matches(stored, (OpModel { kind: OpKind::Assign, val: x })) == Ok::<
            bool,
            FilterError,
        >(true),
{
}

} // verus!
