//! Symbolic angle expressions and their evaluation.
//!
//! A gate angle is either a literal number or a small expression tree
//! over literals, named parameters and the four arithmetic operators.
//! Evaluation under a binding of names to numbers is total or fails on
//! the first unresolved name, in evaluation order.

use vstd::prelude::*;

use crate::bytes::bytes_eq;
use crate::bytes::clone_bytes;
use crate::error::RoqoqoError;
use crate::error::SpecError;
use crate::fixed::div_trunc;
use crate::fixed::Fixed;
use crate::fixed::FIXED_SCALE;

verus! {

/// A symbolic angle: literal, named parameter, or arithmetic node.
#[derive(Debug, PartialEq, Eq)]
pub enum CalcExpr {
    Literal { value: Fixed },
    Variable { name: Vec<u8> },
    Add { left: Box<CalcExpr>, right: Box<CalcExpr> },
    Sub { left: Box<CalcExpr>, right: Box<CalcExpr> },
    Mul { left: Box<CalcExpr>, right: Box<CalcExpr> },
    Div { left: Box<CalcExpr>, right: Box<CalcExpr> },
}

/// Mathematical mirror of `CalcExpr`.
pub enum SpecExpr {
    Literal { value: int },
    Variable { name: Seq<u8> },
    Add { left: Box<SpecExpr>, right: Box<SpecExpr> },
    Sub { left: Box<SpecExpr>, right: Box<SpecExpr> },
    Mul { left: Box<SpecExpr>, right: Box<SpecExpr> },
    Div { left: Box<SpecExpr>, right: Box<SpecExpr> },
}

pub open spec fn expr_view(e: CalcExpr) -> SpecExpr
    decreases e,
{
    match e {
        CalcExpr::Literal { value } => SpecExpr::Literal { value: value.units as int },
        CalcExpr::Variable { name } => SpecExpr::Variable { name: name@ },
        CalcExpr::Add { left, right } => SpecExpr::Add {
            left: Box::new(expr_view(*left)),
            right: Box::new(expr_view(*right)),
        },
        CalcExpr::Sub { left, right } => SpecExpr::Sub {
            left: Box::new(expr_view(*left)),
            right: Box::new(expr_view(*right)),
        },
        CalcExpr::Mul { left, right } => SpecExpr::Mul {
            left: Box::new(expr_view(*left)),
            right: Box::new(expr_view(*right)),
        },
        CalcExpr::Div { left, right } => SpecExpr::Div {
            left: Box::new(expr_view(*left)),
            right: Box::new(expr_view(*right)),
        },
    }
}

impl View for CalcExpr {
    type V = SpecExpr;

    open spec fn view(&self) -> SpecExpr {
        expr_view(*self)
    }
}

/// The set of parameter names an expression mentions.
pub open spec fn expr_names(e: SpecExpr) -> Set<Seq<u8>>
    decreases e,
{
    match e {
        SpecExpr::Literal { .. } => Set::empty(),
        SpecExpr::Variable { name } => Set::empty().insert(name),
        SpecExpr::Add { left, right } => expr_names(*left).union(expr_names(*right)),
        SpecExpr::Sub { left, right } => expr_names(*left).union(expr_names(*right)),
        SpecExpr::Mul { left, right } => expr_names(*left).union(expr_names(*right)),
        SpecExpr::Div { left, right } => expr_names(*left).union(expr_names(*right)),
    }
}

/// A named assignment of numbers to parameter names; the first entry
/// with a given name wins.
#[derive(Clone, Debug)]
pub struct Bindings {
    pub entries: Vec<(Vec<u8>, Fixed)>,
}

impl View for Bindings {
    type V = Seq<(Seq<u8>, int)>;

    open spec fn view(&self) -> Seq<(Seq<u8>, int)> {
        Seq::new(self.entries@.len(), |i: int| (self.entries@[i].0@, self.entries@[i].1.units as int))
    }
}

/// First-match lookup in a binding list.
pub open spec fn lookup_binding(b: Seq<(Seq<u8>, int)>, name: Seq<u8>) -> Option<int>
    decreases b.len(),
{
    if b.len() == 0 {
        None
    } else if b[0].0 == name {
        Some(b[0].1)
    } else {
        lookup_binding(b.drop_first(), name)
    }
}

impl Bindings {
    /// An empty assignment.
    pub fn new() -> (r: Bindings)
        ensures
            r@ =~= Seq::<(Seq<u8>, int)>::empty(),
    {
        Bindings { entries: Vec::new() }
    }

    /// Appends one name-to-value entry.
    pub fn push(&mut self, name: Vec<u8>, value: Fixed)
        ensures
            final(self)@ =~= old(self)@.push((name@, value.units as int)),
    {
        self.entries.push((name, value));
    }

    /// Looks a name up; the earliest entry with that name wins.
    pub fn get(&self, name: &Vec<u8>) -> (r: Option<Fixed>)
        ensures
            match r {
                Some(f) => lookup_binding(self@, name@) == Some(f.units as int),
                None => lookup_binding(self@, name@) is None,
            },
    {
        let mut i: usize = 0;
        proof {
            assert(self@.skip(0) =~= self@);
        }
        while i < self.entries.len()
            invariant
                i <= self.entries.len(),
                lookup_binding(self@, name@) == lookup_binding(self@.skip(i as int), name@),
            decreases self.entries.len() - i,
        {
            proof {
                assert(self@.skip(i as int)[0] == (self.entries@[i as int].0@, self.entries@[i as int].1.units as int));
                assert(self@.skip(i as int).drop_first() =~= self@.skip(i + 1));
            }
            if bytes_eq(&self.entries[i].0, name) {
                return Some(self.entries[i].1);
            }
            i = i + 1;
        }
        proof {
            assert(self@.skip(i as int).len() == 0);
        }
        None
    }
}

/// Exact evaluation of an expression under a binding: arithmetic is on
/// millionth units with truncation toward zero, and the first unresolved
/// name in evaluation order is reported.
pub open spec fn spec_eval(e: SpecExpr, b: Seq<(Seq<u8>, int)>) -> Result<int, SpecError>
    decreases e,
{
    match e {
        SpecExpr::Literal { value } => Ok(value),
        SpecExpr::Variable { name } => match lookup_binding(b, name) {
            Some(v) => Ok(v),
            None => Err(SpecError::UnboundParameter { name }),
        },
        SpecExpr::Add { left, right } => match (spec_eval(*left, b), spec_eval(*right, b)) {
            (Err(err), _) => Err(err),
            (Ok(_), Err(err)) => Err(err),
            (Ok(l), Ok(r)) => {
                if i64::MIN <= l + r <= i64::MAX {
                    Ok(l + r)
                } else {
                    Err(SpecError::NumericOverflow)
                }
            },
        },
        SpecExpr::Sub { left, right } => match (spec_eval(*left, b), spec_eval(*right, b)) {
            (Err(err), _) => Err(err),
            (Ok(_), Err(err)) => Err(err),
            (Ok(l), Ok(r)) => {
                if i64::MIN <= l - r <= i64::MAX {
                    Ok(l - r)
                } else {
                    Err(SpecError::NumericOverflow)
                }
            },
        },
        SpecExpr::Mul { left, right } => match (spec_eval(*left, b), spec_eval(*right, b)) {
            (Err(err), _) => Err(err),
            (Ok(_), Err(err)) => Err(err),
            (Ok(l), Ok(r)) => {
                let q = div_trunc(l * r, FIXED_SCALE as int);
                if i64::MIN <= q <= i64::MAX {
                    Ok(q)
                } else {
                    Err(SpecError::NumericOverflow)
                }
            },
        },
        SpecExpr::Div { left, right } => match (spec_eval(*left, b), spec_eval(*right, b)) {
            (Err(err), _) => Err(err),
            (Ok(_), Err(err)) => Err(err),
            (Ok(l), Ok(r)) => {
                if r == 0 {
                    Err(SpecError::DivisionByZero)
                } else {
                    let q = div_trunc(l * FIXED_SCALE, r);
                    if i64::MIN <= q <= i64::MAX {
                        Ok(q)
                    } else {
                        Err(SpecError::NumericOverflow)
                    }
                }
            },
        },
    }
}

/// Evaluates an expression under a binding.
pub fn eval(e: &CalcExpr, b: &Bindings) -> (r: Result<Fixed, RoqoqoError>)
    ensures
        match r {
            Ok(f) => spec_eval(e@, b@) == Ok::<int, SpecError>(f.units as int),
            Err(err) => spec_eval(e@, b@) == Err::<int, SpecError>(err@),
        },
    decreases *e,
{
    match e {
        CalcExpr::Literal { value } => Ok(*value),
        CalcExpr::Variable { name } => match b.get(name) {
            Some(v) => Ok(v),
            None => Err(RoqoqoError::UnboundParameter { name: clone_bytes(name) }),
        },
        CalcExpr::Add { left, right } => {
            let l = match eval(left, b) {
                Ok(v) => v,
                Err(err) => {
                    return Err(err);
                },
            };
            let r = match eval(right, b) {
                Ok(v) => v,
                Err(err) => {
                    return Err(err);
                },
            };
            match l.checked_add(r) {
                Some(f) => Ok(f),
                None => Err(RoqoqoError::NumericOverflow),
            }
        },
        CalcExpr::Sub { left, right } => {
            let l = match eval(left, b) {
                Ok(v) => v,
                Err(err) => {
                    return Err(err);
                },
            };
            let r = match eval(right, b) {
                Ok(v) => v,
                Err(err) => {
                    return Err(err);
                },
            };
            match l.checked_sub(r) {
                Some(f) => Ok(f),
                None => Err(RoqoqoError::NumericOverflow),
            }
        },
        CalcExpr::Mul { left, right } => {
            let l = match eval(left, b) {
                Ok(v) => v,
                Err(err) => {
                    return Err(err);
                },
            };
            let r = match eval(right, b) {
                Ok(v) => v,
                Err(err) => {
                    return Err(err);
                },
            };
            match l.checked_mul(r) {
                Some(f) => Ok(f),
                None => Err(RoqoqoError::NumericOverflow),
            }
        },
        CalcExpr::Div { left, right } => {
            let l = match eval(left, b) {
                Ok(v) => v,
                Err(err) => {
                    return Err(err);
                },
            };
            let r = match eval(right, b) {
                Ok(v) => v,
                Err(err) => {
                    return Err(err);
                },
            };
            if r.units == 0 {
                return Err(RoqoqoError::DivisionByZero);
            }
            match l.checked_div(r) {
                Some(f) => Ok(f),
                None => Err(RoqoqoError::NumericOverflow),
            }
        },
    }
}

} // verus!
