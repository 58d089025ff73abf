//! The explicit time integrators of the line and fluid solvers, and the
//! selection of one by its `--method` flag value. Each integrator carries no
//! state; its floating-point step is in the companion program.

use vstd::prelude::*;
use crate::ising::ramp::str_equal;

verus! {

/// Forward Euler: `u_{n+1} = u_n + h F(u_n)`.
#[derive(Clone, Copy, Debug, PartialEq, Eq)]
pub struct Euler;

/// Explicit midpoint rule (rk2): trial half step, use the rate found there.
#[derive(Clone, Copy, Debug, PartialEq, Eq)]
pub struct Midpoint;

/// Classical fourth-order Runge-Kutta, stage weights 1, 2, 2, 1.
#[derive(Clone, Copy, Debug, PartialEq, Eq)]
pub struct Rk4;

/// RK4 with the four stage weights equal (1, 1, 1, 1)/4: same four stages,
/// only second order.
#[derive(Clone, Copy, Debug, PartialEq, Eq)]
pub struct EqualWeightsRk4;

impl Euler {
    /// The integrator's name in reports.
    pub fn name(&self) -> (r: &'static str)
        ensures
            r@ == "euler"@,
    {
        "euler"
    }
}

impl Midpoint {
    /// The integrator's name in reports.
    pub fn name(&self) -> (r: &'static str)
        ensures
            r@ == "rk2"@,
    {
        "rk2"
    }
}

impl Rk4 {
    /// The integrator's name in reports.
    pub fn name(&self) -> (r: &'static str)
        ensures
            r@ == "rk4"@,
    {
        "rk4"
    }
}

impl EqualWeightsRk4 {
    /// The integrator's name in reports.
    pub fn name(&self) -> (r: &'static str)
        ensures
            r@ == "equal-weight rk4"@,
    {
        "equal-weight rk4"
    }
}

/// The integrators that `--method` can select.
#[derive(Clone, Copy, Debug, PartialEq, Eq)]
pub enum Method {
    Euler,
    Midpoint,
    Rk4,
}

/// A `--method` value that names no integrator: the rejected value.
#[derive(Clone, Debug, PartialEq, Eq)]
pub struct UnknownMethod(pub String);

/// The flag value (and report name) of each selectable integrator.
pub open spec fn method_name(m: Method) -> Seq<char> {
    match m {
        Method::Euler => "euler"@,
        Method::Midpoint => "rk2"@,
        Method::Rk4 => "rk4"@,
    }
}

impl Method {
    /// The selected integrator's name, as its own `name` gives it.
    pub fn name(&self) -> (r: &'static str)
        ensures
            r@ == method_name(*self),
    {
        match self {
            Method::Euler => Euler.name(),
            Method::Midpoint => Midpoint.name(),
            Method::Rk4 => Rk4.name(),
        }
    }
}

/// The integrator that a flag value selects, if any.
pub open spec fn selected(method: Seq<char>) -> Option<Method> {
    if method == "euler"@ {
        Some(Method::Euler)
    } else if method == "rk2"@ {
        Some(Method::Midpoint)
    } else if method == "rk4"@ {
        Some(Method::Rk4)
    } else {
        None
    }
}

/// Select an integrator by its `--method` flag value: `euler`, `rk2` or
/// `rk4`; anything else is refused with the rejected value.
pub fn by_name(method: &str) -> (r: Result<Method, UnknownMethod>)
    ensures
        match selected(method@) {
            Some(m) => r == Ok::<Method, UnknownMethod>(m),
            None => r matches Err(u) && u.0@ == method@,
        },
{
    if str_equal(method, "euler") {
        Ok(Method::Euler)
    } else if str_equal(method, "rk2") {
        Ok(Method::Midpoint)
    } else if str_equal(method, "rk4") {
        Ok(Method::Rk4)
    } else {
        Err(UnknownMethod(method.to_owned()))
    }
}

/// Selecting by a method's own name gives that method back.
pub proof fn law_by_name_inverts_name(m: Method)
    ensures
        selected(method_name(m)) == Some(m),
{
    reveal_strlit("euler");
    reveal_strlit("rk2");
    reveal_strlit("rk4");
    assert("rk2"@.len() != "euler"@.len());
    assert("rk4"@.len() != "euler"@.len());
    assert("rk4"@[2] != "rk2"@[2]);
}

} // verus!
