use vstd::prelude::*;
use vstd::string::StringExecFns;
use std::marker::PhantomData;

verus! {

/// A step-wise sequence of numbers; which rule drives it is picked by the
/// marker type in `_method`.
#[derive(Debug)]
pub struct Equation<IterMethod> {
    pub current: u32,
    pub _method: IterMethod,
}

/// The rule that walks the naturals one by one.
#[derive(Debug)]
pub struct Linear;

/// The rule that yields squares of every second number, up to a ceiling.
#[derive(Debug)]
pub struct Quadratic;

impl Default for Linear {
    fn default() -> (r: Self) {
        Linear
    }
}

impl Default for Quadratic {
    fn default() -> (r: Self) {
        Quadratic
    }
}

impl Default for Equation<Linear> {
    fn default() -> (r: Self)
        ensures
            r.current == 0u32,
    {
        Equation { current: 0, _method: Linear }
    }
}

impl Default for Equation<Quadratic> {
    fn default() -> (r: Self)
        ensures
            r.current == 0u32,
    {
        Equation { current: 0, _method: Quadratic }
    }
}

impl Equation<Linear> {
    /// Steps to the next number and yields it.
    pub fn next(&mut self) -> (r: Option<u32>)
        requires
            old(self).current < u32::MAX,
        ensures
            final(self).current == old(self).current + 1,
            r == Some(final(self).current),
    {
        self.current = self.current + 1;
        Some(self.current)
    }
}

impl Equation<Quadratic> {
    /// Steps by two and yields the square, until the ceiling is reached.
    pub fn next(&mut self) -> (r: Option<u32>)
        requires
            old(self).current < 0x10000,
        ensures
            final(self).current == old(self).current + 2,
            final(self).current >= 0xFFFF ==> r is None,
            final(self).current < 0xFFFF ==> r == Some(
                (final(self).current * final(self).current) as u32,
            ),
    {
        self.current = self.current + 2;
        if self.current >= 0xFFFF {
            None
        } else {
            proof {
                assert(self.current < 0xFFFF ==> self.current * self.current
                    < 0xFFFFFFFF) by (nonlinear_arith);
            }
            Some(self.current * self.current)
        }
    }
}

/// A customer of some plan; the plan is a marker type.
#[derive(Debug)]
pub struct Customer<T> {
    pub id: u64,
    pub name: String,
    pub _type: PhantomData<T>,
}

/// What every plan offers.
pub trait Free {
    fn feature1(&self) -> String;

    fn feature2(&self) -> String;
}

/// What the paid plan offers on top.
pub trait Personal: Free {
    fn advanced_feature(&self) -> String;
}

/// The plan every customer starts on.
#[derive(Debug)]
pub struct FreePlan;

/// The paid plan.
#[derive(Debug)]
pub struct PersonalPlan;

impl<T> Customer<T> {
    pub fn new(name: String) -> (r: Self)
        ensures
            r.name == name,
    {
        Customer { id: 0, name, _type: PhantomData }
    }
}

impl<T> Free for Customer<T> {
    fn feature1(&self) -> (r: String)
        ensures
            r@ == "feature1: "@ + self.name@,
    {
        let mut s = "feature1: ".to_owned();
        s.append(self.name.as_str());
        s
    }

    fn feature2(&self) -> (r: String)
        ensures
            r@ == "feature2: "@ + self.name@,
    {
        let mut s = "feature2: ".to_owned();
        s.append(self.name.as_str());
        s
    }
}

impl Personal for Customer<PersonalPlan> {
    fn advanced_feature(&self) -> (r: String)
        ensures
            r@ == "advanced_feature: "@ + self.name@,
    {
        let mut s = "advanced_feature: ".to_owned();
        s.append(self.name.as_str());
        s
    }
}

impl From<Customer<FreePlan>> for Customer<PersonalPlan> {
    fn from(customer: Customer<FreePlan>) -> (r: Self)
        ensures
            r.name == customer.name,
    {
        Customer::new(customer.name)
    }
}

impl vstd::std_specs::convert::FromSpecImpl<Customer<FreePlan>> for Customer<PersonalPlan> {
    open spec fn obeys_from_spec() -> bool {
        false
    }

    closed spec fn from_spec(customer: Customer<FreePlan>) -> Self {
        vstd::pervasive::arbitrary()
    }
}

} // verus!
