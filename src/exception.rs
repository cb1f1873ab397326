use vstd::prelude::*;

verus! {

/// All kinds of failure that a calculation can report. Most of them stand
/// for an input on which the construction is not defined (a division by
/// zero, "the" line through two equal points).
#[derive(Debug, PartialEq, Eq, Structural, Clone, Copy)]
pub enum CalcException {
    /// Two points coincide where they must be distinct.
    OverlappingPoint,
    /// A circle was given a radius that is not positive.
    NonpositiveRadius,
    /// Three (or more) points are collinear where they must not be.
    CollinearPoints,
    /// Two curves that must meet do not.
    NoIntersection,
    /// All coefficients are zero where that is not allowed.
    ZeroCoefficient,
    /// The true result is the point or the line at infinity, like the
    /// homothety center of two equal circles.
    Infinity,
}

/// The result type of every fallible calculation.
pub type Result<T> = core::result::Result<T, CalcException>;

impl CalcException {
    /// A human-readable description of the failure.
    pub fn message(&self) -> (r: &'static str)
        ensures
            *self == CalcException::CollinearPoints ==> r@ == "Three (or more) points are collinear when they shouldn't"@,
            *self == CalcException::NoIntersection ==> r@ == "There are no intersection"@,
            *self == CalcException::NonpositiveRadius ==> r@ == "Defining a circle with nonpositive radius"@,
            *self == CalcException::OverlappingPoint ==> r@ == "Two points overlap when they shouldn't"@,
            *self == CalcException::ZeroCoefficient ==> r@
                == "Defining something with coefficient all zero, where this is not allowed"@,
            *self == CalcException::Infinity ==> r@
                == "This calculation would directly cause the result to be the point of infinity / the line of infinity"@,
    {
        let r = match self {
            CalcException::CollinearPoints => "Three (or more) points are collinear when they shouldn't",
            CalcException::NoIntersection => "There are no intersection",
            CalcException::NonpositiveRadius => "Defining a circle with nonpositive radius",
            CalcException::OverlappingPoint => "Two points overlap when they shouldn't",
            CalcException::ZeroCoefficient => "Defining something with coefficient all zero, where this is not allowed",
            CalcException::Infinity => "This calculation would directly cause the result to be the point of infinity / the line of infinity",
        };
        proof {
            reveal_strlit("Three (or more) points are collinear when they shouldn't");
            reveal_strlit("There are no intersection");
            reveal_strlit("Defining a circle with nonpositive radius");
            reveal_strlit("Two points overlap when they shouldn't");
            reveal_strlit("Defining something with coefficient all zero, where this is not allowed");
            reveal_strlit("This calculation would directly cause the result to be the point of infinity / the line of infinity");
        }
        r
    }
}

} // verus!
