//! The numbers a drawing is measured in.
//!
//! Everything in this crate that computes with coordinates, extents, angles or opacities is
//! generic over [`Scalar`]: a small arithmetic whose every operation is a function of its
//! operands. What else is asked of an implementor are the two laws at the end of the trait,
//! that siblings can be ranked and that texts read back, which a hardware number type keeps
//! as well as an exact one.
use vstd::prelude::*;

verus! {

/// The characters of a text.
pub type Letters = Seq<char>;

/// A number of the drawing. Each executable operation computes the specification function
/// of the same name.
pub trait Scalar: Copy {
    spec fn of_int_spec(n: i64) -> Self;

    spec fn plus_spec(self, other: Self) -> Self;

    spec fn minus_spec(self, other: Self) -> Self;

    spec fn times_spec(self, other: Self) -> Self;

    spec fn over_spec(self, other: Self) -> Self;

    spec fn negated_spec(self) -> Self;

    spec fn magnitude_spec(self) -> Self;

    spec fn lesser_spec(self, other: Self) -> Self;

    spec fn greater_spec(self, other: Self) -> Self;

    spec fn highest_spec() -> Self;

    spec fn lowest_spec() -> Self;

    spec fn below_spec(self, other: Self) -> bool;

    spec fn ranks_below_spec(self, other: Self) -> bool;

    spec fn at_most_spec(self, other: Self) -> bool;

    spec fn equals_spec(self, other: Self) -> bool;

    spec fn finite_spec(self) -> bool;

    spec fn wrapped_spec(self, period: Self) -> Self;

    spec fn sine_cosine_spec(self) -> (Self, Self);

    spec fn hypotenuse_spec(self, other: Self) -> Self;

    spec fn signed_like_spec(self, other: Self) -> Self;

    spec fn rounded_spec(self) -> Self;

    spec fn whole_spec(self) -> bool;

    spec fn to_int_spec(self) -> i64;

    spec fn text_spec(self) -> Letters;

    spec fn tenth_text_spec(self) -> Letters;

    spec fn of_text_spec(text: Letters) -> Option<Self>;

    /// The number nearest to an integer.
    #[verifier::when_used_as_spec(of_int_spec)]
    fn of_int(n: i64) -> (r: Self)
        ensures
            r == Self::of_int_spec(n),
    ;

    #[verifier::when_used_as_spec(plus_spec)]
    fn plus(self, other: Self) -> (r: Self)
        ensures
            r == self.plus_spec(other),
    ;

    #[verifier::when_used_as_spec(minus_spec)]
    fn minus(self, other: Self) -> (r: Self)
        ensures
            r == self.minus_spec(other),
    ;

    #[verifier::when_used_as_spec(times_spec)]
    fn times(self, other: Self) -> (r: Self)
        ensures
            r == self.times_spec(other),
    ;

    #[verifier::when_used_as_spec(over_spec)]
    fn over(self, other: Self) -> (r: Self)
        ensures
            r == self.over_spec(other),
    ;

    #[verifier::when_used_as_spec(negated_spec)]
    fn negated(self) -> (r: Self)
        ensures
            r == self.negated_spec(),
    ;

    /// The absolute value.
    #[verifier::when_used_as_spec(magnitude_spec)]
    fn magnitude(self) -> (r: Self)
        ensures
            r == self.magnitude_spec(),
    ;

    #[verifier::when_used_as_spec(lesser_spec)]
    fn lesser(self, other: Self) -> (r: Self)
        ensures
            r == self.lesser_spec(other),
    ;

    #[verifier::when_used_as_spec(greater_spec)]
    fn greater(self, other: Self) -> (r: Self)
        ensures
            r == self.greater_spec(other),
    ;

    /// The greatest finite number.
    #[verifier::when_used_as_spec(highest_spec)]
    fn highest() -> (r: Self)
        ensures
            r == Self::highest_spec(),
    ;

    /// The least finite number.
    #[verifier::when_used_as_spec(lowest_spec)]
    fn lowest() -> (r: Self)
        ensures
            r == Self::lowest_spec(),
    ;

    /// Strictly less than.
    #[verifier::when_used_as_spec(below_spec)]
    fn below(self, other: Self) -> (r: bool)
        ensures
            r == self.below_spec(other),
    ;

    /// The order that siblings are kept in: [`Scalar::below`] where that compares two numbers,
    /// and a number that compares with none before those that do.
    #[verifier::when_used_as_spec(ranks_below_spec)]
    fn ranks_below(self, other: Self) -> (r: bool)
        ensures
            r == self.ranks_below_spec(other),
    ;

    /// Less than or equal.
    #[verifier::when_used_as_spec(at_most_spec)]
    fn at_most(self, other: Self) -> (r: bool)
        ensures
            r == self.at_most_spec(other),
    ;

    /// Numeric equality, which may tell fewer numbers apart than [`Scalar::same`] does.
    #[verifier::when_used_as_spec(equals_spec)]
    fn equals(self, other: Self) -> (r: bool)
        ensures
            r == self.equals_spec(other),
    ;

    /// Whether the two are one and the same value.
    fn same(self, other: Self) -> (r: bool)
        ensures
            r == (self == other),
    ;

    #[verifier::when_used_as_spec(finite_spec)]
    fn finite(self) -> (r: bool)
        ensures
            r == self.finite_spec(),
    ;

    /// The remainder of a Euclidean division by `period`.
    #[verifier::when_used_as_spec(wrapped_spec)]
    fn wrapped(self, period: Self) -> (r: Self)
        ensures
            r == self.wrapped_spec(period),
    ;

    /// Sine and cosine of an angle in degrees.
    #[verifier::when_used_as_spec(sine_cosine_spec)]
    fn sine_cosine(self) -> (r: (Self, Self))
        ensures
            r == self.sine_cosine_spec(),
    ;

    /// The length of the vector `(self, other)`.
    #[verifier::when_used_as_spec(hypotenuse_spec)]
    fn hypotenuse(self, other: Self) -> (r: Self)
        ensures
            r == self.hypotenuse_spec(other),
    ;

    /// The magnitude of `self` with the sign of `other`.
    #[verifier::when_used_as_spec(signed_like_spec)]
    fn signed_like(self, other: Self) -> (r: Self)
        ensures
            r == self.signed_like_spec(other),
    ;

    /// The nearest whole number, halves away from zero.
    #[verifier::when_used_as_spec(rounded_spec)]
    fn rounded(self) -> (r: Self)
        ensures
            r == self.rounded_spec(),
    ;

    /// Whether there is no fractional part.
    #[verifier::when_used_as_spec(whole_spec)]
    fn whole(self) -> (r: bool)
        ensures
            r == self.whole_spec(),
    ;

    /// The integer part, pinned to the range of `i64`.
    #[verifier::when_used_as_spec(to_int_spec)]
    fn to_int(self) -> (r: i64)
        ensures
            r == self.to_int_spec(),
    ;

    /// The shortest decimal text of the number.
    fn text(self) -> (r: String)
        ensures
            r@ == self.text_spec(),
    ;

    /// The decimal text with one fractional digit.
    fn tenth_text(self) -> (r: String)
        ensures
            r@ == self.tenth_text_spec(),
    ;

    /// The number a decimal text says, if it says one.
    fn of_text(text: &str) -> (r: Option<Self>)
        ensures
            r == Self::of_text_spec(text@),
    ;

    /// Siblings can be ranked: the order is one of a single line, and agrees with
    /// [`Scalar::below`].
    proof fn ranks(a: Self, b: Self, c: Self)
        ensures
            !a.ranks_below_spec(a),
            a.ranks_below_spec(b) && b.ranks_below_spec(c) ==> a.ranks_below_spec(c),
            a.ranks_below_spec(c) ==> a.ranks_below_spec(b) || b.ranks_below_spec(c),
            a.below_spec(b) ==> a.ranks_below_spec(b),
    ;

    /// A number's text is made of numerals, and that of a finite number reads back.
    proof fn reads_back(self)
        ensures
            self.text_spec().len() > 0,
            forall|i: int|
                0 <= i < self.text_spec().len() ==> numeral(#[trigger] self.text_spec()[i]),
            self.finite_spec() ==> Self::of_text_spec(self.text_spec()) == Some(self),
    ;

    /// A number that is not negative is the greater of it and nought, and an angle of less than a
    /// whole turn wraps to itself.
    proof fn stays_in_range(self)
        ensures
            Self::of_int_spec(0).below_spec(self) || self == Self::of_int_spec(0)
                ==> self.greater_spec(Self::of_int_spec(0)) == self,
            !self.below_spec(Self::of_int_spec(0)) && self.below_spec(Self::of_int_spec(360))
                ==> self.wrapped_spec(Self::of_int_spec(360)) == self,
    ;
}

/// `n / d`, for the constants that are no integers.
pub open spec fn ratio_spec<S: Scalar>(n: i64, d: i64) -> S {
    S::of_int(n).over(S::of_int(d))
}

#[verifier::when_used_as_spec(ratio_spec)]
pub fn ratio<S: Scalar>(n: i64, d: i64) -> (r: S)
    ensures
        r == ratio_spec::<S>(n, d),
{
    S::of_int(n).over(S::of_int(d))
}

/// `v` held between `lo` and `hi`.
pub open spec fn clamped_spec<S: Scalar>(v: S, lo: S, hi: S) -> S {
    if v.below(lo) {
        lo
    } else if hi.below(v) {
        hi
    } else {
        v
    }
}

#[verifier::when_used_as_spec(clamped_spec)]
pub fn clamped<S: Scalar>(v: S, lo: S, hi: S) -> (r: S)
    ensures
        r == clamped_spec(v, lo, hi),
{
    if v.below(lo) {
        lo
    } else if hi.below(v) {
        hi
    } else {
        v
    }
}

/// The angle, or extent, below which nothing is turned, or long: two to the minus fifty-two.
pub open spec fn tiny_spec<S: Scalar>() -> S {
    ratio::<S>(1, 0x10_0000_0000_0000)
}

#[verifier::when_used_as_spec(tiny_spec)]
pub fn tiny<S: Scalar>() -> (r: S)
    ensures
        r == tiny_spec::<S>(),
{
    ratio::<S>(1, 0x10_0000_0000_0000)
}

/// Half of `v`.
pub open spec fn half_spec<S: Scalar>(v: S) -> S {
    v.over(S::of_int(2))
}

#[verifier::when_used_as_spec(half_spec)]
pub fn half<S: Scalar>(v: S) -> (r: S)
    ensures
        r == half_spec(v),
{
    v.over(S::of_int(2))
}

/// Whether numbers are ranked the way one line ranks them.
pub open spec fn ordered<S: Scalar>() -> bool {
    &&& forall|a: S| !#[trigger] a.ranks_below(a)
    &&& forall|a: S, b: S, c: S|
        #![trigger a.ranks_below(b), b.ranks_below(c)]
        a.ranks_below(b) && b.ranks_below(c) ==> a.ranks_below(c)
    &&& forall|a: S, b: S, c: S|
        #![trigger a.ranks_below(c), a.ranks_below(b)]
        #![trigger a.ranks_below(c), b.ranks_below(c)]
        a.ranks_below(c) ==> a.ranks_below(b) || b.ranks_below(c)
    &&& forall|a: S, b: S| #[trigger] a.below(b) ==> a.ranks_below(b)
}

/// Numbers are ranked the way one line ranks them.
pub proof fn numbers_rank<S: Scalar>()
    ensures
        ordered::<S>(),
{
    assert forall|a: S| !#[trigger] a.ranks_below(a) by {
        S::ranks(a, a, a);
    }
    assert forall|a: S, b: S, c: S|
        #![trigger a.ranks_below(b), b.ranks_below(c)]
        a.ranks_below(b) && b.ranks_below(c) implies a.ranks_below(c) by {
        S::ranks(a, b, c);
    }
    assert forall|a: S, b: S, c: S|
        #![trigger a.ranks_below(c), a.ranks_below(b)]
        #![trigger a.ranks_below(c), b.ranks_below(c)]
        a.ranks_below(c) implies a.ranks_below(b) || b.ranks_below(c) by {
        S::ranks(a, b, c);
    }
    assert forall|a: S, b: S| #[trigger] a.below(b) implies a.ranks_below(b) by {
        S::ranks(a, b, b);
    }
}

/// A character that a number's text may hold: nothing that ends a tag, an attribute value, a
/// list item, or a unit.
pub open spec fn numeral(c: char) -> bool {
    ||| '0' <= c <= '9'
    ||| c == '-'
    ||| c == '+'
    ||| c == '.'
    ||| c == 'e'
    ||| c == 'E'
    ||| c == 'i'
    ||| c == 'n'
    ||| c == 'f'
    ||| c == 'N'
    ||| c == 'a'
}

} // verus!
