//! A point in three-dimensional space.
use vstd::prelude::*;
use crate::format::{INFINITY, QUIET_NAN};
use crate::laws::lemma_distance_plain;
use crate::arith::{difference, difference_of, equal, product, product_of, quotient, quotient_of,
    root_of, same_number, square_root, sum, sum_of};

verus! {

/// Three coordinates, each the pattern of a binary64 number.
pub type Triple = (u64, u64, u64);

/// The componentwise sum of two triples.
pub open spec fn triple_sum(p: Triple, q: Triple) -> Triple {
    (sum_of(p.0, q.0), sum_of(p.1, q.1), sum_of(p.2, q.2))
}

/// The componentwise difference of two triples.
pub open spec fn triple_difference(p: Triple, q: Triple) -> Triple {
    (difference_of(p.0, q.0), difference_of(p.1, q.1), difference_of(p.2, q.2))
}

/// The componentwise product of two triples.
pub open spec fn triple_product(p: Triple, q: Triple) -> Triple {
    (product_of(p.0, q.0), product_of(p.1, q.1), product_of(p.2, q.2))
}

/// The componentwise quotient of two triples.
pub open spec fn triple_quotient(p: Triple, q: Triple) -> Triple {
    (quotient_of(p.0, q.0), quotient_of(p.1, q.1), quotient_of(p.2, q.2))
}

/// Two triples agree in every coordinate as numbers.
pub open spec fn triple_equal(p: Triple, q: Triple) -> bool {
    same_number(p.0, q.0) && same_number(p.1, q.1) && same_number(p.2, q.2)
}

/// The sum of the squares of three numbers, added from left to right, each
/// step rounded.
pub open spec fn sum_of_squares(dx: u64, dy: u64, dz: u64) -> u64 {
    sum_of(sum_of(product_of(dx, dx), product_of(dy, dy)), product_of(dz, dz))
}

/// The Euclidean distance between two triples, each step rounded.
pub open spec fn triple_distance(p: Triple, q: Triple) -> u64 {
    root_of(
        sum_of_squares(
            difference_of(p.0, q.0),
            difference_of(p.1, q.1),
            difference_of(p.2, q.2),
        ),
    )
}

/// A point in space. Its coordinates are fixed when it is made.
#[derive(Clone, Copy, Debug)]
pub struct Point3D {
    x: u64,
    y: u64,
    z: u64,
}

impl View for Point3D {
    type V = Triple;

    open spec fn view(&self) -> Triple {
        (self.spec_x(), self.spec_y(), self.spec_z())
    }
}

impl Point3D {
    pub closed spec fn spec_x(&self) -> u64 {
        self.x
    }

    pub closed spec fn spec_y(&self) -> u64 {
        self.y
    }

    pub closed spec fn spec_z(&self) -> u64 {
        self.z
    }

    /// The point with the given coordinates.
    pub fn new(x: u64, y: u64, z: u64) -> (p: Point3D)
        ensures
            p.x() == x,
            p.y() == y,
            p.z() == z,
    {
        Point3D { x, y, z }
    }

    #[verifier::when_used_as_spec(spec_x)]
    pub fn x(&self) -> (r: u64)
        ensures
            r == self.x(),
    {
        self.x
    }

    #[verifier::when_used_as_spec(spec_y)]
    pub fn y(&self) -> (r: u64)
        ensures
            r == self.y(),
    {
        self.y
    }

    #[verifier::when_used_as_spec(spec_z)]
    pub fn z(&self) -> (r: u64)
        ensures
            r == self.z(),
    {
        self.z
    }

    /// Two points with the same coordinates are the same point.
    pub proof fn lemma_coordinates_determine(self, other: Point3D)
        requires
            self@ == other@,
        ensures
            self == other,
    {
    }

    /// The Euclidean distance to another point: never negative, and the NaN
    /// where it is not a number.
    pub fn distance(&self, other: &Point3D) -> (r: u64)
        ensures
            r == triple_distance(self@, other@),
            r <= INFINITY || r == QUIET_NAN,
    {
        let dx: u64 = difference(self.x, other.x());
        let dy: u64 = difference(self.y, other.y());
        let dz: u64 = difference(self.z, other.z());
        proof {
            lemma_distance_plain(self@, other@);
        }
        square_root(sum(sum(product(dx, dx), product(dy, dy)), product(dz, dz)))
    }
}

impl core::ops::Add for Point3D {
    type Output = Point3D;

    fn add(self, other: Point3D) -> (r: Point3D)
        ensures
            r@ == triple_sum(self@, other@),
    {
        Point3D {
            x: sum(self.x, other.x()),
            y: sum(self.y, other.y()),
            z: sum(self.z, other.z()),
        }
    }
}

impl vstd::std_specs::ops::AddSpecImpl for Point3D {
    open spec fn obeys_add_spec() -> bool {
        true
    }

    open spec fn add_req(self, other: Point3D) -> bool {
        true
    }

    closed spec fn add_spec(self, other: Point3D) -> Point3D {
        Point3D {
            x: sum_of(self.x, other.x),
            y: sum_of(self.y, other.y),
            z: sum_of(self.z, other.z),
        }
    }
}

impl core::ops::Sub for Point3D {
    type Output = Point3D;

    fn sub(self, other: Point3D) -> (r: Point3D)
        ensures
            r@ == triple_difference(self@, other@),
    {
        Point3D {
            x: difference(self.x, other.x()),
            y: difference(self.y, other.y()),
            z: difference(self.z, other.z()),
        }
    }
}

impl vstd::std_specs::ops::SubSpecImpl for Point3D {
    open spec fn obeys_sub_spec() -> bool {
        true
    }

    open spec fn sub_req(self, other: Point3D) -> bool {
        true
    }

    closed spec fn sub_spec(self, other: Point3D) -> Point3D {
        Point3D {
            x: difference_of(self.x, other.x),
            y: difference_of(self.y, other.y),
            z: difference_of(self.z, other.z),
        }
    }
}

impl core::ops::Mul for Point3D {
    type Output = Point3D;

    fn mul(self, other: Point3D) -> (r: Point3D)
        ensures
            r@ == triple_product(self@, other@),
    {
        Point3D {
            x: product(self.x, other.x()),
            y: product(self.y, other.y()),
            z: product(self.z, other.z()),
        }
    }
}

impl vstd::std_specs::ops::MulSpecImpl for Point3D {
    open spec fn obeys_mul_spec() -> bool {
        true
    }

    open spec fn mul_req(self, other: Point3D) -> bool {
        true
    }

    closed spec fn mul_spec(self, other: Point3D) -> Point3D {
        Point3D {
            x: product_of(self.x, other.x),
            y: product_of(self.y, other.y),
            z: product_of(self.z, other.z),
        }
    }
}

impl core::ops::Div for Point3D {
    type Output = Point3D;

    fn div(self, other: Point3D) -> (r: Point3D)
        ensures
            r@ == triple_quotient(self@, other@),
    {
        Point3D {
            x: quotient(self.x, other.x()),
            y: quotient(self.y, other.y()),
            z: quotient(self.z, other.z()),
        }
    }
}

impl vstd::std_specs::ops::DivSpecImpl for Point3D {
    open spec fn obeys_div_spec() -> bool {
        true
    }

    open spec fn div_req(self, other: Point3D) -> bool {
        true
    }

    closed spec fn div_spec(self, other: Point3D) -> Point3D {
        Point3D {
            x: quotient_of(self.x, other.x),
            y: quotient_of(self.y, other.y),
            z: quotient_of(self.z, other.z),
        }
    }
}

impl PartialEq for Point3D {
    fn eq(&self, other: &Point3D) -> (r: bool) {
        equal(self.x, other.x()) && equal(self.y, other.y()) && equal(self.z, other.z())
    }
}

impl vstd::std_specs::cmp::PartialEqSpecImpl for Point3D {
    open spec fn obeys_eq_spec() -> bool {
        true
    }

    open spec fn eq_spec(&self, other: &Point3D) -> bool {
        triple_equal(self@, other@)
    }
}

} // verus!
