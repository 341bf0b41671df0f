//! Metric selection, ordering of distances, and the distance kernel interface.

use vstd::prelude::*;

verus! {

/// Distance metric used for nearest-neighbour search.
#[derive(Clone, Copy, Debug, PartialEq, Eq, Structural)]
pub enum DistanceMetric {
    Euclidean,
    Cosine,
    DotProduct,
}

/// The metric that a host-supplied name selects; anything unrecognised, or no
/// name at all, selects Euclidean.
pub open spec fn metric_named(name: Option<Seq<char>>) -> DistanceMetric {
    match name {
        Some(s) => if s == "cosine"@ {
            DistanceMetric::Cosine
        } else if s == "dotproduct"@ || s == "dot_product"@ {
            DistanceMetric::DotProduct
        } else {
            DistanceMetric::Euclidean
        },
        None => DistanceMetric::Euclidean,
    }
}

fn same_text(a: &str, b: &str) -> (r: bool)
    ensures
        r == (a@ == b@),
{
    a.to_owned() == b.to_owned()
}

/// Parses the metric name given at construction.
pub fn metric_from_name(name: Option<&str>) -> (r: DistanceMetric)
    ensures
        r == metric_named(
            match name {
                Some(s) => Some(s@),
                None => None,
            },
        ),
{
    match name {
        Some(s) => {
            if same_text(s, "cosine") {
                DistanceMetric::Cosine
            } else if same_text(s, "dotproduct") || same_text(s, "dot_product") {
                DistanceMetric::DotProduct
            } else {
                DistanceMetric::Euclidean
            }
        },
        None => DistanceMetric::Euclidean,
    }
}

/// Whether the IEEE-754 single-precision value with these bits is finite
/// (its exponent field is not all ones).
pub open spec fn finite_bits(bits: u32) -> bool {
    (bits >> 23u32) & 0xffu32 != 0xffu32
}

/// Tests [`finite_bits`].
pub fn is_finite_bits(bits: u32) -> (r: bool)
    ensures
        r == finite_bits(bits),
{
    (bits >> 23u32) & 0xffu32 != 0xffu32
}

/// Whether every component of a vector is finite.
pub open spec fn all_finite(v: Seq<u32>) -> bool {
    forall|i: int| 0 <= i < v.len() ==> finite_bits(#[trigger] v[i])
}

/// Tests [`all_finite`].
pub fn vector_is_finite(v: &Vec<u32>) -> (r: bool)
    ensures
        r == all_finite(v@),
{
    let mut i: usize = 0;
    while i < v.len()
        invariant
            i <= v@.len(),
            forall|j: int| 0 <= j < i ==> finite_bits(#[trigger] v@[j]),
        decreases v@.len() - i,
    {
        if !is_finite_bits(v[i]) {
            return false;
        }
        i = i + 1;
    }
    true
}

/// Sort key of a distance given as IEEE-754 bits: unsigned comparison of keys
/// orders the encoded floats as numbers (negative below positive, larger
/// magnitude further from zero).
pub open spec fn dist_key(bits: u32) -> u32 {
    if bits & 0x8000_0000u32 != 0 {
        !bits
    } else {
        bits | 0x8000_0000u32
    }
}

/// Computes [`dist_key`].
pub fn distance_key(bits: u32) -> (r: u32)
    ensures
        r == dist_key(bits),
{
    if bits & 0x8000_0000u32 != 0 {
        !bits
    } else {
        bits | 0x8000_0000u32
    }
}

/// The floating-point distance functions the graph is built over, on
/// vectors of IEEE-754 bit patterns.
///
/// Each method returns the bits of its result and is a function of its
/// arguments: its contract names the result by a spec function of the
/// implementation and nothing more. The graph logic relies on no property of
/// the values returned.
pub trait DistanceKernel {
    /// Squared Euclidean distance of two vectors of equal length.
    open spec fn squared_euclidean_of(&self, a: Seq<u32>, b: Seq<u32>) -> u32 {
        choose|r: u32| result_of(self, (1u8, a, b, 0u32), r)
    }

    /// Cosine distance, `1 - cosine similarity` (similarity 0 when either
    /// vector has magnitude 0), of two vectors of equal length.
    open spec fn cosine_distance_of(&self, a: Seq<u32>, b: Seq<u32>) -> u32 {
        choose|r: u32| result_of(self, (2u8, a, b, 0u32), r)
    }

    /// Dot product of two vectors of equal length.
    open spec fn dot_of(&self, a: Seq<u32>, b: Seq<u32>) -> u32 {
        choose|r: u32| result_of(self, (3u8, a, b, 0u32), r)
    }

    /// Square root of a float.
    open spec fn sqrt_of(&self, x: u32) -> u32 {
        choose|r: u32| result_of(self, (4u8, Seq::<u32>::empty(), Seq::<u32>::empty(), x), r)
    }

    fn squared_euclidean(&self, a: &Vec<u32>, b: &Vec<u32>) -> (r: u32)
        ensures
            r == self.squared_euclidean_of(a@, b@),
    ;

    fn cosine_distance(&self, a: &Vec<u32>, b: &Vec<u32>) -> (r: u32)
        ensures
            r == self.cosine_distance_of(a@, b@),
    ;

    fn dot(&self, a: &Vec<u32>, b: &Vec<u32>) -> (r: u32)
        ensures
            r == self.dot_of(a@, b@),
    ;

    fn sqrt(&self, x: u32) -> (r: u32)
        ensures
            r == self.sqrt_of(x),
    ;
}

/// Holds of every value: lets a kernel's results be named as a function of
/// the kernel and the arguments alone, with nothing known of that function.
#[verifier::opaque]
pub open spec fn result_of<K: ?Sized>(k: &K, args: (u8, Seq<u32>, Seq<u32>, u32), r: u32) -> bool {
    true
}

/// The bits of `-x` for the float with bits `x`: the sign bit flipped.
pub open spec fn negated(x: u32) -> u32 {
    x ^ 0x8000_0000u32
}

/// The metric's internal distance, in which smaller means closer: squared
/// Euclidean distance, cosine distance, or the negated dot product.
pub open spec fn internal_of<K: DistanceKernel>(k: &K, metric: DistanceMetric, a: Seq<u32>, b: Seq<u32>) -> u32 {
    match metric {
        DistanceMetric::Euclidean => k.squared_euclidean_of(a, b),
        DistanceMetric::Cosine => k.cosine_distance_of(a, b),
        DistanceMetric::DotProduct => negated(k.dot_of(a, b)),
    }
}

/// The distance reported to callers for an internal distance: its square
/// root for Euclidean, the internal distance itself otherwise.
pub open spec fn final_of<K: DistanceKernel>(k: &K, metric: DistanceMetric, d: u32) -> u32 {
    match metric {
        DistanceMetric::Euclidean => k.sqrt_of(d),
        _ => d,
    }
}

/// Computes [`internal_of`].
pub fn internal_distance<K: DistanceKernel>(k: &K, metric: DistanceMetric, a: &Vec<u32>, b: &Vec<u32>) -> (r: u32)
    ensures
        r == internal_of(k, metric, a@, b@),
{
    match metric {
        DistanceMetric::Euclidean => k.squared_euclidean(a, b),
        DistanceMetric::Cosine => k.cosine_distance(a, b),
        DistanceMetric::DotProduct => k.dot(a, b) ^ 0x8000_0000u32,
    }
}

/// Computes [`final_of`].
pub fn final_distance<K: DistanceKernel>(k: &K, metric: DistanceMetric, d: u32) -> (r: u32)
    ensures
        r == final_of(k, metric, d),
{
    match metric {
        DistanceMetric::Euclidean => k.sqrt(d),
        _ => d,
    }
}

} // verus!
