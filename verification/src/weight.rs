//! Exact weights. A weight is a ratio of two counts; nothing here rounds.

use vstd::prelude::*;

verus! {

/// The ratio `num / den`, kept as it was formed and never reduced.
#[derive(Clone, Copy, Debug, PartialEq, Eq, Structural)]
pub struct Weight {
    pub num: u64,
    pub den: u64,
}

impl DeepView for Weight {
    type V = Weight;

    open spec fn deep_view(&self) -> Weight {
        *self
    }
}

impl Weight {
    /// A weight is well formed when its denominator is not zero.
    pub open spec fn wf(&self) -> bool {
        self.den > 0
    }

    /// The weight of a term that no table lists: one.
    pub open spec fn unit() -> Weight {
        Weight { num: 1, den: 1 }
    }

    /// The weight one.
    pub fn one() -> (weight: Weight)
        ensures
            weight == Weight::unit(),
    {
        Weight { num: 1, den: 1 }
    }
}

/// One component of a document's weight vector: how often a term occurs in
/// the document, and the weight the term had when the component was taken.
/// The component stands for `frequency * weight`.
#[derive(Clone, Copy, Debug, PartialEq, Eq, Structural)]
pub struct NormPart {
    pub frequency: u32,
    pub weight: Weight,
}

impl DeepView for NormPart {
    type V = NormPart;

    open spec fn deep_view(&self) -> NormPart {
        *self
    }
}

/// The weight of a term in a query: how often the query names the term, and
/// the term's weight. The pair stands for `count * weight`.
#[derive(Clone, Copy, Debug, PartialEq, Eq, Structural)]
pub struct TermWeight {
    pub count: u64,
    pub weight: Weight,
}

impl DeepView for TermWeight {
    type V = TermWeight;

    open spec fn deep_view(&self) -> TermWeight {
        *self
    }
}

/// What one term of a query adds to a document's raw score: the term's weight
/// in the query, its frequency in the document, and its weight in the index.
/// The part stands for `query.count * query.weight * frequency * weight`.
#[derive(Clone, Copy, Debug, PartialEq, Eq, Structural)]
pub struct ScorePart {
    pub query: TermWeight,
    pub frequency: u32,
    pub weight: Weight,
}

impl DeepView for ScorePart {
    type V = ScorePart;

    open spec fn deep_view(&self) -> ScorePart {
        *self
    }
}

} // verus!
