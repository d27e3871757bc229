//! Output target levels and the options handed to the pipeline.

use vstd::prelude::*;

verus! {

/// An output language baseline.  The variants are totally ordered from the
/// oldest level to the newest; the order decides which lowering presets run.
#[derive(Clone, Copy, Debug, PartialEq, Eq, Structural)]
pub enum TransformTarget {
    ES3,
    ES5,
    ES2015,
    ES2016,
    ES2017,
    ES2018,
    ES2019,
    ES2020,
    ES2021,
    ES2022,
    ES2024,
    ESNext,
}

impl TransformTarget {
    /// Position of this baseline in the total order; `ES3` is lowest.
    pub open spec fn level(self) -> nat {
        match self {
            TransformTarget::ES3 => 0,
            TransformTarget::ES5 => 1,
            TransformTarget::ES2015 => 2,
            TransformTarget::ES2016 => 3,
            TransformTarget::ES2017 => 4,
            TransformTarget::ES2018 => 5,
            TransformTarget::ES2019 => 6,
            TransformTarget::ES2020 => 7,
            TransformTarget::ES2021 => 8,
            TransformTarget::ES2022 => 9,
            TransformTarget::ES2024 => 10,
            TransformTarget::ESNext => 11,
        }
    }

    /// The position of this baseline in the total order, as a machine integer.
    pub fn level_index(&self) -> (r: u8)
        ensures
            r == self.level(),
    {
        match self {
            TransformTarget::ES3 => 0,
            TransformTarget::ES5 => 1,
            TransformTarget::ES2015 => 2,
            TransformTarget::ES2016 => 3,
            TransformTarget::ES2017 => 4,
            TransformTarget::ES2018 => 5,
            TransformTarget::ES2019 => 6,
            TransformTarget::ES2020 => 7,
            TransformTarget::ES2021 => 8,
            TransformTarget::ES2022 => 9,
            TransformTarget::ES2024 => 10,
            TransformTarget::ESNext => 11,
        }
    }

    /// Whether this baseline is strictly older than `other`.
    pub fn is_below(&self, other: &TransformTarget) -> (r: bool)
        ensures
            r == (self.level() < other.level()),
    {
        self.level_index() < other.level_index()
    }
}

impl Default for TransformTarget {
    /// The default target is the newest level, under which no lowering runs.
    fn default() -> (r: Self)
        ensures
            r == TransformTarget::ESNext,
    {
        TransformTarget::ESNext
    }
}

/// Options for one pipeline run.
#[derive(Clone, Copy, Debug, PartialEq, Eq, Structural)]
pub struct TransformOptions {
    /// The requested output baseline; passes lowering a feature that is
    /// native at or below this level stay inactive.
    pub target: TransformTarget,
}

} // verus!
