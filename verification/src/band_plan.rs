//! The planning of all bands of a query, one after another.
use vstd::prelude::*;

use crate::bands::{band_count, band_range, hash_bands};
use crate::plan::{band_streams, source_of, BandSource, PlanNode};

verus! {

/// What is to be done next.
#[derive(Clone, Copy, PartialEq, Eq, Structural, Debug)]
pub enum PlanStep {
    /// Plan that band, which reads the hashes from `lo` to `hi`.
    PlanBand { band: usize, lo: u64, hi: u64 },
    /// The plan of that band cannot stream in order, so none is streamed.
    CannotStream(usize),
    /// All bands are planned and can stream.
    Ready,
}

/// The bands of a query, of which some are planned.
pub struct BandPlanner {
    bands: Vec<(u64, u64)>,
    planned: usize,
    refused: bool,
}

impl BandPlanner {
    /// How many bands there are.
    pub closed spec fn count(&self) -> int {
        self.bands@.len() as int
    }

    /// How many bands are planned and can stream.
    pub closed spec fn planned(&self) -> int {
        self.planned as int
    }

    /// The plan of the next band cannot stream.
    pub closed spec fn refused(&self) -> bool {
        self.refused
    }

    /// The bands partition the hash space, and no more of them are planned than
    /// there are.
    pub closed spec fn wf(&self) -> bool {
        &&& 1 <= self.bands@.len()
        &&& self.bands@ == Seq::new(
            self.bands@.len(),
            |band: int| band_range(band, self.bands@.len() as int),
        )
        &&& self.planned <= self.bands@.len()
        &&& self.refused ==> self.planned < self.bands@.len()
    }

    /// The planning of `count` bands, and of one band where none is asked for.
    pub fn new(count: usize) -> (planner: Self)
        ensures
            planner.wf(),
            planner.count() == band_count(count as int),
            planner.planned() == 0,
            !planner.refused(),
    {
        BandPlanner { bands: hash_bands(count), planned: 0, refused: false }
    }

    /// What is to be done next: the bands are planned in order, up to the first
    /// one that cannot stream.
    pub fn step(&self) -> (step: PlanStep)
        requires
            self.wf(),
        ensures
            match step {
                PlanStep::PlanBand { band, lo, hi } => {
                    &&& !self.refused()
                    &&& band == self.planned() < self.count()
                    &&& (lo, hi) == band_range(band as int, self.count())
                },
                PlanStep::CannotStream(band) => self.refused() && band == self.planned(),
                PlanStep::Ready => !self.refused() && self.planned() == self.count(),
            },
    {
        if self.refused {
            return PlanStep::CannotStream(self.planned);
        }
        if self.planned == self.bands.len() {
            return PlanStep::Ready;
        }
        let band: usize = self.planned;
        let (lo, hi) = self.bands[band];
        PlanStep::PlanBand { band, lo, hi }
    }

    /// Takes the plan of the next band. Gives what the band folds from, or
    /// nothing where its plan cannot stream.
    pub fn take_plan(&mut self, plan: &PlanNode, hash: &str) -> (source: Option<BandSource>)
        requires
            old(self).wf(),
            !old(self).refused(),
            old(self).planned() < old(self).count(),
        ensures
            final(self).wf(),
            final(self).count() == old(self).count(),
            source == source_of(*plan, hash@),
            final(self).refused() == (source is None),
            final(self).planned() == if source is Some {
                old(self).planned() + 1
            } else {
                old(self).planned()
            },
    {
        let source: Option<BandSource> = band_streams(plan, hash);
        match source {
            Some(_) => {
                assert(self.planned < self.bands.len());
                self.planned = self.planned + 1;
            },
            None => {
                self.refused = true;
            },
        }
        source
    }
}

} // verus!
