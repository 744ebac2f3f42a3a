use vstd::prelude::*;

verus! {

/// A chromosome (a string of `'0'` and `'1'`) with its cached fitness score.
#[derive(Debug, PartialEq, Eq)]
pub struct Candidate {
    pub code: String,
    pub fitness: u64,
}

impl Candidate {
    /// A copy of this candidate.
    pub fn duplicate(&self) -> (r: Candidate)
        ensures
            r == *self,
    {
        Candidate { code: self.code.clone(), fitness: self.fitness }
    }
}

/// Why an operation of the optimizer refused its inputs.
#[derive(Debug, Clone, Copy, PartialEq, Eq, Structural)]
pub enum GaError {
    /// A bound pair or resolution that describes no domain.
    InvalidDomain,
    /// A chromosome shorter than two bits: crossover has no interior locus.
    DegenerateChromosome,
    /// Selection over candidates whose fitness sums to zero.
    ZeroTotalFitness,
    /// Two chromosomes of different lengths where equal ones are needed.
    MismatchedChromosomeLength,
}

} // verus!
