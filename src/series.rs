use vstd::prelude::*;
use crate::reading::Reading;

verus! {

/// A reading with the number of the acquisition step that produced it.
#[derive(PartialEq, Eq, Structural, Clone, Copy, Debug)]
pub struct Measurement {
    pub sequence: u64,
    pub value: Reading,
}

/// The measurements of a session in the order they were taken.
pub struct SeriesBuffer {
    points: Vec<Measurement>,
}

impl SeriesBuffer {
    pub closed spec fn contents(&self) -> Seq<Measurement> {
        self.points@
    }

    pub fn new() -> (r: SeriesBuffer)
        ensures
            r.contents() == Seq::<Measurement>::empty(),
    {
        SeriesBuffer { points: Vec::new() }
    }

    /// Adds a measurement at the end.
    pub fn append(&mut self, sequence: u64, value: Reading)
        ensures
            final(self).contents() == old(self).contents().push(
                Measurement { sequence, value },
            ),
    {
        self.points.push(Measurement { sequence, value });
    }

    pub fn len(&self) -> (r: usize)
        ensures
            r == self.contents().len(),
    {
        self.points.len()
    }

    pub fn points(&self) -> (r: &Vec<Measurement>)
        ensures
            r@ == self.contents(),
    {
        &self.points
    }
}

} // verus!
