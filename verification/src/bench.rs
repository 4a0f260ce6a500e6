//! The records a benchmark run produces: one `Run` per measured
//! configuration, grouped by benchmark and by benchmark group.  The
//! command-line front end serialises these to its output file.

use vstd::prelude::*;

verus! {

/// The measurements of one configuration: the virtual times, in
/// microseconds, of each repetition.
pub struct Run {
    pub matrix_size: usize,
    pub processor_size: usize,
    pub data: Vec<u128>,
}

impl Run {
    pub fn new(matrix_size: usize, processor_size: usize) -> (r: Run)
        ensures
            r.matrix_size == matrix_size,
            r.processor_size == processor_size,
            r.data@.len() == 0,
    {
        Run { matrix_size, processor_size, data: Vec::new() }
    }
}

/// One benchmark: its name and its runs.
pub struct Bench {
    pub name: String,
    pub data: Vec<Run>,
}

impl Bench {
    pub fn new(name: String) -> (r: Bench)
        ensures
            r.name == name,
            r.data@.len() == 0,
    {
        Bench { name, data: Vec::new() }
    }
}

/// One group of benchmarks.
pub struct Group {
    pub name: String,
    pub data: Vec<Bench>,
}

impl Group {
    pub fn new(name: String) -> (r: Group)
        ensures
            r.name == name,
            r.data@.len() == 0,
    {
        Group { name, data: Vec::new() }
    }
}

/// Every group of a whole session.
pub struct Groups {
    pub data: Vec<Group>,
}

impl Groups {
    pub fn new() -> (r: Groups)
        ensures
            r.data@.len() == 0,
    {
        Groups { data: Vec::new() }
    }
}

} // verus!
