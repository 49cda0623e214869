use vstd::prelude::*;

verus! {

/// The number of splats that a random initialisation creates unless told otherwise.
pub const DEFAULT_INIT_COUNT: usize = 10000;

/// Settings for initialising a splat cloud with random splats.
#[derive(Clone, Copy, Debug)]
pub struct RandomSplatsConfig {
    init_count: usize,
}

impl RandomSplatsConfig {
    /// The number of splats that the random initialisation creates.
    pub closed spec fn spec_init_count(&self) -> usize {
        self.init_count
    }

    /// A configuration with every setting at its default.
    pub fn new() -> (config: Self)
        ensures
            config.spec_init_count() == DEFAULT_INIT_COUNT,
    {
        RandomSplatsConfig { init_count: DEFAULT_INIT_COUNT }
    }

    /// The same configuration with the number of splats set to `init_count`.
    pub fn with_init_count(self, init_count: usize) -> (config: Self)
        ensures
            config.spec_init_count() == init_count,
    {
        RandomSplatsConfig { init_count, ..self }
    }

    /// The number of splats that the random initialisation creates.
    pub fn init_count(&self) -> (count: usize)
        ensures
            count == self.spec_init_count(),
    {
        self.init_count
    }
}

} // verus!
