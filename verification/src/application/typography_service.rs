use vstd::prelude::*;

verus! {

/// Entry point for typography queries (fonts offered to the user).
#[derive(Clone)]
pub struct TypographyService;

impl TypographyService {
    /// Creates the service; it holds no state.
    pub fn new() -> (service: Self)
        ensures
            service == TypographyService,
    {
        TypographyService
    }
}

impl Default for TypographyService {
    fn default() -> (service: Self)
        ensures
            service == TypographyService,
    {
        TypographyService
    }
}

} // verus!
