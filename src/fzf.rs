use vstd::prelude::*;

verus! {

/// How letter case is treated when a pattern is compared with a line.
#[derive(Clone, Copy, Debug, PartialEq, Eq, Structural)]
pub enum CaseMode {
    /// Ignore case unless the pattern holds an upper-case letter.
    Smart,
    Ignore,
    Respect,
}

/// The sizes of the scorer's scratch memory, which one session acquires once
/// and reuses for every request.
pub struct Slab {
    pub size_16: usize,
    pub size_32: usize,
}

impl Slab {
    pub fn new(size_16: usize, size_32: usize) -> (r: Self)
        ensures
            r.size_16 == size_16,
            r.size_32 == size_32,
    {
        Slab { size_16, size_32 }
    }
}

impl Default for Slab {
    /// The scorer's default scratch sizes.
    fn default() -> (r: Self)
        ensures
            r.size_16 == 100 * 1024,
            r.size_32 == 2048,
    {
        Slab { size_16: 100 * 1024, size_32: 2048 }
    }
}

/// What the scorer is asked to match for one request: the pattern text, the
/// case policy and whether gaps between matched characters are allowed.
pub struct Pattern {
    pub text: String,
    pub case_mode: CaseMode,
    pub fuzzy: bool,
}

impl Pattern {
    pub fn new(pattern: &str, case_mode: CaseMode, fuzzy: bool) -> (r: Self)
        ensures
            r.text@ == pattern@,
            r.case_mode == case_mode,
            r.fuzzy == fuzzy,
    {
        Pattern { text: pattern.to_owned(), case_mode, fuzzy }
    }
}

/// Positions of the characters of a line that the scorer matched.
pub struct Positions {
    pub data: Vec<u32>,
}

impl Positions {
    pub fn as_slice(&self) -> (r: &[u32])
        ensures
            r@ == self.data@,
    {
        self.data.as_slice()
    }
}

} // verus!
