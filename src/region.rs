use vstd::prelude::*;

verus! {

/// An executable memory region of the process.
#[derive(Debug, Clone, Hash)]
pub struct Region {
    /// first address of the region
    pub start: usize,
    /// last address of the region + 1
    pub end: usize,
    /// where the code comes from (usually a path)
    pub source: String,
}

/// The mathematical value of a [`Region`].
pub struct RegionView {
    pub start: int,
    pub end: int,
    pub source: Seq<char>,
}

impl View for Region {
    type V = RegionView;

    open spec fn view(&self) -> RegionView {
        RegionView { start: self.start as int, end: self.end as int, source: self.source@ }
    }
}

impl RegionView {
    /// Number of bytes the region covers.
    pub open spec fn size(self) -> int {
        self.end - self.start
    }
}

impl Region {
    /// A copy of the region.
    pub fn duplicate(&self) -> (r: Region)
        ensures
            r@ == self@,
    {
        Region { start: self.start, end: self.end, source: self.source.clone() }
    }

    /// Whether two regions have the same bounds and source.
    pub fn same(&self, other: &Region) -> (r: bool)
        ensures
            r == (self@ == other@),
    {
        self.start == other.start && self.end == other.end && self.source == other.source
    }
}

impl PartialEq for Region {
    fn eq(&self, other: &Region) -> (r: bool) {
        self.same(other)
    }
}

impl vstd::std_specs::cmp::PartialEqSpecImpl for Region {
    open spec fn obeys_eq_spec() -> bool {
        true
    }

    open spec fn eq_spec(&self, other: &Region) -> bool {
        self@ == other@
    }
}

impl Eq for Region {
}

} // verus!
