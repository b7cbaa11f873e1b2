use vstd::prelude::*;

verus! {

/// Counts of inbound links for one page, split into links that name the page
/// directly and links that reach it through a redirect.
///
/// Field-wise sums saturate at the `u32` range; dumps in the wild stay far
/// below it.
#[derive(Clone, Copy, Debug)]
pub struct LinkCount {
    pub direct: u32,
    pub indirect: u32,
}

/// `a + b`, saturating at the `u32` range.
pub open spec fn sat_add(a: int, b: int) -> int {
    if a + b <= u32::MAX {
        a + b
    } else {
        u32::MAX as int
    }
}

impl LinkCount {
    /// Total inbound links, saturating at the `u32` range.
    pub open spec fn spec_total(self) -> int {
        sat_add(self.direct as int, self.indirect as int)
    }

    pub fn new(direct: u32, indirect: u32) -> (r: Self)
        ensures
            r.direct == direct,
            r.indirect == indirect,
    {
        Self { direct, indirect }
    }

    pub fn total(self) -> (r: u32)
        ensures
            r == self.spec_total(),
    {
        if self.direct <= u32::MAX - self.indirect {
            self.direct + self.indirect
        } else {
            u32::MAX
        }
    }

    /// Field-wise saturating accumulation of another count into this one.
    pub fn add_assign(&mut self, other: LinkCount)
        ensures
            final(self).direct == sat_add(old(self).direct as int, other.direct as int),
            final(self).indirect == sat_add(old(self).indirect as int, other.indirect as int),
    {
        self.direct = if self.direct <= u32::MAX - other.direct {
            self.direct + other.direct
        } else {
            u32::MAX
        };
        self.indirect = if self.indirect <= u32::MAX - other.indirect {
            self.indirect + other.indirect
        } else {
            u32::MAX
        };
    }
}

} // verus!
