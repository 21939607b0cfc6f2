//! The zoom level of a rendering: a rational factor `num / denum` that is
//! always `k/1` or `1/k`. Zooming in first shrinks the denominator back to
//! one, then grows the numerator; zooming out mirrors that.

use vstd::prelude::*;

verus! {

#[derive(Debug, Copy, Clone, PartialEq, Eq, Structural, PartialOrd, Ord, Hash)]
pub struct ZoomLevel {
    pub num: u8,
    pub denum: u8,
}

impl ZoomLevel {
    /// A zoom level is a whole factor or a whole fraction of one.
    pub open spec fn wf(&self) -> bool {
        self.num >= 1 && self.denum >= 1 && (self.num == 1 || self.denum == 1)
    }

    pub fn zoom_in(self) -> (r: ZoomLevel)
        requires
            self.wf(),
            self.denum == 1 ==> self.num < 255,
        ensures
            r == (if self.denum == 1 {
                ZoomLevel { num: (self.num + 1) as u8, denum: self.denum }
            } else {
                ZoomLevel { num: self.num, denum: (self.denum - 1) as u8 }
            }),
            r.wf(),
    {
        if self.denum == 1 {
            ZoomLevel { num: self.num + 1, denum: self.denum }
        } else {
            ZoomLevel { num: self.num, denum: self.denum - 1 }
        }
    }

    pub fn zoom_out(self) -> (r: ZoomLevel)
        requires
            self.wf(),
            self.num == 1 ==> self.denum < 255,
        ensures
            r == (if self.num == 1 {
                ZoomLevel { num: self.num, denum: (self.denum + 1) as u8 }
            } else {
                ZoomLevel { num: (self.num - 1) as u8, denum: self.denum }
            }),
            r.wf(),
    {
        if self.num == 1 {
            ZoomLevel { num: self.num, denum: self.denum + 1 }
        } else {
            ZoomLevel { num: self.num - 1, denum: self.denum }
        }
    }
}

impl Default for ZoomLevel {
    /// The neutral zoom: factor one.
    fn default() -> (r: ZoomLevel)
        ensures
            r == (ZoomLevel { num: 1u8, denum: 1u8 }),
            r.wf(),
    {
        ZoomLevel { num: 1, denum: 1 }
    }
}

} // verus!
