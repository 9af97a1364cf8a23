//! A row-packing allocator for rectangles.
use vstd::prelude::*;

verus! {

/// Places rectangles left to right in rows, with a gutter of one pixel to the
/// right of and below each, so that bilinear filtering mixes no two of them.
#[derive(Clone, Copy, Debug)]
pub struct RowPacker {
    pub width: u32,
    pub height: u32,
    pub cursor_x: u32,
    pub cursor_y: u32,
    pub row_height: u32,
}

impl RowPacker {
    pub open spec fn wf(self) -> bool {
        &&& self.cursor_x <= self.width + 1
        &&& self.cursor_y + self.row_height <= self.height
    }

    /// The packer once it has moved on to the row that a rectangle of width `w`
    /// goes to.
    pub open spec fn at_row_for(self, w: int) -> RowPacker {
        if self.cursor_x + w + 1 > self.width {
            RowPacker {
                cursor_x: 0,
                cursor_y: (self.cursor_y + self.row_height) as u32,
                row_height: 0,
                ..self
            }
        } else {
            self
        }
    }

    /// Whether a rectangle can lie in the packer at all, wherever the cursor is.
    pub open spec fn admits(self, w: int, h: int) -> bool {
        w != 0 && h != 0 && w <= self.width
    }

    /// Whether a rectangle is placed.
    pub open spec fn places(self, w: int, h: int) -> bool {
        self.admits(w, h) && self.at_row_for(w).cursor_y + h + 1 <= self.height
    }

    /// Where it is placed.
    pub open spec fn spot(self, w: int) -> (int, int) {
        let row = self.at_row_for(w);
        (row.cursor_x as int, row.cursor_y as int)
    }

    /// The packer after the request. A rectangle that is too high for what is
    /// left may still have ended the row.
    pub open spec fn after(self, w: int, h: int) -> RowPacker {
        if !self.admits(w, h) {
            self
        } else if !self.places(w, h) {
            self.at_row_for(w)
        } else {
            let row = self.at_row_for(w);
            RowPacker {
                cursor_x: (row.cursor_x + w + 1) as u32,
                row_height: if row.row_height < h + 1 { (h + 1) as u32 } else { row.row_height },
                ..row
            }
        }
    }

    /// An empty packer.
    pub open spec fn empty(width: u32, height: u32) -> RowPacker {
        RowPacker { width, height, cursor_x: 0, cursor_y: 0, row_height: 0 }
    }

    /// An empty packer of the given size.
    pub fn new(width: u32, height: u32) -> (r: RowPacker)
        ensures
            r == RowPacker::empty(width, height),
    {
        RowPacker { width, height, cursor_x: 0, cursor_y: 0, row_height: 0 }
    }

    /// Places a rectangle, or reports that there is no room for it.
    pub fn allocate(&mut self, w: u32, h: u32) -> (r: Option<(u16, u16)>)
        requires
            old(self).wf(),
            w < u32::MAX,
            h < u32::MAX,
        ensures
            final(self).wf(),
            *final(self) == old(self).after(w as int, h as int),
            r.is_some() <==> old(self).places(w as int, h as int),
            r is Some ==> {
                let (x, y) = old(self).spot(w as int);
                (r->0).0 == x % 0x1_0000 && (r->0).1 == y % 0x1_0000
            },
    {
        if w == 0 || h == 0 || w > self.width {
            return None;
        }
        let padded_w: u32 = w + 1;
        let padded_h: u32 = h + 1;
        if self.cursor_x as u64 + padded_w as u64 > self.width as u64 {
            self.cursor_y = self.cursor_y + self.row_height;
            self.cursor_x = 0;
            self.row_height = 0;
        }
        if self.cursor_y as u64 + padded_h as u64 > self.height as u64 {
            return None;
        }
        let x: u16 = (self.cursor_x % 0x1_0000) as u16;
        let y: u16 = (self.cursor_y % 0x1_0000) as u16;
        self.cursor_x = self.cursor_x + padded_w;
        if self.row_height < padded_h {
            self.row_height = padded_h;
        }
        Some((x, y))
    }

    /// Forgets every rectangle and takes a new size.
    pub fn reset(&mut self, width: u32, height: u32)
        ensures
            *final(self) == RowPacker::empty(width, height),
    {
        self.width = width;
        self.height = height;
        self.cursor_x = 0;
        self.cursor_y = 0;
        self.row_height = 0;
    }
}

/// The packer after the first `n` requests.
pub open spec fn after_requests(p: RowPacker, requests: Seq<(int, int)>, n: int) -> RowPacker
    decreases n,
{
    if n <= 0 {
        p
    } else {
        let (w, h) = requests[n - 1];
        after_requests(p, requests, n - 1).after(w, h)
    }
}

/// Whether request `i` is granted.
pub open spec fn granted(p: RowPacker, requests: Seq<(int, int)>, i: int) -> bool {
    let (w, h) = requests[i];
    after_requests(p, requests, i).places(w, h)
}

/// Where the rectangle of request `i` lies.
pub open spec fn spot_of(p: RowPacker, requests: Seq<(int, int)>, i: int) -> (int, int) {
    after_requests(p, requests, i).spot(requests[i].0)
}

/// Requests that a packer can be asked.
pub open spec fn askable(requests: Seq<(int, int)>) -> bool {
    forall|i: int|
        0 <= i < requests.len() ==> 0 <= (#[trigger] requests[i]).0 < u32::MAX && 0 <= requests[i].1 < u32::MAX
}

/// The rectangle and its gutter lie behind the cursor.
spec fn behind(q: RowPacker, x: int, y: int, w: int, h: int) -> bool {
    ||| y + h + 1 <= q.cursor_y
    ||| y == q.cursor_y && x + w + 1 <= q.cursor_x && h + 1 <= q.row_height
}

proof fn lemma_state_is_wf(p: RowPacker, requests: Seq<(int, int)>, n: int)
    requires
        p.wf(),
        askable(requests),
        0 <= n <= requests.len(),
    ensures
        after_requests(p, requests, n).wf(),
        after_requests(p, requests, n).width == p.width,
        after_requests(p, requests, n).height == p.height,
    decreases n,
{
    if n > 0 {
        lemma_state_is_wf(p, requests, n - 1);
        let r = requests[n - 1];
    }
}

proof fn lemma_stays_behind(p: RowPacker, requests: Seq<(int, int)>, i: int, n: int)
    requires
        p.wf(),
        askable(requests),
        0 <= i < n <= requests.len(),
        granted(p, requests, i),
    ensures
        ({
            let (x, y) = spot_of(p, requests, i);
            behind(after_requests(p, requests, n), x, y, requests[i].0, requests[i].1)
        }),
    decreases n,
{
    lemma_state_is_wf(p, requests, n - 1);
    lemma_state_is_wf(p, requests, n);
    let last = requests[n - 1];
    let this = requests[i];
    if i < n - 1 {
        lemma_stays_behind(p, requests, i, n - 1);
    }
}

/// Two granted rectangles never overlap: a later one starts to the right of or
/// below an earlier one, past its gutter, and each lies inside the packer.
pub proof fn law_rectangles_are_disjoint(p: RowPacker, requests: Seq<(int, int)>, i: int, j: int)
    requires
        p.wf(),
        askable(requests),
        0 <= i < j < requests.len(),
        granted(p, requests, i),
        granted(p, requests, j),
    ensures
        ({
            let (x1, y1) = spot_of(p, requests, i);
            let (x2, y2) = spot_of(p, requests, j);
            let (w1, h1) = requests[i];
            let (w2, h2) = requests[j];
            &&& x1 + w1 + 1 <= x2 || y1 + h1 + 1 <= y2
            &&& 0 <= x1 && x1 + w1 <= p.width && 0 <= y1 && y1 + h1 + 1 <= p.height
            &&& 0 <= x2 && x2 + w2 <= p.width && 0 <= y2 && y2 + h2 + 1 <= p.height
        }),
{
    lemma_state_is_wf(p, requests, i);
    lemma_state_is_wf(p, requests, j);
    lemma_stays_behind(p, requests, i, j);
    let this = requests[i];
    let that = requests[j];
}

}
