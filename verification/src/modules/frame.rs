use vstd::prelude::*;

verus! {

/// A character map: `rows` x `cols` pixels stored row-major, three bytes per
/// pixel in blue, green, red order.
pub struct CharMap {
    pub rows: usize,
    pub cols: usize,
    pub data: Vec<u8>,
}

impl CharMap {
    /// The buffer holds exactly one BGR triple per pixel, and both dimensions
    /// fit the signed 32-bit fields of the recording format.
    pub open spec fn wf(&self) -> bool {
        &&& self.rows <= i32::MAX
        &&& self.cols <= i32::MAX
        &&& self.data@.len() == self.rows * self.cols * 3
    }

    /// Index of the first (blue) byte of pixel `(y, x)`.
    pub open spec fn offset(&self, y: int, x: int) -> int {
        (y * self.cols + x) * 3
    }

    /// Builds a character map from raw BGR bytes; `None` when the buffer does
    /// not hold exactly `rows * cols` pixels or a dimension exceeds `i32::MAX`.
    pub fn new(rows: usize, cols: usize, data: Vec<u8>) -> (r: Option<CharMap>)
        ensures
            r is Some <==> (rows <= i32::MAX && cols <= i32::MAX && data@.len() == rows * cols * 3),
            r matches Some(m) ==> m.rows == rows && m.cols == cols && m.data@ == data@ && m.wf(),
    {
        let len = data.len();
        if rows > 0x7fff_ffff || cols > 0x7fff_ffff {
            return None;
        }
        match rows.checked_mul(cols) {
            None => {
                assert(rows * cols * 3 > usize::MAX) by (nonlinear_arith)
                    requires rows * cols > usize::MAX;
                None
            },
            Some(pixels) => match pixels.checked_mul(3) {
                None => None,
                Some(total) => {
                    if len == total {
                        Some(CharMap { rows, cols, data })
                    } else {
                        None
                    }
                },
            },
        }
    }
}

} // verus!
