use vstd::prelude::*;

verus! {

/// A half-open, line-aligned byte interval `[start, end)` of a source.
pub struct LineRange {
    pub start: u64,
    pub end: u64,
}

/// The ranges exactly tile `[0, upto)`: in order, adjacent, starting at 0
/// and ending at `upto`, with no gaps and no overlaps.
pub open spec fn tiles(ranges: Seq<LineRange>, upto: int) -> bool {
    &&& forall|i: int| 0 <= i < ranges.len() ==> (#[trigger] ranges[i]).start <= ranges[i].end
    &&& forall|i: int| 0 < i < ranges.len() ==> (#[trigger] ranges[i]).start == ranges[i - 1].end
    &&& (ranges.len() > 0 ==> ranges[0].start == 0 && ranges[ranges.len() - 1].end == upto)
    &&& (ranges.len() == 0 ==> upto == 0)
}

/// Plans near-equal, line-aligned chunks of a seekable byte source of known
/// length, without reading the whole source. The caller alternates `step`
/// with, when asked, scanning the source forward from the tentative chunk
/// end to just past the next line terminator (or to the end if none
/// remains) and handing that position to `resume`.
pub struct LineChunker {
    pub length: u64,
    pub split_size: u64,
    pub pos: u64,
    pub ranges: Vec<LineRange>,
    pub done: bool,
}

/// What the planner asks of the caller next.
pub enum ChunkStep {
    /// The plan is complete.
    Finished,
    /// Scan forward from `from` to just past the next line terminator and
    /// report the position reached to `resume`.
    Scan { from: u64 },
}

impl LineChunker {
    pub open spec fn wf(self) -> bool {
        &&& self.split_size >= 1
        &&& self.pos <= self.length
        &&& tiles(self.ranges@, self.pos as int)
        &&& (self.done ==> self.pos == self.length)
    }

    /// The next chunk's tentative end: one `split_size` further, clamped to
    /// the source length.
    pub open spec fn tentative(self) -> int {
        if self.pos + self.split_size <= self.length {
            self.pos + self.split_size
        } else {
            self.length as int
        }
    }

    pub fn new(length: u64, split_size: u64) -> (c: LineChunker)
        requires
            split_size >= 1,
        ensures
            c.wf(),
            c.length == length,
            c.split_size == split_size,
            c.pos == 0,
            c.ranges@.len() == 0,
            !c.done,
    {
        LineChunker { length, split_size, pos: 0, ranges: Vec::new(), done: false }
    }

    /// Advances the plan: when the tentative end already reaches the source
    /// length it emits the final range and finishes, and the emitted ranges
    /// exactly tile `[0, length)`; otherwise it asks for a forward scan. In
    /// particular, on a fresh plan with `split_size >= length` a single
    /// `step` finishes with the one range `[0, length)`.
    pub fn step(&mut self) -> (r: ChunkStep)
        requires
            old(self).wf(),
            !old(self).done,
        ensures
            final(self).wf(),
            final(self).length == old(self).length,
            final(self).split_size == old(self).split_size,
            if old(self).tentative() == old(self).length {
                &&& r is Finished
                &&& final(self).done
                &&& final(self).ranges@ == old(self).ranges@.push(
                    (LineRange { start: old(self).pos, end: old(self).length }),
                )
                &&& tiles(final(self).ranges@, old(self).length as int)
            } else {
                &&& (r matches ChunkStep::Scan { from: f } && f as int == old(self).tentative())
                &&& *final(self) == *old(self)
            },
    {
        let tentative: u64 = if self.length - self.pos <= self.split_size {
            self.length
        } else {
            self.pos + self.split_size
        };
        if tentative == self.length {
            let ghost pre = self.ranges@;
            self.ranges.push(LineRange { start: self.pos, end: self.length });
            self.pos = self.length;
            self.done = true;
            proof {
                assert(self.ranges@ == pre.push(
                    (LineRange { start: old(self).pos, end: old(self).length }),
                ));
                assert forall|i: int|
                    0 < i < self.ranges@.len() implies (#[trigger] self.ranges@[i]).start
                    == self.ranges@[i - 1].end by {
                    if i < pre.len() {
                        assert(self.ranges@[i] == pre[i]);
                    }
                }
            }
            ChunkStep::Finished
        } else {
            ChunkStep::Scan { from: tentative }
        }
    }

    /// Closes the pending chunk at the scanned line boundary `line_end` and
    /// continues the plan from there.
    pub fn resume(&mut self, line_end: u64)
        requires
            old(self).wf(),
            !old(self).done,
            old(self).tentative() < old(self).length,
            old(self).tentative() < line_end <= old(self).length,
        ensures
            final(self).wf(),
            !final(self).done,
            final(self).length == old(self).length,
            final(self).split_size == old(self).split_size,
            final(self).pos == line_end,
            final(self).ranges@ == old(self).ranges@.push(
                (LineRange { start: old(self).pos, end: line_end }),
            ),
    {
        let ghost pre = self.ranges@;
        self.ranges.push(LineRange { start: self.pos, end: line_end });
        self.pos = line_end;
        proof {
            assert forall|i: int|
                0 < i < self.ranges@.len() implies (#[trigger] self.ranges@[i]).start
                == self.ranges@[i - 1].end by {
                if i < pre.len() {
                    assert(self.ranges@[i] == pre[i]);
                }
            }
        }
    }

    /// The position just past the first line terminator at or after `from`,
    /// or the end of the data if none remains.
    fn scan_line_end(data: &Vec<u8>, from: usize) -> (p: usize)
        requires
            from <= data@.len(),
        ensures
            from <= p <= data@.len(),
            from < data@.len() ==> p > from,
            p == data@.len() || data@[p as int - 1] == 10,
    {
        let mut q: usize = from;
        while q < data.len()
            invariant
                from <= q <= data@.len(),
            decreases data@.len() - q,
        {
            if data[q] == 10 {
                return q + 1;
            }
            q = q + 1;
        }
        data.len()
    }

    /// Splits an in-memory byte source into near-equal, line-aligned
    /// chunks: the ranges exactly tile `[0, len)` and every chunk boundary
    /// lies just past a line terminator or at the end of the data.
    pub fn split_slice(data: &Vec<u8>, split_size: u64) -> (ranges: Vec<LineRange>)
        requires
            split_size >= 1,
            data@.len() <= u64::MAX,
        ensures
            tiles(ranges@, data@.len() as int),
            forall|i: int|
                0 <= i < ranges@.len() ==> (#[trigger] ranges@[i]).end == data@.len()
                    || data@[ranges@[i].end as int - 1] == 10,
    {
        let length: u64 = data.len() as u64;
        let mut chunker = LineChunker::new(length, split_size);
        let mut finished: bool = false;
        while !finished
            invariant
                chunker.wf(),
                chunker.length == data@.len(),
                chunker.split_size == split_size,
                split_size >= 1,
                data@.len() <= u64::MAX,
                data@.len() <= usize::MAX,
                finished == chunker.done,
                forall|i: int|
                    0 <= i < chunker.ranges@.len() ==> (#[trigger] chunker.ranges@[i]).end
                        == data@.len() || data@[chunker.ranges@[i].end as int - 1] == 10,
            decreases (data@.len() - chunker.pos) + if finished {
                0int
            } else {
                1int
            },
        {
            match chunker.step() {
                ChunkStep::Finished => {
                    finished = true;
                },
                ChunkStep::Scan { from } => {
                    proof {
                        assert(chunker.tentative() == from as int);
                        assert(chunker.tentative() < chunker.length);
                        assert(from < data@.len());
                    }
                    let p = Self::scan_line_end(data, from as usize);
                    proof {
                        assert(p as int > from as int);
                    }
                    chunker.resume(p as u64);
                },
            }
        }
        chunker.into_ranges()
    }

    /// Hands out the finished plan: ranges that exactly tile `[0, length)`.
    pub fn into_ranges(self) -> (r: Vec<LineRange>)
        requires
            self.wf(),
            self.done,
        ensures
            r@ == self.ranges@,
            tiles(r@, self.length as int),
    {
        self.ranges
    }
}

} // verus!
