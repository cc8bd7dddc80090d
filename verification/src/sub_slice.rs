//! Buffers that are leased in part.
use vstd::prelude::*;

verus! {

/// A buffer of which a part is active.
pub struct SubSlice {
    pub data: Vec<u8>,
    pub start: usize,
    pub end: usize,
}

/// A buffer of which a part is active, by contents.
#[verifier::ext_equal]
pub struct SubSliceView {
    pub data: Seq<u8>,
    pub start: int,
    pub end: int,
}

impl SubSliceView {
    /// The active part.
    pub open spec fn active(self) -> Seq<u8> {
        self.data.subrange(self.start, self.end)
    }

    /// The active part lies in the buffer.
    pub open spec fn wf(self) -> bool {
        0 <= self.start <= self.end <= self.data.len() <= usize::MAX
    }

    /// The whole buffer active.
    pub open spec fn whole(self) -> SubSliceView {
        SubSliceView { data: self.data, start: 0, end: self.data.len() as int }
    }

    /// The first `len` active bytes active.
    pub open spec fn keeping(self, len: int) -> SubSliceView {
        SubSliceView { end: self.start + len, ..self }
    }

    /// All but the first `len` active bytes active.
    pub open spec fn dropping(self, len: int) -> SubSliceView {
        SubSliceView { start: self.start + len, ..self }
    }
}

impl View for SubSlice {
    type V = SubSliceView;

    open spec fn view(&self) -> SubSliceView {
        SubSliceView { data: self.data@, start: self.start as int, end: self.end as int }
    }
}

impl SubSlice {
    /// A buffer, all of it active.
    pub fn new(data: Vec<u8>) -> (slice: Self)
        ensures
            slice@.wf(),
            slice@.data == data@,
            slice@ == slice@.whole(),
    {
        let end: usize = data.len();
        SubSlice { data, start: 0, end }
    }

    /// Makes all of the buffer active.
    pub fn reset(&mut self)
        ensures
            final(self)@.wf(),
            final(self)@ == old(self)@.whole(),
    {
        let end: usize = self.data.len();
        self.start = 0;
        self.end = end;
    }

    /// How many bytes are active.
    pub fn len(&self) -> (len: usize)
        requires
            self@.wf(),
        ensures
            len == self@.active().len(),
    {
        self.end - self.start
    }

    /// Makes the first `len` active bytes active.
    pub fn keep(&mut self, len: usize)
        requires
            old(self)@.wf(),
            len <= old(self)@.active().len(),
        ensures
            final(self)@.wf(),
            final(self)@ == old(self)@.keeping(len as int),
    {
        self.end = self.start + len;
    }

    /// Makes all but the first `len` active bytes active.
    pub fn skip(&mut self, len: usize)
        requires
            old(self)@.wf(),
            len <= old(self)@.active().len(),
        ensures
            final(self)@.wf(),
            final(self)@ == old(self)@.dropping(len as int),
    {
        self.start = self.start + len;
    }
}

} // verus!
