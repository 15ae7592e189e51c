//! A contiguous run of defined bytes anchored at a start address.
use vstd::prelude::*;

verus! {

/// One past the highest address of the 32-bit address space.
pub open spec fn address_limit() -> int {
    0x1_0000_0000
}

/// The mathematical value of a run: its first address and its bytes.
pub struct SectionView {
    pub start: int,
    pub bytes: Seq<u8>,
}

impl SectionView {
    /// The exclusive upper bound of the run.
    pub open spec fn end(self) -> int {
        self.start + self.bytes.len()
    }

    /// A run is never empty and lies inside the address space.
    pub open spec fn wf(self) -> bool {
        &&& 0 <= self.start
        &&& self.bytes.len() >= 1
        &&& self.end() <= address_limit()
    }

    pub open spec fn contains(self, addr: int) -> bool {
        self.start <= addr < self.end()
    }

    /// The byte stored at the absolute address `addr`.
    pub open spec fn byte_at(self, addr: int) -> u8 {
        self.bytes[addr - self.start]
    }

    /// `self` ends exactly where `other` starts.
    pub open spec fn precedes(self, other: SectionView) -> bool {
        self.end() == other.start
    }

    /// The two runs share at least one address.
    pub open spec fn overlaps(self, other: SectionView) -> bool {
        self.start < other.end() && other.start < self.end()
    }

    /// The bytes of `self` followed by those of `other`, starting where `self` starts.
    pub open spec fn joined(self, other: SectionView) -> SectionView {
        SectionView { start: self.start, bytes: self.bytes + other.bytes }
    }

    /// The run with the byte at absolute address `addr` replaced by `value`.
    pub open spec fn with_byte(self, addr: int, value: u8) -> SectionView {
        SectionView { start: self.start, bytes: self.bytes.update(addr - self.start, value) }
    }

    /// The run grown by one byte at its tail.
    pub open spec fn pushed(self, value: u8) -> SectionView {
        SectionView { start: self.start, bytes: self.bytes.push(value) }
    }

    /// The `size` bytes starting at absolute address `addr`.
    pub open spec fn read(self, addr: int, size: int) -> Seq<u8> {
        self.bytes.subrange(addr - self.start, addr - self.start + size)
    }
}

/// The merge of two exactly adjacent runs: the lower run's bytes, then the
/// higher run's, whichever of the two is named first.
pub open spec fn merged(a: SectionView, b: SectionView) -> SectionView {
    if a.precedes(b) {
        a.joined(b)
    } else {
        b.joined(a)
    }
}

/// Merging is symmetric: two exactly adjacent runs merge into the same run in
/// either order, namely the lower run's bytes followed by the higher run's.
pub proof fn lemma_merge_symmetric(a: SectionView, b: SectionView)
    requires
        a.wf(),
        b.wf(),
        a.precedes(b) || b.precedes(a),
    ensures
        merged(a, b) == merged(b, a),
        merged(a, b) == (if a.start < b.start {
            a.joined(b)
        } else {
            b.joined(a)
        }),
{
}

/// Why two runs cannot be merged.
#[derive(Debug, Clone, Copy, PartialEq, Eq, Structural)]
pub enum MergeError {
    /// The runs share at least one address.
    Overlap,
    /// A gap of undefined addresses separates the runs.
    NotContiguous,
}

/// A non-empty run of bytes starting at `start_addr`.
#[derive(Debug, PartialEq, Eq)]
pub struct Section {
    start_addr: u32,
    data: Vec<u8>,
}

impl View for Section {
    type V = SectionView;

    closed spec fn view(&self) -> SectionView {
        SectionView { start: self.start_addr as int, bytes: self.data@ }
    }
}

/// Appends every byte of `src` to `dst`.
fn append_bytes(dst: &mut Vec<u8>, src: &Vec<u8>)
    ensures
        final(dst)@ == old(dst)@ + src@,
{
    let ghost start = dst@;
    let mut i: usize = 0;
    while i < src.len()
        invariant
            i <= src@.len(),
            dst@ == start + src@.subrange(0, i as int),
        decreases src@.len() - i,
    {
        dst.push(src[i]);
        i = i + 1;
        assert(src@.subrange(0, i as int) == src@.subrange(0, i - 1 as int).push(src@[i - 1]));
    }
    assert(src@.subrange(0, src@.len() as int) == src@);
}

impl Section {
    pub fn new(start_addr: u32, data: Vec<u8>) -> (s: Section)
        requires
            data@.len() >= 1,
            start_addr + data@.len() <= address_limit(),
        ensures
            s@ == (SectionView { start: start_addr as int, bytes: data@ }),
            s@.wf(),
    {
        Section { start_addr, data }
    }

    /// Overwrites the byte at the absolute address `addr`, which must lie in the run.
    pub fn write_data(&mut self, addr: u32, value: u8)
        requires
            old(self)@.wf(),
            old(self)@.contains(addr as int),
        ensures
            final(self)@ == old(self)@.with_byte(addr as int, value),
            final(self)@.wf(),
    {
        let offset = (addr - self.start_addr) as usize;
        self.data.set(offset, value);
    }

    /// Grows the run by one byte at its tail.
    pub fn push_data(&mut self, value: u8)
        requires
            old(self)@.wf(),
            old(self)@.end() < address_limit(),
        ensures
            final(self)@ == old(self)@.pushed(value),
            final(self)@.wf(),
    {
        self.data.push(value);
    }

    pub fn len(&self) -> (r: usize)
        ensures
            r == self@.bytes.len(),
    {
        self.data.len()
    }

    pub fn data(&self) -> (r: &Vec<u8>)
        ensures
            r@ == self@.bytes,
    {
        &self.data
    }

    /// The `size` bytes starting at `addr`, if all of them lie in the run.
    pub fn read_bytes(&self, addr: u32, size: usize) -> (r: Option<Vec<u8>>)
        requires
            self@.wf(),
        ensures
            r is Some <==> self@.start <= addr && addr + size <= self@.end(),
            r matches Some(v) ==> v@ == self@.read(addr as int, size as int),
    {
        if addr < self.start_addr {
            return None;
        }
        let offset = (addr - self.start_addr) as usize;
        if offset > self.data.len() || size > self.data.len() - offset {
            return None;
        }
        let mut result: Vec<u8> = Vec::new();
        let mut i: usize = 0;
        while i < size
            invariant
                i <= size,
                offset + size <= self.data.len(),
                result@ == self.data@.subrange(offset as int, offset + i),
            decreases size - i,
        {
            result.push(self.data[offset + i]);
            i = i + 1;
        }
        Some(result)
    }

    pub fn start_addr(&self) -> (r: u32)
        ensures
            r == self@.start,
    {
        self.start_addr
    }

    /// The exclusive upper bound of the run; it may be one past `u32::MAX`.
    pub fn end_addr(&self) -> (r: u64)
        requires
            self@.wf(),
        ensures
            r == self@.end(),
    {
        self.start_addr as u64 + self.data.len() as u64
    }

    /// Absorbs `other` when the two runs are exactly adjacent, in either order.
    /// Returns whether it did; otherwise `self` is left as it was.
    pub fn merge_with(&mut self, other: Section) -> (r: bool)
        requires
            old(self)@.wf(),
            other@.wf(),
        ensures
            r <==> old(self)@.precedes(other@) || other@.precedes(old(self)@),
            r ==> final(self)@ == merged(old(self)@, other@),
            !r ==> final(self)@ == old(self)@,
            final(self)@.wf(),
    {
        match merge_sections(self, &other) {
            Ok(s) => {
                self.start_addr = s.start_addr;
                self.data = s.data;
                true
            },
            Err(_) => false,
        }
    }
}

/// Builds one run out of two exactly adjacent runs, in address order whatever
/// the order of the arguments. Fails with `Overlap` when they share an address
/// and with `NotContiguous` when a gap separates them.
pub fn merge_sections(sec1: &Section, sec2: &Section) -> (r: Result<Section, MergeError>)
    requires
        sec1@.wf(),
        sec2@.wf(),
    ensures
        r is Ok <==> sec1@.precedes(sec2@) || sec2@.precedes(sec1@),
        r matches Ok(s) ==> s@ == merged(sec1@, sec2@) && s@.wf(),
        r == Err::<Section, MergeError>(MergeError::Overlap) <==> sec1@.overlaps(sec2@),
        r == Err::<Section, MergeError>(MergeError::NotContiguous) <==> !sec1@.overlaps(sec2@)
            && !sec1@.precedes(sec2@) && !sec2@.precedes(sec1@),
{
    let end1 = sec1.end_addr();
    let end2 = sec2.end_addr();
    if end1 == sec2.start_addr as u64 {
        let mut data: Vec<u8> = Vec::new();
        append_bytes(&mut data, &sec1.data);
        append_bytes(&mut data, &sec2.data);
        Ok(Section { start_addr: sec1.start_addr, data })
    } else if end2 == sec1.start_addr as u64 {
        let mut data: Vec<u8> = Vec::new();
        append_bytes(&mut data, &sec2.data);
        append_bytes(&mut data, &sec1.data);
        Ok(Section { start_addr: sec2.start_addr, data })
    } else if (sec1.start_addr as u64) < end2 && (sec2.start_addr as u64) < end1 {
        Err(MergeError::Overlap)
    } else {
        Err(MergeError::NotContiguous)
    }
}

} // verus!
