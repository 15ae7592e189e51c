//! The sparse memory image: runs sorted by start address, merged as soon as
//! they touch.
use vstd::prelude::*;
use crate::runs::{
    bytes_map, joined_at, lemma_joined_at, lemma_memory_at, lemma_memory_dom,
    lemma_ordered_insert, lemma_split_point, lemma_total_len_bound, lemma_total_len_counts,
    lemma_written, memory, ordered, readable, separated, split_point, splits_at, total_len,
    written,
};
use crate::section::{address_limit, Section, SectionView};

verus! {

/// Why a write or an undefine was refused.
#[derive(Debug, Clone, Copy, PartialEq, Eq, Structural)]
pub enum SpaceError {
    /// The range would run past the last address of the 32-bit space.
    AddressOverflow,
    /// Undefining bytes has no defined behaviour yet.
    Unimplemented,
}

/// A sparse memory image: the defined bytes, grouped in runs.
pub struct AddressSpace {
    sections: Vec<Section>,
}

impl View for AddressSpace {
    type V = Seq<SectionView>;

    closed spec fn view(&self) -> Seq<SectionView> {
        self.sections@.map_values(|s: Section| s@)
    }
}

impl AddressSpace {
    /// The runs are well formed, sorted and do not overlap.
    pub open spec fn wf(&self) -> bool {
        ordered(self@)
    }

    /// Well formed, and no two runs touch.
    pub open spec fn consolidated(&self) -> bool {
        separated(self@)
    }

    pub fn new() -> (s: Self)
        ensures
            s@ == Seq::<SectionView>::empty(),
            s.consolidated(),
    {
        let s = AddressSpace { sections: Vec::new() };
        assert(s@ =~= Seq::<SectionView>::empty());
        s
    }

    /// An address space holding `sections` as they are, provided they are well
    /// formed, sorted and do not overlap; runs that touch are kept apart until
    /// the next consolidation.
    pub fn from_sections(sections: Vec<Section>) -> (r: Option<Self>)
        ensures
            r is Some <==> ordered(sections@.map_values(|s: Section| s@)),
            r matches Some(s) ==> s@ == sections@.map_values(|s: Section| s@),
    {
        let ghost runs = sections@.map_values(|s: Section| s@);
        let mut i: usize = 0;
        while i < sections.len()
            invariant
                i <= sections@.len(),
                runs == sections@.map_values(|s: Section| s@),
                forall|j: int| 0 <= j < i ==> #[trigger] runs[j].wf(),
                forall|j: int, k: int|
                    #![trigger runs[j], runs[k]]
                    0 <= j < k < i ==> runs[j].end() <= runs[k].start,
            decreases sections@.len() - i,
        {
            let s = &sections[i];
            assert(runs[i as int] == s@);
            if s.len() == 0 || s.len() as u64 > 0x1_0000_0000 - s.start_addr() as u64 {
                assert(!runs[i as int].wf());
                return None;
            }
            assert(runs[i as int].wf());
            if i > 0 {
                assert(runs[i - 1] == sections@[i - 1]@);
                assert(runs[i - 1].wf());
            }
            if i > 0 && sections[i - 1].end_addr() > s.start_addr() as u64 {
                assert(runs[i - 1].end() > runs[i as int].start);
                return None;
            }
            assert forall|j: int| 0 <= j < i implies #[trigger] runs[j].end() <= runs[i as int].start by {
                if j < i - 1 {
                    assert(runs[j].end() <= runs[i - 1].start);
                }
            }
            i = i + 1;
        }
        Some(AddressSpace { sections })
    }

    /// The number of runs that start at or below `addr`.
    fn insertion_point(&self, addr: u32) -> (p: usize)
        requires
            self.wf(),
        ensures
            p == split_point(self@, addr as int),
            splits_at(self@, addr as int, p as int),
    {
        proof {
            lemma_split_point(self@, addr as int);
        }
        let mut lo: usize = 0;
        let mut hi: usize = self.sections.len();
        while lo < hi
            invariant
                lo <= hi <= self@.len(),
                self@.len() == self.sections@.len(),
                ordered(self@),
                forall|j: int| 0 <= j < lo ==> #[trigger] self@[j].start <= addr,
                forall|j: int| hi <= j < self@.len() ==> #[trigger] self@[j].start > addr,
            decreases hi - lo,
        {
            let mid = lo + (hi - lo) / 2;
            let start = self.sections[mid].start_addr();
            assert(self@[mid as int] == self.sections@[mid as int]@);
            if start <= addr {
                assert forall|j: int| 0 <= j <= mid implies #[trigger] self@[j].start <= addr by {
                    if j < mid {
                        assert(self@[j].end() <= self@[mid as int].start);
                        assert(self@[j].wf());
                    }
                }
                lo = mid + 1;
            } else {
                assert forall|j: int| mid <= j < self@.len() implies #[trigger] self@[j].start > addr by {
                    if j > mid {
                        assert(self@[mid as int].end() <= self@[j].start);
                        assert(self@[mid as int].wf());
                    }
                }
                hi = mid;
            }
        }
        assert(splits_at(self@, addr as int, lo as int));
        lo
    }

    /// Replaces run `t` and run `t + 1`, which touch, by their concatenation.
    fn merge_next(&mut self, t: usize)
        requires
            old(self).wf(),
            t + 1 < old(self)@.len(),
            old(self)@[t as int].precedes(old(self)@[t + 1]),
        ensures
            final(self)@ == joined_at(old(self)@, t as int),
            final(self).wf(),
            memory(final(self)@) == memory(old(self)@),
    {
        let ghost before = self@;
        let len = self.sections.len();
        proof {
            lemma_joined_at(before, t as int);
            assert(before[t as int] == self.sections@[t as int]@);
            assert(before[t + 1] == self.sections@[t + 1]@);
            assert(before[t as int].wf() && before[t + 1].wf());
        }
        let next = self.sections.remove(t + 1);
        let merged = self.sections[t].merge_with(next);
        assert(merged);
        assert(self@ =~= joined_at(before, t as int));
    }

    /// Merges every pair of touching runs, so that a gap of undefined bytes
    /// separates any two runs. The defined bytes are unchanged.
    pub fn consolidate(&mut self)
        requires
            old(self).wf(),
        ensures
            final(self).consolidated(),
            memory(final(self)@) == memory(old(self)@),
            old(self).consolidated() ==> final(self)@ == old(self)@,
            final(self)@.len() <= old(self)@.len(),
    {
        let ghost before = self@;
        let mut i: usize = 0;
        let mut len = self.sections.len();
        while i + 1 < len
            invariant
                i < self@.len() || i == 0,
                self@.len() == self.sections@.len(),
                len == self.sections@.len(),
                self@.len() <= before.len(),
                ordered(self@),
                memory(self@) == memory(before),
                separated(before) ==> self@ == before,
                forall|j: int, k: int|
                    #![trigger self@[j], self@[k]]
                    0 <= j < k <= i && k < self@.len() ==> self@[j].end() < self@[k].start,
            decreases self@.len() - i,
        {
            assert(self@[i as int] == self.sections@[i as int]@);
            assert(self@[i + 1] == self.sections@[i + 1]@);
            assert(self@[i as int].wf());
            let end = self.sections[i].end_addr();
            let next_start = self.sections[i + 1].start_addr();
            if end == next_start as u64 {
                let ghost prev = self@;
                proof {
                    lemma_joined_at(prev, i as int);
                }
                self.merge_next(i);
                len = self.sections.len();
            } else {
                proof {
                    assert(self@[i as int].wf());
                    assert forall|j: int| 0 <= j <= i implies #[trigger] self@[j].end()
                        < self@[i + 1].start by {
                        if j < i {
                            assert(self@[j].end() < self@[i as int].start);
                        }
                    }
                }
                i = i + 1;
            }
        }
    }

    /// Writes `data` at `addr`, which is not held by any run but is where run
    /// `p - 1` ends; merges that run with the next one when they then touch.
    fn extend_run(&mut self, p: usize, addr: u32, data: u8)
        requires
            old(self).consolidated(),
            p == split_point(old(self)@, addr as int),
            splits_at(old(self)@, addr as int, p as int),
            p > 0,
            old(self)@[p - 1].end() == addr,
        ensures
            final(self)@ == written(old(self)@, addr as int, data),
            final(self).wf(),
    {
        let ghost before = self@;
        proof {
            assert(before[p - 1] == self.sections@[p - 1]@);
            assert(before[p - 1].wf());
            if p < before.len() {
                assert(before[p as int] == self.sections@[p as int]@);
            }
        }
        let right = p < self.sections.len() && self.sections[p].start_addr() as u64 == addr as u64
            + 1;
        self.sections[p - 1].push_data(data);
        let ghost mid = self@;
        assert(mid =~= before.update(p - 1, before[p - 1].pushed(data)));
        proof {
            assert forall|i: int| 0 <= i < mid.len() implies #[trigger] mid[i].wf() by {
                if i != p - 1 {
                    assert(mid[i] == before[i]);
                }
            }
            assert forall|i: int, j: int| 0 <= i < j < mid.len() implies #[trigger] mid[i].end()
                <= #[trigger] mid[j].start by {
                if j == p - 1 {
                    assert(before[i].end() < before[p - 1].start);
                } else if i == p - 1 {
                    assert(before[p as int].start > addr);
                }
            }
        }
        if right {
            self.merge_next(p - 1);
            assert(self@ =~= written(before, addr as int, data));
        } else {
            assert(self@ =~= written(before, addr as int, data));
        }
    }

    /// Writes `data` at `addr`, which no run holds or ends at: starts a new run
    /// at index `p` and merges it with the next run when they touch.
    fn insert_section(&mut self, p: usize, addr: u32, data: u8)
        requires
            old(self).consolidated(),
            p == split_point(old(self)@, addr as int),
            splits_at(old(self)@, addr as int, p as int),
            !(p > 0 && addr < old(self)@[p - 1].end()),
            !(p > 0 && old(self)@[p - 1].end() == addr),
        ensures
            final(self)@ == written(old(self)@, addr as int, data),
            final(self).wf(),
    {
        let ghost before = self@;
        proof {
            if p < before.len() {
                assert(before[p as int] == self.sections@[p as int]@);
            }
        }
        let right = p < self.sections.len() && self.sections[p].start_addr() as u64 == addr as u64
            + 1;
        let mut bytes: Vec<u8> = Vec::new();
        bytes.push(data);
        assert(bytes@ =~= seq![data]);
        self.sections.insert(p, Section::new(addr, bytes));
        let ghost w = SectionView { start: addr as int, bytes: seq![data] };
        assert(self@ =~= before.insert(p as int, w));
        proof {
            lemma_written(before, addr as int, data);
            if right {
                assert(before[p as int].wf());
                if p > 0 {
                    assert(before[p - 1].wf());
                }
                lemma_ordered_insert(before, p as int, w);
            }
        }
        if right {
            self.merge_next(p);
            assert(seq![data] + before[p as int].bytes =~= w.bytes + before[p as int].bytes);
            assert(self@ =~= written(before, addr as int, data));
        } else {
            assert(self@ =~= written(before, addr as int, data));
        }
    }

    /// Writes `data` at `addr`: overwrites the byte in the run that holds
    /// `addr`, or extends the run that ends there, or starts a new run, and
    /// merges whatever runs the new byte makes touch.
    pub fn update_byte(&mut self, addr: u32, data: u8)
        requires
            old(self).wf(),
        ensures
            final(self).consolidated(),
            memory(final(self)@) == memory(old(self)@).insert(addr as int, data),
            old(self).consolidated() ==> final(self)@ == written(old(self)@, addr as int, data),
    {
        self.consolidate();
        let ghost before = self@;
        let p = self.insertion_point(addr);
        let a = addr as u64;
        proof {
            lemma_written(before, addr as int, data);
            if p > 0 {
                assert(before[p - 1] == self.sections@[p - 1]@);
                assert(before[p - 1].wf());
            }
        }
        if p > 0 && a < self.sections[p - 1].end_addr() {
            self.sections[p - 1].write_data(addr, data);
            assert(self@ =~= written(before, addr as int, data));
        } else if p > 0 && self.sections[p - 1].end_addr() == a {
            self.extend_run(p, addr, data);
        } else {
            self.insert_section(p, addr, data);
        }
    }

    /// Writes `data[i]` at `address + i`, in ascending order of `i`. A range
    /// that would run past the last address is refused before anything is written.
    pub fn update(&mut self, address: u32, data: &Vec<u8>) -> (r: Result<(), SpaceError>)
        requires
            old(self).wf(),
        ensures
            address + data@.len() > address_limit() ==> r == Err::<(), SpaceError>(
                SpaceError::AddressOverflow,
            ) && final(self)@ == old(self)@,
            address + data@.len() <= address_limit() ==> r is Ok && final(self).consolidated()
                && memory(final(self)@) == memory(old(self)@).union_prefer_right(
                bytes_map(address as int, data@),
            ),
    {
        if data.len() as u64 > 0x1_0000_0000 - address as u64 {
            return Err(SpaceError::AddressOverflow);
        }
        self.consolidate();
        let ghost m0 = memory(old(self)@);
        let mut i: usize = 0;
        assert(m0.union_prefer_right(bytes_map(address as int, data@.subrange(0, 0))) =~= m0);
        while i < data.len()
            invariant
                i <= data@.len(),
                address + data@.len() <= address_limit(),
                self.consolidated(),
                memory(self@) == m0.union_prefer_right(
                    bytes_map(address as int, data@.subrange(0, i as int)),
                ),
            decreases data@.len() - i,
        {
            let ghost m = memory(self@);
            self.update_byte(address + i as u32, data[i]);
            assert(m0.union_prefer_right(bytes_map(address as int, data@.subrange(0, i + 1)))
                =~= m.insert(address + i, data@[i as int]));
            i = i + 1;
        }
        assert(data@.subrange(0, data@.len() as int) =~= data@);
        Ok(())
    }

    /// Undefining bytes again is not supported yet: always refused, and the
    /// address space is left as it was.
    pub fn undefine(&mut self, _address: u32, _size: usize) -> (r: Result<(), SpaceError>)
        ensures
            r == Err::<(), SpaceError>(SpaceError::Unimplemented),
            final(self)@ == old(self)@,
    {
        Err(SpaceError::Unimplemented)
    }

    /// The run that holds `addr`, if any.
    fn find_section(&self, addr: u32) -> (r: Option<&Section>)
        requires
            self.wf(),
        ensures
            r is Some <==> memory(self@).contains_key(addr as int),
            r matches Some(s) ==> s@.contains(addr as int) && (exists|i: int|
                0 <= i < self@.len() && self@[i] == s@),
            r matches Some(s) ==> forall|i: int|
                0 <= i < self@.len() && #[trigger] self@[i].contains(addr as int) ==> self@[i] == s@,
    {
        let p = self.insertion_point(addr);
        proof {
            lemma_memory_dom(self@);
            if p > 0 {
                assert(self@[p - 1] == self.sections@[p - 1]@);
                assert(self@[p - 1].wf());
            }
            assert forall|i: int| 0 <= i < self@.len() && #[trigger] self@[i].contains(addr as int)
                implies i == p - 1 by {
                if i < p - 1 {
                    assert(self@[i].end() <= self@[p - 1].start);
                }
            }
            if memory(self@).contains_key(addr as int) {
                let i = choose|i: int| 0 <= i < self@.len() && #[trigger] self@[i].contains(addr as int);
                assert(i == p - 1);
            }
        }
        if p > 0 && (addr as u64) < self.sections[p - 1].end_addr() {
            assert(self@[p - 1].contains(addr as int));
            Some(&self.sections[p - 1])
        } else {
            None
        }
    }

    /// Whether `addr` and the `size - 1` addresses after it are all held by the
    /// one run that holds `addr`.
    pub fn is_defined(&self, address: u32, size: usize) -> (r: bool)
        requires
            self.wf(),
        ensures
            r == readable(self@, address as int, size as int),
    {
        match self.find_section(address) {
            Some(sec) => size as u64 <= sec.end_addr() - address as u64,
            None => {
                proof {
                    lemma_memory_dom(self@);
                }
                false
            },
        }
    }

    /// The byte at `address`, or `None` where it is undefined.
    pub fn read(&self, address: u32) -> (r: Option<u8>)
        requires
            self.wf(),
        ensures
            r == if memory(self@).contains_key(address as int) {
                Some(memory(self@)[address as int])
            } else {
                None::<u8>
            },
    {
        proof {
            lemma_memory_dom(self@);
        }
        match self.read_bytes(address, 1) {
            Some(v) => {
                assert(bytes_map(address as int, v@).dom().contains(address as int));
                Some(v[0])
            },
            None => {
                proof {
                    if memory(self@).contains_key(address as int) {
                        let i = choose|i: int|
                            0 <= i < self@.len() && #[trigger] self@[i].contains(address as int);
                        assert(readable(self@, address as int, 1));
                    }
                }
                None
            },
        }
    }

    /// The `size` bytes starting at `addr`, provided the one run that holds
    /// `addr` holds all of them; `None` otherwise.
    pub fn read_bytes(&self, addr: u32, size: usize) -> (r: Option<Vec<u8>>)
        requires
            self.wf(),
        ensures
            r is Some <==> readable(self@, addr as int, size as int),
            r matches Some(v) ==> v@.len() == size && bytes_map(addr as int, v@).submap_of(
                memory(self@),
            ),
    {
        match self.find_section(addr) {
            Some(sec) => {
                match sec.read_bytes(addr, size) {
                    Some(v) => {
                        proof {
                            let i = choose|i: int| 0 <= i < self@.len() && self@[i] == sec@;
                            assert(v@.len() == size);
                            assert forall|a: int| #[trigger] bytes_map(addr as int, v@).dom().contains(a)
                                implies memory(self@).dom().contains(a) && bytes_map(addr as int, v@)[a]
                                == memory(self@)[a] by {
                                assert(self@[i].contains(a));
                                lemma_memory_at(self@, i, a);
                            }
                        }
                        Some(v)
                    },
                    None => None,
                }
            },
            None => {
                proof {
                    lemma_memory_dom(self@);
                }
                None
            },
        }
    }

    /// The number of defined bytes: the sum of the run lengths, which counts
    /// every defined address once. It can reach 2^32, hence the 64-bit result.
    pub fn size(&self) -> (r: u64)
        requires
            self.wf(),
        ensures
            r == total_len(self@),
            r == memory(self@).dom().len(),
    {
        let mut total: u64 = 0;
        let mut i: usize = 0;
        while i < self.sections.len()
            invariant
                i <= self@.len(),
                self@.len() == self.sections@.len(),
                ordered(self@),
                total == total_len(self@.subrange(0, i as int)),
            decreases self@.len() - i,
        {
            let ghost upto = self@.subrange(0, i + 1);
            proof {
                assert(upto.drop_last() =~= self@.subrange(0, i as int));
                assert(ordered(upto));
                lemma_total_len_bound(upto);
                assert(upto.last() == self.sections@[i as int]@);
                assert(upto.last() == self@[i as int]);
                assert(total_len(upto) == total_len(upto.drop_last()) + upto.last().bytes.len());
                assert(upto.last().wf());
            }
            total = total + self.sections[i].len() as u64;
            i = i + 1;
        }
        proof {
            assert(self@.subrange(0, self@.len() as int) =~= self@);
            lemma_total_len_counts(self@);
        }
        total
    }

    /// The number of runs.
    pub fn segement_count(&self) -> (r: usize)
        ensures
            r == self@.len(),
    {
        self.sections.len()
    }

    /// The run that starts exactly where `sec` ends, if any.
    pub fn find_neighboring_section(&self, sec: &Section) -> (r: Option<&Section>)
        requires
            sec@.wf(),
        ensures
            r is None <==> forall|i: int| 0 <= i < self@.len() ==> #[trigger] self@[i].start != sec@.end(),
            r matches Some(s) ==> s@.start == sec@.end() && exists|i: int|
                0 <= i < self@.len() && self@[i] == s@,
    {
        let end = sec.end_addr();
        let mut i: usize = 0;
        while i < self.sections.len()
            invariant
                i <= self@.len(),
                self@.len() == self.sections@.len(),
                end == sec@.end(),
                forall|j: int| 0 <= j < i ==> #[trigger] self@[j].start != sec@.end(),
            decreases self@.len() - i,
        {
            assert(self@[i as int] == self.sections@[i as int]@);
            if self.sections[i].start_addr() as u64 == end {
                return Some(&self.sections[i]);
            }
            i = i + 1;
        }
        None
    }

    /// Hands the runs out one by one, in ascending order of address.
    pub fn into_iter(self) -> (it: SectionIter)
        requires
            self.wf(),
        ensures
            it@ == self@,
            ordered(it@),
            forall|i: int, j: int|
                #![trigger it@[i], it@[j]]
                0 <= i < j < it@.len() ==> it@[i].start < it@[j].start,
    {
        let ghost runs = self@;
        let mut src = self.sections;
        let mut rest: Vec<Section> = Vec::new();
        while src.len() > 0
            invariant
                src@.len() + rest@.len() == runs.len(),
                forall|k: int| 0 <= k < src@.len() ==> #[trigger] src@[k]@ == runs[k],
                forall|k: int| 0 <= k < rest@.len() ==> #[trigger] rest@[k]@ == runs[runs.len() - 1 - k],
            decreases src@.len(),
        {
            match src.pop() {
                Some(s) => rest.push(s),
                None => {},
            }
        }
        let it = SectionIter { rest };
        assert(it@ =~= runs);
        assert forall|i: int, j: int| #![trigger it@[i], it@[j]] 0 <= i < j < it@.len() implies it@[i].start
            < it@[j].start by {
            assert(runs[i].wf());
            assert(runs[i].end() <= runs[j].start);
        }
        it
    }
}

/// The runs of an address space, handed out in ascending order of address.
pub struct SectionIter {
    rest: Vec<Section>,
}

impl View for SectionIter {
    type V = Seq<SectionView>;

    /// The runs still to come, the next one first.
    closed spec fn view(&self) -> Seq<SectionView> {
        Seq::new(self.rest@.len(), |i: int| self.rest@[self.rest@.len() - 1 - i]@)
    }
}

impl SectionIter {
    /// The next run, or `None` once every run has been handed out.
    pub fn next(&mut self) -> (r: Option<Section>)
        ensures
            old(self)@.len() == 0 ==> r is None && final(self)@ == old(self)@,
            old(self)@.len() > 0 ==> (r matches Some(s) && s@ == old(self)@[0]) && final(self)@
                == old(self)@.drop_first(),
    {
        let ghost before = self@;
        let r = self.rest.pop();
        assert(self@ =~= if before.len() == 0 { before } else { before.drop_first() });
        r
    }
}

} // verus!
