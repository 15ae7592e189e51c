//! The mathematical model of a memory image: a sequence of runs, and the
//! partial map from addresses to bytes that the runs define.
use vstd::prelude::*;
use vstd::set_lib::{lemma_int_range, lemma_set_disjoint_lens, set_int_range};
use crate::section::{address_limit, SectionView};

verus! {

/// Every run is well formed and ends at or before the start of every later run.
pub open spec fn ordered(runs: Seq<SectionView>) -> bool {
    &&& forall|i: int| 0 <= i < runs.len() ==> #[trigger] runs[i].wf()
    &&& forall|i: int, j: int|
        #![trigger runs[i], runs[j]]
        0 <= i < j < runs.len() ==> runs[i].end() <= runs[j].start
}

/// Ordered, with at least one undefined address between any two runs: runs
/// that touch have been merged into one.
pub open spec fn separated(runs: Seq<SectionView>) -> bool {
    &&& ordered(runs)
    &&& forall|i: int, j: int|
        #![trigger runs[i], runs[j]]
        0 <= i < j < runs.len() ==> runs[i].end() < runs[j].start
}

/// The bytes that one run defines, by address.
pub open spec fn run_map(run: SectionView) -> Map<int, u8> {
    Map::new(|a: int| run.contains(a), |a: int| run.byte_at(a))
}

/// The bytes that a sequence of runs defines, by address.
pub open spec fn memory(runs: Seq<SectionView>) -> Map<int, u8>
    decreases runs.len(),
{
    if runs.len() == 0 {
        Map::empty()
    } else {
        memory(runs.drop_last()).union_prefer_right(run_map(runs.last()))
    }
}

/// Some run holds `addr` and the `size - 1` addresses after it.
pub open spec fn readable(runs: Seq<SectionView>, addr: int, size: int) -> bool {
    exists|i: int| 0 <= i < runs.len() && #[trigger] runs[i].contains(addr) && addr + size <= runs[i].end()
}

/// The number of bytes held by all runs together.
pub open spec fn total_len(runs: Seq<SectionView>) -> int
    decreases runs.len(),
{
    if runs.len() == 0 {
        0
    } else {
        total_len(runs.drop_last()) + runs.last().bytes.len()
    }
}

/// The bytes of `bytes` placed at `addr`, `addr + 1`, ...
pub open spec fn bytes_map(addr: int, bytes: Seq<u8>) -> Map<int, u8> {
    Map::new(|a: int| addr <= a < addr + bytes.len(), |a: int| bytes[a - addr])
}

pub proof fn lemma_memory_concat(a: Seq<SectionView>, b: Seq<SectionView>)
    ensures
        memory(a + b) == memory(a).union_prefer_right(memory(b)),
    decreases b.len(),
{
    if b.len() == 0 {
        assert(a + b =~= a);
        assert(memory(a).union_prefer_right(memory(b)) =~= memory(a));
    } else {
        lemma_memory_concat(a, b.drop_last());
        assert((a + b).drop_last() =~= a + b.drop_last());
        assert((a + b).last() == b.last());
        assert(memory(a + b) =~= memory(a).union_prefer_right(memory(b)));
    }
}

pub proof fn lemma_memory_single(x: SectionView)
    ensures
        memory(seq![x]) == run_map(x),
{
    let s = seq![x];
    assert(s.drop_last() =~= Seq::<SectionView>::empty());
    assert(memory(s.drop_last()) == Map::<int, u8>::empty());
    assert(s.last() == x);
    assert(memory(s) =~= run_map(x));
}

/// An address is defined exactly when some run holds it.
pub proof fn lemma_memory_dom(runs: Seq<SectionView>)
    ensures
        forall|a: int|
            #[trigger] memory(runs).contains_key(a) <==> exists|i: int|
                0 <= i < runs.len() && #[trigger] runs[i].contains(a),
    decreases runs.len(),
{
    if runs.len() > 0 {
        let rest = runs.drop_last();
        lemma_memory_dom(rest);
        assert forall|a: int| #[trigger] memory(runs).contains_key(a) implies exists|i: int|
            0 <= i < runs.len() && #[trigger] runs[i].contains(a) by {
            if !runs.last().contains(a) {
                assert(memory(rest).contains_key(a));
                let i = choose|i: int| 0 <= i < rest.len() && #[trigger] rest[i].contains(a);
                assert(runs[i] == rest[i]);
            }
        }
        assert forall|a: int| (exists|i: int| 0 <= i < runs.len() && #[trigger] runs[i].contains(a))
            implies #[trigger] memory(runs).contains_key(a) by {
            let i = choose|i: int| 0 <= i < runs.len() && #[trigger] runs[i].contains(a);
            if i < runs.len() - 1 {
                assert(rest[i] == runs[i]);
                assert(rest[i].contains(a));
                assert(memory(rest).contains_key(a));
            } else {
                assert(run_map(runs.last()).contains_key(a));
            }
        }
    }
}

/// Where one run holds `addr`, that run's byte is the byte of the image.
pub proof fn lemma_memory_at(runs: Seq<SectionView>, i: int, a: int)
    requires
        ordered(runs),
        0 <= i < runs.len(),
        runs[i].contains(a),
    ensures
        memory(runs).contains_key(a),
        memory(runs)[a] == runs[i].byte_at(a),
    decreases runs.len(),
{
    let rest = runs.drop_last();
    if i < runs.len() - 1 {
        assert(rest[i] == runs[i]);
        assert(ordered(rest));
        lemma_memory_at(rest, i, a);
        assert(!runs.last().contains(a)) by {
            assert(runs[i].end() <= runs[runs.len() - 1].start);
        }
    }
}

/// No address at or above `bound` is defined by runs that all end by `bound`,
/// and none below `bound` by runs that all start at or after it.
pub proof fn lemma_memory_bounds(runs: Seq<SectionView>, bound: int)
    ensures
        (forall|i: int| 0 <= i < runs.len() ==> #[trigger] runs[i].end() <= bound) ==> forall|a: int|
            #[trigger] memory(runs).contains_key(a) ==> a < bound,
        (forall|i: int| 0 <= i < runs.len() ==> #[trigger] runs[i].start >= bound) ==> forall|a: int|
            #[trigger] memory(runs).contains_key(a) ==> a >= bound,
{
    lemma_memory_dom(runs);
}

/// The image of the runs split around run `k`: the runs before it, then run
/// `k`, then the runs after it, each later one taking precedence.
pub proof fn lemma_memory_around(runs: Seq<SectionView>, k: int)
    requires
        0 <= k < runs.len(),
    ensures
        memory(runs) == memory(runs.subrange(0, k)).union_prefer_right(run_map(runs[k])).union_prefer_right(
            memory(runs.subrange(k + 1, runs.len() as int)),
        ),
{
    let pre = runs.subrange(0, k);
    let suf = runs.subrange(k + 1, runs.len() as int);
    assert(runs =~= pre + seq![runs[k]] + suf);
    lemma_memory_concat(pre + seq![runs[k]], suf);
    lemma_memory_concat(pre, seq![runs[k]]);
    lemma_memory_single(runs[k]);
}

/// The number of runs whose start is at or below `addr`: in ordered runs, the
/// index at which a run starting just above `addr` would be inserted.
pub open spec fn split_point(runs: Seq<SectionView>, addr: int) -> int
    decreases runs.len(),
{
    if runs.len() == 0 {
        0
    } else if runs.last().start <= addr {
        runs.len() as int
    } else {
        split_point(runs.drop_last(), addr)
    }
}

/// `p` divides the runs into those starting at or below `addr` and those starting above it.
pub open spec fn splits_at(runs: Seq<SectionView>, addr: int, p: int) -> bool {
    &&& 0 <= p <= runs.len()
    &&& forall|j: int| 0 <= j < p ==> #[trigger] runs[j].start <= addr
    &&& forall|j: int| p <= j < runs.len() ==> #[trigger] runs[j].start > addr
}

pub proof fn lemma_split_point(runs: Seq<SectionView>, addr: int)
    requires
        ordered(runs),
    ensures
        splits_at(runs, addr, split_point(runs, addr)),
        forall|q: int| splits_at(runs, addr, q) ==> q == split_point(runs, addr),
    decreases runs.len(),
{
    if runs.len() > 0 {
        let n = runs.len() as int;
        let rest = runs.drop_last();
        assert(ordered(rest));
        lemma_split_point(rest, addr);
        assert forall|j: int| 0 <= j < n - 1 implies #[trigger] runs[j].start < runs[n - 1].start by {
            assert(runs[j].wf());
            assert(runs[j].end() <= runs[n - 1].start);
        }
        let p = split_point(runs, addr);
        if runs.last().start > addr {
            assert forall|j: int| 0 <= j < p implies #[trigger] runs[j].start <= addr by {
                assert(rest[j] == runs[j]);
            }
            assert forall|j: int| p <= j < n implies #[trigger] runs[j].start > addr by {
                if j < n - 1 {
                    assert(rest[j] == runs[j]);
                }
            }
            assert forall|q: int| splits_at(runs, addr, q) implies q == p by {
                assert(q < n);
                assert(splits_at(rest, addr, q)) by {
                    assert forall|j: int| 0 <= j < q implies #[trigger] rest[j].start <= addr by {
                        assert(rest[j] == runs[j]);
                    }
                    assert forall|j: int| q <= j < rest.len() implies #[trigger] rest[j].start > addr by {
                        assert(rest[j] == runs[j]);
                    }
                }
            }
        } else {
            assert forall|q: int| splits_at(runs, addr, q) implies q == p by {
                if q < n {
                    assert(runs[n - 1].start > addr);
                }
            }
        }
    }
}

/// The runs after a write of `value` at `addr`: the byte is overwritten in the
/// run that holds it; otherwise it extends the run that ends at `addr`, or
/// starts a new run, and the run just above it is merged in when it starts at
/// `addr + 1`.
pub open spec fn written(runs: Seq<SectionView>, addr: int, value: u8) -> Seq<SectionView> {
    let p = split_point(runs, addr);
    let left = p > 0 && runs[p - 1].end() == addr;
    let right = p < runs.len() && runs[p].start == addr + 1;
    if p > 0 && addr < runs[p - 1].end() {
        runs.update(p - 1, runs[p - 1].with_byte(addr, value))
    } else if left && right {
        runs.subrange(0, p - 1).push(runs[p - 1].pushed(value).joined(runs[p])) + runs.subrange(
            p + 1,
            runs.len() as int,
        )
    } else if left {
        runs.update(p - 1, runs[p - 1].pushed(value))
    } else if right {
        runs.update(p, SectionView { start: addr, bytes: seq![value] + runs[p].bytes })
    } else {
        runs.insert(p, SectionView { start: addr, bytes: seq![value] })
    }
}

/// Replacing run `k` changes the image only through that run.
proof fn lemma_memory_replace(runs: Seq<SectionView>, k: int, x: SectionView)
    requires
        0 <= k < runs.len(),
    ensures
        memory(runs) == memory(runs.subrange(0, k)).union_prefer_right(run_map(runs[k])).union_prefer_right(
            memory(runs.subrange(k + 1, runs.len() as int)),
        ),
        memory(runs.update(k, x)) == memory(runs.subrange(0, k)).union_prefer_right(
            run_map(x),
        ).union_prefer_right(memory(runs.subrange(k + 1, runs.len() as int))),
{
    let new = runs.update(k, x);
    lemma_memory_around(runs, k);
    lemma_memory_around(new, k);
    assert(new.subrange(0, k) =~= runs.subrange(0, k));
    assert(new.subrange(k + 1, new.len() as int) =~= runs.subrange(k + 1, runs.len() as int));
}

/// Separation of runs where run `k` is replaced by `x` with the same bounds as
/// seen from its neighbours.
proof fn lemma_separated_replace(runs: Seq<SectionView>, k: int, x: SectionView)
    requires
        separated(runs),
        0 <= k < runs.len(),
        x.wf(),
        k > 0 ==> runs[k - 1].end() < x.start,
        k + 1 < runs.len() ==> x.end() < runs[k + 1].start,
    ensures
        separated(runs.update(k, x)),
{
    let new = runs.update(k, x);
    assert forall|i: int, j: int| 0 <= i < j < new.len() implies #[trigger] new[i].end()
        < #[trigger] new[j].start by {
        if i == k && j > k + 1 {
            assert(runs[k + 1].end() < runs[j].start);
            assert(runs[k + 1].wf());
        } else if j == k && i < k - 1 {
            assert(runs[i].end() < runs[k - 1].start);
            assert(runs[k - 1].wf());
        }
    }
}

proof fn lemma_write_in_place(runs: Seq<SectionView>, addr: int, value: u8, p: int)
    requires
        separated(runs),
        splits_at(runs, addr, p),
        p > 0,
        addr < runs[p - 1].end(),
    ensures
        separated(runs.update(p - 1, runs[p - 1].with_byte(addr, value))),
        memory(runs.update(p - 1, runs[p - 1].with_byte(addr, value))) == memory(runs).insert(addr, value),
{
    let x = runs[p - 1];
    let n = runs.len() as int;
    let suf = runs.subrange(p, n);
    assert(x.wf());
    lemma_separated_replace(runs, p - 1, x.with_byte(addr, value));
    lemma_memory_replace(runs, p - 1, x.with_byte(addr, value));
    lemma_memory_bounds(suf, addr + 1);
    assert(run_map(x.with_byte(addr, value)) =~= run_map(x).insert(addr, value));
    assert(memory(runs.update(p - 1, x.with_byte(addr, value))) =~= memory(runs).insert(addr, value));
}

proof fn lemma_write_extend(runs: Seq<SectionView>, addr: int, value: u8, p: int)
    requires
        separated(runs),
        splits_at(runs, addr, p),
        addr < address_limit(),
        p > 0,
        runs[p - 1].end() == addr,
        !(p < runs.len() && runs[p].start == addr + 1),
    ensures
        separated(runs.update(p - 1, runs[p - 1].pushed(value))),
        memory(runs.update(p - 1, runs[p - 1].pushed(value))) == memory(runs).insert(addr, value),
{
    let x = runs[p - 1];
    let n = runs.len() as int;
    let suf = runs.subrange(p, n);
    assert(x.wf());
    lemma_separated_replace(runs, p - 1, x.pushed(value));
    lemma_memory_replace(runs, p - 1, x.pushed(value));
    lemma_memory_bounds(suf, addr + 1);
    assert(run_map(x.pushed(value)) =~= run_map(x).insert(addr, value));
    assert(memory(runs.update(p - 1, x.pushed(value))) =~= memory(runs).insert(addr, value));
}

proof fn lemma_write_prepend(runs: Seq<SectionView>, addr: int, value: u8, p: int)
    requires
        separated(runs),
        splits_at(runs, addr, p),
        0 <= addr,
        !(p > 0 && addr < runs[p - 1].end()),
        !(p > 0 && runs[p - 1].end() == addr),
        p < runs.len(),
        runs[p].start == addr + 1,
    ensures
        separated(runs.update(p, SectionView { start: addr, bytes: seq![value] + runs[p].bytes })),
        memory(runs.update(p, SectionView { start: addr, bytes: seq![value] + runs[p].bytes }))
            == memory(runs).insert(addr, value),
{
    let y = runs[p];
    let y2 = SectionView { start: addr, bytes: seq![value] + y.bytes };
    let n = runs.len() as int;
    let suf = runs.subrange(p + 1, n);
    assert(y.wf());
    lemma_separated_replace(runs, p, y2);
    lemma_memory_replace(runs, p, y2);
    assert forall|j: int| 0 <= j < suf.len() implies #[trigger] suf[j].start >= y.end() + 1 by {
        assert(suf[j] == runs[p + 1 + j]);
    }
    lemma_memory_bounds(suf, y.end() + 1);
    assert(run_map(y2) =~= run_map(y).insert(addr, value));
    assert(memory(runs.update(p, y2)) =~= memory(runs).insert(addr, value));
}

/// Separation of runs with `w` inserted at index `p`, between its neighbours.
proof fn lemma_separated_insert(runs: Seq<SectionView>, addr: int, p: int, w: SectionView)
    requires
        separated(runs),
        0 <= p <= runs.len(),
        w.wf(),
        p > 0 ==> runs[p - 1].end() < w.start,
        p < runs.len() ==> w.end() < runs[p].start,
    ensures
        separated(runs.insert(p, w)),
{
    let new = runs.insert(p, w);
    assert forall|i: int| 0 <= i < new.len() implies #[trigger] new[i].wf() by {
        if i < p {
            assert(new[i] == runs[i]);
        } else if i > p {
            assert(new[i] == runs[i - 1]);
        }
    }
    assert forall|i: int, j: int| 0 <= i < j < new.len() implies #[trigger] new[i].end()
        < #[trigger] new[j].start by {
        if j < p {
            assert(new[i] == runs[i] && new[j] == runs[j]);
        } else if j == p {
            assert(new[i] == runs[i]);
            if i < p - 1 {
                assert(runs[i].end() < runs[p - 1].start);
                assert(runs[p - 1].wf());
            }
        } else if i < p {
            assert(new[i] == runs[i] && new[j] == runs[j - 1]);
        } else if i == p {
            assert(new[j] == runs[j - 1]);
            if j > p + 1 {
                assert(runs[p].end() < runs[j - 1].start);
                assert(runs[p].wf());
            }
        } else {
            assert(new[i] == runs[i - 1] && new[j] == runs[j - 1]);
        }
    }
}

proof fn lemma_write_fresh(runs: Seq<SectionView>, addr: int, value: u8, p: int)
    requires
        separated(runs),
        splits_at(runs, addr, p),
        0 <= addr < address_limit(),
        !(p > 0 && addr < runs[p - 1].end()),
        !(p > 0 && runs[p - 1].end() == addr),
        !(p < runs.len() && runs[p].start == addr + 1),
    ensures
        separated(runs.insert(p, SectionView { start: addr, bytes: seq![value] })),
        memory(runs.insert(p, SectionView { start: addr, bytes: seq![value] })) == memory(runs).insert(
            addr,
            value,
        ),
{
    let w = SectionView { start: addr, bytes: seq![value] };
    let n = runs.len() as int;
    let new = runs.insert(p, w);
    let pre = runs.subrange(0, p);
    let suf = runs.subrange(p, n);
    assert(runs =~= pre + suf);
    assert(new =~= pre + seq![w] + suf);
    lemma_memory_concat(pre, suf);
    lemma_memory_concat(pre + seq![w], suf);
    lemma_memory_concat(pre, seq![w]);
    lemma_memory_single(w);
    lemma_memory_bounds(suf, addr + 1);
    assert(run_map(w) =~= Map::<int, u8>::empty().insert(addr, value));
    assert(memory(new) =~= memory(runs).insert(addr, value));
    lemma_separated_insert(runs, addr, p, w);
}

/// The image of runs `x`, `y` joined by a new byte between them.
proof fn lemma_memory_bridge(runs: Seq<SectionView>, addr: int, value: u8, p: int)
    requires
        separated(runs),
        0 < p < runs.len(),
        runs[p - 1].end() == addr,
        runs[p].start == addr + 1,
    ensures
        memory(
            runs.subrange(0, p - 1).push(runs[p - 1].pushed(value).joined(runs[p])) + runs.subrange(
                p + 1,
                runs.len() as int,
            ),
        ) == memory(runs).insert(addr, value),
{
    let n = runs.len() as int;
    let x = runs[p - 1];
    let y = runs[p];
    let z = x.pushed(value).joined(y);
    let pre = runs.subrange(0, p - 1);
    let suf = runs.subrange(p + 1, n);
    let new = pre.push(z) + suf;
    assert(runs =~= pre + seq![x] + seq![y] + suf);
    assert(new =~= pre + seq![z] + suf);
    lemma_memory_concat(pre + seq![x] + seq![y], suf);
    lemma_memory_concat(pre + seq![x], seq![y]);
    lemma_memory_concat(pre, seq![x]);
    lemma_memory_single(x);
    lemma_memory_single(y);
    lemma_memory_concat(pre + seq![z], suf);
    lemma_memory_concat(pre, seq![z]);
    lemma_memory_single(z);
    assert forall|j: int| 0 <= j < suf.len() implies #[trigger] suf[j].start >= y.end() + 1 by {
        assert(suf[j] == runs[p + 1 + j]);
    }
    lemma_memory_bounds(suf, y.end() + 1);
    assert(run_map(z) =~= run_map(x).union_prefer_right(run_map(y)).insert(addr, value));
    assert(memory(new) =~= memory(runs).insert(addr, value));
}

/// Separation of runs where runs `p - 1` and `p` are replaced by `z`, which
/// spans both.
proof fn lemma_separated_bridge(runs: Seq<SectionView>, p: int, z: SectionView)
    requires
        separated(runs),
        0 < p < runs.len(),
        z.wf(),
        z.start == runs[p - 1].start,
        z.end() == runs[p].end(),
    ensures
        separated(runs.subrange(0, p - 1).push(z) + runs.subrange(p + 1, runs.len() as int)),
{
    let new = runs.subrange(0, p - 1).push(z) + runs.subrange(p + 1, runs.len() as int);
    assert forall|i: int| 0 <= i < new.len() implies #[trigger] new[i].wf() by {
        if i < p - 1 {
            assert(new[i] == runs[i]);
        } else if i > p - 1 {
            assert(new[i] == runs[i + 1]);
        }
    }
    assert forall|i: int, j: int| 0 <= i < j < new.len() implies #[trigger] new[i].end()
        < #[trigger] new[j].start by {
        if j == p - 1 {
            assert(new[i] == runs[i]);
        } else if i == p - 1 {
            assert(new[j] == runs[j + 1]);
        } else if j < p - 1 {
            assert(new[i] == runs[i] && new[j] == runs[j]);
        } else if i < p - 1 {
            assert(new[i] == runs[i] && new[j] == runs[j + 1]);
        } else {
            assert(new[i] == runs[i + 1] && new[j] == runs[j + 1]);
        }
    }
}

proof fn lemma_write_bridge(runs: Seq<SectionView>, addr: int, value: u8, p: int)
    requires
        separated(runs),
        splits_at(runs, addr, p),
        addr < address_limit(),
        p > 0,
        runs[p - 1].end() == addr,
        p < runs.len(),
        runs[p].start == addr + 1,
    ensures
        separated(written(runs, addr, value)),
        memory(written(runs, addr, value)) == memory(runs).insert(addr, value),
{
    lemma_split_point(runs, addr);
    let x = runs[p - 1];
    let y = runs[p];
    assert(x.wf() && y.wf());
    lemma_memory_bridge(runs, addr, value, p);
    lemma_separated_bridge(runs, p, x.pushed(value).joined(y));
}

/// A write leaves the runs separated, and the image gains (or changes) exactly
/// the written byte.
pub proof fn lemma_written(runs: Seq<SectionView>, addr: int, value: u8)
    requires
        separated(runs),
        0 <= addr < address_limit(),
    ensures
        separated(written(runs, addr, value)),
        memory(written(runs, addr, value)) == memory(runs).insert(addr, value),
{
    lemma_split_point(runs, addr);
    let p = split_point(runs, addr);
    let left = p > 0 && runs[p - 1].end() == addr;
    let right = p < runs.len() && runs[p].start == addr + 1;
    if p > 0 && addr < runs[p - 1].end() {
        lemma_write_in_place(runs, addr, value, p);
    } else if left && right {
        lemma_write_bridge(runs, addr, value, p);
    } else if left {
        lemma_write_extend(runs, addr, value, p);
    } else if right {
        lemma_write_prepend(runs, addr, value, p);
    } else {
        lemma_write_fresh(runs, addr, value, p);
    }
}

/// The runs with run `t` and run `t + 1` replaced by their concatenation.
pub open spec fn joined_at(runs: Seq<SectionView>, t: int) -> Seq<SectionView> {
    runs.subrange(0, t).push(runs[t].joined(runs[t + 1])) + runs.subrange(t + 2, runs.len() as int)
}

/// Merging two touching runs keeps the runs ordered and the image unchanged.
pub proof fn lemma_joined_at(runs: Seq<SectionView>, t: int)
    requires
        ordered(runs),
        0 <= t,
        t + 1 < runs.len(),
        runs[t].precedes(runs[t + 1]),
    ensures
        ordered(joined_at(runs, t)),
        memory(joined_at(runs, t)) == memory(runs),
        joined_at(runs, t).len() == runs.len() - 1,
        forall|j: int| 0 <= j < t ==> #[trigger] joined_at(runs, t)[j] == runs[j],
        forall|j: int| t < j < runs.len() - 1 ==> #[trigger] joined_at(runs, t)[j] == runs[j + 1],
        joined_at(runs, t)[t] == runs[t].joined(runs[t + 1]),
{
    let n = runs.len() as int;
    let x = runs[t];
    let y = runs[t + 1];
    let z = x.joined(y);
    let pre = runs.subrange(0, t);
    let suf = runs.subrange(t + 2, n);
    let new = joined_at(runs, t);
    assert(runs =~= pre + seq![x] + seq![y] + suf);
    assert(new =~= pre + seq![z] + suf);
    lemma_memory_concat(pre + seq![x] + seq![y], suf);
    lemma_memory_concat(pre + seq![x], seq![y]);
    lemma_memory_concat(pre, seq![x]);
    lemma_memory_single(x);
    lemma_memory_single(y);
    lemma_memory_concat(pre + seq![z], suf);
    lemma_memory_concat(pre, seq![z]);
    lemma_memory_single(z);
    assert(run_map(z) =~= run_map(x).union_prefer_right(run_map(y)));
    assert(memory(new) =~= memory(runs));
    assert(x.wf() && y.wf());
    assert forall|i: int| 0 <= i < new.len() implies #[trigger] new[i].wf() by {
        if i < t {
            assert(new[i] == runs[i]);
        } else if i > t {
            assert(new[i] == runs[i + 1]);
        }
    }
    assert forall|i: int, j: int| 0 <= i < j < new.len() implies #[trigger] new[i].end()
        <= #[trigger] new[j].start by {
        if j == t {
            assert(new[i] == runs[i]);
        } else if i == t {
            assert(new[j] == runs[j + 1]);
        } else if j < t {
            assert(new[i] == runs[i] && new[j] == runs[j]);
        } else if i < t {
            assert(new[i] == runs[i] && new[j] == runs[j + 1]);
        } else {
            assert(new[i] == runs[i + 1] && new[j] == runs[j + 1]);
        }
    }
}

/// An ordered sequence of runs holds no more bytes than the span it covers.
pub proof fn lemma_total_len_bound(runs: Seq<SectionView>)
    requires
        ordered(runs),
    ensures
        0 <= total_len(runs),
        runs.len() > 0 ==> total_len(runs) <= runs.last().end(),
    decreases runs.len(),
{
    if runs.len() > 0 {
        let rest = runs.drop_last();
        assert(ordered(rest));
        lemma_total_len_bound(rest);
        assert(runs.last().wf());
        if rest.len() > 0 {
            assert(rest.last() == runs[runs.len() - 2]);
            assert(runs[runs.len() - 2].end() <= runs[runs.len() - 1].start);
        }
    }
}

/// The length of ordered runs counts each defined address exactly once.
pub proof fn lemma_total_len_counts(runs: Seq<SectionView>)
    requires
        ordered(runs),
    ensures
        memory(runs).dom().finite(),
        memory(runs).dom().len() == total_len(runs),
    decreases runs.len(),
{
    if runs.len() == 0 {
        assert(memory(runs).dom() =~= Set::<int>::empty());
    } else {
        let rest = runs.drop_last();
        let x = runs.last();
        assert(ordered(rest));
        lemma_total_len_counts(rest);
        assert(x.wf());
        lemma_int_range(x.start, x.end());
        assert(run_map(x).dom() =~= set_int_range(x.start, x.end()));
        assert(memory(runs).dom() =~= memory(rest).dom() + run_map(x).dom());
        assert forall|i: int| 0 <= i < rest.len() implies #[trigger] rest[i].end() <= x.start by {
            assert(rest[i] == runs[i]);
        }
        lemma_memory_bounds(rest, x.start);
        assert(memory(rest).dom().disjoint(run_map(x).dom()));
        lemma_set_disjoint_lens(memory(rest).dom(), run_map(x).dom());
    }
}

/// In separated runs, a read that starts at a defined address succeeds exactly
/// when every address it covers is defined: a gap between two runs is always
/// made of undefined addresses, so no read needs to span two runs.
pub proof fn lemma_readable_iff_defined(runs: Seq<SectionView>, addr: int, size: int)
    requires
        separated(runs),
        size >= 1,
    ensures
        readable(runs, addr, size) <==> forall|a: int|
            addr <= a < addr + size ==> #[trigger] memory(runs).contains_key(a),
{
    lemma_memory_dom(runs);
    if readable(runs, addr, size) {
        let i = choose|i: int|
            0 <= i < runs.len() && #[trigger] runs[i].contains(addr) && addr + size <= runs[i].end();
        assert forall|a: int| addr <= a < addr + size implies #[trigger] memory(runs).contains_key(a) by {
            assert(runs[i].contains(a));
        }
    }
    if forall|a: int| addr <= a < addr + size ==> #[trigger] memory(runs).contains_key(a) {
        assert(memory(runs).contains_key(addr));
        let i = choose|i: int| 0 <= i < runs.len() && #[trigger] runs[i].contains(addr);
        if runs[i].end() < addr + size {
            let e = runs[i].end();
            assert(memory(runs).contains_key(e));
            let j = choose|j: int| 0 <= j < runs.len() && #[trigger] runs[j].contains(e);
            if j < i {
                assert(runs[j].end() < runs[i].start);
            } else if j > i {
                assert(runs[i].end() < runs[j].start);
            }
        }
        assert(readable(runs, addr, size));
    }
}

/// Writing a byte that an address already holds changes nothing.
pub proof fn lemma_rewrite_same(runs: Seq<SectionView>, addr: int, value: u8)
    requires
        separated(runs),
        memory(runs).contains_key(addr),
        memory(runs)[addr] == value,
    ensures
        written(runs, addr, value) == runs,
{
    lemma_memory_dom(runs);
    lemma_split_point(runs, addr);
    let p = split_point(runs, addr);
    let i = choose|i: int| 0 <= i < runs.len() && #[trigger] runs[i].contains(addr);
    lemma_memory_at(runs, i, addr);
    if i < p - 1 {
        assert(runs[i].end() <= runs[p - 1].start);
    }
    assert(i == p - 1);
    assert(runs[i].with_byte(addr, value).bytes =~= runs[i].bytes);
    assert(written(runs, addr, value) =~= runs);
}

/// Writing the one missing byte between two runs merges them, in the same
/// write, into a single run of their two lengths plus one.
pub proof fn lemma_fill_gap(runs: Seq<SectionView>, i: int, value: u8)
    requires
        separated(runs),
        0 <= i,
        i + 1 < runs.len(),
        runs[i].end() + 1 == runs[i + 1].start,
    ensures
        written(runs, runs[i].end(), value).len() == runs.len() - 1,
        written(runs, runs[i].end(), value)[i] == (SectionView {
            start: runs[i].start,
            bytes: runs[i].bytes.push(value) + runs[i + 1].bytes,
        }),
        written(runs, runs[i].end(), value)[i].bytes.len() == runs[i].bytes.len() + runs[i
            + 1].bytes.len() + 1,
        forall|j: int| 0 <= j < i ==> #[trigger] written(runs, runs[i].end(), value)[j] == runs[j],
        forall|j: int|
            i < j < runs.len() - 1 ==> #[trigger] written(runs, runs[i].end(), value)[j] == runs[j
                + 1],
{
    let addr = runs[i].end();
    lemma_split_point(runs, addr);
    assert(runs[i].wf());
    assert forall|j: int| 0 <= j < i + 1 implies #[trigger] runs[j].start <= addr by {
        if j < i {
            assert(runs[j].end() < runs[i].start);
            assert(runs[j].wf());
        }
    }
    assert forall|j: int| i + 1 <= j < runs.len() implies #[trigger] runs[j].start > addr by {
        if j > i + 1 {
            assert(runs[i + 1].end() < runs[j].start);
            assert(runs[i + 1].wf());
        }
    }
    assert(splits_at(runs, addr, i + 1));
    assert(split_point(runs, addr) == i + 1);
}

/// Ordering of runs with `w` inserted at index `p`, between its neighbours,
/// which it may touch.
pub proof fn lemma_ordered_insert(runs: Seq<SectionView>, p: int, w: SectionView)
    requires
        ordered(runs),
        0 <= p <= runs.len(),
        w.wf(),
        p > 0 ==> runs[p - 1].end() <= w.start,
        p < runs.len() ==> w.end() <= runs[p].start,
    ensures
        ordered(runs.insert(p, w)),
{
    let new = runs.insert(p, w);
    assert forall|i: int| 0 <= i < new.len() implies #[trigger] new[i].wf() by {
        if i < p {
            assert(new[i] == runs[i]);
        } else if i > p {
            assert(new[i] == runs[i - 1]);
        }
    }
    assert forall|i: int, j: int| 0 <= i < j < new.len() implies #[trigger] new[i].end()
        <= #[trigger] new[j].start by {
        if j < p {
            assert(new[i] == runs[i] && new[j] == runs[j]);
        } else if j == p {
            assert(new[i] == runs[i]);
            if i < p - 1 {
                assert(runs[i].end() <= runs[p - 1].start);
                assert(runs[p - 1].wf());
            }
        } else if i < p {
            assert(new[i] == runs[i] && new[j] == runs[j - 1]);
        } else if i == p {
            assert(new[j] == runs[j - 1]);
            if j > p + 1 {
                assert(runs[p].end() <= runs[j - 1].start);
                assert(runs[p].wf());
            }
        } else {
            assert(new[i] == runs[i - 1] && new[j] == runs[j - 1]);
        }
    }
}

/// Separated runs are determined by the bytes they define: two separated
/// sequences of runs with the same image are the same sequence.
pub proof fn lemma_separated_unique(a: Seq<SectionView>, b: Seq<SectionView>)
    requires
        separated(a),
        separated(b),
        memory(a) == memory(b),
    ensures
        a == b,
    decreases a.len() + b.len(),
{
    lemma_memory_dom(a);
    lemma_memory_dom(b);
    if a.len() == 0 || b.len() == 0 {
        if a.len() > 0 {
            assert(a[0].wf());
            assert(a[0].contains(a[0].start));
            assert(memory(a).contains_key(a[0].start));
        } else if b.len() > 0 {
            assert(b[0].wf());
            assert(b[0].contains(b[0].start));
            assert(memory(b).contains_key(b[0].start));
        }
        assert(a =~= b);
    } else {
        let x = a.last();
        let y = b.last();
        let m = memory(a);
        assert(x.wf() && y.wf());
        assert forall|i: int| 0 <= i < a.len() implies #[trigger] a[i].end() <= x.end() by {
            if i < a.len() - 1 {
                assert(a[i].end() < x.start);
            }
        }
        assert forall|i: int| 0 <= i < b.len() implies #[trigger] b[i].end() <= y.end() by {
            if i < b.len() - 1 {
                assert(b[i].end() < y.start);
            }
        }
        lemma_memory_bounds(a, x.end());
        lemma_memory_bounds(b, y.end());
        assert(x.contains(x.end() - 1));
        assert(y.contains(y.end() - 1));
        assert(m.contains_key(x.end() - 1));
        assert(m.contains_key(y.end() - 1));
        assert(x.end() == y.end());
        if x.start < y.start {
            let g = y.start - 1;
            assert(x.contains(g));
            assert(m.contains_key(g));
            let j = choose|j: int| 0 <= j < b.len() && #[trigger] b[j].contains(g);
            if j < b.len() - 1 {
                assert(b[j].end() < y.start);
            }
        }
        if y.start < x.start {
            let g = x.start - 1;
            assert(y.contains(g));
            assert(m.contains_key(g));
            let j = choose|j: int| 0 <= j < a.len() && #[trigger] a[j].contains(g);
            if j < a.len() - 1 {
                assert(a[j].end() < x.start);
            }
        }
        assert(x.start == y.start);
        assert forall|k: int| 0 <= k < x.bytes.len() implies x.bytes[k] == y.bytes[k] by {
            lemma_memory_at(a, a.len() - 1, x.start + k);
            lemma_memory_at(b, b.len() - 1, y.start + k);
        }
        assert(x.bytes =~= y.bytes);
        assert(x == y);
        let ra = a.drop_last();
        let rb = b.drop_last();
        assert(memory(a) == memory(ra).union_prefer_right(run_map(x)));
        assert(memory(b) == memory(rb).union_prefer_right(run_map(y)));
        assert(separated(ra));
        assert(separated(rb));
        assert forall|i: int| 0 <= i < ra.len() implies #[trigger] ra[i].end() <= x.start by {
            assert(a[i].end() < x.start);
        }
        assert forall|i: int| 0 <= i < rb.len() implies #[trigger] rb[i].end() <= y.start by {
            assert(b[i].end() < y.start);
        }
        lemma_memory_bounds(ra, x.start);
        lemma_memory_bounds(rb, y.start);
        assert forall|k: int| #[trigger] memory(ra).dom().contains(k) implies memory(rb).dom().contains(k)
            && memory(ra)[k] == memory(rb)[k] by {
            assert(k < x.start);
            assert(!run_map(x).contains_key(k));
            assert(!run_map(y).contains_key(k));
            assert(memory(a).contains_key(k) && memory(a)[k] == memory(ra)[k]);
            assert(memory(b).contains_key(k) && memory(b)[k] == memory(rb)[k]);
        }
        assert forall|k: int| #[trigger] memory(rb).dom().contains(k) implies memory(ra).dom().contains(k) by {
            assert(k < y.start);
            assert(!run_map(y).contains_key(k));
            assert(!run_map(x).contains_key(k));
            assert(memory(b).contains_key(k));
            assert(memory(a).contains_key(k));
        }
        assert(memory(ra).dom() =~= memory(rb).dom());
        assert(memory(ra) =~= memory(rb));
        lemma_separated_unique(ra, rb);
        assert(a =~= ra.push(x));
        assert(b =~= rb.push(y));
    }
}

} // verus!
