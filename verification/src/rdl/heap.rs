//! The queue the search runs on.

use vstd::prelude::*;

verus! {

/// A cost and the vertex it is for.
pub type Entry = (i64, usize);

/// A 4-ary min-heap keyed on cost alone.
///
/// The key is the cost and nothing else. Adding the vertex as a secondary key gives a different
/// order, and among equal-cost paths the search then returns a different one. The tie is settled by
/// where an entry lands in the array, so the array's exact shape is the answer rather than a detail
/// of it.
#[derive(Debug)]
pub struct CostHeap {
    pub data: Vec<Entry>,
}

pub open spec fn parent_of(i: int) -> int {
    (i - 1) / 4
}

/// Two entries exchanged.
pub open spec fn exchanged(data: Seq<Entry>, i: int, j: int) -> Seq<Entry> {
    data.update(i, data[j]).update(j, data[i])
}

/// The entry at `i` moved up past every parent it is strictly less than.
pub open spec fn raised(data: Seq<Entry>, i: int) -> Seq<Entry>
    decreases i,
{
    if 0 < i < data.len() && data[i].0 < data[parent_of(i)].0 {
        raised(exchanged(data, i, parent_of(i)), parent_of(i))
    } else {
        data
    }
}

/// The first of the least entries from `first` up to `last`.
pub open spec fn least(data: Seq<Entry>, first: int, last: int) -> int
    decreases last - first,
{
    if last <= first + 1 {
        first
    } else {
        let best = least(data, first, last - 1);
        if data[last - 1].0 < data[best].0 {
            last - 1
        } else {
            best
        }
    }
}

/// The end of the children of `i`.
pub open spec fn children_end(data: Seq<Entry>, i: int) -> int {
    if 4 * i + 5 < data.len() {
        4 * i + 5
    } else {
        data.len() as int
    }
}

/// The entry at `i` moved down past its least child while that is strictly less.
pub open spec fn lowered(data: Seq<Entry>, i: int) -> Seq<Entry>
    decreases data.len() - i,
{
    if i < 0 || 4 * i + 1 >= data.len() {
        data
    } else {
        let best = least(data, 4 * i + 1, children_end(data, i));
        if i < best < data.len() && data[best].0 < data[i].0 {
            lowered(exchanged(data, best, i), best)
        } else {
            data
        }
    }
}

/// The heap with one more entry.
pub open spec fn pushed(data: Seq<Entry>, v: Entry) -> Seq<Entry> {
    raised(data.push(v), data.len() as int)
}

/// The heap without its first entry.
pub open spec fn popped(data: Seq<Entry>) -> Seq<Entry> {
    if data.len() <= 1 {
        Seq::empty()
    } else {
        lowered(data.drop_last().update(0, data.last()), 0)
    }
}

impl View for CostHeap {
    type V = Seq<Entry>;

    open spec fn view(&self) -> Seq<Entry> {
        self.data@
    }
}

impl CostHeap {
    pub fn new() -> (h: CostHeap)
        ensures
            h@ == Seq::<Entry>::empty(),
    {
        CostHeap { data: Vec::new() }
    }

    pub fn push(&mut self, v: Entry)
        ensures
            final(self)@ == pushed(old(self)@, v),
    {
        self.data.push(v);
        let last: usize = self.data.len() - 1;
        self.sift_up(last);
    }

    pub fn pop(&mut self) -> (top: Option<Entry>)
        ensures
            old(self)@.len() == 0 ==> top is None && final(self)@ == old(self)@,
            old(self)@.len() > 0 ==> top == Some(old(self)@[0]) && final(self)@ == popped(
                old(self)@,
            ),
    {
        if self.data.len() == 0 {
            return None;
        }
        let top = self.data[0];
        let last = self.data[self.data.len() - 1];
        self.data.pop();
        if self.data.len() > 0 {
            self.data.set(0, last);
            self.sift_down();
        } else {
            assert(self@ =~= popped(old(self)@));
        }
        Some(top)
    }

    fn exchange(&mut self, i: usize, j: usize)
        requires
            i < old(self)@.len(),
            j < old(self)@.len(),
        ensures
            final(self)@ == exchanged(old(self)@, i as int, j as int),
    {
        let (a, b) = (self.data[i], self.data[j]);
        self.data.set(i, b);
        self.data.set(j, a);
    }

    /// Strictly less than the parent moves up; equal stays put. That single `<` is what decides
    /// which of two equal-cost routes the search settles on.
    fn sift_up(&mut self, orig: usize)
        requires
            orig < old(self)@.len(),
        ensures
            final(self)@ == raised(old(self)@, orig as int),
    {
        let mut index: usize = orig;
        while index > 0 && self.data[index].0 < self.data[(index - 1) / 4].0
            invariant
                index < self@.len(),
                raised(old(self)@, orig as int) == raised(self@, index as int),
            decreases index,
        {
            let p: usize = (index - 1) / 4;
            self.exchange(index, p);
            index = p;
        }
    }

    /// Among equal children the first wins: the scan replaces only on strictly less.
    fn sift_down(&mut self)
        requires
            old(self)@.len() > 0,
        ensures
            final(self)@ == lowered(old(self)@, 0),
    {
        let size: usize = self.data.len();
        let mut index: usize = 0;
        loop
            invariant
                index < size,
                size == self@.len(),
                lowered(old(self)@, 0) == lowered(self@, index as int),
            ensures
                self@ == lowered(old(self)@, 0),
            decreases size - index,
        {
            if index > (size - 1) / 4 || 4 * index + 1 >= size {
                break;
            }
            let first: usize = 4 * index + 1;
            let last: usize = if size - first < 4 { size } else { first + 4 };
            let mut best: usize = first;
            let mut i: usize = first + 1;
            while i < last
                invariant
                    first < i <= last <= self@.len(),
                    first <= best < last,
                    best == least(self@, first as int, i as int),
                decreases last - i,
            {
                if self.data[i].0 < self.data[best].0 {
                    best = i;
                }
                i += 1;
            }
            if self.data[best].0 < self.data[index].0 {
                self.exchange(best, index);
                index = best;
            } else {
                break;
            }
        }
    }
}

/// No entry is less than its parent.
pub open spec fn ordered(data: Seq<Entry>) -> bool {
    forall|k: int| 0 < k < data.len() ==> data[parent_of(k)].0 <= (#[trigger] data[k]).0
}

/// An ordered heap's first entry costs no more than any other.
pub proof fn law_first_is_least(data: Seq<Entry>, k: int)
    requires
        ordered(data),
        0 <= k < data.len(),
    ensures
        data[0].0 <= data[k].0,
    decreases k,
{
    if k > 0 {
        law_first_is_least(data, parent_of(k));
    }
}

/// Ordered but for the entry at `i`, which may be less than its parent.
spec fn ordered_above(data: Seq<Entry>, i: int) -> bool {
    &&& forall|k: int|
        0 < k < data.len() && k != i ==> data[parent_of(k)].0 <= (#[trigger] data[k]).0
    &&& forall|k: int|
        0 < k < data.len() && parent_of(k) == i && i > 0 ==> data[parent_of(i)].0 <= (
        #[trigger] data[k]).0
}

/// Ordered but for the entry at `i`, which may be more than its children.
spec fn ordered_below(data: Seq<Entry>, i: int) -> bool {
    &&& forall|k: int|
        0 < k < data.len() && parent_of(k) != i ==> data[parent_of(k)].0 <= (#[trigger] data[k]).0
    &&& forall|k: int|
        0 < k < data.len() && parent_of(k) == i && i > 0 ==> data[parent_of(i)].0 <= (
        #[trigger] data[k]).0
}

proof fn lemma_raised(data: Seq<Entry>, i: int)
    requires
        0 <= i < data.len(),
        ordered_above(data, i),
    ensures
        ordered(raised(data, i)),
    decreases i,
{
    if 0 < i && data[i].0 < data[parent_of(i)].0 {
        let p = parent_of(i);
        let next = exchanged(data, i, p);
        assert forall|k: int| 0 < k < next.len() && k != p implies next[parent_of(k)].0 <= (
        #[trigger] next[k]).0 by {
            assert(k != i ==> data[parent_of(k)].0 <= data[k].0);
        }
        assert forall|k: int| 0 < k < next.len() && parent_of(k) == p && p > 0 implies next[parent_of(
            p,
        )].0 <= (#[trigger] next[k]).0 by {
            assert(data[parent_of(p)].0 <= data[p].0);
            assert(k != i ==> data[parent_of(k)].0 <= data[k].0);
        }
        lemma_raised(next, p);
    }
}

proof fn lemma_least(data: Seq<Entry>, first: int, last: int)
    requires
        0 <= first < last <= data.len(),
    ensures
        first <= least(data, first, last) < last,
        forall|k: int|
            first <= k < last ==> data[least(data, first, last)].0 <= (#[trigger] data[k]).0,
    decreases last - first,
{
    if last > first + 1 {
        lemma_least(data, first, last - 1);
    }
}

proof fn lemma_lowered(data: Seq<Entry>, i: int)
    requires
        0 <= i < data.len(),
        ordered_below(data, i),
    ensures
        ordered(lowered(data, i)),
    decreases data.len() - i,
{
    if 4 * i + 1 < data.len() {
        let end = children_end(data, i);
        lemma_least(data, 4 * i + 1, end);
        let best = least(data, 4 * i + 1, end);
        if data[best].0 < data[i].0 {
            let next = exchanged(data, best, i);
            assert forall|k: int| 0 < k < next.len() && parent_of(k) != best implies next[parent_of(
                k,
            )].0 <= (#[trigger] next[k]).0 by {
                if parent_of(k) == i {
                    assert(data[best].0 <= data[k].0);
                } else {
                    assert(data[parent_of(k)].0 <= data[k].0);
                    assert(parent_of(best) == i);
                    if k == i {
                        assert(data[parent_of(i)].0 <= data[best].0);
                    }
                }
            }
            assert forall|k: int| 0 < k < next.len() && parent_of(k) == best implies next[parent_of(
                best,
            )].0 <= (#[trigger] next[k]).0 by {
                assert(data[parent_of(k)].0 <= data[k].0);
            }
            lemma_lowered(next, best);
        } else {
            assert forall|k: int| 0 < k < data.len() implies data[parent_of(k)].0 <= (
            #[trigger] data[k]).0 by {
                if parent_of(k) == i {
                    assert(data[best].0 <= data[k].0);
                }
            }
        }
    }
}

/// Pushing and popping keep the heap ordered.
pub proof fn law_stays_ordered(data: Seq<Entry>, v: Entry)
    requires
        ordered(data),
    ensures
        ordered(pushed(data, v)),
        ordered(popped(data)),
{
    let more = data.push(v);
    assert forall|k: int| 0 < k < more.len() && k != data.len() implies more[parent_of(k)].0 <= (
    #[trigger] more[k]).0 by {
        assert(data[parent_of(k)].0 <= data[k].0);
    }
    lemma_raised(more, data.len() as int);
    if data.len() > 1 {
        let fewer = data.drop_last().update(0, data.last());
        assert forall|k: int| 0 < k < fewer.len() && parent_of(k) != 0 implies fewer[parent_of(k)].0
            <= (#[trigger] fewer[k]).0 by {
            assert(data[parent_of(k)].0 <= data[k].0);
        }
        lemma_lowered(fewer, 0);
    }
}

/// Two heaps hold the same entries.
pub open spec fn same_entries(a: Seq<Entry>, b: Seq<Entry>) -> bool {
    a.len() == b.len() && forall|x: Entry| #[trigger] a.contains(x) <==> b.contains(x)
}

proof fn lemma_exchanged(data: Seq<Entry>, i: int, j: int)
    requires
        0 <= i < data.len(),
        0 <= j < data.len(),
    ensures
        same_entries(exchanged(data, i, j), data),
{
    let next = exchanged(data, i, j);
    assert forall|x: Entry| #[trigger] next.contains(x) <==> data.contains(x) by {
        if data.contains(x) {
            let k = choose|k: int| 0 <= k < data.len() && data[k] == x;
            if k == i {
                assert(next[j] == x);
            } else if k == j {
                assert(next[i] == x);
            } else {
                assert(next[k] == x);
            }
        }
        if next.contains(x) {
            let k = choose|k: int| 0 <= k < next.len() && next[k] == x;
            if k == j {
                assert(data[i] == x);
            } else if k == i {
                assert(data[j] == x);
            } else {
                assert(data[k] == x);
            }
        }
    }
}

proof fn lemma_raised_entries(data: Seq<Entry>, i: int)
    requires
        0 <= i < data.len(),
    ensures
        same_entries(raised(data, i), data),
    decreases i,
{
    if 0 < i && data[i].0 < data[parent_of(i)].0 {
        lemma_exchanged(data, i, parent_of(i));
        lemma_raised_entries(exchanged(data, i, parent_of(i)), parent_of(i));
    }
}

proof fn lemma_lowered_entries(data: Seq<Entry>, i: int)
    requires
        0 <= i < data.len(),
    ensures
        same_entries(lowered(data, i), data),
    decreases data.len() - i,
{
    if 4 * i + 1 < data.len() {
        let end = children_end(data, i);
        lemma_least(data, 4 * i + 1, end);
        let best = least(data, 4 * i + 1, end);
        if data[best].0 < data[i].0 {
            lemma_exchanged(data, best, i);
            lemma_lowered_entries(exchanged(data, best, i), best);
        }
    }
}

/// A push adds its entry and nothing else.
pub proof fn law_push_adds(data: Seq<Entry>, v: Entry)
    ensures
        pushed(data, v).len() == data.len() + 1,
        forall|x: Entry| #[trigger] pushed(data, v).contains(x) <==> data.contains(x) || x == v,
{
    lemma_raised_entries(data.push(v), data.len() as int);
    assert forall|x: Entry| #[trigger] pushed(data, v).contains(x) <==> data.contains(x) || x
        == v by {
        assert(pushed(data, v).contains(x) <==> data.push(v).contains(x));
        crate::lists::lemma_push_contains(data, v, x);
    }
}

/// A pop takes one entry, the first, and leaves the others.
pub proof fn law_pop_takes_first(data: Seq<Entry>)
    requires
        data.len() > 0,
    ensures
        popped(data).len() == data.len() - 1,
        forall|x: Entry| #[trigger] popped(data).contains(x) ==> data.contains(x),
        forall|k: int| 1 <= k < data.len() ==> popped(data).contains(#[trigger] data[k]),
{
    if data.len() > 1 {
        let fewer = data.drop_last().update(0, data.last());
        lemma_lowered_entries(fewer, 0);
        assert forall|x: Entry| #[trigger] popped(data).contains(x) implies data.contains(x) by {
            assert(fewer.contains(x));
            let k = choose|k: int| 0 <= k < fewer.len() && fewer[k] == x;
            if k == 0 {
                assert(data[data.len() - 1] == x);
            } else {
                assert(data[k] == x);
            }
        }
        assert forall|k: int| 1 <= k < data.len() implies popped(data).contains(
            #[trigger] data[k],
        ) by {
            if k == data.len() - 1 {
                assert(fewer[0] == data[k]);
            } else {
                assert(fewer[k] == data[k]);
            }
            assert(fewer.contains(data[k]));
        }
    }
}

/// Moving an entry up leaves alone what comes after it.
proof fn lemma_raised_above(data: Seq<Entry>, i: int, k: int)
    requires
        0 <= i < k < data.len(),
    ensures
        raised(data, i).len() == data.len(),
        raised(data, i)[k] == data[k],
    decreases i,
{
    if 0 < i && data[i].0 < data[parent_of(i)].0 {
        lemma_raised_above(exchanged(data, i, parent_of(i)), parent_of(i), k);
    }
}

/// Moving an entry down leaves alone what comes before it.
proof fn lemma_lowered_below(data: Seq<Entry>, i: int, k: int)
    requires
        0 <= k < i < data.len(),
    ensures
        lowered(data, i)[k] == data[k],
    decreases data.len() - i,
{
    if 4 * i + 1 < data.len() {
        let best = least(data, 4 * i + 1, children_end(data, i));
        if i < best < data.len() && data[best].0 < data[i].0 {
            lemma_lowered_below(exchanged(data, best, i), best, k);
        }
    }
}

/// Where a new entry goes. Every entry has four below it; the new one comes last and stays there unless the one
/// above it costs more: then that one takes its place. One that costs the same stays above.
pub proof fn law_push_climbs(data: Seq<Entry>, v: Entry)
    requires
        data.len() > 0,
    ensures
        ({
            let n = data.len() as int;
            let above = (n - 1) / 4;
            &&& v.0 >= data[above].0 ==> pushed(data, v) == data.push(v)
            &&& v.0 < data[above].0 ==> pushed(data, v)[n] == data[above]
        }),
{
    let n = data.len() as int;
    let (more, above) = (data.push(v), (n - 1) / 4);
    if v.0 < data[above].0 {
        let next = exchanged(more, n, above);
        assert(more[n] == v);
        assert(next[n] == data[above]);
        lemma_raised_above(next, above, n);
    }
}

/// What comes first once the first is taken. It is the first of the least of the four below it where that costs
/// less than the last entry, and otherwise the last entry, and then nothing else moves.
pub proof fn law_pop_brings_up_the_least(data: Seq<Entry>, k: int)
    requires
        1 <= k < 5,
        k < data.len() - 1,
        forall|j: int| 1 <= j < k ==> (#[trigger] data[j]).0 > data[k].0,
        forall|j: int| k < j < 5 && j < data.len() - 1 ==> (#[trigger] data[j]).0 >= data[k].0,
    ensures
        data[k].0 < data.last().0 ==> popped(data)[0] == data[k],
        data[k].0 >= data.last().0 ==> popped(data) == data.drop_last().update(0, data.last()),
{
    let fewer = data.drop_last().update(0, data.last());
    let end = children_end(fewer, 0);
    lemma_first_least(fewer, 1, end, k);
    if data[k].0 < data.last().0 {
        let next = exchanged(fewer, k, 0);
        assert(next[0] == data[k]);
        lemma_lowered_below(next, k, 0);
    }
}

proof fn lemma_first_least(data: Seq<Entry>, first: int, last: int, k: int)
    requires
        0 <= first <= k < last <= data.len(),
        forall|j: int| first <= j < k ==> (#[trigger] data[j]).0 > data[k].0,
        forall|j: int| k < j < last ==> (#[trigger] data[j]).0 >= data[k].0,
    ensures
        least(data, first, last) == k,
    decreases last - first,
{
    if last > first + 1 {
        if k < last - 1 {
            lemma_first_least(data, first, last - 1, k);
        } else {
            lemma_least(data, first, last - 1);
            assert(data[least(data, first, last - 1)].0 > data[k].0);
        }
    }
}

} // verus!
