//! Filling the gaps between pads.
//!
//! Once the pads are placed, whatever is left of each row has to be packed solid with filler cells:
//! an IO ring with a hole in it is not a ring, because the power rails run through the cells rather
//! than over them. Widest filler first, then narrower ones for the remainder.

use crate::geom::fits_i32;
use crate::lists::{count_to, upto};
use crate::sort::{
    arrange, arranged, compares, law_arranged_in_order, law_arranged_same, orders, weak_order,
};
use crate::text::{decimal, push_count, push_int};
use vstd::prelude::*;
use vstd::string::*;

verus! {

/// The name every filler instance starts with.
pub const FILL_PREFIX: &'static str = "IO_FILL_";

/// A stretch of a row: where it starts, and where it ends, which is no longer part of it.
pub type Span = (i32, i32);

/// A filler cell on offer.
#[derive(Debug, Clone, PartialEq, Eq)]
pub struct Filler {
    pub master: String,
    /// Its size along the row, after the row's own orientation.
    pub width: i32,
    /// Whether this one may be placed over something already there.
    pub overlapping: bool,
}

/// One filler to create.
#[derive(Debug, Clone, PartialEq, Eq)]
pub struct Fill {
    pub name: String,
    pub master: String,
    /// Position along the row, in database units. The caller snaps it to a site.
    pub at: i32,
    pub overlapping: bool,
}

/// What a filler to create is.
pub struct FillView {
    pub name: Seq<char>,
    pub master: Seq<char>,
    pub at: int,
    pub overlapping: bool,
}

impl View for Fill {
    type V = FillView;

    open spec fn view(&self) -> FillView {
        FillView {
            name: self.name@,
            master: self.master@,
            at: self.at as int,
            overlapping: self.overlapping,
        }
    }
}

pub open spec fn fill_views(fills: Seq<Fill>) -> Seq<FillView> {
    Seq::new(fills.len(), |i: int| fills[i]@)
}

/// Why a row could not be filled.
#[derive(Debug, Clone, Copy, PartialEq, Eq)]
pub enum Unfilled {
    /// The gap is not a whole number of sites, so filling it would leave a sliver.
    Ragged { span: Span },
    /// The fillers on offer cannot make up the remaining sites.
    Short { span: Span },
}

/// The first stretch comes before the second: by where it starts, then by where it ends.
pub open spec fn span_before(a: Span, b: Span) -> bool {
    a.0 < b.0 || (a.0 == b.0 && a.1 < b.1)
}

/// The stretches in order.
pub open spec fn in_sequence(occupied: Seq<Span>) -> Seq<Span> {
    let order = arranged(
        upto(occupied.len()),
        |i: usize, j: usize| span_before(occupied[i as int], occupied[j as int]),
    );
    Seq::new(order.len(), |k: int| occupied[order[k] as int])
}

/// How far along the row everything is taken or known to be open.
pub open spec fn passed(row: Span, taken: Seq<Span>) -> i32
    decreases taken.len(),
{
    if taken.len() == 0 {
        row.0
    } else {
        let at = passed(row, taken.drop_last());
        if taken.last().1 > at {
            taken.last().1
        } else {
            at
        }
    }
}

/// A stretch, unless it is empty.
pub open spec fn span_if(a: i32, b: i32) -> Seq<Span> {
    if a < b {
        seq![(a, b)]
    } else {
        Seq::empty()
    }
}

/// The gaps before the stretches, which are in order.
pub open spec fn gaps_before(row: Span, taken: Seq<Span>) -> Seq<Span>
    decreases taken.len(),
{
    if taken.len() == 0 {
        Seq::empty()
    } else {
        let head = taken.drop_last();
        let at = passed(row, head);
        let lo = taken.last().0;
        let upper = if lo < row.1 {
            lo
        } else {
            row.1
        };
        gaps_before(row, head) + span_if(at, upper)
    }
}

/// What is left of a row once the pads in it are taken out.
pub open spec fn gaps_of(row: Span, occupied: Seq<Span>) -> Seq<Span> {
    let taken = in_sequence(occupied);
    gaps_before(row, taken) + span_if(passed(row, taken), row.1)
}

/// The position is in one of the stretches.
pub open spec fn covers(spans: Seq<Span>, x: int) -> bool {
    exists|k: int| 0 <= k < spans.len() && (#[trigger] spans[k]).0 <= x < spans[k].1
}

fn sorted_spans(occupied: &[Span]) -> (taken: Vec<Span>)
    ensures
        taken@ == in_sequence(occupied@),
{
    let list = count_to(occupied.len());
    let ghost rule = |i: usize, j: usize| span_before(occupied@[i as int], occupied@[j as int]);
    let less = |i: usize, j: usize| -> (r: bool)
        requires
            i < occupied.len(),
            j < occupied.len(),
        ensures
            r == span_before(occupied@[i as int], occupied@[j as int]),
        {
            let (a, b) = (occupied[i], occupied[j]);
            a.0 < b.0 || (a.0 == b.0 && a.1 < b.1)
        };
    proof {
        assert forall|x: usize, y: usize| list@.contains(x) && list@.contains(y) implies
            #[trigger] less.requires((x, y)) by {
            let i = choose|i: int| 0 <= i < list@.len() && list@[i] == x;
            let j = choose|j: int| 0 <= j < list@.len() && list@[j] == y;
        }
        assert(compares(less, list@));
        assert(orders(less, rule));
    }
    let order = arrange(&list, &less);
    let mut taken: Vec<Span> = Vec::new();
    let mut k: usize = 0;
    while k < order.len()
        invariant
            k <= order.len(),
            taken.len() == k,
            list@ == upto(occupied@.len()),
            forall|y: usize| #[trigger] order@.contains(y) <==> list@.contains(y),
            forall|m: int| #![trigger taken@[m]]
                0 <= m < k ==> taken@[m] == occupied@[order@[m] as int],
        decreases order.len() - k,
    {
        proof {
            assert(order@.contains(order@[k as int]));
            let i = choose|i: int| 0 <= i < list@.len() && list@[i] == order@[k as int];
        }
        taken.push(occupied[order[k]]);
        k += 1;
    }
    assert(taken@ =~= in_sequence(occupied@));
    taken
}

/// What is left of a row once the pads in it are taken out.
///
/// Everything here is half-open: `(lower, upper)` with `upper` exclusive, so a width is simply
/// `upper - lower` and a gap begins exactly where the cell before it ends. No conversion of any
/// kind: nudging the bounds to make them closed leaves a one-unit sliver against every pad, and a
/// sliver is not a whole number of sites.
pub fn gaps(row: Span, occupied: &[Span]) -> (out: Vec<Span>)
    ensures
        out@ == gaps_of(row, occupied@),
{
    let taken = sorted_spans(occupied);
    let mut out: Vec<Span> = Vec::new();
    let mut at: i32 = row.0;
    let mut i: usize = 0;
    assert(taken@.take(0) =~= Seq::<Span>::empty());
    while i < taken.len()
        invariant
            i <= taken.len(),
            at == passed(row, taken@.take(i as int)),
            out@ == gaps_before(row, taken@.take(i as int)),
        decreases taken.len() - i,
    {
        assert(taken@.take(i + 1).drop_last() =~= taken@.take(i as int));
        let (lo, hi) = taken[i];
        let upper: i32 = if lo < row.1 { lo } else { row.1 };
        let ghost before = out@;
        if at < upper {
            out.push((at, upper));
        }
        assert(out@ =~= before + span_if(at, upper));
        if hi > at {
            at = hi;
        }
        i += 1;
    }
    assert(taken@.take(taken@.len() as int) =~= taken@);
    let ghost before = out@;
    if at < row.1 {
        out.push((at, row.1));
    }
    assert(out@ =~= before + span_if(at, row.1));
    out
}

/// The stretches in order are the stretches, and none starts before one ahead of it.
proof fn lemma_in_sequence(occupied: Seq<Span>)
    requires
        occupied.len() <= usize::MAX,
    ensures
        ({
            let taken = in_sequence(occupied);
            &&& forall|x: int| #[trigger] covers(taken, x) <==> covers(occupied, x)
            &&& forall|i: int, j: int|
                0 <= i < j < taken.len() ==> (#[trigger] taken[i]).0 <= (#[trigger] taken[j]).0
        }),
{
    let less = |i: usize, j: usize| span_before(occupied[i as int], occupied[j as int]);
    let list = upto(occupied.len());
    let order = arranged(list, less);
    let taken = in_sequence(occupied);
    law_arranged_same(list, less);
    assert(weak_order(less));
    law_arranged_in_order(list, less);
    assert forall|i: int, j: int| 0 <= i < j < taken.len() implies (#[trigger] taken[i]).0 <= (
    #[trigger] taken[j]).0 by {
        assert(!less(order[j], order[i]));
    }
    assert forall|x: int| #[trigger] covers(taken, x) <==> covers(occupied, x) by {
        if covers(taken, x) {
            let k = choose|k: int|
                0 <= k < taken.len() && (#[trigger] taken[k]).0 <= x < taken[k].1;
            assert(order.contains(order[k]));
            assert(list.contains(order[k]));
            let i = choose|i: int| 0 <= i < list.len() && list[i] == order[k];
            assert(occupied[i].0 <= x < occupied[i].1);
        }
        if covers(occupied, x) {
            let k = choose|k: int|
                0 <= k < occupied.len() && (#[trigger] occupied[k]).0 <= x < occupied[k].1;
            assert(list[k] == k as usize);
            assert(list.contains(k as usize));
            assert(order.contains(k as usize));
            let i = choose|i: int| 0 <= i < order.len() && order[i] == k as usize;
            assert(taken[i].0 <= x < taken[i].1);
        }
    }
}

/// What the gaps before some stretches hold.
proof fn lemma_gaps_before(row: Span, taken: Seq<Span>, x: int)
    requires
        forall|i: int, j: int|
            0 <= i < j < taken.len() ==> (#[trigger] taken[i]).0 <= (#[trigger] taken[j]).0,
    ensures
        covers(gaps_before(row, taken), x) ==> row.0 <= x < row.1 && !covers(taken, x)
            && taken.len() > 0 && x < taken.last().0,
        row.0 <= x < row.1 && x < passed(row, taken) ==> covers(gaps_before(row, taken), x)
            || covers(taken, x),
        row.0 <= x < row.1 && taken.len() > 0 && x < taken.last().0 ==> covers(
            gaps_before(row, taken),
            x,
        ) || covers(taken, x),
        covers(taken, x) ==> x < passed(row, taken),
        passed(row, taken) >= row.0,
    decreases taken.len(),
{
    if taken.len() > 0 {
        let head = taken.drop_last();
        let n = taken.len() - 1;
        assert forall|i: int, j: int| 0 <= i < j < head.len() implies (#[trigger] head[i]).0 <= (
        #[trigger] head[j]).0 by {
            assert(taken[i].0 <= taken[j].0);
        }
        lemma_gaps_before(row, head, x);
        let at = passed(row, head);
        let lo = taken.last().0;
        let upper = if lo < row.1 {
            lo
        } else {
            row.1
        };
        let (old_gaps, new_gap) = (gaps_before(row, head), span_if(at, upper));
        lemma_covers_join(old_gaps, new_gap, x);
        lemma_covers_if(at, upper, x);
        assert(taken =~= head + seq![taken.last()]);
        lemma_covers_join(head, seq![taken.last()], x);
        assert(covers(seq![taken.last()], x) <==> taken.last().0 <= x < taken.last().1) by {
            assert(seq![taken.last()][0] == taken.last());
        }
        if covers(old_gaps, x) {
            assert(head.len() > 0);
            assert(taken[head.len() - 1].0 <= taken[n].0);
            assert(head.last() == taken[head.len() - 1]);
        }
    }
}

proof fn lemma_covers_join(a: Seq<Span>, b: Seq<Span>, x: int)
    ensures
        covers(a + b, x) <==> covers(a, x) || covers(b, x),
{
    let c = a + b;
    if covers(a, x) {
        let k = choose|k: int| 0 <= k < a.len() && (#[trigger] a[k]).0 <= x < a[k].1;
        assert(c[k] == a[k]);
    }
    if covers(b, x) {
        let k = choose|k: int| 0 <= k < b.len() && (#[trigger] b[k]).0 <= x < b[k].1;
        assert(c[a.len() + k] == b[k]);
    }
    if covers(c, x) {
        let k = choose|k: int| 0 <= k < c.len() && (#[trigger] c[k]).0 <= x < c[k].1;
        if k < a.len() {
            assert(a[k] == c[k]);
        } else {
            assert(b[k - a.len()] == c[k]);
        }
    }
}

proof fn lemma_covers_if(a: i32, b: i32, x: int)
    ensures
        covers(span_if(a, b), x) <==> a <= x < b,
{
    if a < b {
        assert(span_if(a, b)[0] == (a, b));
    }
}

/// The gaps are what is left: a position of the row is in a gap exactly when nothing occupies it.
pub proof fn law_gaps_are_what_is_left(row: Span, occupied: Seq<Span>, x: int)
    requires
        occupied.len() <= usize::MAX,
    ensures
        covers(gaps_of(row, occupied), x) <==> row.0 <= x < row.1 && !covers(occupied, x),
{
    let taken = in_sequence(occupied);
    lemma_in_sequence(occupied);
    lemma_gaps_before(row, taken, x);
    let at = passed(row, taken);
    lemma_covers_join(gaps_before(row, taken), span_if(at, row.1), x);
    lemma_covers_if(at, row.1, x);
    assert(covers(taken, x) <==> covers(occupied, x));
}

/// No gap is empty.
pub proof fn law_gaps_not_empty(row: Span, occupied: Seq<Span>, k: int)
    requires
        0 <= k < gaps_of(row, occupied).len(),
    ensures
        gaps_of(row, occupied)[k].0 < gaps_of(row, occupied)[k].1,
{
    let taken = in_sequence(occupied);
    lemma_not_empty(row, taken);
    if k < gaps_before(row, taken).len() {
        assert(gaps_of(row, occupied)[k] == gaps_before(row, taken)[k]);
    }
}

proof fn lemma_not_empty(row: Span, taken: Seq<Span>)
    ensures
        forall|k: int|
            0 <= k < gaps_before(row, taken).len() ==> (#[trigger] gaps_before(row, taken)[k]).0
                < gaps_before(row, taken)[k].1,
    decreases taken.len(),
{
    if taken.len() > 0 {
        let head = taken.drop_last();
        lemma_not_empty(row, head);
        let all = gaps_before(row, taken);
        assert forall|k: int| 0 <= k < all.len() implies (#[trigger] all[k]).0 < all[k].1 by {
            if k < gaps_before(row, head).len() {
                assert(all[k] == gaps_before(row, head)[k]);
            }
        }
    }
}

/// A row being filled: its name, where it starts, and how wide its sites are.
pub struct Lane {
    pub name: Seq<char>,
    pub start: int,
    pub site_width: int,
}

/// How far a gap has been filled: what was placed, how many sites that took, and how many are left.
pub struct Filled {
    pub fills: Seq<FillView>,
    pub offset: int,
    pub sites: int,
}

/// How many sites a filler takes.
pub open spec fn sites_of(f: Filler, site_width: int) -> int {
    if f.width < 0 {
        0
    } else {
        f.width as int / site_width
    }
}

impl Lane {
    /// A filler `offset` sites into the gap `group` that starts at the site `start`.
    pub open spec fn fill(self, group: int, start: int, offset: int, f: Filler) -> FillView {
        FillView {
            name: "IO_FILL_"@ + self.name + "_"@ + decimal(group) + "_"@ + decimal(offset),
            master: f.master@,
            at: self.start + self.site_width * (start + offset),
            overlapping: f.overlapping,
        }
    }

    /// One filler placed as often as it goes: while it fits, or, where it may overlap, while
    /// anything is left.
    pub open spec fn with_filler(self, group: int, start: int, f: Filler, done: Filled) -> Filled
        decreases (if done.sites > 0 { done.sites } else { 0 }),
    {
        let cells = sites_of(f, self.site_width);
        if done.sites <= 0 || cells <= 0 || !(cells <= done.sites || f.overlapping) {
            done
        } else {
            self.with_filler(
                group,
                start,
                f,
                Filled {
                    fills: done.fills.push(self.fill(group, start, done.offset, f)),
                    offset: done.offset + cells,
                    sites: done.sites - cells,
                },
            )
        }
    }

    /// The listed fillers placed in turn.
    pub open spec fn with_fillers(
        self,
        group: int,
        start: int,
        fillers: Seq<Filler>,
        order: Seq<usize>,
        done: Filled,
    ) -> Filled
        decreases order.len(),
    {
        if order.len() == 0 {
            done
        } else {
            self.with_filler(
                group,
                start,
                fillers[order.last() as int],
                self.with_fillers(group, start, fillers, order.drop_last(), done),
            )
        }
    }

    /// The gaps filled one after the other, as far as the first that cannot be.
    pub open spec fn with_gaps(
        self,
        spans: Seq<Span>,
        fillers: Seq<Filler>,
        order: Seq<usize>,
        index_of: spec_fn(i32) -> i32,
    ) -> Result<Seq<FillView>, Unfilled>
        decreases spans.len(),
    {
        if spans.len() == 0 {
            Ok(Seq::empty())
        } else {
            match self.with_gaps(spans.drop_last(), fillers, order, index_of) {
                Err(e) => Err(e),
                Ok(fills) => {
                    let span = spans.last();
                    let width = span.1 - span.0;
                    if width % self.site_width != 0 {
                        Err(Unfilled::Ragged { span })
                    } else {
                        let done = self.with_fillers(
                            spans.len() - 1,
                            index_of(span.0) as int,
                            fillers,
                            order,
                            Filled { fills, offset: 0, sites: width / self.site_width },
                        );
                        if done.sites > 0 {
                            Err(Unfilled::Short { span })
                        } else {
                            Ok(done.fills)
                        }
                    }
                },
            }
        }
    }
}

/// The fillers, widest first; of two as wide, the one given first.
pub open spec fn widest_first(fillers: Seq<Filler>) -> Seq<usize> {
    arranged(
        upto(fillers.len()),
        |i: usize, j: usize| fillers[i as int].width > fillers[j as int].width,
    )
}

/// Every site of a gap has a position that fits, for a gap that starts at the site `start`.
pub open spec fn sites_fit(row_start: int, site_width: int, start: int, sites: int) -> bool {
    forall|k: int|
        0 <= k < sites ==> fits_i32(row_start + site_width * #[trigger] (start + k))
}

fn order_fillers(fillers: &[Filler]) -> (order: Vec<usize>)
    ensures
        order@ == widest_first(fillers@),
        forall|i: int| 0 <= i < order@.len() ==> (#[trigger] order@[i]) < fillers.len(),
{
    let list = count_to(fillers.len());
    let ghost rule = |i: usize, j: usize| fillers@[i as int].width > fillers@[j as int].width;
    let less = |i: usize, j: usize| -> (r: bool)
        requires
            i < fillers.len(),
            j < fillers.len(),
        ensures
            r == (fillers@[i as int].width > fillers@[j as int].width),
        { fillers[i].width > fillers[j].width };
    proof {
        assert forall|x: usize, y: usize| list@.contains(x) && list@.contains(y) implies
            #[trigger] less.requires((x, y)) by {
            let i = choose|i: int| 0 <= i < list@.len() && list@[i] == x;
            let j = choose|j: int| 0 <= j < list@.len() && list@[j] == y;
        }
        assert(compares(less, list@));
        assert(orders(less, rule));
    }
    let order = arrange(&list, &less);
    assert forall|i: int| 0 <= i < order@.len() implies (#[trigger] order@[i]) < fillers.len() by {
        assert(order@.contains(order@[i]));
        let j = choose|j: int| 0 <= j < list@.len() && list@[j] == order@[i];
    }
    order
}

spec fn lane_of(row_name: &str, row_start: i32, site_width: i32) -> Lane {
    Lane { name: row_name@, start: row_start as int, site_width: site_width as int }
}

fn make_fill(
    row_name: &str,
    row_start: i32,
    site_width: i32,
    group: usize,
    start: i32,
    offset: i64,
    f: &Filler,
) -> (fill: Fill)
    requires
        fits_i32(row_start + site_width * (start + offset)),
        0 <= offset <= 0x2_0000_0000,
        site_width > 0,
    ensures
        fill@ == lane_of(row_name, row_start, site_width).fill(
            group as int,
            start as int,
            offset as int,
            *f,
        ),
{
    let mut name = FILL_PREFIX.to_owned();
    name.append(row_name);
    name.append("_");
    push_count(&mut name, group);
    name.append("_");
    push_int(&mut name, offset);
    let (w, k): (i128, i128) = (site_width as i128, start as i128 + offset as i128);
    assert(-0x1_0000_0000_0000_0000_0000 <= w * k <= 0x1_0000_0000_0000_0000_0000)
        by (nonlinear_arith)
        requires
            0 < w <= 0x8000_0000,
            -0x4_0000_0000 <= k <= 0x4_0000_0000,
    ;
    Fill {
        name,
        master: f.master.clone(),
        at: (row_start as i128 + w * k) as i32,
        overlapping: f.overlapping,
    }
}

/// Place one filler as often as it goes.
fn place_filler(
    row_name: &str,
    row_start: i32,
    site_width: i32,
    group: usize,
    start: i32,
    f: &Filler,
    out: &mut Vec<Fill>,
    offset: i64,
    sites: i64,
    Ghost(all): Ghost<int>,
) -> (r: (i64, i64))
    requires
        site_width > 0,
        0 <= offset,
        offset + sites <= all || sites <= 0,
        all <= 0x1_0000_0000,
        offset <= 0x2_0000_0000,
        -0x1_0000_0000 <= sites,
        sites_fit(row_start as int, site_width as int, start as int, all),
    ensures
        ({
            let done = lane_of(row_name, row_start, site_width).with_filler(
                group as int,
                start as int,
                *f,
                Filled {
                    fills: fill_views(old(out)@),
                    offset: offset as int,
                    sites: sites as int,
                },
            );
            &&& fill_views(final(out)@) == done.fills
            &&& r.0 == done.offset
            &&& r.1 == done.sites
        }),
        0 <= r.0 <= 0x2_0000_0000,
        r.0 + r.1 <= all || r.1 <= 0,
        -0x1_0000_0000 <= r.1,
{
    let ghost lane = lane_of(row_name, row_start, site_width);
    let ghost first = Filled {
        fills: fill_views(out@),
        offset: offset as int,
        sites: sites as int,
    };
    let cells: i64 = if f.width < 0 { 0 } else { (f.width / site_width) as i64 };
    proof {
        if f.width >= 0 {
            vstd::arithmetic::div_mod::lemma_div_is_ordered_by_denominator(
                f.width as int,
                1,
                site_width as int,
            );
            vstd::arithmetic::div_mod::lemma_div_pos_is_pos(f.width as int, site_width as int);
        }
    }
    let mut offset: i64 = offset;
    let mut sites: i64 = sites;
    while sites > 0 && cells > 0 && (cells <= sites || f.overlapping)
        invariant
            site_width > 0,
            cells == sites_of(*f, site_width as int),
            0 <= cells <= 0x8000_0000,
            0 <= offset <= 0x2_0000_0000,
            offset + sites <= all || sites <= 0,
            all <= 0x1_0000_0000,
            -0x1_0000_0000 <= sites,
            sites_fit(row_start as int, site_width as int, start as int, all),
            lane == lane_of(row_name, row_start, site_width),
            lane.with_filler(group as int, start as int, *f, first) == lane.with_filler(
                group as int,
                start as int,
                *f,
                Filled {
                    fills: fill_views(out@),
                    offset: offset as int,
                    sites: sites as int,
                },
            ),
        decreases (if sites > 0 { sites } else { 0 }),
    {
        let ghost before = fill_views(out@);
        assert(fits_i32(row_start + site_width * (start + offset)));
        out.push(make_fill(row_name, row_start, site_width, group, start, offset, f));
        assert(fill_views(out@) =~= before.push(
            lane.fill(group as int, start as int, offset as int, *f),
        ));
        offset = offset + cells;
        sites = sites - cells;
    }
    (offset, sites)
}

/// Pack one row's gaps with fillers.
///
/// Fillers are tried widest first, and the order among equal widths is the order given. A filler
/// marked overlapping keeps being placed after it no longer fits: those cells are meant to sit over
/// their neighbours rather than beside them. The loop still ends, because the remaining site count
/// is what stops it.
///
/// `row_start` is the row's own beginning; positions come out as `row_start + site_width * index`,
/// in units of sites rather than of the row's step.
pub fn fill_row<F: Fn(i32) -> i32>(
    row_name: &str,
    row_span: Span,
    occupied: &[Span],
    row_start: i32,
    site_width: i32,
    site_index_of: &F,
    fillers: &[Filler],
) -> (r: Result<Vec<Fill>, Unfilled>)
    requires
        total_index(*site_index_of),
        site_width > 0 ==> forall|k: int, i: i32|
            0 <= k < gaps_of(row_span, occupied@).len() && #[trigger] site_index_of.ensures(
                (gaps_of(row_span, occupied@)[k].0,),
                i,
            ) ==> sites_fit(
                row_start as int,
                site_width as int,
                i as int,
                (gaps_of(row_span, occupied@)[k].1 - gaps_of(row_span, occupied@)[k].0)
                    / site_width as int,
            ),
    ensures
        site_width <= 0 ==> (r matches Ok(fills) && fills@.len() == 0),
        site_width > 0 ==> forall|rule: spec_fn(i32) -> i32| #[trigger]
            follows_index(*site_index_of, rule) ==> filled_as(
                r,
                (Lane {
                    name: row_name@,
                    start: row_start as int,
                    site_width: site_width as int,
                }).with_gaps(
                    gaps_of(row_span, occupied@),
                    fillers@,
                    widest_first(fillers@),
                    rule,
                ),
            ),
{
    if site_width <= 0 {
        return Ok(Vec::new());
    }
    let order = order_fillers(fillers);
    let spans = gaps(row_span, occupied);
    let ghost lane = lane_of(row_name, row_start, site_width);
    let mut out: Vec<Fill> = Vec::new();
    let mut g: usize = 0;
    assert(spans@.take(0) =~= Seq::<Span>::empty());
    assert(fill_views(out@) =~= Seq::<FillView>::empty());
    while g < spans.len()
        invariant
            g <= spans.len(),
            site_width > 0,
            lane == lane_of(row_name, row_start, site_width),
            total_index(*site_index_of),
            order@ == widest_first(fillers@),
            forall|i: int| 0 <= i < order@.len() ==> (#[trigger] order@[i]) < fillers.len(),
            spans@ == gaps_of(row_span, occupied@),
            forall|k: int, i: i32|
                0 <= k < spans@.len() && #[trigger] site_index_of.ensures((spans@[k].0,), i)
                    ==> sites_fit(
                    row_start as int,
                    site_width as int,
                    i as int,
                    (spans@[k].1 - spans@[k].0) / site_width as int,
                ),
            forall|rule: spec_fn(i32) -> i32| #[trigger]
                follows_index(*site_index_of, rule) ==> lane.with_gaps(
                    spans@.take(g as int),
                    fillers@,
                    order@,
                    rule,
                ) == Ok::<Seq<FillView>, Unfilled>(fill_views(out@)),
        decreases spans.len() - g,
    {
        assert(spans@.take(g + 1).drop_last() =~= spans@.take(g as int));
        let span = spans[g];
        let ghost so_far = fill_views(out@);
        proof {
            law_gaps_not_empty(row_span, occupied@, g as int);
        }
        let width: i64 = span.1 as i64 - span.0 as i64;
        let unit: i64 = site_width as i64;
        if width % unit != 0 {
            let e = Unfilled::Ragged { span };
            assert forall|rule: spec_fn(i32) -> i32| #[trigger]
                follows_index(*site_index_of, rule) implies lane.with_gaps(
                spans@,
                fillers@,
                order@,
                rule,
            ) == Err::<Seq<FillView>, Unfilled>(e) by {
                assert(lane.with_gaps(spans@.take(g + 1), fillers@, order@, rule) == Err::<
                    Seq<FillView>,
                    Unfilled,
                >(e));
                lemma_first_error(lane, spans@, fillers@, order@, rule, g + 1, e);
            }
            return Err(e);
        }
        let mut sites: i64 = width / unit;
        proof {
            vstd::arithmetic::div_mod::lemma_div_is_ordered_by_denominator(
                width as int,
                1,
                unit as int,
            );
            vstd::arithmetic::div_mod::lemma_div_pos_is_pos(width as int, unit as int);
        }
        let ghost all = sites as int;
        let start: i32 = site_index_of(span.0);
        assert(spans@[g as int].0 == span.0);
        let mut offset: i64 = 0;
        let ghost first = Filled { fills: so_far, offset: 0, sites: all };
        let mut k: usize = 0;
        assert(order@.take(0) =~= Seq::<usize>::empty());
        while k < order.len()
            invariant
                k <= order.len(),
                site_width > 0,
                lane == lane_of(row_name, row_start, site_width),
                forall|i: int| 0 <= i < order@.len() ==> (#[trigger] order@[i]) < fillers.len(),
                0 <= offset <= 0x2_0000_0000,
                offset + sites <= all || sites <= 0,
                0 <= all <= 0x1_0000_0000,
                -0x1_0000_0000 <= sites,
                sites_fit(row_start as int, site_width as int, start as int, all),
                (Filled {
                    fills: fill_views(out@),
                    offset: offset as int,
                    sites: sites as int,
                }) == lane.with_fillers(
                    g as int,
                    start as int,
                    fillers@,
                    order@.take(k as int),
                    first,
                ),
            decreases order.len() - k,
        {
            assert(order@.take(k + 1).drop_last() =~= order@.take(k as int));
            let (o, s) = place_filler(
                row_name,
                row_start,
                site_width,
                g,
                start,
                &fillers[order[k]],
                &mut out,
                offset,
                sites,
                Ghost(all),
            );
            offset = o;
            sites = s;
            k += 1;
        }
        assert(order@.take(order@.len() as int) =~= order@);
        if sites > 0 {
            let e = Unfilled::Short { span };
            assert forall|rule: spec_fn(i32) -> i32| #[trigger]
                follows_index(*site_index_of, rule) implies lane.with_gaps(
                spans@,
                fillers@,
                order@,
                rule,
            ) == Err::<Seq<FillView>, Unfilled>(e) by {
                assert(lane.with_gaps(spans@.take(g + 1), fillers@, order@, rule) == Err::<
                    Seq<FillView>,
                    Unfilled,
                >(e));
                lemma_first_error(lane, spans@, fillers@, order@, rule, g + 1, e);
            }
            return Err(e);
        }
        g += 1;
    }
    assert(spans@.take(spans@.len() as int) =~= spans@);
    Ok(out)
}

/// The first gap that cannot be filled decides.
proof fn lemma_first_error(
    lane: Lane,
    spans: Seq<Span>,
    fillers: Seq<Filler>,
    order: Seq<usize>,
    rule: spec_fn(i32) -> i32,
    g: int,
    e: Unfilled,
)
    requires
        0 <= g <= spans.len(),
        lane.with_gaps(spans.take(g), fillers, order, rule) == Err::<Seq<FillView>, Unfilled>(e),
    ensures
        lane.with_gaps(spans, fillers, order, rule) == Err::<Seq<FillView>, Unfilled>(e),
    decreases spans.len() - g,
{
    if g < spans.len() {
        assert(spans.take(g + 1).drop_last() =~= spans.take(g));
        lemma_first_error(lane, spans, fillers, order, rule, g + 1, e);
    } else {
        assert(spans.take(g) =~= spans);
    }
}

/// What was returned is what was owed.
pub open spec fn filled_as(
    r: Result<Vec<Fill>, Unfilled>,
    want: Result<Seq<FillView>, Unfilled>,
) -> bool {
    match (r, want) {
        (Ok(fills), Ok(views)) => fill_views(fills@) == views,
        (Err(a), Err(b)) => a == b,
        _ => false,
    }
}

/// A site index is given for any position.
pub open spec fn total_index<F: Fn(i32) -> i32>(f: F) -> bool {
    forall|p: i32| #[trigger] f.requires((p,))
}

/// The site indices are those of a rule.
pub open spec fn follows_index<F: Fn(i32) -> i32>(f: F, rule: spec_fn(i32) -> i32) -> bool {
    forall|p: i32, r: i32| #[trigger] f.ensures((p,), r) ==> r == rule(p)
}

/// The site `k` of a gap lies under a filler that was placed, and one of those given.
pub open spec fn covered(
    lane: Lane,
    group: int,
    start: int,
    fillers: Seq<Filler>,
    fills: Seq<FillView>,
    k: int,
) -> bool {
    exists|i: int, o: int|
        0 <= i < fillers.len() && o <= k < o + sites_of(fillers[i], lane.site_width)
            && fills.contains(#[trigger] lane.fill(group, start, o, fillers[i]))
}

/// What is covered stays so as more is placed.
proof fn lemma_still_covered(
    lane: Lane,
    group: int,
    start: int,
    fillers: Seq<Filler>,
    fills: Seq<FillView>,
    more: Seq<FillView>,
    k: int,
)
    requires
        fills.is_prefix_of(more),
        covered(lane, group, start, fillers, fills, k),
    ensures
        covered(lane, group, start, fillers, more, k),
{
    let (i, o) = choose|i: int, o: int|
        0 <= i < fillers.len() && o <= k < o + sites_of(fillers[i], lane.site_width)
            && fills.contains(#[trigger] lane.fill(group, start, o, fillers[i]));
    let f = lane.fill(group, start, o, fillers[i]);
    let j = choose|j: int| 0 <= j < fills.len() && fills[j] == f;
    assert(more[j] == f);
}

/// Placing a filler covers what it counts, and takes nothing away.
proof fn lemma_filler_covers(
    lane: Lane,
    group: int,
    start: int,
    fillers: Seq<Filler>,
    i: int,
    done: Filled,
)
    requires
        0 <= i < fillers.len(),
        forall|k: int| 0 <= k < done.offset ==> #[trigger]
            covered(lane, group, start, fillers, done.fills, k),
    ensures
        ({
            let after = lane.with_filler(group, start, fillers[i], done);
            &&& done.fills.is_prefix_of(after.fills)
            &&& after.offset + after.sites == done.offset + done.sites
            &&& !fillers[i].overlapping && done.sites >= 0 ==> after.sites >= 0
            &&& forall|k: int| 0 <= k < after.offset ==> #[trigger]
                covered(lane, group, start, fillers, after.fills, k)
        }),
    decreases (if done.sites > 0 { done.sites } else { 0 }),
{
    let f = fillers[i];
    let cells = sites_of(f, lane.site_width);
    if !(done.sites <= 0 || cells <= 0 || !(cells <= done.sites || f.overlapping)) {
        let fill = lane.fill(group, start, done.offset, f);
        let next = Filled {
            fills: done.fills.push(fill),
            offset: done.offset + cells,
            sites: done.sites - cells,
        };
        assert forall|k: int| 0 <= k < next.offset implies #[trigger] covered(
            lane,
            group,
            start,
            fillers,
            next.fills,
            k,
        ) by {
            if k < done.offset {
                assert(covered(lane, group, start, fillers, done.fills, k));
                lemma_still_covered(lane, group, start, fillers, done.fills, next.fills, k);
            } else {
                assert(next.fills[done.fills.len() as int] == lane.fill(
                    group,
                    start,
                    done.offset,
                    fillers[i],
                ));
            }
        }
        lemma_filler_covers(lane, group, start, fillers, i, next);
    }
}

proof fn lemma_fillers_cover(
    lane: Lane,
    group: int,
    start: int,
    fillers: Seq<Filler>,
    order: Seq<usize>,
    done: Filled,
)
    requires
        forall|j: int| 0 <= j < order.len() ==> (#[trigger] order[j]) < fillers.len(),
        forall|k: int| 0 <= k < done.offset ==> #[trigger]
            covered(lane, group, start, fillers, done.fills, k),
    ensures
        ({
            let after = lane.with_fillers(group, start, fillers, order, done);
            &&& done.fills.is_prefix_of(after.fills)
            &&& after.offset + after.sites == done.offset + done.sites
            &&& done.sites >= 0 && (forall|j: int|
                0 <= j < fillers.len() ==> !(#[trigger] fillers[j]).overlapping) ==> after.sites
                >= 0
            &&& forall|k: int| 0 <= k < after.offset ==> #[trigger]
                covered(lane, group, start, fillers, after.fills, k)
        }),
    decreases order.len(),
{
    if order.len() > 0 {
        let head = order.drop_last();
        assert forall|j: int| 0 <= j < head.len() implies (#[trigger] head[j])
            < fillers.len() by {
            assert(order[j] == head[j]);
        }
        lemma_fillers_cover(lane, group, start, fillers, head, done);
        let mid = lane.with_fillers(group, start, fillers, head, done);
        assert(order[order.len() - 1] < fillers.len());
        lemma_filler_covers(lane, group, start, fillers, order.last() as int, mid);
    }
}

proof fn lemma_order_within(fillers: Seq<Filler>)
    requires
        fillers.len() <= usize::MAX,
    ensures
        forall|j: int|
            0 <= j < widest_first(fillers).len() ==> (#[trigger] widest_first(fillers)[j])
                < fillers.len(),
{
    let rule = |i: usize, j: usize| fillers[i as int].width > fillers[j as int].width;
    let all = upto(fillers.len());
    law_arranged_same(all, rule);
    assert forall|j: int| 0 <= j < widest_first(fillers).len() implies (
    #[trigger] widest_first(fillers)[j]) < fillers.len() by {
        assert(arranged(all, rule).contains(widest_first(fillers)[j]));
        let i = choose|i: int| 0 <= i < all.len() && all[i] == widest_first(fillers)[j];
    }
}

/// A row that is filled has no hole left: every site of every gap lies under a filler.
pub proof fn law_no_hole(
    lane: Lane,
    spans: Seq<Span>,
    fillers: Seq<Filler>,
    index_of: spec_fn(i32) -> i32,
    g: int,
    k: int,
)
    requires
        lane.site_width > 0,
        fillers.len() <= usize::MAX,
        lane.with_gaps(spans, fillers, widest_first(fillers), index_of) is Ok,
        0 <= g < spans.len(),
        0 <= k < (spans[g].1 - spans[g].0) / lane.site_width,
    ensures
        covered(
            lane,
            g,
            index_of(spans[g].0) as int,
            fillers,
            lane.with_gaps(spans, fillers, widest_first(fillers), index_of)->Ok_0,
            k,
        ),
    decreases spans.len(),
{
    let order = widest_first(fillers);
    let head = spans.drop_last();
    let fills = lane.with_gaps(head, fillers, order, index_of)->Ok_0;
    let span = spans.last();
    let n = (span.1 - span.0) / lane.site_width;
    let start = index_of(span.0) as int;
    let first = Filled { fills, offset: 0, sites: n };
    lemma_order_within(fillers);
    lemma_fillers_cover(lane, spans.len() - 1, start, fillers, order, first);
    let done = lane.with_fillers(spans.len() - 1, start, fillers, order, first);
    if g < head.len() {
        law_no_hole(lane, head, fillers, index_of, g, k);
        assert(head[g] == spans[g]);
        lemma_still_covered(
            lane,
            g,
            index_of(spans[g].0) as int,
            fillers,
            fills,
            done.fills,
            k,
        );
    } else {
        assert(spans[g] == span);
        assert(covered(lane, g, start, fillers, done.fills, k));
    }
}

/// Fillers that may not overlap take exactly the sites of a gap that they fill.
pub proof fn law_fills_exactly(
    lane: Lane,
    group: int,
    start: int,
    fillers: Seq<Filler>,
    fills: Seq<FillView>,
    sites: int,
)
    requires
        fillers.len() <= usize::MAX,
        sites >= 0,
        forall|j: int| 0 <= j < fillers.len() ==> !(#[trigger] fillers[j]).overlapping,
    ensures
        ({
            let done = lane.with_fillers(
                group,
                start,
                fillers,
                widest_first(fillers),
                Filled { fills, offset: 0, sites },
            );
            done.sites <= 0 ==> done.offset == sites
        }),
{
    lemma_order_within(fillers);
    lemma_fillers_cover(
        lane,
        group,
        start,
        fillers,
        widest_first(fillers),
        Filled { fills, offset: 0, sites },
    );
}

/// No two fillers of a row have the same name: it tells the gap, and how far into it the filler is.
pub proof fn law_names_distinct(
    lane: Lane,
    group: int,
    start: int,
    offset: int,
    f: Filler,
    other_group: int,
    other_start: int,
    other_offset: int,
    other: Filler,
)
    requires
        group >= 0,
        offset >= 0,
        other_group >= 0,
        other_offset >= 0,
        lane.fill(group, start, offset, f).name == lane.fill(
            other_group,
            other_start,
            other_offset,
            other,
        ).name,
    ensures
        group == other_group,
        offset == other_offset,
{
    let head = "IO_FILL_"@ + lane.name;
    crate::text::lemma_numbered(
        head + "_"@ + decimal(group),
        offset as nat,
        head + "_"@ + decimal(other_group),
        other_offset as nat,
    );
    crate::text::lemma_numbered(head, group as nat, head, other_group as nat);
}

/// The gaps come in the order of the row, and no two overlap.
pub proof fn law_gaps_in_order(row: Span, occupied: Seq<Span>, i: int, j: int)
    requires
        occupied.len() <= usize::MAX,
        forall|k: int| 0 <= k < occupied.len() ==> (#[trigger] occupied[k]).0 <= occupied[k].1,
        0 <= i < j < gaps_of(row, occupied).len(),
    ensures
        gaps_of(row, occupied)[i].1 <= gaps_of(row, occupied)[j].0,
{
    let taken = in_sequence(occupied);
    lemma_in_sequence(occupied);
    assert forall|k: int| 0 <= k < taken.len() implies (#[trigger] taken[k]).0 <= taken[k].1 by {
        let rule = |i: usize, j: usize| span_before(occupied[i as int], occupied[j as int]);
        let order = arranged(upto(occupied.len()), rule);
        law_arranged_same(upto(occupied.len()), rule);
        assert(order.contains(order[k]));
        let m = choose|m: int| 0 <= m < upto(occupied.len()).len() && upto(occupied.len())[m]
            == order[k];
        assert(occupied[order[k] as int].0 <= occupied[order[k] as int].1);
    }
    lemma_gaps_rise(row, taken);
    let all = gaps_of(row, occupied);
    let before = gaps_before(row, taken);
    if j < before.len() {
        assert(all[i] == before[i] && all[j] == before[j]);
    } else {
        assert(all[i] == before[i]);
    }
}

/// The gaps before some stretches rise, and end where the row is known.
proof fn lemma_gaps_rise(row: Span, taken: Seq<Span>)
    requires
        forall|k: int| 0 <= k < taken.len() ==> (#[trigger] taken[k]).0 <= taken[k].1,
    ensures
        forall|k: int|
            0 <= k < gaps_before(row, taken).len() ==> (#[trigger] gaps_before(row, taken)[k]).1
                <= passed(row, taken),
        forall|i: int, j: int|
            0 <= i < j < gaps_before(row, taken).len() ==> (#[trigger] gaps_before(row, taken)[i]).1
                <= (#[trigger] gaps_before(row, taken)[j]).0,
    decreases taken.len(),
{
    if taken.len() > 0 {
        let head = taken.drop_last();
        assert forall|k: int| 0 <= k < head.len() implies (#[trigger] head[k]).0 <= head[k].1 by {
            assert(taken[k] == head[k]);
        }
        lemma_gaps_rise(row, head);
        assert(taken[taken.len() - 1] == taken.last());
        let (all, before) = (gaps_before(row, taken), gaps_before(row, head));
        assert forall|k: int| 0 <= k < all.len() implies (#[trigger] all[k]).1 <= passed(
            row,
            taken,
        ) by {
            if k < before.len() {
                assert(all[k] == before[k]);
            }
        }
        assert forall|i: int, j: int| 0 <= i < j < all.len() implies (#[trigger] all[i]).1 <= (
        #[trigger] all[j]).0 by {
            assert(all[i] == before[i]);
            if j < before.len() {
                assert(all[j] == before[j]);
            }
        }
    }
}

/// Where a filler stands: on the site it is counted to, from the start of the row.
pub proof fn law_fill_stands_on_its_site(
    lane: Lane,
    group: int,
    start: int,
    offset: int,
    more: int,
    f: Filler,
    g: Filler,
)
    ensures
        lane.fill(group, start, offset + more, g).at - lane.fill(group, start, offset, f).at == more
            * lane.site_width,
        lane.fill(group, start, -start, f).at == lane.start,
        lane.fill(group, start, offset, f).master == f.master@,
        lane.fill(group, start, offset, f).overlapping == f.overlapping,
{
    let w = lane.site_width;
    assert(w * (start + (offset + more)) - w * (start + offset) == more * w) by (nonlinear_arith);
    assert(w * (start + -start) == 0) by (nonlinear_arith);
}

/// The wider filler is tried first, and of two as wide the one that was given first; each is tried.
pub proof fn law_widest_first(fillers: Seq<Filler>, i: int, j: int, t: usize)
    requires
        fillers.len() <= usize::MAX,
        0 <= i < j < widest_first(fillers).len(),
    ensures
        ({
            let order = widest_first(fillers);
            let (a, b) = (order[i], order[j]);
            &&& order.len() == fillers.len()
            &&& order.contains(t) <==> t < fillers.len()
            &&& fillers[a as int].width >= fillers[b as int].width
            &&& fillers[a as int].width == fillers[b as int].width ==> a < b
        }),
{
    let rule = |i: usize, j: usize| fillers[i as int].width > fillers[j as int].width;
    let all = upto(fillers.len());
    assert(crate::lists::increasing(all));
    assert(crate::sort::weak_order(rule));
    law_arranged_same(all, rule);
    crate::sort::law_arranged_in_order(all, rule);
    crate::sort::law_arranged_steady(all, rule);
    let order = widest_first(fillers);
    assert(!rule(order[j], order[i]));
    assert(!rule(order[i], order[j]) ==> order[i] < order[j]);
    if t < fillers.len() {
        assert(all[t as int] == t);
    }
    assert(order.contains(t) <==> all.contains(t));
}

/// A filler that may not overlap is placed as often as it goes into the sites left, each behind the one
/// before, and leaves less than it takes itself.
pub proof fn law_placed_as_often_as_it_goes(
    lane: Lane,
    group: int,
    start: int,
    f: Filler,
    done: Filled,
    k: int,
)
    requires
        !f.overlapping,
        lane.site_width > 0,
        f.width >= lane.site_width,
        done.sites >= 0,
    ensures
        ({
            let after = lane.with_filler(group, start, f, done);
            let cells = f.width as int / lane.site_width;
            let n = done.sites / cells;
            &&& after.sites == done.sites - n * cells
            &&& 0 <= after.sites < cells
            &&& after.offset == done.offset + n * cells
            &&& after.fills.len() == done.fills.len() + n
            &&& done.fills.is_prefix_of(after.fills)
            &&& 0 <= k < n ==> after.fills[done.fills.len() + k] == lane.fill(
                group,
                start,
                done.offset + k * cells,
                f,
            )
        }),
    decreases done.sites,
{
    let cells = f.width as int / lane.site_width;
    assert(cells > 0) by (nonlinear_arith)
        requires
            cells == f.width as int / lane.site_width,
            lane.site_width > 0,
            f.width >= lane.site_width,
    ;
    let n = done.sites / cells;
    vstd::arithmetic::div_mod::lemma_fundamental_div_mod(done.sites, cells);
    vstd::arithmetic::div_mod::lemma_mod_bound(done.sites, cells);
    assert(cells * n == n * cells) by (nonlinear_arith);
    if cells <= done.sites {
        let next = Filled {
            fills: done.fills.push(lane.fill(group, start, done.offset, f)),
            offset: done.offset + cells,
            sites: done.sites - cells,
        };
        law_placed_as_often_as_it_goes(lane, group, start, f, next, k - 1);
        assert((n - 1) * cells == n * cells - cells) by (nonlinear_arith);
        vstd::arithmetic::div_mod::lemma_fundamental_div_mod_converse(
            next.sites,
            cells,
            n - 1,
            done.sites % cells,
        );
        assert((k - 1) * cells == k * cells - cells) by (nonlinear_arith);
        let after = lane.with_filler(group, start, f, done);
        assert(after == lane.with_filler(group, start, f, next));
        if k == 0 && 0 < n {
            assert(0 * cells == 0) by (nonlinear_arith);
            assert(after.fills[done.fills.len() as int] == next.fills[done.fills.len() as int]);
        }
        assert forall|i: int| 0 <= i < done.fills.len() implies after.fills[i] == done.fills[i] by {
            assert(next.fills[i] == done.fills[i]);
            assert(after.fills[i] == next.fills[i]);
        }
    } else {
        vstd::arithmetic::div_mod::lemma_basic_div(done.sites, cells);
        assert(0 * cells == 0) by (nonlinear_arith);
    }
}

/// A filler that may overlap leaves nothing.
pub proof fn law_overlapping_leaves_nothing(
    lane: Lane,
    group: int,
    start: int,
    f: Filler,
    done: Filled,
)
    requires
        f.overlapping,
        lane.site_width > 0,
        f.width >= lane.site_width,
    ensures
        lane.with_filler(group, start, f, done).sites <= 0,
        done.sites > 0 ==> lane.with_filler(group, start, f, done).sites > -(f.width as int
            / lane.site_width),
    decreases (if done.sites > 0 { done.sites } else { 0 }),
{
    let cells = f.width as int / lane.site_width;
    assert(cells > 0) by (nonlinear_arith)
        requires
            cells == f.width as int / lane.site_width,
            lane.site_width > 0,
            f.width >= lane.site_width,
    ;
    if done.sites > 0 {
        let next = Filled {
            fills: done.fills.push(lane.fill(group, start, done.offset, f)),
            offset: done.offset + cells,
            sites: done.sites - cells,
        };
        law_overlapping_leaves_nothing(lane, group, start, f, next);
    }
}

/// A row is filled only where every gap is a whole number of sites; one that is not is reported as such.
pub proof fn law_ragged_gaps_are_refused(
    lane: Lane,
    spans: Seq<Span>,
    fillers: Seq<Filler>,
    order: Seq<usize>,
    index_of: spec_fn(i32) -> i32,
    g: int,
)
    requires
        0 <= g < spans.len(),
    ensures
        match lane.with_gaps(spans, fillers, order, index_of) {
            Ok(_) => (spans[g].1 - spans[g].0) % lane.site_width == 0,
            Err(Unfilled::Ragged { span }) => spans.contains(span) && (span.1 - span.0)
                % lane.site_width != 0,
            Err(Unfilled::Short { span }) => spans.contains(span) && (span.1 - span.0)
                % lane.site_width == 0,
        },
    decreases spans.len(),
{
    let head = spans.drop_last();
    assert(spans[spans.len() - 1] == spans.last());
    if head.len() > 0 {
        let h = if g < head.len() {
            g
        } else {
            0
        };
        law_ragged_gaps_are_refused(lane, head, fillers, order, index_of, h);
        assert(head[h] == spans[h]);
        match lane.with_gaps(head, fillers, order, index_of) {
            Err(Unfilled::Ragged { span }) => {
                let k = head.index_of(span);
                assert(spans[k] == span);
            },
            Err(Unfilled::Short { span }) => {
                let k = head.index_of(span);
                assert(spans[k] == span);
            },
            Ok(_) => {},
        }
    } else {
        assert(lane.with_gaps(head, fillers, order, index_of) is Ok);
    }
}

} // verus!
