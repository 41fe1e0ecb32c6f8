//! Assigning a net to a bump.
//!
//! A bump carries one net down to the die. Assigning it connects the bump's own terminals to that
//! net, optionally ties a named pad terminal to the same net, and gives the net a block terminal on
//! the bump's top layer, the point the package attaches to.

use crate::geom::{half, halve, Rect};
use crate::lists::copy_names;
use crate::text::{copy_option, text_of};
use vstd::prelude::*;

verus! {

/// One terminal of a bump, with its shapes in master coordinates.
#[derive(Debug, PartialEq, Eq)]
pub struct BumpTerm {
    pub name: String,
    pub net: Option<String>,
    /// `(layer name, routing level, rectangle)`.
    pub shapes: Vec<(String, i32, Rect)>,
}

/// What assigning implies. Every field is in the order it must be applied.
#[derive(Debug, PartialEq, Eq)]
pub struct Assignment {
    /// Bump terminals to attach to the net.
    pub connect: Vec<String>,
    /// The named pad terminal, if it needs attaching too.
    pub terminal: Option<String>,
    /// The block terminal to make: layer and shape, still in master coordinates.
    pub bterm: Option<(String, Rect)>,
}

impl Clone for BumpTerm {
    fn clone(&self) -> (copy: BumpTerm)
        ensures
            copy.name == self.name,
            copy.net == self.net,
            copy.shapes@ == self.shapes@,
    {
        let mut shapes: Vec<(String, i32, Rect)> = Vec::new();
        let mut i: usize = 0;
        while i < self.shapes.len()
            invariant
                i <= self.shapes.len(),
                shapes@ == self.shapes@.take(i as int),
            decreases self.shapes.len() - i,
        {
            shapes.push((self.shapes[i].0.clone(), self.shapes[i].1, self.shapes[i].2));
            assert(shapes@ =~= self.shapes@.take(i + 1));
            i += 1;
        }
        assert(shapes@ =~= self.shapes@);
        BumpTerm { name: self.name.clone(), net: copy_option(&self.net), shapes }
    }
}

impl Clone for Assignment {
    fn clone(&self) -> (copy: Assignment)
        ensures
            copy.connect@ == self.connect@,
            copy.terminal == self.terminal,
            copy.bterm == self.bterm,
    {
        let bterm = match &self.bterm {
            Some((layer, rect)) => Some((layer.clone(), *rect)),
            None => None,
        };
        Assignment {
            connect: copy_names(&self.connect),
            terminal: copy_option(&self.terminal),
            bterm,
        }
    }
}

impl Default for Assignment {
    fn default() -> (a: Assignment)
        ensures
            a.connect@.len() == 0,
            a.terminal is None,
            a.bterm is None,
    {
        Assignment { connect: Vec::new(), terminal: None, bterm: None }
    }
}

/// Why an assignment was refused.
#[derive(Debug, Clone, PartialEq, Eq)]
pub enum Refused {
    /// The named pad terminal already belongs to a different net.
    WrongNet { terminal: String, net: String },
}

/// The names of the terminals that are not on the net, in order.
pub open spec fn unconnected(terms: Seq<BumpTerm>, net: Seq<char>) -> Seq<Seq<char>>
    decreases terms.len(),
{
    if terms.len() == 0 {
        Seq::empty()
    } else {
        let rest = unconnected(terms.drop_last(), net);
        if text_of(terms.last().net) == Some(net) {
            rest
        } else {
            rest.push(terms.last().name@)
        }
    }
}

/// A shape and the layer it is on.
pub type Piece = (Seq<char>, i32, Rect);

/// All shapes of the terminals, in order.
pub open spec fn pieces(terms: Seq<BumpTerm>) -> Seq<Piece>
    decreases terms.len(),
{
    if terms.len() == 0 {
        Seq::empty()
    } else {
        pieces(terms.drop_last()) + pieces_of(terms.last().shapes@)
    }
}

pub open spec fn pieces_of(shapes: Seq<(String, i32, Rect)>) -> Seq<Piece> {
    Seq::new(shapes.len(), |i: int| (shapes[i].0@, shapes[i].1, shapes[i].2))
}

/// The shapes gathered: each on a layer at least as high as the highest gathered so far. What was
/// gathered from a lower layer stays.
pub open spec fn gathered(all: Seq<Piece>) -> Seq<Piece>
    decreases all.len(),
{
    if all.len() == 0 {
        Seq::empty()
    } else {
        let kept = gathered(all.drop_last());
        if kept.len() == 0 || kept.last().1 <= all.last().1 {
            kept.push(all.last())
        } else {
            kept
        }
    }
}

/// The first rectangle comes before the second: by its lower-left and then its upper-right corner.
pub open spec fn rect_before(a: Rect, b: Rect) -> bool {
    if a.0 != b.0 {
        a.0 < b.0
    } else if a.1 != b.1 {
        a.1 < b.1
    } else if a.2 != b.2 {
        a.2 < b.2
    } else {
        a.3 < b.3
    }
}

/// The rectangle holds the point: one on the boundary is inside.
pub open spec fn holds(r: Rect, p: (int, int)) -> bool {
    r.0 <= p.0 <= r.2 && r.1 <= p.1 <= r.3
}

pub open spec fn centre_of(r: Rect) -> (int, int) {
    (half(r.0 + r.2), half(r.1 + r.3))
}

/// A gathered shape that holds the centre beats one that does not; of two that do, the later in
/// order wins, and of two that do not, the earlier.
pub open spec fn preferred(a: Rect, b: Rect, centre: (int, int)) -> bool {
    if holds(a, centre) != holds(b, centre) {
        holds(a, centre)
    } else if holds(a, centre) {
        rect_before(b, a)
    } else {
        rect_before(a, b)
    }
}

/// The one of the gathered shapes that no other is preferred to.
pub open spec fn is_choice(kept: Seq<Piece>, centre: (int, int), r: Rect) -> bool {
    &&& exists|i: int| 0 <= i < kept.len() && (#[trigger] kept[i]).2 == r
    &&& forall|i: int| 0 <= i < kept.len() ==> !preferred((#[trigger] kept[i]).2, r, centre)
}

/// No two shapes are both the choice.
pub proof fn law_one_choice(kept: Seq<Piece>, centre: (int, int), a: Rect, b: Rect)
    requires
        is_choice(kept, centre, a),
        is_choice(kept, centre, b),
    ensures
        a == b,
{
    let i = choose|i: int| 0 <= i < kept.len() && (#[trigger] kept[i]).2 == a;
    let j = choose|j: int| 0 <= j < kept.len() && (#[trigger] kept[j]).2 == b;
    assert(!preferred(kept[i].2, b, centre));
    assert(!preferred(kept[j].2, a, centre));
}

fn is_before(a: Rect, b: Rect) -> (yes: bool)
    ensures
        yes == rect_before(a, b),
{
    if a.0 != b.0 {
        a.0 < b.0
    } else if a.1 != b.1 {
        a.1 < b.1
    } else if a.2 != b.2 {
        a.2 < b.2
    } else {
        a.3 < b.3
    }
}

fn contains(r: Rect, p: (i64, i64)) -> (yes: bool)
    ensures
        yes == holds(r, (p.0 as int, p.1 as int)),
{
    r.0 as i64 <= p.0 && p.0 <= r.2 as i64 && r.1 as i64 <= p.1 && p.1 <= r.3 as i64
}

fn is_preferred(a: Rect, b: Rect, centre: (i64, i64)) -> (yes: bool)
    ensures
        yes == preferred(a, b, (centre.0 as int, centre.1 as int)),
{
    let (ha, hb) = (contains(a, centre), contains(b, centre));
    if ha != hb {
        ha
    } else if ha {
        is_before(b, a)
    } else {
        is_before(a, b)
    }
}

/// The shape gathered last, and the one preferred so far.
struct Best {
    layer: String,
    level: i32,
    rect: Rect,
}

/// The best of the gathered shapes is known.
spec fn known(best: Option<Best>, kept: Seq<Piece>, centre: (int, int)) -> bool {
    match best {
        Some(b) => {
            &&& kept.len() > 0
            &&& kept.last().0 == b.layer@
            &&& kept.last().1 == b.level
            &&& is_choice(kept, centre, b.rect)
        },
        None => kept.len() == 0,
    }
}

/// The choice among one shape more.
proof fn lemma_choice(kept: Seq<Piece>, centre: (int, int), r: Rect, p: Piece, s: Rect)
    requires
        kept.len() > 0 ==> is_choice(kept, centre, r),
        kept.len() > 0 && !preferred(p.2, r, centre) ==> s == r,
        kept.len() == 0 || preferred(p.2, r, centre) ==> s == p.2,
    ensures
        is_choice(kept.push(p), centre, s),
{
    let more = kept.push(p);
    assert(more[kept.len() as int].2 == p.2);
    if s == r && kept.len() > 0 && !preferred(p.2, r, centre) {
        let i = choose|i: int| 0 <= i < kept.len() && (#[trigger] kept[i]).2 == r;
        assert(more[i].2 == r);
    }
    assert forall|i: int| 0 <= i < more.len() implies !preferred(
        (#[trigger] more[i]).2,
        s,
        centre,
    ) by {
        if i < kept.len() {
            assert(!preferred(kept[i].2, r, centre));
        }
    }
}

/// The shape the block terminal is made from.
///
/// Shapes are gathered from every terminal, keeping those on the highest routing layer seen so far:
/// a layer at least as high as the running best is kept and becomes the new best. Shapes from a
/// lower layer already gathered are never dropped.
///
/// Among the gathered shapes, the one containing the master's centre wins, and if several do, the
/// last in `(xlo, ylo, xhi, yhi)` order. With none, the first in that order.
pub fn top_shape(terms: &[BumpTerm], master_box: Rect) -> (r: Option<(String, Rect)>)
    ensures
        r is None <==> gathered(pieces(terms@)).len() == 0,
        r matches Some(top) ==> top.0@ == gathered(pieces(terms@)).last().0 && is_choice(
            gathered(pieces(terms@)),
            centre_of(master_box),
            top.1,
        ),
{
    let centre: (i64, i64) = (
        halve(master_box.0 as i64 + master_box.2 as i64),
        halve(master_box.1 as i64 + master_box.3 as i64),
    );
    let ghost c = centre_of(master_box);
    let mut best: Option<Best> = None;
    let mut i: usize = 0;
    let ghost mut all: Seq<Piece> = Seq::empty();
    assert(terms@.take(0) =~= Seq::<BumpTerm>::empty());
    while i < terms.len()
        invariant
            i <= terms.len(),
            c == (centre.0 as int, centre.1 as int),
            all == pieces(terms@.take(i as int)),
            known(best, gathered(all), c),
        decreases terms.len() - i,
    {
        let shapes = &terms[i].shapes;
        let ghost start = all;
        let ghost list = pieces_of(shapes@);
        assert(terms@.take(i + 1).drop_last() =~= terms@.take(i as int));
        let mut k: usize = 0;
        assert(start + list.take(0) =~= start);
        while k < shapes.len()
            invariant
                k <= shapes.len(),
                list == pieces_of(shapes@),
                c == (centre.0 as int, centre.1 as int),
                all == start + list.take(k as int),
                known(best, gathered(all), c),
            decreases shapes.len() - k,
        {
            let level: i32 = shapes[k].1;
            let rect = shapes[k].2;
            let ghost p: Piece = (shapes@[k as int].0@, level, rect);
            let ghost kept = gathered(all);
            proof {
                assert(list[k as int] == p);
                assert(start + list.take(k + 1) =~= all.push(p));
                assert(all.push(p).drop_last() =~= all);
                all = all.push(p);
            }
            match &best {
                None => {
                    proof {
                        lemma_choice(kept, c, rect, p, rect);
                    }
                    best = Some(Best { layer: shapes[k].0.clone(), level, rect });
                },
                Some(b) => {
                    if b.level <= level {
                        let rect = if is_preferred(rect, b.rect, centre) { rect } else { b.rect };
                        proof {
                            lemma_choice(kept, c, b.rect, p, rect);
                        }
                        best = Some(Best { layer: shapes[k].0.clone(), level, rect });
                    }
                },
            }
            k += 1;
        }
        assert(list.take(list.len() as int) =~= list);
        i += 1;
    }
    assert(terms@.take(terms@.len() as int) =~= terms@);
    match best {
        Some(b) => Some((b.layer, b.rect)),
        None => None,
    }
}

/// The net that a named terminal is on already.
pub open spec fn current_net(terminal: Option<(&str, Option<&str>)>) -> Option<Seq<char>> {
    match terminal {
        Some((_, Some(n))) => Some(n@),
        _ => None,
    }
}

/// The name of the named terminal.
pub open spec fn named_terminal(terminal: Option<(&str, Option<&str>)>) -> Option<Seq<char>> {
    match terminal {
        Some((name, _)) => Some(name@),
        None => None,
    }
}

fn names_of_unconnected(terms: &[BumpTerm], net: &str) -> (out: Vec<String>)
    ensures
        out.len() == unconnected(terms@, net@).len(),
        forall|i: int| 0 <= i < out.len() ==> (#[trigger] out@[i])@ == unconnected(terms@, net@)[i],
{
    let mut out: Vec<String> = Vec::new();
    let mut i: usize = 0;
    assert(terms@.take(0) =~= Seq::<BumpTerm>::empty());
    while i < terms.len()
        invariant
            i <= terms.len(),
            out.len() == unconnected(terms@.take(i as int), net@).len(),
            forall|k: int|
                0 <= k < out.len() ==> (#[trigger] out@[k])@ == unconnected(
                    terms@.take(i as int),
                    net@,
                )[k],
        decreases terms.len() - i,
    {
        assert(terms@.take(i + 1).drop_last() =~= terms@.take(i as int));
        let on = match &terms[i].net {
            Some(n) => *n.as_str() == *net,
            None => false,
        };
        if !on {
            out.push(terms[i].name.clone());
        }
        i += 1;
    }
    assert(terms@.take(terms@.len() as int) =~= terms@);
    out
}

/// Work out what assigning `net` to this bump means.
///
/// `master_box` is the bump master's placement boundary, whose centre picks the shape. The named
/// terminal is tied to the net once, not once per bump terminal.
pub fn assign(
    terms: &[BumpTerm],
    net: &str,
    master_box: Rect,
    terminal: Option<(&str, Option<&str>)>,
) -> (r: Result<Assignment, Refused>)
    ensures
        r is Err <==> (current_net(terminal) matches Some(n) && n != net@),
        r matches Err(Refused::WrongNet { terminal: t, net: n }) ==> Some(t@) == named_terminal(
            terminal,
        ) && Some(n@) == current_net(terminal),
        r matches Ok(a) ==> {
            let kept = gathered(pieces(terms@));
            &&& a.connect.len() == unconnected(terms@, net@).len()
            &&& forall|i: int|
                0 <= i < a.connect.len() ==> (#[trigger] a.connect@[i])@ == unconnected(
                    terms@,
                    net@,
                )[i]
            &&& text_of(a.terminal) == (match terminal {
                Some((name, None)) => Some(name@),
                _ => None,
            })
            &&& a.bterm is None <==> kept.len() == 0
            &&& a.bterm matches Some(top) ==> top.0@ == kept.last().0 && is_choice(
                kept,
                centre_of(master_box),
                top.1,
            )
        },
{
    let connect = names_of_unconnected(terms, net);
    let mut named: Option<String> = None;
    if let Some((name, current)) = terminal {
        match current {
            None => {
                named = Some(name.to_owned());
            },
            Some(n) => {
                if *n != *net {
                    return Err(
                        Refused::WrongNet { terminal: name.to_owned(), net: n.to_owned() },
                    );
                }
            },
        }
    }
    let bterm = top_shape(terms, master_box);
    Ok(Assignment { connect, terminal: named, bterm })
}

/// The terminals to connect are those not on the net, each in its turn.
pub proof fn law_connects_the_others(a: Seq<BumpTerm>, b: Seq<BumpTerm>, t: BumpTerm, net: Seq<char>)
    ensures
        unconnected(a + b, net) == unconnected(a, net) + unconnected(b, net),
        t.net is Some && t.net->0@ == net ==> unconnected(seq![t], net).len() == 0,
        t.net is None || t.net->0@ != net ==> unconnected(seq![t], net) == seq![t.name@],
    decreases b.len(),
{
    let one = seq![t];
    assert(one.drop_last() =~= Seq::<BumpTerm>::empty());
    assert(unconnected(one.drop_last(), net) == Seq::<Seq<char>>::empty());
    assert(unconnected(one, net) =~= if text_of(t.net) == Some(net) {
        Seq::<Seq<char>>::empty()
    } else {
        seq![t.name@]
    });
    if b.len() == 0 {
        assert(a + b =~= a);
        assert(unconnected(a, net) + unconnected(b, net) =~= unconnected(a, net));
    } else {
        law_connects_the_others(a, b.drop_last(), t, net);
        assert((a + b).drop_last() =~= a + b.drop_last());
        assert(unconnected(a + b, net) =~= unconnected(a, net) + unconnected(b, net));
    }
}

/// Every shape of every terminal is looked at, in order, on its own layer.
pub proof fn law_every_shape_counts(a: Seq<BumpTerm>, b: Seq<BumpTerm>, t: BumpTerm, i: int)
    requires
        0 <= i < t.shapes@.len(),
    ensures
        pieces(a + b) == pieces(a) + pieces(b),
        pieces(seq![t]).len() == t.shapes@.len(),
        pieces(seq![t])[i].0 == t.shapes@[i].0@,
        pieces(seq![t])[i].1 == t.shapes@[i].1,
        pieces(seq![t])[i].2 == t.shapes@[i].2,
    decreases b.len(),
{
    let one = seq![t];
    assert(one.drop_last() =~= Seq::<BumpTerm>::empty());
    assert(pieces(one.drop_last()) == Seq::<Piece>::empty());
    assert(pieces(one) =~= pieces_of(t.shapes@));
    if b.len() == 0 {
        assert(a + b =~= a);
        assert(pieces(a) + pieces(b) =~= pieces(a));
    } else {
        law_every_shape_counts(a, b.drop_last(), t, i);
        assert((a + b).drop_last() =~= a + b.drop_last());
        assert(pieces(a + b) =~= pieces(a) + pieces(b));
    }
}

/// What is gathered: some shape wherever there is one, the last of them on the highest layer of all, and
/// every shape of that layer.
pub proof fn law_highest_is_gathered(all: Seq<Piece>, i: int)
    requires
        0 <= i < all.len(),
    ensures
        gathered(all).len() > 0,
        all.contains(gathered(all).last()),
        all[i].1 <= gathered(all).last().1,
        all[i].1 == gathered(all).last().1 ==> gathered(all).contains(all[i]),
    decreases all.len(),
{
    let head = all.drop_last();
    let kept = gathered(head);
    if head.len() > 0 {
        let j = if i < head.len() { i } else { 0 };
        law_highest_is_gathered(head, j);
        let last = head.index_of(kept.last());
        assert(head.contains(kept.last()));
        assert(all[last] == kept.last());
        assert(all[j] == head[j]);
    }
    assert(all.last() == all[all.len() - 1]);
    if kept.len() == 0 || kept.last().1 <= all.last().1 {
        let more = kept.push(all.last());
        assert(more[kept.len() as int] == all.last());
        if i < head.len() && kept.contains(all[i]) {
            let k = kept.index_of(all[i]);
            assert(more[k] == all[i]);
        }
    }
}

/// A gathered shape is one of the shapes, and none after it is on a lower layer.
pub proof fn law_gathered_rise(all: Seq<Piece>, i: int, j: int)
    requires
        0 <= i <= j < gathered(all).len(),
    ensures
        all.contains(gathered(all)[i]),
        gathered(all)[i].1 <= gathered(all)[j].1,
    decreases all.len(),
{
    let head = all.drop_last();
    let kept = gathered(head);
    assert(all.last() == all[all.len() - 1]);
    if i < kept.len() {
        let m = if j < kept.len() { j } else { kept.len() - 1 };
        law_gathered_rise(head, i, m);
        let k = head.index_of(kept[i]);
        assert(all[k] == kept[i]);
    }
}

/// The rectangle stands for this list of four numbers, and a list comes before another by the first
/// number in which they differ.
pub open spec fn earlier(a: Rect, b: Rect) -> bool {
    a.0 < b.0 || (a.0 == b.0 && (a.1 < b.1 || (a.1 == b.1 && (a.2 < b.2 || (a.2 == b.2 && a.3
        < b.3)))))
}

/// What is chosen: the last of the gathered shapes that hold the master's centre, or the first of them
/// all where none does. The centre is in the middle, to within the half unit that rounding takes.
pub proof fn law_choice_holds_the_centre(kept: Seq<Piece>, master: Rect, r: Rect, i: int)
    requires
        is_choice(kept, centre_of(master), r),
        0 <= i < kept.len(),
    ensures
        ({
            let (x, y) = centre_of(master);
            let inside = |s: Rect| s.0 <= x <= s.2 && s.1 <= y <= s.3;
            &&& -1 <= 2 * x - (master.0 + master.2) <= 1
            &&& -1 <= 2 * y - (master.1 + master.3) <= 1
            &&& inside(kept[i].2) ==> inside(r) && (kept[i].2 == r || earlier(kept[i].2, r))
            &&& !inside(r) ==> kept[i].2 == r || earlier(r, kept[i].2)
        }),
{
    assert(!preferred(kept[i].2, r, centre_of(master)));
}

} // verus!
