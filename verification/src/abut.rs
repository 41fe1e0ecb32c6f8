//! Connecting the ring by abutment.
//!
//! Pads in a ring are wired by touching: a pad's power terminal shares an edge with its neighbour's,
//! and that shared edge is the connection. Nothing routes it. This works out which terminals touch
//! and what nets that implies.
//!
//! Touching counts here, and only here: [`crate::clearance`] asks whether two cells are too close and
//! treats a shared edge as clear; this asks whether they meet and treats a shared edge as a
//! connection.

use crate::geom::{rt, Rect};
use crate::lists::{copy_list, copy_names};
use crate::text::{copy_option, same_option, text_of};
use vstd::prelude::*;
use vstd::string::*;

verus! {

/// One terminal of a placed instance, with its shapes already moved onto the die.
#[derive(Debug, PartialEq, Eq)]
pub struct Terminal {
    pub name: String,
    /// `(layer number, rectangle)`. Only shapes on the same layer can touch.
    pub shapes: Vec<(i64, Rect)>,
    pub net: Option<String>,
    /// Whether this terminal is a supply pin, which decides the net's signal type.
    pub supply: bool,
}

/// A placed pad.
#[derive(Debug, PartialEq, Eq)]
pub struct PadInst {
    pub name: String,
    pub bbox: Rect,
    pub terms: Vec<Terminal>,
}

/// Which terminal: `(instance index, terminal index)`.
pub type TermId = (usize, usize);

/// Two terminals that touch but are already on different nets. Always a defect in the input.
#[derive(Debug, PartialEq, Eq)]
pub struct Conflict {
    pub a: TermId,
    pub b: TermId,
    pub net_a: String,
    pub net_b: String,
}

/// What connecting by abutment implies, in the order it must be applied.
#[derive(Debug, PartialEq, Eq)]
pub struct Plan {
    /// Nets that held a single terminal and are removed before anything is joined.
    pub destroy: Vec<String>,
    /// Nets that did not exist and have to be made.
    pub create: Vec<String>,
    /// `(terminal, net)`, in application order.
    pub connect: Vec<(TermId, String)>,
    /// Nets to mark as special, first-seen order.
    pub special: Vec<String>,
}

impl Clone for Terminal {
    fn clone(&self) -> (copy: Terminal)
        ensures
            copy.name == self.name,
            copy.shapes@ == self.shapes@,
            copy.net == self.net,
            copy.supply == self.supply,
    {
        Terminal {
            name: self.name.clone(),
            shapes: copy_list(&self.shapes),
            net: copy_option(&self.net),
            supply: self.supply,
        }
    }
}

impl Clone for PadInst {
    fn clone(&self) -> (copy: PadInst)
        ensures
            copy.name == self.name,
            copy.bbox == self.bbox,
            copy.terms@.len() == self.terms@.len(),
            forall|i: int|
                0 <= i < copy.terms@.len() ==> (#[trigger] copy.terms@[i]).name
                    == self.terms@[i].name && copy.terms@[i].shapes@ == self.terms@[i].shapes@
                    && copy.terms@[i].net == self.terms@[i].net && copy.terms@[i].supply
                    == self.terms@[i].supply,
    {
        let mut terms: Vec<Terminal> = Vec::new();
        let mut i: usize = 0;
        while i < self.terms.len()
            invariant
                i <= self.terms.len(),
                terms@.len() == i,
                forall|k: int|
                    0 <= k < i ==> (#[trigger] terms@[k]).name == self.terms@[k].name
                        && terms@[k].shapes@ == self.terms@[k].shapes@ && terms@[k].net
                        == self.terms@[k].net && terms@[k].supply == self.terms@[k].supply,
            decreases self.terms.len() - i,
        {
            terms.push(self.terms[i].clone());
            i += 1;
        }
        PadInst { name: self.name.clone(), bbox: self.bbox, terms }
    }
}

impl Clone for Conflict {
    fn clone(&self) -> (copy: Conflict)
        ensures
            copy == *self,
    {
        Conflict { a: self.a, b: self.b, net_a: self.net_a.clone(), net_b: self.net_b.clone() }
    }
}

impl Clone for Plan {
    fn clone(&self) -> (copy: Plan)
        ensures
            copy.destroy@ == self.destroy@,
            copy.create@ == self.create@,
            copy.connect@ == self.connect@,
            copy.special@ == self.special@,
    {
        let mut connect: Vec<(TermId, String)> = Vec::new();
        let mut i: usize = 0;
        while i < self.connect.len()
            invariant
                i <= self.connect.len(),
                connect@ == self.connect@.take(i as int),
            decreases self.connect.len() - i,
        {
            connect.push((self.connect[i].0, self.connect[i].1.clone()));
            assert(connect@ =~= self.connect@.take(i + 1));
            i += 1;
        }
        assert(connect@ =~= self.connect@);
        Plan {
            destroy: copy_names(&self.destroy),
            create: copy_names(&self.create),
            connect,
            special: copy_names(&self.special),
        }
    }
}

impl Default for Plan {
    fn default() -> (p: Plan)
        ensures
            p.destroy@.len() == 0,
            p.create@.len() == 0,
            p.connect@.len() == 0,
            p.special@.len() == 0,
    {
        Plan { destroy: Vec::new(), create: Vec::new(), connect: Vec::new(), special: Vec::new() }
    }
}

/// Two rectangles meet: sharing only an edge or a corner counts.
pub open spec fn meet(a: (int, int, int, int), b: (int, int, int, int)) -> bool {
    a.0 <= b.2 && b.0 <= a.2 && a.1 <= b.3 && b.1 <= a.3
}

/// Do these two rectangles meet?
///
/// Closed: sharing only an edge or a corner counts. Abutting pads share exactly an edge, so the
/// strict test would find no connections at all and the ring would come out unwired.
pub fn touches(a: Rect, b: Rect) -> (yes: bool)
    ensures
        yes == meet(rt(a), rt(b)),
{
    a.0 <= b.2 && b.0 <= a.2 && a.1 <= b.3 && b.1 <= a.3
}

/// What shares area also meets; what meets need not share area.
pub proof fn law_meeting_is_weaker(a: (int, int, int, int), b: (int, int, int, int))
    ensures
        crate::place::share_area(a, b) ==> meet(a, b),
{
}

/// Shapes of the two terminals meet on a layer.
pub open spec fn terms_meet(a: Terminal, b: Terminal) -> bool {
    exists|i: int, j: int|
        0 <= i < a.shapes@.len() && 0 <= j < b.shapes@.len() && shapes_meet(
            #[trigger] a.shapes@[i],
            #[trigger] b.shapes@[j],
        )
}

pub open spec fn shapes_meet(a: (i64, Rect), b: (i64, Rect)) -> bool {
    a.0 == b.0 && meet(rt(a.1), rt(b.1))
}

/// The first `n` pairs of terminals of two instances, of those that meet.
pub open spec fn meeting_terms(a: PadInst, b: PadInst, n: int) -> Seq<(usize, usize)>
    decreases n,
{
    if n <= 0 {
        Seq::empty()
    } else {
        let m = b.terms@.len() as int;
        let (i, j) = ((n - 1) / m, (n - 1) % m);
        let rest = meeting_terms(a, b, n - 1);
        if terms_meet(a.terms@[i], b.terms@[j]) {
            rest.push((i as usize, j as usize))
        } else {
            rest
        }
    }
}

/// The terminals of two instances that touch, in order; none where the instances' boxes do not.
pub open spec fn touching(a: PadInst, b: PadInst) -> Seq<(usize, usize)> {
    if meet(rt(a.bbox), rt(b.bbox)) {
        meeting_terms(a, b, (a.terms@.len() * b.terms@.len()) as int)
    } else {
        Seq::empty()
    }
}

fn do_terms_meet(a: &Terminal, b: &Terminal) -> (yes: bool)
    ensures
        yes == terms_meet(*a, *b),
{
    let mut i: usize = 0;
    while i < a.shapes.len()
        invariant
            i <= a.shapes.len(),
            forall|m: int, k: int|
                0 <= m < i && 0 <= k < b.shapes@.len() ==> !shapes_meet(
                    #[trigger] a.shapes@[m],
                    #[trigger] b.shapes@[k],
                ),
        decreases a.shapes.len() - i,
    {
        let mut j: usize = 0;
        while j < b.shapes.len()
            invariant
                i < a.shapes.len(),
                j <= b.shapes.len(),
                forall|k: int|
                    0 <= k < j ==> !shapes_meet(a.shapes@[i as int], #[trigger] b.shapes@[k]),
            decreases b.shapes.len() - j,
        {
            let (p, q) = (a.shapes[i], b.shapes[j]);
            if p.0 == q.0 && touches(p.1, q.1) {
                assert(shapes_meet(a.shapes@[i as int], b.shapes@[j as int]));
                return true;
            }
            j += 1;
        }
        i += 1;
    }
    false
}

/// Which terminals of two instances touch.
///
/// Shapes only ever meet on the same layer. Returns terminal index pairs, `a`'s first.
pub fn touching_terms(a: &PadInst, b: &PadInst) -> (out: Vec<(usize, usize)>)
    ensures
        out@ == touching(*a, *b),
        forall|k: int|
            0 <= k < out.len() ==> (#[trigger] out@[k]).0 < a.terms.len() && out@[k].1
                < b.terms.len(),
{
    if !touches(a.bbox, b.bbox) {
        return Vec::new();
    }
    let ghost m = b.terms@.len() as int;
    let mut out: Vec<(usize, usize)> = Vec::new();
    let mut i: usize = 0;
    while i < a.terms.len()
        invariant
            i <= a.terms.len(),
            m == b.terms@.len(),
            out@ == meeting_terms(*a, *b, i * m),
            forall|k: int|
                0 <= k < out.len() ==> (#[trigger] out@[k]).0 < a.terms.len() && out@[k].1
                    < b.terms.len(),
        decreases a.terms.len() - i,
    {
        let mut j: usize = 0;
        while j < b.terms.len()
            invariant
                i < a.terms.len(),
                j <= b.terms.len(),
                m == b.terms@.len(),
                out@ == meeting_terms(*a, *b, i * m + j),
                forall|k: int|
                    0 <= k < out.len() ==> (#[trigger] out@[k]).0 < a.terms.len() && out@[k].1
                        < b.terms.len(),
            decreases b.terms.len() - j,
        {
            proof {
                vstd::arithmetic::div_mod::lemma_fundamental_div_mod_converse(
                    i * m + j,
                    m,
                    i as int,
                    j as int,
                );
                assert(i * m >= 0) by (nonlinear_arith)
                    requires
                        m >= 0,
                ;
            }
            if do_terms_meet(&a.terms[i], &b.terms[j]) {
                out.push((i, j));
            }
            j += 1;
        }
        assert((i + 1) * m == i * m + m) by (nonlinear_arith);
        i += 1;
    }
    out
}

/// Pairs of terminals of two instances, as pairs of terminals of the design.
pub open spec fn ids(i: usize, j: usize, pairs: Seq<(usize, usize)>) -> Seq<(TermId, TermId)> {
    Seq::new(pairs.len(), |k: int| ((i, pairs[k].0), (j, pairs[k].1)))
}

/// The pairs of instance `i` with those from `i + 1` up to `n`.
pub open spec fn pairs_with(insts: Seq<PadInst>, i: int, n: int) -> Seq<(TermId, TermId)>
    decreases n - i,
{
    if n <= i + 1 {
        Seq::empty()
    } else {
        pairs_with(insts, i, n - 1) + ids(
            i as usize,
            (n - 1) as usize,
            touching(insts[i], insts[n - 1]),
        )
    }
}

/// The pairs of the first `n` instances with all after them.
pub open spec fn pairs_upto(insts: Seq<PadInst>, n: int) -> Seq<(TermId, TermId)>
    decreases n,
{
    if n <= 0 {
        Seq::empty()
    } else {
        pairs_upto(insts, n - 1) + pairs_with(insts, n - 1, insts.len() as int)
    }
}

/// Every touching pair in the design, in instance order.
pub open spec fn touching_pairs(insts: Seq<PadInst>) -> Seq<(TermId, TermId)> {
    pairs_upto(insts, insts.len() as int)
}

/// The terminal is one of the design.
pub open spec fn is_term(insts: Seq<PadInst>, t: TermId) -> bool {
    t.0 < insts.len() && t.1 < insts[t.0 as int].terms@.len()
}

/// The pairs are of two terminals of different instances each.
pub open spec fn valid_pairs(insts: Seq<PadInst>, pairs: Seq<(TermId, TermId)>) -> bool {
    forall|k: int| #![trigger pairs[k]]
        0 <= k < pairs.len() ==> is_term(insts, pairs[k].0) && is_term(insts, pairs[k].1)
            && pairs[k].0.0 < pairs[k].1.0
}

/// Every touching pair in the design, in instance order.
///
/// The instance list may repeat an instance: it is gathered row by row, and a cell reaching into two
/// rows is collected twice. That is left as it is: the pairs it produces are redundant, not wrong.
pub fn all_touching(insts: &[PadInst]) -> (pairs: Vec<(TermId, TermId)>)
    ensures
        pairs@ == touching_pairs(insts@),
        valid_pairs(insts@, pairs@),
{
    let mut pairs: Vec<(TermId, TermId)> = Vec::new();
    let mut i: usize = 0;
    while i < insts.len()
        invariant
            i <= insts.len(),
            pairs@ == pairs_upto(insts@, i as int),
            valid_pairs(insts@, pairs@),
        decreases insts.len() - i,
    {
        let ghost before = pairs@;
        let mut j: usize = i + 1;
        assert(before + pairs_with(insts@, i as int, i + 1) =~= before);
        while j < insts.len()
            invariant
                i < insts.len(),
                i < j <= insts.len(),
                pairs@ == before + pairs_with(insts@, i as int, j as int),
                valid_pairs(insts@, pairs@),
            decreases insts.len() - j,
        {
            let near = touching_terms(&insts[i], &insts[j]);
            let ghost sofar = pairs@;
            let mut k: usize = 0;
            assert(sofar + ids(i, j, near@.take(0)) =~= sofar);
            while k < near.len()
                invariant
                    i < j < insts.len(),
                    k <= near.len(),
                    pairs@ == sofar + ids(i, j, near@.take(k as int)),
                    valid_pairs(insts@, pairs@),
                    forall|k: int|
                        0 <= k < near.len() ==> (#[trigger] near@[k]).0 < insts@[i as int].terms.len()
                            && near@[k].1 < insts@[j as int].terms.len(),
                decreases near.len() - k,
            {
                let (a, b) = near[k];
                pairs.push(((i, a), (j, b)));
                assert(pairs@ =~= sofar + ids(i, j, near@.take(k + 1)));
                k += 1;
            }
            assert(near@.take(near@.len() as int) =~= near@);
            assert(pairs@ =~= before + pairs_with(insts@, i as int, j + 1));
            j += 1;
        }
        i += 1;
    }
    pairs
}

/// The net of each terminal, where it has one.
pub type Nets = Seq<Seq<Option<Seq<char>>>>;

/// Two touching terminals on different nets.
pub struct Clash {
    pub a: TermId,
    pub b: TermId,
    pub net_a: Seq<char>,
    pub net_b: Seq<char>,
}

/// How far the wiring has come: the terminals' nets, what has been planned, and the clash that
/// stopped it, if one did.
pub struct Wiring {
    pub nets: Nets,
    pub destroy: Seq<Seq<char>>,
    pub create: Seq<Seq<char>>,
    pub connect: Seq<(TermId, Seq<char>)>,
    pub special: Seq<Seq<char>>,
    pub clash: Option<Clash>,
}

pub open spec fn net_of(nets: Nets, t: TermId) -> Option<Seq<char>> {
    nets[t.0 as int][t.1 as int]
}

pub open spec fn with_net(nets: Nets, t: TermId, net: Option<Seq<char>>) -> Nets {
    nets.update(t.0 as int, nets[t.0 as int].update(t.1 as int, net))
}

/// Every terminal off a net.
pub open spec fn without_net(nets: Nets, net: Seq<char>) -> Nets {
    Seq::new(
        nets.len(),
        |i: int|
            Seq::new(
                nets[i].len(),
                |j: int|
                    if nets[i][j] == Some(net) {
                        None
                    } else {
                        nets[i][j]
                    },
            ),
    )
}

/// A name at the end of a list, unless it is there.
pub open spec fn noted(list: Seq<Seq<char>>, name: Seq<char>) -> Seq<Seq<char>> {
    if list.contains(name) {
        list
    } else {
        list.push(name)
    }
}

impl Wiring {
    /// The terminal's net destroyed, where it holds that terminal alone.
    pub open spec fn cleared(self, t: TermId, count: spec_fn(Seq<char>) -> u32) -> Wiring {
        match net_of(self.nets, t) {
            Some(net) if count(net) == 1 => Wiring {
                nets: without_net(self.nets, net),
                destroy: self.destroy.push(net),
                ..self
            },
            _ => self,
        }
    }

    /// The same for both terminals of each pair.
    pub open spec fn all_cleared(
        self,
        pairs: Seq<(TermId, TermId)>,
        count: spec_fn(Seq<char>) -> u32,
    ) -> Wiring
        decreases pairs.len(),
    {
        if pairs.len() == 0 {
            self
        } else {
            let (a, b) = pairs.last();
            self.all_cleared(pairs.drop_last(), count).cleared(a, count).cleared(b, count)
        }
    }

    /// A terminal put on a net.
    pub open spec fn attached(self, t: TermId, net: Seq<char>) -> Wiring {
        Wiring {
            nets: with_net(self.nets, t, Some(net)),
            connect: self.connect.push((t, net)),
            ..self
        }
    }

    /// A pair joined: where one side has a net and the other does not, the other joins it. Where
    /// both have nets and they differ, that is a clash, and nothing more is done.
    pub open spec fn joined(self, pair: (TermId, TermId)) -> Wiring {
        let (a, b) = pair;
        if self.clash is Some {
            self
        } else {
            match (net_of(self.nets, a), net_of(self.nets, b)) {
                (Some(net_a), Some(net_b)) => {
                    if net_a == net_b {
                        self
                    } else {
                        Wiring { clash: Some(Clash { a, b, net_a, net_b }), ..self }
                    }
                },
                (Some(net), None) => Wiring {
                    special: noted(self.special, net),
                    ..self.attached(b, net)
                },
                (None, Some(net)) => Wiring {
                    special: noted(self.special, net),
                    ..self.attached(a, net)
                },
                (None, None) => self,
            }
        }
    }

    /// Each pair joined in turn.
    pub open spec fn pass(self, pairs: Seq<(TermId, TermId)>) -> Wiring
        decreases pairs.len(),
    {
        if pairs.len() == 0 {
            self
        } else {
            self.pass(pairs.drop_last()).joined(pairs.last())
        }
    }

    /// That done `n` times over.
    pub open spec fn passes(self, pairs: Seq<(TermId, TermId)>, n: nat) -> Wiring
        decreases n,
    {
        if n == 0 {
            self
        } else {
            self.passes(pairs, (n - 1) as nat).pass(pairs)
        }
    }

    /// That done until nothing changes.
    pub open spec fn merged(self, pairs: Seq<(TermId, TermId)>) -> Wiring {
        self.passes(
            pairs,
            choose|n: nat| (#[trigger] self.passes(pairs, n)).pass(pairs) == self.passes(pairs, n),
        )
    }

    /// A new net for a pair that has none, named after the first of the two terminals, and
    /// everything merged again: it can let two groups join that were separate before.
    pub open spec fn made(
        self,
        insts: Seq<PadInst>,
        pairs: Seq<(TermId, TermId)>,
        pair: (TermId, TermId),
    ) -> Wiring {
        let (a, b) = pair;
        if self.clash is Some || net_of(self.nets, a) is Some {
            self
        } else {
            let name = ring_net(insts, a);
            let new = Wiring { create: self.create.push(name), ..self };
            new.attached(a, name).attached(b, name).merged(pairs)
        }
    }

    /// The same for each of the listed pairs in turn.
    pub open spec fn all_made(
        self,
        insts: Seq<PadInst>,
        pairs: Seq<(TermId, TermId)>,
        list: Seq<(TermId, TermId)>,
    ) -> Wiring
        decreases list.len(),
    {
        if list.len() == 0 {
            self
        } else {
            self.all_made(insts, pairs, list.drop_last()).made(insts, pairs, list.last())
        }
    }
}

/// The name of a new net: the instance's and the terminal's.
pub open spec fn ring_net(insts: Seq<PadInst>, t: TermId) -> Seq<char> {
    let i = insts[t.0 as int];
    i.name@ + "."@ + i.terms@[t.1 as int].name@ + "_RING"@
}

/// The terminals' nets as they are given.
pub open spec fn given_nets(insts: Seq<PadInst>) -> Nets {
    Seq::new(
        insts.len(),
        |i: int|
            Seq::new(insts[i].terms@.len(), |j: int| text_of(insts[i].terms@[j].net)),
    )
}

/// The wiring of a design: nets of a single terminal destroyed, everything merged, and new nets made
/// for what is still unconnected.
pub open spec fn wired(insts: Seq<PadInst>, count: spec_fn(Seq<char>) -> u32) -> Wiring {
    let pairs = touching_pairs(insts);
    let start = Wiring {
        nets: given_nets(insts),
        destroy: Seq::empty(),
        create: Seq::empty(),
        connect: Seq::empty(),
        special: Seq::empty(),
        clash: None,
    };
    start.all_cleared(pairs, count).merged(pairs).all_made(insts, pairs, pairs)
}

/// The table has a place for every terminal.
pub open spec fn shaped(insts: Seq<PadInst>, nets: Nets) -> bool {
    &&& nets.len() == insts.len()
    &&& forall|i: int| 0 <= i < nets.len() ==> (#[trigger] nets[i]).len() == insts[i].terms@.len()
}

/// How many terminals of a row have no net.
spec fn row_holes(row: Seq<Option<Seq<char>>>) -> nat
    decreases row.len(),
{
    if row.len() == 0 {
        0
    } else {
        row_holes(row.drop_last()) + if row.last() is None { 1nat } else { 0 }
    }
}

/// How many terminals have no net.
spec fn holes(nets: Nets) -> nat
    decreases nets.len(),
{
    if nets.len() == 0 {
        0
    } else {
        holes(nets.drop_last()) + row_holes(nets.last())
    }
}

proof fn lemma_row_holes(row: Seq<Option<Seq<char>>>, j: int, net: Seq<char>)
    requires
        0 <= j < row.len(),
        row[j] is None,
    ensures
        row_holes(row.update(j, Some(net))) == row_holes(row) - 1,
    decreases row.len(),
{
    if j == row.len() - 1 {
        assert(row.update(j, Some(net)).drop_last() =~= row.drop_last());
    } else {
        assert(row.update(j, Some(net)).drop_last() =~= row.drop_last().update(j, Some(net)));
        lemma_row_holes(row.drop_last(), j, net);
    }
}

proof fn lemma_holes(nets: Nets, t: TermId, net: Seq<char>)
    requires
        t.0 < nets.len(),
        t.1 < nets[t.0 as int].len(),
        net_of(nets, t) is None,
    ensures
        holes(with_net(nets, t, Some(net))) == holes(nets) - 1,
    decreases nets.len(),
{
    let i = t.0 as int;
    let more = with_net(nets, t, Some(net));
    lemma_row_holes(nets[i], t.1 as int, net);
    if i == nets.len() - 1 {
        assert(more.drop_last() =~= nets.drop_last());
    } else {
        let head = nets.drop_last();
        assert(more.drop_last() =~= with_net(head, t, Some(net)));
        lemma_holes(head, t, net);
    }
}

/// Joining a pair changes nothing or leaves one terminal fewer without a net, or clashes.
proof fn lemma_joined(insts: Seq<PadInst>, w: Wiring, pair: (TermId, TermId))
    requires
        shaped(insts, w.nets),
        is_term(insts, pair.0),
        is_term(insts, pair.1),
    ensures
        shaped(insts, w.joined(pair).nets),
        w.joined(pair) == w || w.joined(pair).clash is Some || holes(w.joined(pair).nets) < holes(
            w.nets,
        ),
        holes(w.joined(pair).nets) <= holes(w.nets),
        kept(w.nets, w.joined(pair).nets),
{
    let (a, b) = pair;
    if w.clash is None {
        match (net_of(w.nets, a), net_of(w.nets, b)) {
            (Some(net), None) => {
                lemma_holes(w.nets, b, net);
            },
            (None, Some(net)) => {
                lemma_holes(w.nets, a, net);
            },
            _ => {},
        }
    }
}

/// No terminal loses or changes its net.
pub open spec fn kept(a: Nets, b: Nets) -> bool {
    &&& a.len() == b.len()
    &&& forall|i: int| 0 <= i < a.len() ==> (#[trigger] a[i]).len() == b[i].len()
    &&& forall|i: int, j: int|
        0 <= i < a.len() && 0 <= j < a[i].len() && (#[trigger] a[i][j]) is Some ==> b[i][j] == a[i][j]
}

proof fn lemma_pass(insts: Seq<PadInst>, w: Wiring, pairs: Seq<(TermId, TermId)>)
    requires
        shaped(insts, w.nets),
        valid_pairs(insts, pairs),
    ensures
        shaped(insts, w.pass(pairs).nets),
        w.pass(pairs) == w || w.pass(pairs).clash is Some || holes(w.pass(pairs).nets) < holes(
            w.nets,
        ),
        holes(w.pass(pairs).nets) <= holes(w.nets),
        w.clash is Some ==> w.pass(pairs) == w,
        kept(w.nets, w.pass(pairs).nets),
    decreases pairs.len(),
{
    if pairs.len() > 0 {
        let head = pairs.drop_last();
        assert forall|k: int| #![trigger head[k]] 0 <= k < head.len() implies is_term(
            insts,
            head[k].0,
        ) && is_term(insts, head[k].1) && head[k].0.0 < head[k].1.0 by {
            assert(pairs[k] == head[k]);
        }
        lemma_pass(insts, w, head);
        assert(pairs[pairs.len() - 1] == pairs.last());
        lemma_joined(insts, w.pass(head), pairs.last());
    }
}

proof fn lemma_passes_stay(w: Wiring, pairs: Seq<(TermId, TermId)>, n: nat, m: nat)
    requires
        w.passes(pairs, n).pass(pairs) == w.passes(pairs, n),
        n <= m,
    ensures
        w.passes(pairs, m) == w.passes(pairs, n),
    decreases m,
{
    if n < m {
        lemma_passes_stay(w, pairs, n, (m - 1) as nat);
    }
}

/// However many passes it takes, merging ends one way.
proof fn lemma_merged(w: Wiring, pairs: Seq<(TermId, TermId)>, n: nat)
    requires
        w.passes(pairs, n).pass(pairs) == w.passes(pairs, n),
    ensures
        w.merged(pairs) == w.passes(pairs, n),
{
    let m = choose|n: nat|
        (#[trigger] w.passes(pairs, n)).pass(pairs) == w.passes(pairs, n);
    if n <= m {
        lemma_passes_stay(w, pairs, n, m);
    } else {
        lemma_passes_stay(w, pairs, m, n);
    }
}

/// Merging comes to an end.
proof fn lemma_merge_ends(insts: Seq<PadInst>, w: Wiring, pairs: Seq<(TermId, TermId)>, n: nat)
    requires
        shaped(insts, w.passes(pairs, n).nets),
        valid_pairs(insts, pairs),
        kept(w.nets, w.passes(pairs, n).nets),
    ensures
        w.merged(pairs).pass(pairs) == w.merged(pairs),
        shaped(insts, w.merged(pairs).nets),
        kept(w.nets, w.merged(pairs).nets),
    decreases
            holes(w.passes(pairs, n).nets),
            (if w.passes(pairs, n).clash is Some { 0nat } else { 1 }),
{
    let now = w.passes(pairs, n);
    lemma_pass(insts, now, pairs);
    let next = now.pass(pairs);
    if next == now {
        lemma_merged(w, pairs, n);
    } else {
        assert(w.passes(pairs, n + 1) == next);
        lemma_kept(w.nets, now.nets, next.nets);
        lemma_merge_ends(insts, w, pairs, n + 1);
    }
}

proof fn lemma_kept(a: Nets, b: Nets, c: Nets)
    requires
        kept(a, b),
        kept(b, c),
    ensures
        kept(a, c),
{
    assert forall|i: int| 0 <= i < a.len() implies (#[trigger] a[i]).len() == c[i].len() by {
        assert(b[i].len() == c[i].len());
    }
    assert forall|i: int, j: int|
        0 <= i < a.len() && 0 <= j < a[i].len() && (
        #[trigger] a[i][j]) is Some implies c[i][j] == a[i][j] by {
        assert(a[i].len() == b[i].len());
        assert(b[i][j] == a[i][j]);
    }
}

/// Where a pass changes nothing and there is no clash, every pair is on one net or on none.
proof fn lemma_settled(
    insts: Seq<PadInst>,
    w: Wiring,
    pairs: Seq<(TermId, TermId)>,
    k: int,
)
    requires
        shaped(insts, w.nets),
        valid_pairs(insts, pairs),
        w.clash is None,
        w.pass(pairs) == w,
        0 <= k < pairs.len(),
    ensures
        net_of(w.nets, pairs[k].0) == net_of(w.nets, pairs[k].1),
    decreases pairs.len(),
{
    let head = pairs.drop_last();
    assert forall|k: int| #![trigger head[k]] 0 <= k < head.len() implies is_term(
        insts,
        head[k].0,
    ) && is_term(insts, head[k].1) && head[k].0.0 < head[k].1.0 by {
        assert(pairs[k] == head[k]);
    }
    lemma_pass(insts, w, head);
    let most = w.pass(head);
    assert(pairs[pairs.len() - 1] == pairs.last());
    lemma_joined(insts, most, pairs.last());
    assert(most.joined(pairs.last()) == w);
    if most.clash is Some {
        assert(most.joined(pairs.last()) == most);
    }
    assert(most == w);
    if k < head.len() {
        lemma_settled(insts, w, head, k);
        assert(head[k] == pairs[k]);
    }
}

/// Making new nets keeps every net there is, and leaves the first terminal of each listed pair with
/// one.
proof fn lemma_all_made(
    insts: Seq<PadInst>,
    w: Wiring,
    pairs: Seq<(TermId, TermId)>,
    list: Seq<(TermId, TermId)>,
)
    requires
        shaped(insts, w.nets),
        valid_pairs(insts, pairs),
        valid_pairs(insts, list),
        forall|k: int| 0 <= k < list.len() ==> pairs.contains(#[trigger] list[k]),
        w.pass(pairs) == w,
    ensures
        ({
            let end = w.all_made(insts, pairs, list);
            &&& shaped(insts, end.nets)
            &&& kept(w.nets, end.nets)
            &&& end.pass(pairs) == end
            &&& end.clash is None ==> forall|k: int|
                0 <= k < list.len() ==> net_of(end.nets, (#[trigger] list[k]).0) is Some
        }),
    decreases list.len(),
{
    if list.len() > 0 {
        let head = list.drop_last();
        assert forall|k: int| #![trigger head[k]] 0 <= k < head.len() implies is_term(
            insts,
            head[k].0,
        ) && is_term(insts, head[k].1) && head[k].0.0 < head[k].1.0 by {
            assert(list[k] == head[k]);
        }
        assert forall|k: int| 0 <= k < head.len() implies pairs.contains(
            #[trigger] head[k],
        ) by {
            assert(list[k] == head[k]);
        }
        lemma_all_made(insts, w, pairs, head);
        let most = w.all_made(insts, pairs, head);
        let (a, b) = list.last();
        assert(list[list.len() - 1] == list.last());
        let end = most.made(insts, pairs, list.last());
        if most.clash is None && net_of(most.nets, a) is None {
            let name = ring_net(insts, a);
            let new = Wiring { create: most.create.push(name), ..most };
            let both = new.attached(a, name).attached(b, name);
            assert(shaped(insts, both.nets));
            assert(both.passes(pairs, 0) == both);
            lemma_merge_ends(insts, both, pairs, 0);
            let k = choose|k: int| 0 <= k < pairs.len() && pairs[k] == list.last();
            lemma_settled(insts, most, pairs, k);
            assert(kept(most.nets, both.nets));
            lemma_kept(w.nets, most.nets, both.nets);
            lemma_kept(w.nets, both.nets, end.nets);
            assert(net_of(both.nets, a) == Some(name));
            assert(both.nets[a.0 as int][a.1 as int] is Some);
            assert forall|k: int| 0 <= k < list.len() implies net_of(
                end.nets,
                (#[trigger] list[k]).0,
            ) is Some by {
                if k < head.len() {
                    let t = list[k].0;
                    assert(head[k] == list[k]);
                    assert(net_of(most.nets, head[k].0) is Some);
                    assert(both.nets[t.0 as int][t.1 as int] is Some);
                }
            }
        } else {
            assert forall|k: int| end.clash is None && 0 <= k < list.len() implies net_of(
                end.nets,
                (#[trigger] list[k]).0,
            ) is Some by {
                if k < head.len() {
                    assert(head[k] == list[k]);
                }
            }
        }
    }
}

/// Destroying nets leaves every terminal its place.
proof fn lemma_all_cleared(
    insts: Seq<PadInst>,
    w: Wiring,
    pairs: Seq<(TermId, TermId)>,
    count: spec_fn(Seq<char>) -> u32,
)
    requires
        shaped(insts, w.nets),
    ensures
        shaped(insts, w.all_cleared(pairs, count).nets),
    decreases pairs.len(),
{
    if pairs.len() > 0 {
        lemma_all_cleared(insts, w, pairs.drop_last(), count);
    }
}

/// Everything that touches is joined: where there is no clash, the two terminals of every touching
/// pair end up on one and the same net.
pub proof fn law_all_joined(insts: Seq<PadInst>, count: spec_fn(Seq<char>) -> u32, k: int)
    requires
        insts.len() <= usize::MAX,
        forall|i: int| 0 <= i < insts.len() ==> (#[trigger] insts[i]).terms@.len() <= usize::MAX,
        0 <= k < touching_pairs(insts).len(),
        wired(insts, count).clash is None,
    ensures
        ({
            let (a, b) = touching_pairs(insts)[k];
            let nets = wired(insts, count).nets;
            net_of(nets, a) is Some && net_of(nets, a) == net_of(nets, b)
        }),
{
    let pairs = touching_pairs(insts);
    let start = Wiring {
        nets: given_nets(insts),
        destroy: Seq::empty(),
        create: Seq::empty(),
        connect: Seq::empty(),
        special: Seq::empty(),
        clash: None,
    };
    assert(shaped(insts, start.nets));
    lemma_touching_valid(insts);
    lemma_all_cleared(insts, start, pairs, count);
    let clear = start.all_cleared(pairs, count);
    assert(clear.passes(pairs, 0) == clear);
    lemma_merge_ends(insts, clear, pairs, 0);
    let merged = clear.merged(pairs);
    lemma_all_made(insts, merged, pairs, pairs);
    let end = wired(insts, count);
    lemma_settled(insts, end, pairs, k);
    assert(net_of(end.nets, pairs[k].0) is Some);
}

/// A net that more terminals than one hold keeps the terminals it has: nothing that touches takes one
/// off it.
pub proof fn law_nets_are_kept(
    insts: Seq<PadInst>,
    count: spec_fn(Seq<char>) -> u32,
    t: TermId,
    net: Seq<char>,
)
    requires
        insts.len() <= usize::MAX,
        forall|i: int| 0 <= i < insts.len() ==> (#[trigger] insts[i]).terms@.len() <= usize::MAX,
        is_term(insts, t),
        net_of(given_nets(insts), t) == Some(net),
        count(net) != 1,
    ensures
        net_of(wired(insts, count).nets, t) == Some(net),
{
    let pairs = touching_pairs(insts);
    let start = Wiring {
        nets: given_nets(insts),
        destroy: Seq::empty(),
        create: Seq::empty(),
        connect: Seq::empty(),
        special: Seq::empty(),
        clash: None,
    };
    assert(shaped(insts, start.nets));
    lemma_touching_valid(insts);
    lemma_all_cleared(insts, start, pairs, count);
    lemma_clearing_keeps(insts, start, pairs, count, t, net);
    let clear = start.all_cleared(pairs, count);
    assert(clear.passes(pairs, 0) == clear);
    lemma_merge_ends(insts, clear, pairs, 0);
    let merged = clear.merged(pairs);
    lemma_all_made(insts, merged, pairs, pairs);
    assert(clear.nets[t.0 as int][t.1 as int] is Some);
    assert(merged.nets[t.0 as int][t.1 as int] is Some);
}

proof fn lemma_clearing_keeps(
    insts: Seq<PadInst>,
    w: Wiring,
    pairs: Seq<(TermId, TermId)>,
    count: spec_fn(Seq<char>) -> u32,
    t: TermId,
    net: Seq<char>,
)
    requires
        shaped(insts, w.nets),
        is_term(insts, t),
        net_of(w.nets, t) == Some(net),
        count(net) != 1,
    ensures
        net_of(w.all_cleared(pairs, count).nets, t) == Some(net),
    decreases pairs.len(),
{
    if pairs.len() > 0 {
        lemma_all_cleared(insts, w, pairs.drop_last(), count);
        lemma_clearing_keeps(insts, w, pairs.drop_last(), count, t, net);
    }
}

/// Doing a thing twice does what doing it once does: pairs that are listed twice are redundant, not
/// wrong.
pub proof fn law_repeats_change_nothing(
    insts: Seq<PadInst>,
    w: Wiring,
    pair: (TermId, TermId),
    count: spec_fn(Seq<char>) -> u32,
)
    requires
        shaped(insts, w.nets),
        is_term(insts, pair.0),
        is_term(insts, pair.1),
    ensures
        w.joined(pair).joined(pair) == w.joined(pair),
        w.cleared(pair.0, count).cleared(pair.0, count) == w.cleared(pair.0, count),
{
}

/// A net count is given for any net.
pub open spec fn total_count<F: Fn(&str) -> u32>(f: F) -> bool {
    forall|s: &str| #[trigger] f.requires((s,))
}

/// The net counts are those of a rule on the net's name.
pub open spec fn follows_count<F: Fn(&str) -> u32>(f: F, rule: spec_fn(Seq<char>) -> u32) -> bool {
    forall|s: &str, r: u32| #[trigger] f.ensures((s,), r) ==> r == rule(s@)
}

/// The evolving net of every terminal, and the plan.
struct State {
    of: Vec<Vec<Option<String>>>,
    plan: Plan,
}

spec fn texts(list: Seq<String>) -> Seq<Seq<char>> {
    Seq::new(list.len(), |i: int| list[i]@)
}

spec fn table(of: Seq<Vec<Option<String>>>) -> Nets {
    Seq::new(of.len(), |i: int| Seq::new(of[i]@.len(), |j: int| text_of(of[i]@[j])))
}

spec fn links(list: Seq<(TermId, String)>) -> Seq<(TermId, Seq<char>)> {
    Seq::new(list.len(), |i: int| (list[i].0, list[i].1@))
}

impl View for State {
    type V = Wiring;

    closed spec fn view(&self) -> Wiring {
        Wiring {
            nets: table(self.of@),
            destroy: texts(self.plan.destroy@),
            create: texts(self.plan.create@),
            connect: links(self.plan.connect@),
            special: texts(self.plan.special@),
            clash: None,
        }
    }
}

impl State {
    fn net(&self, t: TermId) -> (n: &Option<String>)
        requires
            t.0 < self.of.len(),
            t.1 < self.of@[t.0 as int].len(),
        ensures
            text_of(*n) == net_of(self@.nets, t),
    {
        &self.of[t.0][t.1]
    }

    /// Put a terminal on a net.
    fn attach(&mut self, t: TermId, net: &String)
        requires
            t.0 < old(self).of.len(),
            t.1 < old(self).of@[t.0 as int].len(),
        ensures
            final(self)@ == old(self)@.attached(t, net@),
    {
        let ghost before = table(self.of@);
        let ghost connected = links(self.plan.connect@);
        self.of[t.0].set(t.1, Some(net.clone()));
        assert(table(self.of@) =~= with_net(before, t, Some(net@))) by {
            assert(table(self.of@)[t.0 as int] =~= before[t.0 as int].update(
                t.1 as int,
                Some(net@),
            ));
            assert forall|i: int| 0 <= i < before.len() && i != t.0 implies table(self.of@)[i]
                =~= before[i] by {}
        }
        self.plan.connect.push((t, net.clone()));
        assert(links(self.plan.connect@) =~= connected.push((t, net@)));
    }

    /// Forget a net everywhere. A destroyed net leaves its terminals unconnected, not deleted.
    fn forget(&mut self, net: &String)
        ensures
            final(self)@.nets == without_net(old(self)@.nets, net@),
            final(self).plan == old(self).plan,
    {
        let ghost before = table(self.of@);
        let want: Option<String> = Some(net.clone());
        let mut i: usize = 0;
        while i < self.of.len()
            invariant
                i <= self.of.len(),
                self.plan == old(self).plan,
                text_of(want) == Some(net@),
                before == table(old(self).of@),
                self.of.len() == before.len(),
                forall|k: int|
                    0 <= k < i ==> #[trigger] table(self.of@)[k] == without_net(before, net@)[k],
                forall|k: int| i <= k < before.len() ==> #[trigger] table(self.of@)[k] == before[k],
            decreases self.of.len() - i,
        {
            let ghost rows = table(self.of@);
            assert(rows[i as int] == before[i as int]);
            let n: usize = self.of[i].len();
            let mut j: usize = 0;
            while j < n
                invariant
                    i < self.of.len(),
                    j <= n,
                    n == self.of@[i as int].len(),
                    n == before[i as int].len(),
                    self.plan == old(self).plan,
                    text_of(want) == Some(net@),
                    self.of.len() == before.len(),
                    rows.len() == before.len(),
                    forall|k: int|
                        0 <= k < rows.len() && k != i ==> #[trigger] table(self.of@)[k] == rows[k],
                    forall|k: int|
                        0 <= k < j ==> text_of(#[trigger] self.of@[i as int]@[k]) == without_net(
                            before,
                            net@,
                        )[i as int][k],
                    forall|k: int|
                        j <= k < n ==> text_of(#[trigger] self.of@[i as int]@[k])
                            == before[i as int][k],
                decreases n - j,
            {
                let ghost rows_before = self.of@;
                if same_option(&self.of[i][j], &want) {
                    self.of[i].set(j, None);
                }
                assert forall|k: int| 0 <= k < rows.len() && k != i implies #[trigger] table(
                    self.of@,
                )[k] == rows[k] by {
                    assert(self.of@[k] == rows_before[k]);
                    assert(table(self.of@)[k] =~= table(rows_before)[k]);
                }
                j += 1;
            }
            assert(table(self.of@)[i as int] =~= without_net(before, net@)[i as int]);
            i += 1;
        }
        assert(table(self.of@) =~= without_net(before, net@));
    }
}

/// Whether a list holds a name.
fn lists(list: &Vec<String>, name: &String) -> (yes: bool)
    ensures
        yes == texts(list@).contains(name@),
{
    let mut i: usize = 0;
    while i < list.len()
        invariant
            i <= list.len(),
            forall|k: int| 0 <= k < i ==> (#[trigger] texts(list@)[k]) != name@,
        decreases list.len() - i,
    {
        if list[i] == *name {
            assert(texts(list@)[i as int] == name@);
            return true;
        }
        i += 1;
    }
    false
}

fn note_special(plan: &mut Plan, net: &String)
    ensures
        texts(final(plan).special@) == noted(texts(old(plan).special@), net@),
        final(plan).destroy == old(plan).destroy,
        final(plan).create == old(plan).create,
        final(plan).connect == old(plan).connect,
{
    if !lists(&plan.special, net) {
        let ghost before = texts(plan.special@);
        plan.special.push(net.clone());
        assert(texts(plan.special@) =~= before.push(net@));
    }
}

/// The table of a design.
spec fn places(insts: Seq<PadInst>, of: Seq<Vec<Option<String>>>) -> bool {
    &&& of.len() == insts.len()
    &&& forall|i: int| 0 <= i < of.len() ==> (#[trigger] of[i])@.len() == insts[i].terms@.len()
}

proof fn lemma_places(insts: Seq<PadInst>, of: Seq<Vec<Option<String>>>)
    ensures
        places(insts, of) <==> shaped(insts, table(of)),
{
    if places(insts, of) {
        assert forall|i: int| 0 <= i < table(of).len() implies (#[trigger] table(of)[i]).len()
            == insts[i].terms@.len() by {
            assert(of[i]@.len() == insts[i].terms@.len());
        }
    }
    if shaped(insts, table(of)) {
        assert forall|i: int| 0 <= i < of.len() implies (#[trigger] of[i])@.len()
            == insts[i].terms@.len() by {
            assert(table(of)[i].len() == insts[i].terms@.len());
        }
    }
}

/// A clash as what it is.
spec fn clash_of(c: Conflict) -> Clash {
    Clash { a: c.a, b: c.b, net_a: c.net_a@, net_b: c.net_b@ }
}

/// Join a pair; whether that changed anything.
fn join(insts: &[PadInst], st: &mut State, a: TermId, b: TermId) -> (r: Result<bool, Conflict>)
    requires
        places(insts@, old(st).of@),
        is_term(insts@, a),
        is_term(insts@, b),
    ensures
        ({
            let want = old(st)@.joined((a, b));
            match r {
                Ok(changed) => {
                    &&& want.clash is None
                    &&& final(st)@ == want
                    &&& changed == (want != old(st)@)
                    &&& places(insts@, final(st).of@)
                },
                Err(c) => want.clash == Some(clash_of(c)),
            }
        }),
{
    assert(st.of@[a.0 as int]@.len() == insts@[a.0 as int].terms@.len());
    assert(st.of@[b.0 as int]@.len() == insts@[b.0 as int].terms@.len());
    let ghost was = st@;
    proof {
        lemma_places(insts@, st.of@);
        lemma_joined(insts@, st@, (a, b));
    }
    let (join_a, net): (bool, String) = match (st.net(a), st.net(b)) {
        (Some(net_a), Some(net_b)) => {
            if *net_a != *net_b {
                return Err(Conflict { a, b, net_a: net_a.clone(), net_b: net_b.clone() });
            }
            return Ok(false);
        },
        (None, None) => {
            return Ok(false);
        },
        (Some(n), None) => (false, n.clone()),
        (None, Some(n)) => (true, n.clone()),
    };
    let t: TermId = if join_a { a } else { b };
    st.attach(t, &net);
    note_special(&mut st.plan, &net);
    proof {
        lemma_places(insts@, st.of@);
        assert(st@.connect.len() == was.connect.len() + 1);
    }
    Ok(true)
}

/// Join pairs until nothing changes.
fn merge(insts: &[PadInst], pairs: &Vec<(TermId, TermId)>, st: &mut State) -> (r: Result<
    (),
    Conflict,
>)
    requires
        places(insts@, old(st).of@),
        valid_pairs(insts@, pairs@),
    ensures
        match r {
            Ok(_) => {
                &&& old(st)@.merged(pairs@).clash is None
                &&& final(st)@ == old(st)@.merged(pairs@)
                &&& places(insts@, final(st).of@)
            },
            Err(c) => old(st)@.merged(pairs@).clash == Some(clash_of(c)),
        },
{
    let ghost start = st@;
    let ghost mut n: nat = 0;
    loop
        invariant
            start == old(st)@,
            places(insts@, st.of@),
            valid_pairs(insts@, pairs@),
            st@ == start.passes(pairs@, n),
        decreases holes(st@.nets),
    {
        let ghost now = st@;
        let mut changed = false;
        let mut k: usize = 0;
        assert(pairs@.take(0) =~= Seq::<(TermId, TermId)>::empty());
        while k < pairs.len()
            invariant
                k <= pairs.len(),
                start == old(st)@,
                places(insts@, st.of@),
                valid_pairs(insts@, pairs@),
                now == start.passes(pairs@, n),
                now.clash is None,
                shaped(insts@, now.nets),
                st@ == now.pass(pairs@.take(k as int)),
                !changed ==> st@ == now,
                changed ==> holes(st@.nets) < holes(now.nets),
            decreases pairs.len() - k,
        {
            let (a, b) = pairs[k];
            let ghost part = pairs@.take(k + 1);
            let ghost before = st@;
            assert(part.drop_last() =~= pairs@.take(k as int));
            assert(is_term(insts@, pairs@[k as int].0));
            proof {
                lemma_places(insts@, st.of@);
                lemma_joined(insts@, st@, (a, b));
            }
            match join(insts, st, a, b) {
                Ok(c) => {
                    changed = changed || c;
                },
                Err(e) => {
                    proof {
                        assert(now.pass(part) == before.joined((a, b)));
                        lemma_clash_stays(now, pairs@, k + 1);
                        assert(pairs@.take(pairs@.len() as int) =~= pairs@);
                        let end = now.pass(pairs@);
                        assert(end == start.passes(pairs@, n + 1));
                        lemma_clash_pass(end, pairs@);
                        lemma_merged(start, pairs@, n + 1);
                    }
                    return Err(e);
                },
            }
            k += 1;
        }
        assert(pairs@.take(pairs@.len() as int) =~= pairs@);
        if !changed {
            proof {
                lemma_merged(start, pairs@, n);
            }
            return Ok(());
        }
        proof {
            n = n + 1;
        }
    }
}

/// After a clash the rest of a pass does nothing.
proof fn lemma_clash_stays(w: Wiring, pairs: Seq<(TermId, TermId)>, k: int)
    requires
        0 <= k <= pairs.len(),
        w.pass(pairs.take(k)).clash is Some,
    ensures
        w.pass(pairs.take(pairs.len() as int)) == w.pass(pairs.take(k)),
    decreases pairs.len() - k,
{
    if k < pairs.len() {
        assert(pairs.take(k + 1).drop_last() =~= pairs.take(k));
        lemma_clash_stays(w, pairs, k + 1);
    }
}

proof fn lemma_clash_pass(w: Wiring, pairs: Seq<(TermId, TermId)>)
    requires
        w.clash is Some,
    ensures
        w.pass(pairs) == w,
    decreases pairs.len(),
{
    if pairs.len() > 0 {
        lemma_clash_pass(w, pairs.drop_last());
    }
}

/// The name of a new net.
fn make_ring_net(insts: &[PadInst], t: TermId) -> (name: String)
    requires
        is_term(insts@, t),
    ensures
        name@ == ring_net(insts@, t),
{
    let inst = &insts[t.0];
    let mut name = inst.name.clone();
    name.append(".");
    name.append(inst.terms[t.1].name.as_str());
    name.append("_RING");
    name
}

/// The terminals' nets as they are given.
fn given(insts: &[PadInst]) -> (of: Vec<Vec<Option<String>>>)
    ensures
        table(of@) == given_nets(insts@),
        places(insts@, of@),
{
    let mut of: Vec<Vec<Option<String>>> = Vec::new();
    let mut i: usize = 0;
    while i < insts.len()
        invariant
            i <= insts.len(),
            of.len() == i,
            forall|k: int| 0 <= k < i ==> (#[trigger] of@[k])@.len() == insts@[k].terms@.len(),
            forall|k: int| 0 <= k < i ==> (#[trigger] table(of@)[k]) == given_nets(insts@)[k],
        decreases insts.len() - i,
    {
        let mut row: Vec<Option<String>> = Vec::new();
        let mut j: usize = 0;
        while j < insts[i].terms.len()
            invariant
                i < insts.len(),
                j <= insts@[i as int].terms.len(),
                row.len() == j,
                forall|k: int|
                    0 <= k < j ==> text_of(#[trigger] row@[k]) == text_of(
                        insts@[i as int].terms@[k].net,
                    ),
            decreases insts@[i as int].terms.len() - j,
        {
            let net: Option<String> = match &insts[i].terms[j].net {
                Some(n) => Some(n.clone()),
                None => None,
            };
            row.push(net);
            j += 1;
        }
        let ghost before = of@;
        of.push(row);
        assert forall|k: int| 0 <= k < i + 1 implies (#[trigger] table(of@)[k]) == given_nets(
            insts@,
        )[k] by {
            if k < i {
                assert(table(before)[k] == given_nets(insts@)[k]);
                assert(table(of@)[k] =~= table(before)[k]);
            } else {
                assert(table(of@)[k] =~= given_nets(insts@)[k]);
            }
        }
        i += 1;
    }
    assert(table(of@) =~= given_nets(insts@));
    of
}

/// Destroy a terminal's net, where it holds that terminal alone.
fn clear<F: Fn(&str) -> u32>(insts: &[PadInst], st: &mut State, t: TermId, connections_of: &F)
    requires
        places(insts@, old(st).of@),
        is_term(insts@, t),
        total_count(*connections_of),
    ensures
        places(insts@, final(st).of@),
        forall|rule: spec_fn(Seq<char>) -> u32| #[trigger]
            follows_count(*connections_of, rule) ==> final(st)@ == old(st)@.cleared(t, rule),
{
    assert(st.of@[t.0 as int]@.len() == insts@[t.0 as int].terms@.len());
    proof {
        lemma_places(insts@, st.of@);
    }
    let net: String = match st.net(t) {
        Some(n) => n.clone(),
        None => {
            return;
        },
    };
    if connections_of(net.as_str()) == 1 {
        let ghost destroyed = texts(st.plan.destroy@);
        st.forget(&net);
        st.plan.destroy.push(net);
        proof {
            assert(texts(st.plan.destroy@) =~= destroyed.push(net@));
            lemma_places(insts@, st.of@);
        }
    }
}

/// What was returned is what was owed.
pub open spec fn planned(r: Result<Plan, Conflict>, w: Wiring) -> bool {
    match r {
        Ok(plan) => {
            &&& w.clash is None
            &&& plan.destroy@.len() == w.destroy.len()
            &&& forall|i: int|
                0 <= i < w.destroy.len() ==> (#[trigger] plan.destroy@[i])@ == w.destroy[i]
            &&& plan.create@.len() == w.create.len()
            &&& forall|i: int|
                0 <= i < w.create.len() ==> (#[trigger] plan.create@[i])@ == w.create[i]
            &&& plan.connect@.len() == w.connect.len()
            &&& forall|i: int| #![trigger plan.connect@[i]]
                0 <= i < w.connect.len() ==> plan.connect@[i].0 == w.connect[i].0
                    && plan.connect@[i].1@ == w.connect[i].1
            &&& plan.special@.len() == w.special.len()
            &&& forall|i: int|
                0 <= i < w.special.len() ==> (#[trigger] plan.special@[i])@ == w.special[i]
        },
        Err(c) => w.clash == Some(
            Clash { a: c.a, b: c.b, net_a: c.net_a@, net_b: c.net_b@ },
        ),
    }
}

proof fn lemma_planned(st: State, w: Wiring)
    requires
        st@ == w,
    ensures
        planned(Ok(st.plan), w),
{
    let p = st.plan;
    assert forall|i: int| 0 <= i < w.destroy.len() implies (#[trigger] p.destroy@[i])@
        == w.destroy[i] by {
        assert(texts(p.destroy@)[i] == p.destroy@[i]@);
    }
    assert forall|i: int| 0 <= i < w.create.len() implies (#[trigger] p.create@[i])@
        == w.create[i] by {
        assert(texts(p.create@)[i] == p.create@[i]@);
    }
    assert forall|i: int| #![trigger p.connect@[i]] 0 <= i < w.connect.len() implies p.connect@[i].0
        == w.connect[i].0 && p.connect@[i].1@ == w.connect[i].1 by {
        assert(links(p.connect@)[i] == (p.connect@[i].0, p.connect@[i].1@));
    }
    assert forall|i: int| 0 <= i < w.special.len() implies (#[trigger] p.special@[i])@
        == w.special[i] by {
        assert(texts(p.special@)[i] == p.special@[i]@);
    }
}

/// After a clash no more nets are made.
proof fn lemma_clash_made(
    w: Wiring,
    insts: Seq<PadInst>,
    pairs: Seq<(TermId, TermId)>,
    k: int,
)
    requires
        0 <= k <= pairs.len(),
        w.all_made(insts, pairs, pairs.take(k)).clash is Some,
    ensures
        w.all_made(insts, pairs, pairs) == w.all_made(insts, pairs, pairs.take(k)),
    decreases pairs.len() - k,
{
    if k < pairs.len() {
        assert(pairs.take(k + 1).drop_last() =~= pairs.take(k));
        lemma_clash_made(w, insts, pairs, k + 1);
    } else {
        assert(pairs.take(k) =~= pairs);
    }
}

/// Join up everything that touches.
///
/// Three steps, in this order. A net holding a single terminal is destroyed: it cannot be a
/// connection, and leaving it would block the merge below. Then merge until nothing changes: where
/// one side has a net and the other does not, the other joins it; where both have nets and they
/// differ, the input is contradictory and this stops. What is still unconnected gets a new net, named
/// after the first of the two terminals; it becomes special only if the merge then joins something
/// else to it.
///
/// `connections_of` reports how many terminals a net starts with, counting the whole design and not
/// just these pads.
pub fn connect_by_abutment<F: Fn(&str) -> u32>(
    insts: &[PadInst],
    connections_of: &F,
) -> (r: Result<Plan, Conflict>)
    requires
        total_count(*connections_of),
    ensures
        forall|rule: spec_fn(Seq<char>) -> u32| #[trigger]
            follows_count(*connections_of, rule) ==> planned(r, wired(insts@, rule)),
{
    let pairs = all_touching(insts);
    let of = given(insts);
    let mut st = State { of, plan: Plan::default() };
    let ghost start = Wiring {
        nets: given_nets(insts@),
        destroy: Seq::empty(),
        create: Seq::empty(),
        connect: Seq::empty(),
        special: Seq::empty(),
        clash: None,
    };
    proof {
        assert(st@.destroy =~= start.destroy);
        assert(st@.create =~= start.create);
        assert(st@.connect =~= start.connect);
        assert(st@.special =~= start.special);
    }
    let mut k: usize = 0;
    assert(pairs@.take(0) =~= Seq::<(TermId, TermId)>::empty());
    while k < pairs.len()
        invariant
            k <= pairs.len(),
            places(insts@, st.of@),
            valid_pairs(insts@, pairs@),
            total_count(*connections_of),
            forall|rule: spec_fn(Seq<char>) -> u32| #[trigger]
                follows_count(*connections_of, rule) ==> st@ == start.all_cleared(
                    pairs@.take(k as int),
                    rule,
                ),
        decreases pairs.len() - k,
    {
        let (a, b) = pairs[k];
        assert(pairs@.take(k + 1).drop_last() =~= pairs@.take(k as int));
        assert(is_term(insts@, pairs@[k as int].0));
        clear(insts, &mut st, a, connections_of);
        clear(insts, &mut st, b, connections_of);
        k += 1;
    }
    assert(pairs@.take(pairs@.len() as int) =~= pairs@);
    let ghost cleared = st@;
    match merge(insts, &pairs, &mut st) {
        Ok(_) => {},
        Err(c) => {
            assert forall|rule: spec_fn(Seq<char>) -> u32| #[trigger]
                follows_count(*connections_of, rule) implies planned(
                Err(c),
                wired(insts@, rule),
            ) by {
                assert(pairs@.take(0) =~= Seq::<(TermId, TermId)>::empty());
                let w = cleared.merged(pairs@);
                assert(w.all_made(insts@, pairs@, pairs@.take(0)) == w);
                lemma_clash_made(w, insts@, pairs@, 0);
            }
            return Err(c);
        },
    }
    let ghost merged = st@;
    k = 0;
    assert(pairs@.take(0) =~= Seq::<(TermId, TermId)>::empty());
    while k < pairs.len()
        invariant
            k <= pairs.len(),
            places(insts@, st.of@),
            valid_pairs(insts@, pairs@),
            pairs@ == touching_pairs(insts@),
            merged == cleared.merged(pairs@),
            forall|rule: spec_fn(Seq<char>) -> u32| #[trigger]
                follows_count(*connections_of, rule) ==> cleared == start.all_cleared(
                    pairs@,
                    rule,
                ),
            start == (Wiring {
                nets: given_nets(insts@),
                destroy: Seq::empty(),
                create: Seq::empty(),
                connect: Seq::empty(),
                special: Seq::empty(),
                clash: None,
            }),
            st@ == merged.all_made(insts@, pairs@, pairs@.take(k as int)),
        decreases pairs.len() - k,
    {
        let (a, b) = pairs[k];
        assert(pairs@.take(k + 1).drop_last() =~= pairs@.take(k as int));
        assert(is_term(insts@, pairs@[k as int].0));
        assert(st.of@[a.0 as int]@.len() == insts@[a.0 as int].terms@.len());
        assert(st.of@[b.0 as int]@.len() == insts@[b.0 as int].terms@.len());
        let missing = match st.net(a) {
            Some(_) => false,
            None => true,
        };
        if missing {
            let name = make_ring_net(insts, a);
            let ghost created = texts(st.plan.create@);
            let ghost was = st@;
            st.plan.create.push(name.clone());
            assert(texts(st.plan.create@) =~= created.push(name@));
            let ghost new = Wiring { create: was.create.push(name@), ..was };
            assert(st@ == new);
            proof {
                lemma_places(insts@, st.of@);
            }
            st.attach(a, &name);
            proof {
                lemma_places(insts@, st.of@);
                assert(st.of@[b.0 as int]@.len() == insts@[b.0 as int].terms@.len());
            }
            st.attach(b, &name);
            proof {
                lemma_places(insts@, st.of@);
            }
            match merge(insts, &pairs, &mut st) {
                Ok(_) => {},
                Err(c) => {
                    proof {
                        lemma_clash_made(merged, insts@, pairs@, k + 1);
                    }
                    return Err(c);
                },
            }
        }
        k += 1;
    }
    proof {
        assert(pairs@.take(pairs@.len() as int) =~= pairs@);
        lemma_planned(st, merged.all_made(insts@, pairs@, pairs@));
    }
    Ok(st.plan)
}

/// The last supply terminal's type; without one, the type there was.
pub open spec fn sig_type(current: Seq<char>, term_types: Seq<(bool, String)>) -> Seq<char>
    decreases term_types.len(),
{
    if term_types.len() == 0 {
        current
    } else if term_types.last().0 {
        term_types.last().1@
    } else {
        sig_type(current, term_types.drop_last())
    }
}

/// The signal type a net takes once it is special.
///
/// A supply terminal wins: if any terminal on the net is power or ground, the net becomes that,
/// whatever it was before. The last such terminal decides.
pub fn special_sig_type(current: &str, term_types: &[(bool, String)]) -> (sig: String)
    ensures
        sig@ == sig_type(current@, term_types@),
{
    let mut i: usize = term_types.len();
    assert(term_types@.take(i as int) =~= term_types@);
    while i > 0
        invariant
            i <= term_types.len(),
            sig_type(current@, term_types@) == sig_type(current@, term_types@.take(i as int)),
        decreases i,
    {
        assert(term_types@.take(i as int).drop_last() =~= term_types@.take(i - 1));
        if term_types[i - 1].0 {
            return term_types[i - 1].1.clone();
        }
        i -= 1;
    }
    current.to_owned()
}

/// The touching pairs of a design are of two terminals of different instances each.
proof fn lemma_touching_valid(insts: Seq<PadInst>)
    requires
        insts.len() <= usize::MAX,
        forall|i: int| 0 <= i < insts.len() ==> (#[trigger] insts[i]).terms@.len() <= usize::MAX,
    ensures
        valid_pairs(insts, touching_pairs(insts)),
{
    lemma_upto_valid(insts, insts.len() as int);
}

proof fn lemma_upto_valid(insts: Seq<PadInst>, n: int)
    requires
        n <= insts.len() <= usize::MAX,
        forall|i: int| 0 <= i < insts.len() ==> (#[trigger] insts[i]).terms@.len() <= usize::MAX,
    ensures
        valid_pairs(insts, pairs_upto(insts, n)),
    decreases n,
{
    if n > 0 {
        lemma_upto_valid(insts, n - 1);
        lemma_with_valid(insts, n - 1, insts.len() as int);
    }
}

proof fn lemma_with_valid(insts: Seq<PadInst>, i: int, n: int)
    requires
        0 <= i < insts.len() <= usize::MAX,
        n <= insts.len(),
        forall|i: int| 0 <= i < insts.len() ==> (#[trigger] insts[i]).terms@.len() <= usize::MAX,
    ensures
        valid_pairs(insts, pairs_with(insts, i, n)),
    decreases n - i,
{
    if n > i + 1 {
        lemma_with_valid(insts, i, n - 1);
        let (a, b) = (insts[i], insts[n - 1]);
        if meet(rt(a.bbox), rt(b.bbox)) {
            lemma_meeting_valid(a, b, (a.terms@.len() * b.terms@.len()) as int);
        }
    }
}

proof fn lemma_meeting_valid(a: PadInst, b: PadInst, n: int)
    requires
        n <= a.terms@.len() * b.terms@.len(),
        a.terms@.len() <= usize::MAX,
        b.terms@.len() <= usize::MAX,
    ensures
        forall|k: int|
            0 <= k < meeting_terms(a, b, n).len() ==> (#[trigger] meeting_terms(a, b, n)[k]).0
                < a.terms@.len() && meeting_terms(a, b, n)[k].1 < b.terms@.len(),
    decreases n,
{
    if n > 0 {
        lemma_meeting_valid(a, b, n - 1);
        let (l, m) = (a.terms@.len() as int, b.terms@.len() as int);
        assert(m > 0) by (nonlinear_arith)
            requires
                0 < n <= l * m,
                l >= 0,
                m >= 0,
        ;
        vstd::arithmetic::div_mod::lemma_fundamental_div_mod(n - 1, m);
        vstd::arithmetic::div_mod::lemma_mod_bound(n - 1, m);
        vstd::arithmetic::div_mod::lemma_div_pos_is_pos(n - 1, m);
        let q = (n - 1) / m;
        assert(q < l) by (nonlinear_arith)
            requires
                n - 1 >= m * q,
                n <= l * m,
                m > 0,
        ;
        let (rest, all) = (meeting_terms(a, b, n - 1), meeting_terms(a, b, n));
        assert forall|k: int| 0 <= k < all.len() implies (#[trigger] all[k]).0 < a.terms@.len()
            && all[k].1 < b.terms@.len() by {
            if k < rest.len() {
                assert(all[k] == rest[k]);
            }
        }
    }
}

/// The box holds the point, its bounds included.
pub open spec fn box_holds(r: (int, int, int, int), x: int, y: int) -> bool {
    r.0 <= x <= r.2 && r.1 <= y <= r.3
}

/// Two boxes meet exactly where they share a point, be it only one on an edge or in a corner.
pub proof fn law_meeting_is_a_shared_point(a: (int, int, int, int), b: (int, int, int, int))
    requires
        a.0 <= a.2 && a.1 <= a.3 && b.0 <= b.2 && b.1 <= b.3,
    ensures
        meet(a, b) <==> exists|x: int, y: int| #[trigger] box_holds(a, x, y) && box_holds(b, x, y),
{
    if meet(a, b) {
        let x = if a.0 < b.0 { b.0 } else { a.0 };
        let y = if a.1 < b.1 { b.1 } else { a.1 };
        assert(box_holds(a, x, y) && box_holds(b, x, y));
    }
}

/// Two terminals have shapes on one layer that meet.
pub open spec fn in_contact(a: Terminal, b: Terminal) -> bool {
    exists|i: int, j: int|
        0 <= i < a.shapes@.len() && 0 <= j < b.shapes@.len() && (#[trigger] a.shapes@[i]).0 == (
        #[trigger] b.shapes@[j]).0 && meet(rt(a.shapes@[i].1), rt(b.shapes@[j].1))
}

proof fn lemma_meeting_terms(a: PadInst, b: PadInst, n: int, p: usize, q: usize)
    requires
        0 <= n <= a.terms@.len() * b.terms@.len(),
        a.terms@.len() <= usize::MAX,
        b.terms@.len() <= usize::MAX,
    ensures
        meeting_terms(a, b, n).contains((p, q)) <==> {
            &&& p < a.terms@.len() && q < b.terms@.len() && p * b.terms@.len() + q < n
            &&& in_contact(a.terms@[p as int], b.terms@[q as int])
        },
    decreases n,
{
    let m = b.terms@.len() as int;
    if p < a.terms@.len() && q < m {
        let (s, t) = (a.terms@[p as int], b.terms@[q as int]);
        assert(p * m >= 0) by (nonlinear_arith)
            requires
                m >= 0,
        ;
        if terms_meet(s, t) {
            let (i, j) = choose|i: int, j: int|
                0 <= i < s.shapes@.len() && 0 <= j < t.shapes@.len() && shapes_meet(
                    #[trigger] s.shapes@[i],
                    #[trigger] t.shapes@[j],
                );
            assert(s.shapes@[i].0 == t.shapes@[j].0);
        }
        if in_contact(s, t) {
            let (i, j) = choose|i: int, j: int|
                0 <= i < s.shapes@.len() && 0 <= j < t.shapes@.len() && (#[trigger] s.shapes@[i]).0
                    == (#[trigger] t.shapes@[j]).0 && meet(
                    rt(s.shapes@[i].1),
                    rt(t.shapes@[j].1),
                );
            assert(shapes_meet(s.shapes@[i], t.shapes@[j]));
        }
    }
    if n > 0 {
        lemma_meeting_terms(a, b, n - 1, p, q);
        let k = n - 1;
        assert(m > 0) by (nonlinear_arith)
            requires
                0 < n <= a.terms@.len() * m,
                m >= 0,
        ;
        let (i, j) = (k / m, k % m);
        vstd::arithmetic::div_mod::lemma_fundamental_div_mod(k, m);
        vstd::arithmetic::div_mod::lemma_mod_bound(k, m);
        vstd::arithmetic::div_mod::lemma_div_pos_is_pos(k, m);
        assert(m * i == i * m) by (nonlinear_arith);
        assert(i < a.terms@.len()) by (nonlinear_arith)
            requires
                i * m <= k,
                k < a.terms@.len() * m,
                m > 0,
        ;
        crate::lists::lemma_push_contains(
            meeting_terms(a, b, n - 1),
            (i as usize, j as usize),
            (p, q),
        );
        if p < a.terms@.len() && q < m && p * m + q == k {
            vstd::arithmetic::div_mod::lemma_fundamental_div_mod_converse(k, m, p as int, q as int);
        }
    }
}

proof fn lemma_ids(i: usize, j: usize, pairs: Seq<(usize, usize)>, a: TermId, b: TermId)
    ensures
        ids(i, j, pairs).contains((a, b)) <==> a.0 == i && b.0 == j && pairs.contains((a.1, b.1)),
{
    let all = ids(i, j, pairs);
    if all.contains((a, b)) {
        let k = choose|k: int| 0 <= k < all.len() && all[k] == (a, b);
        assert(pairs[k] == (a.1, b.1));
    }
    if a.0 == i && b.0 == j && pairs.contains((a.1, b.1)) {
        let k = choose|k: int| 0 <= k < pairs.len() && pairs[k] == (a.1, b.1);
        assert(all[k] == (a, b));
    }
}

proof fn lemma_either<T>(a: Seq<T>, b: Seq<T>, x: T)
    ensures
        (a + b).contains(x) <==> a.contains(x) || b.contains(x),
{
    let all = a + b;
    if a.contains(x) {
        let k = choose|k: int| 0 <= k < a.len() && a[k] == x;
        assert(all[k] == x);
    }
    if b.contains(x) {
        let k = choose|k: int| 0 <= k < b.len() && b[k] == x;
        assert(all[a.len() + k] == x);
    }
    if all.contains(x) {
        let k = choose|k: int| 0 <= k < all.len() && all[k] == x;
        if k < a.len() {
            assert(a[k] == x);
        } else {
            assert(b[k - a.len()] == x);
        }
    }
}

proof fn lemma_pairs_with(insts: Seq<PadInst>, i: int, n: int, a: TermId, b: TermId)
    requires
        0 <= i < insts.len() <= usize::MAX,
        n <= insts.len(),
    ensures
        pairs_with(insts, i, n).contains((a, b)) <==> a.0 == i && i < b.0 < n && touching(
            insts[i],
            insts[b.0 as int],
        ).contains((a.1, b.1)),
    decreases n - i,
{
    if n > i + 1 {
        lemma_pairs_with(insts, i, n - 1, a, b);
        let last = ids(i as usize, (n - 1) as usize, touching(insts[i], insts[n - 1]));
        lemma_either(pairs_with(insts, i, n - 1), last, (a, b));
        lemma_ids(i as usize, (n - 1) as usize, touching(insts[i], insts[n - 1]), a, b);
    }
}

proof fn lemma_pairs_upto(insts: Seq<PadInst>, n: int, a: TermId, b: TermId)
    requires
        0 <= n <= insts.len() <= usize::MAX,
    ensures
        pairs_upto(insts, n).contains((a, b)) <==> a.0 < n && a.0 < b.0 < insts.len() && touching(
            insts[a.0 as int],
            insts[b.0 as int],
        ).contains((a.1, b.1)),
    decreases n,
{
    if n > 0 {
        lemma_pairs_upto(insts, n - 1, a, b);
        let last = pairs_with(insts, n - 1, insts.len() as int);
        lemma_either(pairs_upto(insts, n - 1), last, (a, b));
        lemma_pairs_with(insts, n - 1, insts.len() as int, a, b);
    }
}

/// What touches: two terminals of different instances, the earlier first, whose instances' boxes meet and
/// that have shapes on one layer that meet.
pub proof fn law_what_touches(insts: Seq<PadInst>, a: TermId, b: TermId)
    requires
        insts.len() <= usize::MAX,
        forall|i: int| 0 <= i < insts.len() ==> (#[trigger] insts[i]).terms@.len() <= usize::MAX,
    ensures
        touching_pairs(insts).contains((a, b)) <==> {
            &&& is_term(insts, a) && is_term(insts, b) && a.0 < b.0
            &&& meet(rt(insts[a.0 as int].bbox), rt(insts[b.0 as int].bbox))
            &&& in_contact(
                insts[a.0 as int].terms@[a.1 as int],
                insts[b.0 as int].terms@[b.1 as int],
            )
        },
{
    lemma_pairs_upto(insts, insts.len() as int, a, b);
    if a.0 < b.0 < insts.len() {
        let (x, y) = (insts[a.0 as int], insts[b.0 as int]);
        let (m, n) = (x.terms@.len() as int, y.terms@.len() as int);
        assert(m * n >= 0) by (nonlinear_arith)
            requires
                m >= 0,
                n >= 0,
        ;
        lemma_meeting_terms(x, y, m * n, a.1, b.1);
        if a.1 < m && b.1 < n {
            assert(a.1 * n + b.1 < m * n) by (nonlinear_arith)
                requires
                    0 <= a.1 <= m - 1,
                    0 <= b.1 < n,
            ;
        }
    }
}

/// What a plan says agrees with the nets it leads to: a terminal is told to join the net that it is on, and
/// was on none; one that came to a net is told to; a net that is joined is made or becomes special; and
/// one that becomes special is joined.
pub open spec fn tallied(insts: Seq<PadInst>, w: Wiring, first: Nets) -> bool {
    &&& shaped(insts, w.nets)
    &&& forall|k: int|
        0 <= k < w.connect.len() ==> is_term(insts, (#[trigger] w.connect[k]).0) && net_of(
            w.nets,
            w.connect[k].0,
        ) == Some(w.connect[k].1) && net_of(first, w.connect[k].0) is None && (w.special.contains(
            w.connect[k].1,
        ) || w.create.contains(w.connect[k].1))
    &&& forall|t: TermId|
        is_term(insts, t) && #[trigger] net_of(w.nets, t) != net_of(first, t) ==> net_of(w.nets, t)
            is Some && w.connect.contains((t, net_of(w.nets, t)->0))
    &&& forall|s: int|
        0 <= s < w.special.len() ==> is_joined(w.connect, #[trigger] w.special[s])
    &&& forall|s: int| 0 <= s < w.create.len() ==> is_joined(w.connect, #[trigger] w.create[s])
}

/// Some terminal is told to join the net.
pub open spec fn is_joined(connect: Seq<(TermId, Seq<char>)>, net: Seq<char>) -> bool {
    exists|k: int| 0 <= k < connect.len() && (#[trigger] connect[k]).1 == net
}

/// A terminal that has no net put on one that is noted.
proof fn lemma_tallied_attached(
    insts: Seq<PadInst>,
    w: Wiring,
    first: Nets,
    t: TermId,
    net: Seq<char>,
    special: Seq<Seq<char>>,
    create: Seq<Seq<char>>,
)
    requires
        tallied(insts, w, first),
        is_term(insts, t),
        net_of(w.nets, t) is None,
        w.special == special || w.special.push(net) == special,
        w.create == create || w.create.push(net) == create,
        special.contains(net) || create.contains(net),
    ensures
        tallied(insts, (Wiring { special, create, ..w.attached(t, net) }), first),
{
    let after = Wiring { special, create, ..w.attached(t, net) };
    let n = w.connect.len() as int;
    assert(after.connect[n] == (t, net));
    assert forall|k: int| 0 <= k < after.connect.len() implies is_term(
        insts,
        (#[trigger] after.connect[k]).0,
    ) && net_of(after.nets, after.connect[k].0) == Some(after.connect[k].1) && net_of(
        first,
        after.connect[k].0,
    ) is None && (after.special.contains(after.connect[k].1) || after.create.contains(
        after.connect[k].1,
    )) by {
        if k < n {
            assert(after.connect[k] == w.connect[k]);
            crate::lists::lemma_push_contains(w.special, net, w.connect[k].1);
            crate::lists::lemma_push_contains(w.create, net, w.connect[k].1);
        } else {
            assert(net_of(w.nets, t) == net_of(first, t));
        }
    }
    assert forall|u: TermId|
        is_term(insts, u) && #[trigger] net_of(after.nets, u) != net_of(first, u) implies net_of(
        after.nets,
        u,
    ) is Some && after.connect.contains((u, net_of(after.nets, u)->0)) by {
        if u != t {
            assert(net_of(after.nets, u) == net_of(w.nets, u));
            let x = (u, net_of(w.nets, u)->0);
            let k = choose|k: int| 0 <= k < w.connect.len() && w.connect[k] == x;
            assert(after.connect[k] == x);
        }
    }
    assert forall|s: int| 0 <= s < after.special.len() implies is_joined(
        after.connect,
        #[trigger] after.special[s],
    ) by {
        if s < w.special.len() {
            assert(after.special[s] == w.special[s]);
            lemma_still_joined(w.connect, (t, net), w.special[s]);
        } else {
            assert(after.connect[n].1 == after.special[s]);
        }
    }
    assert forall|s: int| 0 <= s < after.create.len() implies is_joined(
        after.connect,
        #[trigger] after.create[s],
    ) by {
        if s < w.create.len() {
            assert(after.create[s] == w.create[s]);
            lemma_still_joined(w.connect, (t, net), w.create[s]);
        } else {
            assert(after.connect[n].1 == after.create[s]);
        }
    }
}

proof fn lemma_still_joined(
    connect: Seq<(TermId, Seq<char>)>,
    last: (TermId, Seq<char>),
    net: Seq<char>,
)
    requires
        is_joined(connect, net),
    ensures
        is_joined(connect.push(last), net),
{
    let k = choose|k: int| 0 <= k < connect.len() && (#[trigger] connect[k]).1 == net;
    assert(connect.push(last)[k].1 == net);
}

/// What a plan says does not depend on a clash.
proof fn lemma_tallied_alike(insts: Seq<PadInst>, w: Wiring, v: Wiring, first: Nets)
    requires
        tallied(insts, w, first),
        v.nets == w.nets,
        v.connect == w.connect,
        v.special == w.special,
        v.create == w.create,
    ensures
        tallied(insts, v, first),
{
}

proof fn lemma_tallied_joined(
    insts: Seq<PadInst>,
    w: Wiring,
    first: Nets,
    pair: (TermId, TermId),
)
    requires
        tallied(insts, w, first),
        is_term(insts, pair.0),
        is_term(insts, pair.1),
    ensures
        tallied(insts, w.joined(pair), first),
{
    let (a, b) = pair;
    if w.clash is None {
        match (net_of(w.nets, a), net_of(w.nets, b)) {
            (Some(net), None) => {
                crate::lists::lemma_push_contains(w.special, net, net);
                lemma_tallied_attached(insts, w, first, b, net, noted(w.special, net), w.create);
                assert(w.joined(pair) == (Wiring {
                    special: noted(w.special, net),
                    create: w.create,
                    ..w.attached(b, net)
                }));
            },
            (None, Some(net)) => {
                crate::lists::lemma_push_contains(w.special, net, net);
                lemma_tallied_attached(insts, w, first, a, net, noted(w.special, net), w.create);
                assert(w.joined(pair) == (Wiring {
                    special: noted(w.special, net),
                    create: w.create,
                    ..w.attached(a, net)
                }));
            },
            (Some(x), Some(y)) => {
                let after = w.joined(pair);
                assert(after.nets == w.nets && after.connect == w.connect && after.special
                    == w.special && after.create == w.create);
                lemma_tallied_alike(insts, w, after, first);
            },
            (None, None) => {},
        }
    }
}

proof fn lemma_tallied_pass(
    insts: Seq<PadInst>,
    w: Wiring,
    first: Nets,
    pairs: Seq<(TermId, TermId)>,
)
    requires
        tallied(insts, w, first),
        valid_pairs(insts, pairs),
    ensures
        tallied(insts, w.pass(pairs), first),
    decreases pairs.len(),
{
    if pairs.len() > 0 {
        let head = pairs.drop_last();
        assert(valid_pairs(insts, head)) by {
            assert forall|k: int| #![trigger head[k]] 0 <= k < head.len() implies is_term(
                insts,
                head[k].0,
            ) && is_term(insts, head[k].1) && head[k].0.0 < head[k].1.0 by {
                assert(pairs[k] == head[k]);
            }
        }
        lemma_tallied_pass(insts, w, first, head);
        assert(pairs[pairs.len() - 1] == pairs.last());
        lemma_tallied_joined(insts, w.pass(head), first, pairs.last());
    }
}

proof fn lemma_tallied_passes(
    insts: Seq<PadInst>,
    w: Wiring,
    first: Nets,
    pairs: Seq<(TermId, TermId)>,
    n: nat,
)
    requires
        tallied(insts, w, first),
        valid_pairs(insts, pairs),
    ensures
        tallied(insts, w.passes(pairs, n), first),
    decreases n,
{
    if n > 0 {
        lemma_tallied_passes(insts, w, first, pairs, (n - 1) as nat);
        lemma_tallied_pass(insts, w.passes(pairs, (n - 1) as nat), first, pairs);
    }
}

proof fn lemma_tallied_made(
    insts: Seq<PadInst>,
    w: Wiring,
    first: Nets,
    pairs: Seq<(TermId, TermId)>,
    list: Seq<(TermId, TermId)>,
)
    requires
        tallied(insts, w, first),
        valid_pairs(insts, pairs),
        valid_pairs(insts, list),
        w.pass(pairs) == w,
        forall|k: int| 0 <= k < list.len() ==> pairs.contains(#[trigger] list[k]),
        insts.len() <= usize::MAX,
    ensures
        tallied(insts, w.all_made(insts, pairs, list), first),
        w.all_made(insts, pairs, list).pass(pairs) == w.all_made(insts, pairs, list),
    decreases list.len(),
{
    if list.len() > 0 {
        let head = list.drop_last();
        assert(valid_pairs(insts, head)) by {
            assert forall|k: int| #![trigger head[k]] 0 <= k < head.len() implies is_term(
                insts,
                head[k].0,
            ) && is_term(insts, head[k].1) && head[k].0.0 < head[k].1.0 by {
                assert(list[k] == head[k]);
            }
        }
        assert forall|k: int| 0 <= k < head.len() implies pairs.contains(#[trigger] head[k]) by {
            assert(list[k] == head[k]);
        }
        lemma_tallied_made(insts, w, first, pairs, head);
        let now = w.all_made(insts, pairs, head);
        let (a, b) = list.last();
        assert(list[list.len() - 1] == list.last());
        if now.clash is None && net_of(now.nets, a) is None {
            let k = choose|k: int| 0 <= k < pairs.len() && pairs[k] == list.last();
            lemma_settled(insts, now, pairs, k);
            let name = ring_net(insts, a);
            let new = Wiring { create: now.create.push(name), ..now };
            crate::lists::lemma_push_contains(now.create, name, name);
            lemma_tallied_attached(
                insts,
                now,
                first,
                a,
                name,
                now.special,
                now.create.push(name),
            );
            let one = new.attached(a, name);
            assert(one == (Wiring {
                special: now.special,
                create: now.create.push(name),
                ..now.attached(a, name)
            }));
            lemma_tallied_attached(insts, one, first, b, name, one.special, one.create);
            let two = one.attached(b, name);
            assert(two == (Wiring {
                special: one.special,
                create: one.create,
                ..one.attached(b, name)
            }));
            assert(two.passes(pairs, 0) == two);
            lemma_merge_ends(insts, two, pairs, 0);
            let m = choose|n: nat| (#[trigger] two.passes(pairs, n)).pass(pairs) == two.passes(
                pairs,
                n,
            );
            lemma_tallied_passes(insts, two, first, pairs, m);
        }
    }
}

/// A plan agrees with the nets it leads to, counted from those that are left once the nets of a single
/// terminal are destroyed.
pub proof fn law_plan_is_what_is_done(insts: Seq<PadInst>, count: spec_fn(Seq<char>) -> u32)
    requires
        insts.len() <= usize::MAX,
        forall|i: int| 0 <= i < insts.len() ==> (#[trigger] insts[i]).terms@.len() <= usize::MAX,
    ensures
        exists|first: Nets|
            #![trigger tallied(insts, wired(insts, count), first)]
            tallied(insts, wired(insts, count), first) && shaped(insts, first) && forall|t: TermId|
                is_term(insts, t) ==> #[trigger] net_of(first, t) == net_of(given_nets(insts), t)
                    || (net_of(first, t) is None && count(net_of(given_nets(insts), t)->0) == 1),
{
    let pairs = touching_pairs(insts);
    let start = Wiring {
        nets: given_nets(insts),
        destroy: Seq::empty(),
        create: Seq::empty(),
        connect: Seq::empty(),
        special: Seq::empty(),
        clash: None,
    };
    assert(shaped(insts, start.nets));
    lemma_touching_valid(insts);
    lemma_all_cleared(insts, start, pairs, count);
    let clear = start.all_cleared(pairs, count);
    lemma_cleared_only(insts, start, pairs, count);
    let first = clear.nets;
    assert(tallied(insts, clear, first));
    assert(clear.passes(pairs, 0) == clear);
    lemma_merge_ends(insts, clear, pairs, 0);
    let m = choose|n: nat| (#[trigger] clear.passes(pairs, n)).pass(pairs) == clear.passes(pairs, n);
    lemma_tallied_passes(insts, clear, first, pairs, m);
    lemma_tallied_made(insts, clear.merged(pairs), first, pairs, pairs);
    assert(tallied(insts, wired(insts, count), first));
    assert forall|t: TermId| is_term(insts, t) implies #[trigger] net_of(first, t) == net_of(
        given_nets(insts),
        t,
    ) || (net_of(first, t) is None && count(net_of(given_nets(insts), t)->0) == 1) by {
        if net_of(given_nets(insts), t) is Some && net_of(first, t) != net_of(
            given_nets(insts),
            t,
        ) {
            let net = net_of(given_nets(insts), t)->0;
            if count(net) != 1 {
                lemma_clearing_keeps(insts, start, pairs, count, t, net);
            }
        }
    }
}

/// Clearing takes nets away, gives none, and writes nothing down but what it destroys.
proof fn lemma_cleared_only(
    insts: Seq<PadInst>,
    w: Wiring,
    pairs: Seq<(TermId, TermId)>,
    count: spec_fn(Seq<char>) -> u32,
)
    requires
        shaped(insts, w.nets),
    ensures
        ({
            let after = w.all_cleared(pairs, count);
            &&& shaped(insts, after.nets)
            &&& after.connect == w.connect && after.special == w.special && after.create
                == w.create && after.clash == w.clash
            &&& forall|t: TermId|
                is_term(insts, t) ==> #[trigger] net_of(after.nets, t) is None || net_of(
                    after.nets,
                    t,
                ) == net_of(w.nets, t)
        }),
    decreases pairs.len(),
{
    if pairs.len() > 0 {
        let (a, b) = pairs.last();
        let before = w.all_cleared(pairs.drop_last(), count);
        lemma_cleared_only(insts, w, pairs.drop_last(), count);
        lemma_cleared_one(insts, before, a, count);
        lemma_cleared_one(insts, before.cleared(a, count), b, count);
        let after = w.all_cleared(pairs, count);
        assert forall|t: TermId| is_term(insts, t) implies #[trigger] net_of(after.nets, t) is None
            || net_of(after.nets, t) == net_of(w.nets, t) by {
            assert(net_of(before.cleared(a, count).nets, t) is None || net_of(
                before.cleared(a, count).nets,
                t,
            ) == net_of(before.nets, t));
        }
    }
}

proof fn lemma_cleared_one(
    insts: Seq<PadInst>,
    w: Wiring,
    a: TermId,
    count: spec_fn(Seq<char>) -> u32,
)
    requires
        shaped(insts, w.nets),
    ensures
        ({
            let after = w.cleared(a, count);
            &&& shaped(insts, after.nets)
            &&& after.connect == w.connect && after.special == w.special && after.create
                == w.create && after.clash == w.clash
            &&& forall|t: TermId|
                is_term(insts, t) ==> #[trigger] net_of(after.nets, t) is None || net_of(
                    after.nets,
                    t,
                ) == net_of(w.nets, t)
        }),
{
}

/// A net of a single terminal that touches another is destroyed, and no other is.
pub proof fn law_single_nets_are_destroyed(
    insts: Seq<PadInst>,
    w: Wiring,
    pairs: Seq<(TermId, TermId)>,
    count: spec_fn(Seq<char>) -> u32,
    k: int,
)
    requires
        shaped(insts, w.nets),
        valid_pairs(insts, pairs),
        w.destroy.len() == 0,
    ensures
        ({
            let after = w.all_cleared(pairs, count);
            &&& forall|i: int|
                0 <= i < after.destroy.len() ==> count(#[trigger] after.destroy[i]) == 1
            &&& 0 <= k < pairs.len() ==> {
                let (a, b) = pairs[k];
                &&& net_of(after.nets, a) matches Some(net) ==> count(net) != 1
                &&& net_of(after.nets, b) matches Some(net) ==> count(net) != 1
            }
        }),
    decreases pairs.len(),
{
    if pairs.len() > 0 {
        let head = pairs.drop_last();
        assert(valid_pairs(insts, head)) by {
            assert forall|k: int| #![trigger head[k]] 0 <= k < head.len() implies is_term(
                insts,
                head[k].0,
            ) && is_term(insts, head[k].1) && head[k].0.0 < head[k].1.0 by {
                assert(pairs[k] == head[k]);
            }
        }
        law_single_nets_are_destroyed(insts, w, head, count, k);
        lemma_cleared_only(insts, w, head, count);
        assert(pairs[pairs.len() - 1] == pairs.last());
        let before = w.all_cleared(head, count);
        let (a, b) = pairs.last();
        let one = before.cleared(a, count);
        let after = one.cleared(b, count);
        assert forall|i: int| 0 <= i < after.destroy.len() implies count(
            #[trigger] after.destroy[i],
        ) == 1 by {
            if i < before.destroy.len() {
                assert(after.destroy[i] == before.destroy[i]);
            }
        }
        if 0 <= k < head.len() {
            assert(head[k] == pairs[k]);
            assert(is_term(insts, pairs[k].0) && is_term(insts, pairs[k].1));
        }
    }
}

/// The last supply terminal gives a special net its type; without one it keeps the type it had.
pub proof fn law_last_supply_decides(current: Seq<char>, types: Seq<(bool, String)>, i: int)
    requires
        0 <= i < types.len(),
    ensures
        types[i].0 && (forall|j: int| i < j < types.len() ==> !(#[trigger] types[j]).0) ==> sig_type(
            current,
            types,
        ) == types[i].1@,
        (forall|j: int| 0 <= j < types.len() ==> !(#[trigger] types[j]).0) ==> sig_type(
            current,
            types,
        ) == current,
    decreases types.len(),
{
    let head = types.drop_last();
    assert(types[types.len() - 1] == types.last());
    if i < head.len() {
        assert(head[i] == types[i]);
        if forall|j: int| i < j < types.len() ==> !(#[trigger] types[j]).0 {
            assert forall|j: int| i < j < head.len() implies !(#[trigger] head[j]).0 by {
                assert(types[j] == head[j]);
            }
        }
        if forall|j: int| 0 <= j < types.len() ==> !(#[trigger] types[j]).0 {
            assert forall|j: int| 0 <= j < head.len() implies !(#[trigger] head[j]).0 by {
                assert(types[j] == head[j]);
            }
        }
        law_last_supply_decides(current, head, i);
    } else if head.len() > 0 {
        if forall|j: int| 0 <= j < types.len() ==> !(#[trigger] types[j]).0 {
            assert forall|j: int| 0 <= j < head.len() implies !(#[trigger] head[j]).0 by {
                assert(types[j] == head[j]);
            }
        }
        law_last_supply_decides(current, head, 0);
    } else {
        assert(sig_type(current, head) == current);
    }
}

/// The name is that of the first terminal of a touching pair, after its instance's, as a ring net has it.
pub open spec fn named_after_a_pair(
    insts: Seq<PadInst>,
    pairs: Seq<(TermId, TermId)>,
    name: Seq<char>,
) -> bool {
    exists|k: int|
        0 <= k < pairs.len() && {
            let t = (#[trigger] pairs[k]).0;
            name == insts[t.0 as int].name@ + "."@ + insts[t.0 as int].terms@[t.1 as int].name@
                + "_RING"@
        }
}

/// A clash is between two terminals that touch and are on different nets, and every new net is named
/// after a pair that touches.
pub open spec fn accounted(insts: Seq<PadInst>, pairs: Seq<(TermId, TermId)>, w: Wiring) -> bool {
    &&& w.clash matches Some(c) ==> pairs.contains((c.a, c.b)) && c.net_a != c.net_b && net_of(
        w.nets,
        c.a,
    ) == Some(c.net_a) && net_of(w.nets, c.b) == Some(c.net_b)
    &&& forall|i: int|
        0 <= i < w.create.len() ==> named_after_a_pair(insts, pairs, #[trigger] w.create[i])
}

proof fn lemma_accounted_pass(
    insts: Seq<PadInst>,
    w: Wiring,
    pairs: Seq<(TermId, TermId)>,
    some: Seq<(TermId, TermId)>,
)
    requires
        accounted(insts, pairs, w),
        forall|k: int| 0 <= k < some.len() ==> pairs.contains(#[trigger] some[k]),
    ensures
        accounted(insts, pairs, w.pass(some)),
    decreases some.len(),
{
    if some.len() > 0 {
        let head = some.drop_last();
        assert forall|k: int| 0 <= k < head.len() implies pairs.contains(#[trigger] head[k]) by {
            assert(some[k] == head[k]);
        }
        lemma_accounted_pass(insts, w, pairs, head);
        assert(some[some.len() - 1] == some.last());
    }
}

proof fn lemma_accounted_passes(
    insts: Seq<PadInst>,
    w: Wiring,
    pairs: Seq<(TermId, TermId)>,
    n: nat,
)
    requires
        accounted(insts, pairs, w),
    ensures
        accounted(insts, pairs, w.passes(pairs, n)),
    decreases n,
{
    if n > 0 {
        lemma_accounted_passes(insts, w, pairs, (n - 1) as nat);
        lemma_accounted_pass(insts, w.passes(pairs, (n - 1) as nat), pairs, pairs);
    }
}

proof fn lemma_accounted_made(
    insts: Seq<PadInst>,
    w: Wiring,
    pairs: Seq<(TermId, TermId)>,
    n: int,
)
    requires
        accounted(insts, pairs, w),
        0 <= n <= pairs.len(),
    ensures
        accounted(insts, pairs, w.all_made(insts, pairs, pairs.take(n))),
    decreases n,
{
    let list = pairs.take(n);
    if n > 0 {
        assert(list.drop_last() =~= pairs.take(n - 1));
        lemma_accounted_made(insts, w, pairs, n - 1);
        let before = w.all_made(insts, pairs, list.drop_last());
        let (a, b) = list.last();
        assert(list.last() == pairs[n - 1]);
        if before.clash is None && net_of(before.nets, a) is None {
            let name = ring_net(insts, a);
            let new = Wiring { create: before.create.push(name), ..before };
            let put = new.attached(a, name).attached(b, name);
            assert(named_after_a_pair(insts, pairs, name));
            assert forall|i: int| 0 <= i < put.create.len() implies named_after_a_pair(
                insts,
                pairs,
                #[trigger] put.create[i],
            ) by {
                if i < before.create.len() {
                    assert(put.create[i] == before.create[i]);
                }
            }
            assert(accounted(insts, pairs, put));
            lemma_accounted_passes(
                insts,
                put,
                pairs,
                choose|m: nat| (#[trigger] put.passes(pairs, m)).pass(pairs) == put.passes(pairs, m),
            );
        }
    }
}

/// A clash is real: the two terminals touch and end up on different nets. And a new net takes its name
/// from a pair that touches.
pub proof fn law_clash_is_real(insts: Seq<PadInst>, count: spec_fn(Seq<char>) -> u32)
    ensures
        accounted(insts, touching_pairs(insts), wired(insts, count)),
{
    let pairs = touching_pairs(insts);
    let start = Wiring {
        nets: given_nets(insts),
        destroy: Seq::empty(),
        create: Seq::empty(),
        connect: Seq::empty(),
        special: Seq::empty(),
        clash: None,
    };
    assert(shaped(insts, start.nets));
    lemma_cleared_only(insts, start, pairs, count);
    let clear = start.all_cleared(pairs, count);
    lemma_accounted_passes(
        insts,
        clear,
        pairs,
        choose|m: nat| (#[trigger] clear.passes(pairs, m)).pass(pairs) == clear.passes(pairs, m),
    );
    lemma_accounted_made(insts, clear.merged(pairs), pairs, pairs.len() as int);
    assert(pairs.take(pairs.len() as int) =~= pairs);
}

/// A clash is found: two terminals that touch and are on different nets, each with other terminals
/// besides, cannot be joined.
pub proof fn law_clash_is_found(insts: Seq<PadInst>, count: spec_fn(Seq<char>) -> u32, k: int)
    requires
        insts.len() <= usize::MAX,
        forall|i: int| 0 <= i < insts.len() ==> (#[trigger] insts[i]).terms@.len() <= usize::MAX,
        0 <= k < touching_pairs(insts).len(),
        ({
            let (a, b) = touching_pairs(insts)[k];
            let nets = given_nets(insts);
            &&& net_of(nets, a) is Some && net_of(nets, b) is Some
            &&& net_of(nets, a) != net_of(nets, b)
            &&& count(net_of(nets, a)->0) != 1 && count(net_of(nets, b)->0) != 1
        }),
    ensures
        wired(insts, count).clash is Some,
{
    let (a, b) = touching_pairs(insts)[k];
    let nets = given_nets(insts);
    assert(touching_pairs(insts).contains((a, b)));
    law_what_touches(insts, a, b);
    law_nets_are_kept(insts, count, a, net_of(nets, a)->0);
    law_nets_are_kept(insts, count, b, net_of(nets, b)->0);
    if wired(insts, count).clash is None {
        law_all_joined(insts, count, k);
    }
}

} // verus!
