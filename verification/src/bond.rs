//! Bond pads: the cell that sits on top of a pad and gives the package something to attach to.
//!
//! One bond pad per pad, at a fixed offset, on the pad's own orientation. Where the pad's terminal
//! carries a net, the bond pad joins it and the net gains a block terminal shape on the bond layer:
//! that shape is the design's connection to the outside world.

use crate::bump::is_bump_class;
use crate::geom::{fits_i32, max, min, rt, Rect};
use crate::lists::those;
use crate::orient::Orient;
use crate::text::{chars_of, concat, trimmed, trims_to};
use vstd::prelude::*;

verus! {

/// The default instance name prefix.
pub const DEFAULT_PREFIX: &'static str = "IO_BOND_";

/// Where a bond pad goes, and what it is called.
#[derive(Debug, PartialEq, Eq)]
pub struct Bond {
    pub name: String,
    pub master: String,
    /// The transform origin, not the bounding box's lower-left. The two differ for every orientation
    /// but `R0`, and a bond pad is routinely rotated.
    pub origin: (i32, i32),
    pub orient: Orient,
}

impl Clone for Bond {
    fn clone(&self) -> (copy: Bond)
        ensures
            copy == *self,
    {
        Bond {
            name: self.name.clone(),
            master: self.master.clone(),
            origin: self.origin,
            orient: self.orient,
        }
    }
}

/// Is this master a bond pad?
///
/// Exact, where the bump test is a prefix test: `CLASS COVER` is reported as `COVER` and
/// `CLASS COVER BUMP` as `COVER BUMP`; a bond pad must be the former and must not match the latter.
pub fn is_bond_master(class: &str) -> (b: bool)
    ensures
        b == (trimmed(class@) == "COVER"@),
{
    trims_to(class, "COVER")
}

/// No master is both a bond pad and a bump.
pub proof fn law_bond_is_no_bump(class: Seq<char>)
    ensures
        !(trimmed(class) == "COVER"@ && is_bump_class(class)),
{
    reveal_strlit("COVER");
    reveal_strlit("COVER BUMP");
    reveal_strlit("COVER_BUMP");
    assert("COVER"@.len() == 5 && "COVER BUMP"@.len() == 10 && "COVER_BUMP"@.len() == 10);
}

/// Which of the shapes is the bond shape: the first on the highest routing layer, shapes with no
/// routing level aside.
pub open spec fn bond_index(pins: Seq<(String, i32, Rect)>) -> Option<int>
    decreases pins.len(),
{
    if pins.len() == 0 {
        None
    } else {
        let best = bond_index(pins.drop_last());
        let level = pins.last().1;
        if level != 0 && (best matches Some(k) ==> pins[k].1 < level) {
            Some(pins.len() - 1)
        } else {
            best
        }
    }
}

/// The bond shape is on a routing layer, no shape is on a higher one, and none before it is on one
/// as high.
pub proof fn law_bond_index(pins: Seq<(String, i32, Rect)>, i: int)
    requires
        0 <= i < pins.len(),
        pins[i].1 != 0,
    ensures
        ({
            &&& bond_index(pins) is Some
            &&& bond_index(pins) matches Some(k) ==> {
                &&& 0 <= k < pins.len()
                &&& pins[k].1 != 0
                &&& pins[i].1 <= pins[k].1
                &&& i < k ==> pins[i].1 < pins[k].1
            }
        }),
    decreases pins.len(),
{
    let head = pins.drop_last();
    lemma_bond_index(pins);
    lemma_bond_index(head);
    if i < pins.len() - 1 {
        assert(head[i] == pins[i]);
        law_bond_index(head, i);
    }
}

proof fn lemma_bond_index(pins: Seq<(String, i32, Rect)>)
    ensures
        bond_index(pins) matches Some(k) ==> 0 <= k < pins.len() && pins[k].1 != 0,
    decreases pins.len(),
{
    if pins.len() > 0 {
        lemma_bond_index(pins.drop_last());
    }
}

/// The bond layer and the shape on it.
///
/// The pin shape on the highest routing layer the master declares: that is the face the package
/// meets. Shapes with no routing level are skipped: they are not routable metal. Ties keep the first
/// shape seen.
pub fn bond_shape(pins: &[(String, i32, Rect)]) -> (r: Option<(String, Rect)>)
    ensures
        r is None <==> bond_index(pins@) is None,
        r matches Some(s) ==> (bond_index(pins@) matches Some(k) && s.0@ == pins@[k].0@ && s.1
            == pins@[k].2),
{
    let mut best: Option<usize> = None;
    let mut i: usize = 0;
    assert(pins@.take(0) =~= Seq::<(String, i32, Rect)>::empty());
    while i < pins.len()
        invariant
            i <= pins.len(),
            match best {
                Some(k) => k < i && bond_index(pins@.take(i as int)) == Some(k as int),
                None => bond_index(pins@.take(i as int)) is None,
            },
        decreases pins.len() - i,
    {
        assert(pins@.take(i + 1).drop_last() =~= pins@.take(i as int));
        let level: i32 = pins[i].1;
        let higher = match best {
            Some(k) => pins[k].1 < level,
            None => true,
        };
        if level != 0 && higher {
            best = Some(i);
        }
        i += 1;
    }
    assert(pins@.take(pins@.len() as int) =~= pins@);
    match best {
        Some(k) => Some((pins[k].0.clone(), pins[k].2)),
        None => None,
    }
}

/// Where an orientation sends a point, with room to spare.
fn turned(orient: Orient, x: i32, y: i32) -> (p: (i64, i64))
    ensures
        (p.0 as int, p.1 as int) == orient.image((x as int, y as int)),
        -0x1_0000_0000 <= p.0 <= 0x1_0000_0000,
        -0x1_0000_0000 <= p.1 <= 0x1_0000_0000,
{
    let (x, y): (i64, i64) = (x as i64, y as i64);
    match orient {
        Orient::R0 => (x, y),
        Orient::R90 => (-y, x),
        Orient::R180 => (-x, -y),
        Orient::R270 => (y, -x),
        Orient::MY => (-x, y),
        Orient::MYR90 => (-y, -x),
        Orient::MX => (x, -y),
        Orient::MXR90 => (y, x),
    }
}

/// Where a bond pad's origin lies: the offset turns with the pad.
pub open spec fn bond_origin(pad: (i32, i32), orient: Orient, offset: (i32, i32)) -> (int, int) {
    let d = orient.image((offset.0 as int, offset.1 as int));
    (pad.0 + d.0, pad.1 + d.1)
}

/// Where one bond pad goes.
///
/// The offset is given in the pad's frame, so it turns with the pad: a pad rotated a quarter turn
/// carries its bond pad round with it rather than leaving it beside where the pad used to be. The
/// bond pad's own orientation is the pad's, with the requested rotation applied on top.
pub fn place(
    pad_name: &str,
    pad_origin: (i32, i32),
    pad_orient: Orient,
    master: &str,
    offset: (i32, i32),
    rotation: Orient,
    prefix: &str,
) -> (b: Bond)
    requires
        fits_i32(bond_origin(pad_origin, pad_orient, offset).0),
        fits_i32(bond_origin(pad_origin, pad_orient, offset).1),
    ensures
        b.name@ == prefix@ + pad_name@,
        b.master@ == master@,
        (b.origin.0 as int, b.origin.1 as int) == bond_origin(pad_origin, pad_orient, offset),
        b.orient == pad_orient.composed(rotation),
{
    let (dx, dy) = turned(pad_orient, offset.0, offset.1);
    Bond {
        name: concat(prefix, pad_name),
        master: master.to_owned(),
        origin: ((pad_origin.0 as i64 + dx) as i32, (pad_origin.1 as i64 + dy) as i32),
        orient: pad_orient.concat(rotation),
    }
}

/// A rectangle turned about the origin and moved.
pub open spec fn pin_box(r: Rect, orient: Orient, origin: (i32, i32)) -> (int, int, int, int) {
    let a = orient.image((r.0 as int, r.1 as int));
    let b = orient.image((r.2 as int, r.3 as int));
    (
        min(a.0, b.0) + origin.0,
        min(a.1, b.1) + origin.1,
        max(a.0, b.0) + origin.0,
        max(a.1, b.1) + origin.1,
    )
}

/// The bond shape where the placed bond pad puts it.
///
/// The master rectangle turned by the instance's orientation and moved to its origin. Rotated about
/// the master's `(0, 0)`, not normalised against the master's size: a bond pad's pin rectangle is
/// centred on the origin and runs negative, so size-normalising it would move it.
pub fn pin_shape(rect: Rect, orient: Orient, origin: (i32, i32)) -> (r: Rect)
    requires
        fits_i32(pin_box(rect, orient, origin).0) && fits_i32(pin_box(rect, orient, origin).1),
        fits_i32(pin_box(rect, orient, origin).2) && fits_i32(pin_box(rect, orient, origin).3),
    ensures
        rt(r) == pin_box(rect, orient, origin),
{
    let (ax, ay) = turned(orient, rect.0, rect.1);
    let (bx, by) = turned(orient, rect.2, rect.3);
    let (x, y): (i64, i64) = (origin.0 as i64, origin.1 as i64);
    let (left, right): (i64, i64) = if ax < bx { (ax, bx) } else { (bx, ax) };
    let (low, high): (i64, i64) = if ay < by { (ay, by) } else { (by, ay) };
    ((left + x) as i32, (low + y) as i32, (right + x) as i32, (high + y) as i32)
}

/// A pattern matches a name: `*` stands for any characters, `?` for any one, and every other
/// character for itself.
pub open spec fn matches_glob(p: Seq<char>, n: Seq<char>) -> bool
    decreases p.len(), n.len(),
{
    if p.len() == 0 {
        n.len() == 0
    } else if p[0] == '*' {
        matches_glob(p.drop_first(), n) || (n.len() > 0 && matches_glob(p, n.drop_first()))
    } else {
        n.len() > 0 && (p[0] == '?' || p[0] == n[0]) && matches_glob(
            p.drop_first(),
            n.drop_first(),
        )
    }
}

/// A name matches itself, brackets and all.
pub proof fn law_name_matches_itself(n: Seq<char>)
    ensures
        matches_glob(n, n),
    decreases n.len(),
{
    if n.len() > 0 {
        law_name_matches_itself(n.drop_first());
        if n[0] == '*' {
            lemma_star(n.drop_first(), n.drop_first());
            assert(matches_glob(n, n.drop_first()));
        }
    }
}

/// A star in front may stand for nothing.
proof fn lemma_star(p: Seq<char>, n: Seq<char>)
    requires
        matches_glob(p, n),
    ensures
        matches_glob(seq!['*'] + p, n),
{
    let q = seq!['*'] + p;
    assert(q.drop_first() =~= p);
}

/// Does the pattern match the name?
fn glob(pattern: &str, name: &str) -> (yes: bool)
    ensures
        yes == matches_glob(pattern@, name@),
{
    let p = chars_of(pattern);
    let n = chars_of(name);
    // `row[j]` says whether the pattern from `i` on matches the name from `j` on.
    let mut row: Vec<bool> = Vec::new();
    let mut j: usize = 0;
    assert(p@.skip(p@.len() as int) =~= Seq::<char>::empty());
    while j < n.len()
        invariant
            j <= n.len(),
            row.len() == j,
            p@.skip(p@.len() as int) == Seq::<char>::empty(),
            forall|k: int|
                0 <= k < j ==> #[trigger] row@[k] == matches_glob(
                    p@.skip(p@.len() as int),
                    n@.skip(k),
                ),
        decreases n.len() - j,
    {
        row.push(false);
        j += 1;
    }
    row.push(true);
    let mut i: usize = p.len();
    while i > 0
        invariant
            i <= p.len(),
            row.len() == n.len() + 1,
            forall|k: int|
                0 <= k < row.len() ==> #[trigger] row@[k] == matches_glob(
                    p@.skip(i as int),
                    n@.skip(k),
                ),
        decreases i,
    {
        let c = p[i - 1];
        let ghost part = p@.skip(i - 1);
        assert(part.drop_first() =~= p@.skip(i as int));
        assert(part[0] == c);
        let mut next: Vec<bool> = Vec::new();
        let mut m: usize = 0;
        while m < row.len()
            invariant
                m <= row.len(),
                next.len() == m,
                forall|k: int| 0 <= k < m ==> #[trigger] next@[k] == false,
            decreases row.len() - m,
        {
            next.push(false);
            m += 1;
        }
        let mut j: usize = n.len() + 1;
        while j > 0
            invariant
                0 < i <= p.len(),
                j <= n.len() + 1,
                row.len() == n.len() + 1,
                next.len() == n.len() + 1,
                part == p@.skip(i - 1),
                part.len() > 0,
                part.drop_first() == p@.skip(i as int),
                part[0] == c,
                forall|k: int|
                    0 <= k < row.len() ==> #[trigger] row@[k] == matches_glob(
                        p@.skip(i as int),
                        n@.skip(k),
                    ),
                forall|k: int|
                    j <= k < next.len() ==> #[trigger] next@[k] == matches_glob(part, n@.skip(k)),
            decreases j,
        {
            let at: usize = j - 1;
            let ghost name_part = n@.skip(at as int);
            let last = at == n.len();
            if !last {
                assert(name_part.drop_first() =~= n@.skip(at + 1));
                assert(name_part[0] == n@[at as int]);
            }
            let yes = if c == '*' {
                row[at] || (!last && next[at + 1])
            } else {
                !last && (c == '?' || c == n[at]) && row[at + 1]
            };
            next.set(at, yes);
            j -= 1;
        }
        row = next;
        i -= 1;
    }
    assert(p@.skip(0) =~= p@);
    assert(n@.skip(0) =~= n@);
    row[0]
}

/// One of the patterns matches the name.
pub open spec fn any_matches(patterns: Seq<String>, name: Seq<char>) -> bool {
    exists|i: int| 0 <= i < patterns.len() && matches_glob((#[trigger] patterns[i])@, name)
}

fn matched(patterns: &[String], name: &String) -> (yes: bool)
    ensures
        yes == any_matches(patterns@, name@),
{
    let mut i: usize = 0;
    while i < patterns.len()
        invariant
            i <= patterns.len(),
            forall|k: int| 0 <= k < i ==> !matches_glob((#[trigger] patterns@[k])@, name@),
        decreases patterns.len() - i,
    {
        if glob(patterns[i].as_str(), name.as_str()) {
            return true;
        }
        i += 1;
    }
    false
}

/// Match a list of instance names against the patterns the caller gave.
///
/// `*` and `?` only. Character classes are deliberately not supported: a pattern like `req_msg[0]`
/// is an ordinary instance name in this domain, and reading `[0]` as a class makes it match
/// `req_msg0` and not itself, silently selecting the wrong cells.
pub fn matching<'a>(names: &'a [String], patterns: &[String]) -> (out: Vec<&'a String>)
    ensures
        ({
            let chosen = those(
                names@.len(),
                |i: usize| any_matches(patterns@, names@[i as int]@),
            );
            &&& out.len() == chosen.len()
            &&& forall|k: int|
                0 <= k < out.len() ==> *(#[trigger] out@[k]) == names@[chosen[k] as int]
        }),
{
    let ghost cond = |i: usize| any_matches(patterns@, names@[i as int]@);
    let mut out: Vec<&'a String> = Vec::new();
    let mut i: usize = 0;
    while i < names.len()
        invariant
            i <= names.len(),
            cond == (|i: usize| any_matches(patterns@, names@[i as int]@)),
            out.len() == those(i as nat, cond).len(),
            forall|k: int|
                0 <= k < out.len() ==> *(#[trigger] out@[k]) == names@[those(
                    i as nat,
                    cond,
                )[k] as int],
        decreases names.len() - i,
    {
        if matched(patterns, &names[i]) {
            out.push(&names[i]);
        }
        i += 1;
    }
    out
}

/// The bond pad keeps its distance: turned back by the pad's orientation, the way from the pad to it is
/// the offset that was asked for.
pub proof fn law_bond_turns_with_its_pad(pad: (i32, i32), orient: Orient, offset: (i32, i32), back: Orient)
    requires
        back.composed(orient) == Orient::R0 || orient.composed(back) == Orient::R0,
    ensures
        ({
            let at = bond_origin(pad, orient, offset);
            back.image((at.0 - pad.0, at.1 - pad.1)) == (offset.0 as int, offset.1 as int)
        }),
{
}

/// The box holds the point, its sides included.
pub open spec fn within(r: (int, int, int, int), p: (int, int)) -> bool {
    r.0 <= p.0 <= r.2 && r.1 <= p.1 <= r.3
}

/// A placed shape is the shape turned and moved: a point lies in the one exactly where it lies, turned
/// and moved, in the other.
pub proof fn law_pin_shape_is_the_shape_moved(r: Rect, orient: Orient, origin: (i32, i32), p: (int, int))
    requires
        r.0 <= r.2,
        r.1 <= r.3,
    ensures
        ({
            let q = orient.image(p);
            within(rt(r), p) <==> within(
                pin_box(r, orient, origin),
                (q.0 + origin.0, q.1 + origin.1),
            )
        }),
{
}

/// A pattern that is one after another matches a name that is one after another: what the first matches,
/// and what the second does.
pub proof fn law_patterns_join(p: Seq<char>, q: Seq<char>, n: Seq<char>)
    ensures
        matches_glob(p + q, n) <==> exists|k: int|
            0 <= k <= n.len() && #[trigger] matches_glob(p, n.take(k)) && matches_glob(q, n.skip(k)),
{
    if matches_glob(p + q, n) {
        let k = lemma_parted(p, q, n);
        assert(matches_glob(p, n.take(k)));
    }
    if exists|k: int|
        0 <= k <= n.len() && #[trigger] matches_glob(p, n.take(k)) && matches_glob(q, n.skip(k)) {
        let k = choose|k: int|
            0 <= k <= n.len() && #[trigger] matches_glob(p, n.take(k)) && matches_glob(q, n.skip(k));
        lemma_joined(p, q, n, k);
    }
}

proof fn lemma_parted(p: Seq<char>, q: Seq<char>, n: Seq<char>) -> (k: int)
    requires
        matches_glob(p + q, n),
    ensures
        0 <= k <= n.len(),
        matches_glob(p, n.take(k)),
        matches_glob(q, n.skip(k)),
    decreases p.len(), n.len(),
{
    let pq = p + q;
    if p.len() == 0 {
        assert(pq =~= q);
        assert(n.take(0) =~= Seq::<char>::empty());
        assert(n.skip(0) =~= n);
        0
    } else {
        assert(pq.drop_first() =~= p.drop_first() + q);
        if p[0] == '*' && matches_glob(pq.drop_first(), n) {
            lemma_parted(p.drop_first(), q, n)
        } else {
            let rest = n.drop_first();
            let j = if p[0] == '*' {
                lemma_parted(p, q, rest)
            } else {
                lemma_parted(p.drop_first(), q, rest)
            };
            assert(n.take(j + 1).drop_first() =~= rest.take(j));
            assert(n.skip(j + 1) =~= rest.skip(j));
            j + 1
        }
    }
}

proof fn lemma_joined(p: Seq<char>, q: Seq<char>, n: Seq<char>, k: int)
    requires
        0 <= k <= n.len(),
        matches_glob(p, n.take(k)),
        matches_glob(q, n.skip(k)),
    ensures
        matches_glob(p + q, n),
    decreases p.len(), n.len(),
{
    let (pq, m) = (p + q, n.take(k));
    if p.len() == 0 {
        assert(pq =~= q);
        assert(n.skip(0) =~= n);
    } else {
        assert(pq.drop_first() =~= p.drop_first() + q);
        if p[0] == '*' && matches_glob(p.drop_first(), m) {
            lemma_joined(p.drop_first(), q, n, k);
        } else {
            let rest = n.drop_first();
            assert(m.drop_first() =~= rest.take(k - 1));
            assert(n.skip(k) =~= rest.skip(k - 1));
            if p[0] == '*' {
                lemma_joined(p, q, rest, k - 1);
            } else {
                lemma_joined(p.drop_first(), q, rest, k - 1);
            }
        }
    }
}

/// What one character of a pattern matches: a star anything, a question mark any one character, and
/// any other character itself alone. No character matches nothing else than no character.
pub proof fn law_one_character(c: char, n: Seq<char>)
    ensures
        c == '*' ==> matches_glob(seq![c], n),
        c == '?' ==> (matches_glob(seq![c], n) <==> n.len() == 1),
        c != '*' && c != '?' ==> (matches_glob(seq![c], n) <==> n == seq![c]),
        matches_glob(Seq::<char>::empty(), n) <==> n.len() == 0,
    decreases n.len(),
{
    let p = seq![c];
    assert(p.drop_first() =~= Seq::<char>::empty());
    assert(matches_glob(p.drop_first(), n) == (n.len() == 0));
    if n.len() > 0 {
        law_one_character(c, n.drop_first());
        if n.len() == 1 {
            assert(n =~= seq![n[0]]);
            assert(n.drop_first().len() == 0);
        }
    }
}

} // verus!
