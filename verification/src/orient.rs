//! Orientations: the eight ways a cell can sit, and how they compose.
//!
//! A pad ring is built by composing orientations: a per-corner orientation on top of a
//! user-supplied rotation, four times, plus a mirrored partner for each edge. Composed backwards,
//! every cell in the ring is wrong in a way that still looks plausible.
//!
//! The eight are the symmetries of a rectangle (the dihedral group of order 8): four rotations and
//! the same four mirrored. Each is a map of the plane, and composing two is composing the maps.

use vstd::prelude::*;

verus! {

/// One of the eight orientations, in the database's spelling.
///
/// The DEF spelling differs: `N S E W` for the rotations and `FN FS FE FW` for the mirrored ones.
/// [`Orient::def`] converts.
#[derive(Debug, Clone, Copy, PartialEq, Eq, Hash, Structural)]
pub enum Orient {
    R0,
    R90,
    R180,
    R270,
    MY,
    MYR90,
    MX,
    MXR90,
}

/// Whether a coordinate pair fits the machine's coordinates.
pub open spec fn fits_point(p: (int, int)) -> bool {
    i32::MIN <= p.0 <= i32::MAX && i32::MIN <= p.1 <= i32::MAX
}

/// The orientation that sends `(1, 2)` to `p`, where there is one.
pub open spec fn sending(p: (int, int)) -> Orient {
    if p == (1int, 2int) {
        Orient::R0
    } else if p == (-2int, 1int) {
        Orient::R90
    } else if p == (-1int, -2int) {
        Orient::R180
    } else if p == (2int, -1int) {
        Orient::R270
    } else if p == (-1int, 2int) {
        Orient::MY
    } else if p == (-2int, -1int) {
        Orient::MYR90
    } else if p == (1int, -2int) {
        Orient::MX
    } else {
        Orient::MXR90
    }
}

/// `o` does what `a` and then `b` do.
pub open spec fn composes(a: Orient, b: Orient, o: Orient) -> bool {
    forall|p: (int, int)| #[trigger] o.image(p) == b.image(a.image(p))
}

impl Orient {
    /// Every orientation, once.
    pub const ALL: [Orient; 8] = [
        Orient::R0,
        Orient::R90,
        Orient::R180,
        Orient::R270,
        Orient::MY,
        Orient::MYR90,
        Orient::MX,
        Orient::MXR90,
    ];

    /// The map of the plane that this orientation is.
    pub open spec fn image(self, p: (int, int)) -> (int, int) {
        match self {
            Orient::R0 => (p.0, p.1),
            Orient::R90 => (-p.1, p.0),
            Orient::R180 => (-p.0, -p.1),
            Orient::R270 => (p.1, -p.0),
            Orient::MY => (-p.0, p.1),
            Orient::MYR90 => (-p.1, -p.0),
            Orient::MX => (p.0, -p.1),
            Orient::MXR90 => (p.1, p.0),
        }
    }

    /// The orientation that does what this one and then `next` do: the one that sends `(1, 2)` where
    /// they do.
    pub open spec fn composed(self, next: Orient) -> Orient {
        sending(next.image(self.image((1, 2))))
    }

    /// The orientation that undoes this one.
    pub open spec fn inverse(self) -> Orient {
        match self {
            Orient::R90 => Orient::R270,
            Orient::R270 => Orient::R90,
            _ => self,
        }
    }

    /// The DEF spelling.
    pub open spec fn def_name(self) -> Seq<char> {
        match self {
            Orient::R0 => "N"@,
            Orient::R90 => "W"@,
            Orient::R180 => "S"@,
            Orient::R270 => "E"@,
            Orient::MY => "FN"@,
            Orient::MYR90 => "FE"@,
            Orient::MX => "FS"@,
            Orient::MXR90 => "FW"@,
        }
    }

    /// The database's spelling.
    pub open spec fn odb_name(self) -> Seq<char> {
        match self {
            Orient::R0 => "R0"@,
            Orient::R90 => "R90"@,
            Orient::R180 => "R180"@,
            Orient::R270 => "R270"@,
            Orient::MY => "MY"@,
            Orient::MYR90 => "MYR90"@,
            Orient::MX => "MX"@,
            Orient::MXR90 => "MXR90"@,
        }
    }

    /// Where this orientation sends the point `(x, y)`.
    ///
    /// The whole algebra is derived from this one table, so composition cannot drift out of step
    /// with the geometry the way two hand-written tables would.
    pub fn apply(self, x: i32, y: i32) -> (p: (i32, i32))
        requires
            fits_point(self.image((x as int, y as int))),
        ensures
            (p.0 as int, p.1 as int) == self.image((x as int, y as int)),
    {
        match self {
            Orient::R0 => (x, y),
            Orient::R90 => (-y, x),
            Orient::R180 => (-x, -y),
            Orient::R270 => (y, -x),
            Orient::MY => (-x, y),
            Orient::MYR90 => (-y, -x),
            Orient::MX => (x, -y),
            Orient::MXR90 => (y, x),
        }
    }

    /// The orientation that maps `(1, 2)` to `p`.
    ///
    /// `(1, 2)` is enough to identify an element: the eight images are distinct, because no two of
    /// the eight symmetries agree on a point with `|x| != |y|` and both non-zero.
    fn from_image(p: (i32, i32)) -> (o: Orient)
        requires
            exists|o: Orient| #[trigger] o.image((1, 2)) == (p.0 as int, p.1 as int),
        ensures
            o.image((1, 2)) == (p.0 as int, p.1 as int),
    {
        let mut i: usize = 0;
        let ghost want = choose|o: Orient| #[trigger]
            o.image((1, 2)) == (p.0 as int, p.1 as int);
        while i < 7
            invariant
                i <= 7,
                want.image((1, 2)) == (p.0 as int, p.1 as int),
                forall|k: int| 0 <= k < i ==> want != #[trigger] Orient::ALL[k],
            decreases 7 - i,
        {
            let o = Orient::ALL[i];
            let (x, y) = o.apply(1, 2);
            if x == p.0 && y == p.1 {
                return o;
            }
            i += 1;
        }
        assert(want == Orient::MXR90) by {
            assert(want != Orient::ALL[0] && want != Orient::ALL[1] && want != Orient::ALL[2]
                && want != Orient::ALL[3] && want != Orient::ALL[4] && want != Orient::ALL[5]
                && want != Orient::ALL[6]);
        }
        Orient::ALL[7]
    }

    /// `a.concat(b)` applies `a` first, then `b`.
    ///
    /// The order matters: the ring builds a transform from the user's rotation and then
    /// concatenates the per-edge orientation, so the user's rotation is the one applied first.
    pub fn concat(self, next: Orient) -> (o: Orient)
        ensures
            o == self.composed(next),
            composes(self, next, o),
    {
        proof {
            law_composition(self, next);
        }
        let (x, y) = self.apply(1, 2);
        let image = next.apply(x, y);
        assert(self.composed(next).image((1, 2)) == (image.0 as int, image.1 as int));
        let o = Orient::from_image(image);
        proof {
            law_distinct(o, self.composed(next));
        }
        o
    }

    /// Mirror about the X axis: negate `y` after this orientation has been applied.
    pub fn flip_x(self) -> (o: Orient)
        ensures
            o == self.composed(Orient::MX),
            forall|p: (int, int)| #[trigger]
                o.image(p) == (self.image(p).0, -self.image(p).1),
    {
        self.concat(Orient::MX)
    }

    /// Mirror about the Y axis: negate `x` after this orientation.
    pub fn flip_y(self) -> (o: Orient)
        ensures
            o == self.composed(Orient::MY),
            forall|p: (int, int)| #[trigger]
                o.image(p) == (-self.image(p).0, self.image(p).1),
    {
        self.concat(Orient::MY)
    }

    /// The DEF spelling.
    pub fn def(self) -> (name: &'static str)
        ensures
            name@ == self.def_name(),
    {
        match self {
            Orient::R0 => "N",
            Orient::R90 => "W",
            Orient::R180 => "S",
            Orient::R270 => "E",
            Orient::MY => "FN",
            Orient::MYR90 => "FE",
            Orient::MX => "FS",
            Orient::MXR90 => "FW",
        }
    }

    /// The database's spelling.
    pub fn name(self) -> (name: &'static str)
        ensures
            name@ == self.odb_name(),
    {
        match self {
            Orient::R0 => "R0",
            Orient::R90 => "R90",
            Orient::R180 => "R180",
            Orient::R270 => "R270",
            Orient::MY => "MY",
            Orient::MYR90 => "MYR90",
            Orient::MX => "MX",
            Orient::MXR90 => "MXR90",
        }
    }

    /// Parse the database's spelling, as a command line gives it.
    pub fn parse(s: &str) -> (o: Option<Orient>)
        ensures
            o matches Some(found) ==> s@ == found.odb_name(),
            o is None ==> forall|other: Orient| s@ != #[trigger] other.odb_name(),
    {
        let mut i: usize = 0;
        while i < 8
            invariant
                i <= 8,
                forall|k: int| 0 <= k < i ==> s@ != (#[trigger] Orient::ALL[k]).odb_name(),
            decreases 8 - i,
        {
            let o = Orient::ALL[i];
            if *s == *o.name() {
                return Some(o);
            }
            i += 1;
        }
        assert forall|other: Orient| s@ != #[trigger] other.odb_name() by {
            law_all(other);
        }
        None
    }
}

/// `ALL` holds every orientation.
pub proof fn law_all(o: Orient)
    ensures
        exists|k: int| 0 <= k < 8 && #[trigger] Orient::ALL[k] == o,
{
    let k: int = match o {
        Orient::R0 => 0,
        Orient::R90 => 1,
        Orient::R180 => 2,
        Orient::R270 => 3,
        Orient::MY => 4,
        Orient::MYR90 => 5,
        Orient::MX => 6,
        Orient::MXR90 => 7,
    };
    assert(Orient::ALL[k] == o);
}

/// Where an orientation sends `(1, 2)` tells which orientation it is.
pub proof fn law_distinct(a: Orient, b: Orient)
    requires
        a.image((1, 2)) == b.image((1, 2)),
    ensures
        a == b,
{
}

/// Composing two orientations is composing their maps: the first argument's is applied first.
pub proof fn law_composition(a: Orient, b: Orient)
    ensures
        composes(a, b, a.composed(b)),
{
}

/// `R0` composes to nothing on either side.
pub proof fn law_identity(o: Orient)
    ensures
        o.composed(Orient::R0) == o,
        Orient::R0.composed(o) == o,
{
    law_composition(o, Orient::R0);
    law_composition(Orient::R0, o);
    law_distinct(o.composed(Orient::R0), o);
    law_distinct(Orient::R0.composed(o), o);
}

/// Composition is associative.
pub proof fn law_associative(a: Orient, b: Orient, c: Orient)
    ensures
        a.composed(b).composed(c) == a.composed(b.composed(c)),
{
    law_composition(a, b);
    law_composition(b, c);
    law_composition(a.composed(b), c);
    law_composition(a, b.composed(c));
    law_distinct(a.composed(b).composed(c), a.composed(b.composed(c)));
}

/// Every orientation is undone by another, on either side.
pub proof fn law_inverse(o: Orient)
    ensures
        o.composed(o.inverse()) == Orient::R0,
        o.inverse().composed(o) == Orient::R0,
{
    law_composition(o, o.inverse());
    law_composition(o.inverse(), o);
    law_distinct(o.composed(o.inverse()), Orient::R0);
    law_distinct(o.inverse().composed(o), Orient::R0);
}

/// Flipping twice about the same axis changes nothing.
pub proof fn law_flip_twice(o: Orient)
    ensures
        o.composed(Orient::MX).composed(Orient::MX) == o,
        o.composed(Orient::MY).composed(Orient::MY) == o,
{
    law_associative(o, Orient::MX, Orient::MX);
    law_associative(o, Orient::MY, Orient::MY);
    law_inverse(Orient::MX);
    law_inverse(Orient::MY);
    law_identity(o);
}

/// No two orientations share a spelling, in either spelling: each is read back as itself.
pub proof fn law_names(a: Orient, b: Orient)
    ensures
        a.odb_name() == b.odb_name() ==> a == b,
        a.def_name() == b.def_name() ==> a == b,
{
    reveal_strlit("R0");
    reveal_strlit("R90");
    reveal_strlit("R180");
    reveal_strlit("R270");
    reveal_strlit("MY");
    reveal_strlit("MYR90");
    reveal_strlit("MX");
    reveal_strlit("MXR90");
    reveal_strlit("N");
    reveal_strlit("W");
    reveal_strlit("S");
    reveal_strlit("E");
    reveal_strlit("FN");
    reveal_strlit("FE");
    reveal_strlit("FS");
    reveal_strlit("FW");
    let x = a.odb_name();
    let y = b.odb_name();
    assert(x == y ==> x.len() == y.len() && x[0] == y[0] && x[1] == y[1] && x[2] == y[2]);
    let u = a.def_name();
    let v = b.def_name();
    assert(u == v ==> u.len() == v.len() && u[0] == v[0] && u[1] == v[1]);
}

/// What the orientations do to the plane. None changes a distance or a right angle. The turns go round to
/// the left, by a quarter for each ninety degrees, and keep left and right; the mirror images exchange
/// them: `MX` keeps the first coordinate, `MY` the second, and each with a quarter turn on top is the
/// other two.
pub proof fn law_turns_and_mirrors(o: Orient, p: (int, int), q: (int, int))
    ensures
        ({
            let (a, b) = (o.image(p), o.image(q));
            let turn = o == Orient::R0 || o == Orient::R90 || o == Orient::R180 || o == Orient::R270;
            &&& a.0 * b.0 + a.1 * b.1 == p.0 * q.0 + p.1 * q.1
            &&& turn ==> a.0 * b.1 - a.1 * b.0 == p.0 * q.1 - p.1 * q.0
            &&& !turn ==> a.0 * b.1 - a.1 * b.0 == -(p.0 * q.1 - p.1 * q.0)
            &&& o == Orient::R0 ==> a == p
            &&& o == Orient::R90 ==> p.0 * a.1 - p.1 * a.0 == p.0 * p.0 + p.1 * p.1
            &&& o == Orient::R180 ==> a.0 + p.0 == 0 && a.1 + p.1 == 0
            &&& o == Orient::R270 ==> p.0 * a.1 - p.1 * a.0 == -(p.0 * p.0 + p.1 * p.1)
            &&& o == Orient::MX ==> a.0 == p.0 && a.1 + p.1 == 0
            &&& o == Orient::MY ==> a.0 + p.0 == 0 && a.1 == p.1
            &&& o == Orient::MXR90 ==> a == Orient::R90.image(Orient::MX.image(p))
            &&& o == Orient::MYR90 ==> a == Orient::R90.image(Orient::MY.image(p))
        }),
{
    let (x, y, u, v) = (p.0, p.1, q.0, q.1);
    assert((-x) * (-u) == x * u && (-y) * (-v) == y * v && x * u == u * x && y * v == v * y)
        by (nonlinear_arith);
    assert((-y) * u == -(y * u) && (-x) * v == -(x * v) && y * (-u) == -(y * u) && x * (-v) == -(x
        * v) && (-x) * (-v) == x * v && (-y) * (-u) == y * u) by (nonlinear_arith);
    assert(x * (-x) == -(x * x) && y * (-y) == -(y * y)) by (nonlinear_arith);
}

} // verus!
