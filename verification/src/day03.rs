//! Crossed wires: turning direction commands into displacement vectors,
//! tracing the grid points each wire covers, and finding the intersection
//! closest to the origin by Manhattan distance.

use vstd::prelude::*;
use vstd::math::abs;

verus! {

/// The decimal value of a run of digit characters, most significant first.
pub open spec fn spec_dec_value(s: Seq<char>) -> int
    decreases s.len(),
{
    if s.len() == 0 {
        0
    } else {
        spec_dec_value(s.drop_last()) * 10 + (s.last() as int - '0' as int)
    }
}

/// Whether every character is a decimal digit.
pub open spec fn spec_all_digits(s: Seq<char>) -> bool {
    forall|i: int| 0 <= i < s.len() ==> '0' <= #[trigger] s[i] <= '9'
}

/// What parsing a signed 32-bit integer from text yields: an optional sign
/// followed by at least one decimal digit and nothing else, with values
/// outside the 32-bit range rejected.
pub open spec fn spec_parse_i32(s: Seq<char>) -> Option<i32> {
    let negative = s.len() > 0 && s[0] == '-';
    let ds = if s.len() > 0 && (s[0] == '-' || s[0] == '+') {
        s.drop_first()
    } else {
        s
    };
    if ds.len() == 0 || !spec_all_digits(ds) {
        None
    } else {
        let v = if negative {
            -spec_dec_value(ds)
        } else {
            spec_dec_value(ds)
        };
        if i32::MIN <= v <= i32::MAX {
            Some(v as i32)
        } else {
            None
        }
    }
}

/// Relies on `str::parse` for `i32`: an optional leading sign, then one or
/// more decimal digits and nothing else; out-of-range values are rejected.
#[verifier::external_body]
fn parse_i32(s: &str) -> (r: Option<i32>)
    ensures
        r == spec_parse_i32(s@),
{
    s.parse::<i32>().ok()
}

/// The index of the last occurrence of `sep`, or a negative value when
/// there is none.
pub open spec fn spec_rfind(s: Seq<char>, sep: char) -> int
    decreases s.len(),
{
    if s.len() == 0 {
        -1
    } else if s.last() == sep {
        s.len() - 1
    } else {
        spec_rfind(s.drop_last(), sep)
    }
}

/// What splitting on a separator yields: the pieces between occurrences,
/// in order, empty pieces kept; a text without the separator is one piece.
pub open spec fn spec_split(s: Seq<char>, sep: char) -> Seq<Seq<char>>
    decreases s.len(),
{
    let i = spec_rfind(s, sep);
    if i < 0 {
        seq![s]
    } else if i < s.len() {
        spec_split(s.take(i), sep).push(s.skip(i + 1))
    } else {
        seq![s]
    }
}

/// Relies on `str::split` with a `char` pattern: the substrings between
/// the occurrences of the separator, in order, with empty pieces kept.
#[verifier::external_body]
pub(crate) fn split_at_char(s: &str, sep: char) -> (r: Vec<String>)
    ensures
        r@.map_values(|p: String| p@) == spec_split(s@, sep),
{
    s.split(sep).map(|x| x.to_string()).collect()
}

/// A direction command.  `from_string` turns the letter-and-amount form
/// into a displacement vector.
pub struct Command;

/// The unit vector of a direction letter.
pub open spec fn spec_unit(c: char) -> Option<(int, int)> {
    if c == 'R' {
        Some((1int, 0int))
    } else if c == 'L' {
        Some((-1int, 0int))
    } else if c == 'U' {
        Some((0int, 1int))
    } else if c == 'D' {
        Some((0int, -1int))
    } else {
        None
    }
}

/// What a command string means: the direction letter scaled by the parsed
/// amount, or nothing when the string is empty or the amount malformed.
pub open spec fn spec_command(s: Seq<char>) -> Option<(int, int)> {
    if s.len() == 0 {
        None
    } else {
        match (spec_unit(s[0]), spec_parse_i32(s.skip(1))) {
            (Some((ux, uy)), Some(a)) => Some((ux * a, uy * a)),
            _ => None,
        }
    }
}

impl Command {
    /// The displacement vector of one command string.  The caller owes a
    /// string whose first character, if any, is a direction letter, and an
    /// amount whose negation still fits when the direction is negative.
    pub fn from_string(value: String) -> (r: Option<(i32, i32)>)
        requires
            value@.len() > 0 ==> spec_unit(value@[0]) is Some,
            spec_command(value@) matches Some(d) ==> (i32::MIN <= d.0 <= i32::MAX && i32::MIN
                <= d.1 <= i32::MAX),
        ensures
            r matches Some(p) ==> spec_command(value@) == Some((p.0 as int, p.1 as int)),
            r is None ==> spec_command(value@) is None,
    {
        let st = value.as_str();
        if st.unicode_len() == 0 {
            return None;
        }
        let direction = st.get_char(0);
        let (ux, uy): (i32, i32) = match direction {
            'R' => (1, 0),
            'L' => (-1, 0),
            'U' => (0, 1),
            'D' => (0, -1),
            _ => {
                return unreached();
            },
        };
        let rest = st.substring_char(1, st.unicode_len());
        let amount = match parse_i32(rest) {
            Some(a) => a,
            None => {
                return None;
            },
        };
        let x = match ux.checked_mul(amount) {
            Some(x) => x,
            None => unreached(),
        };
        let y = match uy.checked_mul(amount) {
            Some(y) => y,
            None => unreached(),
        };
        Some((x, y))
    }

    /// Splits one comma-separated line into its command strings.
    pub fn line_to_command_list(line: String) -> (r: Vec<String>)
        ensures
            r@.map_values(|p: String| p@) == spec_split(line@, ','),
    {
        split_at_char(line.as_str(), ',')
    }
}

/// The grid points walked for the horizontal part of one command, one step
/// at a time from just past `(px, py)`.
pub open spec fn spec_walk_x(px: int, py: int, dx: int) -> Seq<(int, int)>
    decreases abs(dx),
{
    if dx == 0 {
        Seq::empty()
    } else if dx > 0 {
        seq![(px + 1, py)] + spec_walk_x(px + 1, py, dx - 1)
    } else {
        seq![(px - 1, py)] + spec_walk_x(px - 1, py, dx + 1)
    }
}

/// The grid points walked for the vertical part of one command.
pub open spec fn spec_walk_y(px: int, py: int, dy: int) -> Seq<(int, int)>
    decreases abs(dy),
{
    if dy == 0 {
        Seq::empty()
    } else if dy > 0 {
        seq![(px, py + 1)] + spec_walk_y(px, py + 1, dy - 1)
    } else {
        seq![(px, py - 1)] + spec_walk_y(px, py - 1, dy + 1)
    }
}

proof fn lemma_walk_x_len(px: int, py: int, dx: int)
    ensures
        spec_walk_x(px, py, dx).len() == abs(dx),
    decreases abs(dx),
{
    if dx > 0 {
        lemma_walk_x_len(px + 1, py, dx - 1);
    } else if dx < 0 {
        lemma_walk_x_len(px - 1, py, dx + 1);
    }
}

proof fn lemma_walk_y_len(px: int, py: int, dy: int)
    ensures
        spec_walk_y(px, py, dy).len() == abs(dy),
    decreases abs(dy),
{
    if dy > 0 {
        lemma_walk_y_len(px, py + 1, dy - 1);
    } else if dy < 0 {
        lemma_walk_y_len(px, py - 1, dy + 1);
    }
}

/// The end position after following a prefix of the path from the origin.
pub open spec fn spec_pos(path: Seq<(i32, i32)>) -> (int, int)
    decreases path.len(),
{
    if path.len() == 0 {
        (0int, 0int)
    } else {
        let p = spec_pos(path.drop_last());
        (p.0 + path.last().0 as int, p.1 + path.last().1 as int)
    }
}

/// All grid points a path covers, in walking order: for each command the
/// horizontal steps, then the vertical steps taken from the unmoved
/// horizontal position.
pub open spec fn spec_points(path: Seq<(i32, i32)>) -> Seq<(int, int)>
    decreases path.len(),
{
    if path.len() == 0 {
        Seq::empty()
    } else {
        let p = spec_pos(path.drop_last());
        spec_points(path.drop_last()) + spec_walk_x(p.0, p.1, path.last().0 as int)
            + spec_walk_y(p.0, p.1, path.last().1 as int)
    }
}

/// Every position reached along the path stays inside the 32-bit range.
pub open spec fn spec_path_bounded(path: Seq<(i32, i32)>) -> bool {
    forall|k: int|
        0 <= k <= path.len() ==> {
            let p = #[trigger] spec_pos(path.take(k));
            i32::MIN <= p.0 <= i32::MAX && i32::MIN <= p.1 <= i32::MAX
        }
}

/// A wire: the displacement commands of one line of the configuration.
#[derive(PartialEq, Eq, Debug, Clone)]
pub struct Wire {
    pub path: Vec<(i32, i32)>,
}

impl Wire {
    /// A wire over its commands.
    pub fn new(path: Vec<(i32, i32)>) -> (r: Wire)
        ensures
            r.path@ == path@,
    {
        Wire { path }
    }

    /// Every grid point the wire covers, in walking order.  The caller
    /// owes a path whose positions stay inside the 32-bit range.
    pub fn get_points(&self) -> (r: Vec<(i32, i32)>)
        requires
            spec_path_bounded(self.path@),
        ensures
            r@.len() == spec_points(self.path@).len(),
            forall|i: int|
                0 <= i < r@.len() ==> ((#[trigger] r@[i]).0 as int, r@[i].1 as int)
                    == spec_points(self.path@)[i],
    {
        let mut r: Vec<(i32, i32)> = Vec::new();
        let mut px: i32 = 0;
        let mut py: i32 = 0;
        let mut k: usize = 0;
        while k < self.path.len()
            invariant
                k <= self.path@.len(),
                spec_path_bounded(self.path@),
                (px as int, py as int) == spec_pos(self.path@.take(k as int)),
                r@.len() == spec_points(self.path@.take(k as int)).len(),
                forall|i: int|
                    0 <= i < r@.len() ==> ((#[trigger] r@[i]).0 as int, r@[i].1 as int)
                        == spec_points(self.path@.take(k as int))[i],
            decreases self.path@.len() - k,
        {
            let (dx, dy) = self.path[k];
            proof {
                assert(self.path@.take(k + 1).drop_last() == self.path@.take(k as int));
                assert(self.path@.take(k + 1).last() == self.path@[k as int]);
                assert(spec_pos(self.path@.take(k + 1)) == (
                    px as int + dx as int,
                    py as int + dy as int,
                ));
            }
            let ghost target = spec_points(self.path@.take(k + 1));
            let ghost base = spec_points(self.path@.take(k as int));
            let ghost wx = spec_walk_x(px as int, py as int, dx as int);
            let ghost wy = spec_walk_y(px as int, py as int, dy as int);
            proof {
                lemma_walk_x_len(px as int, py as int, dx as int);
                lemma_walk_y_len(px as int, py as int, dy as int);
            }
            // The x steps of this command.
            proof {
                assert(wx.skip(0) =~= wx);
            }
            let mut cx: i32 = px;
            let mut steps: i32 = dx;
            while steps != 0
                invariant
                    base.len() <= r@.len(),
                    r@.len() - base.len() + abs(steps as int) == wx.len(),
                    spec_walk_x(cx as int, py as int, steps as int) == wx.skip(
                        r@.len() - base.len(),
                    ),
                    (steps > 0 ==> px <= cx && cx as int + steps as int == px as int
                        + dx as int),
                    (steps < 0 ==> cx <= px && cx as int + steps as int == px as int
                        + dx as int),
                    (steps == 0 ==> cx as int == px as int + dx as int),
                    i32::MIN <= px as int + dx as int <= i32::MAX,
                    i32::MIN <= px,
                    px <= i32::MAX,
                    forall|i: int|
                        0 <= i < base.len() ==> ((#[trigger] r@[i]).0 as int, r@[i].1 as int)
                            == base[i],
                    forall|i: int|
                        base.len() <= i < r@.len() ==> ((#[trigger] r@[i]).0 as int,
                        r@[i].1 as int) == wx[i - base.len()],
                decreases abs(steps as int),
            {
                let ghost pcx = cx as int;
                let ghost psteps = steps as int;
                let ghost done = r@.len() - base.len();
                if steps > 0 {
                    cx = cx + 1;
                    steps = steps - 1;
                } else {
                    cx = cx - 1;
                    steps = steps + 1;
                }
                r.push((cx, py));
                proof {
                    lemma_walk_x_len(cx as int, py as int, steps as int);
                    assert(spec_walk_x(pcx, py as int, psteps) == seq![(cx as int, py as int)]
                        + spec_walk_x(cx as int, py as int, steps as int));
                    assert(wx.skip(done)[0] == (cx as int, py as int));
                    assert(wx[done] == (cx as int, py as int));
                    let ghost w2 = spec_walk_x(cx as int, py as int, steps as int);
                    assert forall|j: int| 0 <= j < w2.len() implies wx.skip(done + 1)[j]
                        == w2[j] by {
                        assert(w2[j] == wx.skip(done)[j + 1]);
                        assert(wx.skip(done)[j + 1] == wx[done + 1 + j]);
                        assert(wx.skip(done + 1)[j] == wx[done + 1 + j]);
                    }
                    assert(wx.skip(done + 1) =~= w2);
                }
            }
            proof {
                assert(wx.skip(wx.len() as int) =~= Seq::<(int, int)>::empty());
                assert(wy.skip(0) =~= wy);
            }
            // The y steps, taken from the unmoved horizontal position.
            let mut cy: i32 = py;
            let mut stepsy: i32 = dy;
            while stepsy != 0
                invariant
                    base.len() + wx.len() <= r@.len(),
                    r@.len() - base.len() - wx.len() + abs(stepsy as int) == wy.len(),
                    spec_walk_y(px as int, cy as int, stepsy as int) == wy.skip(
                        r@.len() - base.len() - wx.len(),
                    ),
                    (stepsy > 0 ==> py <= cy && cy as int + stepsy as int == py as int
                        + dy as int),
                    (stepsy < 0 ==> cy <= py && cy as int + stepsy as int == py as int
                        + dy as int),
                    (stepsy == 0 ==> cy as int == py as int + dy as int),
                    i32::MIN <= py as int + dy as int <= i32::MAX,
                    i32::MIN <= py,
                    py <= i32::MAX,
                    forall|i: int|
                        0 <= i < base.len() + wx.len() ==> ((#[trigger] r@[i]).0 as int,
                        r@[i].1 as int) == (base + wx)[i],
                    forall|i: int|
                        base.len() + wx.len() <= i < r@.len() ==> ((#[trigger] r@[i]).0 as int,
                        r@[i].1 as int) == wy[i - base.len() - wx.len()],
                decreases abs(stepsy as int),
            {
                let ghost pcy = cy as int;
                let ghost psteps = stepsy as int;
                let ghost done = r@.len() - base.len() - wx.len();
                if stepsy > 0 {
                    cy = cy + 1;
                    stepsy = stepsy - 1;
                } else {
                    cy = cy - 1;
                    stepsy = stepsy + 1;
                }
                r.push((px, cy));
                proof {
                    lemma_walk_y_len(px as int, cy as int, stepsy as int);
                    assert(spec_walk_y(px as int, pcy, psteps) == seq![(px as int, cy as int)]
                        + spec_walk_y(px as int, cy as int, stepsy as int));
                    assert(wy.skip(done)[0] == (px as int, cy as int));
                    assert(wy[done] == (px as int, cy as int));
                    let ghost w2 = spec_walk_y(px as int, cy as int, stepsy as int);
                    assert forall|j: int| 0 <= j < w2.len() implies wy.skip(done + 1)[j]
                        == w2[j] by {
                        assert(w2[j] == wy.skip(done)[j + 1]);
                        assert(wy.skip(done)[j + 1] == wy[done + 1 + j]);
                        assert(wy.skip(done + 1)[j] == wy[done + 1 + j]);
                    }
                    assert(wy.skip(done + 1) =~= w2);
                }
            }
            proof {
                assert(wy.skip(wy.len() as int) =~= Seq::<(int, int)>::empty());
                assert(target == base + wx + wy);
            }
            px = match px.checked_add(dx) {
                Some(x) => x,
                None => unreached(),
            };
            py = match py.checked_add(dy) {
                Some(y) => y,
                None => unreached(),
            };
            k = k + 1;
            proof {
                assert forall|i: int| 0 <= i < r@.len() implies ((#[trigger] r@[i]).0 as int,
                r@[i].1 as int) == spec_points(self.path@.take(k as int))[i] by {
                    if i < base.len() {
                    } else if i < base.len() + wx.len() {
                    } else {
                    }
                }
            }
        }
        proof {
            assert(self.path@.take(self.path@.len() as int) == self.path@);
        }
        r
    }
}

/// The points of `a` that also lie on `b`, in the order they are first
/// reached along `a`, each listed once.
pub open spec fn spec_inter(a: Seq<(int, int)>, b: Seq<(int, int)>) -> Seq<(int, int)>
    decreases a.len(),
{
    if a.len() == 0 {
        Seq::empty()
    } else {
        let pre = spec_inter(a.drop_last(), b);
        if b.contains(a.last()) && !a.drop_last().contains(a.last()) {
            pre.push(a.last())
        } else {
            pre
        }
    }
}

/// The Manhattan distance of a point from the origin.
pub open spec fn spec_mdist(p: (int, int)) -> int {
    abs(p.0) as int + abs(p.1) as int
}

/// The smallest Manhattan distance among the points, taken left to right.
pub open spec fn spec_min_dist(pts: Seq<(int, int)>) -> int
    decreases pts.len(),
{
    if pts.len() <= 1 {
        if pts.len() == 0 {
            0
        } else {
            spec_mdist(pts[0])
        }
    } else {
        let m = spec_min_dist(pts.drop_last());
        if spec_mdist(pts.last()) < m {
            spec_mdist(pts.last())
        } else {
            m
        }
    }
}

fn contains_point(v: &Vec<(i32, i32)>, p: (i32, i32)) -> (r: bool)
    ensures
        r == exists|k: int| 0 <= k < v@.len() && #[trigger] v@[k] == p,
{
    let mut k: usize = 0;
    while k < v.len()
        invariant
            k <= v@.len(),
            forall|k2: int| 0 <= k2 < k ==> #[trigger] v@[k2] != p,
        decreases v@.len() - k,
    {
        let q = v[k];
        if q.0 == p.0 && q.1 == p.1 {
            proof {
                assert(v@[k as int] == p);
            }
            return true;
        }
        k = k + 1;
    }
    false
}

impl Wire {
    /// The points where this wire crosses the other, in the order this
    /// wire first reaches them.
    pub fn intersect(&self, other: &Wire) -> (r: Vec<(i32, i32)>)
        requires
            spec_path_bounded(self.path@),
            spec_path_bounded(other.path@),
        ensures
            ({
                let inter = spec_inter(spec_points(self.path@), spec_points(other.path@));
                &&& r@.len() == inter.len()
                &&& forall|i: int|
                    0 <= i < r@.len() ==> ((#[trigger] r@[i]).0 as int, r@[i].1 as int)
                        == inter[i]
            }),
    {
        let ghost a = spec_points(self.path@);
        let ghost b = spec_points(other.path@);
        let sp = self.get_points();
        let op = other.get_points();
        let mut r: Vec<(i32, i32)> = Vec::new();
        let mut i: usize = 0;
        while i < sp.len()
            invariant
                i <= sp@.len(),
                a == spec_points(self.path@),
                b == spec_points(other.path@),
                sp@.len() == a.len(),
                op@.len() == b.len(),
                forall|k: int|
                    0 <= k < sp@.len() ==> ((#[trigger] sp@[k]).0 as int, sp@[k].1 as int)
                        == a[k],
                forall|k: int|
                    0 <= k < op@.len() ==> ((#[trigger] op@[k]).0 as int, op@[k].1 as int)
                        == b[k],
                r@.len() == spec_inter(a.take(i as int), b).len(),
                forall|k: int|
                    0 <= k < r@.len() ==> ((#[trigger] r@[k]).0 as int, r@[k].1 as int)
                        == spec_inter(a.take(i as int), b)[k],
                forall|k: int|
                    0 <= k < r@.len() ==> a.take(i as int).contains(
                        ((#[trigger] r@[k]).0 as int, r@[k].1 as int),
                    ) && b.contains(((r@[k]).0 as int, r@[k].1 as int)),
                forall|q: (int, int)|
                    (a.take(i as int).contains(q) && b.contains(q)) ==> exists|k: int|
                        0 <= k < r@.len() && ((#[trigger] r@[k]).0 as int, r@[k].1 as int) == q,
            decreases sp@.len() - i,
        {
            let p = sp[i];
            let ghost pq = (p.0 as int, p.1 as int);
            proof {
                assert(a.take(i + 1).drop_last() == a.take(i as int));
                assert(a.take(i + 1).last() == a[i as int]);
                assert(a[i as int] == pq);
            }
            let in_other = contains_point(&op, p);
            proof {
                if in_other {
                    let k = choose|k: int| 0 <= k < op@.len() && #[trigger] op@[k] == p;
                    assert(b[k] == pq);
                    assert(b.contains(pq));
                } else {
                    if b.contains(pq) {
                        let k = choose|k: int| 0 <= k < b.len() && #[trigger] b[k] == pq;
                        assert(op@[k] == p);
                        assert(false);
                    }
                }
            }
            if in_other {
                let seen = contains_point(&r, p);
                proof {
                    if seen {
                        let k = choose|k: int| 0 <= k < r@.len() && #[trigger] r@[k] == p;
                        assert(a.take(i as int).contains(pq));
                    } else {
                        if a.take(i as int).contains(pq) {
                            let k2 = choose|k2: int|
                                0 <= k2 < r@.len() && ((#[trigger] r@[k2]).0 as int,
                                r@[k2].1 as int) == pq;
                            assert(r@[k2] == p);
                            assert(false);
                        }
                    }
                }
                if !seen {
                    let ghost old_r = r@;
                    r.push(p);
                    proof {
                        assert(a.take(i + 1).contains(pq)) by {
                            assert(a.take(i + 1)[i as int] == pq);
                        }
                        assert forall|q: (int, int)|
                            (a.take(i + 1).contains(q) && b.contains(q)) implies exists|k: int|
                            0 <= k < r@.len() && ((#[trigger] r@[k]).0 as int, r@[k].1 as int)
                                == q by {
                            let kq = choose|kq: int|
                                0 <= kq < a.take(i + 1).len() && #[trigger] a.take(i + 1)[kq]
                                    == q;
                            if kq < i {
                                assert(a.take(i as int)[kq] == q);
                                assert(a.take(i as int).contains(q));
                                let k2 = choose|k2: int|
                                    0 <= k2 < old_r.len() && ((#[trigger] old_r[k2]).0 as int,
                                    old_r[k2].1 as int) == q;
                                assert(r@[k2] == old_r[k2]);
                                assert(((r@[k2]).0 as int, r@[k2].1 as int) == q);
                            } else {
                                assert(((r@[r@.len() - 1]).0 as int, r@[r@.len() - 1].1 as int)
                                    == q);
                            }
                        }
                    }
                } else {
                    proof {
                        lemma_take_contains_step(a, i as int, b);
                    }
                }
            } else {
                proof {
                    lemma_take_contains_step(a, i as int, b);
                }
            }
            i = i + 1;
        }
        proof {
            assert(a.take(a.len() as int) == a);
        }
        r
    }

    /// The Manhattan distance of the crossing closest to the origin.  The
    /// caller owes wires that do cross, with distances inside the 32-bit
    /// range.
    pub fn get_min_intersection_manhattan_distance(&self, other: &Wire) -> (r: u32)
        requires
            spec_path_bounded(self.path@),
            spec_path_bounded(other.path@),
            spec_inter(spec_points(self.path@), spec_points(other.path@)).len() > 0,
            forall|i: int|
                0 <= i < spec_inter(spec_points(self.path@), spec_points(other.path@)).len()
                    ==> spec_mdist(
                    #[trigger] spec_inter(spec_points(self.path@), spec_points(other.path@))[i],
                ) <= i32::MAX,
        ensures
            r == spec_min_dist(spec_inter(spec_points(self.path@), spec_points(other.path@))),
    {
        let ghost inter = spec_inter(spec_points(self.path@), spec_points(other.path@));
        let intersections = self.intersect(other);
        let first = intersections[0];
        let mut min: i32 = manhattan(first);
        proof {
            assert(spec_mdist(inter[0]) <= i32::MAX);
            assert(min == spec_min_dist(inter.take(1)));
        }
        let mut i: usize = 1;
        while i < intersections.len()
            invariant
                1 <= i <= intersections@.len(),
                inter == spec_inter(spec_points(self.path@), spec_points(other.path@)),
                intersections@.len() == inter.len(),
                inter.len() > 0,
                forall|k: int|
                    0 <= k < intersections@.len() ==> ((#[trigger] intersections@[k]).0 as int,
                    intersections@[k].1 as int) == inter[k],
                forall|k: int|
                    0 <= k < inter.len() ==> spec_mdist(#[trigger] inter[k]) <= i32::MAX,
                min == spec_min_dist(inter.take(i as int)),
                min >= 0,
            decreases intersections@.len() - i,
        {
            proof {
                assert(inter.take(i + 1).drop_last() == inter.take(i as int));
                assert(inter.take(i + 1).last() == inter[i as int]);
                assert(spec_mdist(inter[i as int]) <= i32::MAX);
            }
            let d = manhattan(intersections[i]);
            if d < min {
                min = d;
            }
            i = i + 1;
        }
        proof {
            assert(inter.take(inter.len() as int) == inter);
        }
        min as u32
    }
}

/// The Manhattan distance of one point, which the caller keeps inside the
/// 32-bit range.
fn manhattan(p: (i32, i32)) -> (r: i32)
    requires
        spec_mdist((p.0 as int, p.1 as int)) <= i32::MAX,
    ensures
        r == spec_mdist((p.0 as int, p.1 as int)),
        r >= 0,
{
    let ax: i32 = if p.0 < 0 {
        -p.0
    } else {
        p.0
    };
    let ay: i32 = if p.1 < 0 {
        -p.1
    } else {
        p.1
    };
    ax + ay
}

/// Taking one more point of `a` keeps the crossings found so far complete
/// when that point adds nothing new.
proof fn lemma_take_contains_step(a: Seq<(int, int)>, i: int, b: Seq<(int, int)>)
    requires
        0 <= i < a.len(),
    ensures
        forall|q: (int, int)|
            a.take(i + 1).contains(q) ==> a.take(i).contains(q) || q == a[i],
{
    assert forall|q: (int, int)| a.take(i + 1).contains(q) implies a.take(i).contains(q) || q
        == a[i] by {
        let kq = choose|kq: int| 0 <= kq < a.take(i + 1).len() && #[trigger] a.take(i + 1)[kq]
            == q;
        if kq < i {
            assert(a.take(i)[kq] == q);
            assert(a.take(i).contains(q));
        }
    }
}

/// The closest-crossing distance of the last two wires read, the last line
/// first.
pub fn part_1(wires: Vec<Wire>) -> (r: u32)
    requires
        wires@.len() >= 2,
        spec_path_bounded(wires@.last().path@),
        spec_path_bounded(wires@[wires@.len() - 2].path@),
        spec_inter(
            spec_points(wires@.last().path@),
            spec_points(wires@[wires@.len() - 2].path@),
        ).len() > 0,
        forall|i: int|
            0 <= i < spec_inter(
                spec_points(wires@.last().path@),
                spec_points(wires@[wires@.len() - 2].path@),
            ).len() ==> spec_mdist(
                #[trigger] spec_inter(
                    spec_points(wires@.last().path@),
                    spec_points(wires@[wires@.len() - 2].path@),
                )[i],
            ) <= i32::MAX,
    ensures
        r == spec_min_dist(
            spec_inter(
                spec_points(wires@.last().path@),
                spec_points(wires@[wires@.len() - 2].path@),
            ),
        ),
{
    let mut wires = wires;
    let wire1 = match wires.pop() {
        Some(w) => w,
        None => unreached(),
    };
    let wire2 = match wires.pop() {
        Some(w) => w,
        None => unreached(),
    };
    wire1.get_min_intersection_manhattan_distance(&wire2)
}

} // verus!
