use vstd::prelude::*;
use std::collections::HashSet;
use crate::parse::{Instruction, InstructionDirection, Instructions};

verus! {

/// The way the walker faces.
#[derive(Clone, Copy, Debug, PartialEq, Eq, Structural)]
pub enum Heading {
    North,
    East,
    South,
    West,
}

/// One unit step along the x axis when facing `h`.
pub open spec fn step_x(h: Heading) -> int {
    match h {
        Heading::East => 1,
        Heading::West => -1,
        _ => 0,
    }
}

/// One unit step along the y axis when facing `h`.
pub open spec fn step_y(h: Heading) -> int {
    match h {
        Heading::North => 1,
        Heading::South => -1,
        _ => 0,
    }
}

impl Heading {
    /// The unit vector of this heading.
    pub fn unit(self) -> (r: (i64, i64))
        ensures
            r.0 == step_x(self),
            r.1 == step_y(self),
    {
        match self {
            Heading::North => (0, 1),
            Heading::East => (1, 0),
            Heading::South => (0, -1),
            Heading::West => (-1, 0),
        }
    }
}


/// The heading after turning `t` from `h`: a quarter turn.
pub open spec fn turned(h: Heading, t: InstructionDirection) -> Heading {
    match (h, t) {
        (Heading::North, InstructionDirection::Left) => Heading::West,
        (Heading::North, InstructionDirection::Right) => Heading::East,
        (Heading::East, InstructionDirection::Left) => Heading::North,
        (Heading::East, InstructionDirection::Right) => Heading::South,
        (Heading::South, InstructionDirection::Left) => Heading::East,
        (Heading::South, InstructionDirection::Right) => Heading::West,
        (Heading::West, InstructionDirection::Left) => Heading::South,
        (Heading::West, InstructionDirection::Right) => Heading::North,
    }
}

impl Heading {
    /// The heading after turning `t`.
    pub fn turn(self, t: InstructionDirection) -> (r: Heading)
        ensures
            r == turned(self, t),
    {
        match (self, t) {
            (Heading::North, InstructionDirection::Left) => Heading::West,
            (Heading::North, InstructionDirection::Right) => Heading::East,
            (Heading::East, InstructionDirection::Left) => Heading::North,
            (Heading::East, InstructionDirection::Right) => Heading::South,
            (Heading::South, InstructionDirection::Left) => Heading::East,
            (Heading::South, InstructionDirection::Right) => Heading::West,
            (Heading::West, InstructionDirection::Left) => Heading::South,
            (Heading::West, InstructionDirection::Right) => Heading::North,
        }
    }
}

/// A lattice point.
#[derive(Clone, Copy, Debug, PartialEq, Eq, Structural)]
pub struct Position {
    pub x: i64,
    pub y: i64,
}

impl View for Position {
    type V = (int, int);

    open spec fn view(&self) -> (int, int) {
        (self.x as int, self.y as int)
    }
}

pub open spec fn abs(a: int) -> int {
    if a < 0 { -a } else { a }
}

/// Manhattan distance from the origin.
pub open spec fn manhattan(p: (int, int)) -> int {
    abs(p.0) + abs(p.1)
}

/// The point seen through an optional position.
pub open spec fn point_of(o: Option<Position>) -> Option<(int, int)> {
    match o {
        Some(p) => Some(p@),
        None => None,
    }
}

/// The sum of all distances.
pub open spec fn total_distance(instrs: Seq<Instruction>) -> nat
    decreases instrs.len(),
{
    if instrs.len() == 0 {
        0
    } else {
        total_distance(instrs.drop_last()) + instrs.last().distance as nat
    }
}

/// Heading and position after following `instrs` from the origin, facing north.
pub open spec fn end_state(instrs: Seq<Instruction>) -> (Heading, int, int)
    decreases instrs.len(),
{
    if instrs.len() == 0 {
        (Heading::North, 0, 0)
    } else {
        let (h, x, y) = end_state(instrs.drop_last());
        let i = instrs.last();
        let nh = turned(h, i.direction);
        (nh, x + i.distance * step_x(nh), y + i.distance * step_y(nh))
    }
}

/// Where following `instrs` ends.
pub open spec fn end_point(instrs: Seq<Instruction>) -> (int, int) {
    (end_state(instrs).1, end_state(instrs).2)
}

/// The `d` unit-step points from `(x, y)` facing `h`, nearest first.
pub open spec fn leg(x: int, y: int, h: Heading, d: nat) -> Seq<(int, int)> {
    Seq::new(d, |k: int| (x + (k + 1) * step_x(h), y + (k + 1) * step_y(h)))
}

/// Every point the walk stands on, in order: the origin, then each unit step.
pub open spec fn path(instrs: Seq<Instruction>) -> Seq<(int, int)>
    decreases instrs.len(),
{
    if instrs.len() == 0 {
        seq![(0int, 0int)]
    } else {
        let (h, x, y) = end_state(instrs.drop_last());
        let i = instrs.last();
        path(instrs.drop_last()) + leg(x, y, turned(h, i.direction), i.distance as nat)
    }
}

/// The first point of `p` that already occurs earlier in `p`.
pub open spec fn first_repeat(p: Seq<(int, int)>) -> Option<(int, int)>
    decreases p.len(),
{
    if p.len() == 0 {
        None
    } else {
        match first_repeat(p.drop_last()) {
            Some(q) => Some(q),
            None => if p.drop_last().contains(p.last()) {
                Some(p.last())
            } else {
                None
            },
        }
    }
}

/// The set key of a point with 64-bit coordinates: one-to-one on them.
pub open spec fn key_of(x: int, y: int) -> int {
    (x + 0x8000_0000_0000_0000) * 0x1_0000_0000_0000_0000 + (y + 0x8000_0000_0000_0000)
}

proof fn lemma_key_injective(x1: int, y1: int, x2: int, y2: int)
    requires
        i64::MIN <= x1 <= i64::MAX,
        i64::MIN <= y1 <= i64::MAX,
        i64::MIN <= x2 <= i64::MAX,
        i64::MIN <= y2 <= i64::MAX,
        key_of(x1, y1) == key_of(x2, y2),
    ensures
        x1 == x2 && y1 == y2,
{
    let m: int = 0x1_0000_0000_0000_0000;
    let a1 = x1 + 0x8000_0000_0000_0000;
    let a2 = x2 + 0x8000_0000_0000_0000;
    let b1 = y1 + 0x8000_0000_0000_0000;
    let b2 = y2 + 0x8000_0000_0000_0000;
    assert(a1 * m + b1 == a2 * m + b2);
    assert(0 <= b1 < m && 0 <= b2 < m);
    assert(a1 == a2) by (nonlinear_arith)
        requires
            a1 * m + b1 == a2 * m + b2,
            0 <= b1 < m,
            0 <= b2 < m,
            m > 0,
    ;
}

fn key(x: i64, y: i64) -> (r: u128)
    ensures
        r == key_of(x as int, y as int),
{
    let a: u128 = (x as i128 + 0x8000_0000_0000_0000i128) as u128;
    let b: u128 = (y as i128 + 0x8000_0000_0000_0000i128) as u128;
    assert(a * 0x1_0000_0000_0000_0000 + b <= u128::MAX) by (nonlinear_arith)
        requires
            a < 0x1_0000_0000_0000_0000,
            b < 0x1_0000_0000_0000_0000,
    ;
    a * 0x1_0000_0000_0000_0000 + b
}

/// The result of a walk: where it ends, and the first point stood on twice.
#[derive(Clone, Copy, Debug, PartialEq, Eq, Structural)]
pub struct WalkSummary {
    pub end: Position,
    pub first_repeat: Option<Position>,
}

proof fn lemma_total_of_prefix(instrs: Seq<Instruction>, k: int)
    requires
        0 <= k <= instrs.len(),
    ensures
        total_distance(instrs.take(k)) <= total_distance(instrs),
    decreases instrs.len() - k,
{
    if k < instrs.len() {
        assert(instrs.take(k + 1).drop_last() =~= instrs.take(k));
        lemma_total_of_prefix(instrs, k + 1);
    } else {
        assert(instrs.take(k) =~= instrs);
    }
}

/// Whether the lattice point of every seen key is in `trail`, and back.
pub open spec fn keys_match(seen: Set<u128>, trail: Seq<(int, int)>) -> bool {
    forall|x: int, y: int|
        i64::MIN <= x <= i64::MAX && i64::MIN <= y <= i64::MAX ==> (seen.contains(
            #[trigger] key_of(x, y) as u128,
        ) <==> trail.contains((x, y)))
}

proof fn lemma_keys_match_push(seen: Set<u128>, trail: Seq<(int, int)>, x0: int, y0: int)
    requires
        keys_match(seen, trail),
        i64::MIN <= x0 <= i64::MAX,
        i64::MIN <= y0 <= i64::MAX,
    ensures
        keys_match(seen.insert(key_of(x0, y0) as u128), trail.push((x0, y0))),
{
    let t2 = trail.push((x0, y0));
    assert forall|x: int, y: int|
        i64::MIN <= x <= i64::MAX && i64::MIN <= y <= i64::MAX implies (seen.insert(
            key_of(x0, y0) as u128,
        ).contains(#[trigger] key_of(x, y) as u128) <==> t2.contains((x, y))) by {
        assert(0 <= key_of(x, y) <= u128::MAX) by (nonlinear_arith)
            requires
                i64::MIN <= x <= i64::MAX && i64::MIN <= y <= i64::MAX,
        ;
        assert(0 <= key_of(x0, y0) <= u128::MAX) by (nonlinear_arith)
            requires
                i64::MIN <= x0 <= i64::MAX && i64::MIN <= y0 <= i64::MAX,
        ;
        if key_of(x, y) == key_of(x0, y0) {
            lemma_key_injective(x, y, x0, y0);
            assert(t2[trail.len() as int] == (x, y));
        } else {
            if trail.contains((x, y)) {
                let j = choose|j: int| 0 <= j < trail.len() && trail[j] == (x, y);
                assert(t2[j] == (x, y));
            }
            if t2.contains((x, y)) {
                let j = choose|j: int| 0 <= j < t2.len() && t2[j] == (x, y);
                assert(j < trail.len());
                assert(trail[j] == (x, y));
            }
        }
    }
}

/// Follows `instrs` from the origin, facing north, one unit step at a time,
/// and records the first point stood on twice (the origin counts as stood on).
pub fn walk(instrs: &Vec<Instruction>) -> (r: WalkSummary)
    requires
        total_distance(instrs@) <= i64::MAX,
    ensures
        r.end@ == end_point(instrs@),
        point_of(r.first_repeat) == first_repeat(path(instrs@)),
{
    let n = instrs.len();
    let mut h = Heading::North;
    let mut x: i64 = 0;
    let mut y: i64 = 0;
    let mut seen: HashSet<u128> = HashSet::new();
    let mut first: Option<Position> = None;
    proof {
        broadcast use vstd::std_specs::hash::group_hash_axioms;
    }
    let origin = key(0, 0);
    seen.insert(origin);
    proof {
        let p0 = path(instrs@.take(0));
        assert(p0 =~= Seq::<(int, int)>::empty().push((0int, 0int)));
        assert(first_repeat(Seq::<(int, int)>::empty()) is None);
        assert(p0.drop_last() =~= Seq::<(int, int)>::empty());
        lemma_keys_match_push(Set::empty(), Seq::empty(), 0, 0);
        assert(Set::<u128>::empty().insert(origin) =~= seen@);
    }
    let mut k: usize = 0;
    while k < n
        invariant
            n == instrs.len(),
            k <= n,
            total_distance(instrs@) <= i64::MAX,
            end_state(instrs@.take(k as int)) == (h, x as int, y as int),
            abs(x as int) + abs(y as int) <= total_distance(instrs@.take(k as int)),
            point_of(first) == first_repeat(path(instrs@.take(k as int))),
            first is None ==> keys_match(seen@, path(instrs@.take(k as int))),
        decreases n - k,
    {
        broadcast use vstd::std_specs::hash::group_hash_axioms;

        let ins = instrs[k];
        let ghost before = instrs@.take(k as int);
        let ghost after = instrs@.take(k + 1);
        let ghost base = path(before);
        proof {
            assert(after.drop_last() =~= before);
            lemma_total_of_prefix(instrs@, k + 1);
        }
        let nh = h.turn(ins.direction);
        let (dx, dy) = nh.unit();
        let mut px: i64 = x;
        let mut py: i64 = y;
        let mut j: u32 = 0;
        while j < ins.distance
            invariant
                j <= ins.distance,
                abs(x as int) + abs(y as int) + ins.distance <= i64::MAX,
                dx == step_x(nh),
                dy == step_y(nh),
                px == x + j * step_x(nh),
                py == y + j * step_y(nh),
                abs(px as int) + abs(py as int) <= abs(x as int) + abs(y as int) + j,
                point_of(first) == first_repeat(base + leg(x as int, y as int, nh, j as nat)),
                first is None ==> keys_match(seen@, base + leg(x as int, y as int, nh, j as nat)),
            decreases ins.distance - j,
        {
            let ghost trail = base + leg(x as int, y as int, nh, j as nat);
            px = px + dx;
            py = py + dy;
            proof {
                assert(px == x + (j + 1) * step_x(nh)) by (nonlinear_arith)
                    requires
                        px == x + j * step_x(nh) + step_x(nh),
                ;
                assert(py == y + (j + 1) * step_y(nh)) by (nonlinear_arith)
                    requires
                        py == y + j * step_y(nh) + step_y(nh),
                ;
                let next = base + leg(x as int, y as int, nh, (j + 1) as nat);
                assert(next =~= trail.push((px as int, py as int)));
                assert(next.drop_last() =~= trail);
            }
            if first.is_none() {
                let kk = key(px, py);
                if seen.contains(&kk) {
                    first = Some(Position { x: px, y: py });
                } else {
                    seen.insert(kk);
                    proof {
                        lemma_keys_match_push(seen@.remove(kk), trail, px as int, py as int);
                    }
                }
            }
            j = j + 1;
        }
        proof {
            assert(path(after) == base + leg(x as int, y as int, nh, ins.distance as nat));
        }
        h = nh;
        x = px;
        y = py;
        k = k + 1;
    }
    proof {
        assert(instrs@.take(n as int) =~= instrs@);
    }
    WalkSummary { end: Position { x, y }, first_repeat: first }
}

/// Whether the distances sum to at most `i64::MAX`, so that no coordinate of
/// the walk can leave the range of `i64`.
pub fn fits_in_range(instrs: &Vec<Instruction>) -> (r: bool)
    ensures
        r == (total_distance(instrs@) <= i64::MAX),
{
    let mut sum: u64 = 0;
    let mut k: usize = 0;
    while k < instrs.len()
        invariant
            k <= instrs.len(),
            sum == total_distance(instrs@.take(k as int)),
            sum <= i64::MAX,
        decreases instrs.len() - k,
    {
        assert(instrs@.take(k + 1).drop_last() =~= instrs@.take(k as int));
        sum = sum + instrs[k].distance as u64;
        if sum > 0x7FFF_FFFF_FFFF_FFFFu64 {
            proof {
                lemma_total_of_prefix(instrs@, k + 1);
            }
            return false;
        }
        k = k + 1;
    }
    assert(instrs@.take(k as int) =~= instrs@);
    true
}

impl Position {
    /// `|x| + |y|`.
    pub fn manhattan(&self) -> (r: u128)
        ensures
            r == manhattan(self@),
    {
        let ax: u128 = if self.x < 0 { (0 - self.x as i128) as u128 } else { self.x as u128 };
        let ay: u128 = if self.y < 0 { (0 - self.y as i128) as u128 } else { self.y as u128 };
        ax + ay
    }
}

impl WalkSummary {
    /// Manhattan distance from the origin to where the walk ends.
    pub fn final_distance(&self) -> (r: u128)
        ensures
            r == manhattan(self.end@),
    {
        self.end.manhattan()
    }

    /// Manhattan distance from the origin to the first point stood on twice,
    /// if there is one.
    pub fn repeat_distance(&self) -> (r: Option<u128>)
        ensures
            match self.first_repeat {
                Some(p) => r == Some(manhattan(p@) as u128),
                None => r is None,
            },
    {
        match self.first_repeat {
            Some(p) => Some(p.manhattan()),
            None => None,
        }
    }
}

impl Instructions {
    /// Walks these instructions; `None` exactly when their distances sum
    /// past `i64::MAX`.
    pub fn walk(&self) -> (r: Option<WalkSummary>)
        ensures
            total_distance(self.0@) <= i64::MAX <==> r is Some,
            r matches Some(w) ==> w.end@ == end_point(self.0@) && point_of(w.first_repeat)
                == first_repeat(path(self.0@)),
    {
        if fits_in_range(&self.0) {
            Some(walk(&self.0))
        } else {
            None
        }
    }
}

/// Every instruction of distance `d` adds exactly `d` points to the path, one
/// per unit step, nearest first: each an exact lattice point, all pairwise
/// distinct, so each unit step is checked for a repeat on its own, not only
/// where the instruction ends.
pub proof fn lemma_unit_steps(instrs: Seq<Instruction>, i: Instruction)
    ensures
        ({
            let before = path(instrs);
            let after = path(instrs.push(i));
            let h = turned(end_state(instrs).0, i.direction);
            let (x, y) = end_point(instrs);
            &&& after.len() == before.len() + i.distance
            &&& after.take(before.len() as int) == before
            &&& forall|k: int|
                0 <= k < i.distance ==> #[trigger] after[before.len() + k] == (
                    x + (k + 1) * step_x(h),
                    y + (k + 1) * step_y(h),
                )
            &&& forall|a: int, b: int|
                0 <= a < b < i.distance ==> #[trigger] after[before.len() + a]
                    != #[trigger] after[before.len() + b]
        }),
{
    let all = instrs.push(i);
    assert(all.drop_last() =~= instrs);
    let before = path(instrs);
    let after = path(all);
    let h = turned(end_state(instrs).0, i.direction);
    let (x, y) = end_point(instrs);
    assert(after.take(before.len() as int) =~= before);
    assert forall|a: int, b: int|
        0 <= a < b < i.distance implies #[trigger] after[before.len() + a]
            != #[trigger] after[before.len() + b] by {
        let sx = step_x(h);
        let sy = step_y(h);
        assert(after[before.len() + a] == (x + (a + 1) * sx, y + (a + 1) * sy));
        assert(after[before.len() + b] == (x + (b + 1) * sx, y + (b + 1) * sy));
        assert(sx != 0 || sy != 0);
        assert((a + 1) * sx != (b + 1) * sx || (a + 1) * sy != (b + 1) * sy) by (nonlinear_arith)
            requires
                a < b,
                sx != 0 || sy != 0,
        ;
    }
}

/// The path ends where the walk ends.
pub proof fn lemma_path_ends_at_end_point(instrs: Seq<Instruction>)
    ensures
        path(instrs).len() >= 1,
        path(instrs).last() == end_point(instrs),
    decreases instrs.len(),
{
    if instrs.len() > 0 {
        lemma_path_ends_at_end_point(instrs.drop_last());
        let i = instrs.last();
        let (h, x, y) = end_state(instrs.drop_last());
        let nh = turned(h, i.direction);
        let l = leg(x, y, nh, i.distance as nat);
        let d = i.distance as int;
        if d > 0 {
            assert(path(instrs).last() == l.last());
            assert(l.last() == (x + (d - 1 + 1) * step_x(nh), y + (d - 1 + 1) * step_y(nh)));
        } else {
            assert(path(instrs) =~= path(instrs.drop_last()));
            assert(d == 0);
            let (sx, sy) = (step_x(nh), step_y(nh));
            assert(d * sx == 0 && d * sy == 0) by (nonlinear_arith)
                requires
                    d == 0,
            ;
        }
        assert(end_point(instrs) == (x + d * step_x(nh), y + d * step_y(nh)));
    }
}

proof fn lemma_path_prefix(a: Seq<Instruction>, b: Seq<Instruction>)
    ensures
        path(a).len() <= path(a + b).len(),
        path(a + b).take(path(a).len() as int) == path(a),
    decreases b.len(),
{
    if b.len() == 0 {
        assert(a + b =~= a);
        assert(path(a).take(path(a).len() as int) =~= path(a));
    } else {
        let shorter = b.drop_last();
        assert((a + b).drop_last() =~= a + shorter);
        lemma_path_prefix(a, shorter);
        let p = path(a + shorter);
        let q = path(a + b);
        assert(q.take(p.len() as int) =~= p);
        assert(q.take(path(a).len() as int) =~= p.take(path(a).len() as int));
    }
}

proof fn lemma_first_repeat_of_extension(p: Seq<(int, int)>, q: Seq<(int, int)>)
    requires
        p.len() <= q.len(),
        q.take(p.len() as int) == p,
        first_repeat(p) is Some,
    ensures
        first_repeat(q) == first_repeat(p),
    decreases q.len() - p.len(),
{
    if q.len() == p.len() {
        assert(q =~= p);
    } else {
        let r = q.drop_last();
        assert(r.take(p.len() as int) =~= p);
        lemma_first_repeat_of_extension(p, r);
    }
}

/// Whether no point occurs twice in `p`.
pub open spec fn all_distinct(p: Seq<(int, int)>) -> bool {
    forall|a: int, b: int| 0 <= a < b < p.len() ==> p[a] != p[b]
}

/// `first_repeat` is the point at the earliest index whose point occurs
/// earlier too; there is none exactly when no point occurs twice.
pub proof fn lemma_first_repeat_is_earliest(p: Seq<(int, int)>)
    ensures
        first_repeat(p) is None <==> all_distinct(p),
        first_repeat(p) is Some ==> exists|b: int|
            #![trigger p.take(b)]
            0 <= b < p.len() && p[b] == first_repeat(p)->0 && p.take(b).contains(p[b])
                && all_distinct(p.take(b)),
    decreases p.len(),
{
    if p.len() > 0 {
        let e = p.drop_last();
        let n = p.len() - 1;
        lemma_first_repeat_is_earliest(e);
        if first_repeat(e) is Some {
            let b = choose|b: int|
                #![trigger e.take(b)]
                0 <= b < e.len() && e[b] == first_repeat(e)->0 && e.take(b).contains(e[b])
                    && all_distinct(e.take(b));
            assert(e.take(b) =~= p.take(b));
            assert(!all_distinct(p)) by {
                let a = choose|a: int| 0 <= a < e.take(b).len() && e.take(b)[a] == e[b];
                assert(p[a] == p[b]);
            }
        } else if e.contains(p.last()) {
            assert(e =~= p.take(n));
            let a = choose|a: int| 0 <= a < e.len() && e[a] == p.last();
            assert(p[a] == p[n]);
        } else {
            assert forall|a: int, b: int| 0 <= a < b < p.len() implies p[a] != p[b] by {
                if b < n {
                    assert(e[a] == p[a] && e[b] == p[b]);
                } else {
                    assert(e[a] == p[a]);
                }
            }
        }
    }
}

/// Once a first repeat has been found, walking on never replaces it, by a
/// closer point or a farther one.
pub proof fn lemma_first_repeat_is_kept(a: Seq<Instruction>, b: Seq<Instruction>)
    requires
        first_repeat(path(a)) is Some,
    ensures
        first_repeat(path(a + b)) == first_repeat(path(a)),
{
    lemma_path_prefix(a, b);
    lemma_first_repeat_of_extension(path(a), path(a + b));
}
} // verus!
