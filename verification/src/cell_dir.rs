//! Directions of the six edges (and the center) of a cell in the
//! hexagonal grid, and the geometry of neighbouring cells.
use vstd::prelude::*;

verus! {

/// An edge of a hexagonal cell. The first three are the outputs of a cell,
/// the next three its inputs, and `C` is the center.
#[derive(Debug, Clone, Copy, PartialEq, Eq, Structural)]
pub enum CellDir {
    TR,
    BR,
    B,
    BL,
    TL,
    T,
    /// Center
    C,
}

/// The edge number of a direction (its position in the enumeration).
pub open spec fn edge_of(d: CellDir) -> u8 {
    match d {
        CellDir::TR => 0,
        CellDir::BR => 1,
        CellDir::B => 2,
        CellDir::BL => 3,
        CellDir::TL => 4,
        CellDir::T => 5,
        CellDir::C => 6,
    }
}

/// The direction for an edge number; every number above 5 is the center.
pub open spec fn dir_of_edge(e: u8) -> CellDir {
    if e == 0 {
        CellDir::TR
    } else if e == 1 {
        CellDir::BR
    } else if e == 2 {
        CellDir::B
    } else if e == 3 {
        CellDir::BL
    } else if e == 4 {
        CellDir::TL
    } else if e == 5 {
        CellDir::T
    } else {
        CellDir::C
    }
}

/// The opposite edge. The center is mapped to the top edge.
pub open spec fn flip_of(d: CellDir) -> CellDir {
    match d {
        CellDir::TR => CellDir::BL,
        CellDir::BR => CellDir::TL,
        CellDir::B => CellDir::T,
        CellDir::BL => CellDir::TR,
        CellDir::TL => CellDir::BR,
        CellDir::T => CellDir::B,
        CellDir::C => CellDir::T,
    }
}

/// The grid offset of the neighbour in direction `d` of a cell in column `x`.
/// Even and odd columns are shifted against each other by half a cell.
pub open spec fn offs_of(d: CellDir, x: int) -> (int, int) {
    let even = x % 2 == 0;
    match d {
        CellDir::TR => (1, if even { -1 } else { 0 }),
        CellDir::BR => (1, if even { 0 } else { 1 }),
        CellDir::B => (0, 1),
        CellDir::BL => (-1, if even { 0 } else { 1 }),
        CellDir::TL => (-1, if even { -1 } else { 0 }),
        CellDir::T => (0, -1),
        CellDir::C => (0, 0),
    }
}

/// The neighbour position of `pos` in direction `d`, computed on the
/// coordinates taken as `i32` (truncated), or `None` when it leaves the grid.
pub open spec fn offs_pos_of(d: CellDir, pos: (usize, usize)) -> Option<(usize, usize)> {
    let o = offs_of(d, pos.0 as int);
    let nx = (pos.0 as i32) as int + o.0;
    let ny = (pos.1 as i32) as int + o.1;
    if nx >= 0 && ny >= 0 {
        Some((nx as usize, ny as usize))
    } else {
        None
    }
}

/// No `i32` overflow happens when a neighbour offset is added to `pos`.
pub open spec fn offs_fits(pos: (usize, usize)) -> bool {
    &&& i32::MIN < (pos.0 as i32) < i32::MAX
    &&& i32::MIN < (pos.1 as i32) < i32::MAX
}

/// No `i32` overflow happens when the neighbour offset of direction `d` is
/// added to `pos`.
pub open spec fn offs_step_fits(d: CellDir, pos: (usize, usize)) -> bool {
    let o = offs_of(d, pos.0 as int);
    &&& i32::MIN <= (pos.0 as i32) as int + o.0 <= i32::MAX
    &&& i32::MIN <= (pos.1 as i32) as int + o.1 <= i32::MAX
}

/// Squared euclidean distance of two grid positions.
pub open spec fn dist2(a: (usize, usize), b: (usize, usize)) -> int {
    (a.0 - b.0) * (a.0 - b.0) + (a.1 - b.1) * (a.1 - b.1)
}

/// The distance bound below which a step of a path is taken at all.
pub open spec fn path_dist_limit() -> int {
    99999
}

/// The best step from `a` towards `b` among the edges `0..e`: the first edge
/// with the smallest squared distance below the limit, with that distance.
pub open spec fn best_step(a: (usize, usize), b: (usize, usize), e: nat) -> (int, CellDir, (usize, usize))
    decreases e,
{
    if e == 0 {
        (path_dist_limit(), CellDir::C, a)
    } else {
        let prev = best_step(a, b, (e - 1) as nat);
        let d = dir_of_edge((e - 1) as u8);
        match offs_pos_of(d, a) {
            Some(np) => if dist2(b, np) < prev.0 {
                (dist2(b, np), d, np)
            } else {
                prev
            },
            None => prev,
        }
    }
}

/// The path the greedy walk takes from `a` to `b` with at most `fuel` steps.
pub open spec fn path_spec(a: (usize, usize), b: (usize, usize), fuel: nat) -> Seq<CellDir>
    decreases fuel,
{
    if fuel == 0 || (a.0 == b.0 && a.1 == b.1) {
        Seq::empty()
    } else {
        let step = best_step(a, b, 6);
        if step.0 < path_dist_limit() {
            seq![step.1].add(path_spec(step.2, b, (fuel - 1) as nat))
        } else {
            Seq::empty()
        }
    }
}

/// Coordinates for which the greedy walk is computed exactly.
pub open spec fn path_coord_ok(p: (usize, usize)) -> bool {
    p.0 < 0x100_0000 && p.1 < 0x100_0000
}


/// Whether `b` is the neighbour of `a` in direction `d`, comparing the
/// coordinates taken as `i32`.
pub open spec fn adjacent_via(d: CellDir, a: (usize, usize), b: (usize, usize)) -> bool {
    let o = offs_of(d, a.0 as int);
    &&& (b.0 as i32) as int == (a.0 as i32) as int + o.0
    &&& (b.1 as i32) as int == (a.1 as i32) as int + o.1
}

/// The direction in which `b` lies next to `a`, checking the edges in the
/// order top, top-left, bottom-left, top-right, bottom-right, bottom.
pub open spec fn adjacency_of(a: (usize, usize), b: (usize, usize)) -> Option<CellDir> {
    if adjacent_via(CellDir::T, a, b) {
        Some(CellDir::T)
    } else if adjacent_via(CellDir::TL, a, b) {
        Some(CellDir::TL)
    } else if adjacent_via(CellDir::BL, a, b) {
        Some(CellDir::BL)
    } else if adjacent_via(CellDir::TR, a, b) {
        Some(CellDir::TR)
    } else if adjacent_via(CellDir::BR, a, b) {
        Some(CellDir::BR)
    } else if adjacent_via(CellDir::B, a, b) {
        Some(CellDir::B)
    } else {
        None
    }
}

/// Squared distance of two positions with coordinates below 2^26.
fn sq_dist(a: (usize, usize), b: (usize, usize)) -> (r: i64)
    requires
        a.0 < 0x400_0000,
        a.1 < 0x400_0000,
        b.0 < 0x400_0000,
        b.1 < 0x400_0000,
    ensures
        r as int == dist2(a, b),
{
    let dx: i64 = a.0 as i64 - b.0 as i64;
    let dy: i64 = a.1 as i64 - b.1 as i64;
    assert(dx * dx <= 0x10_0000_0000_0000) by (nonlinear_arith)
        requires
            -0x400_0000 < dx < 0x400_0000,
    ;
    assert(dy * dy <= 0x10_0000_0000_0000) by (nonlinear_arith)
        requires
            -0x400_0000 < dy < 0x400_0000,
    ;
    assert(dx * dx >= 0) by (nonlinear_arith);
    assert(dy * dy >= 0) by (nonlinear_arith);
    dx * dx + dy * dy
}

impl CellDir {
    /// The direction for an edge number.
    pub fn from(edge: u8) -> (r: Self)
        ensures
            r == dir_of_edge(edge),
    {
        match edge {
            0 => CellDir::TR,
            1 => CellDir::BR,
            2 => CellDir::B,
            3 => CellDir::BL,
            4 => CellDir::TL,
            5 => CellDir::T,
            _ => CellDir::C,
        }
    }

    /// The opposite direction.
    pub fn flip(&self) -> (r: Self)
        ensures
            r == flip_of(*self),
    {
        match self {
            CellDir::TR => CellDir::BL,
            CellDir::BR => CellDir::TL,
            CellDir::B => CellDir::T,
            CellDir::BL => CellDir::TR,
            CellDir::TL => CellDir::BR,
            CellDir::T => CellDir::B,
            CellDir::C => CellDir::T,
        }
    }

    /// Whether this is one of the three output edges.
    pub fn is_output(&self) -> (r: bool)
        ensures
            r == (edge_of(*self) <= 2),
    {
        let e = self.as_edge();
        e <= 2
    }

    /// Whether this is an input edge (or the center).
    pub fn is_input(&self) -> (r: bool)
        ensures
            r == (edge_of(*self) > 2),
    {
        !self.is_output()
    }

    /// The edge number of this direction.
    pub fn as_edge(&self) -> (r: u8)
        ensures
            r == edge_of(*self),
    {
        match self {
            CellDir::TR => 0,
            CellDir::BR => 1,
            CellDir::B => 2,
            CellDir::BL => 3,
            CellDir::TL => 4,
            CellDir::T => 5,
            CellDir::C => 6,
        }
    }

    /// Position of the edge in a hexagonal context menu.
    pub fn as_menu_pos(&self) -> (r: (i32, i32))
        ensures
            r == (match *self {
                CellDir::TR => (0i32, 1i32),
                CellDir::BR => (1i32, 1i32),
                CellDir::B => (0i32, 1i32),
                CellDir::BL => (-1i32, 1i32),
                CellDir::TL => (-1i32, 0i32),
                CellDir::T => (0i32, -1i32),
                CellDir::C => (0i32, 0i32),
            }),
    {
        match self {
            CellDir::TR => (0, 1),
            CellDir::BR => (1, 1),
            CellDir::B => (0, 1),
            CellDir::BL => (-1, 1),
            CellDir::TL => (-1, 0),
            CellDir::T => (0, -1),
            _ => (0, 0),
        }
    }

    /// The grid offset of the neighbour in this direction, for a cell in column `x`.
    pub fn as_offs(&self, x: usize) -> (r: (i32, i32))
        ensures
            r.0 as int == offs_of(*self, x as int).0,
            r.1 as int == offs_of(*self, x as int).1,
    {
        let even = x % 2 == 0;
        match self {
            CellDir::TR => (1, if even { -1 } else { 0 }),
            CellDir::BR => (1, if even { 0 } else { 1 }),
            CellDir::B => (0, 1),
            CellDir::BL => (-1, if even { 0 } else { 1 }),
            CellDir::TL => (-1, if even { -1 } else { 0 }),
            CellDir::T => (0, -1),
            _ => (0, 0),
        }
    }

    /// The neighbour position of `pos` in this direction, or `None` if it
    /// would have a negative coordinate.
    pub fn offs_pos(&self, pos: (usize, usize)) -> (r: Option<(usize, usize)>)
        requires
            offs_step_fits(*self, pos),
        ensures
            r == offs_pos_of(*self, pos),
    {
        let offs = self.as_offs(pos.0);
        let nx: i32 = pos.0 as i32 + offs.0;
        let ny: i32 = pos.1 as i32 + offs.1;
        if nx >= 0 && ny >= 0 {
            Some((nx as usize, ny as usize))
        } else {
            None
        }
    }

    /// The greedy walk over neighbouring cells from `a` to `b`: every step
    /// goes to the neighbour closest to `b`, as long as that neighbour is
    /// closer than the distance limit; at most 1024 steps are taken.
    pub fn path_from_to(a: (usize, usize), b: (usize, usize)) -> (path: Vec<CellDir>)
        requires
            path_coord_ok(a),
            path_coord_ok(b),
        ensures
            path@ == path_spec(a, b, 1024),
    {
        let mut path: Vec<CellDir> = Vec::new();
        let mut a = a;
        let mut defensive_max: i32 = 1024;
        let ghost a0 = a;
        let mut stop = false;

        while !stop && (a.0 != b.0 || a.1 != b.1) && defensive_max > 0
            invariant
                0 <= defensive_max <= 1024,
                a.0 < 0x101_0000,
                a.1 < 0x101_0000,
                path_coord_ok(b),
                !stop ==> path@ + path_spec(a, b, defensive_max as nat) == path_spec(a0, b, 1024),
                stop ==> path@ == path_spec(a0, b, 1024),
            decreases defensive_max,
        {
            let ghost fuel = defensive_max as nat;
            defensive_max -= 1;

            let mut min_distance: i64 = 99999;
            let mut min_dir = CellDir::C;
            let mut min_new_a = a;

            let mut e: u8 = 0;
            while e < 6
                invariant
                    0 <= e <= 6,
                    a.0 < 0x101_0000,
                    a.1 < 0x101_0000,
                    path_coord_ok(b),
                    (min_distance as int, min_dir, min_new_a) == best_step(a, b, e as nat),
                    min_distance <= 99999,
                    min_distance < 99999 ==> min_new_a.0 < 0x200_0000 && min_new_a.1 < 0x200_0000,
                    min_distance < 99999 ==> dist2(b, min_new_a) == min_distance,
                decreases 6 - e,
            {
                let dir = Self::from(e);
                assert((a.0 as i32) as int == a.0 as int);
                assert((a.1 as i32) as int == a.1 as int);
                assert(offs_step_fits(dir, a));
                if let Some(new_pos) = dir.offs_pos(a) {
                    assert(new_pos.0 <= a.0 + 1 && new_pos.1 <= a.1 + 1);
                    let dist = sq_dist(b, new_pos);
                    if dist < min_distance {
                        min_distance = dist;
                        min_dir = dir;
                        min_new_a = new_pos;
                    }
                }
                e += 1;
            }

            proof {
                let step = best_step(a, b, 6);
                assert(path_spec(a, b, fuel) == if step.0 < path_dist_limit() {
                    seq![step.1].add(path_spec(step.2, b, (fuel - 1) as nat))
                } else {
                    Seq::<CellDir>::empty()
                });
            }

            if min_distance < 99999 {
                proof {
                    assert(dist2(b, min_new_a) < 99999);
                    assert(min_new_a.0 < 0x101_0000) by {
                        if min_new_a.0 >= 0x101_0000 {
                            assert((b.0 - min_new_a.0) * (b.0 - min_new_a.0) >= 99999) by (nonlinear_arith)
                                requires min_new_a.0 - b.0 >= 0x1_0000;
                            assert((b.1 - min_new_a.1) * (b.1 - min_new_a.1) >= 0) by (nonlinear_arith);
                        }
                    }
                    assert(min_new_a.1 < 0x101_0000) by {
                        if min_new_a.1 >= 0x101_0000 {
                            assert((b.1 - min_new_a.1) * (b.1 - min_new_a.1) >= 99999) by (nonlinear_arith)
                                requires min_new_a.1 - b.1 >= 0x1_0000;
                            assert((b.0 - min_new_a.0) * (b.0 - min_new_a.0) >= 0) by (nonlinear_arith);
                        }
                    }
                    assert(path@.push(min_dir) + path_spec(min_new_a, b, (fuel - 1) as nat)
                        == path@ + path_spec(a, b, fuel));
                }
                a = min_new_a;
                path.push(min_dir);
            } else {
                proof {
                    assert(path_spec(a, b, fuel) == Seq::<CellDir>::empty());
                    assert(path@ + Seq::<CellDir>::empty() == path@);
                }
                stop = true;
            }
        }
        proof {
            if !stop {
                if defensive_max > 0 {
                    assert(a.0 == b.0 && a.1 == b.1);
                }
                assert(path_spec(a, b, defensive_max as nat) == Seq::<CellDir>::empty());
                assert(path@ + Seq::<CellDir>::empty() == path@);
            }
        }
        path
    }

    /// The direction in which `pos_b` is a neighbour of `pos_a`, if it is one.
    pub fn are_adjacent(pos_a: (usize, usize), pos_b: (usize, usize)) -> (r: Option<CellDir>)
        requires
            offs_fits(pos_a),
        ensures
            r == adjacency_of(pos_a, pos_b),
    {
        let ipos_a: (i32, i32) = (pos_a.0 as i32, pos_a.1 as i32);
        let ipos_b: (i32, i32) = (pos_b.0 as i32, pos_b.1 as i32);

        let (ox, oy) = CellDir::T.as_offs(pos_a.0);
        if ipos_b.0 == ipos_a.0 + ox && ipos_b.1 == ipos_a.1 + oy {
            return Some(CellDir::T);
        }
        let (ox, oy) = CellDir::TL.as_offs(pos_a.0);
        if ipos_b.0 == ipos_a.0 + ox && ipos_b.1 == ipos_a.1 + oy {
            return Some(CellDir::TL);
        }
        let (ox, oy) = CellDir::BL.as_offs(pos_a.0);
        if ipos_b.0 == ipos_a.0 + ox && ipos_b.1 == ipos_a.1 + oy {
            return Some(CellDir::BL);
        }
        let (ox, oy) = CellDir::TR.as_offs(pos_a.0);
        if ipos_b.0 == ipos_a.0 + ox && ipos_b.1 == ipos_a.1 + oy {
            return Some(CellDir::TR);
        }
        let (ox, oy) = CellDir::BR.as_offs(pos_a.0);
        if ipos_b.0 == ipos_a.0 + ox && ipos_b.1 == ipos_a.1 + oy {
            return Some(CellDir::BR);
        }
        let (ox, oy) = CellDir::B.as_offs(pos_a.0);
        if ipos_b.0 == ipos_a.0 + ox && ipos_b.1 == ipos_a.1 + oy {
            return Some(CellDir::B);
        }
        None
    }
}


/// Flipping an edge twice gives the edge back; the center flips to the top edge.
pub proof fn law_flip_involution(d: CellDir)
    requires
        d != CellDir::C,
    ensures
        flip_of(flip_of(d)) == d,
        flip_of(d) != CellDir::C,
{
}

/// Flipping an output edge gives an input edge and the other way round.
pub proof fn law_flip_swaps_direction(d: CellDir)
    requires
        d != CellDir::C,
    ensures
        (edge_of(d) <= 2) == (edge_of(flip_of(d)) > 2),
{
}

/// An edge number names the edge it was taken from, and every edge number
/// below 7 names a direction with that number.
pub proof fn law_edge_round_trip(d: CellDir, e: u8)
    ensures
        dir_of_edge(edge_of(d)) == d,
        e <= 6 ==> edge_of(dir_of_edge(e)) == e,
{
}

/// Two adjacent cells see each other through opposite edges.
pub proof fn law_adjacency_symmetric(d: CellDir, a: (usize, usize), b: (usize, usize))
    requires
        d != CellDir::C,
        a.0 <= i32::MAX && a.1 <= i32::MAX,
        b.0 <= i32::MAX && b.1 <= i32::MAX,
        adjacent_via(d, a, b),
    ensures
        adjacent_via(flip_of(d), b, a),
{
    assert((a.0 as i32) as int == a.0 && (a.1 as i32) as int == a.1);
    assert((b.0 as i32) as int == b.0 && (b.1 as i32) as int == b.1);
}

/// A step to a neighbour and a step back in the flipped direction return to
/// the cell started from.
pub proof fn law_offs_pos_round_trip(d: CellDir, p: (usize, usize), q: (usize, usize))
    requires
        d != CellDir::C,
        p.0 <= i32::MAX && p.1 <= i32::MAX,
        offs_step_fits(d, p),
        offs_pos_of(d, p) == Some(q),
    ensures
        offs_step_fits(flip_of(d), q),
        offs_pos_of(flip_of(d), q) == Some(p),
{
    assert((p.0 as i32) as int == p.0 && (p.1 as i32) as int == p.1);
    let o = offs_of(d, p.0 as int);
    assert(q.0 == p.0 + o.0 && q.1 == p.1 + o.1);
    assert(q.0 <= i32::MAX && q.1 <= i32::MAX);
    assert((q.0 as i32) as int == q.0 && (q.1 as i32) as int == q.1);
    if p.0 % 2 == 0 {
        assert(o.0 != 0 ==> q.0 % 2 == 1);
    } else {
        assert(o.0 != 0 ==> q.0 % 2 == 0);
    }
    assert(o.0 == 0 ==> q.0 == p.0);
}

/// A best step that lies below the distance limit goes to a neighbour.
proof fn lemma_best_step_dir(a: (usize, usize), b: (usize, usize), e: nat)
    requires
        e <= 6,
    ensures
        best_step(a, b, e).0 < path_dist_limit() ==> best_step(a, b, e).1 != CellDir::C,
    decreases e,
{
    if e > 0 {
        lemma_best_step_dir(a, b, (e - 1) as nat);
    }
}

/// The greedy walk only steps to neighbours: it never stays in its cell.
pub proof fn law_path_has_no_center(a: (usize, usize), b: (usize, usize), fuel: nat)
    ensures
        forall|i: int| 0 <= i < path_spec(a, b, fuel).len() ==> path_spec(a, b, fuel)[i] != CellDir::C,
    decreases fuel,
{
    if fuel > 0 && !(a.0 == b.0 && a.1 == b.1) {
        let step = best_step(a, b, 6);
        lemma_best_step_dir(a, b, 6);
        if step.0 < path_dist_limit() {
            law_path_has_no_center(step.2, b, (fuel - 1) as nat);
            let rest = path_spec(step.2, b, (fuel - 1) as nat);
            assert forall|i: int| 0 <= i < path_spec(a, b, fuel).len() implies path_spec(a, b, fuel)[i] != CellDir::C by {
                if i > 0 {
                    assert(path_spec(a, b, fuel)[i] == rest[i - 1]);
                }
            }
        }
    }
}

/// Adjacency is found exactly: when `b` lies next to `a` in direction `d`,
/// `are_adjacent` names that direction; when it names a direction, `b` lies
/// next to `a` in it.
pub proof fn law_adjacency_exact(d: CellDir, a: (usize, usize), b: (usize, usize))
    ensures
        d != CellDir::C && adjacent_via(d, a, b) ==> adjacency_of(a, b) == Some(d),
        adjacency_of(a, b) == Some(d) ==> d != CellDir::C && adjacent_via(d, a, b),
{
    if a.0 as int % 2 == 0 {
        assert(offs_of(CellDir::TL, a.0 as int) == (-1int, -1int));
        assert(offs_of(CellDir::BL, a.0 as int) == (-1int, 0int));
        assert(offs_of(CellDir::TR, a.0 as int) == (1int, -1int));
        assert(offs_of(CellDir::BR, a.0 as int) == (1int, 0int));
    } else {
        assert(offs_of(CellDir::TL, a.0 as int) == (-1int, 0int));
        assert(offs_of(CellDir::BL, a.0 as int) == (-1int, 1int));
        assert(offs_of(CellDir::TR, a.0 as int) == (1int, 0int));
        assert(offs_of(CellDir::BR, a.0 as int) == (1int, 1int));
    }
}

/// The neighbours of a cell: straight up and down in its column, and in the
/// columns left and right the two cells beside it, which lie half a row
/// higher for an even column and half a row lower for an odd one.
pub proof fn law_neighbour_offsets(x: int)
    requires
        x >= 0,
    ensures
        offs_of(CellDir::T, x) == (0int, -1int),
        offs_of(CellDir::B, x) == (0int, 1int),
        offs_of(CellDir::C, x) == (0int, 0int),
        x % 2 == 0 ==> offs_of(CellDir::TL, x) == (-1int, -1int) && offs_of(CellDir::BL, x) == (-1int, 0int) && offs_of(
            CellDir::TR,
            x,
        ) == (1int, -1int) && offs_of(CellDir::BR, x) == (1int, 0int),
        x % 2 == 1 ==> offs_of(CellDir::TL, x) == (-1int, 0int) && offs_of(CellDir::BL, x) == (-1int, 1int) && offs_of(
            CellDir::TR,
            x,
        ) == (1int, 0int) && offs_of(CellDir::BR, x) == (1int, 1int),
{
}

} // verus!
