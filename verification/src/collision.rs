//! The search for the collisions that happen first in a time step.
//!
//! A time of impact is carried by the bit pattern of its `f64` value
//! (`f64::to_bits`). On non-negative floats that pattern orders exactly as
//! the floats do, and every other value (one with its sign bit set, an
//! infinity, a NaN) lies above the pattern of `f64::MAX`, where no candidate
//! is ever accepted. Comparing patterns as integers therefore decides every
//! candidate as the comparison of the floats would.

use vstd::prelude::*;

verus! {

/// Bit pattern of `2.0e-15`, the shortest time of impact that counts: a
/// shorter one would find the collision that was just handled again.
pub const TOI_EPSILON_BITS: u64 = 0x3ce2_03af_9ee7_5616;

/// Bit pattern of `f64::MAX`, the time of impact while no collision is found.
pub const NO_COLLISION_BITS: u64 = 0x7fef_ffff_ffff_ffff;

/// The walls a ball can hit: the left and right walls are vertical, the
/// bottom and top walls horizontal.
#[derive(Clone, Copy, PartialEq, Eq, Debug, Structural)]
pub enum WallOrientation {
    Horizontal,
    Vertical,
}

/// A collision between two balls, or between a ball and a wall; balls are
/// named by their index.
#[derive(Clone, Copy, PartialEq, Eq, Debug, Structural)]
pub enum Collision {
    BallToBall { n1: usize, n2: usize },
    BallToWall { n: usize, orientation: WallOrientation },
}

/// The times (as bit patterns) at which one ball would reach each wall:
/// `min_x` the left wall, `max_x` the right, `min_y` the bottom, `max_y` the top.
#[derive(Clone, Copy, PartialEq, Eq, Debug, Structural)]
pub struct WallTimes {
    pub min_x: u64,
    pub max_x: u64,
    pub min_y: u64,
    pub max_y: u64,
}

/// The collisions found so far, all at the earliest time of impact seen.
pub struct CollisionSearch {
    collisions: Vec<Collision>,
    min_toi: u64,
}

/// A search state: the collisions kept and the time they happen at.
pub type SearchState = (Seq<Collision>, u64);

/// Whether a candidate at time `toi` is kept while the earliest time is `min_toi`.
pub open spec fn accepts(min_toi: u64, toi: u64) -> bool {
    TOI_EPSILON_BITS < toi && toi <= min_toi
}

/// The state before any candidate.
pub open spec fn initial_search() -> SearchState {
    (Seq::empty(), NO_COLLISION_BITS)
}

/// Offering a candidate: an earlier one replaces all that were kept, one at
/// the same time joins them, a later or too early one is dropped.
pub open spec fn offer_step(s: SearchState, c: Collision, toi: u64) -> SearchState {
    if accepts(s.1, toi) {
        if toi < s.1 {
            (seq![c], toi)
        } else {
            (s.0.push(c), s.1)
        }
    } else {
        s
    }
}

/// Offering a wall collision with its two possible times: the second is
/// offered only where the first is not kept.
pub open spec fn either_step(s: SearchState, c: Collision, first: u64, second: u64) -> SearchState {
    if accepts(s.1, first) {
        offer_step(s, c, first)
    } else {
        offer_step(s, c, second)
    }
}

pub open spec fn wall(n: int, orientation: WallOrientation) -> Collision {
    Collision::BallToWall { n: n as usize, orientation }
}

pub open spec fn pair(n1: int, n2: int) -> Collision {
    Collision::BallToBall { n1: n1 as usize, n2: n2 as usize }
}

/// The table of times at which two balls meet, entry `[i][j]` for `i < j`;
/// `None` where they never do.
pub open spec fn pair_table(pairs: &Vec<Vec<Option<u64>>>) -> Seq<Seq<Option<u64>>> {
    pairs@.map_values(|row: Vec<Option<u64>>| row@)
}

/// A square table with a row and a column for each of `n` balls.
pub open spec fn is_square(tbl: Seq<Seq<Option<u64>>>, n: int) -> bool {
    &&& tbl.len() == n
    &&& forall|i: int| 0 <= i < n ==> (#[trigger] tbl[i]).len() == n
}

/// After offering the collisions of ball `i` with balls `i + 1 .. j`.
pub open spec fn scan_pairs(s: SearchState, tbl: Seq<Seq<Option<u64>>>, i: int, j: int) -> SearchState
    decreases j - i,
{
    if j <= i + 1 {
        s
    } else {
        let prev = scan_pairs(s, tbl, i, j - 1);
        match tbl[i][j - 1] {
            Some(t) => offer_step(prev, pair(i, j - 1), t),
            None => prev,
        }
    }
}

/// After offering the candidates of ball `i`: the vertical walls, the
/// horizontal walls, then the balls after it.
pub open spec fn scan_ball(
    s: SearchState,
    walls: Seq<WallTimes>,
    tbl: Seq<Seq<Option<u64>>>,
    i: int,
) -> SearchState {
    let w = walls[i];
    let after_x = either_step(s, wall(i, WallOrientation::Vertical), w.min_x, w.max_x);
    let after_y = either_step(after_x, wall(i, WallOrientation::Horizontal), w.min_y, w.max_y);
    scan_pairs(after_y, tbl, i, walls.len() as int)
}

/// After offering the candidates of balls `0 .. k`.
pub open spec fn scan_balls(walls: Seq<WallTimes>, tbl: Seq<Seq<Option<u64>>>, k: int) -> SearchState
    decreases k,
{
    if k <= 0 {
        initial_search()
    } else {
        scan_ball(scan_balls(walls, tbl, k - 1), walls, tbl, k - 1)
    }
}

/// The earliest collisions among all candidates of all balls.
pub open spec fn earliest_collisions(walls: Seq<WallTimes>, tbl: Seq<Seq<Option<u64>>>) -> SearchState {
    scan_balls(walls, tbl, walls.len() as int)
}

impl View for CollisionSearch {
    type V = SearchState;

    closed spec fn view(&self) -> SearchState {
        (self.collisions@, self.min_toi)
    }
}

impl CollisionSearch {
    /// A search that has seen no candidate yet.
    pub fn new() -> (s: Self)
        ensures
            s@ == initial_search(),
            s@.0.len() == 0,
            s@.1 == NO_COLLISION_BITS,
    {
        CollisionSearch { collisions: Vec::new(), min_toi: NO_COLLISION_BITS }
    }

    /// Offers one candidate; returns whether it was kept.
    pub fn offer(&mut self, collision: Collision, toi: u64) -> (kept: bool)
        ensures
            final(self)@ == offer_step(old(self)@, collision, toi),
            kept == (TOI_EPSILON_BITS < toi && toi <= old(self)@.1),
            kept && toi < old(self)@.1 ==> final(self)@.0 == seq![collision],
            kept && toi == old(self)@.1 ==> final(self)@.0 == old(self)@.0.push(collision),
            kept ==> final(self)@.1 == toi,
            !kept ==> final(self)@ == old(self)@,
    {
        if TOI_EPSILON_BITS < toi && toi <= self.min_toi {
            if toi < self.min_toi {
                self.collisions.clear();
            }
            self.collisions.push(collision);
            self.min_toi = toi;
            true
        } else {
            false
        }
    }

    /// Offers a wall collision at its `first` time, and at its `second` time
    /// where the first was not kept.
    pub fn offer_either(&mut self, collision: Collision, first: u64, second: u64)
        ensures
            final(self)@ == either_step(old(self)@, collision, first, second),
            TOI_EPSILON_BITS < first <= old(self)@.1 ==> final(self)@.1 == first && final(self)@.0 == (
            if first < old(self)@.1 {
                seq![collision]
            } else {
                old(self)@.0.push(collision)
            }),
            !(TOI_EPSILON_BITS < first <= old(self)@.1) && TOI_EPSILON_BITS < second <= old(self)@.1
                ==> final(self)@.1 == second && final(self)@.0 == (if second < old(self)@.1 {
                seq![collision]
            } else {
                old(self)@.0.push(collision)
            }),
            !(TOI_EPSILON_BITS < first <= old(self)@.1) && !(TOI_EPSILON_BITS < second
                <= old(self)@.1) ==> final(self)@ == old(self)@,
    {
        if !self.offer(collision, first) {
            self.offer(collision, second);
        }
    }

    /// The collisions kept, in the order they were offered.
    pub fn collisions(&self) -> (c: &Vec<Collision>)
        ensures
            c@ == self@.0,
    {
        &self.collisions
    }

    /// The time (as a bit pattern) of the collisions kept.
    pub fn toi(&self) -> (t: u64)
        ensures
            t == self@.1,
    {
        self.min_toi
    }
}

/// Searches all candidates of a billiard for the earliest collisions: for
/// each ball in turn, its walls and then its meetings with the balls after
/// it. `walls[i]` holds the wall times of ball `i`, and `pairs[i][j]` the
/// time at which balls `i` and `j` meet, for `i < j`.
pub fn compute_collisions(walls: &Vec<WallTimes>, pairs: &Vec<Vec<Option<u64>>>) -> (search: CollisionSearch)
    requires
        is_square(pair_table(pairs), walls.len() as int),
    ensures
        search@ == earliest_collisions(walls@, pair_table(pairs)),
        search@.0.no_duplicates(),
        forall|k1: int, k2: int|
            0 <= k1 < k2 < search@.0.len() ==> comes_before(
                #[trigger] search@.0[k1],
                #[trigger] search@.0[k2],
            ),
        forall|k: int|
            0 <= k < search@.0.len() ==> has_time(
                #[trigger] search@.0[k],
                search@.1,
                walls@,
                pair_table(pairs),
            ),
{
    proof {
        lemma_earliest_collisions_are_in_ball_order(walls@, pair_table(pairs));
        lemma_earliest_collisions_are_simultaneous(walls@, pair_table(pairs));
    }
    let n = walls.len();
    let ghost tbl = pair_table(pairs);
    let mut search = CollisionSearch::new();
    let mut i: usize = 0;
    while i < n
        invariant
            i <= n,
            n == walls.len(),
            tbl == pair_table(pairs),
            is_square(tbl, n as int),
            search@ == scan_balls(walls@, tbl, i as int),
        decreases n - i,
    {
        let w = walls[i];
        search.offer_either(
            Collision::BallToWall { n: i, orientation: WallOrientation::Vertical },
            w.min_x,
            w.max_x,
        );
        search.offer_either(
            Collision::BallToWall { n: i, orientation: WallOrientation::Horizontal },
            w.min_y,
            w.max_y,
        );
        let ghost after_walls = search@;
        assert(tbl[i as int] == pairs[i as int]@);
        let mut j: usize = i + 1;
        while j < n
            invariant
                i < n,
                i < j <= n,
                n == walls.len(),
                tbl == pair_table(pairs),
                is_square(tbl, n as int),
                tbl[i as int] == pairs[i as int]@,
                search@ == scan_pairs(after_walls, tbl, i as int, j as int),
            decreases n - j,
        {
            match pairs[i][j] {
                Some(t) => {
                    search.offer(Collision::BallToBall { n1: i, n2: j }, t);
                },
                None => {},
            }
            j += 1;
        }
        i += 1;
    }
    search
}

/// Whether collision `c` is a candidate at time `t`: two balls `n1 < n2` that
/// meet at `t`, or a ball that reaches one of the walls of that orientation at `t`.
pub open spec fn has_time(c: Collision, t: u64, walls: Seq<WallTimes>, tbl: Seq<Seq<Option<u64>>>) -> bool {
    match c {
        Collision::BallToBall { n1, n2 } => n1 < n2 < walls.len() && tbl[n1 as int][n2 as int] == Some(
            t,
        ),
        Collision::BallToWall { n, orientation } => n < walls.len() && match orientation {
            WallOrientation::Vertical => walls[n as int].min_x == t || walls[n as int].max_x == t,
            WallOrientation::Horizontal => walls[n as int].min_y == t || walls[n as int].max_y == t,
        },
    }
}

/// A state reached by offering candidates: its time counts and is at most
/// `f64::MAX`, and it keeps nothing only while no candidate was kept.
pub open spec fn reachable_state(s: SearchState) -> bool {
    &&& TOI_EPSILON_BITS < s.1 <= NO_COLLISION_BITS
    &&& s.0.len() == 0 ==> s.1 == NO_COLLISION_BITS
}

/// Every collision kept is a candidate at the time of the state.
pub open spec fn kept_at_time(s: SearchState, walls: Seq<WallTimes>, tbl: Seq<Seq<Option<u64>>>) -> bool {
    forall|k: int| 0 <= k < s.0.len() ==> has_time(#[trigger] s.0[k], s.1, walls, tbl)
}

/// Candidate `c` at time `t` is accounted for by state `s`: no counting
/// time `t` is earlier than the state's, and at the state's time `c` is kept.
pub open spec fn covers(s: SearchState, c: Collision, t: u64) -> bool {
    &&& TOI_EPSILON_BITS < t ==> s.1 <= t
    &&& t == s.1 ==> s.0.contains(c)
}

proof fn lemma_step_keeps_cover(s: SearchState, c: Collision, t: u64, c2: Collision, t2: u64)
    requires
        covers(s, c, t),
    ensures
        covers(offer_step(s, c2, t2), c, t),
{
    let r = offer_step(s, c2, t2);
    if accepts(s.1, t2) && t2 == s.1 && t == s.1 {
        let k = choose|k: int| 0 <= k < s.0.len() && s.0[k] == c;
        assert(r.0[k] == c);
    }
}

proof fn lemma_step_reachable(s: SearchState, c: Collision, t: u64)
    requires
        reachable_state(s),
    ensures
        reachable_state(offer_step(s, c, t)),
{
}

proof fn lemma_step_covers(s: SearchState, c: Collision, t: u64)
    requires
        reachable_state(s),
    ensures
        covers(offer_step(s, c, t), c, t),
{
    let r = offer_step(s, c, t);
    if accepts(s.1, t) {
        if t < s.1 {
            assert(r.0[0] == c);
        } else {
            assert(r.0[s.0.len() as int] == c);
        }
    }
}

proof fn lemma_step_kept_at_time(
    s: SearchState,
    c: Collision,
    t: u64,
    walls: Seq<WallTimes>,
    tbl: Seq<Seq<Option<u64>>>,
)
    requires
        kept_at_time(s, walls, tbl),
        has_time(c, t, walls, tbl),
    ensures
        kept_at_time(offer_step(s, c, t), walls, tbl),
{
    let r = offer_step(s, c, t);
    if accepts(s.1, t) {
        if t < s.1 {
            assert forall|k: int| 0 <= k < r.0.len() implies has_time(#[trigger] r.0[k], r.1, walls, tbl) by {
                assert(r.0[k] == c);
            }
        } else {
            assert forall|k: int| 0 <= k < r.0.len() implies has_time(#[trigger] r.0[k], r.1, walls, tbl) by {
                if k < s.0.len() {
                    assert(r.0[k] == s.0[k]);
                } else {
                    assert(r.0[k] == c);
                }
            }
        }
    }
}

proof fn lemma_either_keeps_cover(s: SearchState, c: Collision, t: u64, c2: Collision, t1: u64, t2: u64)
    requires
        covers(s, c, t),
    ensures
        covers(either_step(s, c2, t1, t2), c, t),
{
    lemma_step_keeps_cover(s, c, t, c2, t1);
    lemma_step_keeps_cover(s, c, t, c2, t2);
}

proof fn lemma_either_reachable(s: SearchState, c: Collision, t1: u64, t2: u64)
    requires
        reachable_state(s),
    ensures
        reachable_state(either_step(s, c, t1, t2)),
{
}

proof fn lemma_either_kept_at_time(
    s: SearchState,
    c: Collision,
    t1: u64,
    t2: u64,
    walls: Seq<WallTimes>,
    tbl: Seq<Seq<Option<u64>>>,
)
    requires
        kept_at_time(s, walls, tbl),
        has_time(c, t1, walls, tbl),
        has_time(c, t2, walls, tbl),
    ensures
        kept_at_time(either_step(s, c, t1, t2), walls, tbl),
{
    lemma_step_kept_at_time(s, c, t1, walls, tbl);
    lemma_step_kept_at_time(s, c, t2, walls, tbl);
}

proof fn lemma_either_covers_first(s: SearchState, c: Collision, t1: u64, t2: u64)
    requires
        reachable_state(s),
    ensures
        covers(either_step(s, c, t1, t2), c, t1),
{
    if accepts(s.1, t1) {
        lemma_step_covers(s, c, t1);
    } else {
        assert(covers(s, c, t1));
        lemma_step_keeps_cover(s, c, t1, c, t2);
    }
}

proof fn lemma_either_covers_second(s: SearchState, c: Collision, t1: u64, t2: u64)
    requires
        reachable_state(s),
        !(TOI_EPSILON_BITS < t1 <= NO_COLLISION_BITS),
    ensures
        covers(either_step(s, c, t1, t2), c, t2),
{
    lemma_step_covers(s, c, t2);
}

proof fn lemma_scan_pairs_keeps_cover(
    s: SearchState,
    tbl: Seq<Seq<Option<u64>>>,
    i: int,
    j: int,
    c: Collision,
    t: u64,
)
    requires
        covers(s, c, t),
    ensures
        covers(scan_pairs(s, tbl, i, j), c, t),
    decreases j - i,
{
    if j > i + 1 {
        lemma_scan_pairs_keeps_cover(s, tbl, i, j - 1, c, t);
        let prev = scan_pairs(s, tbl, i, j - 1);
        match tbl[i][j - 1] {
            Some(t2) => lemma_step_keeps_cover(prev, c, t, pair(i, j - 1), t2),
            None => {},
        }
    }
}

proof fn lemma_scan_pairs_reachable(s: SearchState, tbl: Seq<Seq<Option<u64>>>, i: int, j: int)
    requires
        reachable_state(s),
    ensures
        reachable_state(scan_pairs(s, tbl, i, j)),
    decreases j - i,
{
    if j > i + 1 {
        lemma_scan_pairs_reachable(s, tbl, i, j - 1);
    }
}

proof fn lemma_scan_pairs_kept_at_time(
    s: SearchState,
    walls: Seq<WallTimes>,
    tbl: Seq<Seq<Option<u64>>>,
    i: int,
    j: int,
)
    requires
        kept_at_time(s, walls, tbl),
        0 <= i,
        j <= walls.len() <= usize::MAX,
    ensures
        kept_at_time(scan_pairs(s, tbl, i, j), walls, tbl),
    decreases j - i,
{
    if j > i + 1 {
        lemma_scan_pairs_kept_at_time(s, walls, tbl, i, j - 1);
        let prev = scan_pairs(s, tbl, i, j - 1);
        match tbl[i][j - 1] {
            Some(t) => lemma_step_kept_at_time(prev, pair(i, j - 1), t, walls, tbl),
            None => {},
        }
    }
}

proof fn lemma_scan_pairs_covers(s: SearchState, tbl: Seq<Seq<Option<u64>>>, i: int, j: int, m: int)
    requires
        reachable_state(s),
        i < m < j,
        tbl[i][m] is Some,
    ensures
        covers(scan_pairs(s, tbl, i, j), pair(i, m), tbl[i][m]->0),
    decreases j - i,
{
    let prev = scan_pairs(s, tbl, i, j - 1);
    lemma_scan_pairs_reachable(s, tbl, i, j - 1);
    if m == j - 1 {
        lemma_step_covers(prev, pair(i, m), tbl[i][m]->0);
    } else {
        lemma_scan_pairs_covers(s, tbl, i, j - 1, m);
        match tbl[i][j - 1] {
            Some(t2) => lemma_step_keeps_cover(prev, pair(i, m), tbl[i][m]->0, pair(i, j - 1), t2),
            None => {},
        }
    }
}

proof fn lemma_scan_ball_keeps_cover(
    s: SearchState,
    walls: Seq<WallTimes>,
    tbl: Seq<Seq<Option<u64>>>,
    i: int,
    c: Collision,
    t: u64,
)
    requires
        covers(s, c, t),
    ensures
        covers(scan_ball(s, walls, tbl, i), c, t),
{
    let w = walls[i];
    let after_x = either_step(s, wall(i, WallOrientation::Vertical), w.min_x, w.max_x);
    let after_y = either_step(after_x, wall(i, WallOrientation::Horizontal), w.min_y, w.max_y);
    lemma_either_keeps_cover(s, c, t, wall(i, WallOrientation::Vertical), w.min_x, w.max_x);
    lemma_either_keeps_cover(after_x, c, t, wall(i, WallOrientation::Horizontal), w.min_y, w.max_y);
    lemma_scan_pairs_keeps_cover(after_y, tbl, i, walls.len() as int, c, t);
}

proof fn lemma_scan_ball_invariants(
    s: SearchState,
    walls: Seq<WallTimes>,
    tbl: Seq<Seq<Option<u64>>>,
    i: int,
)
    requires
        reachable_state(s),
        kept_at_time(s, walls, tbl),
        0 <= i < walls.len() <= usize::MAX,
    ensures
        reachable_state(scan_ball(s, walls, tbl, i)),
        kept_at_time(scan_ball(s, walls, tbl, i), walls, tbl),
{
    let w = walls[i];
    let cx = wall(i, WallOrientation::Vertical);
    let cy = wall(i, WallOrientation::Horizontal);
    let after_x = either_step(s, cx, w.min_x, w.max_x);
    let after_y = either_step(after_x, cy, w.min_y, w.max_y);
    lemma_either_reachable(s, cx, w.min_x, w.max_x);
    lemma_either_reachable(after_x, cy, w.min_y, w.max_y);
    lemma_either_kept_at_time(s, cx, w.min_x, w.max_x, walls, tbl);
    lemma_either_kept_at_time(after_x, cy, w.min_y, w.max_y, walls, tbl);
    lemma_scan_pairs_reachable(after_y, tbl, i, walls.len() as int);
    lemma_scan_pairs_kept_at_time(after_y, walls, tbl, i, walls.len() as int);
}

proof fn lemma_scan_balls_invariants(walls: Seq<WallTimes>, tbl: Seq<Seq<Option<u64>>>, k: int)
    requires
        k <= walls.len() <= usize::MAX,
    ensures
        reachable_state(scan_balls(walls, tbl, k)),
        kept_at_time(scan_balls(walls, tbl, k), walls, tbl),
    decreases k,
{
    if k > 0 {
        lemma_scan_balls_invariants(walls, tbl, k - 1);
        lemma_scan_ball_invariants(scan_balls(walls, tbl, k - 1), walls, tbl, k - 1);
    }
}

proof fn lemma_scan_balls_keeps_cover(
    walls: Seq<WallTimes>,
    tbl: Seq<Seq<Option<u64>>>,
    k1: int,
    k2: int,
    c: Collision,
    t: u64,
)
    requires
        0 <= k1 <= k2,
        covers(scan_balls(walls, tbl, k1), c, t),
    ensures
        covers(scan_balls(walls, tbl, k2), c, t),
    decreases k2,
{
    if k2 > k1 {
        lemma_scan_balls_keeps_cover(walls, tbl, k1, k2 - 1, c, t);
        lemma_scan_ball_keeps_cover(scan_balls(walls, tbl, k2 - 1), walls, tbl, k2 - 1, c, t);
    }
}

/// The earliest collisions are simultaneous: the time found counts and is at
/// most `f64::MAX`, every collision kept is a candidate at that time, and
/// nothing is kept only where the time stayed at `f64::MAX`.
pub proof fn lemma_earliest_collisions_are_simultaneous(
    walls: Seq<WallTimes>,
    tbl: Seq<Seq<Option<u64>>>,
)
    requires
        walls.len() <= usize::MAX,
    ensures
        reachable_state(earliest_collisions(walls, tbl)),
        kept_at_time(earliest_collisions(walls, tbl), walls, tbl),
{
    lemma_scan_balls_invariants(walls, tbl, walls.len() as int);
}

/// No meeting of two balls that counts is earlier than the earliest time
/// found, and every meeting at that time is kept.
pub proof fn lemma_earliest_collisions_cover_meetings(
    walls: Seq<WallTimes>,
    tbl: Seq<Seq<Option<u64>>>,
    i: int,
    j: int,
)
    requires
        0 <= i < j < walls.len() <= usize::MAX,
        tbl[i][j] is Some,
    ensures
        covers(earliest_collisions(walls, tbl), pair(i, j), tbl[i][j]->0),
{
    let before = scan_balls(walls, tbl, i);
    lemma_scan_balls_invariants(walls, tbl, i);
    let w = walls[i];
    let cx = wall(i, WallOrientation::Vertical);
    let cy = wall(i, WallOrientation::Horizontal);
    let after_x = either_step(before, cx, w.min_x, w.max_x);
    let after_y = either_step(after_x, cy, w.min_y, w.max_y);
    lemma_either_reachable(before, cx, w.min_x, w.max_x);
    lemma_either_reachable(after_x, cy, w.min_y, w.max_y);
    lemma_scan_pairs_covers(after_y, tbl, i, walls.len() as int, j);
    lemma_scan_balls_keeps_cover(walls, tbl, i + 1, walls.len() as int, pair(i, j), tbl[i][j]->0);
}

/// No wall hit that counts is earlier than the earliest time found, and every
/// hit at that time is kept. A ball's second wall of an orientation is only
/// looked at where its first one is not kept; it is accounted for where the
/// time of the first one can never count.
pub proof fn lemma_earliest_collisions_cover_walls(
    walls: Seq<WallTimes>,
    tbl: Seq<Seq<Option<u64>>>,
    i: int,
)
    requires
        0 <= i < walls.len() <= usize::MAX,
    ensures
        covers(
            earliest_collisions(walls, tbl),
            wall(i, WallOrientation::Vertical),
            walls[i].min_x,
        ),
        covers(
            earliest_collisions(walls, tbl),
            wall(i, WallOrientation::Horizontal),
            walls[i].min_y,
        ),
        !(TOI_EPSILON_BITS < walls[i].min_x <= NO_COLLISION_BITS) ==> covers(
            earliest_collisions(walls, tbl),
            wall(i, WallOrientation::Vertical),
            walls[i].max_x,
        ),
        !(TOI_EPSILON_BITS < walls[i].min_y <= NO_COLLISION_BITS) ==> covers(
            earliest_collisions(walls, tbl),
            wall(i, WallOrientation::Horizontal),
            walls[i].max_y,
        ),
{
    let n = walls.len() as int;
    let before = scan_balls(walls, tbl, i);
    lemma_scan_balls_invariants(walls, tbl, i);
    let w = walls[i];
    let cx = wall(i, WallOrientation::Vertical);
    let cy = wall(i, WallOrientation::Horizontal);
    let after_x = either_step(before, cx, w.min_x, w.max_x);
    let after_y = either_step(after_x, cy, w.min_y, w.max_y);
    lemma_either_reachable(before, cx, w.min_x, w.max_x);
    // the vertical walls
    lemma_either_covers_first(before, cx, w.min_x, w.max_x);
    lemma_either_keeps_cover(after_x, cx, w.min_x, cy, w.min_y, w.max_y);
    lemma_scan_pairs_keeps_cover(after_y, tbl, i, n, cx, w.min_x);
    lemma_scan_balls_keeps_cover(walls, tbl, i + 1, n, cx, w.min_x);
    if !(TOI_EPSILON_BITS < w.min_x <= NO_COLLISION_BITS) {
        lemma_either_covers_second(before, cx, w.min_x, w.max_x);
        lemma_either_keeps_cover(after_x, cx, w.max_x, cy, w.min_y, w.max_y);
        lemma_scan_pairs_keeps_cover(after_y, tbl, i, n, cx, w.max_x);
        lemma_scan_balls_keeps_cover(walls, tbl, i + 1, n, cx, w.max_x);
    }
    // the horizontal walls
    lemma_either_covers_first(after_x, cy, w.min_y, w.max_y);
    lemma_scan_pairs_keeps_cover(after_y, tbl, i, n, cy, w.min_y);
    lemma_scan_balls_keeps_cover(walls, tbl, i + 1, n, cy, w.min_y);
    if !(TOI_EPSILON_BITS < w.min_y <= NO_COLLISION_BITS) {
        lemma_either_covers_second(after_x, cy, w.min_y, w.max_y);
        lemma_scan_pairs_keeps_cover(after_y, tbl, i, n, cy, w.max_y);
        lemma_scan_balls_keeps_cover(walls, tbl, i + 1, n, cy, w.max_y);
    }
}


/// Where a collision is looked at in the search: `(ball, slot)`, with the
/// vertical walls in slot 0, the horizontal walls in slot 1, and the meeting
/// with ball `j` in slot `2 + j`.
pub open spec fn search_position(c: Collision) -> (int, int) {
    match c {
        Collision::BallToWall { n, orientation } => (
            n as int,
            match orientation {
                WallOrientation::Vertical => 0,
                WallOrientation::Horizontal => 1,
            },
        ),
        Collision::BallToBall { n1, n2 } => (n1 as int, 2 + n2 as int),
    }
}

/// Lexicographic order on search positions.
pub open spec fn position_lt(a: (int, int), b: (int, int)) -> bool {
    a.0 < b.0 || (a.0 == b.0 && a.1 < b.1)
}

/// `c1` is looked at strictly before `c2`: an earlier ball, or the same
/// ball's walls before its meetings, vertical before horizontal, meetings in
/// the order of the other ball.
pub open spec fn comes_before(c1: Collision, c2: Collision) -> bool {
    position_lt(search_position(c1), search_position(c2))
}

/// The collisions kept are strictly in search order, and all lie before `p`.
pub open spec fn ordered_before(s: SearchState, p: (int, int)) -> bool {
    &&& forall|k1: int, k2: int|
        0 <= k1 < k2 < s.0.len() ==> comes_before(#[trigger] s.0[k1], #[trigger] s.0[k2])
    &&& forall|k: int| 0 <= k < s.0.len() ==> position_lt(search_position(#[trigger] s.0[k]), p)
}

/// Offering a candidate keeps it at most once: a kept candidate either
/// replaces the whole list, leaving it alone, or is appended once after the
/// collisions already kept; a dropped candidate changes nothing.
pub proof fn lemma_offer_adds_once(s: SearchState, c: Collision, toi: u64)
    ensures
        ({
            let r = offer_step(s, c, toi);
            &&& TOI_EPSILON_BITS < toi <= s.1 && toi < s.1 ==> r.0.len() == 1 && r.0[0] == c
            &&& TOI_EPSILON_BITS < toi <= s.1 && toi == s.1 ==> r.0.len() == s.0.len() + 1
                && r.0.last() == c && r.0.subrange(0, s.0.len() as int) == s.0
            &&& !(TOI_EPSILON_BITS < toi <= s.1) ==> r == s
            &&& r.0.no_duplicates() <== s.0.no_duplicates() && !s.0.contains(c)
        }),
{
    let r = offer_step(s, c, toi);
    if TOI_EPSILON_BITS < toi <= s.1 && toi == s.1 {
        assert(r.0.subrange(0, s.0.len() as int) =~= s.0);
    }
    if s.0.no_duplicates() && !s.0.contains(c) && accepts(s.1, toi) && toi == s.1 {
        assert forall|k1: int, k2: int| 0 <= k1 < r.0.len() && 0 <= k2 < r.0.len() && k1 != k2 implies r.0[k1]
            != r.0[k2] by {
            if k1 == s.0.len() {
                assert(r.0[k2] == s.0[k2]);
            } else if k2 == s.0.len() {
                assert(r.0[k1] == s.0[k1]);
            } else {
                assert(r.0[k1] == s.0[k1] && r.0[k2] == s.0[k2]);
            }
        }
    }
}

/// A wall hit offered with its two times is kept at most once: the list
/// becomes the hit alone, the old list with the hit appended once, or stays.
pub proof fn lemma_offer_either_adds_once(s: SearchState, c: Collision, first: u64, second: u64)
    ensures
        ({
            let r = either_step(s, c, first, second);
            ||| r == s
            ||| r.0 == seq![c]
            ||| r.0 == s.0.push(c)
        }),
        TOI_EPSILON_BITS < first <= s.1 ==> either_step(s, c, first, second).1 == first,
        !(TOI_EPSILON_BITS < first <= s.1) && TOI_EPSILON_BITS < second <= s.1 ==> either_step(
            s,
            c,
            first,
            second,
        ).1 == second,
        !(TOI_EPSILON_BITS < first <= s.1) && !(TOI_EPSILON_BITS < second <= s.1) ==> either_step(
            s,
            c,
            first,
            second,
        ) == s,
{
}

proof fn lemma_step_ordered(s: SearchState, c: Collision, t: u64, q: (int, int))
    requires
        ordered_before(s, search_position(c)),
        position_lt(search_position(c), q),
    ensures
        ordered_before(offer_step(s, c, t), q),
{
    let r = offer_step(s, c, t);
    if accepts(s.1, t) {
        if t < s.1 {
            assert(r.0[0] == c);
        } else {
            assert forall|k1: int, k2: int| 0 <= k1 < k2 < r.0.len() implies comes_before(
                #[trigger] r.0[k1],
                #[trigger] r.0[k2],
            ) by {
                assert(r.0[k1] == s.0[k1]);
                if k2 < s.0.len() {
                    assert(r.0[k2] == s.0[k2]);
                } else {
                    assert(r.0[k2] == c);
                }
            }
            assert forall|k: int| 0 <= k < r.0.len() implies position_lt(
                search_position(#[trigger] r.0[k]),
                q,
            ) by {
                if k < s.0.len() {
                    assert(r.0[k] == s.0[k]);
                } else {
                    assert(r.0[k] == c);
                }
            }
        }
    }
}

proof fn lemma_scan_pairs_ordered(s: SearchState, tbl: Seq<Seq<Option<u64>>>, i: int, j: int)
    requires
        0 <= i < j <= usize::MAX + 1,
        i <= usize::MAX,
        ordered_before(s, (i, 2 + i + 1)),
    ensures
        ordered_before(scan_pairs(s, tbl, i, j), (i, 2 + j)),
    decreases j - i,
{
    if j > i + 1 {
        lemma_scan_pairs_ordered(s, tbl, i, j - 1);
        let prev = scan_pairs(s, tbl, i, j - 1);
        match tbl[i][j - 1] {
            Some(t) => {
                assert(search_position(pair(i, j - 1)) == (i, 2 + j - 1));
                lemma_step_ordered(prev, pair(i, j - 1), t, (i, 2 + j));
            },
            None => {},
        }
    }
}

proof fn lemma_scan_balls_ordered(walls: Seq<WallTimes>, tbl: Seq<Seq<Option<u64>>>, k: int)
    requires
        0 <= k <= walls.len() <= usize::MAX,
    ensures
        ordered_before(scan_balls(walls, tbl, k), (k, 0)),
    decreases k,
{
    if k > 0 {
        let i = k - 1;
        lemma_scan_balls_ordered(walls, tbl, i);
        let s = scan_balls(walls, tbl, i);
        let w = walls[i];
        let cx = wall(i, WallOrientation::Vertical);
        let cy = wall(i, WallOrientation::Horizontal);
        assert(search_position(cx) == (i, 0int));
        assert(search_position(cy) == (i, 1int));
        let after_x = either_step(s, cx, w.min_x, w.max_x);
        lemma_step_ordered(s, cx, w.min_x, (i, 1int));
        lemma_step_ordered(s, cx, w.max_x, (i, 1int));
        let after_y = either_step(after_x, cy, w.min_y, w.max_y);
        lemma_step_ordered(after_x, cy, w.min_y, (i, 2 + i + 1));
        lemma_step_ordered(after_x, cy, w.max_y, (i, 2 + i + 1));
        lemma_scan_pairs_ordered(after_y, tbl, i, walls.len() as int);
        let r = scan_balls(walls, tbl, k);
        assert forall|m: int| 0 <= m < r.0.len() implies position_lt(
            search_position(#[trigger] r.0[m]),
            (k, 0),
        ) by {
            assert(position_lt(search_position(r.0[m]), (i, 2 + walls.len() as int)));
        }
    }
}

/// The earliest collisions are listed in the order the search looks at them
/// (ball by ball; a ball's vertical walls, then its horizontal walls, then its
/// meetings with later balls in their order), so none is listed twice.
pub proof fn lemma_earliest_collisions_are_in_ball_order(
    walls: Seq<WallTimes>,
    tbl: Seq<Seq<Option<u64>>>,
)
    requires
        walls.len() <= usize::MAX,
    ensures
        forall|k1: int, k2: int|
            0 <= k1 < k2 < earliest_collisions(walls, tbl).0.len() ==> comes_before(
                #[trigger] earliest_collisions(walls, tbl).0[k1],
                #[trigger] earliest_collisions(walls, tbl).0[k2],
            ),
        earliest_collisions(walls, tbl).0.no_duplicates(),
{
    let r = earliest_collisions(walls, tbl);
    lemma_scan_balls_ordered(walls, tbl, walls.len() as int);
    assert forall|k1: int, k2: int| 0 <= k1 < r.0.len() && 0 <= k2 < r.0.len() && k1 != k2 implies r.0[k1]
        != r.0[k2] by {
        if k1 < k2 {
            assert(comes_before(r.0[k1], r.0[k2]));
        } else {
            assert(comes_before(r.0[k2], r.0[k1]));
        }
    }
}

} // verus!
