//! The simulation core: cell states, the world grid, the room-hotness
//! overlay, and the per-frame physics pass.

use vstd::arithmetic::div_mod::{
    lemma_fundamental_div_mod, lemma_fundamental_div_mod_converse, lemma_mod_bound,
    lemma_multiply_divide_lt,
};
use vstd::arithmetic::mul::{
    lemma_mul_inequality, lemma_mul_is_commutative, lemma_mul_is_distributive_add,
};
use vstd::prelude::*;

use crate::datatype::{decay1, GridMap, Rgba, Vector2};
use crate::rng::{coin, pick_in_range, rng_from_entropy, rng_from_seed, shuffle_values};

verus! {

broadcast use vstd::seq_lib::lemma_seq_contains_after_push;

/// Fixed-point scale for particle velocity: this many units are one cell per
/// frame.
pub const SPEED_SCALE: i64 = 100;

/// Downward acceleration per frame, in fixed-point units: 0.15 cell.
pub const GRAVITY: i64 = 15;

/// Cap on fixed-point vertical speed, so a long free fall cannot run the
/// counter out of its machine range.
pub const SPEED_LIMIT: i64 = 1_000_000;

/// Hotness given to a room when one of its cells is written: the room keeps
/// simulating for this many frames after its last write.
pub const HOT_FRAMES: usize = 12;

/// Rooms per axis of the activity overlay.
pub const ROOM_COUNT: usize = 16;

/// What a moving particle carries: a fixed-point velocity and a display
/// color.
#[derive(Clone, Copy, PartialEq, Eq, Debug)]
pub struct ParticleData {
    pub speed: Vector2<i64>,
    pub color: Rgba,
}

/// One grid cell: empty space, falling sand, or an immovable block.
#[derive(Clone, Copy, PartialEq, Eq, Debug)]
pub enum CellType {
    Empty,
    Sand(ParticleData),
    Block(ParticleData),
}

impl CellType {
    /// True of the empty cell.
    pub fn is_empty(&self) -> (r: bool)
        ensures
            r <==> (self is Empty),
    {
        matches!(self, CellType::Empty)
    }
}

/// The coordinate pair `(x, y)` as a touched-cell list entry.
pub open spec fn vec2(x: int, y: int) -> Vector2<usize> {
    Vector2 { x: x as usize, y: y as usize }
}

/// What one frame does to the grid, stated over the list of touched
/// coordinates that `process_frame` returns. The list alternates the source
/// and the destination of each committed move: a source went from sand to
/// empty, a destination from empty to sand, each destination lies strictly
/// below its source and within four columns of it, each move obeys
/// `move_ok` — the fall, slide and wedge-jump rules, with the particle's
/// color kept and its velocity updated per rule — no coordinate is listed
/// twice (each cell is written at most once per frame), and every cell off
/// the list is untouched.
pub open spec fn frame_moves_ok(pre: World, cur: World, moved: Seq<Vector2<usize>>) -> bool {
    &&& moved.len() % 2 == 0
    &&& forall|i: int|
        #![trigger moved[i]]
        0 <= i < moved.len() ==> pre.in_bounds(moved[i].x as int, moved[i].y as int)
    &&& forall|i: int, j: int|
        #![trigger moved[i], moved[j]]
        0 <= i < j < moved.len() ==> moved[i] != moved[j]
    &&& forall|i: int|
        #![trigger moved[i]]
        0 <= i < moved.len() && i % 2 == 0 ==> pre.cell(moved[i].x as int, moved[i].y as int)
            is Sand && cur.cell(moved[i].x as int, moved[i].y as int) is Empty
    &&& forall|i: int|
        #![trigger moved[i]]
        0 <= i < moved.len() && i % 2 == 1 ==> pre.cell(moved[i].x as int, moved[i].y as int)
            is Empty && cur.cell(moved[i].x as int, moved[i].y as int) is Sand
    &&& forall|i: int|
        #![trigger moved[i], moved[i + 1]]
        0 <= i && i % 2 == 0 && i + 1 < moved.len() ==> moved[i].y < moved[i + 1].y && moved[i
            + 1].x <= moved[i].x + 4 && moved[i].x <= moved[i + 1].x + 4
    &&& forall|i: int|
        #![trigger moved[i], moved[i + 1]]
        0 <= i && i % 2 == 0 && i + 1 < moved.len() ==> move_ok(
            pre,
            moved,
            moved[i],
            moved[i + 1],
            particle_of(pre.cell(moved[i].x as int, moved[i].y as int)),
            particle_of(cur.cell(moved[i + 1].x as int, moved[i + 1].y as int)),
        )
    &&& forall|x: int, y: int|
        #![trigger cur.cell(x, y)]
        pre.in_bounds(x, y) && !moved.contains(vec2(x, y)) ==> cur.cell(x, y) == pre.cell(x, y)
}

/// The within-frame invariant: the moves so far form a valid frame, and the
/// dirty mask holds exactly the coordinates already written this frame.
pub open spec fn frame_inv(
    pre: World,
    cur: World,
    dirty: GridMap<bool>,
    moved: Seq<Vector2<usize>>,
) -> bool {
    &&& frame_moves_ok(pre, cur, moved)
    &&& dirty.wf()
    &&& dirty.spec_width() == pre.spec_width()
    &&& dirty.spec_height() == pre.spec_height()
    &&& forall|x: int, y: int|
        #![trigger dirty.at(x, y)]
        pre.in_bounds(x, y) ==> (dirty.at(x, y) <==> moved.contains(vec2(x, y)))
}

/// No cell anywhere holds sand: only solids and empty space.
pub open spec fn no_sand(w: World) -> bool {
    forall|x: int, y: int|
        #![trigger w.cell(x, y)]
        w.in_bounds(x, y) ==> !(w.cell(x, y) is Sand)
}

/// Some touched coordinate lies in room `(rx, ry)`.
pub open spec fn room_touched(
    pre: World,
    moved: Seq<Vector2<usize>>,
    rx: int,
    ry: int,
) -> bool {
    exists|i: int|
        #![trigger moved[i]]
        0 <= i < moved.len() && pre.room_of(moved[i].x as int, moved[i].y as int) == (rx, ry)
}

/// What one frame does to the hotness overlay: every room decays by one,
/// then every room that contains a touched coordinate is re-armed to
/// `HOT_FRAMES`.
pub open spec fn frame_hotness_ok(pre: World, cur: World, moved: Seq<Vector2<usize>>) -> bool {
    forall|rx: int, ry: int|
        #![trigger cur.hotness(rx, ry)]
        World::room_in_bounds(rx, ry) ==> cur.hotness(rx, ry) == if room_touched(
            pre,
            moved,
            rx,
            ry,
        ) {
            HOT_FRAMES
        } else {
            decay1(pre.hotness(rx, ry))
        }
}

/// Every move's source lies in a room that was still hot after this frame's
/// decay: cells of quiescent rooms are never picked up and moved.
pub open spec fn frame_sources_hot(pre: World, moved: Seq<Vector2<usize>>) -> bool {
    forall|i: int|
        #![trigger moved[i]]
        0 <= i < moved.len() && i % 2 == 0 ==> decay1(
            pre.hotness(
                pre.room_of(moved[i].x as int, moved[i].y as int).0,
                pre.room_of(moved[i].x as int, moved[i].y as int).1,
            ),
        ) > 0
}

/// The gravity step on a fixed-point vertical speed: add `GRAVITY`, capped
/// at `SPEED_LIMIT`.
pub open spec fn after_gravity(v: i64) -> i64 {
    if v <= SPEED_LIMIT - GRAVITY {
        (v + GRAVITY) as i64
    } else {
        SPEED_LIMIT
    }
}

/// The farthest whole-cell distance a fixed-point speed can cover in one
/// frame: its value in cells, rounded up.
pub open spec fn fall_span(v: i64) -> int {
    if v <= 0 {
        0
    } else {
        (v + (SPEED_SCALE - 1)) / (SPEED_SCALE as int)
    }
}

/// The payload of a sand or block cell.
pub open spec fn particle_of(c: CellType) -> ParticleData
    recommends
        !(c is Empty),
{
    match c {
        CellType::Empty => ParticleData {
            speed: Vector2 { x: 0, y: 0 },
            color: Rgba { r: 0, g: 0, b: 0, a: 0 },
        },
        CellType::Sand(d) => d,
        CellType::Block(d) => d,
    }
}

/// One committed move, judged from the frame-start grid and the frame's
/// full touched list: where the particle may land, what the cells its rule
/// depended on held, and the velocity and color it carries along. The pass
/// reads cells mid-frame, and a mid-frame read shows the frame-start value
/// unless the cell was written earlier in the frame — hence the "or
/// touched" alternatives.
pub open spec fn move_ok(
    pre: World,
    moved: Seq<Vector2<usize>>,
    src: Vector2<usize>,
    dst: Vector2<usize>,
    before: ParticleData,
    after: ParticleData,
) -> bool {
    let x = src.x as int;
    let y = src.y as int;
    let nx = dst.x as int;
    let ny = dst.y as int;
    let v = after_gravity(before.speed.y);
    &&& after.color == before.color
    &&& after.speed.x == before.speed.x
    &&& if nx == x {
        // vertical: within this frame's scan range, every row down to the
        // destination was clear; speed kept on a free fall, damped to a
        // tenth on a landing above an obstruction
        &&& y < ny <= y + fall_span(v)
        &&& forall|k: int|
            y < k <= ny ==> pre.cell(x, k) is Empty || moved.contains(vec2(x, k))
        &&& (after.speed.y == v || after.speed.y == v / 10)
    } else if ny == y + 1 && (nx == x + 1 || nx == x - 1) {
        // diagonal slide: one row down into a clear corner, speed kept
        after.speed.y == v
    } else {
        // lateral jump out of a vertical wedge: 2 to 4 columns sideways and
        // one row down, pinned above and below, the mirrored offset
        // blocked, speed reset to one cell per frame
        &&& ny == y + 1
        &&& 0 < y
        &&& (2 <= nx - x <= 4 || 2 <= x - nx <= 4)
        &&& !(pre.cell(x, y + 1) is Empty) || moved.contains(vec2(x, y + 1))
        &&& !(pre.cell(x, y - 1) is Empty) || moved.contains(vec2(x, y - 1))
        &&& 0 <= 2 * x - nx < pre.spec_width()
        &&& !(pre.cell(2 * x - nx, y + 1) is Empty) || moved.contains(vec2(2 * x - nx, y + 1))
        &&& after.speed.y == SPEED_SCALE
    }
}

/// `move_ok` as the pass itself sees a move, judged over the grid at move
/// time, before mid-frame reads are related back to frame-start values.
spec fn staged_move_ok(
    w: World,
    x: int,
    y: int,
    before: ParticleData,
    p: Vector2<usize>,
    after: ParticleData,
) -> bool {
    let nx = p.x as int;
    let ny = p.y as int;
    let v = after_gravity(before.speed.y);
    &&& after.color == before.color
    &&& after.speed.x == before.speed.x
    &&& if nx == x {
        &&& y < ny <= y + fall_span(v)
        &&& forall|k: int| y < k <= ny ==> w.cell(x, k) is Empty
        &&& (after.speed.y == v || after.speed.y == v / 10)
    } else if ny == y + 1 && (nx == x + 1 || nx == x - 1) {
        after.speed.y == v
    } else {
        &&& ny == y + 1
        &&& 0 < y
        &&& (2 <= nx - x <= 4 || 2 <= x - nx <= 4)
        &&& !(w.cell(x, y + 1) is Empty)
        &&& !(w.cell(x, y - 1) is Empty)
        &&& 0 <= 2 * x - nx < w.spec_width()
        &&& !(w.cell(2 * x - nx, y + 1) is Empty)
        &&& after.speed.y == SPEED_SCALE
    }
}

/// `move_ok` mentions the touched list only positively, so it survives the
/// list growing.
proof fn lemma_move_ok_grows(
    pre: World,
    m1: Seq<Vector2<usize>>,
    m2: Seq<Vector2<usize>>,
    src: Vector2<usize>,
    dst: Vector2<usize>,
    before: ParticleData,
    after: ParticleData,
)
    requires
        move_ok(pre, m1, src, dst, before, after),
        m1.is_prefix_of(m2),
    ensures
        move_ok(pre, m2, src, dst, before, after),
{
    assert forall|v: Vector2<usize>| m1.contains(v) implies #[trigger] m2.contains(v) by {
        let i = choose|i: int| 0 <= i < m1.len() && m1[i] == v;
        assert(m1[i] == m2.subrange(0, m1.len() as int)[i]);
        assert(m2[i] == v);
    }
    if dst.x as int == src.x as int {
        assert forall|k: int| src.y < k <= dst.y implies pre.cell(src.x as int, k) is Empty
            || m2.contains(vec2(src.x as int, k)) by {}
    }
}

/// A mid-frame read shows a cell's frame-start value unless the cell is on
/// the touched list, so a move the pass staged satisfies `move_ok` once its
/// own two coordinates join the list.
proof fn lemma_staged_move_ok(
    pre: World,
    cur: World,
    dirty: GridMap<bool>,
    moved: Seq<Vector2<usize>>,
    x: int,
    y: int,
    before: ParticleData,
    p: Vector2<usize>,
    after: ParticleData,
)
    requires
        frame_inv(pre, cur, dirty, moved),
        pre.spec_width() == cur.spec_width(),
        pre.spec_height() == cur.spec_height(),
        staged_move_ok(cur, x, y, before, p, after),
        0 <= x < pre.spec_width(),
        0 <= y < pre.spec_height(),
        p.x < pre.spec_width(),
        p.y < pre.spec_height(),
    ensures
        move_ok(pre, moved.push(vec2(x, y)).push(p), vec2(x, y), p, before, after),
{
    let m2 = moved.push(vec2(x, y)).push(p);
    assert forall|a: int, b: int|
        #![trigger cur.cell(a, b)]
        pre.in_bounds(a, b) && cur.cell(a, b) != pre.cell(a, b) implies m2.contains(
        vec2(a, b),
    ) by {
        assert(moved.contains(vec2(a, b)));
    }
    if p.x as int == x {
        assert forall|k: int| y < k <= p.y as int implies pre.cell(x, k) is Empty
            || m2.contains(vec2(x, k)) by {
            assert(cur.cell(x, k) is Empty);
        }
    }
}

/// A particle that commits a move under every random draw: sand above the
/// bottom row with a clear landing on at least one lower diagonal. Whatever
/// the scan range, the obstruction, the wedge offset and the tie-breaks
/// come out, either this particle moves or a cell its rule depends on was
/// already written this frame; both make the frame's touched list
/// non-empty.
pub open spec fn must_move(w: World, x: int, y: int) -> bool {
    &&& 0 <= x < w.spec_width()
    &&& 0 <= y && y + 1 < w.spec_height()
    &&& w.cell(x, y) is Sand
    &&& ((1 <= x && w.cell(x - 1, y + 1) is Empty) || (x + 1 < w.spec_width() && w.cell(
        x + 1,
        y + 1,
    ) is Empty))
}

/// A well-formed world's hotness counters never exceed `HOT_FRAMES`.
pub proof fn lemma_wf_hotness_bounded(w: World)
    requires
        w.wf(),
    ensures
        forall|rx: int, ry: int|
            #![trigger w.hotness(rx, ry)]
            World::room_in_bounds(rx, ry) ==> w.hotness(rx, ry) <= HOT_FRAMES,
{
}

/// A world of solids and empty space alone never changes: with nothing to
/// move, a frame leaves every cell as it was, every room's hotness only
/// decays — no room is ever re-armed — and the world still holds no sand,
/// so the same goes for every later frame.
pub proof fn lemma_no_sand_frame(pre: World, post: World, moved: Seq<Vector2<usize>>)
    requires
        no_sand(pre),
        moved.len() == 0,
        post.spec_width() == pre.spec_width(),
        post.spec_height() == pre.spec_height(),
        frame_moves_ok(pre, post, moved),
        frame_hotness_ok(pre, post, moved),
    ensures
        forall|x: int, y: int|
            #![trigger post.cell(x, y)]
            pre.in_bounds(x, y) ==> post.cell(x, y) == pre.cell(x, y),
        forall|rx: int, ry: int|
            #![trigger post.hotness(rx, ry)]
            World::room_in_bounds(rx, ry) ==> post.hotness(rx, ry) == decay1(
                pre.hotness(rx, ry),
            ),
        no_sand(post),
{
    assert forall|x: int, y: int| #![trigger post.cell(x, y)] pre.in_bounds(x, y) implies
        post.cell(x, y) == pre.cell(x, y) by {
        assert(!moved.contains(vec2(x, y)));
    }
    assert forall|rx: int, ry: int| #![trigger post.hotness(rx, ry)] World::room_in_bounds(
        rx,
        ry,
    ) implies post.hotness(rx, ry) == decay1(pre.hotness(rx, ry)) by {
        assert(!room_touched(pre, moved, rx, ry));
    }
    assert forall|x: int, y: int| #![trigger post.cell(x, y)] post.in_bounds(x, y) implies !(
    post.cell(x, y) is Sand) by {
        assert(post.cell(x, y) == pre.cell(x, y));
        assert(!(pre.cell(x, y) is Sand));
    }
}

/// A hotness counter after `n` further frames in which its room takes no
/// write: one decay step per frame.
pub open spec fn decay_n(c: usize, n: nat) -> usize
    decreases n,
{
    if n == 0 {
        c
    } else {
        decay_n(decay1(c), (n - 1) as nat)
    }
}

/// A room with no writes for as many frames as its counter holds reaches
/// hotness 0 and stays at 0 until its next write.
pub proof fn lemma_decay_reaches_zero(c: usize, n: nat)
    requires
        c <= n,
    ensures
        decay_n(c, n) == 0,
    decreases n,
{
    if n > 0 {
        lemma_decay_reaches_zero(decay1(c), (n - 1) as nat);
    }
}

/// Every counter a well-formed world can hold is at most `HOT_FRAMES`
/// (see `wf`), so a room with no writes for `HOT_FRAMES` consecutive
/// frames is at 0 and stays there.
pub proof fn lemma_room_cools_within_hot_frames(c: usize, n: nat)
    requires
        c <= HOT_FRAMES,
        HOT_FRAMES <= n,
    ensures
        decay_n(c, n) == 0,
{
    lemma_decay_reaches_zero(c, n);
}

/// A solid or sand cell inside a room that is quiescent as the frame starts
/// (its counter decays to 0 before the rooms run) is untouched by the
/// frame: such a room is skipped, so only its empty cells can change, by a
/// particle arriving from a neighboring hot room.
pub proof fn lemma_quiescent_room_cell_kept(
    pre: World,
    post: World,
    moved: Seq<Vector2<usize>>,
    x: int,
    y: int,
)
    requires
        frame_moves_ok(pre, post, moved),
        frame_sources_hot(pre, moved),
        pre.in_bounds(x, y),
        !(pre.cell(x, y) is Empty),
        decay1(pre.hotness(pre.room_of(x, y).0, pre.room_of(x, y).1)) == 0,
    ensures
        post.cell(x, y) == pre.cell(x, y),
{
    if moved.contains(vec2(x, y)) {
        let i = choose|i: int| 0 <= i < moved.len() && moved[i] == vec2(x, y);
        assert(moved[i] == vec2(x, y));
        assert(moved[i].x as int == x && moved[i].y as int == y);
        assert(i % 2 == 0 || i % 2 == 1);
        if i % 2 == 0 {
            assert(decay1(
                pre.hotness(
                    pre.room_of(moved[i].x as int, moved[i].y as int).0,
                    pre.room_of(moved[i].x as int, moved[i].y as int).1,
                ),
            ) > 0);
            assert(false);
        } else {
            assert(pre.cell(moved[i].x as int, moved[i].y as int) is Empty);
            assert(false);
        }
    }
}

/// A change that leaves the cell grid itself untouched (a draw from the
/// random source) preserves the within-frame invariant.
proof fn lemma_frame_inv_same_grid(
    pre: World,
    a: World,
    b: World,
    dirty: GridMap<bool>,
    moved: Seq<Vector2<usize>>,
)
    requires
        frame_inv(pre, a, dirty, moved),
        b.grid == a.grid,
    ensures
        frame_inv(pre, b, dirty, moved),
{
    assert forall|x: int, y: int| #![trigger b.cell(x, y)] true implies b.cell(x, y) == a.cell(
        x,
        y,
    ) by {}
}

/// Prefix order on sequences is transitive.
proof fn lemma_prefix_trans<T>(a: Seq<T>, b: Seq<T>, c: Seq<T>)
    requires
        a.is_prefix_of(b),
        b.is_prefix_of(c),
    ensures
        a.is_prefix_of(c),
{
    assert(c.subrange(0, a.len() as int) =~= a) by {
        assert forall|i: int| 0 <= i < a.len() implies c.subrange(0, a.len() as int)[i]
            == a[i] by {
            assert(a[i] == b.subrange(0, a.len() as int)[i]);
            assert(b[i] == c.subrange(0, b.len() as int)[i]);
        }
    }
}

/// A coordinate between `r * side` and `(r + 1) * side` lies in room `r`.
proof fn lemma_div_in_room(v: int, side: int, r: int)
    requires
        1 <= side,
        0 <= r,
        r * side <= v,
        v < (r + 1) * side,
    ensures
        v / side == r,
{
    lemma_mul_is_commutative(r + 1, side);
    lemma_mul_is_commutative(r, side);
    lemma_mul_is_distributive_add(side, r, 1);
    lemma_fundamental_div_mod_converse(v, side, r, v - r * side);
}

/// Conversely, a coordinate lies between its room's two multiples of the
/// room side.
proof fn lemma_room_bounds(v: int, side: int)
    requires
        1 <= side,
        0 <= v,
    ensures
        (v / side) * side <= v,
        v < (v / side + 1) * side,
{
    lemma_fundamental_div_mod(v, side);
    lemma_mod_bound(v, side);
    lemma_mul_is_commutative(v / side, side);
    lemma_mul_is_commutative(v / side + 1, side);
    lemma_mul_is_distributive_add(side, v / side, 1);
}

/// No room's hotness counter ever exceeds `HOT_FRAMES`: counters are only
/// ever set to `HOT_FRAMES` or decremented.
pub open spec fn counters_bounded(g: GridMap<usize>) -> bool {
    forall|rx: int, ry: int|
        #![trigger g.at(rx, ry)]
        World::room_in_bounds(rx, ry) ==> g.at(rx, ry) <= HOT_FRAMES
}

/// Side of a room along one axis: the grid length divided by the room count,
/// rounded up. Well-defined for `n >= 1`.
pub open spec fn room_side(n: usize) -> int {
    (n - 1) / (ROOM_COUNT as int) + 1
}

/// The world: the dense cell grid, the coarse room-hotness overlay that
/// limits each frame's work to recently written regions, and the random
/// source for tie-breaks.
pub struct World {
    world_rng: rand::rngs::StdRng,
    grid_rooms_hotness: GridMap<usize>,
    room_size: Vector2<usize>,
    grid: GridMap<CellType>,
}

impl World {
    pub closed spec fn spec_width(&self) -> usize {
        self.grid.spec_width()
    }

    pub closed spec fn spec_height(&self) -> usize {
        self.grid.spec_height()
    }

    /// The cell at `(x, y)`.
    pub closed spec fn cell(&self, x: int, y: int) -> CellType {
        self.grid.at(x, y)
    }

    /// The hotness counter of room `(rx, ry)`.
    pub closed spec fn hotness(&self, rx: int, ry: int) -> usize {
        self.grid_rooms_hotness.at(rx, ry)
    }

    /// Cell side of one room, per axis.
    pub closed spec fn spec_room_size(&self) -> Vector2<usize> {
        self.room_size
    }

    pub open spec fn in_bounds(&self, x: int, y: int) -> bool {
        0 <= x < self.spec_width() && 0 <= y < self.spec_height()
    }

    pub open spec fn room_in_bounds(rx: int, ry: int) -> bool {
        0 <= rx < ROOM_COUNT && 0 <= ry < ROOM_COUNT
    }

    /// The room that the cell at `(x, y)` belongs to.
    pub open spec fn room_of(&self, x: int, y: int) -> (int, int) {
        (x / self.spec_room_size().x as int, y / self.spec_room_size().y as int)
    }

    pub closed spec fn wf(&self) -> bool {
        &&& self.grid.wf()
        &&& self.grid_rooms_hotness.wf()
        &&& self.grid_rooms_hotness.spec_width() == ROOM_COUNT
        &&& self.grid_rooms_hotness.spec_height() == ROOM_COUNT
        &&& 1 <= self.spec_width()
        &&& 1 <= self.spec_height()
        &&& self.spec_width() * self.spec_height() <= usize::MAX
        &&& 1 <= self.room_size.x
        &&& 1 <= self.room_size.y
        &&& self.spec_width() <= ROOM_COUNT * self.room_size.x
        &&& self.spec_height() <= ROOM_COUNT * self.room_size.y
        &&& ROOM_COUNT * self.room_size.x <= self.spec_width() + ROOM_COUNT - 1
        &&& ROOM_COUNT * self.room_size.y <= self.spec_height() + ROOM_COUNT - 1
        &&& self.spec_width() + ROOM_COUNT <= usize::MAX
        &&& self.spec_height() + ROOM_COUNT <= usize::MAX
        &&& self.room_size.x == room_side(self.spec_width())
        &&& self.room_size.y == room_side(self.spec_height())
        &&& counters_bounded(self.grid_rooms_hotness)
    }

    /// An in-bounds cell's room is an in-bounds room.
    pub proof fn lemma_room_of_in_bounds(&self, x: int, y: int)
        requires
            self.wf(),
            self.in_bounds(x, y),
        ensures
            Self::room_in_bounds(self.room_of(x, y).0, self.room_of(x, y).1),
    {
        let sx = self.spec_room_size().x as int;
        let sy = self.spec_room_size().y as int;
        lemma_multiply_divide_lt(x, sx, ROOM_COUNT as int);
        lemma_multiply_divide_lt(y, sy, ROOM_COUNT as int);
        assert(sx * ROOM_COUNT == ROOM_COUNT * sx) by (nonlinear_arith);
        assert(sy * ROOM_COUNT == ROOM_COUNT * sy) by (nonlinear_arith);
        vstd::arithmetic::div_mod::lemma_div_pos_is_pos(x, sx);
        vstd::arithmetic::div_mod::lemma_div_pos_is_pos(y, sy);
    }

    /// A grid length of `n >= 1` is covered by `ROOM_COUNT` rooms of side
    /// `room_side(n)`.
    proof fn lemma_room_side_covers(n: usize)
        requires
            1 <= n,
        ensures
            1 <= room_side(n),
            n <= ROOM_COUNT * room_side(n),
            ROOM_COUNT * room_side(n) <= n + ROOM_COUNT - 1,
    {
        let c = ROOM_COUNT as int;
        lemma_fundamental_div_mod(n - 1, c);
        lemma_mod_bound(n - 1, c);
    }

    pub fn new(width: usize, height: usize) -> (r: World)
        requires
            1 <= width,
            1 <= height,
            width * height <= usize::MAX,
            width + ROOM_COUNT <= usize::MAX,
            height + ROOM_COUNT <= usize::MAX,
        ensures
            r.wf(),
            r.spec_width() == width,
            r.spec_height() == height,
            forall|x: int, y: int| r.in_bounds(x, y) ==> r.cell(x, y) == CellType::Empty,
            forall|rx: int, ry: int| Self::room_in_bounds(rx, ry) ==> r.hotness(rx, ry) == 0,
            r.spec_room_size().x == room_side(width),
            r.spec_room_size().y == room_side(height),
    {
        let rng = rng_from_entropy();
        Self::build(width, height, rng)
    }

    /// Like `new`, but with every random tie-break drawn from a generator
    /// seeded with `seed`, so that a run can be repeated.
    pub fn new_seeded(width: usize, height: usize, seed: u64) -> (r: World)
        requires
            1 <= width,
            1 <= height,
            width * height <= usize::MAX,
            width + ROOM_COUNT <= usize::MAX,
            height + ROOM_COUNT <= usize::MAX,
        ensures
            r.wf(),
            r.spec_width() == width,
            r.spec_height() == height,
            forall|x: int, y: int| r.in_bounds(x, y) ==> r.cell(x, y) == CellType::Empty,
            forall|rx: int, ry: int| Self::room_in_bounds(rx, ry) ==> r.hotness(rx, ry) == 0,
            r.spec_room_size().x == room_side(width),
            r.spec_room_size().y == room_side(height),
    {
        let rng = rng_from_seed(seed);
        Self::build(width, height, rng)
    }

    fn build(width: usize, height: usize, rng: rand::rngs::StdRng) -> (r: World)
        requires
            1 <= width,
            1 <= height,
            width * height <= usize::MAX,
            width + ROOM_COUNT <= usize::MAX,
            height + ROOM_COUNT <= usize::MAX,
        ensures
            r.wf(),
            r.spec_width() == width,
            r.spec_height() == height,
            forall|x: int, y: int| r.in_bounds(x, y) ==> r.cell(x, y) == CellType::Empty,
            forall|rx: int, ry: int| Self::room_in_bounds(rx, ry) ==> r.hotness(rx, ry) == 0,
            r.spec_room_size().x == room_side(width),
            r.spec_room_size().y == room_side(height),
    {
        let grid = GridMap::new(width, height, CellType::Empty);
        let hotness = GridMap::new(ROOM_COUNT, ROOM_COUNT, 0usize);
        let rsx: usize = (width - 1) / ROOM_COUNT + 1;
        let rsy: usize = (height - 1) / ROOM_COUNT + 1;
        proof {
            Self::lemma_room_side_covers(width);
            Self::lemma_room_side_covers(height);
        }
        World {
            world_rng: rng,
            grid_rooms_hotness: hotness,
            room_size: Vector2 { x: rsx, y: rsy },
            grid,
        }
    }

    pub fn width(&self) -> (r: usize)
        ensures
            r == self.spec_width(),
    {
        self.grid.width()
    }

    pub fn height(&self) -> (r: usize)
        ensures
            r == self.spec_height(),
    {
        self.grid.height()
    }

    pub fn get(&self, x: usize, y: usize) -> (r: &CellType)
        requires
            self.wf(),
            x < self.spec_width(),
            y < self.spec_height(),
        ensures
            *r == self.cell(x as int, y as int),
    {
        self.grid.get(x, y)
    }

    /// Mutable access to the cell at `(x, y)`. Unlike `set`, writing through
    /// the returned reference does not mark the cell's room hot.
    pub fn get_mut(&mut self, x: usize, y: usize) -> (r: &mut CellType)
        requires
            old(self).wf(),
            x < old(self).spec_width(),
            y < old(self).spec_height(),
        ensures
            *r == old(self).cell(x as int, y as int),
            final(self).wf(),
            final(self).spec_width() == old(self).spec_width(),
            final(self).spec_height() == old(self).spec_height(),
            final(self).spec_room_size() == old(self).spec_room_size(),
            forall|rx: int, ry: int|
                Self::room_in_bounds(rx, ry) ==> final(self).hotness(rx, ry) == old(self).hotness(
                    rx,
                    ry,
                ),
            final(self).cell(x as int, y as int) == *final(r),
            forall|i: int, j: int|
                old(self).in_bounds(i, j) && !(i == x && j == y) ==> final(self).cell(i, j) == old(
                    self,
                ).cell(i, j),
    {
        self.grid.get_mut(x, y)
    }

    /// The hotness counter of the room that the cell at `(x, y)` belongs to.
    /// A positive counter means the room is simulated next frame.
    pub fn room_hotness(&self, x: usize, y: usize) -> (r: usize)
        requires
            self.wf(),
            x < self.spec_width(),
            y < self.spec_height(),
        ensures
            r == self.hotness(self.room_of(x as int, y as int).0, self.room_of(x as int, y as int).1),
    {
        proof {
            self.lemma_room_of_in_bounds(x as int, y as int);
        }
        let rx: usize = x / self.room_size.x;
        let ry: usize = y / self.room_size.y;
        *self.grid_rooms_hotness.get(rx, ry)
    }

    /// Write `cell_type` at `(x, y)` and mark the room hot. This is the paint
    /// entry point: in-bounds coordinates are the caller's responsibility.
    pub fn set(&mut self, x: usize, y: usize, cell_type: CellType)
        requires
            old(self).wf(),
            x < old(self).spec_width(),
            y < old(self).spec_height(),
        ensures
            final(self).wf(),
            final(self).spec_width() == old(self).spec_width(),
            final(self).spec_height() == old(self).spec_height(),
            final(self).spec_room_size() == old(self).spec_room_size(),
            final(self).cell(x as int, y as int) == cell_type,
            forall|i: int, j: int|
                old(self).in_bounds(i, j) && !(i == x && j == y) ==> final(self).cell(i, j) == old(
                    self,
                ).cell(i, j),
            final(self).hotness(
                old(self).room_of(x as int, y as int).0,
                old(self).room_of(x as int, y as int).1,
            ) == HOT_FRAMES,
            forall|rx: int, ry: int|
                Self::room_in_bounds(rx, ry) && (rx, ry) != old(self).room_of(x as int, y as int)
                    ==> final(self).hotness(rx, ry) == old(self).hotness(rx, ry),
    {
        self.grid.set(x, y, cell_type);
        self.hot(x, y);
    }

    /// Set the hotness of the room containing `(x, y)` to `HOT_FRAMES`.
    fn hot(&mut self, x: usize, y: usize)
        requires
            old(self).wf(),
            x < old(self).spec_width(),
            y < old(self).spec_height(),
        ensures
            final(self).wf(),
            final(self).spec_width() == old(self).spec_width(),
            final(self).spec_height() == old(self).spec_height(),
            final(self).spec_room_size() == old(self).spec_room_size(),
            final(self).grid == old(self).grid,
            forall|i: int, j: int|
                old(self).in_bounds(i, j) ==> final(self).cell(i, j) == old(self).cell(i, j),
            final(self).hotness(
                old(self).room_of(x as int, y as int).0,
                old(self).room_of(x as int, y as int).1,
            ) == HOT_FRAMES,
            forall|rx: int, ry: int|
                Self::room_in_bounds(rx, ry) && (rx, ry) != old(self).room_of(x as int, y as int)
                    ==> final(self).hotness(rx, ry) == old(self).hotness(rx, ry),
    {
        proof {
            self.lemma_room_of_in_bounds(x as int, y as int);
        }
        let rx: usize = x / self.room_size.x;
        let ry: usize = y / self.room_size.y;
        self.grid_rooms_hotness.set(rx, ry, HOT_FRAMES);
    }

    /// Write one committed move: the source goes empty, the destination
    /// takes the particle, both coordinates join the touched list and the
    /// dirty mask. The destination was empty and neither cell was written
    /// before this frame's pass reached them, so no cell is written twice.
    fn commit_move(
        &mut self,
        x: usize,
        y: usize,
        np: Vector2<usize>,
        nd: ParticleData,
        dirty: &mut GridMap<bool>,
        moved: &mut Vec<Vector2<usize>>,
        g0: Ghost<World>,
        before: Ghost<ParticleData>,
    )
        requires
            old(self).wf(),
            g0@.spec_width() == old(self).spec_width(),
            g0@.spec_height() == old(self).spec_height(),
            x < old(self).spec_width(),
            y < old(self).spec_height(),
            np.x < old(self).spec_width(),
            np.y < old(self).spec_height(),
            !(np.x == x && np.y == y),
            y < np.y,
            np.x <= x + 4,
            x <= np.x + 4,
            old(self).cell(x as int, y as int) == CellType::Sand(before@),
            move_ok(
                g0@,
                old(moved)@.push(vec2(x as int, y as int)).push(vec2(np.x as int, np.y as int)),
                vec2(x as int, y as int),
                vec2(np.x as int, np.y as int),
                before@,
                nd,
            ),
            old(self).cell(np.x as int, np.y as int) is Empty,
            !old(dirty).at(x as int, y as int),
            !old(dirty).at(np.x as int, np.y as int),
            frame_inv(g0@, *old(self), *old(dirty), old(moved)@),
        ensures
            final(self).wf(),
            final(self).spec_width() == old(self).spec_width(),
            final(self).spec_height() == old(self).spec_height(),
            final(self).spec_room_size() == old(self).spec_room_size(),
            forall|rx: int, ry: int|
                Self::room_in_bounds(rx, ry) ==> final(self).hotness(rx, ry) == old(self).hotness(
                    rx,
                    ry,
                ),
            frame_inv(g0@, *final(self), *final(dirty), final(moved)@),
            old(moved)@.is_prefix_of(final(moved)@),
            final(moved)@ == old(moved)@.push(vec2(x as int, y as int)).push(
                vec2(np.x as int, np.y as int),
            ),
    {
        let ghost m0 = moved@;
        let ghost src = vec2(x as int, y as int);
        let ghost dst = vec2(np.x as int, np.y as int);
        proof {
            assert(!m0.contains(src));
            assert(!m0.contains(dst));
            assert(old(self).cell(x as int, y as int) == g0@.cell(x as int, y as int));
            assert(old(self).cell(np.x as int, np.y as int) == g0@.cell(
                np.x as int,
                np.y as int,
            ));
        }
        self.grid.set(x, y, CellType::Empty);
        self.grid.set(np.x, np.y, CellType::Sand(nd));
        moved.push(Vector2 { x, y });
        moved.push(np);
        dirty.set(x, y, true);
        dirty.set(np.x, np.y, true);
        proof {
            let m1 = moved@;
            assert(m1 == m0.push(src).push(dst));
            assert(m0.is_prefix_of(m1)) by {
                assert(m1.subrange(0, m0.len() as int) =~= m0);
            }
            assert forall|i: int|
                #![trigger m1[i], m1[i + 1]]
                0 <= i && i % 2 == 0 && i + 1 < m1.len() implies m1[i].y < m1[i + 1].y && m1[i
                    + 1].x <= m1[i].x + 4 && m1[i].x <= m1[i + 1].x + 4 by {
                if i + 1 < m0.len() {
                    assert(m1[i] == m0[i] && m1[i + 1] == m0[i + 1]);
                } else {
                    assert(i == m0.len());
                    assert(m1[i] == src && m1[i + 1] == dst);
                }
            }
            assert forall|i: int|
                #![trigger m1[i], m1[i + 1]]
                0 <= i && i % 2 == 0 && i + 1 < m1.len() implies move_ok(
                g0@,
                m1,
                m1[i],
                m1[i + 1],
                particle_of(g0@.cell(m1[i].x as int, m1[i].y as int)),
                particle_of(self.cell(m1[i + 1].x as int, m1[i + 1].y as int)),
            ) by {
                if i + 1 < m0.len() {
                    assert(m1[i] == m0[i] && m1[i + 1] == m0[i + 1]);
                    assert(m0.contains(m0[i]) && m0.contains(m0[i + 1])) by {
                        assert(m0[i] == m0[i] && m0[i + 1] == m0[i + 1]);
                    }
                    assert(!(m1[i + 1] == src) && !(m1[i + 1] == dst));
                    assert(self.cell(m1[i + 1].x as int, m1[i + 1].y as int) == old(self).cell(
                        m1[i + 1].x as int,
                        m1[i + 1].y as int,
                    ));
                    lemma_move_ok_grows(
                        g0@,
                        m0,
                        m1,
                        m0[i],
                        m0[i + 1],
                        particle_of(g0@.cell(m0[i].x as int, m0[i].y as int)),
                        particle_of(
                            old(self).cell(m0[i + 1].x as int, m0[i + 1].y as int),
                        ),
                    );
                } else {
                    assert(i == m0.len());
                    assert(m1[i] == src && m1[i + 1] == dst);
                    assert(self.cell(np.x as int, np.y as int) == CellType::Sand(nd));
                    assert(g0@.cell(x as int, y as int) == CellType::Sand(before@));
                }
            }
            assert forall|i: int, j: int|
                #![trigger m1[i], m1[j]]
                0 <= i < j < m1.len() implies m1[i] != m1[j] by {
                if i < m0.len() {
                    assert(m0.contains(m0[i])) by {
                        assert(m0[i] == m0[i]);
                    }
                }
                if j < m0.len() {
                    assert(m0.contains(m0[j])) by {
                        assert(m0[j] == m0[j]);
                    }
                }
            }
            assert forall|a: int, b: int|
                #![trigger self.cell(a, b)]
                g0@.in_bounds(a, b) && !m1.contains(vec2(a, b)) implies self.cell(a, b)
                == g0@.cell(a, b) by {
                assert(!m0.contains(vec2(a, b)));
                assert(vec2(a, b) != src && vec2(a, b) != dst);
                assert(!(a == x && b == y) && !(a == np.x && b == np.y));
                assert(self.cell(a, b) == old(self).cell(a, b));
                assert(old(self).cell(a, b) == g0@.cell(a, b));
            }
            assert forall|a: int, b: int|
                #![trigger dirty.at(a, b)]
                g0@.in_bounds(a, b) implies (dirty.at(a, b) <==> m1.contains(vec2(a, b))) by {
                if !(a == x && b == y) && !(a == np.x && b == np.y) {
                    assert(vec2(a, b) != src && vec2(a, b) != dst);
                    assert(dirty.at(a, b) == old(dirty).at(a, b));
                } else {
                    assert(m1.contains(vec2(a, b)));
                }
            }
            assert forall|i: int|
                #![trigger m1[i]]
                0 <= i < m1.len() && i % 2 == 0 implies g0@.cell(m1[i].x as int, m1[i].y as int)
                is Sand && self.cell(m1[i].x as int, m1[i].y as int) is Empty by {
                if i < m0.len() {
                    assert(m0.contains(m0[i])) by {
                        assert(m0[i] == m0[i]);
                    }
                    assert(!(m1[i] == src) && !(m1[i] == dst));
                    assert(self.cell(m1[i].x as int, m1[i].y as int) == old(self).cell(
                        m1[i].x as int,
                        m1[i].y as int,
                    ));
                } else {
                    assert(m1[i] == src);
                }
            }
            assert forall|i: int|
                #![trigger m1[i]]
                0 <= i < m1.len() && i % 2 == 1 implies g0@.cell(m1[i].x as int, m1[i].y as int)
                is Empty && self.cell(m1[i].x as int, m1[i].y as int) is Sand by {
                if i < m0.len() {
                    assert(m0.contains(m0[i])) by {
                        assert(m0[i] == m0[i]);
                    }
                    assert(!(m1[i] == src) && !(m1[i] == dst));
                    assert(self.cell(m1[i].x as int, m1[i].y as int) == old(self).cell(
                        m1[i].x as int,
                        m1[i].y as int,
                    ));
                } else {
                    assert(m1[i] == dst);
                }
            }
        }
    }

    /// Resolve one sand particle: gravity, then a vertical fall to the far
    /// end of a randomized scan range, else a settle just above the first
    /// obstruction, else a lateral slide out of a vertical wedge, else a
    /// diagonal slide; at most one move is committed, and none onto a cell
    /// already written this frame.
    #[verifier::loop_isolation(false)]
    #[verifier::rlimit(100)]
    fn step_particle(
        &mut self,
        x: usize,
        y: usize,
        data: ParticleData,
        dirty: &mut GridMap<bool>,
        moved: &mut Vec<Vector2<usize>>,
        g0: Ghost<World>,
    )
        requires
            old(self).wf(),
            g0@.spec_width() == old(self).spec_width(),
            g0@.spec_height() == old(self).spec_height(),
            x < old(self).spec_width(),
            y + 1 < old(self).spec_height(),
            old(self).cell(x as int, y as int) == CellType::Sand(data),
            !old(dirty).at(x as int, y as int),
            frame_inv(g0@, *old(self), *old(dirty), old(moved)@),
        ensures
            final(self).wf(),
            final(self).spec_width() == old(self).spec_width(),
            final(self).spec_height() == old(self).spec_height(),
            final(self).spec_room_size() == old(self).spec_room_size(),
            forall|rx: int, ry: int|
                Self::room_in_bounds(rx, ry) ==> final(self).hotness(rx, ry) == old(self).hotness(
                    rx,
                    ry,
                ),
            frame_inv(g0@, *final(self), *final(dirty), final(moved)@),
            old(moved)@.is_prefix_of(final(moved)@),
            final(moved)@.len() == old(moved)@.len() || final(moved)@.len() == old(moved)@.len()
                + 2,
            forall|i: int|
                #![trigger final(moved)@[i]]
                old(moved)@.len() <= i < final(moved)@.len() && i % 2 == 0 ==> final(moved)@[i]
                    == vec2(x as int, y as int),
            must_move(g0@, x as int, y as int) ==> final(moved)@.len() > 0,
    {
        let w: usize = self.width();
        let h: usize = self.height();
        // Gravity, capped so the counter stays in range.
        let vy: i64 = if data.speed.y <= SPEED_LIMIT - GRAVITY {
            data.speed.y + GRAVITY
        } else {
            SPEED_LIMIT
        };
        let data2 = ParticleData { speed: Vector2 { x: data.speed.x, y: vy }, color: data.color };
        proof {
            assert(vy == after_gravity(data.speed.y));
        }
        // The scan range: its start is 0 or 1 at random, its end the
        // fixed-point fall distance rounded down or up at random.
        let fall_floor: usize = if vy <= 0 {
            0
        } else {
            (vy / SPEED_SCALE) as usize
        };
        let fall_ceil: usize = if vy <= 0 {
            0
        } else {
            ((vy + (SPEED_SCALE - 1)) / SPEED_SCALE) as usize
        };
        let max_dy: usize = if coin(&mut self.world_rng) {
            fall_floor
        } else {
            fall_ceil
        };
        proof {
            if vy > 0 {
                vstd::arithmetic::div_mod::lemma_div_is_ordered(
                    vy as int,
                    vy as int + (SPEED_SCALE - 1) as int,
                    SPEED_SCALE as int,
                );
            }
            assert(max_dy <= fall_span(vy));
        }
        let min_dy: usize = if coin(&mut self.world_rng) {
            0
        } else {
            1
        };
        let mut new_pos: Option<Vector2<usize>> = None;
        let mut new_data: ParticleData = data2;

        // Vertical scan: free fall to the far end of the range if it is
        // empty, else settle just above the first obstruction.
        let mut dy: usize = min_dy;
        while dy <= max_dy
            invariant
                min_dy <= dy,
                forall|d: int|
                    #![trigger self.cell(x as int, y + d)]
                    min_dy <= d < dy ==> y + d < h && self.cell(x as int, y + d) is Empty,
                new_pos matches Some(p) ==> p.x < w && p.y < h && self.cell(
                    p.x as int,
                    p.y as int,
                ) is Empty && y < p.y && p.x <= x + 4 && x <= p.x + 4,
                new_pos matches Some(p) ==> staged_move_ok(
                    *old(self),
                    x as int,
                    y as int,
                    data,
                    p,
                    new_data,
                ),
            decreases max_dy - dy,
        {
            if dy == max_dy && dy < h - y && self.get(x, y + dy).is_empty() {
                // Free fall: the whole range was clear. The range cannot end
                // at the particle's own, occupied cell, so it really drops.
                proof {
                    assert(self.cell(x as int, y as int) == old(self).cell(x as int, y as int));
                    assert(dy > 0);
                    assert forall|k: int| y < k <= y + dy implies old(self).cell(
                        x as int,
                        k,
                    ) is Empty by {
                        if k < y + dy {
                            assert(self.cell(x as int, y + (k - y)) is Empty);
                        }
                        assert(self.cell(x as int, k) == old(self).cell(x as int, k));
                    }
                }
                new_pos = Some(Vector2 { x, y: y + dy });
                new_data = data2;
                break ;
            } else if dy >= h - y || !self.get(x, y + dy).is_empty() {
                // An obstruction: settle on the last clear row above it,
                // losing most of the impact energy.
                if dy > 1 {
                    proof {
                        assert(y + (dy - 1) < h && self.cell(x as int, y + (dy - 1)) is Empty);
                        assert forall|k: int| y < k <= y + (dy - 1) implies old(self).cell(
                            x as int,
                            k,
                        ) is Empty by {
                            assert(self.cell(x as int, y + (k - y)) is Empty);
                            assert(self.cell(x as int, k) == old(self).cell(x as int, k));
                        }
                        assert(vy > 0);
                    }
                    new_pos = Some(Vector2 { x, y: y + (dy - 1) });
                    new_data = ParticleData {
                        speed: Vector2 { x: data.speed.x, y: vy / 10 },
                        color: data.color,
                    };
                }
                break ;
            }
            dy += 1;
        }

        // Lateral slide out of a vertical wedge: a particle pinned above and
        // below may jump 2 to 4 cells sideways if exactly one side has a
        // clear landing one row down.
        if new_pos.is_none() && y > 0 && y + 1 < h {
            let rand_dx: usize = pick_in_range(&mut self.world_rng, 2, 5);
            if x > rand_dx && rand_dx < w && x < w - rand_dx {
                if !self.get(x, y + 1).is_empty() && !self.get(x, y - 1).is_empty() {
                    let right_clear = self.get(x + rand_dx, y + 1).is_empty();
                    let left_clear = self.get(x - rand_dx, y + 1).is_empty();
                    proof {
                        assert(self.cell(x as int, y as int + 1) == old(self).cell(
                            x as int,
                            y as int + 1,
                        ));
                        assert(self.cell(x as int, y as int - 1) == old(self).cell(
                            x as int,
                            y as int - 1,
                        ));
                        assert(self.cell(x as int + rand_dx as int, y as int + 1) == old(
                            self,
                        ).cell(x as int + rand_dx as int, y as int + 1));
                        assert(self.cell(x as int - rand_dx as int, y as int + 1) == old(
                            self,
                        ).cell(x as int - rand_dx as int, y as int + 1));
                    }
                    if right_clear && !left_clear {
                        new_pos = Some(Vector2 { x: x + rand_dx, y: y + 1 });
                        new_data = ParticleData {
                            speed: Vector2 { x: data2.speed.x, y: SPEED_SCALE },
                            color: data2.color,
                        };
                    } else if left_clear && !right_clear {
                        new_pos = Some(Vector2 { x: x - rand_dx, y: y + 1 });
                        new_data = ParticleData {
                            speed: Vector2 { x: data2.speed.x, y: SPEED_SCALE },
                            color: data2.color,
                        };
                    }
                }
            }
        }
        proof {
            assert(new_pos matches Some(p) ==> staged_move_ok(
                *old(self),
                x as int,
                y as int,
                data,
                p,
                new_data,
            ));
        }

        // Diagonal slide: one cell down-left or down-right; a coin breaks
        // the tie when both are clear.
        if new_pos.is_none() && y + 1 < h {
            let mut fall_right: bool = x + 1 < w && self.get(x + 1, y + 1).is_empty();
            let mut fall_left: bool = x > 0 && self.get(x - 1, y + 1).is_empty();
            proof {
                // A particle with a lower diagonal clear since the frame
                // began always has a slide available.
                if must_move(g0@, x as int, y as int) && moved@.len() == 0 {
                    if 1 <= x && g0@.cell(x as int - 1, y as int + 1) is Empty {
                        assert(!moved@.contains(vec2(x as int - 1, y as int + 1)));
                        assert(!dirty.at(x as int - 1, y as int + 1));
                        assert(old(self).cell(x as int - 1, y as int + 1) == g0@.cell(
                            x as int - 1,
                            y as int + 1,
                        ));
                        assert(self.cell(x as int - 1, y as int + 1) == old(self).cell(
                            x as int - 1,
                            y as int + 1,
                        ));
                        assert(fall_left);
                    } else {
                        assert(!moved@.contains(vec2(x as int + 1, y as int + 1)));
                        assert(!dirty.at(x as int + 1, y as int + 1));
                        assert(old(self).cell(x as int + 1, y as int + 1) == g0@.cell(
                            x as int + 1,
                            y as int + 1,
                        ));
                        assert(self.cell(x as int + 1, y as int + 1) == old(self).cell(
                            x as int + 1,
                            y as int + 1,
                        ));
                        assert(fall_right);
                    }
                }
            }
            if fall_left && fall_right {
                fall_right = coin(&mut self.world_rng);
                fall_left = !fall_right;
            }
            if fall_right {
                new_pos = Some(Vector2 { x: x + 1, y: y + 1 });
                new_data = data2;
            } else if fall_left {
                new_pos = Some(Vector2 { x: x - 1, y: y + 1 });
                new_data = data2;
            }
        }
        proof {
            assert(new_pos matches Some(p) ==> staged_move_ok(
                *old(self),
                x as int,
                y as int,
                data,
                p,
                new_data,
            ));
        }

        match new_pos {
            None => {
                proof {
                    lemma_frame_inv_same_grid(g0@, *old(self), *self, *dirty, moved@);
                }
            },
            Some(np) => {
                if !*dirty.get(np.x, np.y) {
                    proof {
                        lemma_frame_inv_same_grid(g0@, *old(self), *self, *dirty, moved@);
                        assert(self.cell(x as int, y as int) == old(self).cell(
                            x as int,
                            y as int,
                        ));
                        lemma_staged_move_ok(
                            g0@,
                            *old(self),
                            *old(dirty),
                            old(moved)@,
                            x as int,
                            y as int,
                            data,
                            np,
                            new_data,
                        );
                    }
                    self.commit_move(x, y, np, new_data, dirty, moved, g0, Ghost(data));
                } else {
                    proof {
                        lemma_frame_inv_same_grid(g0@, *old(self), *self, *dirty, moved@);
                        // The contended destination was already written this
                        // frame, so the touched list is not empty.
                        assert(moved@.contains(vec2(np.x as int, np.y as int)));
                    }
                }
            },
        }
        proof {
            assert(moved@.is_prefix_of(moved@)) by {
                assert(moved@.subrange(0, moved@.len() as int) =~= moved@);
            }
        }
    }

    /// Resolve one cell of a hot room: empty space and blocks stay put; sand
    /// is handed to `step_particle`. Cells already written this frame are
    /// skipped.
    fn step_cell(
        &mut self,
        x: usize,
        y: usize,
        dirty: &mut GridMap<bool>,
        moved: &mut Vec<Vector2<usize>>,
        g0: Ghost<World>,
    )
        requires
            old(self).wf(),
            g0@.spec_width() == old(self).spec_width(),
            g0@.spec_height() == old(self).spec_height(),
            x < old(self).spec_width(),
            y + 1 < old(self).spec_height(),
            frame_inv(g0@, *old(self), *old(dirty), old(moved)@),
        ensures
            final(self).wf(),
            final(self).spec_width() == old(self).spec_width(),
            final(self).spec_height() == old(self).spec_height(),
            final(self).spec_room_size() == old(self).spec_room_size(),
            forall|rx: int, ry: int|
                Self::room_in_bounds(rx, ry) ==> final(self).hotness(rx, ry) == old(self).hotness(
                    rx,
                    ry,
                ),
            frame_inv(g0@, *final(self), *final(dirty), final(moved)@),
            old(moved)@.is_prefix_of(final(moved)@),
            final(moved)@.len() == old(moved)@.len() || final(moved)@.len() == old(moved)@.len()
                + 2,
            forall|i: int|
                #![trigger final(moved)@[i]]
                old(moved)@.len() <= i < final(moved)@.len() && i % 2 == 0 ==> final(moved)@[i]
                    == vec2(x as int, y as int),
            no_sand(g0@) ==> final(moved)@ == old(moved)@,
            must_move(g0@, x as int, y as int) ==> final(moved)@.len() > 0,
    {
        if *dirty.get(x, y) {
            proof {
                // A cell already written this frame is an entry of the list.
                assert(moved@.contains(vec2(x as int, y as int)));
            }
            return ;
        }
        let cell: CellType = *self.get(x, y);
        proof {
            // Unwritten so far, the cell still shows its frame-start value.
            assert(!old(moved)@.contains(vec2(x as int, y as int)));
            assert(self.cell(x as int, y as int) == g0@.cell(x as int, y as int));
        }
        match cell {
            CellType::Empty => {},
            CellType::Block(_) => {},
            CellType::Sand(data) => {
                proof {
                    assert(g0@.cell(x as int, y as int) is Sand);
                }
                self.step_particle(x, y, data, dirty, moved, g0);
            },
        }
    }

    /// Simulate one hot room: visit its coordinate rectangle in an order
    /// shuffled independently along each axis, and resolve each cell that
    /// was not already written this frame. The bottom grid row never moves
    /// and is skipped.
    #[verifier::loop_isolation(false)]
    #[verifier::rlimit(100)]
    fn process_room(
        &mut self,
        room_x: usize,
        room_y: usize,
        dirty: &mut GridMap<bool>,
        moved: &mut Vec<Vector2<usize>>,
        g0: Ghost<World>,
    )
        requires
            old(self).wf(),
            room_x < ROOM_COUNT,
            room_y < ROOM_COUNT,
            g0@.spec_width() == old(self).spec_width(),
            g0@.spec_height() == old(self).spec_height(),
            g0@.spec_room_size() == old(self).spec_room_size(),
            frame_inv(g0@, *old(self), *old(dirty), old(moved)@),
        ensures
            final(self).wf(),
            final(self).spec_width() == old(self).spec_width(),
            final(self).spec_height() == old(self).spec_height(),
            final(self).spec_room_size() == old(self).spec_room_size(),
            forall|rx: int, ry: int|
                Self::room_in_bounds(rx, ry) ==> final(self).hotness(rx, ry) == old(self).hotness(
                    rx,
                    ry,
                ),
            frame_inv(g0@, *final(self), *final(dirty), final(moved)@),
            old(moved)@.is_prefix_of(final(moved)@),
            forall|i: int|
                #![trigger final(moved)@[i]]
                old(moved)@.len() <= i < final(moved)@.len() && i % 2 == 0 ==> g0@.room_of(
                    final(moved)@[i].x as int,
                    final(moved)@[i].y as int,
                ) == (room_x as int, room_y as int),
            no_sand(g0@) ==> final(moved)@ == old(moved)@,
            forall|x: int, y: int|
                #![trigger must_move(g0@, x, y)]
                must_move(g0@, x, y) && room_x * old(self).spec_room_size().x <= x && x < (
                room_x + 1) * old(self).spec_room_size().x && room_y * old(
                    self,
                ).spec_room_size().y <= y && y < (room_y + 1) * old(self).spec_room_size().y
                    ==> final(moved)@.len() > 0,
    {
        let room_size: Vector2<usize> = self.room_size;
        let height: usize = self.height();
        let width: usize = self.width();
        proof {
            lemma_mul_inequality(room_x as int + 1, ROOM_COUNT as int, room_size.x as int);
            lemma_mul_inequality(room_y as int + 1, ROOM_COUNT as int, room_size.y as int);
            lemma_mul_inequality(room_x as int, ROOM_COUNT as int, room_size.x as int);
            lemma_mul_inequality(room_y as int, ROOM_COUNT as int, room_size.y as int);
        }
        let x_lo: usize = room_x * room_size.x;
        let x_hi_raw: usize = (room_x + 1) * room_size.x;
        let x_hi: usize = if width < x_hi_raw {
            width
        } else {
            x_hi_raw
        };
        let y_lo: usize = room_y * room_size.y;
        let y_hi_raw: usize = (room_y + 1) * room_size.y;
        let bottom: usize = height - 1;
        let y_hi: usize = if bottom < y_hi_raw {
            bottom
        } else {
            y_hi_raw
        };

        let mut xvec: Vec<usize> = Vec::new();
        let mut xc: usize = x_lo;
        while xc < x_hi
            invariant
                x_lo <= xc,
                forall|k: int| 0 <= k < xvec@.len() ==> x_lo <= #[trigger] xvec@[k] < x_hi,
                forall|v: usize| x_lo <= v < xc ==> #[trigger] xvec@.contains(v),
            decreases x_hi - xc,
        {
            xvec.push(xc);
            xc += 1;
        }
        let mut yvec: Vec<usize> = Vec::new();
        let mut yc: usize = y_lo;
        while yc < y_hi
            invariant
                y_lo <= yc,
                forall|k: int| 0 <= k < yvec@.len() ==> y_lo <= #[trigger] yvec@[k] < y_hi,
                forall|v: usize| y_lo <= v < yc ==> #[trigger] yvec@.contains(v),
            decreases y_hi - yc,
        {
            yvec.push(yc);
            yc += 1;
        }
        let ghost xs0 = xvec@;
        let ghost ys0 = yvec@;
        shuffle_values(&mut self.world_rng, &mut xvec);
        shuffle_values(&mut self.world_rng, &mut yvec);
        proof {
            broadcast use vstd::seq_lib::group_to_multiset_ensures;

            assert forall|k: int| 0 <= k < xvec@.len() implies x_lo <= #[trigger] xvec@[k]
                < x_hi by {
                assert(xvec@.contains(xvec@[k]));
                assert(xvec@.to_multiset().count(xvec@[k]) > 0);
                assert(xs0.to_multiset().count(xvec@[k]) > 0);
                assert(xs0.contains(xvec@[k]));
            }
            assert forall|k: int| 0 <= k < yvec@.len() implies y_lo <= #[trigger] yvec@[k]
                < y_hi by {
                assert(yvec@.contains(yvec@[k]));
                assert(yvec@.to_multiset().count(yvec@[k]) > 0);
                assert(ys0.to_multiset().count(yvec@[k]) > 0);
                assert(ys0.contains(yvec@[k]));
            }
            assert forall|v: usize| x_lo <= v < x_hi implies #[trigger] xvec@.contains(v) by {
                assert(xs0.contains(v));
                assert(xs0.to_multiset().count(v) > 0);
                assert(xvec@.to_multiset().count(v) > 0);
            }
            assert forall|v: usize| y_lo <= v < y_hi implies #[trigger] yvec@.contains(v) by {
                assert(ys0.contains(v));
                assert(ys0.to_multiset().count(v) > 0);
                assert(yvec@.to_multiset().count(v) > 0);
            }
            lemma_frame_inv_same_grid(g0@, *old(self), *self, *dirty, moved@);
        }

        let ghost m_start = moved@;
        let xn: usize = xvec.len();
        let mut xi: usize = 0;
        while xi < xn
            invariant
                self.wf(),
                self.spec_width() == old(self).spec_width(),
                self.spec_height() == old(self).spec_height(),
                self.spec_room_size() == old(self).spec_room_size(),
                forall|rx: int, ry: int|
                    Self::room_in_bounds(rx, ry) ==> self.hotness(rx, ry) == old(self).hotness(
                        rx,
                        ry,
                    ),
                frame_inv(g0@, *self, *dirty, moved@),
                m_start.is_prefix_of(moved@),
                forall|i: int|
                    #![trigger moved@[i]]
                    m_start.len() <= i < moved@.len() && i % 2 == 0 ==> g0@.room_of(
                        moved@[i].x as int,
                        moved@[i].y as int,
                    ) == (room_x as int, room_y as int),
                no_sand(g0@) ==> moved@ == m_start,
                forall|k: int, l: int|
                    #![trigger xvec@[k], yvec@[l]]
                    0 <= k < xi && 0 <= l < yvec@.len() && must_move(
                        g0@,
                        xvec@[k] as int,
                        yvec@[l] as int,
                    ) ==> moved@.len() > 0,
            decreases xn - xi,
        {
            let x: usize = xvec[xi];
            let yn: usize = yvec.len();
            let mut yi: usize = 0;
            while yi < yn
                invariant
                    self.wf(),
                    self.spec_width() == old(self).spec_width(),
                    self.spec_height() == old(self).spec_height(),
                    self.spec_room_size() == old(self).spec_room_size(),
                    forall|rx: int, ry: int|
                        Self::room_in_bounds(rx, ry) ==> self.hotness(rx, ry) == old(self).hotness(
                            rx,
                            ry,
                        ),
                    frame_inv(g0@, *self, *dirty, moved@),
                    m_start.is_prefix_of(moved@),
                    forall|i: int|
                        #![trigger moved@[i]]
                        m_start.len() <= i < moved@.len() && i % 2 == 0 ==> g0@.room_of(
                            moved@[i].x as int,
                            moved@[i].y as int,
                        ) == (room_x as int, room_y as int),
                    no_sand(g0@) ==> moved@ == m_start,
                    forall|k: int, l: int|
                        #![trigger xvec@[k], yvec@[l]]
                        0 <= k < xi && 0 <= l < yvec@.len() && must_move(
                            g0@,
                            xvec@[k] as int,
                            yvec@[l] as int,
                        ) ==> moved@.len() > 0,
                    forall|l: int|
                        #![trigger yvec@[l]]
                        0 <= l < yi && must_move(g0@, x as int, yvec@[l] as int)
                            ==> moved@.len() > 0,
                decreases yn - yi,
            {
                let y: usize = yvec[yi];
                let ghost m_before = moved@;
                self.step_cell(x, y, dirty, moved, g0);
                proof {
                    lemma_prefix_trans(m_start, m_before, moved@);
                    assert forall|i: int|
                        #![trigger moved@[i]]
                        m_start.len() <= i < moved@.len() && i % 2 == 0 implies g0@.room_of(
                            moved@[i].x as int,
                            moved@[i].y as int,
                        ) == (room_x as int, room_y as int) by {
                        if i < m_before.len() {
                            assert(m_before[i] == moved@.subrange(0, m_before.len() as int)[i]);
                            assert(moved@[i] == m_before[i]);
                        } else {
                            assert(moved@[i] == vec2(x as int, y as int));
                            lemma_div_in_room(x as int, room_size.x as int, room_x as int);
                            lemma_div_in_room(y as int, room_size.y as int, room_y as int);
                        }
                    }
                    assert(m_before.len() <= moved@.len());
                    assert forall|l: int|
                        #![trigger yvec@[l]]
                        0 <= l < yi + 1 && must_move(g0@, x as int, yvec@[l] as int) implies
                        moved@.len() > 0 by {
                        if l == yi {
                            assert(yvec@[l] == y);
                        }
                    }
                }
                yi += 1;
            }
            proof {
                assert forall|k: int, l: int|
                    #![trigger xvec@[k], yvec@[l]]
                    0 <= k < xi + 1 && 0 <= l < yvec@.len() && must_move(
                        g0@,
                        xvec@[k] as int,
                        yvec@[l] as int,
                    ) implies moved@.len() > 0 by {
                    if k == xi {
                        assert(xvec@[k] == x);
                    }
                }
            }
            xi += 1;
        }
        proof {
            // Every coordinate of the room's clipped rectangle was visited,
            // so a particle there that every draw lets move forced a move.
            assert forall|a: int, b: int|
                #![trigger must_move(g0@, a, b)]
                must_move(g0@, a, b) && room_x * room_size.x <= a && a < (room_x + 1)
                    * room_size.x && room_y * room_size.y <= b && b < (room_y + 1)
                    * room_size.y implies moved@.len() > 0 by {
                assert(a < width && b + 1 < height);
                assert(x_lo <= a && a < x_hi);
                assert(y_lo <= b && b < y_hi);
                assert(xvec@.contains(a as usize));
                assert(yvec@.contains(b as usize));
                let k = choose|k: int| 0 <= k < xvec@.len() && xvec@[k] == a as usize;
                let l = choose|l: int| 0 <= l < yvec@.len() && yvec@[l] == b as usize;
                assert(xvec@[k] as int == a && yvec@[l] as int == b);
                assert(must_move(g0@, xvec@[k] as int, yvec@[l] as int));
            }
        }
    }

    /// Advance the simulation by one frame: decay every room's hotness,
    /// simulate every room still hot, then re-arm the room of every touched
    /// coordinate. Returns the touched coordinates — the only feedback a
    /// renderer needs for an incremental redraw.
    #[verifier::loop_isolation(false)]
    #[verifier::rlimit(100)]
    pub fn process_frame(&mut self) -> (moved: Vec<Vector2<usize>>)
        requires
            old(self).wf(),
        ensures
            final(self).wf(),
            final(self).spec_width() == old(self).spec_width(),
            final(self).spec_height() == old(self).spec_height(),
            final(self).spec_room_size() == old(self).spec_room_size(),
            frame_moves_ok(*old(self), *final(self), moved@),
            frame_hotness_ok(*old(self), *final(self), moved@),
            frame_sources_hot(*old(self), moved@),
            no_sand(*old(self)) ==> moved@.len() == 0,
            forall|x: int, y: int|
                #![trigger must_move(*old(self), x, y)]
                must_move(*old(self), x, y) && decay1(
                    old(self).hotness(old(self).room_of(x, y).0, old(self).room_of(x, y).1),
                ) > 0 ==> moved@.len() > 0,
    {
        let ghost g0 = *old(self);
        let mut ret: Vec<Vector2<usize>> = Vec::new();
        self.grid_rooms_hotness.decay_all();
        let width: usize = self.width();
        let height: usize = self.height();
        let mut dirty: GridMap<bool> = GridMap::new(width, height, false);
        proof {
            assert forall|x: int, y: int| #![trigger self.cell(x, y)] true implies self.cell(x, y)
                == g0.cell(x, y) by {}
            assert(frame_inv(g0, *self, dirty, ret@));
        }

        let mut room_x: usize = 0;
        while room_x < ROOM_COUNT
            invariant
                self.wf(),
                self.spec_width() == g0.spec_width(),
                self.spec_height() == g0.spec_height(),
                self.spec_room_size() == g0.spec_room_size(),
                forall|rx: int, ry: int|
                    #![trigger self.hotness(rx, ry)]
                    Self::room_in_bounds(rx, ry) ==> self.hotness(rx, ry) == decay1(
                        g0.hotness(rx, ry),
                    ),
                frame_inv(g0, *self, dirty, ret@),
                frame_sources_hot(g0, ret@),
                no_sand(g0) ==> ret@.len() == 0,
                forall|x: int, y: int|
                    #![trigger must_move(g0, x, y)]
                    must_move(g0, x, y) && g0.room_of(x, y).0 < room_x && decay1(
                        g0.hotness(g0.room_of(x, y).0, g0.room_of(x, y).1),
                    ) > 0 ==> ret@.len() > 0,
            decreases ROOM_COUNT - room_x,
        {
            let mut room_y: usize = 0;
            while room_y < ROOM_COUNT
                invariant
                    room_x < ROOM_COUNT,
                    self.wf(),
                    self.spec_width() == g0.spec_width(),
                    self.spec_height() == g0.spec_height(),
                    self.spec_room_size() == g0.spec_room_size(),
                    forall|rx: int, ry: int|
                        #![trigger self.hotness(rx, ry)]
                        Self::room_in_bounds(rx, ry) ==> self.hotness(rx, ry) == decay1(
                            g0.hotness(rx, ry),
                        ),
                    frame_inv(g0, *self, dirty, ret@),
                    frame_sources_hot(g0, ret@),
                    no_sand(g0) ==> ret@.len() == 0,
                    forall|x: int, y: int|
                        #![trigger must_move(g0, x, y)]
                        must_move(g0, x, y) && (g0.room_of(x, y).0 < room_x || (g0.room_of(
                            x,
                            y,
                        ).0 == room_x && g0.room_of(x, y).1 < room_y)) && decay1(
                            g0.hotness(g0.room_of(x, y).0, g0.room_of(x, y).1),
                        ) > 0 ==> ret@.len() > 0,
                decreases ROOM_COUNT - room_y,
            {
                let counter: usize = *self.grid_rooms_hotness.get(room_x, room_y);
                proof {
                    assert(counter == self.hotness(room_x as int, room_y as int));
                }
                if counter > 0 {
                    let ghost m_before = ret@;
                    self.process_room(room_x, room_y, &mut dirty, &mut ret, Ghost(g0));
                    proof {
                        assert forall|i: int|
                            #![trigger ret@[i]]
                            0 <= i < ret@.len() && i % 2 == 0 implies decay1(
                            g0.hotness(
                                g0.room_of(ret@[i].x as int, ret@[i].y as int).0,
                                g0.room_of(ret@[i].x as int, ret@[i].y as int).1,
                            ),
                        ) > 0 by {
                            if i < m_before.len() {
                                assert(m_before[i] == ret@.subrange(
                                    0,
                                    m_before.len() as int,
                                )[i]);
                                assert(ret@[i] == m_before[i]);
                            } else {
                                assert(g0.room_of(ret@[i].x as int, ret@[i].y as int) == (
                                room_x as int,
                                room_y as int,
                                ));
                                assert(decay1(g0.hotness(room_x as int, room_y as int)) > 0);
                            }
                        }
                    }
                }
                proof {
                    assert forall|a: int, b: int|
                        #![trigger must_move(g0, a, b)]
                        must_move(g0, a, b) && (g0.room_of(a, b).0 < room_x || (g0.room_of(
                            a,
                            b,
                        ).0 == room_x && g0.room_of(a, b).1 < room_y + 1)) && decay1(
                            g0.hotness(g0.room_of(a, b).0, g0.room_of(a, b).1),
                        ) > 0 implies ret@.len() > 0 by {
                        if g0.room_of(a, b) == (room_x as int, room_y as int) {
                            lemma_room_bounds(a, g0.spec_room_size().x as int);
                            lemma_room_bounds(b, g0.spec_room_size().y as int);
                        }
                    }
                }
                room_y += 1;
            }
            proof {
                // Every room of this column is covered: room rows run 0..16.
                assert forall|a: int, b: int|
                    #![trigger must_move(g0, a, b)]
                    must_move(g0, a, b) && g0.room_of(a, b).0 < room_x + 1 && decay1(
                        g0.hotness(g0.room_of(a, b).0, g0.room_of(a, b).1),
                    ) > 0 implies ret@.len() > 0 by {
                    g0.lemma_room_of_in_bounds(a, b);
                }
            }
            room_x += 1;
        }
        proof {
            // Every room is covered: room columns run 0..16.
            assert forall|a: int, b: int|
                #![trigger must_move(g0, a, b)]
                must_move(g0, a, b) && decay1(
                    g0.hotness(g0.room_of(a, b).0, g0.room_of(a, b).1),
                ) > 0 implies ret@.len() > 0 by {
                g0.lemma_room_of_in_bounds(a, b);
            }
        }

        let n: usize = ret.len();
        let mut i: usize = 0;
        while i < n
            invariant
                i <= n,
                n == ret@.len(),
                self.wf(),
                self.spec_width() == g0.spec_width(),
                self.spec_height() == g0.spec_height(),
                self.spec_room_size() == g0.spec_room_size(),
                frame_inv(g0, *self, dirty, ret@),
                forall|rx: int, ry: int|
                    #![trigger self.hotness(rx, ry)]
                    Self::room_in_bounds(rx, ry) ==> self.hotness(rx, ry) == if (exists|j: int|
                        #![trigger ret@[j]]
                        0 <= j < i && g0.room_of(ret@[j].x as int, ret@[j].y as int) == (
                        rx,
                        ry,
                        )) {
                        HOT_FRAMES
                    } else {
                        decay1(g0.hotness(rx, ry))
                    },
            decreases n - i,
        {
            let c: Vector2<usize> = ret[i];
            let ghost pre_hot = *self;
            self.hot(c.x, c.y);
            proof {
                lemma_frame_inv_same_grid(g0, pre_hot, *self, dirty, ret@);
                let cr = g0.room_of(c.x as int, c.y as int);
                assert forall|rx: int, ry: int|
                    #![trigger self.hotness(rx, ry)]
                    Self::room_in_bounds(rx, ry) implies self.hotness(rx, ry) == if (exists|j: int|
                    #![trigger ret@[j]]
                    0 <= j < i + 1 && g0.room_of(ret@[j].x as int, ret@[j].y as int) == (
                    rx,
                    ry,
                    )) {
                    HOT_FRAMES
                } else {
                    decay1(g0.hotness(rx, ry))
                } by {
                    if (rx, ry) == cr {
                        assert(ret@[i as int] == c);
                        assert(exists|j: int|
                            #![trigger ret@[j]]
                            0 <= j < i + 1 && g0.room_of(ret@[j].x as int, ret@[j].y as int) == (
                            rx,
                            ry,
                            ));
                    } else {
                        assert(self.hotness(rx, ry) == pre_hot.hotness(rx, ry));
                    }
                }
            }
            i += 1;
        }
        proof {
            assert forall|rx: int, ry: int|
                #![trigger self.hotness(rx, ry)]
                Self::room_in_bounds(rx, ry) implies self.hotness(rx, ry) == if room_touched(
                g0,
                ret@,
                rx,
                ry,
            ) {
                HOT_FRAMES
            } else {
                decay1(g0.hotness(rx, ry))
            } by {
                if room_touched(g0, ret@, rx, ry) {
                    let j = choose|j: int|
                        0 <= j < ret@.len() && g0.room_of(ret@[j].x as int, ret@[j].y as int) == (
                        rx,
                        ry,
                        );
                    assert(g0.room_of(ret@[j].x as int, ret@[j].y as int) == (rx, ry));
                    assert(exists|j2: int|
                        #![trigger ret@[j2]]
                        0 <= j2 < i && g0.room_of(ret@[j2].x as int, ret@[j2].y as int) == (
                        rx,
                        ry,
                        ));
                } else {
                    if exists|j2: int|
                        #![trigger ret@[j2]]
                        0 <= j2 < i && g0.room_of(ret@[j2].x as int, ret@[j2].y as int) == (
                        rx,
                        ry,
                        ) {
                        let j = choose|j2: int|
                            0 <= j2 < i && g0.room_of(ret@[j2].x as int, ret@[j2].y as int) == (
                            rx,
                            ry,
                            );
                        assert(g0.room_of(ret@[j].x as int, ret@[j].y as int) == (rx, ry));
                        assert(room_touched(g0, ret@, rx, ry));
                    }
                }
            }
            assert(frame_hotness_ok(g0, *self, ret@));
        }
        ret
    }
}



} // verus!
