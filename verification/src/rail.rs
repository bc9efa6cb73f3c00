//! The rail path: its tile index, the headings along it, and the random walk
//! that reroutes a stretch of it inside a 5 by 5 window.

use crate::game::dir_step;
use crate::game::dir_to_ivec2;
use crate::game::tile_key;
use crate::game::tile_key_of;
use crate::game::Bend;
use crate::game::Dir;
use crate::game::DroneId;
use crate::game::Rail;
use crate::game::Tile;
use crate::tiles::tile_file;
use std::collections::BTreeMap;
use vstd::prelude::*;

verus! {

/// The direction after a quarter turn to the right, as seen on the screen:
/// right, down, left, up, right.
pub open spec fn dir_cw(dir: Dir) -> Dir {
    match dir {
        Dir::Right => Dir::Down,
        Dir::Down => Dir::Left,
        Dir::Left => Dir::Up,
        Dir::Up => Dir::Right,
    }
}

/// The direction after a quarter turn to the left.
pub open spec fn dir_ccw(dir: Dir) -> Dir {
    match dir {
        Dir::Right => Dir::Up,
        Dir::Up => Dir::Left,
        Dir::Left => Dir::Down,
        Dir::Down => Dir::Right,
    }
}

/// The direction in which a segment entered along `dir` is left.
pub open spec fn turned(dir: Dir, bend: Bend) -> Dir {
    match bend {
        Bend::Forward => dir,
        Bend::Right => dir_cw(dir),
        Bend::Left => dir_ccw(dir),
    }
}

/// The direction of travel on a segment: `dir` before its midpoint, and the
/// direction after the bend once the midpoint is passed.
pub fn rail_heading(rail: &Rail, past_midpoint: bool) -> (r: Dir)
    ensures
        r == if past_midpoint {
            turned(rail.dir, rail.bend)
        } else {
            rail.dir
        },
{
    if past_midpoint {
        match rail.bend {
            Bend::Forward => rail.dir,
            Bend::Right => match rail.dir {
                Dir::Right => Dir::Down,
                Dir::Down => Dir::Left,
                Dir::Left => Dir::Up,
                Dir::Up => Dir::Right,
            },
            Bend::Left => match rail.dir {
                Dir::Right => Dir::Up,
                Dir::Up => Dir::Left,
                Dir::Left => Dir::Down,
                Dir::Down => Dir::Right,
            },
        }
    } else {
        rail.dir
    }
}

/// The z component of the cross product of two unit steps.
pub open spec fn cross_z(prev: Dir, next: Dir) -> int {
    dir_step(prev).0 * dir_step(next).1 - dir_step(prev).1 * dir_step(next).0
}

/// The bend that leads from travelling along `prev` to travelling along
/// `next`, by the sign of the cross product. A reversal counts as no bend.
pub open spec fn bend_of(prev: Dir, next: Dir) -> Bend {
    if cross_z(prev, next) == -1 {
        Bend::Left
    } else if cross_z(prev, next) == 0 {
        Bend::Forward
    } else {
        Bend::Right
    }
}

/// The bend that leads from travelling along `prev` to travelling along `next`.
pub fn bend_between(prev: Dir, next: Dir) -> (r: Bend)
    ensures
        r == bend_of(prev, next),
        next == turned(prev, r) || cross_z(prev, next) == 0,
{
    let p: (i32, i32) = dir_to_ivec2(&prev);
    let n: (i32, i32) = dir_to_ivec2(&next);
    let cross: i32 = p.0 * n.1 - p.1 * n.0;
    if cross == -1 {
        Bend::Left
    } else if cross == 0 {
        Bend::Forward
    } else {
        Bend::Right
    }
}

/// The tile index of a rail path: each tile key leads to the last segment
/// filed under it.
pub open spec fn rail_index(rail: Seq<Rail>) -> Map<(u8, u8), u32>
    decreases rail.len(),
{
    if rail.len() == 0 {
        Map::empty()
    } else {
        rail_index(rail.drop_last()).insert(
            tile_key_of(rail.last().pos),
            (rail.len() - 1) as u32,
        )
    }
}

/// A tile key is in the index exactly if some segment lies under it, and
/// what it leads to is such a segment.
pub proof fn lemma_rail_index_keys(rail: Seq<Rail>, k: (u8, u8))
    requires
        rail.len() <= 0x1_0000_0000,
    ensures
        rail_index(rail).contains_key(k) <==> exists|i: int|
            0 <= i < rail.len() && tile_key_of((#[trigger] rail[i]).pos) == k,
        rail_index(rail).contains_key(k) ==> {
            &&& rail_index(rail)[k] < rail.len()
            &&& tile_key_of(rail[rail_index(rail)[k] as int].pos) == k
            &&& forall|i: int|
                rail_index(rail)[k] < i < rail.len() ==> tile_key_of((#[trigger] rail[i]).pos) != k
        },
    decreases rail.len(),
{
    if rail.len() > 0 {
        let front = rail.drop_last();
        lemma_rail_index_keys(front, k);
        if tile_key_of(rail.last().pos) == k {
            assert(tile_key_of(rail[rail.len() - 1].pos) == k);
        } else if rail_index(front).contains_key(k) {
            let i = choose|i: int| 0 <= i < front.len() && tile_key_of((#[trigger] front[i]).pos) == k;
            assert(rail[i] == front[i]);
            assert(rail[rail_index(rail)[k] as int] == front[rail_index(front)[k] as int]);
            assert forall|i: int| rail_index(rail)[k] < i < rail.len() implies tile_key_of(
                (#[trigger] rail[i]).pos,
            ) != k by {
                if i < front.len() {
                    assert(rail[i] == front[i]);
                }
            }
        } else {
            if exists|i: int| 0 <= i < rail.len() && tile_key_of((#[trigger] rail[i]).pos) == k {
                let i = choose|i: int|
                    0 <= i < rail.len() && tile_key_of((#[trigger] rail[i]).pos) == k;
                assert(front[i] == rail[i]);
            }
        }
    }
}

/// Rebuilds the tile index of the rail path.
pub fn regen_rail_by_tile(rail: &Vec<Rail>, rail_by_tile: &mut BTreeMap<(u8, u8), u32>)
    requires
        rail@.len() <= 0x1_0000_0000,
    ensures
        final(rail_by_tile)@ == rail_index(rail@),
{
    rail_by_tile.clear();
    let n: usize = rail.len();
    let mut i: usize = 0;
    while i < n
        invariant
            i <= n,
            n == rail@.len(),
            n <= 0x1_0000_0000,
            rail_by_tile@ == rail_index(rail@.take(i as int)),
        decreases n - i,
    {
        proof {
            assert(rail@.take(i as int + 1).drop_last() =~= rail@.take(i as int));
        }
        tile_file(rail_by_tile, tile_key(rail[i].pos), i as u32);
        i += 1;
    }
    proof {
        assert(rail@.take(n as int) =~= rail@);
    }
}

/// The 5 by 5 window of the reroute, row by row: `grid[y][x]`, 1 for a marked cell.
pub type Grid = [[u8; 5]; 5];

/// The mark of cell (`x`, `y`) of a grid.
pub open spec fn cell(grid: Grid, x: int, y: int) -> u8 {
    grid@[y]@[x]
}

/// Whether (`x`, `y`) is a cell of the window.
pub open spec fn in_window(x: int, y: int) -> bool {
    0 <= x <= 4 && 0 <= y <= 4
}

/// Where the first `n` steps of `path` lead from `start`.
pub open spec fn walk_pos(start: (int, int), path: Seq<Dir>, n: int) -> (int, int)
    decreases n,
{
    if n <= 0 {
        start
    } else {
        let p = walk_pos(start, path, n - 1);
        (p.0 + dir_step(path[n - 1]).0, p.1 + dir_step(path[n - 1]).1)
    }
}

/// The steps of `path` stay in the window, enter no obstacle and no cell
/// twice, and the cells they reach are none of them `stop` before the last.
pub open spec fn walk_clear(obstacles: Grid, start: (int, int), stop: (int, int), path: Seq<Dir>) -> bool {
    &&& forall|i: int|
        1 <= i <= path.len() ==> {
            let p = #[trigger] walk_pos(start, path, i);
            in_window(p.0, p.1) && cell(obstacles, p.0, p.1) != 1
        }
    &&& forall|i: int, j: int|
        0 <= i < j <= path.len() ==> #[trigger] walk_pos(start, path, i) != #[trigger] walk_pos(
            start,
            path,
            j,
        )
    &&& forall|i: int| 1 <= i < path.len() ==> #[trigger] walk_pos(start, path, i) != stop
}

/// `path` is a walk from `start` to `stop` of at least one step that stays in
/// the window, enters no obstacle and no cell twice, and ends when it first
/// reaches `stop`.
pub open spec fn walk_ok(obstacles: Grid, start: (int, int), stop: (int, int), path: Seq<Dir>) -> bool {
    &&& 1 <= path.len()
    &&& walk_clear(obstacles, start, stop, path)
    &&& walk_pos(start, path, path.len() as int) == stop
}

/// Where one step along `dir` from (`x`, `y`) leads, if that cell is in the
/// window, is no obstacle and was not visited.
pub open spec fn step_target(obstacles: Grid, visited: Grid, x: int, y: int, dir: Dir) -> Option<
    (usize, usize),
> {
    let nx = x + dir_step(dir).0;
    let ny = y + dir_step(dir).1;
    if in_window(nx, ny) && cell(obstacles, nx, ny) != 1 && cell(visited, nx, ny) != 1 {
        Some((nx as usize, ny as usize))
    } else {
        None
    }
}

/// Tries one step of the walk.
pub fn try_step(obstacles: &Grid, visited: &Grid, pos_x: usize, pos_y: usize, dir: Dir) -> (r:
    Option<(usize, usize)>)
    requires
        pos_x <= 4,
        pos_y <= 4,
    ensures
        r == step_target(*obstacles, *visited, pos_x as int, pos_y as int, dir),
{
    let d: (i32, i32) = dir_to_ivec2(&dir);
    let next_x: i32 = pos_x as i32 + d.0;
    let next_y: i32 = pos_y as i32 + d.1;
    if !(0 <= next_x && next_x <= 4) {
        return None;
    }
    if !(0 <= next_y && next_y <= 4) {
        return None;
    }
    if obstacles[next_y as usize][next_x as usize] == 1 {
        return None;
    }
    if visited[next_y as usize][next_x as usize] == 1 {
        return None;
    }
    Some((next_x as usize, next_y as usize))
}

/// A longer path leads to the same cells on its first steps.
pub proof fn lemma_walk_pos_push(start: (int, int), path: Seq<Dir>, d: Dir, n: int)
    requires
        n <= path.len(),
    ensures
        walk_pos(start, path.push(d), n) == walk_pos(start, path, n),
    decreases n,
{
    if n > 0 {
        lemma_walk_pos_push(start, path, d, n - 1);
    }
}

/// Sets the mark of cell (`x`, `y`).
fn set_cell(grid: &mut Grid, x: usize, y: usize, v: u8)
    requires
        x <= 4,
        y <= 4,
    ensures
        forall|cx: int, cy: int|
            in_window(cx, cy) ==> #[trigger] cell(*final(grid), cx, cy) == (if cx == x && cy == y {
                v
            } else {
                cell(*old(grid), cx, cy)
            }),
{
    let mut row: [u8; 5] = grid[y];
    row[x] = v;
    grid[y] = row;
}

/// Whether the walk that has taken the steps of `path` may step on along
/// `dir`: the cell there is in the window, is no obstacle, and is none of
/// the cells the walk has been on.
pub open spec fn step_free(obstacles: Grid, start: (int, int), path: Seq<Dir>, dir: Dir) -> bool {
    let here = walk_pos(start, path, path.len() as int);
    let next = (here.0 + dir_step(dir).0, here.1 + dir_step(dir).1);
    &&& in_window(next.0, next.1)
    &&& cell(obstacles, next.0, next.1) != 1
    &&& forall|i: int| 0 <= i <= path.len() ==> #[trigger] walk_pos(start, path, i) != next
}

/// The walk after the first `n` directions of `picks` were offered to it: the
/// steps it has taken, how many directions in a row it has refused, and how
/// it ended, if it has. A direction that is free is taken as a step. The
/// step that reaches `stop` ends the walk well; the 26th step ends it badly,
/// as does the 16th direction refused in a row. Once the walk has ended,
/// further directions change nothing.
pub open spec fn walk_after(
    obstacles: Grid,
    start: (int, int),
    stop: (int, int),
    picks: Seq<Dir>,
    n: int,
) -> (Seq<Dir>, int, Option<bool>)
    decreases n,
{
    if n <= 0 {
        (Seq::<Dir>::empty(), 0, None)
    } else {
        let prev = walk_after(obstacles, start, stop, picks, n - 1);
        if prev.2 is Some {
            prev
        } else if step_free(obstacles, start, prev.0, picks[n - 1]) {
            let path = prev.0.push(picks[n - 1]);
            if walk_pos(start, path, path.len() as int) == stop {
                (path, 0, Some(true))
            } else if path.len() == 26 {
                (path, 0, Some(false))
            } else {
                (path, 0, None)
            }
        } else if prev.1 + 1 == 16 {
            (prev.0, 16, Some(false))
        } else {
            (prev.0, prev.1 + 1, None)
        }
    }
}

/// What the picker is told of a walk that has taken the steps of `path`: the
/// number of steps, the cell the walk stands on, the cell it heads for, and
/// the direction of the last step, or the direction of entry before the first.
pub open spec fn asked(start: (int, int), start_dir: Dir, stop: (int, int), path: Seq<Dir>) -> (
    u32,
    (usize, usize),
    (usize, usize),
    Dir,
) {
    let here = walk_pos(start, path, path.len() as int);
    (
        path.len() as u32,
        (here.0 as usize, here.1 as usize),
        (stop.0 as usize, stop.1 as usize),
        if path.len() == 0 {
            start_dir
        } else {
            path.last()
        },
    )
}

/// The walk from `start` to `end` was made with the directions `picks`, ended
/// with the last of them, took the steps of `path`, and ended well (`r`) or
/// badly: each direction is one that `pick` gave when it was told of the walk
/// as it stood, and the walk had not ended before it.
pub open spec fn walked<F: Fn(u32, (usize, usize), (usize, usize), Dir) -> Dir>(
    pick: &F,
    obstacles: Grid,
    start: Tile,
    start_dir: Dir,
    end: Tile,
    picks: Seq<Dir>,
    r: bool,
    path: Seq<Dir>,
) -> bool {
    let from = (start.x as int, start.y as int);
    let stop = (end.x as int, end.y as int);
    &&& forall|i: int|
        0 <= i < picks.len() ==> {
            let before = #[trigger] walk_after(obstacles, from, stop, picks, i);
            &&& before.2 is None
            &&& call_ensures(pick, asked(from, start_dir, stop, before.0), picks[i])
        }
    &&& walk_after(obstacles, from, stop, picks, picks.len() as int).0 == path
    &&& walk_after(obstacles, from, stop, picks, picks.len() as int).2 == Some(r)
}

/// Directions offered later do not change what the walk was before them.
pub proof fn lemma_walk_after_push(
    obstacles: Grid,
    start: (int, int),
    stop: (int, int),
    picks: Seq<Dir>,
    d: Dir,
    n: int,
)
    requires
        n <= picks.len(),
    ensures
        walk_after(obstacles, start, stop, picks.push(d), n) == walk_after(
            obstacles,
            start,
            stop,
            picks,
            n,
        ),
    decreases n,
{
    if n > 0 {
        lemma_walk_after_push(obstacles, start, stop, picks, d, n - 1);
        assert(picks.push(d)[n - 1] == picks[n - 1]);
    }
}

/// Walks at random from `start` to `end` through the window. Each step asks
/// `pick` for a direction, up to 16 times, giving it the number of steps
/// taken, the cell the walk stands on, the cell it heads for and the direction
/// of the last step; the first direction that leads to a cell of the window
/// which is no obstacle and was not visited is taken. The walk fails where 16
/// directions in a row were refused. The steps taken are appended to `out`;
/// on success they are a walk from `start` to `end`. What is returned and
/// appended is what `walk_after` gives for the directions that `pick` gave.
pub fn obfuscate<F: Fn(u32, (usize, usize), (usize, usize), Dir) -> Dir>(
    obstacles: Grid,
    start: Tile,
    start_dir: Dir,
    end: Tile,
    out: &mut Vec<Dir>,
    pick: &F,
) -> (r: bool)
    requires
        start.x <= 4,
        start.y <= 4,
        forall|steps: u32, pos: (usize, usize), goal: (usize, usize), dir: Dir|
            call_requires(pick, (steps, pos, goal, dir)),
    ensures
        old(out)@.len() <= final(out)@.len() <= old(out)@.len() + 26,
        final(out)@.take(old(out)@.len() as int) == old(out)@,
        exists|picks: Seq<Dir>| #[trigger]
            walked(
                pick,
                obstacles,
                start,
                start_dir,
                end,
                picks,
                r,
                final(out)@.skip(old(out)@.len() as int),
            ),
        r ==> walk_ok(
            obstacles,
            (start.x as int, start.y as int),
            (end.x as int, end.y as int),
            final(out)@.skip(old(out)@.len() as int),
        ),
        !r ==> walk_clear(
            obstacles,
            (start.x as int, start.y as int),
            (end.x as int, end.y as int),
            final(out)@.skip(old(out)@.len() as int),
        ),
{
    let mut visited: Grid = [[0u8; 5]; 5];
    let mut steps: u32 = 0;
    let mut pos_x: usize = start.x as usize;
    let mut pos_y: usize = start.y as usize;
    let mut prev_dir: Dir = start_dir;
    let goal: (usize, usize) = (end.x as usize, end.y as usize);
    let ghost from = (start.x as int, start.y as int);
    let ghost stop = (end.x as int, end.y as int);
    let ghost n0 = out@.len() as int;
    let ghost mut picks: Seq<Dir> = Seq::empty();
    proof {
        assert(out@.skip(n0) =~= Seq::<Dir>::empty());
        assert(out@.take(n0) =~= out@);
        assert forall|cx: int, cy: int| in_window(cx, cy) implies #[trigger] cell(visited, cx, cy)
            == 0 by {}
    }
    loop
        invariant
            n0 == old(out)@.len(),
            from == (start.x as int, start.y as int),
            stop == (end.x as int, end.y as int),
            goal == (end.x as usize, end.y as usize),
            forall|s: u32, p: (usize, usize), g: (usize, usize), d: Dir|
                call_requires(pick, (s, p, g, d)),
            n0 <= out@.len(),
            out@.take(n0) == old(out)@,
            steps <= 25,
            steps == out@.len() - n0,
            pos_x <= 4,
            pos_y <= 4,
            (pos_x as int, pos_y as int) == walk_pos(from, out@.skip(n0), steps as int),
            walk_clear(obstacles, from, stop, out@.skip(n0)),
            steps >= 1 ==> (pos_x as int, pos_y as int) != stop,
            forall|cx: int, cy: int|
                in_window(cx, cy) ==> (#[trigger] cell(visited, cx, cy) == 1 <==> exists|i: int|
                    0 <= i < steps && walk_pos(from, out@.skip(n0), i) == (cx, cy)),
            prev_dir == (if steps == 0 {
                start_dir
            } else {
                out@.skip(n0).last()
            }),
            walk_after(obstacles, from, stop, picks, picks.len() as int) == (
                out@.skip(n0),
                0int,
                None::<bool>,
            ),
            forall|i: int|
                0 <= i < picks.len() ==> {
                    let before = #[trigger] walk_after(obstacles, from, stop, picks, i);
                    &&& before.2 is None
                    &&& call_ensures(pick, asked(from, start_dir, stop, before.0), picks[i])
                },
        decreases 26 - steps,
    {
        let ghost path = out@.skip(n0);
        let ghost seen = visited;
        set_cell(&mut visited, pos_x, pos_y, 1);
        proof {
            assert forall|cx: int, cy: int| in_window(cx, cy) implies (#[trigger] cell(
                visited,
                cx,
                cy,
            ) == 1 <==> exists|i: int| 0 <= i <= steps && walk_pos(from, path, i) == (cx, cy)) by {
                if cell(seen, cx, cy) == 1 {
                    let i = choose|i: int| 0 <= i < steps && walk_pos(from, path, i) == (cx, cy);
                    assert(0 <= i <= steps && walk_pos(from, path, i) == (cx, cy));
                }
                if exists|i: int| 0 <= i <= steps && walk_pos(from, path, i) == (cx, cy) {
                    let i = choose|i: int| 0 <= i <= steps && walk_pos(from, path, i) == (cx, cy);
                    if i < steps {
                        assert(cell(seen, cx, cy) == 1);
                    }
                }
            }
        }
        let mut success: bool = false;
        let mut tries: u32 = 0;
        while tries < 16 && !success
            invariant
                tries <= 16,
                n0 == old(out)@.len(),
                from == (start.x as int, start.y as int),
                stop == (end.x as int, end.y as int),
                goal == (end.x as usize, end.y as usize),
                path.len() == steps,
                forall|s: u32, p: (usize, usize), g: (usize, usize), d: Dir|
                    call_requires(pick, (s, p, g, d)),
                n0 <= out@.len(),
                out@.take(n0) == old(out)@,
                steps <= 25,
                pos_x <= 4,
                pos_y <= 4,
                forall|cx: int, cy: int|
                    in_window(cx, cy) ==> (#[trigger] cell(visited, cx, cy) == 1 <==> exists|
                        i: int,
                    | 0 <= i <= steps && walk_pos(from, path, i) == (cx, cy)),
                !success ==> out@.skip(n0) == path && (pos_x as int, pos_y as int) == walk_pos(
                    from,
                    path,
                    steps as int,
                ) && prev_dir == (if steps == 0 {
                    start_dir
                } else {
                    path.last()
                }),
                !success ==> walk_after(obstacles, from, stop, picks, picks.len() as int) == (
                    path,
                    tries as int,
                    if tries == 16 {
                        Some(false)
                    } else {
                        None::<bool>
                    },
                ),
                success ==> {
                    &&& out@.skip(n0).len() == steps + 1
                    &&& out@.skip(n0).drop_last() == path
                    &&& prev_dir == out@.skip(n0).last()
                    &&& step_target(
                        obstacles,
                        visited,
                        walk_pos(from, path, steps as int).0,
                        walk_pos(from, path, steps as int).1,
                        out@.skip(n0).last(),
                    ) == Some((pos_x, pos_y))
                    &&& walk_after(obstacles, from, stop, picks, picks.len() as int) == (
                        out@.skip(n0),
                        0int,
                        if (pos_x as int, pos_y as int) == stop {
                            Some(true)
                        } else if steps == 25 {
                            Some(false)
                        } else {
                            None::<bool>
                        },
                    )
                },
                forall|i: int|
                    0 <= i < picks.len() ==> {
                        let before = #[trigger] walk_after(obstacles, from, stop, picks, i);
                        &&& before.2 is None
                        &&& call_ensures(pick, asked(from, start_dir, stop, before.0), picks[i])
                    },
            decreases 16 - tries,
        {
            let picked: Dir = pick(steps, (pos_x, pos_y), goal, prev_dir);
            let ghost offered = picks;
            let target: Option<(usize, usize)> = try_step(
                &obstacles,
                &visited,
                pos_x,
                pos_y,
                picked,
            );
            proof {
                picks = offered.push(picked);
                let m = offered.len() as int;
                assert(asked(from, start_dir, stop, path) == (
                    steps,
                    (pos_x, pos_y),
                    goal,
                    prev_dir,
                ));
                assert forall|i: int| 0 <= i < picks.len() implies {
                    let before = #[trigger] walk_after(obstacles, from, stop, picks, i);
                    &&& before.2 is None
                    &&& call_ensures(pick, asked(from, start_dir, stop, before.0), picks[i])
                } by {
                    lemma_walk_after_push(obstacles, from, stop, offered, picked, i);
                    if i < m {
                        assert(picks[i] == offered[i]);
                        let before = walk_after(obstacles, from, stop, offered, i);
                        assert(before.2 is None);
                    }
                }
                lemma_walk_after_push(obstacles, from, stop, offered, picked, m);
                let here = walk_pos(from, path, path.len() as int);
                let next = (here.0 + dir_step(picked).0, here.1 + dir_step(picked).1);
                if in_window(next.0, next.1) {
                    if cell(visited, next.0, next.1) == 1 {
                        let i = choose|i: int| 0 <= i <= steps && walk_pos(from, path, i) == next;
                        assert(walk_pos(from, path, i) == next);
                    }
                }
                assert(step_free(obstacles, from, path, picked) == (target is Some));
                assert(picks[m] == picked);
            }
            match target {
                None => {},
                Some(next) => {
                    let ghost before = out@;
                    out.push(picked);
                    proof {
                        assert(out@.skip(n0) =~= before.skip(n0).push(picked));
                        assert(out@.skip(n0).drop_last() =~= path);
                        assert(out@.skip(n0).last() == picked);
                        assert(out@.take(n0) =~= before.take(n0));
                        let longer = path.push(picked);
                        assert(out@.skip(n0) == longer);
                        lemma_walk_pos_push(from, path, picked, steps as int);
                        assert(walk_pos(from, longer, longer.len() as int) == (
                            next.0 as int,
                            next.1 as int,
                        ));
                    }
                    prev_dir = picked;
                    pos_x = next.0;
                    pos_y = next.1;
                    success = true;
                },
            }
            tries += 1;
        }
        if !success {
            proof {
                assert(walked(pick, obstacles, start, start_dir, end, picks, false, out@.skip(n0)));
            }
            return false;
        }
        proof {
            let longer = out@.skip(n0);
            let d = longer.last();
            assert(longer =~= path.push(d));
            assert forall|i: int| 0 <= i <= steps implies walk_pos(from, longer, i) == walk_pos(
                from,
                path,
                i,
            ) by {
                lemma_walk_pos_push(from, path, d, i);
            }
            let here = walk_pos(from, longer, steps + 1);
            assert(here == (pos_x as int, pos_y as int));
            assert(cell(visited, here.0, here.1) != 1);
            assert forall|i: int| 0 <= i <= steps implies walk_pos(from, longer, i) != here by {
                if walk_pos(from, path, i) == here {
                    assert(cell(visited, here.0, here.1) == 1);
                }
            }
            assert forall|i: int| 1 <= i <= longer.len() implies {
                let p = #[trigger] walk_pos(from, longer, i);
                in_window(p.0, p.1) && cell(obstacles, p.0, p.1) != 1
            } by {
                if i <= steps {
                    assert(walk_pos(from, longer, i) == walk_pos(from, path, i));
                }
            }
            assert forall|i: int, j: int| 0 <= i < j <= longer.len() implies #[trigger] walk_pos(
                from,
                longer,
                i,
            ) != #[trigger] walk_pos(from, longer, j) by {
                assert(walk_pos(from, longer, i) == walk_pos(from, path, i));
                if j <= steps {
                    assert(walk_pos(from, longer, j) == walk_pos(from, path, j));
                }
            }
            assert forall|i: int| 1 <= i < longer.len() implies #[trigger] walk_pos(
                from,
                longer,
                i,
            ) != stop by {
                assert(walk_pos(from, longer, i) == walk_pos(from, path, i));
            }
            assert forall|cx: int, cy: int| in_window(cx, cy) implies (#[trigger] cell(
                visited,
                cx,
                cy,
            ) == 1 <==> exists|i: int|
                0 <= i < steps + 1 && walk_pos(from, longer, i) == (cx, cy)) by {
                if cell(visited, cx, cy) == 1 {
                    let i = choose|i: int| 0 <= i <= steps && walk_pos(from, path, i) == (cx, cy);
                    assert(walk_pos(from, longer, i) == (cx, cy));
                }
                if exists|i: int| 0 <= i < steps + 1 && walk_pos(from, longer, i) == (cx, cy) {
                    let i = choose|i: int|
                        0 <= i < steps + 1 && walk_pos(from, longer, i) == (cx, cy);
                    assert(walk_pos(from, path, i) == (cx, cy));
                }
            }
        }
        if pos_x == goal.0 && pos_y == goal.1 {
            proof {
                assert(walked(pick, obstacles, start, start_dir, end, picks, true, out@.skip(n0)));
            }
            return true;
        }
        if steps == 25 {
            proof {
                assert(walked(pick, obstacles, start, start_dir, end, picks, false, out@.skip(n0)));
            }
            return false;
        }
        steps += 1;
    }
}

/// Whether a window of 5 by 5 tiles around `center`, two tiles to the left
/// and above it, lies far enough inside the world.
pub open spec fn center_ok(center: Tile, world_size: Tile) -> bool {
    &&& 2 <= center.x
    &&& center.x + 4 <= world_size.x
    &&& 2 <= center.y
    &&& center.y + 4 <= world_size.y
}

/// The top left tile of the window around `center`.
pub open spec fn window_corner(center: Tile) -> Tile {
    Tile { x: (center.x - 2) as u32, y: (center.y - 2) as u32 }
}

/// Whether a tile lies in the window whose top left tile is `tl`.
pub open spec fn inside(tl: Tile, pos: Tile) -> bool {
    tl.x <= pos.x < tl.x + 5 && tl.y <= pos.y < tl.y + 5
}

/// The segments `enter..exit` are the last stretch of the rail path that
/// lies in the window.
pub open spec fn is_last_run(rail: Seq<Rail>, tl: Tile, enter: int, exit: int) -> bool {
    &&& 0 <= enter < exit <= rail.len()
    &&& forall|k: int| enter <= k < exit ==> inside(tl, (#[trigger] rail[k]).pos)
    &&& enter > 0 ==> !inside(tl, rail[enter - 1].pos)
    &&& forall|k: int| exit <= k < rail.len() ==> !inside(tl, (#[trigger] rail[k]).pos)
}

/// Whether one of the segments `lo..hi` lies on the tile (`x`, `y`).
pub open spec fn lies_on(rail: Seq<Rail>, lo: int, hi: int, x: int, y: int) -> bool {
    exists|k: int| lo <= k < hi && (#[trigger] rail[k]).pos.x == x && rail[k].pos.y == y
}

/// The grid marks the cells of the window on which the rail lies, but for
/// the cells of the stretch `enter..exit`, which are free.
pub open spec fn is_detour_grid(grid: Grid, rail: Seq<Rail>, tl: Tile, enter: int, exit: int) -> bool {
    forall|cx: int, cy: int|
        in_window(cx, cy) ==> #[trigger] cell(grid, cx, cy) == (if lies_on(
            rail,
            0,
            rail.len() as int,
            tl.x + cx,
            tl.y + cy,
        ) && !lies_on(rail, enter, exit, tl.x + cx, tl.y + cy) {
            1u8
        } else {
            0u8
        })
}

/// The direction in which the stretch that starts at segment `enter` is
/// entered: the direction in which the segment before it is left, or to the
/// right where the path starts with it.
pub open spec fn entry_dir(rail: Seq<Rail>, enter: int) -> Dir {
    if enter == 0 {
        Dir::Right
    } else {
        turned(rail[enter - 1].dir, rail[enter - 1].bend)
    }
}

/// A stretch of the rail path that may be rerouted, and the window it lies in.
#[derive(Clone, Copy, Debug)]
pub struct Detour {
    /// Top left tile of the window.
    pub tl: Tile,
    /// The cells of the window that the new stretch must not enter.
    pub obstacles: Grid,
    /// First segment of the stretch.
    pub enter_idx: usize,
    /// First segment after the stretch.
    pub exit_idx: usize,
    /// Direction in which the stretch is entered.
    pub enter_dir: Dir,
    /// Cell of the first segment of the stretch, counted from `tl`.
    pub start: Tile,
    /// Cell of the last segment of the stretch, counted from `tl`.
    pub end: Tile,
}

/// What `plan_detour` finds for a stretch `enter..exit`.
pub open spec fn is_detour(d: Detour, center: Tile, rail: Seq<Rail>) -> bool {
    &&& d.tl == window_corner(center)
    &&& is_last_run(rail, d.tl, d.enter_idx as int, d.exit_idx as int)
    &&& d.exit_idx < rail.len()
    &&& is_detour_grid(d.obstacles, rail, d.tl, d.enter_idx as int, d.exit_idx as int)
    &&& d.enter_dir == entry_dir(rail, d.enter_idx as int)
    &&& d.start.x == rail[d.enter_idx as int].pos.x - d.tl.x
    &&& d.start.y == rail[d.enter_idx as int].pos.y - d.tl.y
    &&& d.end.x == rail[d.exit_idx - 1].pos.x - d.tl.x
    &&& d.end.y == rail[d.exit_idx - 1].pos.y - d.tl.y
}

/// Whether the path has a stretch in the window around `center` that can be
/// rerouted: the window lies in the world, the path passes through it, and
/// the path goes on after its last stretch in it.
pub open spec fn detour_possible(center: Tile, rail: Seq<Rail>, world_size: Tile) -> bool {
    &&& center_ok(center, world_size)
    &&& exists|enter: int, exit: int| #[trigger]
        is_last_run(rail, window_corner(center), enter, exit) && exit < rail.len()
}

/// The last stretch of the path in the window is the only one that
/// `is_last_run` accepts.
pub proof fn lemma_last_run_unique(rail: Seq<Rail>, tl: Tile, e1: int, x1: int, e2: int, x2: int)
    requires
        is_last_run(rail, tl, e1, x1),
        is_last_run(rail, tl, e2, x2),
    ensures
        e1 == e2,
        x1 == x2,
{
    if x1 < x2 {
        assert(inside(tl, rail[x2 - 1].pos));
        assert(!inside(tl, rail[x2 - 1].pos));
    }
    if x2 < x1 {
        assert(inside(tl, rail[x1 - 1].pos));
        assert(!inside(tl, rail[x1 - 1].pos));
    }
    if e1 < e2 {
        assert(inside(tl, rail[e2 - 1].pos));
    }
    if e2 < e1 {
        assert(inside(tl, rail[e1 - 1].pos));
    }
}

/// What is known of the last stretch in the window once the segments before
/// `i` were looked at.
spec fn run_seen(
    rail: Seq<Rail>,
    tl: Tile,
    i: int,
    enter: Option<usize>,
    exit: Option<usize>,
    prev_inside: bool,
) -> bool {
    &&& prev_inside == (i > 0 && inside(tl, rail[i - 1].pos))
    &&& match enter {
        None => exit is None && forall|k: int| 0 <= k < i ==> !inside(tl, (#[trigger] rail[k]).pos),
        Some(e) => {
            &&& e < i
            &&& e > 0 ==> !inside(tl, rail[e - 1].pos)
            &&& match exit {
                None => forall|k: int| e <= k < i ==> inside(tl, (#[trigger] rail[k]).pos),
                Some(x) => {
                    &&& e < x < i
                    &&& forall|k: int| e <= k < x ==> inside(tl, (#[trigger] rail[k]).pos)
                    &&& forall|k: int| x <= k < i ==> !inside(tl, (#[trigger] rail[k]).pos)
                },
            }
        },
    }
}

/// Finds the last stretch of the rail path in the window around `center`
/// and what a reroute of it has to respect. `None` where the window does not
/// lie in the world, the path does not pass through it, or the path ends in it.
pub fn plan_detour(center: Tile, rail: &Vec<Rail>, world_size: Tile) -> (r: Option<Detour>)
    ensures
        r is Some <==> detour_possible(center, rail@, world_size),
        r is Some ==> is_detour(r->0, center, rail@),
{
    if 2 > center.x || world_size.x < 4 || center.x > world_size.x - 4 || 2 > center.y
        || world_size.y < 4 || center.y > world_size.y - 4 {
        return None;
    }
    let tl: Tile = Tile { x: center.x - 2, y: center.y - 2 };
    let br: Tile = Tile { x: center.x + 3, y: center.y + 3 };
    let mut enter_idx: Option<usize> = None;
    let mut exit_idx: Option<usize> = None;
    let mut prev_inside: bool = false;
    let mut obstacles: Grid = [[0u8; 5]; 5];
    let n: usize = rail.len();
    let mut i: usize = 0;
    while i < n
        invariant
            i <= n,
            n == rail@.len(),
            tl == window_corner(center),
            br.x == tl.x + 5,
            br.y == tl.y + 5,
            run_seen(rail@, tl, i as int, enter_idx, exit_idx, prev_inside),
            forall|cx: int, cy: int|
                in_window(cx, cy) ==> #[trigger] cell(obstacles, cx, cy) == (if lies_on(
                    rail@,
                    0,
                    i as int,
                    tl.x + cx,
                    tl.y + cy,
                ) {
                    1u8
                } else {
                    0u8
                }),
        decreases n - i,
    {
        let pos: Tile = rail[i].pos;
        let rail_inside: bool = tl.x <= pos.x && pos.x < br.x && tl.y <= pos.y && pos.y < br.y;
        let ghost marks = obstacles;
        if rail_inside {
            set_cell(&mut obstacles, (pos.x - tl.x) as usize, (pos.y - tl.y) as usize, 1);
        }
        proof {
            assert forall|cx: int, cy: int| in_window(cx, cy) implies #[trigger] cell(
                obstacles,
                cx,
                cy,
            ) == (if lies_on(rail@, 0, i as int + 1, tl.x + cx, tl.y + cy) {
                1u8
            } else {
                0u8
            }) by {
                if lies_on(rail@, 0, i as int, tl.x + cx, tl.y + cy) {
                    let k = choose|k: int|
                        0 <= k < i && (#[trigger] rail@[k]).pos.x == tl.x + cx && rail@[k].pos.y
                            == tl.y + cy;
                    assert(0 <= k < i + 1);
                }
                if lies_on(rail@, 0, i as int + 1, tl.x + cx, tl.y + cy) {
                    let k = choose|k: int|
                        0 <= k < i + 1 && (#[trigger] rail@[k]).pos.x == tl.x + cx
                            && rail@[k].pos.y == tl.y + cy;
                    if k < i {
                        assert(lies_on(rail@, 0, i as int, tl.x + cx, tl.y + cy));
                    }
                }
                if pos.x == tl.x + cx && pos.y == tl.y + cy {
                    assert(rail@[i as int].pos.x == tl.x + cx);
                }
            }
        }
        if !prev_inside && rail_inside {
            enter_idx = Some(i);
            exit_idx = None;
        } else if prev_inside && !rail_inside {
            exit_idx = Some(i);
        }
        prev_inside = rail_inside;
        i += 1;
    }
    let enter: usize = match enter_idx {
        None => {
            proof {
                assert forall|e: int, x: int| !(#[trigger] is_last_run(rail@, tl, e, x)) by {
                    if is_last_run(rail@, tl, e, x) {
                        assert(inside(tl, rail@[e].pos));
                    }
                }
            }
            return None;
        },
        Some(e) => e,
    };
    let exit: usize = match exit_idx {
        None => {
            proof {
                assert(is_last_run(rail@, tl, enter as int, n as int));
                assert forall|e: int, x: int| #[trigger]
                    is_last_run(rail@, tl, e, x) implies x == n by {
                    lemma_last_run_unique(rail@, tl, e, x, enter as int, n as int);
                }
            }
            return None;
        },
        Some(x) => x,
    };
    proof {
        assert(is_last_run(rail@, tl, enter as int, exit as int));
    }
    let mut j: usize = enter;
    while j < exit
        invariant
            enter <= j <= exit <= n,
            n == rail@.len(),
            is_last_run(rail@, tl, enter as int, exit as int),
            forall|cx: int, cy: int|
                in_window(cx, cy) ==> #[trigger] cell(obstacles, cx, cy) == (if lies_on(
                    rail@,
                    0,
                    n as int,
                    tl.x + cx,
                    tl.y + cy,
                ) && !lies_on(rail@, enter as int, j as int, tl.x + cx, tl.y + cy) {
                    1u8
                } else {
                    0u8
                }),
        decreases exit - j,
    {
        let pos: Tile = rail[j].pos;
        proof {
            assert(inside(tl, rail@[j as int].pos));
        }
        set_cell(&mut obstacles, (pos.x - tl.x) as usize, (pos.y - tl.y) as usize, 0);
        proof {
            assert forall|cx: int, cy: int| in_window(cx, cy) implies #[trigger] cell(
                obstacles,
                cx,
                cy,
            ) == (if lies_on(rail@, 0, n as int, tl.x + cx, tl.y + cy) && !lies_on(
                rail@,
                enter as int,
                j as int + 1,
                tl.x + cx,
                tl.y + cy,
            ) {
                1u8
            } else {
                0u8
            }) by {
                if lies_on(rail@, enter as int, j as int, tl.x + cx, tl.y + cy) {
                    let k = choose|k: int|
                        enter <= k < j && (#[trigger] rail@[k]).pos.x == tl.x + cx
                            && rail@[k].pos.y == tl.y + cy;
                    assert(enter <= k < j + 1);
                }
                if lies_on(rail@, enter as int, j as int + 1, tl.x + cx, tl.y + cy) {
                    let k = choose|k: int|
                        enter <= k < j + 1 && (#[trigger] rail@[k]).pos.x == tl.x + cx
                            && rail@[k].pos.y == tl.y + cy;
                    if k < j {
                        assert(lies_on(rail@, enter as int, j as int, tl.x + cx, tl.y + cy));
                    }
                }
                if pos.x == tl.x + cx && pos.y == tl.y + cy {
                    assert(rail@[j as int].pos.x == tl.x + cx);
                }
            }
        }
        j += 1;
    }
    let enter_dir: Dir = if enter == 0 {
        Dir::Right
    } else {
        rail_heading(&rail[enter - 1], true)
    };
    proof {
        assert(inside(tl, rail@[enter as int].pos));
        assert(inside(tl, rail@[exit - 1].pos));
    }
    let first: Tile = rail[enter].pos;
    let last: Tile = rail[exit - 1].pos;
    Some(
        Detour {
            tl,
            obstacles,
            enter_idx: enter,
            exit_idx: exit,
            enter_dir,
            start: Tile { x: first.x - tl.x, y: first.y - tl.y },
            end: Tile { x: last.x - tl.x, y: last.y - tl.y },
        },
    )
}

/// The segments that follow the directions `dirs` from the tile `start`:
/// segment `i` lies where the first `i` directions lead, is entered as the
/// segment before it is left (the first along `enter_dir`), and bends towards
/// direction `i`.
pub open spec fn stretch_of(enter_dir: Dir, start: Tile, dirs: Seq<Dir>) -> Seq<Rail> {
    Seq::new(
        dirs.len(),
        |i: int|
            {
                let p = walk_pos((start.x as int, start.y as int), dirs, i);
                let d = if i == 0 {
                    enter_dir
                } else {
                    dirs[i - 1]
                };
                Rail { pos: Tile { x: p.0 as u32, y: p.1 as u32 }, dir: d, bend: bend_of(d, dirs[i]) }
            },
    )
}

/// The rail path with the stretch `enter..exit` replaced by the segments that
/// follow `path` from the first tile of the stretch; the last new segment
/// bends towards the direction of the segment after the stretch.
pub open spec fn rerouted(rail: Seq<Rail>, enter: int, exit: int, enter_dir: Dir, path: Seq<Dir>) -> Seq<
    Rail,
> {
    rail.take(enter) + stretch_of(enter_dir, rail[enter].pos, path.push(rail[exit].dir))
        + rail.skip(exit)
}

/// `after` is `before` with its last stretch in the window around `center`
/// replaced along some walk through the window from the first tile of the
/// stretch to its last.
pub open spec fn is_reroute(before: Seq<Rail>, after: Seq<Rail>, center: Tile) -> bool {
    exists|d: Detour, path: Seq<Dir>|
        {
            &&& is_detour(d, center, before)
            &&& #[trigger] walk_ok(
                d.obstacles,
                (d.start.x as int, d.start.y as int),
                (d.end.x as int, d.end.y as int),
                path,
            )
            &&& after == rerouted(before, d.enter_idx as int, d.exit_idx as int, d.enter_dir, path)
        }
}

/// Moving the start of a walk moves every cell it reaches alike.
pub proof fn lemma_walk_pos_shift(start: (int, int), by: (int, int), path: Seq<Dir>, n: int)
    ensures
        walk_pos((start.0 + by.0, start.1 + by.1), path, n) == (
            walk_pos(start, path, n).0 + by.0,
            walk_pos(start, path, n).1 + by.1,
        ),
    decreases n,
{
    if n > 0 {
        lemma_walk_pos_shift(start, by, path, n - 1);
    }
}

/// Lays the segments of a new stretch along `dirs`, whose directions but the
/// last are a walk through the window at `tl` from the cell `start`.
fn lay_stretch(tl: Tile, start: Tile, enter_dir: Dir, dirs: &Vec<Dir>, fresh: &mut Vec<Rail>)
    requires
        dirs@.len() >= 1,
        tl.x + 4 <= u32::MAX,
        tl.y + 4 <= u32::MAX,
        start.x <= 4,
        start.y <= 4,
        forall|i: int|
            0 <= i < dirs@.len() ==> {
                let p = #[trigger] walk_pos((start.x as int, start.y as int), dirs@, i);
                in_window(p.0, p.1)
            },
    ensures
        final(fresh)@ == old(fresh)@ + stretch_of(
            enter_dir,
            Tile { x: (tl.x + start.x) as u32, y: (tl.y + start.y) as u32 },
            dirs@,
        ),
{
    let ghost rel = (start.x as int, start.y as int);
    let ghost origin = Tile { x: (tl.x + start.x) as u32, y: (tl.y + start.y) as u32 };
    let n: usize = dirs.len();
    let mut rx: u32 = start.x;
    let mut ry: u32 = start.y;
    let mut prev_dir: Dir = enter_dir;
    let mut i: usize = 0;
    while i < n
        invariant
            i <= n,
            n == dirs@.len(),
            tl.x + 4 <= u32::MAX,
            tl.y + 4 <= u32::MAX,
            start.x <= 4,
            start.y <= 4,
            rel == (start.x as int, start.y as int),
            origin == (Tile { x: (tl.x + start.x) as u32, y: (tl.y + start.y) as u32 }),
            forall|k: int|
                0 <= k < dirs@.len() ==> {
                    let p = #[trigger] walk_pos(rel, dirs@, k);
                    in_window(p.0, p.1)
                },
            i < n ==> (rx as int, ry as int) == walk_pos(rel, dirs@, i as int),
            prev_dir == (if i == 0 {
                enter_dir
            } else {
                dirs@[i - 1]
            }),
            fresh@ == old(fresh)@ + stretch_of(enter_dir, origin, dirs@).take(i as int),
        decreases n - i,
    {
        let dir: Dir = dirs[i];
        let bend: Bend = bend_between(prev_dir, dir);
        let ghost before = fresh@;
        proof {
            let p = walk_pos(rel, dirs@, i as int);
            assert(in_window(p.0, p.1));
            lemma_walk_pos_shift(rel, (tl.x as int, tl.y as int), dirs@, i as int);
        }
        fresh.push(Rail { pos: Tile { x: tl.x + rx, y: tl.y + ry }, dir: prev_dir, bend });
        proof {
            let whole = stretch_of(enter_dir, origin, dirs@);
            assert((origin.x as int, origin.y as int) == (rel.0 + tl.x, rel.1 + tl.y));
            assert(whole[i as int] == fresh@.last());
            assert(whole.take(i as int + 1) =~= whole.take(i as int).push(whole[i as int]));
            assert(fresh@ =~= old(fresh)@ + whole.take(i as int + 1));
        }
        prev_dir = dir;
        if i + 1 < n {
            proof {
                let q = walk_pos(rel, dirs@, i as int + 1);
                assert(in_window(q.0, q.1));
            }
            let d: (i32, i32) = dir_to_ivec2(&dir);
            rx = (rx as i32 + d.0) as u32;
            ry = (ry as i32 + d.1) as u32;
        }
        i += 1;
    }
    proof {
        let whole = stretch_of(enter_dir, origin, dirs@);
        assert(whole.take(n as int) =~= whole);
    }
}

/// One try at a walk: the directions that were picked, whether the walk
/// ended well, and the steps it took.
pub type WalkTry = (Seq<Dir>, bool, Seq<Dir>);

/// The walks `walks` were tried one after the other for the stretch `d`, each
/// as `pick` steered it, up to the first that ended well and 50 at the most;
/// `r` tells whether the last ended well, and `after` is the path with the
/// stretch replaced along it if it did, or else the path as it was.
pub open spec fn rerouted_by<F: Fn(u32, (usize, usize), (usize, usize), Dir) -> Dir>(
    pick: &F,
    d: Detour,
    walks: Seq<WalkTry>,
    before: Seq<Rail>,
    after: Seq<Rail>,
    r: bool,
) -> bool {
    &&& 1 <= walks.len() <= 50
    &&& forall|i: int|
        0 <= i < walks.len() ==> walked(
            pick,
            d.obstacles,
            d.start,
            d.enter_dir,
            d.end,
            (#[trigger] walks[i]).0,
            walks[i].1,
            walks[i].2,
        )
    &&& forall|i: int| 0 <= i < walks.len() - 1 ==> !(#[trigger] walks[i]).1
    &&& walks.len() == 50 || walks.last().1
    &&& r == walks.last().1
    &&& after == if r {
        rerouted(before, d.enter_idx as int, d.exit_idx as int, d.enter_dir, walks.last().2)
    } else {
        before
    }
}

/// What a reroute around `center` does to the path `before`, and whether it
/// succeeds (`r`). Where no stretch can be rerouted (see `detour_possible`)
/// it fails and the path stays. Else walks are tried for the last stretch in
/// the window, as `rerouted_by` says.
pub open spec fn rerouting<F: Fn(u32, (usize, usize), (usize, usize), Dir) -> Dir>(
    pick: &F,
    center: Tile,
    before: Seq<Rail>,
    world_size: Tile,
    after: Seq<Rail>,
    r: bool,
) -> bool {
    if !detour_possible(center, before, world_size) {
        !r && after == before
    } else {
        exists|d: Detour, walks: Seq<WalkTry>|
            is_detour(d, center, before) && #[trigger] rerouted_by(pick, d, walks, before, after, r)
    }
}

/// Reroutes the last stretch of the rail path that lies in the 5 by 5 window
/// around `center`: a random walk through the window, which `pick` steers,
/// replaces it between its first and its last tile. The walk is tried up to
/// 50 times. Returns whether the path was rerouted; where it was not, the
/// path is left as it was.
pub fn world_obfuscate<F: Fn(u32, (usize, usize), (usize, usize), Dir) -> Dir>(
    center: Tile,
    rail: &mut Vec<Rail>,
    world_size: Tile,
    pick: &F,
) -> (r: bool)
    requires
        forall|steps: u32, pos: (usize, usize), goal: (usize, usize), dir: Dir|
            call_requires(pick, (steps, pos, goal, dir)),
    ensures
        rerouting(pick, center, old(rail)@, world_size, final(rail)@, r),
        !detour_possible(center, old(rail)@, world_size) ==> !r,
        !r ==> final(rail)@ == old(rail)@,
        r ==> is_reroute(old(rail)@, final(rail)@, center),
        final(rail)@.len() <= old(rail)@.len() + 26,
{
    let plan: Detour = match plan_detour(center, rail, world_size) {
        None => {
            return false;
        },
        Some(d) => d,
    };
    proof {
        assert(inside(plan.tl, rail@[plan.enter_idx as int].pos));
        assert(inside(plan.tl, rail@[plan.exit_idx - 1].pos));
    }
    let ghost from = (plan.start.x as int, plan.start.y as int);
    let ghost stop = (plan.end.x as int, plan.end.y as int);
    let mut path: Vec<Dir> = Vec::new();
    let mut success: bool = false;
    let mut attempt: u32 = 0;
    let ghost mut walks: Seq<WalkTry> = Seq::empty();
    while attempt < 50 && !success
        invariant
            attempt <= 50,
            plan.start.x <= 4,
            plan.start.y <= 4,
            from == (plan.start.x as int, plan.start.y as int),
            stop == (plan.end.x as int, plan.end.y as int),
            forall|s: u32, p: (usize, usize), g: (usize, usize), d: Dir|
                call_requires(pick, (s, p, g, d)),
            success ==> walk_ok(plan.obstacles, from, stop, path@),
            path@.len() <= 26,
            walks.len() == attempt,
            forall|i: int|
                0 <= i < walks.len() ==> walked(
                    pick,
                    plan.obstacles,
                    plan.start,
                    plan.enter_dir,
                    plan.end,
                    (#[trigger] walks[i]).0,
                    walks[i].1,
                    walks[i].2,
                ),
            forall|i: int| 0 <= i < walks.len() - 1 ==> !(#[trigger] walks[i]).1,
            !success ==> forall|i: int| 0 <= i < walks.len() ==> !(#[trigger] walks[i]).1,
            success ==> walks.len() >= 1 && walks.last().1 && walks.last().2 == path@,
        decreases 50 - attempt,
    {
        path.clear();
        success = obfuscate(plan.obstacles, plan.start, plan.enter_dir, plan.end, &mut path, pick);
        proof {
            assert(path@.skip(0) =~= path@);
            let picks = choose|picks: Seq<Dir>| #[trigger]
                walked(
                    pick,
                    plan.obstacles,
                    plan.start,
                    plan.enter_dir,
                    plan.end,
                    picks,
                    success,
                    path@,
                );
            let tried = walks;
            walks = tried.push((picks, success, path@));
            assert forall|i: int| 0 <= i < walks.len() implies walked(
                pick,
                plan.obstacles,
                plan.start,
                plan.enter_dir,
                plan.end,
                (#[trigger] walks[i]).0,
                walks[i].1,
                walks[i].2,
            ) by {
                if i < tried.len() {
                    assert(walks[i] == tried[i]);
                }
            }
            assert forall|i: int| 0 <= i < walks.len() - 1 implies !(#[trigger] walks[i]).1 by {
                assert(walks[i] == tried[i]);
            }
        }
        attempt += 1;
    }
    if !success {
        proof {
            assert(rerouted_by(pick, plan, walks, rail@, rail@, false));
        }
        return false;
    }
    let ghost walk = path@;
    let enter: usize = plan.enter_idx;
    let exit: usize = plan.exit_idx;
    path.push(rail[exit].dir);
    proof {
        assert forall|i: int| 0 <= i < path@.len() implies {
            let p = #[trigger] walk_pos(from, path@, i);
            in_window(p.0, p.1)
        } by {
            lemma_walk_pos_push(from, walk, rail@[exit as int].dir, i);
        }
    }
    let mut fresh: Vec<Rail> = Vec::new();
    let mut k: usize = 0;
    while k < enter
        invariant
            k <= enter < rail@.len(),
            fresh@ == rail@.take(k as int),
        decreases enter - k,
    {
        fresh.push(rail[k]);
        proof {
            assert(rail@.take(k as int + 1) =~= rail@.take(k as int).push(rail@[k as int]));
        }
        k += 1;
    }
    lay_stretch(plan.tl, plan.start, plan.enter_dir, &path, &mut fresh);
    let ghost middle = fresh@;
    let n: usize = rail.len();
    let mut m: usize = exit;
    while m < n
        invariant
            exit <= m <= n,
            n == rail@.len(),
            fresh@ == middle + rail@.subrange(exit as int, m as int),
        decreases n - m,
    {
        fresh.push(rail[m]);
        proof {
            assert(rail@.subrange(exit as int, m as int + 1) =~= rail@.subrange(
                exit as int,
                m as int,
            ).push(rail@[m as int]));
        }
        m += 1;
    }
    proof {
        assert(rail@.subrange(exit as int, n as int) =~= rail@.skip(exit as int));
        let origin = Tile {
            x: (plan.tl.x + plan.start.x) as u32,
            y: (plan.tl.y + plan.start.y) as u32,
        };
        assert(origin == rail@[enter as int].pos);
        assert(fresh@ == rerouted(rail@, enter as int, exit as int, plan.enter_dir, walk));
        assert(walk_ok(plan.obstacles, from, stop, walk));
        assert(is_reroute(rail@, fresh@, center));
        assert(rerouted_by(pick, plan, walks, rail@, fresh@, true));
    }
    *rail = fresh;
    true
}

/// The segment on which a drone is, where the path may have become shorter
/// since the drone last moved: the last segment in place of one past the end.
pub fn clamp_rail_idx(rail_idx: usize, rail_len: usize) -> (r: usize)
    requires
        rail_len > 0,
    ensures
        r == if rail_idx >= rail_len {
            (rail_len - 1) as usize
        } else {
            rail_idx
        },
        r < rail_len,
{
    if rail_idx >= rail_len {
        rail_len - 1
    } else {
        rail_idx
    }
}

/// Moves a drone that has passed the end of its segment to the next one. A
/// drone that has passed the last segment is put down for removal.
pub fn enter_next_segment(
    drone: DroneId,
    rail_idx: usize,
    rail_len: usize,
    remove_drones: &mut Vec<DroneId>,
) -> (r: usize)
    requires
        rail_idx < rail_len,
    ensures
        r == rail_idx + 1,
        final(remove_drones)@ == if rail_idx + 1 == rail_len {
            old(remove_drones)@.push(drone)
        } else {
            old(remove_drones)@
        },
{
    let next: usize = rail_idx + 1;
    if next == rail_len {
        remove_drones.push(drone);
    }
    next
}

} // verus!
