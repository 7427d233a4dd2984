//! Field of view: integer ray casting over the grid's sight-blocking flags.
//!
//! A tile is visible when it lies within the sight radius and the discrete
//! line walk from the observer reaches it without crossing a sight-blocking
//! tile strictly between the two endpoints (so walls at the end of a ray are
//! themselves lit).

use vstd::prelude::*;
use crate::game::{LevelMap, Tile, tile_at, map_dims_ok, MAP_WIDTH, MAP_HEIGHT};
use crate::object::dist_sq;

verus! {

/// Sight radius used by the game.
pub const TORCH_RADIUS: i32 = 10;

pub open spec fn iabs(a: int) -> int {
    if a < 0 {
        -a
    } else {
        a
    }
}

/// One step of the classic integer line walk with error term `s.2`.
pub open spec fn walk_step(s: (int, int, int), dx: int, dy: int, sx: int, sy: int) -> (
    int,
    int,
    int,
) {
    let e2 = 2 * s.2;
    let x1 = if e2 > -dy {
        s.0 + sx
    } else {
        s.0
    };
    let err1 = if e2 > -dy {
        s.2 - dy
    } else {
        s.2
    };
    let y1 = if e2 < dx {
        s.1 + sy
    } else {
        s.1
    };
    let err2 = if e2 < dx {
        err1 + dx
    } else {
        err1
    };
    (x1, y1, err2)
}

/// Position and error term of the line walk from `(ox, oy)` toward
/// `(tx, ty)` after `k` steps.
pub open spec fn walk(ox: int, oy: int, tx: int, ty: int, k: nat) -> (int, int, int)
    decreases k,
{
    let dx = iabs(tx - ox);
    let dy = iabs(ty - oy);
    let sx: int = if ox < tx {
        1
    } else {
        -1
    };
    let sy: int = if oy < ty {
        1
    } else {
        -1
    };
    if k == 0 {
        (ox, oy, dx - dy)
    } else {
        walk_step(walk(ox, oy, tx, ty, (k - 1) as nat), dx, dy, sx, sy)
    }
}

/// Out-of-grid positions block sight, as do sight-blocking tiles.
pub open spec fn blocks_sight_at(m: Seq<Vec<Tile>>, x: int, y: int) -> bool {
    !(0 <= x < MAP_WIDTH && 0 <= y < MAP_HEIGHT) || tile_at(m, x, y).block_sight
}

/// Line of sight holds when the walk reaches the target within one step per
/// axis unit, crossing no sight-blocking tile strictly between.
pub open spec fn los_clear(m: Seq<Vec<Tile>>, ox: int, oy: int, tx: int, ty: int) -> bool {
    exists|k: int|
        #![trigger walk(ox, oy, tx, ty, k as nat)]
        0 <= k <= iabs(tx - ox) + iabs(ty - oy) && walk(ox, oy, tx, ty, k as nat).0 == tx && walk(
            ox,
            oy,
            tx,
            ty,
            k as nat,
        ).1 == ty && (forall|j: int|
            #![trigger walk(ox, oy, tx, ty, j as nat)]
            1 <= j < k ==> !blocks_sight_at(
                m,
                walk(ox, oy, tx, ty, j as nat).0,
                walk(ox, oy, tx, ty, j as nat).1,
            ))
}

/// Visibility from an observer: within the radius, with clear line of sight.
pub open spec fn spec_visible(
    m: Seq<Vec<Tile>>,
    ox: int,
    oy: int,
    tx: int,
    ty: int,
    radius: int,
) -> bool {
    dist_sq(ox, oy, tx, ty) <= radius * radius && los_clear(m, ox, oy, tx, ty)
}

/// Walk the ray toward `(tx, ty)` and report whether line of sight holds.
fn has_los(map: &LevelMap, ox: i32, oy: i32, tx: i32, ty: i32) -> (b: bool)
    requires
        map_dims_ok(map@),
        0 <= ox < MAP_WIDTH,
        0 <= oy < MAP_HEIGHT,
        0 <= tx < MAP_WIDTH,
        0 <= ty < MAP_HEIGHT,
    ensures
        b == los_clear(map@, ox as int, oy as int, tx as int, ty as int),
{
    let dx: i32 = if tx >= ox {
        tx - ox
    } else {
        ox - tx
    };
    let dy: i32 = if ty >= oy {
        ty - oy
    } else {
        oy - ty
    };
    let sx: i32 = if ox < tx {
        1
    } else {
        -1
    };
    let sy: i32 = if oy < ty {
        1
    } else {
        -1
    };
    let n: i32 = dx + dy;
    let mut x: i32 = ox;
    let mut y: i32 = oy;
    let mut err: i32 = dx - dy;
    let mut k: i32 = 0;
    while k <= n
        invariant
            map_dims_ok(map@),
            0 <= ox < MAP_WIDTH,
            0 <= oy < MAP_HEIGHT,
            0 <= tx < MAP_WIDTH,
            0 <= ty < MAP_HEIGHT,
            dx == iabs(tx - ox),
            dy == iabs(ty - oy),
            sx == (if ox < tx {
                1int
            } else {
                -1int
            }),
            sy == (if oy < ty {
                1int
            } else {
                -1int
            }),
            n == dx + dy,
            0 <= k <= n + 1,
            ox - k <= x <= ox + k,
            oy - k <= y <= oy + k,
            -150 <= err <= 150,
            (x as int, y as int, err as int) == walk(
                ox as int,
                oy as int,
                tx as int,
                ty as int,
                k as nat,
            ),
            forall|j: int|
                #![trigger walk(ox as int, oy as int, tx as int, ty as int, j as nat)]
                0 <= j < k ==> !(walk(ox as int, oy as int, tx as int, ty as int, j as nat).0 == tx
                    && walk(ox as int, oy as int, tx as int, ty as int, j as nat).1 == ty),
            forall|j: int|
                #![trigger walk(ox as int, oy as int, tx as int, ty as int, j as nat)]
                1 <= j < k ==> !blocks_sight_at(
                    map@,
                    walk(ox as int, oy as int, tx as int, ty as int, j as nat).0,
                    walk(ox as int, oy as int, tx as int, ty as int, j as nat).1,
                ),
        decreases n + 1 - k,
    {
        if x == tx && y == ty {
            return true;
        }
        if k >= 1 {
            let in_grid = 0 <= x && x < MAP_WIDTH && 0 <= y && y < MAP_HEIGHT;
            let blocked = if in_grid {
                map[x as usize][y as usize].block_sight
            } else {
                true
            };
            if blocked {
                proof {
                    let oxi = ox as int;
                    let oyi = oy as int;
                    let txi = tx as int;
                    let tyi = ty as int;
                    assert(blocks_sight_at(
                        map@,
                        walk(oxi, oyi, txi, tyi, k as nat).0,
                        walk(oxi, oyi, txi, tyi, k as nat).1,
                    ));
                    assert forall|k2: int|
                        #![trigger walk(oxi, oyi, txi, tyi, k2 as nat)]
                        0 <= k2 <= iabs(txi - oxi) + iabs(tyi - oyi) && walk(
                            oxi,
                            oyi,
                            txi,
                            tyi,
                            k2 as nat,
                        ).0 == txi && walk(oxi, oyi, txi, tyi, k2 as nat).1
                            == tyi implies !(forall|j: int|
                        #![trigger walk(oxi, oyi, txi, tyi, j as nat)]
                        1 <= j < k2 ==> !blocks_sight_at(
                            map@,
                            walk(oxi, oyi, txi, tyi, j as nat).0,
                            walk(oxi, oyi, txi, tyi, j as nat).1,
                        )) by {
                        assert(k2 > k);
                    }
                }
                return false;
            }
        }
        proof {
            reveal_with_fuel(walk, 2);
        }
        let e2: i32 = 2 * err;
        if e2 > -dy {
            err = err - dy;
            x = x + sx;
        }
        if e2 < dx {
            err = err + dx;
            y = y + sy;
        }
        k = k + 1;
    }
    proof {
        let oxi = ox as int;
        let oyi = oy as int;
        let txi = tx as int;
        let tyi = ty as int;
        assert forall|k2: int|
            #![trigger walk(oxi, oyi, txi, tyi, k2 as nat)]
            0 <= k2 <= iabs(txi - oxi) + iabs(tyi - oyi) implies !(walk(
            oxi,
            oyi,
            txi,
            tyi,
            k2 as nat,
        ).0 == txi && walk(oxi, oyi, txi, tyi, k2 as nat).1 == tyi) by {
            assert(k2 < k);
        }
    }
    false
}

/// The set of currently visible tiles, as a grid of flags.
pub struct Fov {
    pub grid: Vec<Vec<bool>>,
}

pub open spec fn fov_dims_ok(g: Seq<Vec<bool>>) -> bool {
    &&& g.len() == MAP_WIDTH
    &&& forall|x: int| 0 <= x < g.len() ==> (#[trigger] g[x])@.len() == MAP_HEIGHT
}

pub open spec fn fov_at(g: Seq<Vec<bool>>, x: int, y: int) -> bool {
    g[x]@[y]
}

impl Fov {
    /// Whether the tile at `(x, y)` is currently visible.
    pub fn is_in_fov(&self, x: i32, y: i32) -> (b: bool)
        requires
            fov_dims_ok(self.grid@),
            0 <= x < MAP_WIDTH,
            0 <= y < MAP_HEIGHT,
        ensures
            b == fov_at(self.grid@, x as int, y as int),
    {
        self.grid[x as usize][y as usize]
    }
}

/// Compute the set of tiles visible from one observer position within the
/// given radius. Recomputing with an unchanged observer yields an identical
/// result, since the outcome is a function of the map and the inputs alone.
pub fn compute_fov(map: &LevelMap, ox: i32, oy: i32, radius: i32) -> (fov: Fov)
    requires
        map_dims_ok(map@),
        0 <= ox < MAP_WIDTH,
        0 <= oy < MAP_HEIGHT,
        0 <= radius <= 1000,
    ensures
        fov_dims_ok(fov.grid@),
        forall|x: int, y: int|
            #![trigger fov_at(fov.grid@, x, y)]
            0 <= x < MAP_WIDTH && 0 <= y < MAP_HEIGHT ==> fov_at(fov.grid@, x, y) == spec_visible(
                map@,
                ox as int,
                oy as int,
                x,
                y,
                radius as int,
            ),
{
    let mut grid: Vec<Vec<bool>> = Vec::new();
    let mut gx: i32 = 0;
    while gx < MAP_WIDTH
        invariant
            map_dims_ok(map@),
            0 <= ox < MAP_WIDTH,
            0 <= oy < MAP_HEIGHT,
            0 <= radius <= 1000,
            0 <= gx <= MAP_WIDTH,
            grid@.len() == gx,
            forall|x: int| 0 <= x < gx ==> (#[trigger] grid@[x])@.len() == MAP_HEIGHT,
            forall|x: int, y: int|
                #![trigger fov_at(grid@, x, y)]
                0 <= x < gx && 0 <= y < MAP_HEIGHT ==> fov_at(grid@, x, y) == spec_visible(
                    map@,
                    ox as int,
                    oy as int,
                    x,
                    y,
                    radius as int,
                ),
        decreases MAP_WIDTH - gx,
    {
        let mut col: Vec<bool> = Vec::new();
        let mut gy: i32 = 0;
        while gy < MAP_HEIGHT
            invariant
                map_dims_ok(map@),
                0 <= ox < MAP_WIDTH,
                0 <= oy < MAP_HEIGHT,
                0 <= radius <= 1000,
                0 <= gx < MAP_WIDTH,
                0 <= gy <= MAP_HEIGHT,
                col@.len() == gy,
                forall|y: int|
                    0 <= y < gy ==> col@[y] == spec_visible(
                        map@,
                        ox as int,
                        oy as int,
                        gx as int,
                        y,
                        radius as int,
                    ),
            decreases MAP_HEIGHT - gy,
        {
            let ddx: i64 = gx as i64 - ox as i64;
            let ddy: i64 = gy as i64 - oy as i64;
            proof {
                assert(0 <= ddx * ddx <= 6400 && 0 <= ddy * ddy <= 6400 && ddx * ddx + ddy * ddy
                    == dist_sq(ox as int, oy as int, gx as int, gy as int)) by (nonlinear_arith)
                    requires
                        -80 <= ddx <= 80,
                        -80 <= ddy <= 80,
                        ddx == gx - ox,
                        ddy == gy - oy,
                ;
            }
            let d2: i64 = ddx * ddx + ddy * ddy;
            let rr: i64 = radius as i64;
            proof {
                assert(0 <= rr * rr <= 1000000 && rr * rr == (radius as int) * (radius as int))
                    by (nonlinear_arith)
                    requires
                        0 <= rr <= 1000,
                        rr == radius as int,
                ;
            }
            let r2: i64 = rr * rr;
            let vis = if d2 <= r2 {
                has_los(map, ox, oy, gx, gy)
            } else {
                false
            };
            col.push(vis);
            gy = gy + 1;
        }
        let ghost gprev = grid@;
        let ghost colv = col@;
        grid.push(col);
        proof {
            assert forall|x: int, y: int|
                #![trigger fov_at(grid@, x, y)]
                0 <= x < gx + 1 && 0 <= y < MAP_HEIGHT implies fov_at(grid@, x, y) == spec_visible(
                map@,
                ox as int,
                oy as int,
                x,
                y,
                radius as int,
            ) by {
                if x < gx {
                    assert(fov_at(gprev, x, y) == spec_visible(
                        map@,
                        ox as int,
                        oy as int,
                        x,
                        y,
                        radius as int,
                    ));
                } else {
                    assert(grid@[x]@ == colv);
                }
            }
        }
        gx = gx + 1;
    }
    Fov { grid }
}

/// Mark every currently visible tile explored; exploration never reverts.
pub fn update_explored(map: &mut LevelMap, fov: &Fov)
    requires
        map_dims_ok(old(map)@),
        fov_dims_ok(fov.grid@),
    ensures
        map_dims_ok(final(map)@),
        forall|x: int, y: int|
            0 <= x < MAP_WIDTH && 0 <= y < MAP_HEIGHT ==> #[trigger] tile_at(final(map)@, x, y)
                == (Tile {
                explored: tile_at(old(map)@, x, y).explored || fov_at(fov.grid@, x, y),
                ..tile_at(old(map)@, x, y)
            }),
{
    let ghost m0 = map@;
    let mut x: i32 = 0;
    while x < MAP_WIDTH
        invariant
            map_dims_ok(map@),
            fov_dims_ok(fov.grid@),
            0 <= x <= MAP_WIDTH,
            forall|i: int, j: int|
                0 <= i < MAP_WIDTH && 0 <= j < MAP_HEIGHT ==> #[trigger] tile_at(map@, i, j) == (
                if i < x {
                    Tile { explored: tile_at(m0, i, j).explored || fov_at(fov.grid@, i, j), ..tile_at(
                        m0,
                        i,
                        j,
                    ) }
                } else {
                    tile_at(m0, i, j)
                }),
        decreases MAP_WIDTH - x,
    {
        let mut y: i32 = 0;
        while y < MAP_HEIGHT
            invariant
                map_dims_ok(map@),
                fov_dims_ok(fov.grid@),
                0 <= x < MAP_WIDTH,
                0 <= y <= MAP_HEIGHT,
                forall|i: int, j: int|
                    0 <= i < MAP_WIDTH && 0 <= j < MAP_HEIGHT ==> #[trigger] tile_at(map@, i, j)
                        == (if i < x || (i == x && j < y) {
                        Tile { explored: tile_at(m0, i, j).explored || fov_at(fov.grid@, i, j), ..tile_at(
                            m0,
                            i,
                            j,
                        ) }
                    } else {
                        tile_at(m0, i, j)
                    }),
            decreases MAP_HEIGHT - y,
        {
            let ghost mprev = map@;
            let ghost was_vis = fov_at(fov.grid@, x as int, y as int);
            if fov.is_in_fov(x, y) {
                let t = map[x as usize][y as usize];
                map[x as usize][y as usize] = Tile { explored: true, ..t };
            }
            proof {
                assert forall|i: int, j: int|
                    0 <= i < MAP_WIDTH && 0 <= j < MAP_HEIGHT implies #[trigger] tile_at(map@, i, j)
                    == (if i < x || (i == x && j < y + 1) {
                    Tile { explored: tile_at(m0, i, j).explored || fov_at(fov.grid@, i, j), ..tile_at(
                        m0,
                        i,
                        j,
                    ) }
                } else {
                    tile_at(m0, i, j)
                }) by {
                    if i == x && j == y {
                        let t0 = tile_at(m0, i, j);
                        assert(tile_at(mprev, i, j) == t0);
                        if was_vis {
                            assert(tile_at(map@, i, j) == (Tile { explored: true, ..t0 }));
                        } else {
                            assert(tile_at(map@, i, j) == t0);
                            assert(t0 == (Tile { explored: t0.explored, ..t0 }));
                        }
                    } else {
                        assert(tile_at(map@, i, j) == tile_at(mprev, i, j));
                    }
                }
            }
            y = y + 1;
        }
        x = x + 1;
    }
}

/// Exploration is sticky: if a tile was explored before a visibility update,
/// it stays explored after it, whatever is currently visible.
pub proof fn lemma_explored_monotonic(
    m0: Seq<Vec<Tile>>,
    m1: Seq<Vec<Tile>>,
    g: Seq<Vec<bool>>,
    x: int,
    y: int,
)
    requires
        0 <= x < MAP_WIDTH,
        0 <= y < MAP_HEIGHT,
        tile_at(m1, x, y) == (Tile {
            explored: tile_at(m0, x, y).explored || fov_at(g, x, y),
            ..tile_at(m0, x, y)
        }),
        tile_at(m0, x, y).explored,
    ensures
        tile_at(m1, x, y).explored,
{
}

} // verus!
