//! Terrain query surface: a finite map from grid cells to tiles, each solid
//! dirt or open air. The pathfinder reads a snapshot of the solid positions;
//! the worker converts solid tiles to open ones as it digs. Digging is the
//! only mutation this crate performs on existing tiles: a tile never turns
//! back from open to solid here.

use vstd::prelude::*;

use crate::grid::GridPos;
use crate::grid::WorldPos;
use crate::grid::cell_of;
use crate::grid::center_of;
use crate::grid::valid_cell;
use crate::grid::valid_world_pos;
use crate::grid::world_dist_sq;

verus! {

/// The initial world spans cells from minus this bound to plus this bound
/// on each axis.
pub const TERRAIN_HALF_EXTENT: i32 = 50;

/// Squared radius, in world units, of the open cavity carved at the
/// world's center (a 40-unit radius).
pub const CAVITY_RADIUS_SQ: i64 = 40 * 40;

/// A cell inside the initially generated terrain.
pub open spec fn in_terrain_range(c: GridPos) -> bool {
    &&& -TERRAIN_HALF_EXTENT <= c.x <= TERRAIN_HALF_EXTENT
    &&& -TERRAIN_HALF_EXTENT <= c.y <= TERRAIN_HALF_EXTENT
}

/// What a tile is made of: solid dirt, or open air.
#[derive(Clone, Copy, PartialEq, Eq, Structural, Debug)]
pub enum TileKind {
    Dirt,
    Air,
}

impl TileKind {
    /// Solid tiles block free walking and must be dug through.
    pub fn is_solid(&self) -> (r: bool)
        ensures
            r == (*self is Dirt),
    {
        match self {
            TileKind::Dirt => true,
            TileKind::Air => false,
        }
    }
}

/// One tile of the world: the world position of its cell's center, and its
/// kind.
#[derive(Clone, Copy, PartialEq, Eq, Structural, Debug)]
pub struct Tile {
    pub position: WorldPos,
    pub kind: TileKind,
}

/// A tile sits exactly on the center of a valid cell.
pub open spec fn tile_placed(t: Tile) -> bool {
    &&& valid_cell(cell_of(t.position))
    &&& t.position == center_of(cell_of(t.position))
}

/// Every tile is well placed and no two tiles occupy the same cell.
pub open spec fn tiles_wf(s: Seq<Tile>) -> bool {
    &&& forall|i: int| 0 <= i < s.len() ==> tile_placed(#[trigger] s[i])
    &&& forall|i: int, j: int|
        0 <= i < j < s.len() ==> cell_of(#[trigger] s[i].position) != cell_of(
            #[trigger] s[j].position,
        )
}

/// Whether some tile occupies the cell `c`.
pub open spec fn has_cell(s: Seq<Tile>, c: GridPos) -> bool {
    exists|i: int| 0 <= i < s.len() && cell_of(#[trigger] s[i].position) == c
}

/// The index of the tile occupying cell `c` (meaningful when `has_cell`).
pub open spec fn cell_index(s: Seq<Tile>, c: GridPos) -> int {
    choose|i: int| 0 <= i < s.len() && cell_of(#[trigger] s[i].position) == c
}

/// The kind of the tile occupying cell `c` (meaningful when `has_cell`).
pub open spec fn kind_at(s: Seq<Tile>, c: GridPos) -> TileKind {
    s[cell_index(s, c)].kind
}

/// Whether cell `c` holds a solid tile.
pub open spec fn solid_at(s: Seq<Tile>, c: GridPos) -> bool {
    has_cell(s, c) && kind_at(s, c) is Dirt
}

/// The positions of the solid tiles, in storage order.
pub open spec fn solid_positions(s: Seq<Tile>) -> Seq<WorldPos>
    decreases s.len(),
{
    if s.len() == 0 {
        Seq::empty()
    } else {
        solid_positions(s.drop_last())
            + if s.last().kind is Dirt {
                seq![s.last().position]
            } else {
                Seq::empty()
            }
    }
}

/// The store after digging converts the tile at `c` (and nothing else) from
/// solid to open: same cells, same kinds elsewhere.
pub open spec fn dug_at(pre: Seq<Tile>, post: Seq<Tile>, c: GridPos) -> bool {
    &&& post.len() == pre.len()
    &&& solid_at(pre, c)
    &&& has_cell(post, c) && kind_at(post, c) is Air
    &&& forall|i: int|
        0 <= i < pre.len() && cell_of(pre[i].position) != c ==> post[i] == #[trigger] pre[i]
    &&& forall|i: int|
        0 <= i < pre.len() ==> (#[trigger] post[i]).position == pre[i].position
}

/// Every position in a well-formed store's solid snapshot is a valid world
/// position (a cell center), fit to hand to the searches.
pub proof fn lemma_solid_positions_valid(s: Seq<Tile>)
    requires
        tiles_wf(s),
    ensures
        forall|k: int|
            0 <= k < solid_positions(s).len() ==> valid_world_pos(#[trigger] solid_positions(s)[k]),
    decreases s.len(),
{
    if s.len() > 0 {
        assert(tiles_wf(s.drop_last())) by {
            assert(forall|i: int|
                0 <= i < s.drop_last().len() ==> #[trigger] s.drop_last()[i] == s[i]);
        }
        lemma_solid_positions_valid(s.drop_last());
        assert(tile_placed(s.last()));
        let sp = solid_positions(s);
        let spp = solid_positions(s.drop_last());
        assert forall|k: int| 0 <= k < sp.len() implies valid_world_pos(#[trigger] sp[k]) by {
            if k < spp.len() {
                assert(sp[k] == spp[k]);
            } else {
                assert(sp[k] == s.last().position);
                assert(valid_world_pos(center_of(cell_of(s.last().position))));
            }
        }
    }
}

/// The solid snapshot holds exactly the positions of the solid tiles: each
/// snapshot element comes from a solid tile, and each solid tile's position
/// appears in the snapshot.
pub proof fn lemma_solid_positions_elems(s: Seq<Tile>)
    ensures
        forall|k: int|
            0 <= k < solid_positions(s).len() ==> exists|i: int|
                0 <= i < s.len() && (#[trigger] s[i]).kind is Dirt && s[i].position == #[trigger] (
                solid_positions(s)[k]),
        forall|i: int|
            0 <= i < s.len() && (#[trigger] s[i]).kind is Dirt ==> exists|k: int|
                0 <= k < solid_positions(s).len() && #[trigger] (solid_positions(s)[k])
                    == s[i].position,
    decreases s.len(),
{
    if s.len() > 0 {
        lemma_solid_positions_elems(s.drop_last());
        let pre = s.drop_last();
        let sp = solid_positions(s);
        let spp = solid_positions(pre);
        assert forall|k: int|
            0 <= k < sp.len() implies exists|i: int|
            0 <= i < s.len() && (#[trigger] s[i]).kind is Dirt && s[i].position == #[trigger] (
            sp[k]) by {
            if k < spp.len() {
                let i = choose|i: int|
                    0 <= i < pre.len() && (#[trigger] pre[i]).kind is Dirt && pre[i].position
                        == spp[k];
                assert(0 <= i < s.len() && s[i].kind is Dirt && s[i].position == sp[k]);
            } else {
                let i = s.len() - 1;
                assert(0 <= i < s.len() && s[i].kind is Dirt && s[i].position == sp[k]);
            }
        }
        assert forall|i: int|
            0 <= i < s.len() && (#[trigger] s[i]).kind is Dirt implies exists|k: int|
            0 <= k < sp.len() && sp[k] == s[i].position by {
            if i < s.len() - 1 {
                let k = choose|k: int| 0 <= k < spp.len() && spp[k] == pre[i].position;
                assert(sp[k] == s[i].position);
            } else {
                assert(sp[sp.len() - 1] == s[i].position);
            }
        }
    }
}

/// Digging is monotone: after a dig, every solid cell was already solid
/// before, and every cell the store covers is still covered with the same
/// tile position.
pub proof fn lemma_dug_monotone(pre: Seq<Tile>, post: Seq<Tile>, c0: GridPos)
    requires
        tiles_wf(pre),
        tiles_wf(post),
        dug_at(pre, post, c0),
    ensures
        forall|c: GridPos| #[trigger] solid_at(post, c) ==> solid_at(pre, c),
        forall|c: GridPos| #[trigger] has_cell(post, c) <==> has_cell(pre, c),
{
    assert forall|c: GridPos| #[trigger] has_cell(post, c) implies has_cell(pre, c) by {
        let i = choose|i: int| 0 <= i < post.len() && cell_of((#[trigger] post[i]).position) == c;
        assert(cell_of(pre[i].position) == c);
    }
    assert forall|c: GridPos| #[trigger] has_cell(pre, c) implies has_cell(post, c) by {
        let i = choose|i: int| 0 <= i < pre.len() && cell_of((#[trigger] pre[i]).position) == c;
        assert(cell_of(post[i].position) == c);
    }
    assert forall|c: GridPos| #[trigger] solid_at(post, c) implies solid_at(pre, c) by {
        if c == c0 {
            let i = cell_index(post, c);
            assert(kind_at(post, c) is Air);
        } else {
            let i = cell_index(post, c);
            assert(0 <= i < post.len() && cell_of(post[i].position) == c);
            assert(cell_of(pre[i].position) == c);
            assert(post[i] == pre[i]);
            let j = cell_index(pre, c);
            assert(0 <= j < pre.len() && cell_of(pre[j].position) == c);
            assert(j == i);
            assert(kind_at(pre, c) == post[i].kind);
        }
    }
}

/// The terrain: a finite collection of tiles, at most one per grid cell.
pub struct TileStore {
    tiles: Vec<Tile>,
}

impl TileStore {
    /// The tiles held, in storage order.
    pub closed spec fn tiles(&self) -> Seq<Tile> {
        self.tiles@
    }

    /// The store's invariant: tiles well placed, cells unique.
    pub open spec fn wf(&self) -> bool {
        tiles_wf(self.tiles())
    }

    /// An empty terrain.
    pub fn new() -> (s: TileStore)
        ensures
            s.wf(),
            s.tiles() == Seq::<Tile>::empty(),
    {
        TileStore { tiles: Vec::new() }
    }

    /// The index of the tile occupying the cell of `position`, if any.
    fn find_index(&self, position: &WorldPos) -> (r: Option<usize>)
        requires
            valid_world_pos(*position),
            self.wf(),
        ensures
            match r {
                Some(i) => {
                    &&& 0 <= i < self.tiles().len()
                    &&& cell_of(self.tiles()[i as int].position) == cell_of(*position)
                    &&& has_cell(self.tiles(), cell_of(*position))
                    &&& i == cell_index(self.tiles(), cell_of(*position))
                },
                None => !has_cell(self.tiles(), cell_of(*position)),
            },
    {
        let c = GridPos::from_world(*position);
        let mut i: usize = 0;
        while i < self.tiles.len()
            invariant
                0 <= i <= self.tiles().len(),
                c == cell_of(*position),
                self.wf(),
                forall|j: int| 0 <= j < i ==> cell_of(#[trigger] self.tiles()[j].position) != c,
            decreases self.tiles().len() - i,
        {
            let tc = GridPos::from_world(self.tiles[i].position);
            if tc.x == c.x && tc.y == c.y {
                proof {
                    assert(cell_of(self.tiles()[i as int].position) == c);
                    vstd::assert_by_contradiction!(
                        i as int == cell_index(self.tiles(), c), {
                            let k = cell_index(self.tiles(), c);
                        }
                    );
                }
                return Some(i);
            }
            i = i + 1;
        }
        None
    }

    /// Insert a tile at the cell containing `position`, replacing any tile
    /// already there. The stored position is the cell's center.
    pub fn add_tile(&mut self, position: WorldPos, kind: TileKind)
        requires
            valid_world_pos(position),
            old(self).wf(),
        ensures
            final(self).wf(),
            final(self).tiles() == (if has_cell(old(self).tiles(), cell_of(position)) {
                old(self).tiles().update(
                    cell_index(old(self).tiles(), cell_of(position)),
                    Tile { position: center_of(cell_of(position)), kind },
                )
            } else {
                old(self).tiles().push(Tile { position: center_of(cell_of(position)), kind })
            }),
    {
        let c = GridPos::from_world(position);
        let t = Tile { position: c.to_world(), kind };
        proof {
            crate::grid::lemma_snap_idempotent(c);
        }
        match self.find_index(&position) {
            Some(i) => {
                self.tiles[i] = t;
            },
            None => {
                self.tiles.push(t);
            },
        }
    }

    /// Change the kind of the tile at the cell of `position`; reports
    /// whether such a tile existed.
    pub fn set_tile_type(&mut self, position: &WorldPos, kind: TileKind) -> (r: bool)
        requires
            valid_world_pos(*position),
            old(self).wf(),
        ensures
            final(self).wf(),
            r == has_cell(old(self).tiles(), cell_of(*position)),
            r ==> final(self).tiles() == old(self).tiles().update(
                cell_index(old(self).tiles(), cell_of(*position)),
                Tile {
                    position: old(self).tiles()[cell_index(
                        old(self).tiles(),
                        cell_of(*position),
                    )].position,
                    kind,
                },
            ),
            !r ==> final(self).tiles() == old(self).tiles(),
    {
        match self.find_index(position) {
            Some(i) => {
                let p = self.tiles[i].position;
                self.tiles[i] = Tile { position: p, kind };
                true
            },
            None => false,
        }
    }

    /// The tile at the cell of `position`, if any.
    pub fn get_tile(&self, position: &WorldPos) -> (r: Option<&Tile>)
        requires
            valid_world_pos(*position),
            self.wf(),
        ensures
            match r {
                Some(t) => {
                    &&& has_cell(self.tiles(), cell_of(*position))
                    &&& *t == self.tiles()[cell_index(self.tiles(), cell_of(*position))]
                },
                None => !has_cell(self.tiles(), cell_of(*position)),
            },
    {
        match self.find_index(position) {
            Some(i) => Some(&self.tiles[i]),
            None => None,
        }
    }

    /// Whether the cell of `position` holds a solid tile; a position with no
    /// tile is not solid.
    pub fn is_solid(&self, position: &WorldPos) -> (r: bool)
        requires
            valid_world_pos(*position),
            self.wf(),
        ensures
            r == solid_at(self.tiles(), cell_of(*position)),
    {
        match self.find_index(position) {
            Some(i) => self.tiles[i].kind.is_solid(),
            None => false,
        }
    }

    /// Convert the tile at the cell of `position` to open air; reports
    /// whether a tile existed there and was solid before the conversion.
    pub fn convert_to_open(&mut self, position: &WorldPos) -> (r: bool)
        requires
            valid_world_pos(*position),
            old(self).wf(),
        ensures
            final(self).wf(),
            r == solid_at(old(self).tiles(), cell_of(*position)),
            r ==> dug_at(old(self).tiles(), final(self).tiles(), cell_of(*position)),
            !r ==> final(self).tiles() == old(self).tiles(),
    {
        match self.find_index(position) {
            Some(i) => {
                if self.tiles[i].kind.is_solid() {
                    let p = self.tiles[i].position;
                    self.tiles[i] = Tile { position: p, kind: TileKind::Air };
                    proof {
                        let c = cell_of(*position);
                        let s0 = old(self).tiles();
                        let s1 = self.tiles();
                        assert forall|k: int|
                            0 <= k < s1.len() && cell_of(s1[k].position)
                                == c implies k == i as int by {
                            if k != i as int {
                                assert(cell_of(s0[k].position) == c);
                            }
                        }
                        assert(cell_of(s1[i as int].position) == c);
                        assert(has_cell(s1, c));
                        assert(cell_index(s1, c) == i as int);
                    }
                    true
                } else {
                    false
                }
            },
            None => false,
        }
    }

    /// A snapshot of the solid tiles' positions, in storage order.
    pub fn get_solid_tiles(&self) -> (r: Vec<WorldPos>)
        requires
            self.wf(),
        ensures
            r@ == solid_positions(self.tiles()),
    {
        let mut r: Vec<WorldPos> = Vec::new();
        let mut i: usize = 0;
        while i < self.tiles.len()
            invariant
                0 <= i <= self.tiles().len(),
                r@ == solid_positions(self.tiles().take(i as int)),
            decreases self.tiles().len() - i,
        {
            proof {
                assert(self.tiles().take(i + 1).drop_last() == self.tiles().take(i as int));
                assert(self.tiles().take(i + 1).last() == self.tiles()[i as int]);
            }
            if self.tiles[i].kind.is_solid() {
                r.push(self.tiles[i].position);
            }
            i = i + 1;
        }
        proof {
            assert(self.tiles().take(self.tiles().len() as int) == self.tiles());
        }
        r
    }

    /// How many tiles the store holds.
    pub fn count(&self) -> (r: usize)
        ensures
            r == self.tiles().len(),
    {
        self.tiles.len()
    }

    /// How many of them are solid.
    pub fn solid_count(&self) -> (r: usize)
        requires
            self.wf(),
        ensures
            r == solid_positions(self.tiles()).len(),
    {
        let mut r: usize = 0;
        let mut i: usize = 0;
        while i < self.tiles.len()
            invariant
                0 <= i <= self.tiles().len(),
                r == solid_positions(self.tiles().take(i as int)).len(),
                r <= i,
            decreases self.tiles().len() - i,
        {
            proof {
                assert(self.tiles().take(i + 1).drop_last() == self.tiles().take(i as int));
                assert(self.tiles().take(i + 1).last() == self.tiles()[i as int]);
            }
            if self.tiles[i].kind.is_solid() {
                r = r + 1;
            }
            i = i + 1;
        }
        proof {
            assert(self.tiles().take(self.tiles().len() as int) == self.tiles());
        }
        r
    }
}

/// What a tile's kind becomes once the central cavity is carved: open air
/// within the cavity radius of the world's center, unchanged otherwise.
pub open spec fn cavity_kind(t: Tile) -> TileKind {
    if world_dist_sq(t.position, WorldPos { x: 0, y: 0 }) <= CAVITY_RADIUS_SQ {
        TileKind::Air
    } else {
        t.kind
    }
}

/// A cell handled before reaching column `cx` of row `cy` in the
/// row-by-row sweep of the terrain range.
pub open spec fn swept_before(c: GridPos, cy: int, cx: int) -> bool {
    c.y < cy || (c.y == cy && c.x < cx)
}

/// Carve the central cavity: every tile within the cavity radius of the
/// world's center is converted to open air; every other tile is untouched.
pub fn create_central_cavity(store: &mut TileStore)
    requires
        old(store).wf(),
    ensures
        final(store).wf(),
        final(store).tiles().len() == old(store).tiles().len(),
        forall|i: int|
            0 <= i < final(store).tiles().len() ==> (#[trigger] final(store).tiles()[i]).position
                == old(store).tiles()[i].position,
        forall|i: int|
            0 <= i < final(store).tiles().len() ==> (#[trigger] final(store).tiles()[i]).kind
                == cavity_kind(old(store).tiles()[i]),
{
    let ghost orig = old(store).tiles();
    let center = WorldPos { x: 0, y: 0 };
    let mut cy: i32 = -TERRAIN_HALF_EXTENT;
    while cy <= TERRAIN_HALF_EXTENT
        invariant
            store.wf(),
            -TERRAIN_HALF_EXTENT <= cy <= TERRAIN_HALF_EXTENT + 1,
            center == (WorldPos { x: 0, y: 0 }),
            store.tiles().len() == orig.len(),
            tiles_wf(orig),
            forall|i: int|
                0 <= i < store.tiles().len() ==> (#[trigger] store.tiles()[i]).position
                    == orig[i].position,
            forall|i: int|
                0 <= i < store.tiles().len() ==> (#[trigger] store.tiles()[i]).kind == (
                if in_terrain_range(cell_of(orig[i].position)) && swept_before(
                    cell_of(orig[i].position),
                    cy as int,
                    -TERRAIN_HALF_EXTENT as int,
                ) && world_dist_sq(orig[i].position, center) <= CAVITY_RADIUS_SQ {
                    TileKind::Air
                } else {
                    orig[i].kind
                }),
        decreases TERRAIN_HALF_EXTENT + 1 - cy,
    {
        let mut cx: i32 = -TERRAIN_HALF_EXTENT;
        while cx <= TERRAIN_HALF_EXTENT
            invariant
                store.wf(),
                -TERRAIN_HALF_EXTENT <= cy <= TERRAIN_HALF_EXTENT,
                -TERRAIN_HALF_EXTENT <= cx <= TERRAIN_HALF_EXTENT + 1,
                center == (WorldPos { x: 0, y: 0 }),
                store.tiles().len() == orig.len(),
                tiles_wf(orig),
                forall|i: int|
                    0 <= i < store.tiles().len() ==> (#[trigger] store.tiles()[i]).position
                        == orig[i].position,
                forall|i: int|
                    0 <= i < store.tiles().len() ==> (#[trigger] store.tiles()[i]).kind == (
                    if in_terrain_range(cell_of(orig[i].position)) && swept_before(
                        cell_of(orig[i].position),
                        cy as int,
                        cx as int,
                    ) && world_dist_sq(orig[i].position, center) <= CAVITY_RADIUS_SQ {
                        TileKind::Air
                    } else {
                        orig[i].kind
                    }),
            decreases TERRAIN_HALF_EXTENT + 1 - cx,
        {
            let c = GridPos { x: cx, y: cy };
            let pos = c.to_world();
            proof {
                crate::grid::lemma_snap_idempotent(c);
            }
            let d2 = pos.dist_sq(&center);
            let ghost pre = store.tiles();
            if d2 <= CAVITY_RADIUS_SQ {
                let converted = store.convert_to_open(&pos);
                proof {
                    let post = store.tiles();
                    assert forall|i: int|
                        0 <= i < post.len() implies (#[trigger] post[i]).kind == (
                    if in_terrain_range(cell_of(orig[i].position)) && swept_before(
                        cell_of(orig[i].position),
                        cy as int,
                        cx + 1,
                    ) && world_dist_sq(orig[i].position, center) <= CAVITY_RADIUS_SQ {
                        TileKind::Air
                    } else {
                        orig[i].kind
                    }) by {
                        if converted {
                            assert(dug_at(pre, post, c));
                            if cell_of(orig[i].position) == c {
                                let j = cell_index(post, c);
                                assert(cell_of(post[j].position) == c);
                                assert(cell_of(post[i].position) == c);
                                assert(j == i);
                            } else {
                                assert(post[i] == pre[i]);
                            }
                        } else {
                            assert(post == pre);
                            if cell_of(orig[i].position) == c {
                                // the tile at this cell was already open
                                assert(!solid_at(pre, c));
                                assert(cell_of(pre[i].position) == c);
                                assert(cell_index(pre, c) == i);
                                assert(pre[i].kind is Air);
                            }
                        }
                    }
                }
            } else {
                proof {
                    assert forall|i: int|
                        0 <= i < store.tiles().len() implies (#[trigger] store.tiles()[i]).kind
                        == (
                    if in_terrain_range(cell_of(orig[i].position)) && swept_before(
                        cell_of(orig[i].position),
                        cy as int,
                        cx + 1,
                    ) && world_dist_sq(orig[i].position, center) <= CAVITY_RADIUS_SQ {
                        TileKind::Air
                    } else {
                        orig[i].kind
                    }) by {
                        if cell_of(orig[i].position) == c {
                            assert(orig[i].position == center_of(c));
                            assert(world_dist_sq(orig[i].position, center) == d2);
                        }
                    }
                }
            }
            cx = cx + 1;
        }
        cy = cy + 1;
    }
    proof {
        assert forall|i: int|
            0 <= i < store.tiles().len() implies (#[trigger] store.tiles()[i]).kind == cavity_kind(
            orig[i],
        ) by {
            let oc = cell_of(orig[i].position);
            let px = orig[i].position.x as int;
            let py = orig[i].position.y as int;
            if world_dist_sq(orig[i].position, center) <= CAVITY_RADIUS_SQ {
                assert(tile_placed(orig[i]));
                assert(world_dist_sq(orig[i].position, center) == (px - center.x) * (px - center.x)
                    + (py - center.y) * (py - center.y));
                assert(px - center.x == px && py - center.y == py);
                assert(world_dist_sq(orig[i].position, center) == px * px + py * py);
                assert(-40 <= px <= 40 && -40 <= py <= 40) by (nonlinear_arith)
                    requires
                        px * px + py * py <= 1600,
                ;
                assert(orig[i].position == center_of(oc));
                assert(px == 8 * oc.x && py == 8 * oc.y);
                assert(in_terrain_range(oc));
            }
        }
    }
}

/// Generate the initial terrain: one solid dirt tile on every cell of the
/// square world range, then carve the central cavity open.
pub fn setup_terrain(store: &mut TileStore)
    requires
        old(store).wf(),
        old(store).tiles().len() == 0,
    ensures
        final(store).wf(),
        forall|c: GridPos| #[trigger] has_cell(final(store).tiles(), c) <==> in_terrain_range(c),
        forall|c: GridPos|
            in_terrain_range(c) ==> #[trigger] kind_at(final(store).tiles(), c) == (if world_dist_sq(
                center_of(c),
                WorldPos { x: 0, y: 0 },
            ) <= CAVITY_RADIUS_SQ {
                TileKind::Air
            } else {
                TileKind::Dirt
            }),
{
    let mut cy: i32 = -TERRAIN_HALF_EXTENT;
    while cy <= TERRAIN_HALF_EXTENT
        invariant
            store.wf(),
            -TERRAIN_HALF_EXTENT <= cy <= TERRAIN_HALF_EXTENT + 1,
            forall|c: GridPos| #[trigger]
                has_cell(store.tiles(), c) <==> (in_terrain_range(c) && swept_before(
                    c,
                    cy as int,
                    -TERRAIN_HALF_EXTENT as int,
                )),
            forall|i: int|
                0 <= i < store.tiles().len() ==> (#[trigger] store.tiles()[i]).kind
                    == TileKind::Dirt,
        decreases TERRAIN_HALF_EXTENT + 1 - cy,
    {
        let mut cx: i32 = -TERRAIN_HALF_EXTENT;
        while cx <= TERRAIN_HALF_EXTENT
            invariant
                store.wf(),
                -TERRAIN_HALF_EXTENT <= cy <= TERRAIN_HALF_EXTENT,
                -TERRAIN_HALF_EXTENT <= cx <= TERRAIN_HALF_EXTENT + 1,
                forall|c: GridPos| #[trigger]
                    has_cell(store.tiles(), c) <==> (in_terrain_range(c) && swept_before(
                        c,
                        cy as int,
                        cx as int,
                    )),
                forall|i: int|
                    0 <= i < store.tiles().len() ==> (#[trigger] store.tiles()[i]).kind
                        == TileKind::Dirt,
            decreases TERRAIN_HALF_EXTENT + 1 - cx,
        {
            let c = GridPos { x: cx, y: cy };
            let pos = c.to_world();
            proof {
                crate::grid::lemma_snap_idempotent(c);
                assert(!has_cell(store.tiles(), c));
            }
            let ghost pre = store.tiles();
            store.add_tile(pos, TileKind::Dirt);
            proof {
                assert(store.tiles() == pre.push(
                    Tile { position: center_of(c), kind: TileKind::Dirt },
                ));
                assert forall|c2: GridPos| #[trigger]
                    has_cell(store.tiles(), c2) <==> (in_terrain_range(c2) && swept_before(
                        c2,
                        cy as int,
                        cx + 1,
                    )) by {
                    if has_cell(store.tiles(), c2) {
                        let i = choose|i: int|
                            0 <= i < store.tiles().len() && cell_of(
                                (#[trigger] store.tiles()[i]).position,
                            ) == c2;
                        if i < pre.len() {
                            assert(has_cell(pre, c2));
                        } else {
                            assert(c2 == c);
                        }
                    }
                    if in_terrain_range(c2) && swept_before(c2, cy as int, cx + 1) {
                        if swept_before(c2, cy as int, cx as int) {
                            assert(has_cell(pre, c2));
                            let i = choose|i: int|
                                0 <= i < pre.len() && cell_of((#[trigger] pre[i]).position) == c2;
                            assert(cell_of(store.tiles()[i].position) == c2);
                        } else {
                            assert(c2 == c);
                            assert(cell_of(store.tiles()[pre.len() as int].position) == c);
                        }
                    }
                }
            }
            cx = cx + 1;
        }
        cy = cy + 1;
    }
    let ghost filled = store.tiles();
    create_central_cavity(store);
    proof {
        let post = store.tiles();
        assert forall|c: GridPos| #[trigger] has_cell(post, c) <==> in_terrain_range(c) by {
            if has_cell(post, c) {
                let i = choose|i: int|
                    0 <= i < post.len() && cell_of((#[trigger] post[i]).position) == c;
                assert(cell_of(filled[i].position) == c);
                assert(has_cell(filled, c));
            }
            if in_terrain_range(c) {
                assert(has_cell(filled, c));
                let i = choose|i: int|
                    0 <= i < filled.len() && cell_of((#[trigger] filled[i]).position) == c;
                assert(cell_of(post[i].position) == c);
            }
        }
        assert forall|c: GridPos| in_terrain_range(c) implies #[trigger] kind_at(post, c) == (
        if world_dist_sq(center_of(c), WorldPos { x: 0, y: 0 }) <= CAVITY_RADIUS_SQ {
            TileKind::Air
        } else {
            TileKind::Dirt
        }) by {
            assert(has_cell(post, c));
            let i = cell_index(post, c);
            assert(0 <= i < post.len() && cell_of(post[i].position) == c);
            assert(cell_of(filled[i].position) == c);
            assert(filled[i].kind == TileKind::Dirt);
            assert(tile_placed(filled[i]));
            assert(filled[i].position == center_of(c));
            assert(post[i].kind == cavity_kind(filled[i]));
        }
    }
}

} // verus!
