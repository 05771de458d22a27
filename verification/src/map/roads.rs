//! Roads as walks over set tiles: what it means for a road to join two
//! tiles, for a drawing to change no tile off its road or to lay only roads,
//! and the invariant that every connection between cities is such a road.
use vstd::prelude::*;
use crate::ivec::{IVec2, abs_int};
use crate::map::chunk_cursor::ChunkCursor;
use crate::map::overmap_generator::{
    CityId, OVERMAP_CHUNK_SIZE, OvermapChunk, OvermapChunkCoords, OvermapTileType, chunk_at, chunk_wf,
    chunks_wf, cities_evolve, city_grows, connected_around, map_wf, only_tiles_change, pair_linked,
    tile_at, tile_index, tiles_grow,
};
use crate::outside::city_map;
use crate::utils::{cardinal_neighbours, square_cell};

verus! {

/// The tiles of `a` and `b` are the same or side by side.
pub open spec fn touching(a: ChunkCursor, b: ChunkCursor) -> bool {
    abs_int(a.global().0 - b.global().0) + abs_int(a.global().1 - b.global().1) <= 1
}

/// `path` is a walk over set tiles of `m`: every step stands inside its
/// chunk on a tile that is set, and touches the next step.
pub open spec fn road_path(m: Map<OvermapChunkCoords, OvermapChunk>, path: Seq<ChunkCursor>) -> bool {
    &&& path.len() > 0
    &&& forall|i: int| 0 <= i < path.len() ==> (#[trigger] path[i]).placed()
        && tile_at(m, path[i].chunk_coord, path[i].local_pos) is Some
    &&& forall|i: int| 0 <= i < path.len() - 1 ==> #[trigger] touching(path[i], path[i + 1])
}

/// `path` starts at `ap` in chunk `ac` and ends at `bp` in chunk `bc`.
pub open spec fn path_between(path: Seq<ChunkCursor>, ac: OvermapChunkCoords, ap: IVec2, bc: OvermapChunkCoords, bp: IVec2) -> bool {
    &&& path.len() > 0
    &&& path[0].chunk_coord == ac
    &&& path[0].local_pos == ap
    &&& path.last().chunk_coord == bc
    &&& path.last().local_pos == bp
}

/// A road of set tiles in `m` joins `ap` in chunk `ac` to `bp` in chunk `bc`.
pub open spec fn roads_join(
    m: Map<OvermapChunkCoords, OvermapChunk>,
    ac: OvermapChunkCoords,
    ap: IVec2,
    bc: OvermapChunkCoords,
    bp: IVec2,
) -> bool {
    exists|path: Seq<ChunkCursor>| road_path(m, path) && path_between(path, ac, ap, bc, bp)
}

/// Tile `i` of chunk `k` is a tile that one of the steps of `path` stands on.
pub open spec fn on_path(path: Seq<ChunkCursor>, k: OvermapChunkCoords, i: int) -> bool {
    exists|j: int| #![trigger path[j]] 0 <= j < path.len() && path[j].chunk_coord == k && tile_index(path[j].local_pos) == i
}

/// From `a` to `b` no tile changed but those that `path` stands on.
pub open spec fn changes_within(
    a: Map<OvermapChunkCoords, OvermapChunk>,
    b: Map<OvermapChunkCoords, OvermapChunk>,
    path: Seq<ChunkCursor>,
) -> bool {
    forall|k: OvermapChunkCoords, i: int|
        #![trigger b[k].overmap_tiles@[i]]
        a.contains_key(k) && 0 <= i < a[k].overmap_tiles.len() && b[k].overmap_tiles@[i] != a[k].overmap_tiles@[i]
            ==> on_path(path, k, i)
}

/// A road was laid from `ap` in chunk `ac` to `bp` in chunk `bc` between
/// `a` and `b`: a walk over set tiles of `b` joins them, and no tile off that
/// walk changed.
pub open spec fn road_laid(
    a: Map<OvermapChunkCoords, OvermapChunk>,
    b: Map<OvermapChunkCoords, OvermapChunk>,
    ac: OvermapChunkCoords,
    ap: IVec2,
    bc: OvermapChunkCoords,
    bp: IVec2,
) -> bool {
    exists|path: Seq<ChunkCursor>| road_path(b, path) && path_between(path, ac, ap, bc, bp) && changes_within(a, b, path)
}

/// Nothing changes between a map and itself.
pub proof fn lemma_changes_none(a: Map<OvermapChunkCoords, OvermapChunk>, path: Seq<ChunkCursor>)
    ensures
        changes_within(a, a, path),
{
}

/// The tiles a walk stands on are among those of a walk that extends it.
pub proof fn lemma_on_path_prefix(p: Seq<ChunkCursor>, r: Seq<ChunkCursor>)
    requires
        p.len() <= r.len(),
        r.take(p.len() as int) == p,
    ensures
        forall|k: OvermapChunkCoords, i: int| on_path(p, k, i) ==> on_path(r, k, i),
{
    assert forall|k: OvermapChunkCoords, i: int| on_path(p, k, i) implies on_path(r, k, i) by {
        let j = choose|j: int| #![trigger p[j]] 0 <= j < p.len() && p[j].chunk_coord == k && tile_index(p[j].local_pos) == i;
        assert(r.take(p.len() as int)[j] == r[j]);
        assert(r[j] == p[j]);
    }
}

/// The tile of a walk's last step is one it stands on.
pub proof fn lemma_on_path_last(r: Seq<ChunkCursor>, x: ChunkCursor)
    requires
        r.len() > 0,
        r.last() == x,
    ensures
        forall|k: OvermapChunkCoords, i: int| on_path(seq![x], k, i) ==> on_path(r, k, i),
{
    assert forall|k: OvermapChunkCoords, i: int| on_path(seq![x], k, i) implies on_path(r, k, i) by {
        let q = seq![x];
        let j = choose|j: int| #![trigger q[j]] 0 <= j < q.len() && q[j].chunk_coord == k && tile_index(q[j].local_pos) == i;
        assert(r[r.len() - 1] == x);
    }
}

/// Changes made within one walk and then within another all lie within any
/// walk that stands on the tiles of both.
pub proof fn lemma_changes_compose(
    a: Map<OvermapChunkCoords, OvermapChunk>,
    b: Map<OvermapChunkCoords, OvermapChunk>,
    c: Map<OvermapChunkCoords, OvermapChunk>,
    p: Seq<ChunkCursor>,
    q: Seq<ChunkCursor>,
    r: Seq<ChunkCursor>,
)
    requires
        changes_within(a, b, p),
        changes_within(b, c, q),
        tiles_grow(a, b),
        forall|k: OvermapChunkCoords, i: int| on_path(p, k, i) ==> on_path(r, k, i),
        forall|k: OvermapChunkCoords, i: int| on_path(q, k, i) ==> on_path(r, k, i),
    ensures
        changes_within(a, c, r),
{
    assert forall|k: OvermapChunkCoords, i: int|
        #![trigger c[k].overmap_tiles@[i]]
        a.contains_key(k) && 0 <= i < a[k].overmap_tiles.len() && c[k].overmap_tiles@[i] != a[k].overmap_tiles@[i]
        implies on_path(r, k, i) by {
        assert(b.contains_key(k));
        if b[k].overmap_tiles@[i] != a[k].overmap_tiles@[i] {
            assert(on_path(p, k, i));
        } else {
            assert(c[k].overmap_tiles@[i] != b[k].overmap_tiles@[i]);
            assert(on_path(q, k, i));
        }
    }
}

/// Extending a walk by one step whose tile alone changed.
pub proof fn lemma_changes_push(
    a: Map<OvermapChunkCoords, OvermapChunk>,
    b: Map<OvermapChunkCoords, OvermapChunk>,
    c: Map<OvermapChunkCoords, OvermapChunk>,
    p: Seq<ChunkCursor>,
    x: ChunkCursor,
)
    requires
        changes_within(a, b, p),
        changes_within(b, c, seq![x]),
        tiles_grow(a, b),
    ensures
        changes_within(a, c, p.push(x)),
        p.push(x).take(p.len() as int) == p,
{
    let r = p.push(x);
    assert(r.take(p.len() as int) =~= p);
    lemma_on_path_prefix(p, r);
    lemma_on_path_last(r, x);
    lemma_changes_compose(a, b, c, p, seq![x], r);
}

/// From `a` to `b` every tile that changed became a road.
pub open spec fn only_roads_laid(a: Map<OvermapChunkCoords, OvermapChunk>, b: Map<OvermapChunkCoords, OvermapChunk>) -> bool {
    forall|k: OvermapChunkCoords, i: int|
        #![trigger b[k].overmap_tiles@[i]]
        a.contains_key(k) && 0 <= i < a[k].overmap_tiles.len() && b[k].overmap_tiles@[i] != a[k].overmap_tiles@[i]
            ==> b[k].overmap_tiles@[i] == Some(OvermapTileType::Road)
}

/// Laying a road under a cursor only ever lays a road.
pub proof fn lemma_roads_laid_lay(
    m0: Map<OvermapChunkCoords, OvermapChunk>,
    before: Map<OvermapChunkCoords, OvermapChunk>,
    after: Map<OvermapChunkCoords, OvermapChunk>,
    c: ChunkCursor,
)
    requires
        only_roads_laid(m0, before),
        tiles_grow(m0, before),
        changes_within(before, after, seq![c]),
        tile_at(before, c.chunk_coord, c.local_pos) == Some(OvermapTileType::House)
            ==> tile_at(after, c.chunk_coord, c.local_pos) == Some(OvermapTileType::House),
        tile_at(before, c.chunk_coord, c.local_pos) != Some(OvermapTileType::House)
            ==> tile_at(after, c.chunk_coord, c.local_pos) == Some(OvermapTileType::Road),
    ensures
        only_roads_laid(m0, after),
{
    assert forall|k: OvermapChunkCoords, i: int|
        #![trigger after[k].overmap_tiles@[i]]
        m0.contains_key(k) && 0 <= i < m0[k].overmap_tiles.len() && after[k].overmap_tiles@[i] != m0[k].overmap_tiles@[i]
        implies after[k].overmap_tiles@[i] == Some(OvermapTileType::Road) by {
        assert(before.contains_key(k));
        if after[k].overmap_tiles@[i] != before[k].overmap_tiles@[i] {
            assert(on_path(seq![c], k, i));
            let q = seq![c];
            let j = choose|j: int| #![trigger q[j]] 0 <= j < q.len() && q[j].chunk_coord == k && tile_index(q[j].local_pos) == i;
            assert(q[j] == c);
        } else {
            assert(before[k].overmap_tiles@[i] != m0[k].overmap_tiles@[i]);
        }
    }
}

/// Roads laid in turn are roads laid.
pub proof fn lemma_roads_laid_trans(
    a: Map<OvermapChunkCoords, OvermapChunk>,
    b: Map<OvermapChunkCoords, OvermapChunk>,
    c: Map<OvermapChunkCoords, OvermapChunk>,
)
    requires
        only_roads_laid(a, b),
        only_roads_laid(b, c),
        tiles_grow(a, b),
    ensures
        only_roads_laid(a, c),
{
    assert forall|k: OvermapChunkCoords, i: int|
        #![trigger c[k].overmap_tiles@[i]]
        a.contains_key(k) && 0 <= i < a[k].overmap_tiles.len() && c[k].overmap_tiles@[i] != a[k].overmap_tiles@[i]
        implies c[k].overmap_tiles@[i] == Some(OvermapTileType::Road) by {
        assert(b.contains_key(k));
        if c[k].overmap_tiles@[i] == b[k].overmap_tiles@[i] {
            assert(b[k].overmap_tiles@[i] != a[k].overmap_tiles@[i]);
        }
    }
}

/// From `a` to `b` every tile that became a house is the tile of `p1` in
/// chunk `k1` or of `p2` in chunk `k2`.
pub open spec fn houses_only_at(
    a: Map<OvermapChunkCoords, OvermapChunk>,
    b: Map<OvermapChunkCoords, OvermapChunk>,
    k1: OvermapChunkCoords,
    p1: IVec2,
    k2: OvermapChunkCoords,
    p2: IVec2,
) -> bool {
    forall|k: OvermapChunkCoords, i: int|
        #![trigger b[k].overmap_tiles@[i]]
        a.contains_key(k) && 0 <= i < a[k].overmap_tiles.len()
            && b[k].overmap_tiles@[i] == Some(OvermapTileType::House)
            && a[k].overmap_tiles@[i] != Some(OvermapTileType::House)
            ==> (k == k1 && i == tile_index(p1)) || (k == k2 && i == tile_index(p2))
}

/// A house laid under one cursor, then only roads, then a house under a
/// second cursor: every new house is under one of the two.
pub proof fn lemma_houses_at_ends(
    m0: Map<OvermapChunkCoords, OvermapChunk>,
    m1: Map<OvermapChunkCoords, OvermapChunk>,
    m4: Map<OvermapChunkCoords, OvermapChunk>,
    m5: Map<OvermapChunkCoords, OvermapChunk>,
    c0: ChunkCursor,
    c1: ChunkCursor,
)
    requires
        tiles_grow(m0, m1),
        tiles_grow(m1, m4),
        changes_within(m0, m1, seq![c0]),
        only_roads_laid(m1, m4),
        changes_within(m4, m5, seq![c1]),
    ensures
        houses_only_at(m0, m5, c0.chunk_coord, c0.local_pos, c1.chunk_coord, c1.local_pos),
{
    assert forall|k: OvermapChunkCoords, i: int|
        #![trigger m5[k].overmap_tiles@[i]]
        m0.contains_key(k) && 0 <= i < m0[k].overmap_tiles.len()
            && m5[k].overmap_tiles@[i] == Some(OvermapTileType::House)
            && m0[k].overmap_tiles@[i] != Some(OvermapTileType::House)
        implies (k == c0.chunk_coord && i == tile_index(c0.local_pos))
            || (k == c1.chunk_coord && i == tile_index(c1.local_pos)) by {
        assert(m1.contains_key(k));
        assert(m4.contains_key(k));
        if m5[k].overmap_tiles@[i] != m4[k].overmap_tiles@[i] {
            let q = seq![c1];
            assert(on_path(q, k, i));
            let j = choose|j: int| #![trigger q[j]] 0 <= j < q.len() && q[j].chunk_coord == k && tile_index(q[j].local_pos) == i;
            assert(q[j] == c1);
        } else {
            assert(m4[k].overmap_tiles@[i] == m1[k].overmap_tiles@[i]);
            let q = seq![c0];
            assert(on_path(q, k, i));
            let j = choose|j: int| #![trigger q[j]] 0 <= j < q.len() && q[j].chunk_coord == k && tile_index(q[j].local_pos) == i;
            assert(q[j] == c0);
        }
    }
}

/// A walk over set tiles stays one while tiles are only added.
pub proof fn lemma_road_path_grows(a: Map<OvermapChunkCoords, OvermapChunk>, b: Map<OvermapChunkCoords, OvermapChunk>, path: Seq<ChunkCursor>)
    requires
        chunks_wf(a),
        tiles_grow(a, b),
        road_path(a, path),
    ensures
        road_path(b, path),
{
    assert forall|i: int| 0 <= i < path.len() implies (#[trigger] path[i]).placed()
        && tile_at(b, path[i].chunk_coord, path[i].local_pos) is Some by {
        let k = path[i].chunk_coord;
        assert(a.contains_key(k));
        assert(chunk_wf(k, a[k]));
        let t = tile_index(path[i].local_pos);
        assert(0 <= t < a[k].overmap_tiles.len()) by {
            assert(0 <= path[i].local_pos.y * OVERMAP_CHUNK_SIZE + path[i].local_pos.x < 16384) by (nonlinear_arith)
                requires
                    0 <= path[i].local_pos.x < 128,
                    0 <= path[i].local_pos.y < 128,
                    OVERMAP_CHUNK_SIZE == 128,
            ;
        }
        assert(a[k].overmap_tiles@[t] is Some);
    }
}

/// Roads that join two tiles keep joining them while tiles are only added:
/// generating more of the overmap never cuts a road.
pub proof fn lemma_roads_join_grows(
    a: Map<OvermapChunkCoords, OvermapChunk>,
    b: Map<OvermapChunkCoords, OvermapChunk>,
    ac: OvermapChunkCoords,
    ap: IVec2,
    bc: OvermapChunkCoords,
    bp: IVec2,
)
    requires
        chunks_wf(a),
        tiles_grow(a, b),
        roads_join(a, ac, ap, bc, bp),
    ensures
        roads_join(b, ac, ap, bc, bp),
{
    let path = choose|path: Seq<ChunkCursor>| road_path(a, path) && path_between(path, ac, ap, bc, bp);
    lemma_road_path_grows(a, b, path);
}

/// A road joins its two ends either way round.
pub proof fn lemma_roads_join_reverse(
    m: Map<OvermapChunkCoords, OvermapChunk>,
    ac: OvermapChunkCoords,
    ap: IVec2,
    bc: OvermapChunkCoords,
    bp: IVec2,
)
    requires
        roads_join(m, ac, ap, bc, bp),
    ensures
        roads_join(m, bc, bp, ac, ap),
{
    let path = choose|path: Seq<ChunkCursor>| road_path(m, path) && path_between(path, ac, ap, bc, bp);
    let rev = path.reverse();
    assert forall|i: int| 0 <= i < rev.len() implies (#[trigger] rev[i]).placed()
        && tile_at(m, rev[i].chunk_coord, rev[i].local_pos) is Some by {
        assert(rev[i] == path[path.len() - 1 - i]);
    }
    assert forall|i: int| 0 <= i < rev.len() - 1 implies #[trigger] touching(rev[i], rev[i + 1]) by {
        let j = path.len() - 2 - i;
        assert(rev[i] == path[j + 1]);
        assert(rev[i + 1] == path[j]);
        assert(touching(path[j], path[j + 1]));
    }
    assert(rev[0] == path.last());
    assert(rev.last() == path[0]);
    assert(road_path(m, rev) && path_between(rev, bc, bp, ac, ap));
}

/// Extending a walk by a set tile that touches its end.
pub proof fn lemma_road_path_push(m: Map<OvermapChunkCoords, OvermapChunk>, path: Seq<ChunkCursor>, c: ChunkCursor)
    requires
        road_path(m, path),
        c.placed(),
        tile_at(m, c.chunk_coord, c.local_pos) is Some,
        touching(path.last(), c),
    ensures
        road_path(m, path.push(c)),
        path.push(c)[0] == path[0],
        path.push(c).last() == c,
{
    let q = path.push(c);
    assert forall|i: int| 0 <= i < q.len() implies (#[trigger] q[i]).placed()
        && tile_at(m, q[i].chunk_coord, q[i].local_pos) is Some by {
        if i < path.len() {
            assert(q[i] == path[i]);
        }
    }
    assert forall|i: int| 0 <= i < q.len() - 1 implies #[trigger] touching(q[i], q[i + 1]) by {
        if i < path.len() - 1 {
            assert(q[i] == path[i]);
            assert(q[i + 1] == path[i + 1]);
            assert(touching(path[i], path[i + 1]));
        } else {
            assert(q[i] == path.last());
            assert(q[i + 1] == c);
        }
    }
}

/// The link `link` of city `a` of chunk `k` is a road: the city it names
/// exists, and a road of set tiles joins the two cities.
pub open spec fn link_has_road(
    m: Map<OvermapChunkCoords, OvermapChunk>,
    k: OvermapChunkCoords,
    a: CityId,
    link: (OvermapChunkCoords, CityId),
) -> bool {
    &&& m.contains_key(link.0)
    &&& city_map(m[link.0].cities).contains_key(link.1)
    &&& roads_join(m, k, city_map(m[k].cities)[a].position, link.0, city_map(m[link.0].cities)[link.1].position)
}

/// Every connection recorded in `m` is a road.
pub open spec fn links_have_roads(m: Map<OvermapChunkCoords, OvermapChunk>) -> bool {
    forall|k: OvermapChunkCoords, a: CityId, j: int|
        #![trigger city_map(m[k].cities)[a].connected_to@[j]]
        m.contains_key(k) && city_map(m[k].cities).contains_key(a)
            && 0 <= j < city_map(m[k].cities)[a].connected_to@.len()
            ==> link_has_road(m, k, a, city_map(m[k].cities)[a].connected_to@[j])
}

/// A connection that is a road stays one while tiles and links are only added.
pub proof fn lemma_link_has_road_keeps(
    m0: Map<OvermapChunkCoords, OvermapChunk>,
    m1: Map<OvermapChunkCoords, OvermapChunk>,
    k: OvermapChunkCoords,
    a: CityId,
    link: (OvermapChunkCoords, CityId),
)
    requires
        map_wf(m0),
        tiles_grow(m0, m1),
        cities_evolve(m0, m1),
        m0.contains_key(k),
        city_map(m0[k].cities).contains_key(a),
        link_has_road(m0, k, a, link),
    ensures
        link_has_road(m1, k, a, link),
{
    let t = link.0;
    assert(m0.contains_key(t));
    assert(city_grows(city_map(m0[k].cities)[a], city_map(m1[k].cities)[a]));
    assert(city_grows(city_map(m0[t].cities)[link.1], city_map(m1[t].cities)[link.1]));
    lemma_roads_join_grows(m0, m1, k, city_map(m0[k].cities)[a].position, t, city_map(m0[t].cities)[link.1].position);
}

/// The recorded connections stay roads while tiles and links are only
/// added, provided each added link is a road.
pub proof fn lemma_links_have_roads_keep(m0: Map<OvermapChunkCoords, OvermapChunk>, m1: Map<OvermapChunkCoords, OvermapChunk>)
    requires
        map_wf(m0),
        links_have_roads(m0),
        tiles_grow(m0, m1),
        cities_evolve(m0, m1),
        forall|k: OvermapChunkCoords, a: CityId, j: int|
            #![trigger city_map(m1[k].cities)[a].connected_to@[j]]
            m1.contains_key(k) && city_map(m1[k].cities).contains_key(a)
                && city_map(m0[k].cities)[a].connected_to@.len() <= j < city_map(m1[k].cities)[a].connected_to@.len()
                ==> link_has_road(m1, k, a, city_map(m1[k].cities)[a].connected_to@[j]),
    ensures
        links_have_roads(m1),
{
    assert forall|k: OvermapChunkCoords, a: CityId, j: int|
        #![trigger city_map(m1[k].cities)[a].connected_to@[j]]
        m1.contains_key(k) && city_map(m1[k].cities).contains_key(a)
            && 0 <= j < city_map(m1[k].cities)[a].connected_to@.len()
        implies link_has_road(m1, k, a, city_map(m1[k].cities)[a].connected_to@[j]) by {
        assert(m0.contains_key(k));
        assert(city_map(m0[k].cities).contains_key(a));
        let c0 = city_map(m0[k].cities)[a];
        let c1 = city_map(m1[k].cities)[a];
        assert(city_grows(c0, c1));
        if j < c0.connected_to@.len() {
            assert(c1.connected_to@.take(c0.connected_to@.len() as int)[j] == c1.connected_to@[j]);
            assert(c1.connected_to@[j] == c0.connected_to@[j]);
            assert(link_has_road(m0, k, a, city_map(m0[k].cities)[a].connected_to@[j]));
            lemma_link_has_road_keeps(m0, m1, k, a, c0.connected_to@[j]);
        }
    }
}

/// The recorded connections stay roads while only tiles are added.
pub proof fn lemma_links_have_roads_tiles(m0: Map<OvermapChunkCoords, OvermapChunk>, m1: Map<OvermapChunkCoords, OvermapChunk>)
    requires
        map_wf(m0),
        links_have_roads(m0),
        tiles_grow(m0, m1),
        only_tiles_change(m0, m1),
    ensures
        links_have_roads(m1),
{
    assert forall|k: OvermapChunkCoords| #[trigger] m0.contains_key(k) implies {
        &&& m1[k].coordinates == m0[k].coordinates
        &&& city_map(m1[k].cities).dom() == city_map(m0[k].cities).dom()
        &&& forall|id: CityId| #[trigger] city_map(m0[k].cities).contains_key(id)
            ==> city_grows(city_map(m0[k].cities)[id], city_map(m1[k].cities)[id])
    } by {
        assert forall|id: CityId| #[trigger] city_map(m0[k].cities).contains_key(id)
            implies city_grows(city_map(m0[k].cities)[id], city_map(m1[k].cities)[id]) by {
            let x = city_map(m0[k].cities)[id].connected_to@;
            assert(x.take(x.len() as int) =~= x);
        }
    }
    assert(cities_evolve(m0, m1));
    lemma_links_have_roads_keep(m0, m1);
}

/// A new chunk whose cities have no connections yet keeps the recorded
/// connections roads.
pub proof fn lemma_links_have_roads_new_chunk(
    m0: Map<OvermapChunkCoords, OvermapChunk>,
    k: OvermapChunkCoords,
    chunk: OvermapChunk,
)
    requires
        map_wf(m0),
        links_have_roads(m0),
        !m0.contains_key(k),
        forall|a: CityId| #[trigger] city_map(chunk.cities).contains_key(a)
            ==> city_map(chunk.cities)[a].connected_to@.len() == 0,
    ensures
        links_have_roads(m0.insert(k, chunk)),
{
    let m1 = m0.insert(k, chunk);
    assert(tiles_grow(m0, m1)) by {
        assert forall|j: OvermapChunkCoords| #[trigger] m0.contains_key(j) implies {
            &&& m1.contains_key(j)
            &&& m1[j].overmap_tiles.len() == m0[j].overmap_tiles.len()
            &&& forall|i: int| 0 <= i < m0[j].overmap_tiles.len() ==> {
                &&& (#[trigger] m0[j].overmap_tiles@[i] is Some ==> m1[j].overmap_tiles@[i] is Some)
                &&& (m0[j].overmap_tiles@[i] == Some(OvermapTileType::House)
                    ==> m1[j].overmap_tiles@[i] == Some(OvermapTileType::House))
            }
        } by {
            assert(m1[j] == m0[j]);
        }
    }
    assert forall|kk: OvermapChunkCoords, a: CityId, j: int|
        #![trigger city_map(m1[kk].cities)[a].connected_to@[j]]
        m1.contains_key(kk) && city_map(m1[kk].cities).contains_key(a)
            && 0 <= j < city_map(m1[kk].cities)[a].connected_to@.len()
        implies link_has_road(m1, kk, a, city_map(m1[kk].cities)[a].connected_to@[j]) by {
        if kk == k {
            assert(city_map(chunk.cities).contains_key(a));
        } else {
            assert(m1[kk] == m0[kk]);
            let link = city_map(m0[kk].cities)[a].connected_to@[j];
            assert(link_has_road(m0, kk, a, link));
            assert(m1[link.0] == m0[link.0]);
            lemma_roads_join_grows(m0, m1, kk, city_map(m0[kk].cities)[a].position, link.0,
                city_map(m0[link.0].cities)[link.1].position);
        }
    }
}

/// Generation keeps every recorded connection a road, so every city within
/// one chunk of the centre is joined by a road of set tiles to every city of
/// each of its side neighbours.
pub proof fn lemma_neighbours_joined_by_roads(
    m: Map<OvermapChunkCoords, OvermapChunk>,
    current: IVec2,
    j: int,
    ni: int,
    a: CityId,
    b: CityId,
)
    requires
        links_have_roads(m),
        connected_around(m, current),
        0 <= j < 9,
        0 <= ni < 4,
        m.contains_key(chunk_at(square_cell(current, 1, j))),
        m.contains_key(chunk_at(cardinal_neighbours(square_cell(current, 1, j))[ni])),
        city_map(m[chunk_at(square_cell(current, 1, j))].cities).contains_key(a),
        city_map(m[chunk_at(cardinal_neighbours(square_cell(current, 1, j))[ni])].cities).contains_key(b),
    ensures
        roads_join(m,
            chunk_at(square_cell(current, 1, j)),
            city_map(m[chunk_at(square_cell(current, 1, j))].cities)[a].position,
            chunk_at(cardinal_neighbours(square_cell(current, 1, j))[ni]),
            city_map(m[chunk_at(cardinal_neighbours(square_cell(current, 1, j))[ni])].cities)[b].position),
{
    let c = chunk_at(square_cell(current, 1, j));
    let n = chunk_at(cardinal_neighbours(square_cell(current, 1, j))[ni]);
    assert(pair_linked(m, c, n));
    let links = city_map(m[c].cities)[a].connected_to@;
    assert(links.contains((n, b)));
    let q = choose|q: int| 0 <= q < links.len() && links[q] == (n, b);
    assert(link_has_road(m, c, a, city_map(m[c].cities)[a].connected_to@[q]));
}

/// From `a` to `b` every tile that became a house is the tile of a city of
/// its chunk in `b`.
pub open spec fn houses_on_cities(a: Map<OvermapChunkCoords, OvermapChunk>, b: Map<OvermapChunkCoords, OvermapChunk>) -> bool {
    forall|k: OvermapChunkCoords, i: int|
        #![trigger b[k].overmap_tiles@[i]]
        a.contains_key(k) && 0 <= i < a[k].overmap_tiles.len()
            && b[k].overmap_tiles@[i] == Some(OvermapTileType::House)
            && a[k].overmap_tiles@[i] != Some(OvermapTileType::House)
            ==> exists|id: CityId| #[trigger] city_map(b[k].cities).contains_key(id)
                && tile_index(city_map(b[k].cities)[id].position) == i
}

/// New houses on city tiles stay on city tiles while cities only gain links.
pub proof fn lemma_houses_on_cities_trans(
    a: Map<OvermapChunkCoords, OvermapChunk>,
    b: Map<OvermapChunkCoords, OvermapChunk>,
    c: Map<OvermapChunkCoords, OvermapChunk>,
)
    requires
        houses_on_cities(a, b),
        houses_on_cities(b, c),
        tiles_grow(a, b),
        cities_evolve(b, c),
    ensures
        houses_on_cities(a, c),
{
    assert forall|k: OvermapChunkCoords, i: int|
        #![trigger c[k].overmap_tiles@[i]]
        a.contains_key(k) && 0 <= i < a[k].overmap_tiles.len()
            && c[k].overmap_tiles@[i] == Some(OvermapTileType::House)
            && a[k].overmap_tiles@[i] != Some(OvermapTileType::House)
        implies exists|id: CityId| #[trigger] city_map(c[k].cities).contains_key(id)
            && tile_index(city_map(c[k].cities)[id].position) == i by {
        assert(b.contains_key(k));
        if b[k].overmap_tiles@[i] == Some(OvermapTileType::House) {
            let id = choose|id: CityId| #[trigger] city_map(b[k].cities).contains_key(id)
                && tile_index(city_map(b[k].cities)[id].position) == i;
            assert(city_grows(city_map(b[k].cities)[id], city_map(c[k].cities)[id]));
            assert(city_map(c[k].cities).contains_key(id));
        }
    }
}

/// Where only tiles change, every city stays as it was.
pub proof fn lemma_tiles_only_cities_evolve(a: Map<OvermapChunkCoords, OvermapChunk>, b: Map<OvermapChunkCoords, OvermapChunk>)
    requires
        only_tiles_change(a, b),
    ensures
        cities_evolve(a, b),
{
    assert forall|k: OvermapChunkCoords| #[trigger] a.contains_key(k) implies {
        &&& b[k].coordinates == a[k].coordinates
        &&& city_map(b[k].cities).dom() == city_map(a[k].cities).dom()
        &&& forall|id: CityId| #[trigger] city_map(a[k].cities).contains_key(id)
            ==> city_grows(city_map(a[k].cities)[id], city_map(b[k].cities)[id])
    } by {
        assert forall|id: CityId| #[trigger] city_map(a[k].cities).contains_key(id)
            implies city_grows(city_map(a[k].cities)[id], city_map(b[k].cities)[id]) by {
            let x = city_map(a[k].cities)[id].connected_to@;
            assert(x.take(x.len() as int) =~= x);
        }
    }
}

/// Laying only roads builds no house.
pub proof fn lemma_roads_no_houses(a: Map<OvermapChunkCoords, OvermapChunk>, b: Map<OvermapChunkCoords, OvermapChunk>)
    requires
        only_roads_laid(a, b),
    ensures
        houses_on_cities(a, b),
{
    assert forall|k: OvermapChunkCoords, i: int|
        #![trigger b[k].overmap_tiles@[i]]
        a.contains_key(k) && 0 <= i < a[k].overmap_tiles.len()
            && b[k].overmap_tiles@[i] == Some(OvermapTileType::House)
            && a[k].overmap_tiles@[i] != Some(OvermapTileType::House)
        implies exists|id: CityId| #[trigger] city_map(b[k].cities).contains_key(id)
            && tile_index(city_map(b[k].cities)[id].position) == i by {
        assert(b[k].overmap_tiles@[i] != a[k].overmap_tiles@[i]);
    }
}

} // verus!
