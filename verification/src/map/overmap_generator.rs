//! The overmap: chunks of 128 x 128 tiles keyed by chunk coordinates, the
//! cities placed in them, and the generator that draws roads between cities,
//! grows each city's street network and places houses along the streets.
use vstd::prelude::*;
use crate::ivec::{IVec2, abs_int, max_int, sign_int};
use crate::utils::{
    xy_idx, get_coords_in_square_radius, get_neighbouring_cardinal_coordinates, square_cell,
    cardinal_neighbours, lemma_square_full, lemma_square_cell_offsets,
    lemma_square_cell_of_offset, square_width,
};
use crate::outside::{
    random_range, chunk_map, chunk_map_contains, chunk_map_get, chunk_map_get_mut,
    chunk_map_insert, city_map, city_map_new, city_map_get, city_map_get_mut,
    city_map_insert, city_map_keys, candidate_map, candidate_map_new, candidate_map_get,
    candidate_map_insert, candidate_map_remove, candidate_map_keys, candidate_map_extend,
    occupancy_map, occupancy_map_new, occupancy_map_get, occupancy_map_insert,
    occupancy_map_remove, occupancy_map_extend, ChunkMap, CityMap, CandidateMap, OccupancyMap,
};
use crate::map::roads::{
    changes_within, houses_on_cities, houses_only_at, lemma_changes_compose, lemma_changes_none,
    lemma_changes_push, lemma_houses_at_ends, lemma_houses_on_cities_trans, lemma_links_have_roads_keep,
    lemma_links_have_roads_new_chunk, lemma_links_have_roads_tiles, lemma_on_path_last,
    lemma_on_path_prefix, lemma_road_path_grows, lemma_road_path_push, lemma_roads_join_grows,
    lemma_roads_join_reverse, lemma_roads_laid_lay, lemma_roads_laid_trans, lemma_roads_no_houses,
    lemma_tiles_only_cities_evolve, link_has_road, links_have_roads, on_path, only_roads_laid,
    path_between, road_laid, road_path, roads_join,
};
use crate::map::chunk_cursor::{
    ChunkCursor, cell_of, global_of, lemma_shift_is_global_move, shifted, can_shift, lemma_unit_step_x, lemma_unit_step_y,
};

verus! {

/// Side length of an overmap chunk, in tiles.
pub const OVERMAP_CHUNK_SIZE: i32 = 128;

/// Number of tiles in an overmap chunk.
pub const OVERMAP_CHUNK_TILES: usize = 16384;

/// The whole overmap: every generated chunk, by its chunk coordinates.
pub struct GameMap {
    pub overmap_chunks: ChunkMap,
}

/// The coordinates of a chunk in the grid of chunks.
#[derive(Debug, Clone, Copy, PartialEq, Eq, Hash, Structural)]
pub struct OvermapChunkCoords(pub IVec2);

/// What a generated tile holds.
#[derive(Debug, Clone, Copy, PartialEq, Eq, Structural)]
pub enum OvermapTileType {
    Road,
    House,
}

/// A tile type together with the glyph it is drawn with.
pub struct OvermapTile {
    pub tile_type: OvermapTileType,
    pub glyph: i32,
}

/// One chunk of the overmap.
pub struct OvermapChunk {
    pub coordinates: OvermapChunkCoords,
    pub cities: CityMap,
    /// Row-major tiles: the tile at local `(x, y)` is at index `y * 128 + x`.
    pub overmap_tiles: Vec<Option<OvermapTileType>>,
    pub generation_complete: bool,
}

/// The id of a city within its chunk.
#[derive(Debug, Clone, Copy, PartialEq, Eq, Hash, Structural)]
pub struct CityId(pub i32);

/// A city: where it stands, how large it is meant to grow, and which cities
/// of other chunks a road already connects it to.
pub struct City {
    pub id: CityId,
    pub position: IVec2,
    pub overmap_chunk_coordinate: OvermapChunkCoords,
    /// The estimated size of the city, used for influencing the procgen.
    pub size: i32,
    pub connected_to: Vec<(OvermapChunkCoords, CityId)>,
}

/// A rectangular building.
pub struct Building {
    pub position: IVec2,
    pub bounds: IVec2,
}

/// Buildings are always anchored from the bottom left (relative to orientation)
/// ```text
/// XX  RoX  RR
/// oX  RXX  Xo
/// RR       XX
/// ```
#[derive(Clone, Copy, Debug)]
pub struct BuildingCandidate {
    pub id: usize,
    pub position: IVec2,
    pub chunk_coord: OvermapChunkCoords,
    pub direction_to_road: IVec2,
    pub shape: BuildingShape,
}

/// The footprint of a building, measured along and away from its road.
#[derive(Clone, Copy, Debug, PartialEq, Eq, Structural)]
pub enum BuildingShape {
    OneByOne,
    OneByTwo,
    TwoByOne,
    TwoByTwo,
}

/// The footprint offsets of `shape` for a building whose road lies in
/// direction `d`: the anchor, one step away from the road, one step along it
/// (the swapped direction), or both.
pub open spec fn footprint_of(shape: BuildingShape, d: IVec2) -> Seq<IVec2> {
    let zero = IVec2 { x: 0, y: 0 };
    let away = IVec2 { x: (-d.x) as i32, y: (-d.y) as i32 };
    let adjacent = IVec2 { x: d.y, y: d.x };
    let both = IVec2 { x: (adjacent.x - d.x) as i32, y: (adjacent.y - d.y) as i32 };
    match shape {
        BuildingShape::OneByOne => seq![zero],
        BuildingShape::OneByTwo => seq![zero, away],
        BuildingShape::TwoByOne => seq![zero, adjacent],
        BuildingShape::TwoByTwo => seq![zero, away, adjacent, both],
    }
}

/// The chance, out of 10, that a candidate of this shape becomes a house.
pub open spec fn placement_chance_of(shape: BuildingShape) -> int {
    match shape {
        BuildingShape::OneByOne => 8,
        BuildingShape::OneByTwo => 1,
        BuildingShape::TwoByOne => 2,
        BuildingShape::TwoByTwo => 4,
    }
}

/// The footprint of `shape` for a road in direction `d` can be computed in
/// `i32`: `d` can be negated, and for the two by two shape the diagonal
/// offset, away from the road and along it, fits too.
pub open spec fn footprint_fits(shape: BuildingShape, d: IVec2) -> bool {
    &&& d.x > i32::MIN
    &&& d.y > i32::MIN
    &&& shape == BuildingShape::TwoByTwo ==> crate::ivec::fits_i32(d.y - d.x) && crate::ivec::fits_i32(d.x - d.y)
}

impl BuildingShape {
    /// The chance, out of 10, that a candidate of this shape is built.
    pub fn placement_chance(&self) -> (r: i32)
        ensures
            r == placement_chance_of(*self),
    {
        match self {
            BuildingShape::OneByOne => 8,
            BuildingShape::OneByTwo => 1,
            BuildingShape::TwoByOne => 2,
            BuildingShape::TwoByTwo => 4,
        }
    }

    /// The offsets, from the anchor, of the tiles this shape covers when its
    /// road lies in direction `dir_to_road`.
    pub fn footprint(&self, dir_to_road: IVec2) -> (r: Vec<IVec2>)
        requires
            footprint_fits(*self, dir_to_road),
        ensures
            r@ == footprint_of(*self, dir_to_road),
    {
        proof {
            assert(dir_to_road.x * -1 == -dir_to_road.x);
            assert(dir_to_road.y * -1 == -dir_to_road.y);
        }
        let away = dir_to_road.scale(-1);
        let adjacent = dir_to_road.yx();
        let r = match self {
            BuildingShape::OneByOne => vec![IVec2::zero()],
            BuildingShape::OneByTwo => vec![IVec2::zero(), away],
            BuildingShape::TwoByOne => vec![IVec2::zero(), adjacent],
            BuildingShape::TwoByTwo => vec![IVec2::zero(), away, adjacent, away.add(adjacent)],
        };
        proof {
            assert(r@ =~= footprint_of(*self, dir_to_road));
        }
        r
    }
}

/// True when `p` is a position inside a chunk.
pub open spec fn local_in_chunk(p: IVec2) -> bool {
    0 <= p.x < OVERMAP_CHUNK_SIZE && 0 <= p.y < OVERMAP_CHUNK_SIZE
}

/// The index of the local position `p` in a chunk's row-major tiles.
pub open spec fn tile_index(p: IVec2) -> int {
    p.y * OVERMAP_CHUNK_SIZE + p.x
}

/// A chunk stored under key `k` is well formed: it knows its own
/// coordinates and holds a full grid of tiles.
pub open spec fn chunk_wf(k: OvermapChunkCoords, c: OvermapChunk) -> bool {
    &&& c.coordinates == k
    &&& c.overmap_tiles.len() == OVERMAP_CHUNK_TILES
}

/// Every chunk of the map holds a full grid of tiles.
pub open spec fn chunks_full(m: Map<OvermapChunkCoords, OvermapChunk>) -> bool {
    forall|k: OvermapChunkCoords| #[trigger] m.contains_key(k) ==> m[k].overmap_tiles.len() == OVERMAP_CHUNK_TILES
}

/// Every chunk of the map is well formed.
pub open spec fn chunks_wf(m: Map<OvermapChunkCoords, OvermapChunk>) -> bool {
    forall|k: OvermapChunkCoords| #[trigger] m.contains_key(k) ==> chunk_wf(k, m[k])
}

/// The tile at local position `pos` of chunk `chunk`, or `None` where the
/// chunk does not exist.
pub open spec fn tile_at(
    m: Map<OvermapChunkCoords, OvermapChunk>,
    chunk: OvermapChunkCoords,
    pos: IVec2,
) -> Option<OvermapTileType> {
    if m.contains_key(chunk) {
        m[chunk].overmap_tiles@[tile_index(pos)]
    } else {
        None
    }
}

/// `new` differs from `old` only in tile `idx` of chunk `chunk`, which now holds `t`.
pub open spec fn wrote_tile(
    old: Map<OvermapChunkCoords, OvermapChunk>,
    new: Map<OvermapChunkCoords, OvermapChunk>,
    chunk: OvermapChunkCoords,
    idx: int,
    t: Option<OvermapTileType>,
) -> bool {
    &&& old.contains_key(chunk)
    &&& new.dom() == old.dom()
    &&& forall|k: OvermapChunkCoords| #[trigger] new.contains_key(k) && k != chunk ==> new[k] == old[k]
    &&& new[chunk].coordinates == old[chunk].coordinates
    &&& new[chunk].cities == old[chunk].cities
    &&& new[chunk].generation_complete == old[chunk].generation_complete
    &&& new[chunk].overmap_tiles@ == old[chunk].overmap_tiles@.update(idx, t)
}

impl OvermapChunk {
    /// An empty chunk at `coordinates`: no cities and no tiles set.
    pub fn new(coordinates: OvermapChunkCoords) -> (r: OvermapChunk)
        ensures
            r.coordinates == coordinates,
            city_map(r.cities).dom().is_empty(),
            r.overmap_tiles@ == Seq::new(OVERMAP_CHUNK_TILES as nat, |i: int| None::<OvermapTileType>),
            !r.generation_complete,
    {
        let mut tiles: Vec<Option<OvermapTileType>> = Vec::new();
        let mut i: usize = 0;
        while i < OVERMAP_CHUNK_TILES
            invariant
                i <= OVERMAP_CHUNK_TILES,
                tiles@ == Seq::new(i as nat, |j: int| None::<OvermapTileType>),
            decreases OVERMAP_CHUNK_TILES - i,
        {
            tiles.push(None);
            i += 1;
        }
        OvermapChunk {
            coordinates,
            cities: city_map_new(),
            overmap_tiles: tiles,
            generation_complete: false,
        }
    }
}


/// Chunk coordinates stay within this bound, so that tile positions across
/// the whole overmap fit in an `i32`.
pub const CHUNK_COORD_LIMIT: i32 = 16000000;

/// Both components of `c` lie within `CHUNK_COORD_LIMIT + extra` of zero.
pub open spec fn coord_within(c: OvermapChunkCoords, extra: int) -> bool {
    &&& -(CHUNK_COORD_LIMIT + extra) <= c.0.x <= CHUNK_COORD_LIMIT + extra
    &&& -(CHUNK_COORD_LIMIT + extra) <= c.0.y <= CHUNK_COORD_LIMIT + extra
}

/// The Chebyshev distance between two chunk coordinates.
pub open spec fn chunk_distance(a: OvermapChunkCoords, b: OvermapChunkCoords) -> int {
    max_int(abs_int(a.0.x - b.0.x), abs_int(a.0.y - b.0.y))
}

/// A city stored under `id` in the chunk `k` is well formed.
pub open spec fn city_wf(k: OvermapChunkCoords, id: CityId, c: City) -> bool {
    &&& c.id == id
    &&& c.overmap_chunk_coordinate == k
    &&& local_in_chunk(c.position)
    &&& 64 <= c.size <= 128
}

/// Every city of the chunk `k` is well formed.
pub open spec fn cities_wf(k: OvermapChunkCoords, cities: Map<CityId, City>) -> bool {
    forall|id: CityId| #[trigger] cities.contains_key(id) ==> city_wf(k, id, cities[id])
}

/// The whole overmap is well formed: every chunk knows its coordinates,
/// holds a full grid of tiles and well-formed cities, and lies within the
/// coordinate bound.
pub open spec fn map_wf(m: Map<OvermapChunkCoords, OvermapChunk>) -> bool {
    &&& chunks_wf(m)
    &&& forall|k: OvermapChunkCoords| #[trigger] m.contains_key(k) ==> coord_within(k, 0)
    &&& forall|k: OvermapChunkCoords| #[trigger] m.contains_key(k) ==> cities_wf(k, city_map(m[k].cities))
}

/// From `old` to `new` no chunk disappears, and no tile is lost: a set tile
/// stays set, and a house stays a house.
pub open spec fn tiles_grow(
    old: Map<OvermapChunkCoords, OvermapChunk>,
    new: Map<OvermapChunkCoords, OvermapChunk>,
) -> bool {
    forall|k: OvermapChunkCoords| #[trigger] old.contains_key(k) ==> {
        &&& new.contains_key(k)
        &&& new[k].overmap_tiles.len() == old[k].overmap_tiles.len()
        &&& forall|i: int| 0 <= i < old[k].overmap_tiles.len() ==> {
            &&& (#[trigger] old[k].overmap_tiles@[i] is Some ==> new[k].overmap_tiles@[i] is Some)
            &&& (old[k].overmap_tiles@[i] == Some(OvermapTileType::House)
                ==> new[k].overmap_tiles@[i] == Some(OvermapTileType::House))
        }
    }
}

/// From `old` to `new` only tiles change: the same chunks, each with the
/// same coordinates, cities and completion flag.
pub open spec fn only_tiles_change(
    old: Map<OvermapChunkCoords, OvermapChunk>,
    new: Map<OvermapChunkCoords, OvermapChunk>,
) -> bool {
    &&& new.dom() == old.dom()
    &&& forall|k: OvermapChunkCoords| #[trigger] old.contains_key(k) ==> {
        &&& new[k].coordinates == old[k].coordinates
        &&& new[k].cities == old[k].cities
        &&& new[k].generation_complete == old[k].generation_complete
    }
}

/// Growing tiles is a preorder: it holds from a map to itself and chains.
pub proof fn lemma_tiles_grow_trans(
    a: Map<OvermapChunkCoords, OvermapChunk>,
    b: Map<OvermapChunkCoords, OvermapChunk>,
    c: Map<OvermapChunkCoords, OvermapChunk>,
)
    requires
        tiles_grow(a, b),
        tiles_grow(b, c),
    ensures
        tiles_grow(a, c),
{
    assert forall|k: OvermapChunkCoords| #[trigger] a.contains_key(k) implies {
        &&& c.contains_key(k)
        &&& c[k].overmap_tiles.len() == a[k].overmap_tiles.len()
        &&& forall|i: int| 0 <= i < a[k].overmap_tiles.len() ==> {
            &&& (#[trigger] a[k].overmap_tiles@[i] is Some ==> c[k].overmap_tiles@[i] is Some)
            &&& (a[k].overmap_tiles@[i] == Some(OvermapTileType::House)
                ==> c[k].overmap_tiles@[i] == Some(OvermapTileType::House))
        }
    } by {
        assert(b.contains_key(k));
        assert forall|i: int| 0 <= i < a[k].overmap_tiles.len() implies {
            &&& (#[trigger] a[k].overmap_tiles@[i] is Some ==> c[k].overmap_tiles@[i] is Some)
            &&& (a[k].overmap_tiles@[i] == Some(OvermapTileType::House)
                ==> c[k].overmap_tiles@[i] == Some(OvermapTileType::House))
        } by {
            assert(b[k].overmap_tiles@[i] == b[k].overmap_tiles@[i]);
        }
    }
}

/// Every map grows into itself.
pub proof fn lemma_tiles_grow_refl(a: Map<OvermapChunkCoords, OvermapChunk>)
    ensures
        tiles_grow(a, a),
{
}

/// Writing a house anywhere, or a road over a tile that is not a house, grows the map,
/// changes only tiles, and keeps it well formed.
pub proof fn lemma_wrote_tile_grows(
    old: Map<OvermapChunkCoords, OvermapChunk>,
    new: Map<OvermapChunkCoords, OvermapChunk>,
    chunk: OvermapChunkCoords,
    idx: int,
    t: OvermapTileType,
)
    requires
        wrote_tile(old, new, chunk, idx, Some(t)),
        0 <= idx < old[chunk].overmap_tiles.len(),
        old[chunk].overmap_tiles@[idx] != Some(OvermapTileType::House) || t == OvermapTileType::House,
        map_wf(old),
    ensures
        tiles_grow(old, new),
        only_tiles_change(old, new),
        map_wf(new),
{
    assert forall|k: OvermapChunkCoords| #[trigger] new.contains_key(k) implies chunk_wf(k, new[k]) by {
        assert(old.contains_key(k));
    }
    assert forall|k: OvermapChunkCoords| #[trigger] new.contains_key(k) implies coord_within(k, 0) by {
        assert(old.contains_key(k));
    }
    assert forall|k: OvermapChunkCoords| #[trigger] new.contains_key(k) implies cities_wf(k, city_map(new[k].cities)) by {
        assert(old.contains_key(k));
    }
    assert forall|k: OvermapChunkCoords| #[trigger] old.contains_key(k) implies {
        &&& new.contains_key(k)
        &&& new[k].overmap_tiles.len() == old[k].overmap_tiles.len()
        &&& forall|i: int| 0 <= i < old[k].overmap_tiles.len() ==> {
            &&& (#[trigger] old[k].overmap_tiles@[i] is Some ==> new[k].overmap_tiles@[i] is Some)
            &&& (old[k].overmap_tiles@[i] == Some(OvermapTileType::House)
                ==> new[k].overmap_tiles@[i] == Some(OvermapTileType::House))
        }
    } by {
        assert(new.contains_key(k));
    }
}

/// The two ways the overmap can be laid out.
#[derive(Clone, Copy, PartialEq, Eq, Structural)]
pub enum Layout {
    /// Roads only: a city of size 128 in half of the chunks, joined to its
    /// neighbours by roads whose straight ends are at most 32 tiles long.
    RoadsOnly,
    /// A city of size 64 to 128 in two of three chunks, joined to its
    /// neighbours by roads whose straight ends are at most half a city's
    /// size, with houses along its streets.
    WithHouses,
}

/// What a road builder may do once it has stepped and laid its tile.
#[derive(Clone, Copy, Debug, PartialEq, Eq, Structural)]
pub enum RoadBuilderAction {
    Continue,
    SplitOnce,
    SplitOnceAndContinue,
    SplitTwice,
    SplitTwiceAndContinue,
}

/// A builder that walks a straight street out of a city, laying road tiles,
/// and now and then branches off perpendicular streets.
pub struct RoadBuilder {
    pub chunk_cursor: ChunkCursor,
    pub origin_chunk: OvermapChunkCoords,
    pub direction: IVec2,
    pub generation: i32,
    pub action_probabilities: Vec<(RoadBuilderAction, i32)>,
    pub cumulative_action_weights: i32,
    pub moves_since_split: i32,
}

/// The sum of the weights of `s`.
pub open spec fn weight_sum(s: Seq<(RoadBuilderAction, i32)>) -> int
    decreases s.len(),
{
    if s.len() == 0 {
        0
    } else {
        weight_sum(s.drop_last()) + s.last().1
    }
}

/// The action that a roll of `roll` selects from weighted actions `s`: the
/// first action whose running weight total exceeds the roll.
pub open spec fn picked_action(s: Seq<(RoadBuilderAction, i32)>, roll: int) -> RoadBuilderAction
    decreases s.len(),
{
    if s.len() <= 1 || roll < s[0].1 {
        s[0].0
    } else {
        picked_action(s.drop_first(), roll - s[0].1)
    }
}

/// The weighted actions of a builder of generation `generation`.
pub open spec fn actions_for(generation: i32) -> Seq<(RoadBuilderAction, i32)> {
    if generation == 0 {
        seq![
            (RoadBuilderAction::Continue, 8i32),
            (RoadBuilderAction::SplitTwice, 2i32),
            (RoadBuilderAction::SplitTwiceAndContinue, 2i32),
        ]
    } else {
        seq![
            (RoadBuilderAction::Continue, 4i32),
            (RoadBuilderAction::SplitOnce, 1i32),
            (RoadBuilderAction::SplitOnceAndContinue, 2i32),
            (RoadBuilderAction::SplitTwice, 1i32),
            (RoadBuilderAction::SplitTwiceAndContinue, 2i32),
        ]
    }
}

/// `d` is one of the four unit steps.
pub open spec fn unit_cardinal(d: IVec2) -> bool {
    ||| (d.x == 0 && (d.y == 1 || d.y == -1))
    ||| (d.y == 0 && (d.x == 1 || d.x == -1))
}

/// The street to the right and to the left of a builder heading `d`.
pub open spec fn perpendiculars(d: IVec2) -> Seq<IVec2> {
    seq![IVec2 { x: d.y, y: d.x }, IVec2 { x: (-d.y) as i32, y: (-d.x) as i32 }]
}

impl RoadBuilder {
    /// Moves made before a builder may split.
    pub const MOVES_BEFORE_SPLIT: i32 = 2;

    /// The builder is well formed for a city whose chunk is `origin`.
    pub open spec fn wf(&self, origin: OvermapChunkCoords) -> bool {
        &&& self.origin_chunk == origin
        &&& coord_within(origin, 0)
        &&& self.chunk_cursor.placed()
        &&& chunk_distance(self.chunk_cursor.chunk_coord, origin) <= 1
        &&& unit_cardinal(self.direction)
        &&& 0 <= self.moves_since_split <= Self::MOVES_BEFORE_SPLIT
        &&& 0 <= self.generation
        &&& self.action_probabilities@ == actions_for(self.generation)
        &&& self.cumulative_action_weights == weight_sum(self.action_probabilities@)
    }

    /// A builder at `start_position` of chunk `chunk_coordinate`, heading in
    /// `direction`, with the action weights of its generation.
    pub fn new(
        chunk_coordinate: OvermapChunkCoords,
        start_position: IVec2,
        origin_chunk: OvermapChunkCoords,
        direction: IVec2,
        generation: i32,
    ) -> (r: RoadBuilder)
        ensures
            r.chunk_cursor.chunk_coord == chunk_coordinate,
            r.chunk_cursor.local_pos == start_position,
            r.origin_chunk == origin_chunk,
            r.direction == direction,
            r.generation == generation,
            r.action_probabilities@ == actions_for(generation),
            r.cumulative_action_weights == weight_sum(actions_for(generation)),
            r.cumulative_action_weights == (if generation == 0 { 12int } else { 10int }),
            r.moves_since_split == 0,
            generation == 0 ==> r.action_probabilities@ == seq![
                (RoadBuilderAction::Continue, 8i32),
                (RoadBuilderAction::SplitTwice, 2i32),
                (RoadBuilderAction::SplitTwiceAndContinue, 2i32),
            ],
            generation != 0 ==> r.action_probabilities@ == seq![
                (RoadBuilderAction::Continue, 4i32),
                (RoadBuilderAction::SplitOnce, 1i32),
                (RoadBuilderAction::SplitOnceAndContinue, 2i32),
                (RoadBuilderAction::SplitTwice, 1i32),
                (RoadBuilderAction::SplitTwiceAndContinue, 2i32),
            ],
    {
        let actions: Vec<(RoadBuilderAction, i32)> = if generation == 0 {
            vec![
                (RoadBuilderAction::Continue, 8),
                (RoadBuilderAction::SplitTwice, 2),
                (RoadBuilderAction::SplitTwiceAndContinue, 2),
            ]
        } else {
            vec![
                (RoadBuilderAction::Continue, 4),
                (RoadBuilderAction::SplitOnce, 1),
                (RoadBuilderAction::SplitOnceAndContinue, 2),
                (RoadBuilderAction::SplitTwice, 1),
                (RoadBuilderAction::SplitTwiceAndContinue, 2),
            ]
        };
        assert(actions@ =~= actions_for(generation));
        proof {
            reveal_with_fuel(weight_sum, 6);
            assert(actions@.drop_last().drop_last() =~= actions@.take(actions@.len() - 2));
        }
        let mut total: i32 = 0;
        let mut j: usize = 0;
        while j < actions.len()
            invariant
                j <= actions.len(),
                actions@ == actions_for(generation),
                total == weight_sum(actions@.take(j as int)),
                0 <= total <= 8 * j,
            decreases actions.len() - j,
        {
            proof {
                assert(actions@.take(j + 1).drop_last() =~= actions@.take(j as int));
            }
            total = total + actions[j].1;
            j += 1;
        }
        proof {
            assert(actions@.take(actions@.len() as int) =~= actions@);
            reveal_with_fuel(weight_sum, 6);
        }
        RoadBuilder {
            chunk_cursor: ChunkCursor { chunk_coord: chunk_coordinate, local_pos: start_position },
            origin_chunk: origin_chunk,
            direction: direction,
            generation: generation,
            cumulative_action_weights: total,
            action_probabilities: actions,
            moves_since_split: 0,
        }
    }

    /// The two directions perpendicular to the builder's heading.
    pub fn get_perpendicular_directions(&self) -> (r: Vec<IVec2>)
        requires
            self.direction.x > i32::MIN,
            self.direction.y > i32::MIN,
        ensures
            r@ == perpendiculars(self.direction),
    {
        proof {
            assert(self.direction.y * -1 == -self.direction.y);
            assert(self.direction.x * -1 == -self.direction.x);
        }
        let r = vec![self.direction.yx(), self.direction.yx().scale(-1)];
        assert(r@ =~= perpendiculars(self.direction));
        r
    }
}

/// The action that `roll` selects from the weighted `actions`.
fn pick_action(actions: &Vec<(RoadBuilderAction, i32)>, roll: i32) -> (a: RoadBuilderAction)
    requires
        0 < actions@.len() <= 16,
        forall|j: int| 0 <= j < actions@.len() ==> actions@[j].1 >= 0,
    ensures
        a == picked_action(actions@, roll as int),
{
    let mut cumulative: i64 = 0;
    let mut j: usize = 0;
    assert(actions@.skip(0) =~= actions@);
    while j < actions.len() - 1
        invariant
            1 <= actions@.len() <= 16,
            j < actions@.len(),
            forall|k: int| 0 <= k < actions@.len() ==> actions@[k].1 >= 0,
            0 <= cumulative <= j * i32::MAX,
            picked_action(actions@, roll as int)
                == picked_action(actions@.skip(j as int), roll - cumulative),
        decreases actions.len() - j,
    {
        let w = actions[j].1;
        if (roll as i64) < cumulative + w as i64 {
            proof {
                assert(actions@.skip(j as int)[0] == actions@[j as int]);
            }
            return actions[j].0;
        }
        proof {
            assert(actions@.skip(j as int).drop_first() =~= actions@.skip(j + 1));
            assert(actions@.skip(j as int)[0] == actions@[j as int]);
        }
        cumulative = cumulative + w as i64;
        j += 1;
    }
    proof {
        assert(actions@.skip(j as int).len() == 1);
        assert(actions@.skip(j as int)[0] == actions@[j as int]);
    }
    actions[j].0
}

/// The child a builder spawns when it splits towards side `dir`: it starts
/// where its parent stands, heads perpendicular to it (the swapped direction,
/// negated when `dir` is not positive), and belongs to the next generation.
pub open spec fn child_of(parent: RoadBuilder, dir: i32, child: RoadBuilder) -> bool {
    &&& child.chunk_cursor.chunk_coord == parent.chunk_cursor.chunk_coord
    &&& child.chunk_cursor.local_pos == parent.chunk_cursor.local_pos
    &&& child.origin_chunk == parent.origin_chunk
    &&& child.direction.x == (if dir > 0 { parent.direction.y as int } else { -parent.direction.y })
    &&& child.direction.y == (if dir > 0 { parent.direction.x as int } else { -parent.direction.x })
    &&& child.generation == (if parent.generation < i32::MAX { parent.generation + 1 } else { parent.generation as int })
    &&& child.action_probabilities@ == actions_for(child.generation)
    &&& child.cumulative_action_weights == weight_sum(actions_for(child.generation))
    &&& child.moves_since_split == 0
}

/// A child of a well-formed builder is well formed.
pub proof fn lemma_child_wf(parent: RoadBuilder, dir: i32, child: RoadBuilder, origin: OvermapChunkCoords)
    requires
        parent.wf(origin),
        child_of(parent, dir, child),
    ensures
        child.wf(origin),
{
}

/// Pushes the child that the builder at `idx` spawns towards side `dir`.
/// The generation count stops growing at `i32::MAX`.
pub fn spawn_child_road_builder(road_builders: &mut Vec<RoadBuilder>, city: &City, dir: i32, idx: usize)
    requires
        idx < old(road_builders)@.len(),
        old(road_builders)@[idx as int].direction.x > i32::MIN,
        old(road_builders)@[idx as int].direction.y > i32::MIN,
    ensures
        final(road_builders)@.len() == old(road_builders)@.len() + 1,
        forall|j: int| 0 <= j < old(road_builders)@.len() ==> final(road_builders)@[j] == old(road_builders)@[j],
        child_of(old(road_builders)@[idx as int], dir, final(road_builders)@[old(road_builders)@.len() as int]),
{
    let road_builder = &road_builders[idx];
    let sign: i32 = if dir > 0 { 1 } else { -1 };
    let generation = if road_builder.generation < i32::MAX {
        road_builder.generation + 1
    } else {
        road_builder.generation
    };
    proof {
        assert(crate::ivec::fits_i32(road_builder.direction.y * sign)) by (nonlinear_arith)
            requires
                road_builder.direction.y > i32::MIN,
                sign == 1 || sign == -1,
        ;
        assert(crate::ivec::fits_i32(road_builder.direction.x * sign)) by (nonlinear_arith)
            requires
                road_builder.direction.x > i32::MIN,
                sign == 1 || sign == -1,
        ;
    }
    let child_direction = road_builder.direction.yx().scale(sign);
    proof {
        if dir > 0 {
            assert(child_direction.x == road_builder.direction.y) by (nonlinear_arith)
                requires child_direction.x == road_builder.direction.y * sign, sign == 1;
            assert(child_direction.y == road_builder.direction.x) by (nonlinear_arith)
                requires child_direction.y == road_builder.direction.x * sign, sign == 1;
        } else {
            assert(child_direction.x == -road_builder.direction.y) by (nonlinear_arith)
                requires child_direction.x == road_builder.direction.y * sign, sign == -1;
            assert(child_direction.y == -road_builder.direction.x) by (nonlinear_arith)
                requires child_direction.y == road_builder.direction.x * sign, sign == -1;
        }
    }
    let child = RoadBuilder::new(
        road_builder.chunk_cursor.chunk_coord,
        road_builder.chunk_cursor.local_pos,
        road_builder.origin_chunk,
        child_direction,
        generation,
    );
    road_builders.push(child);
}

/// The builder `b` with its move count since the last split set back to zero.
pub open spec fn reset_moves(b: RoadBuilder) -> RoadBuilder {
    RoadBuilder {
        chunk_cursor: b.chunk_cursor,
        origin_chunk: b.origin_chunk,
        direction: b.direction,
        generation: b.generation,
        action_probabilities: b.action_probabilities,
        cumulative_action_weights: b.cumulative_action_weights,
        moves_since_split: 0,
    }
}

/// The sides towards which `action` spawns children, in order: none, the
/// rolled side `dir`, or both sides.
pub open spec fn action_sides(action: RoadBuilderAction, dir: i32) -> Seq<i32> {
    match action {
        RoadBuilderAction::Continue => Seq::empty(),
        RoadBuilderAction::SplitOnce => seq![dir],
        RoadBuilderAction::SplitOnceAndContinue => seq![dir],
        RoadBuilderAction::SplitTwice => seq![0i32, 1i32],
        RoadBuilderAction::SplitTwiceAndContinue => seq![0i32, 1i32],
    }
}

/// The builder that takes `action` stays in the list.
pub open spec fn action_keeps(action: RoadBuilderAction) -> bool {
    match action {
        RoadBuilderAction::Continue => true,
        RoadBuilderAction::SplitOnceAndContinue => true,
        RoadBuilderAction::SplitTwiceAndContinue => true,
        _ => false,
    }
}

/// The builders `old` without their children, once the builder at `i` has
/// taken `action`: unchanged on `Continue`, with that builder's move count
/// set back to zero when it splits and goes on, and without it when it
/// splits and stops.
pub open spec fn kept_after(old: Seq<RoadBuilder>, i: int, action: RoadBuilderAction) -> Seq<RoadBuilder> {
    match action {
        RoadBuilderAction::Continue => old,
        RoadBuilderAction::SplitOnceAndContinue => old.update(i, reset_moves(old[i])),
        RoadBuilderAction::SplitTwiceAndContinue => old.update(i, reset_moves(old[i])),
        _ => old.remove(i),
    }
}

/// `new` is `old` after the builder at `i` took `action`, with `dir` the
/// side rolled for a single split: `kept_after(old, i, action)` followed by
/// one child of that builder for each side of `action_sides(action, dir)`.
pub open spec fn acted_on(old: Seq<RoadBuilder>, new: Seq<RoadBuilder>, i: int, action: RoadBuilderAction, dir: i32) -> bool {
    let kept = kept_after(old, i, action);
    let sides = action_sides(action, dir);
    &&& new.len() == kept.len() + sides.len()
    &&& new.take(kept.len() as int) == kept
    &&& forall|t: int| 0 <= t < sides.len() ==> child_of(old[i], sides[t], #[trigger] new[kept.len() + t])
}

/// Carries out `action` for the builder at `i`: spawns its children (towards
/// `dir` for a single split, towards both sides for a double one), then
/// either keeps it with its move count reset or removes it. Returns whether
/// the builder stays in the list.
pub fn apply_action(road_builders: &mut Vec<RoadBuilder>, i: usize, city: &City, action: RoadBuilderAction, dir: i32) -> (keep: bool)
    requires
        i < old(road_builders)@.len(),
        old(road_builders)@[i as int].direction.x > i32::MIN,
        old(road_builders)@[i as int].direction.y > i32::MIN,
    ensures
        keep == action_keeps(action),
        acted_on(old(road_builders)@, final(road_builders)@, i as int, action, dir),
{
    let ghost s = road_builders@;
    match action {
        RoadBuilderAction::Continue => {
            assert(road_builders@.take(s.len() as int) =~= s);
            true
        },
        RoadBuilderAction::SplitOnce => {
            spawn_child_road_builder(road_builders, city, dir, i);
            road_builders.remove(i);
            assert(road_builders@.take(s.len() - 1) =~= s.remove(i as int));
            false
        },
        RoadBuilderAction::SplitOnceAndContinue => {
            spawn_child_road_builder(road_builders, city, dir, i);
            road_builders[i].moves_since_split = 0;
            assert(road_builders@.take(s.len() as int) =~= s.update(i as int, reset_moves(s[i as int])));
            true
        },
        RoadBuilderAction::SplitTwice => {
            spawn_child_road_builder(road_builders, city, 0, i);
            spawn_child_road_builder(road_builders, city, 1, i);
            road_builders.remove(i);
            assert(road_builders@.take(s.len() - 1) =~= s.remove(i as int));
            false
        },
        RoadBuilderAction::SplitTwiceAndContinue => {
            spawn_child_road_builder(road_builders, city, 0, i);
            spawn_child_road_builder(road_builders, city, 1, i);
            road_builders[i].moves_since_split = 0;
            assert(road_builders@.take(s.len() as int) =~= s.update(i as int, reset_moves(s[i as int])));
            true
        },
    }
}

/// The places where houses may go, and which tiles each of them covers.
pub struct BuildingCandidates {
    pub id_counter: usize,
    pub candidates: CandidateMap,
    pub occupancy_map: OccupancyMap,
}

impl BuildingCandidates {
    /// Every candidate is stored under its own id, below the id counter, at a
    /// position inside a chunk near the overmap, facing a road one step away.
    pub open spec fn wf(&self) -> bool {
        forall|id: usize| #[trigger] candidate_map(self.candidates).contains_key(id) ==> {
            let c = candidate_map(self.candidates)[id];
            &&& c.id == id
            &&& id < self.id_counter
            &&& local_in_chunk(c.position)
            &&& unit_cardinal(c.direction_to_road)
            &&& coord_within(c.chunk_coord, 3)
        }
    }

    /// Hands out the next unused id.
    pub fn get_next_id(&mut self) -> (r: usize)
        requires
            old(self).id_counter < usize::MAX,
        ensures
            r == old(self).id_counter,
            final(self).id_counter == old(self).id_counter + 1,
            final(self).candidates == old(self).candidates,
            final(self).occupancy_map == old(self).occupancy_map,
    {
        let new_id: usize = self.id_counter;
        self.id_counter = self.id_counter + 1;
        new_id
    }
}

/// A copy of `city`.
fn copy_city(city: &City) -> (r: City)
    ensures
        r.id == city.id,
        r.position == city.position,
        r.overmap_chunk_coordinate == city.overmap_chunk_coordinate,
        r.size == city.size,
        r.connected_to@ == city.connected_to@,
{
    let mut connected_to: Vec<(OvermapChunkCoords, CityId)> = Vec::new();
    let mut j: usize = 0;
    while j < city.connected_to.len()
        invariant
            j <= city.connected_to@.len(),
            connected_to@ == city.connected_to@.take(j as int),
        decreases city.connected_to.len() - j,
    {
        connected_to.push(city.connected_to[j]);
        j += 1;
        proof {
            assert(connected_to@ =~= city.connected_to@.take(j as int));
        }
    }
    assert(connected_to@ =~= city.connected_to@);
    City {
        id: city.id,
        position: city.position,
        overmap_chunk_coordinate: city.overmap_chunk_coordinate,
        size: city.size,
        connected_to,
    }
}

/// With chance two in three, places a city of id 0 somewhere in the chunk,
/// of size between 64 and 128 and connected to nothing yet.
pub fn add_cities_to_chunk(overmap_chunk: &mut OvermapChunk, rng: &mut chacha20::ChaCha8Rng)
    ensures
        final(overmap_chunk).coordinates == old(overmap_chunk).coordinates,
        final(overmap_chunk).overmap_tiles == old(overmap_chunk).overmap_tiles,
        final(overmap_chunk).generation_complete == old(overmap_chunk).generation_complete,
        city_map(final(overmap_chunk).cities) == city_map(old(overmap_chunk).cities)
            || ({
                let c = city_map(final(overmap_chunk).cities)[CityId(0)];
                &&& city_map(final(overmap_chunk).cities) == city_map(old(overmap_chunk).cities).insert(CityId(0), c)
                &&& city_wf(old(overmap_chunk).coordinates, CityId(0), c)
                &&& 64 <= c.size <= 128
                &&& c.connected_to@.len() == 0
            }),
{
    let roll = random_range(rng, 0, 3);
    if roll > 0 {
        // Add a city somewhere
        let new_city_position = IVec2 {
            x: random_range(rng, 0, OVERMAP_CHUNK_SIZE),
            y: random_range(rng, 0, OVERMAP_CHUNK_SIZE),
        };
        let city_size: i32 = random_range(rng, 64, 129);
        settle_city(overmap_chunk, roll, new_city_position, city_size);
    }
}

/// Settles the chunk after its city roll out of 3: when `roll` is above 0, a
/// city of id 0 at `position` of size `size`, connected to nothing yet, is
/// stored in the chunk (replacing any city of id 0); otherwise the chunk is
/// left as it is.
pub fn settle_city(overmap_chunk: &mut OvermapChunk, roll: i32, position: IVec2, size: i32)
    ensures
        final(overmap_chunk).coordinates == old(overmap_chunk).coordinates,
        final(overmap_chunk).overmap_tiles == old(overmap_chunk).overmap_tiles,
        final(overmap_chunk).generation_complete == old(overmap_chunk).generation_complete,
        roll <= 0 ==> city_map(final(overmap_chunk).cities) == city_map(old(overmap_chunk).cities),
        roll > 0 ==> {
            let c = city_map(final(overmap_chunk).cities)[CityId(0)];
            &&& city_map(final(overmap_chunk).cities) == city_map(old(overmap_chunk).cities).insert(CityId(0), c)
            &&& c.id == CityId(0)
            &&& c.position == position
            &&& c.overmap_chunk_coordinate == old(overmap_chunk).coordinates
            &&& c.size == size
            &&& c.connected_to@.len() == 0
        },
{
    if roll > 0 {
        let city = City {
            id: CityId(0),
            position,
            overmap_chunk_coordinate: overmap_chunk.coordinates,
            size,
            connected_to: Vec::new(),
        };
        city_map_insert(&mut overmap_chunk.cities, CityId(0), city);
    }
}

/// The overmap-wide tile position of a city.
pub open spec fn city_global(c: City) -> (int, int) {
    global_of(c.overmap_chunk_coordinate, c.position)
}

/// `c` lies in the rectangle of chunks from `lo` to `hi`.
pub open spec fn chunk_in_box(c: OvermapChunkCoords, lo: OvermapChunkCoords, hi: OvermapChunkCoords) -> bool {
    &&& lo.0.x <= c.0.x <= hi.0.x
    &&& lo.0.y <= c.0.y <= hi.0.y
}

/// The tile position `g` lies in the rectangle of chunks from `lo` to `hi`.
pub open spec fn global_in_box(g: (int, int), lo: OvermapChunkCoords, hi: OvermapChunkCoords) -> bool {
    &&& lo.0.x * OVERMAP_CHUNK_SIZE <= g.0 < (hi.0.x + 1) * OVERMAP_CHUNK_SIZE
    &&& lo.0.y * OVERMAP_CHUNK_SIZE <= g.1 < (hi.0.y + 1) * OVERMAP_CHUNK_SIZE
}

/// Every chunk of the rectangle from `lo` to `hi` exists.
pub open spec fn box_present(m: Map<OvermapChunkCoords, OvermapChunk>, lo: OvermapChunkCoords, hi: OvermapChunkCoords) -> bool {
    forall|c: OvermapChunkCoords| #[trigger] chunk_in_box(c, lo, hi) ==> m.contains_key(c)
}

/// A placed cursor's chunk and local position are the quotient and remainder
/// of its overmap-wide position by the chunk size.
pub proof fn lemma_cursor_cell(c: ChunkCursor)
    requires
        c.placed(),
    ensures
        c.chunk_coord.0.x == c.global().0 / (OVERMAP_CHUNK_SIZE as int),
        c.chunk_coord.0.y == c.global().1 / (OVERMAP_CHUNK_SIZE as int),
        c.local_pos.x == c.global().0 % (OVERMAP_CHUNK_SIZE as int),
        c.local_pos.y == c.global().1 % (OVERMAP_CHUNK_SIZE as int),
{
    let n = OVERMAP_CHUNK_SIZE as int;
    vstd::arithmetic::div_mod::lemma_fundamental_div_mod_converse(c.global().0, n, c.chunk_coord.0.x as int, c.local_pos.x as int);
    vstd::arithmetic::div_mod::lemma_fundamental_div_mod_converse(c.global().1, n, c.chunk_coord.0.y as int, c.local_pos.y as int);
}

/// A placed cursor whose position lies in a rectangle of chunks stands in
/// one of its chunks.
pub proof fn lemma_cursor_in_box(c: ChunkCursor, lo: OvermapChunkCoords, hi: OvermapChunkCoords)
    requires
        c.placed(),
        global_in_box(c.global(), lo, hi),
    ensures
        chunk_in_box(c.chunk_coord, lo, hi),
{
    lemma_cursor_cell(c);
    let n = OVERMAP_CHUNK_SIZE as int;
    assert(c.global().0 == c.chunk_coord.0.x * n + c.local_pos.x);
    assert(c.global().1 == c.chunk_coord.0.y * n + c.local_pos.y);
    assert(lo.0.x <= c.chunk_coord.0.x) by (nonlinear_arith)
        requires
            lo.0.x * n <= c.chunk_coord.0.x * n + c.local_pos.x,
            0 <= c.local_pos.x < n,
            n == 128,
    ;
    assert(c.chunk_coord.0.x <= hi.0.x) by (nonlinear_arith)
        requires
            c.chunk_coord.0.x * n + c.local_pos.x < (hi.0.x + 1) * n,
            0 <= c.local_pos.x < n,
            n == 128,
    ;
    assert(lo.0.y <= c.chunk_coord.0.y) by (nonlinear_arith)
        requires
            lo.0.y * n <= c.chunk_coord.0.y * n + c.local_pos.y,
            0 <= c.local_pos.y < n,
            n == 128,
    ;
    assert(c.chunk_coord.0.y <= hi.0.y) by (nonlinear_arith)
        requires
            c.chunk_coord.0.y * n + c.local_pos.y < (hi.0.y + 1) * n,
            0 <= c.local_pos.y < n,
            n == 128,
    ;
}

/// Two placed cursors with the same overmap-wide position are at the same
/// chunk and local position.
pub proof fn lemma_same_global_same_cell(c: ChunkCursor, d: ChunkCursor)
    requires
        c.placed(),
        d.placed(),
        c.global() == d.global(),
    ensures
        c.chunk_coord == d.chunk_coord,
        c.local_pos == d.local_pos,
{
    lemma_cursor_cell(c);
    lemma_cursor_cell(d);
}

/// The direction from a city at `ap` in chunk `ac` towards one at `bp` in
/// chunk `bc`, as the road drawer computes it, is the sign of their
/// overmap-wide offset along each axis.
pub proof fn lemma_road_direction(ac: int, ap: int, bc: int, bp: int)
    requires
        0 <= ap < 128,
        0 <= bp < 128,
    ensures
        (if bc - ac != 0 { crate::ivec::sign_int(bc - ac) } else { crate::ivec::sign_int(bp - ap) })
            == crate::ivec::sign_int((bc * 128 + bp) - (ac * 128 + ap)),
{
    if bc > ac {
        assert((bc * 128 + bp) - (ac * 128 + ap) > 0) by (nonlinear_arith)
            requires
                bc > ac,
                0 <= ap < 128,
                0 <= bp < 128,
        ;
    } else if bc < ac {
        assert((bc * 128 + bp) - (ac * 128 + ap) < 0) by (nonlinear_arith)
            requires
                bc < ac,
                0 <= ap < 128,
                0 <= bp < 128,
        ;
    }
}

/// `t` steps in direction `d`, for `d` one of -1, 0, 1.
pub open spec fn along(d: int, t: int) -> int {
    if d > 0 { t } else if d < 0 { -t } else { 0 }
}

/// A position between two positions of a rectangle of chunks lies in it.
pub proof fn lemma_between_in_box(
    start: (int, int),
    d: IVec2,
    dist: IVec2,
    rem: IVec2,
    lo: OvermapChunkCoords,
    hi: OvermapChunkCoords,
)
    requires
        global_in_box(start, lo, hi),
        global_in_box((start.0 + along(d.x as int, dist.x as int), start.1 + along(d.y as int, dist.y as int)), lo, hi),
        0 <= rem.x <= dist.x,
        0 <= rem.y <= dist.y,
    ensures
        global_in_box((start.0 + along(d.x as int, dist.x - rem.x), start.1 + along(d.y as int, dist.y - rem.y)), lo, hi),
{
}

/// Changing only tiles chains.
pub proof fn lemma_only_tiles_change_trans(
    a: Map<OvermapChunkCoords, OvermapChunk>,
    b: Map<OvermapChunkCoords, OvermapChunk>,
    c: Map<OvermapChunkCoords, OvermapChunk>,
)
    requires
        only_tiles_change(a, b),
        only_tiles_change(b, c),
    ensures
        only_tiles_change(a, c),
{
    assert forall|k: OvermapChunkCoords| #[trigger] a.contains_key(k) implies {
        &&& c[k].coordinates == a[k].coordinates
        &&& c[k].cities == a[k].cities
        &&& c[k].generation_complete == a[k].generation_complete
    } by {
        assert(b.contains_key(k));
    }
}

/// Lays a road (or leaves a house) under a cursor that stands in a rectangle
/// of present chunks; the map keeps growing from `m0`.
pub(crate) fn lay_road_under(
    cursor: &ChunkCursor,
    overmap_chunks: &mut ChunkMap,
    tile_type: OvermapTileType,
    Ghost(m0): Ghost<Map<OvermapChunkCoords, OvermapChunk>>,
    Ghost(lo): Ghost<OvermapChunkCoords>,
    Ghost(hi): Ghost<OvermapChunkCoords>,
)
    requires
        cursor.placed(),
        global_in_box(cursor.global(), lo, hi),
        map_wf(chunk_map(*old(overmap_chunks))),
        box_present(chunk_map(*old(overmap_chunks)), lo, hi),
        tiles_grow(m0, chunk_map(*old(overmap_chunks))),
        only_tiles_change(m0, chunk_map(*old(overmap_chunks))),
    ensures
        map_wf(chunk_map(*final(overmap_chunks))),
        box_present(chunk_map(*final(overmap_chunks)), lo, hi),
        tiles_grow(m0, chunk_map(*final(overmap_chunks))),
        only_tiles_change(m0, chunk_map(*final(overmap_chunks))),
        tiles_grow(chunk_map(*old(overmap_chunks)), chunk_map(*final(overmap_chunks))),
        only_tiles_change(chunk_map(*old(overmap_chunks)), chunk_map(*final(overmap_chunks))),
        tile_at(chunk_map(*old(overmap_chunks)), cursor.chunk_coord, cursor.local_pos) == Some(OvermapTileType::House)
            ==> tile_at(chunk_map(*final(overmap_chunks)), cursor.chunk_coord, cursor.local_pos) == Some(OvermapTileType::House),
        tile_at(chunk_map(*old(overmap_chunks)), cursor.chunk_coord, cursor.local_pos) != Some(OvermapTileType::House)
            ==> tile_at(chunk_map(*final(overmap_chunks)), cursor.chunk_coord, cursor.local_pos) == Some(tile_type),
        changes_within(chunk_map(*old(overmap_chunks)), chunk_map(*final(overmap_chunks)), seq![*cursor]),
        changes_inside(chunk_map(*old(overmap_chunks)), chunk_map(*final(overmap_chunks)), lo, hi),
{
    let ghost before = chunk_map(*overmap_chunks);
    proof {
        lemma_cursor_in_box(*cursor, lo, hi);
        assert(before.contains_key(cursor.chunk_coord));
        assert(chunk_wf(cursor.chunk_coord, before[cursor.chunk_coord]));
    }
    cursor.set_tile(overmap_chunks, tile_type);
    proof {
        let after = chunk_map(*overmap_chunks);
        if tile_at(before, cursor.chunk_coord, cursor.local_pos) != Some(OvermapTileType::House) {
            lemma_wrote_tile_grows(before, after, cursor.chunk_coord, tile_index(cursor.local_pos), tile_type);
        }
        lemma_tiles_grow_trans(m0, before, after);
        lemma_only_tiles_change_trans(m0, before, after);
        assert forall|c: OvermapChunkCoords| #[trigger] chunk_in_box(c, lo, hi) implies after.contains_key(c) by {
            assert(before.contains_key(c));
        }
        let single = seq![*cursor];
        assert forall|k: OvermapChunkCoords, i: int|
            #![trigger after[k].overmap_tiles@[i]]
            before.contains_key(k) && 0 <= i < before[k].overmap_tiles.len()
                && after[k].overmap_tiles@[i] != before[k].overmap_tiles@[i]
            implies on_path(single, k, i) by {
            assert(single[0] == *cursor);
            assert(k == cursor.chunk_coord);
            assert(i == tile_index(cursor.local_pos));
        }
        lemma_changes_inside_cursor(before, after, *cursor, lo, hi);
    }
}

/// Walks the cursor `distance.x` steps along x and `distance.y` steps along
/// y in `direction`, in a random interleaving, laying a road on each tile
/// stepped onto (houses are left standing).
fn walk_road(
    cursor: &mut ChunkCursor,
    overmap_chunks: &mut ChunkMap,
    direction: IVec2,
    distance: IVec2,
    rng: &mut chacha20::ChaCha8Rng,
    Ghost(lo): Ghost<OvermapChunkCoords>,
    Ghost(hi): Ghost<OvermapChunkCoords>,
    Ghost(path): Ghost<Seq<ChunkCursor>>,
) -> (out: Ghost<Seq<ChunkCursor>>)
    requires
        road_path(chunk_map(*old(overmap_chunks)), path),
        path.last() == *old(cursor),
        old(cursor).placed(),
        map_wf(chunk_map(*old(overmap_chunks))),
        box_present(chunk_map(*old(overmap_chunks)), lo, hi),
        coord_within(lo, 0),
        coord_within(hi, 0),
        -1 <= direction.x <= 1,
        -1 <= direction.y <= 1,
        0 <= distance.x,
        0 <= distance.y,
        distance.x + distance.y <= i32::MAX,
        direction.x == 0 ==> distance.x == 0,
        direction.y == 0 ==> distance.y == 0,
        global_in_box(old(cursor).global(), lo, hi),
        global_in_box((old(cursor).global().0 + along(direction.x as int, distance.x as int),
            old(cursor).global().1 + along(direction.y as int, distance.y as int)), lo, hi),
    ensures
        final(cursor).placed(),
        final(cursor).global() == (old(cursor).global().0 + along(direction.x as int, distance.x as int),
            old(cursor).global().1 + along(direction.y as int, distance.y as int)),
        map_wf(chunk_map(*final(overmap_chunks))),
        box_present(chunk_map(*final(overmap_chunks)), lo, hi),
        tiles_grow(chunk_map(*old(overmap_chunks)), chunk_map(*final(overmap_chunks))),
        only_tiles_change(chunk_map(*old(overmap_chunks)), chunk_map(*final(overmap_chunks))),
        road_path(chunk_map(*final(overmap_chunks)), out@),
        out@[0] == path[0],
        out@.last() == *final(cursor),
        changes_within(chunk_map(*old(overmap_chunks)), chunk_map(*final(overmap_chunks)), out@),
        only_roads_laid(chunk_map(*old(overmap_chunks)), chunk_map(*final(overmap_chunks))),
        path.len() <= out@.len(),
        out@.take(path.len() as int) == path,
        out@.len() == path.len() + distance.x + distance.y,
        steps_toward(out@, path.len() - 1, direction),
        changes_inside(chunk_map(*old(overmap_chunks)), chunk_map(*final(overmap_chunks)), lo, hi),
{
    let ghost start = cursor.global();
    let ghost m0 = chunk_map(*overmap_chunks);
    let ghost mut p = path;
    proof {
        lemma_changes_none(m0, path);
        assert(path.take(path.len() as int) =~= path);
    }
    let mut distance_to_end = distance;
    while distance_to_end.x + distance_to_end.y > 0
        invariant
            road_path(chunk_map(*overmap_chunks), p),
            p[0] == path[0],
            p.last() == *cursor,
            changes_within(m0, chunk_map(*overmap_chunks), p),
            only_roads_laid(m0, chunk_map(*overmap_chunks)),
            path.len() <= p.len(),
            p.take(path.len() as int) == path,
            cursor.placed(),
            map_wf(chunk_map(*overmap_chunks)),
            box_present(chunk_map(*overmap_chunks), lo, hi),
            tiles_grow(m0, chunk_map(*overmap_chunks)),
            only_tiles_change(m0, chunk_map(*overmap_chunks)),
            coord_within(lo, 0),
            coord_within(hi, 0),
            -1 <= direction.x <= 1,
            -1 <= direction.y <= 1,
            0 <= distance_to_end.x <= distance.x,
            0 <= distance_to_end.y <= distance.y,
            distance.x + distance.y <= i32::MAX,
            direction.x == 0 ==> distance.x == 0,
            direction.y == 0 ==> distance.y == 0,
            global_in_box(start, lo, hi),
            global_in_box((start.0 + along(direction.x as int, distance.x as int),
                start.1 + along(direction.y as int, distance.y as int)), lo, hi),
            cursor.global() == (start.0 + along(direction.x as int, distance.x - distance_to_end.x),
                start.1 + along(direction.y as int, distance.y - distance_to_end.y)),
            p.len() == path.len() + (distance.x - distance_to_end.x) + (distance.y - distance_to_end.y),
            path.len() > 0,
            steps_toward(p, path.len() - 1, direction),
            changes_inside(m0, chunk_map(*overmap_chunks), lo, hi),
        decreases distance_to_end.x + distance_to_end.y,
    {
        let roll = random_range(rng, 0, distance_to_end.x + distance_to_end.y);
        let ghost c0 = *cursor;
        proof {
            lemma_cursor_in_box(c0, lo, hi);
        }
        if roll < distance_to_end.x {
            cursor.step_x(direction.x);
            proof {
                lemma_unit_step_x(c0, direction.x);
            }
            distance_to_end.x = distance_to_end.x - 1;
        } else {
            cursor.step_y(direction.y);
            proof {
                lemma_unit_step_y(c0, direction.y);
            }
            distance_to_end.y = distance_to_end.y - 1;
        }
        proof {
            lemma_between_in_box(start, direction, distance, distance_to_end, lo, hi);
        }
        let ghost mb = chunk_map(*overmap_chunks);
        lay_road_under(cursor, overmap_chunks, OvermapTileType::Road, Ghost(m0), Ghost(lo), Ghost(hi));
        proof {
            let ma = chunk_map(*overmap_chunks);
            lemma_road_path_grows(mb, ma, p);
            lemma_road_path_push(ma, p, *cursor);
            lemma_changes_push(m0, mb, ma, p, *cursor);
            lemma_roads_laid_lay(m0, mb, ma, *cursor);
            lemma_changes_inside_trans(m0, mb, ma, lo, hi);
            assert(p.push(*cursor).take(path.len() as int) =~= p.take(path.len() as int));
            assert(step_toward(p.last(), *cursor, direction));
            lemma_steps_push(p, path.len() - 1, direction, *cursor);
            p = p.push(*cursor);
        }
    }
    Ghost(p)
}

/// The lower corner of the rectangle of chunks with corners `a` and `b`.
pub open spec fn chunks_lo(a: OvermapChunkCoords, b: OvermapChunkCoords) -> OvermapChunkCoords {
    OvermapChunkCoords(IVec2 {
        x: if a.0.x <= b.0.x { a.0.x } else { b.0.x },
        y: if a.0.y <= b.0.y { a.0.y } else { b.0.y },
    })
}

/// The upper corner of the rectangle of chunks with corners `a` and `b`.
pub open spec fn chunks_hi(a: OvermapChunkCoords, b: OvermapChunkCoords) -> OvermapChunkCoords {
    OvermapChunkCoords(IVec2 {
        x: if a.0.x >= b.0.x { a.0.x } else { b.0.x },
        y: if a.0.y >= b.0.y { a.0.y } else { b.0.y },
    })
}

/// The lower corner of the rectangle of chunks spanned by two cities.
pub open spec fn span_lo(a: City, b: City) -> OvermapChunkCoords {
    chunks_lo(a.overmap_chunk_coordinate, b.overmap_chunk_coordinate)
}

/// The upper corner of the rectangle of chunks spanned by two cities.
pub open spec fn span_hi(a: City, b: City) -> OvermapChunkCoords {
    chunks_hi(a.overmap_chunk_coordinate, b.overmap_chunk_coordinate)
}

/// The overmap-wide tile position of `pos` in `chunk`, computed in `i32`.
pub(crate) fn global_position(chunk: OvermapChunkCoords, pos: IVec2) -> (r: IVec2)
    requires
        coord_within(chunk, 3),
        local_in_chunk(pos),
    ensures
        r.x == global_of(chunk, pos).0,
        r.y == global_of(chunk, pos).1,
{
    pos.add(chunk.0.scale(OVERMAP_CHUNK_SIZE))
}

/// The direction a road takes from `start_pos` in `start_chunk` towards
/// `end_pos` in `end_chunk`: per axis, the sign of the chunk offset, or of the
/// position offset within the same chunk row or column.
pub(crate) fn road_direction(
    start_chunk: OvermapChunkCoords,
    start_pos: IVec2,
    end_chunk: OvermapChunkCoords,
    end_pos: IVec2,
) -> (direction: IVec2)
    requires
        local_in_chunk(start_pos),
        local_in_chunk(end_pos),
        coord_within(start_chunk, 0),
        coord_within(end_chunk, 0),
    ensures
        direction.x == crate::ivec::sign_int(global_of(end_chunk, end_pos).0 - global_of(start_chunk, start_pos).0),
        direction.y == crate::ivec::sign_int(global_of(end_chunk, end_pos).1 - global_of(start_chunk, start_pos).1),
{
    let direction_to_chunk = end_chunk.0.sub(start_chunk.0);
    let direction_to_city = end_pos.sub(start_pos);
    proof {
        lemma_road_direction(start_chunk.0.x as int, start_pos.x as int, end_chunk.0.x as int, end_pos.x as int);
        lemma_road_direction(start_chunk.0.y as int, start_pos.y as int, end_chunk.0.y as int, end_pos.y as int);
    }
    IVec2 {
        x: if direction_to_chunk.x != 0 {
            direction_to_chunk.signum().x
        } else {
            direction_to_city.signum().x
        },
        y: if direction_to_chunk.y != 0 {
            direction_to_chunk.signum().y
        } else {
            direction_to_city.signum().y
        },
    }
}

/// How far a straight exit road of at most `cap` tiles runs along x (first)
/// and y (second), for a road of remaining extent `distance` heading in
/// `direction`: along the longer axis, and only when that axis is travelled
/// in the positive direction.
pub open spec fn exit_road_extent(direction: IVec2, distance: IVec2, cap: i32) -> (int, int) {
    if distance.x > distance.y {
        (if direction.x > 0 { if distance.x < cap { distance.x as int } else { cap as int } } else { 0 }, 0)
    } else {
        (0, if direction.y > 0 { if distance.y < cap { distance.y as int } else { cap as int } } else { 0 })
    }
}

/// The cursor `b` stands one tile from `a`, along x in the direction
/// `dir.x` or along y in the direction `dir.y`.
pub open spec fn step_toward(a: ChunkCursor, b: ChunkCursor, dir: IVec2) -> bool {
    ||| dir.x != 0 && b.global() == (a.global().0 + dir.x, a.global().1)
    ||| dir.y != 0 && b.global() == (a.global().0, a.global().1 + dir.y)
}

/// The step from tile `t` of `path` to the next goes towards `dir`.
pub open spec fn step_at(path: Seq<ChunkCursor>, t: int, dir: IVec2) -> bool {
    step_toward(path[t], path[t + 1], dir)
}

/// From tile `from` on, every step of `path` goes towards `dir`.
pub open spec fn steps_toward(path: Seq<ChunkCursor>, from: int, dir: IVec2) -> bool {
    forall|t: int| from <= t < path.len() - 1 ==> #[trigger] step_at(path, t, dir)
}

/// Adding a tile one step towards `dir` keeps every step towards `dir`.
proof fn lemma_steps_push(p: Seq<ChunkCursor>, from: int, dir: IVec2, c: ChunkCursor)
    requires
        p.len() > 0,
        0 <= from <= p.len() - 1,
        steps_toward(p, from, dir),
        step_toward(p.last(), c, dir),
    ensures
        steps_toward(p.push(c), from, dir),
{
    let q = p.push(c);
    assert forall|t: int| from <= t < q.len() - 1 implies #[trigger] step_at(q, t, dir) by {
        if t < p.len() - 1 {
            assert(step_at(p, t, dir));
            assert(q[t] == p[t] && q[t + 1] == p[t + 1]);
        } else {
            assert(q[t] == p.last() && q[t + 1] == c);
        }
    }
}

/// A path whose first tiles are `p` steps towards `dir` wherever `p` does
/// and from the last tile of `p` on.
proof fn lemma_steps_join(p: Seq<ChunkCursor>, q: Seq<ChunkCursor>, from: int, dir: IVec2)
    requires
        p.len() > 0,
        p.len() <= q.len(),
        q.take(p.len() as int) == p,
        steps_toward(p, from, dir),
        steps_toward(q, p.len() - 1, dir),
        0 <= from,
    ensures
        steps_toward(q, from, dir),
{
    assert forall|t: int| from <= t < q.len() - 1 implies #[trigger] step_at(q, t, dir) by {
        if t < p.len() - 1 {
            assert(step_at(p, t, dir));
            assert(q.take(p.len() as int)[t] == q[t]);
            assert(q.take(p.len() as int)[t + 1] == q[t + 1]);
        }
    }
}

/// Between `a` and `b` a road was walked from `ap` in chunk `ac` to `bp` in
/// chunk `bc`: a walk over set tiles of `b` in which every step goes one tile
/// towards the end, along x or along y, so that the walk is as long as the
/// Manhattan distance between its ends; no tile off the walk changed.
pub open spec fn road_walked(
    a: Map<OvermapChunkCoords, OvermapChunk>,
    b: Map<OvermapChunkCoords, OvermapChunk>,
    ac: OvermapChunkCoords,
    ap: IVec2,
    bc: OvermapChunkCoords,
    bp: IVec2,
) -> bool {
    let s = global_of(ac, ap);
    let e = global_of(bc, bp);
    exists|path: Seq<ChunkCursor>| {
        &&& road_path(b, path)
        &&& path_between(path, ac, ap, bc, bp)
        &&& changes_within(a, b, path)
        &&& path.len() == abs_int(e.0 - s.0) + abs_int(e.1 - s.1) + 1
        &&& steps_toward(path, 0, IVec2 { x: sign_int(e.0 - s.0) as i32, y: sign_int(e.1 - s.1) as i32 })
    }
}

/// A walk whose steps all go towards `dir`, with no step across rows, runs
/// straight along its row: its tile `t` lies `t` tiles along x from its first.
proof fn lemma_walk_in_row(path: Seq<ChunkCursor>, dir: IVec2, t: int)
    requires
        steps_toward(path, 0, dir),
        dir.y == 0,
        -1 <= dir.x <= 1,
        0 <= t < path.len(),
    ensures
        path[t].global() == (path[0].global().0 + along(dir.x as int, t), path[0].global().1),
    decreases t,
{
    if t > 0 {
        lemma_walk_in_row(path, dir, t - 1);
        assert(step_at(path, t - 1, dir));
    }
}

/// A road walked between two cities of the same row runs straight along that
/// row: its tile `t` lies `t` tiles from the start towards the end, and it is
/// one tile longer than the cities are apart.
pub proof fn lemma_walked_road_straight(
    a: Map<OvermapChunkCoords, OvermapChunk>,
    b: Map<OvermapChunkCoords, OvermapChunk>,
    ac: OvermapChunkCoords,
    ap: IVec2,
    bc: OvermapChunkCoords,
    bp: IVec2,
)
    requires
        road_walked(a, b, ac, ap, bc, bp),
        global_of(ac, ap).1 == global_of(bc, bp).1,
    ensures
        exists|path: Seq<ChunkCursor>| {
            &&& road_path(b, path)
            &&& path_between(path, ac, ap, bc, bp)
            &&& changes_within(a, b, path)
            &&& path.len() == abs_int(global_of(bc, bp).0 - global_of(ac, ap).0) + 1
            &&& forall|t: int| 0 <= t < path.len() ==> (#[trigger] path[t]).global()
                == (global_of(ac, ap).0 + along(sign_int(global_of(bc, bp).0 - global_of(ac, ap).0), t), global_of(ac, ap).1)
        },
{
    let s = global_of(ac, ap);
    let e = global_of(bc, bp);
    let dir = IVec2 { x: sign_int(e.0 - s.0) as i32, y: sign_int(e.1 - s.1) as i32 };
    let path = choose|path: Seq<ChunkCursor>| {
        &&& road_path(b, path)
        &&& path_between(path, ac, ap, bc, bp)
        &&& changes_within(a, b, path)
        &&& path.len() == abs_int(e.0 - s.0) + abs_int(e.1 - s.1) + 1
        &&& steps_toward(path, 0, dir)
    };
    assert(path[0].global() == s);
    assert forall|t: int| 0 <= t < path.len() implies (#[trigger] path[t]).global()
        == (s.0 + along(sign_int(e.0 - s.0), t), s.1) by {
        lemma_walk_in_row(path, dir, t);
    }
}

/// Lays the straight exit road of a city, at most `cap` tiles long.
fn draw_exit_road(
    cursor: &mut ChunkCursor,
    overmap_chunks: &mut ChunkMap,
    direction: IVec2,
    distance: IVec2,
    cap: i32,
    Ghost(lo): Ghost<OvermapChunkCoords>,
    Ghost(hi): Ghost<OvermapChunkCoords>,
    Ghost(path): Ghost<Seq<ChunkCursor>>,
) -> (out: Ghost<Seq<ChunkCursor>>)
    requires
        road_path(chunk_map(*old(overmap_chunks)), path),
        path.last() == *old(cursor),
        old(cursor).placed(),
        map_wf(chunk_map(*old(overmap_chunks))),
        box_present(chunk_map(*old(overmap_chunks)), lo, hi),
        coord_within(lo, 0),
        coord_within(hi, 0),
        -1 <= direction.x <= 1,
        -1 <= direction.y <= 1,
        0 <= distance.x,
        0 <= distance.y,
        0 <= cap,
        global_in_box(old(cursor).global(), lo, hi),
        global_in_box((old(cursor).global().0 + along(direction.x as int, distance.x as int),
            old(cursor).global().1 + along(direction.y as int, distance.y as int)), lo, hi),
    ensures
        final(cursor).placed(),
        final(cursor).global() == (old(cursor).global().0 + exit_road_extent(direction, distance, cap).0,
            old(cursor).global().1 + exit_road_extent(direction, distance, cap).1),
        map_wf(chunk_map(*final(overmap_chunks))),
        box_present(chunk_map(*final(overmap_chunks)), lo, hi),
        tiles_grow(chunk_map(*old(overmap_chunks)), chunk_map(*final(overmap_chunks))),
        only_tiles_change(chunk_map(*old(overmap_chunks)), chunk_map(*final(overmap_chunks))),
        road_path(chunk_map(*final(overmap_chunks)), out@),
        out@[0] == path[0],
        out@.last() == *final(cursor),
        changes_within(chunk_map(*old(overmap_chunks)), chunk_map(*final(overmap_chunks)), out@),
        only_roads_laid(chunk_map(*old(overmap_chunks)), chunk_map(*final(overmap_chunks))),
        path.len() <= out@.len(),
        out@.take(path.len() as int) == path,
        out@.len() == path.len() + exit_road_extent(direction, distance, cap).0 + exit_road_extent(direction, distance, cap).1,
        steps_toward(out@, path.len() - 1, direction),
        changes_inside(chunk_map(*old(overmap_chunks)), chunk_map(*final(overmap_chunks)), lo, hi),
        distance.x > distance.y && direction.x > 0 ==> forall|t: int| 1 <= t <= distance.x && t <= cap
            ==> #[trigger] set_at_global(chunk_map(*final(overmap_chunks)), (old(cursor).global().0 + t, old(cursor).global().1)),
        distance.x <= distance.y && direction.y > 0 ==> forall|t: int| 1 <= t <= distance.y && t <= cap
            ==> #[trigger] set_at_global(chunk_map(*final(overmap_chunks)), (old(cursor).global().0, old(cursor).global().1 + t)),
{
    let ghost start = cursor.global();
    let ghost m1 = chunk_map(*overmap_chunks);
    let ghost mut p = path;
    proof {
        lemma_changes_none(m1, path);
        assert(path.take(path.len() as int) =~= path);
    }
    if distance.x > distance.y {
        let len = if distance.x < cap { distance.x } else { cap };
        proof {
            assert(-(len as int) <= len * direction.x <= len) by (nonlinear_arith)
                requires
                    0 <= len,
                    -1 <= direction.x <= 1,
            ;
        }
        let steps = len * direction.x;
        proof {
            assert(steps == along(direction.x as int, len as int)) by (nonlinear_arith)
                requires
                    steps == len * direction.x,
                    -1 <= direction.x <= 1,
                    along(direction.x as int, len as int) == (if direction.x > 0 { len as int } else if direction.x < 0 { -len } else { 0 }),
            ;
        }
        let mut t: i32 = 0;
        while t < steps
            invariant
                0 <= t,
                steps > 0 ==> direction.x == 1 && t <= steps && steps <= distance.x,
                steps <= 0 ==> t == 0,
                road_path(chunk_map(*overmap_chunks), p),
                p[0] == path[0],
                p.last() == *cursor,
                changes_within(m1, chunk_map(*overmap_chunks), p),
                only_roads_laid(m1, chunk_map(*overmap_chunks)),
                path.len() <= p.len(),
                p.take(path.len() as int) == path,
                cursor.placed(),
                cursor.global() == (start.0 + t, start.1),
                forall|t2: int| 1 <= t2 <= t ==> #[trigger] set_at_global(chunk_map(*overmap_chunks), (start.0 + t2, start.1)),
                p.len() == path.len() + t,
                path.len() > 0,
                steps_toward(p, path.len() - 1, direction),
                changes_inside(m1, chunk_map(*overmap_chunks), lo, hi),
                map_wf(chunk_map(*overmap_chunks)),
                box_present(chunk_map(*overmap_chunks), lo, hi),
                tiles_grow(m1, chunk_map(*overmap_chunks)),
                only_tiles_change(m1, chunk_map(*overmap_chunks)),
                coord_within(lo, 0),
                coord_within(hi, 0),
                global_in_box(start, lo, hi),
                global_in_box((start.0 + along(direction.x as int, distance.x as int),
                    start.1 + along(direction.y as int, distance.y as int)), lo, hi),
            decreases steps - t,
        {
            let ghost c0 = *cursor;
            proof {
                lemma_cursor_in_box(c0, lo, hi);
            }
            cursor.step_x(direction.x);
            proof {
                lemma_unit_step_x(c0, direction.x);
            }
            let ghost mb = chunk_map(*overmap_chunks);
            lay_road_under(cursor, overmap_chunks, OvermapTileType::Road, Ghost(m1), Ghost(lo), Ghost(hi));
            proof {
                let ma = chunk_map(*overmap_chunks);
                lemma_road_path_grows(mb, ma, p);
                lemma_road_path_push(ma, p, *cursor);
                lemma_changes_push(m1, mb, ma, p, *cursor);
                lemma_roads_laid_lay(m1, mb, ma, *cursor);
                lemma_changes_inside_trans(m1, mb, ma, lo, hi);
                assert(p.push(*cursor).take(path.len() as int) =~= p.take(path.len() as int));
                assert(step_toward(p.last(), *cursor, direction));
                lemma_steps_push(p, path.len() - 1, direction, *cursor);
                lemma_set_under_cursor(ma, *cursor);
                assert forall|t2: int| 1 <= t2 <= t + 1 implies #[trigger] set_at_global(ma, (start.0 + t2, start.1)) by {
                    if t2 <= t {
                        lemma_set_at_global_grows(mb, ma, (start.0 + t2, start.1));
                    }
                }
                p = p.push(*cursor);
            }
            t = t + 1;
        }
    } else {
        let len = if distance.y < cap { distance.y } else { cap };
        proof {
            assert(-(len as int) <= len * direction.y <= len) by (nonlinear_arith)
                requires
                    0 <= len,
                    -1 <= direction.y <= 1,
            ;
        }
        let steps = len * direction.y;
        proof {
            assert(steps == along(direction.y as int, len as int)) by (nonlinear_arith)
                requires
                    steps == len * direction.y,
                    -1 <= direction.y <= 1,
                    along(direction.y as int, len as int) == (if direction.y > 0 { len as int } else if direction.y < 0 { -len } else { 0 }),
            ;
        }
        let mut t: i32 = 0;
        while t < steps
            invariant
                0 <= t,
                steps > 0 ==> direction.y == 1 && t <= steps && steps <= distance.y,
                steps <= 0 ==> t == 0,
                road_path(chunk_map(*overmap_chunks), p),
                p[0] == path[0],
                p.last() == *cursor,
                changes_within(m1, chunk_map(*overmap_chunks), p),
                only_roads_laid(m1, chunk_map(*overmap_chunks)),
                path.len() <= p.len(),
                p.take(path.len() as int) == path,
                cursor.placed(),
                cursor.global() == (start.0, start.1 + t),
                forall|t2: int| 1 <= t2 <= t ==> #[trigger] set_at_global(chunk_map(*overmap_chunks), (start.0, start.1 + t2)),
                p.len() == path.len() + t,
                path.len() > 0,
                steps_toward(p, path.len() - 1, direction),
                changes_inside(m1, chunk_map(*overmap_chunks), lo, hi),
                map_wf(chunk_map(*overmap_chunks)),
                box_present(chunk_map(*overmap_chunks), lo, hi),
                tiles_grow(m1, chunk_map(*overmap_chunks)),
                only_tiles_change(m1, chunk_map(*overmap_chunks)),
                coord_within(lo, 0),
                coord_within(hi, 0),
                global_in_box(start, lo, hi),
                global_in_box((start.0 + along(direction.x as int, distance.x as int),
                    start.1 + along(direction.y as int, distance.y as int)), lo, hi),
            decreases steps - t,
        {
            let ghost c0 = *cursor;
            proof {
                lemma_cursor_in_box(c0, lo, hi);
            }
            cursor.step_y(direction.y);
            proof {
                lemma_unit_step_y(c0, direction.y);
            }
            let ghost mb = chunk_map(*overmap_chunks);
            lay_road_under(cursor, overmap_chunks, OvermapTileType::Road, Ghost(m1), Ghost(lo), Ghost(hi));
            proof {
                let ma = chunk_map(*overmap_chunks);
                lemma_road_path_grows(mb, ma, p);
                lemma_road_path_push(ma, p, *cursor);
                lemma_changes_push(m1, mb, ma, p, *cursor);
                lemma_roads_laid_lay(m1, mb, ma, *cursor);
                lemma_changes_inside_trans(m1, mb, ma, lo, hi);
                assert(p.push(*cursor).take(path.len() as int) =~= p.take(path.len() as int));
                assert(step_toward(p.last(), *cursor, direction));
                lemma_steps_push(p, path.len() - 1, direction, *cursor);
                lemma_set_under_cursor(ma, *cursor);
                assert forall|t2: int| 1 <= t2 <= t + 1 implies #[trigger] set_at_global(ma, (start.0, start.1 + t2)) by {
                    if t2 <= t {
                        lemma_set_at_global_grows(mb, ma, (start.0, start.1 + t2));
                    }
                }
                p = p.push(*cursor);
            }
            t = t + 1;
        }
    }
    Ghost(p)
}

/// A road can be drawn from `ap` in chunk `ac` to `bp` in chunk `bc`: both
/// stand inside their chunks, every chunk of the rectangle they span exists,
/// and the distance between them fits an `i32`.
pub open spec fn road_drawable_between(
    m: Map<OvermapChunkCoords, OvermapChunk>,
    ac: OvermapChunkCoords,
    ap: IVec2,
    bc: OvermapChunkCoords,
    bp: IVec2,
) -> bool {
    &&& local_in_chunk(ap)
    &&& local_in_chunk(bp)
    &&& coord_within(ac, 0)
    &&& coord_within(bc, 0)
    &&& box_present(m, chunks_lo(ac, bc), chunks_hi(ac, bc))
    &&& abs_int(global_of(ac, ap).0 - global_of(bc, bp).0) + abs_int(global_of(ac, ap).1 - global_of(bc, bp).1) <= i32::MAX
}

/// A road can be drawn between the two cities.
pub open spec fn road_drawable(m: Map<OvermapChunkCoords, OvermapChunk>, a: City, b: City) -> bool {
    &&& 0 <= a.size
    &&& 0 <= b.size
    &&& road_drawable_between(m, a.overmap_chunk_coordinate, a.position, b.overmap_chunk_coordinate, b.position)
}

/// The straight exit road of a road from the overmap-wide tile `s` to `e`
/// with at most `cap` straight tiles is set in `m`: along the longer axis (x
/// where the road spans more columns than rows), when the road heads up that
/// axis, the tiles 1 to `cap` steps from `s`, as far as `e` reaches on it.
pub open spec fn exit_road_laid(m: Map<OvermapChunkCoords, OvermapChunk>, s: (int, int), e: (int, int), cap: int) -> bool {
    let dx = abs_int(e.0 - s.0);
    let dy = abs_int(e.1 - s.1);
    &&& dx > dy && e.0 > s.0 ==> forall|t: int| 1 <= t <= dx && t <= cap ==> #[trigger] set_at_global(m, (s.0 + t, s.1))
    &&& dx <= dy && e.1 > s.1 ==> forall|t: int| 1 <= t <= dy && t <= cap ==> #[trigger] set_at_global(m, (s.0, s.1 + t))
}

/// Draws a road from `start_pos` in `start_chunk` to `end_pos` in
/// `end_chunk`: a house at the start, a straight exit road along the longer
/// axis (only when heading in the positive direction, at most `exit_cap`
/// tiles), then a random monotone walk to the start of the entrance road
/// (`entrance_cap` tiles short of the end along the longer remaining axis, or
/// less where the road is shorter), then a random monotone walk to the end,
/// and a house at the end. Existing houses are never overwritten.
#[verifier::rlimit(60)]
pub(crate) fn draw_road_between(
    overmap_chunks: &mut ChunkMap,
    start_city_pos: IVec2,
    start_city_chunk: OvermapChunkCoords,
    end_city_pos: IVec2,
    end_city_chunk: OvermapChunkCoords,
    exit_cap: i32,
    entrance_cap: i32,
    rng: &mut chacha20::ChaCha8Rng,
)
    requires
        map_wf(chunk_map(*old(overmap_chunks))),
        road_drawable_between(chunk_map(*old(overmap_chunks)), start_city_chunk, start_city_pos, end_city_chunk, end_city_pos),
        0 <= exit_cap,
        0 <= entrance_cap,
    ensures
        map_wf(chunk_map(*final(overmap_chunks))),
        tiles_grow(chunk_map(*old(overmap_chunks)), chunk_map(*final(overmap_chunks))),
        only_tiles_change(chunk_map(*old(overmap_chunks)), chunk_map(*final(overmap_chunks))),
        tile_at(chunk_map(*final(overmap_chunks)), start_city_chunk, start_city_pos) == Some(OvermapTileType::House),
        tile_at(chunk_map(*final(overmap_chunks)), end_city_chunk, end_city_pos) == Some(OvermapTileType::House),
        roads_join(chunk_map(*final(overmap_chunks)), start_city_chunk, start_city_pos, end_city_chunk, end_city_pos),
        road_laid(chunk_map(*old(overmap_chunks)), chunk_map(*final(overmap_chunks)),
            start_city_chunk, start_city_pos, end_city_chunk, end_city_pos),
        houses_only_at(chunk_map(*old(overmap_chunks)), chunk_map(*final(overmap_chunks)),
            start_city_chunk, start_city_pos, end_city_chunk, end_city_pos),
        road_walked(chunk_map(*old(overmap_chunks)), chunk_map(*final(overmap_chunks)),
            start_city_chunk, start_city_pos, end_city_chunk, end_city_pos),
        changes_inside(chunk_map(*old(overmap_chunks)), chunk_map(*final(overmap_chunks)),
            chunks_lo(start_city_chunk, end_city_chunk), chunks_hi(start_city_chunk, end_city_chunk)),
        exit_road_laid(chunk_map(*final(overmap_chunks)), global_of(start_city_chunk, start_city_pos),
            global_of(end_city_chunk, end_city_pos), exit_cap as int),
{
    let ghost lo = chunks_lo(start_city_chunk, end_city_chunk);
    let ghost hi = chunks_hi(start_city_chunk, end_city_chunk);
    let ghost m0 = chunk_map(*overmap_chunks);

    let mut cursor = ChunkCursor {
        chunk_coord: start_city_chunk,
        local_pos: IVec2 { x: start_city_pos.x, y: start_city_pos.y },
    };
    let ghost start = cursor.global();
    let ghost end = global_of(end_city_chunk, end_city_pos);

    let end_global = global_position(end_city_chunk, end_city_pos);
    let distance_between_cities = global_position(start_city_chunk, start_city_pos).sub(end_global).abs();
    let direction = road_direction(start_city_chunk, start_city_pos, end_city_chunk, end_city_pos);
    proof {
        assert(end == (start.0 + along(direction.x as int, distance_between_cities.x as int),
            start.1 + along(direction.y as int, distance_between_cities.y as int)));
        assert(global_in_box(start, lo, hi));
        assert(global_in_box(end, lo, hi));
    }

    lay_road_under(&cursor, overmap_chunks, OvermapTileType::House, Ghost(m0), Ghost(lo), Ghost(hi));
    let ghost m1 = chunk_map(*overmap_chunks);
    let ghost p0 = seq![cursor];
    proof {
        assert(road_path(m1, p0));
    }

    // draw the exit road
    let p1 = draw_exit_road(&mut cursor, overmap_chunks, direction, distance_between_cities, exit_cap, Ghost(lo), Ghost(hi), Ghost(p0));
    let ghost m2 = chunk_map(*overmap_chunks);
    let ghost ext = exit_road_extent(direction, distance_between_cities, exit_cap);

    let distance_to_end = global_position(cursor.chunk_coord, cursor.local_pos).sub(end_global).abs();
    proof {
        assert(distance_to_end.x == distance_between_cities.x - along(direction.x as int, ext.0));
        assert(distance_to_end.y == distance_between_cities.y - along(direction.y as int, ext.1));
    }

    // get entrance road start pos
    let entrance = if distance_to_end.x > distance_to_end.y {
        IVec2 { x: distance_to_end.x - (if distance_to_end.x < entrance_cap { distance_to_end.x } else { entrance_cap }), y: distance_to_end.y }
    } else {
        IVec2 { x: distance_to_end.x, y: distance_to_end.y - (if distance_to_end.y < entrance_cap { distance_to_end.y } else { entrance_cap }) }
    };

    let p2 = walk_road(&mut cursor, overmap_chunks, direction, entrance, rng, Ghost(lo), Ghost(hi), p1);
    let ghost m3 = chunk_map(*overmap_chunks);

    let distance_to_end = global_position(cursor.chunk_coord, cursor.local_pos).sub(end_global).abs();
    let p3 = walk_road(&mut cursor, overmap_chunks, direction, distance_to_end, rng, Ghost(lo), Ghost(hi), p2);
    proof {
        assert(cursor.global() == end);
        let b_cursor = ChunkCursor { chunk_coord: end_city_chunk, local_pos: end_city_pos };
        lemma_same_global_same_cell(cursor, b_cursor);
    }

    let ghost m4 = chunk_map(*overmap_chunks);
    lay_road_under(&cursor, overmap_chunks, OvermapTileType::House, Ghost(m1), Ghost(lo), Ghost(hi));
    proof {
        let m5 = chunk_map(*overmap_chunks);
        lemma_road_path_grows(m4, m5, p3@);
        assert(road_path(m5, p3@) && path_between(p3@, start_city_chunk, start_city_pos, end_city_chunk, end_city_pos));
        lemma_tiles_grow_trans(m0, m1, m2);
        lemma_tiles_grow_trans(m0, m2, m3);
        lemma_tiles_grow_trans(m0, m3, m4);
        lemma_on_path_prefix(p0, p1@);
        lemma_changes_compose(m0, m1, m2, p0, p1@, p1@);
        lemma_on_path_prefix(p1@, p2@);
        lemma_changes_compose(m0, m2, m3, p1@, p2@, p2@);
        lemma_on_path_prefix(p2@, p3@);
        lemma_changes_compose(m0, m3, m4, p2@, p3@, p3@);
        lemma_on_path_last(p3@, cursor);
        lemma_changes_compose(m0, m4, m5, p3@, seq![cursor], p3@);
        assert(road_path(m5, p3@) && path_between(p3@, start_city_chunk, start_city_pos, end_city_chunk, end_city_pos)
            && changes_within(m0, m5, p3@));
        lemma_tiles_grow_trans(m1, m2, m3);
        lemma_tiles_grow_trans(m1, m3, m4);
        lemma_roads_laid_trans(m1, m2, m3);
        lemma_roads_laid_trans(m1, m3, m4);
        lemma_houses_at_ends(m0, m1, m4, m5, p0[0], cursor);
        lemma_tiles_grow_trans(m0, m1, m5);
        lemma_only_tiles_change_trans(m0, m1, m5);
        let k = start_city_chunk;
        let i = tile_index(start_city_pos);
        assert(m1.contains_key(k));
        assert(m1[k].overmap_tiles@[i] == Some(OvermapTileType::House));
        assert(m5[k].overmap_tiles@[i] == Some(OvermapTileType::House));
        let dir = IVec2 { x: sign_int(end.0 - start.0) as i32, y: sign_int(end.1 - start.1) as i32 };
        assert(direction == dir);
        lemma_steps_join(p1@, p2@, 0, direction);
        lemma_steps_join(p2@, p3@, 0, direction);
        lemma_changes_inside_trans(m0, m1, m2, lo, hi);
        lemma_changes_inside_trans(m0, m2, m3, lo, hi);
        lemma_changes_inside_trans(m0, m3, m4, lo, hi);
        lemma_changes_inside_trans(m0, m4, m5, lo, hi);
        assert(p3@.len() == abs_int(end.0 - start.0) + abs_int(end.1 - start.1) + 1);
        lemma_tiles_grow_trans(m2, m3, m4);
        lemma_tiles_grow_trans(m2, m4, m5);
        assert forall|t: int| 1 <= t <= distance_between_cities.x && t <= exit_cap && distance_between_cities.x > distance_between_cities.y
            && direction.x > 0 implies #[trigger] set_at_global(m5, (start.0 + t, start.1)) by {
            lemma_set_at_global_grows(m2, m5, (start.0 + t, start.1));
        }
        assert forall|t: int| 1 <= t <= distance_between_cities.y && t <= exit_cap && distance_between_cities.x <= distance_between_cities.y
            && direction.y > 0 implies #[trigger] set_at_global(m5, (start.0, start.1 + t)) by {
            lemma_set_at_global_grows(m2, m5, (start.0, start.1 + t));
        }
    }
}

/// Draws a road from `city_a` to `city_b` whose straight exit road is at most
/// half of `city_a`'s size and whose entrance road is at most half of
/// `city_b`'s size; both cities' tiles end up houses.
fn insert_road_tiles_between_cities(
    overmap_chunks: &mut ChunkMap,
    city_a: &City,
    city_b: &City,
    rng: &mut chacha20::ChaCha8Rng,
)
    requires
        map_wf(chunk_map(*old(overmap_chunks))),
        road_drawable(chunk_map(*old(overmap_chunks)), *city_a, *city_b),
    ensures
        map_wf(chunk_map(*final(overmap_chunks))),
        tiles_grow(chunk_map(*old(overmap_chunks)), chunk_map(*final(overmap_chunks))),
        only_tiles_change(chunk_map(*old(overmap_chunks)), chunk_map(*final(overmap_chunks))),
        tile_at(chunk_map(*final(overmap_chunks)), city_a.overmap_chunk_coordinate, city_a.position)
            == Some(OvermapTileType::House),
        tile_at(chunk_map(*final(overmap_chunks)), city_b.overmap_chunk_coordinate, city_b.position)
            == Some(OvermapTileType::House),
        roads_join(chunk_map(*final(overmap_chunks)), city_a.overmap_chunk_coordinate, city_a.position,
            city_b.overmap_chunk_coordinate, city_b.position),
        road_laid(chunk_map(*old(overmap_chunks)), chunk_map(*final(overmap_chunks)),
            city_a.overmap_chunk_coordinate, city_a.position, city_b.overmap_chunk_coordinate, city_b.position),
        houses_only_at(chunk_map(*old(overmap_chunks)), chunk_map(*final(overmap_chunks)),
            city_a.overmap_chunk_coordinate, city_a.position, city_b.overmap_chunk_coordinate, city_b.position),
        road_walked(chunk_map(*old(overmap_chunks)), chunk_map(*final(overmap_chunks)),
            city_a.overmap_chunk_coordinate, city_a.position, city_b.overmap_chunk_coordinate, city_b.position),
        changes_inside(chunk_map(*old(overmap_chunks)), chunk_map(*final(overmap_chunks)),
            span_lo(*city_a, *city_b), span_hi(*city_a, *city_b)),
        exit_road_laid(chunk_map(*final(overmap_chunks)), global_of(city_a.overmap_chunk_coordinate, city_a.position),
            global_of(city_b.overmap_chunk_coordinate, city_b.position), city_a.size / 2),
{
    draw_road_between(overmap_chunks, city_a.position, city_a.overmap_chunk_coordinate,
        city_b.position, city_b.overmap_chunk_coordinate, city_a.size / 2, city_b.size / 2, rng);
}

/// The corner of the square of chunks of radius `r` around `c` with the
/// lowest coordinates.
pub open spec fn square_lo(c: OvermapChunkCoords, r: int) -> OvermapChunkCoords {
    OvermapChunkCoords(IVec2 { x: (c.0.x - r) as i32, y: (c.0.y - r) as i32 })
}

/// The corner of the square of chunks of radius `r` around `c` with the
/// highest coordinates.
pub open spec fn square_hi(c: OvermapChunkCoords, r: int) -> OvermapChunkCoords {
    OvermapChunkCoords(IVec2 { x: (c.0.x + r) as i32, y: (c.0.y + r) as i32 })
}

/// A placed cursor in a chunk of a rectangle of chunks has its overmap-wide
/// position inside that rectangle.
pub proof fn lemma_placed_in_box(c: ChunkCursor, lo: OvermapChunkCoords, hi: OvermapChunkCoords)
    requires
        c.placed(),
        chunk_in_box(c.chunk_coord, lo, hi),
    ensures
        global_in_box(c.global(), lo, hi),
{
}

/// A set tile of a chunk that exists stays set as the map grows.
pub proof fn lemma_tile_stays_set(
    old: Map<OvermapChunkCoords, OvermapChunk>,
    new: Map<OvermapChunkCoords, OvermapChunk>,
    chunk: OvermapChunkCoords,
    pos: IVec2,
)
    requires
        tiles_grow(old, new),
        chunks_wf(old),
        local_in_chunk(pos),
        tile_at(old, chunk, pos) is Some,
    ensures
        tile_at(new, chunk, pos) is Some,
{
    assert(old.contains_key(chunk));
    assert(chunk_wf(chunk, old[chunk]));
    let i = tile_index(pos);
    assert(old[chunk].overmap_tiles@[i] is Some);
}

/// 1 for a builder that has moved enough to split, else 0.
pub open spec fn ready(b: RoadBuilder) -> int {
    if b.moves_since_split >= RoadBuilder::MOVES_BEFORE_SPLIT { 1 } else { 0 }
}

/// How many builders of `s` have moved enough to split.
pub open spec fn ready_count(s: Seq<RoadBuilder>) -> int
    decreases s.len(),
{
    if s.len() == 0 {
        0
    } else {
        ready_count(s.drop_last()) + ready(s.last())
    }
}

/// Counting ready builders from the front.
proof fn lemma_ready_count_front(x: RoadBuilder, t: Seq<RoadBuilder>)
    ensures
        ready_count(seq![x] + t) == ready(x) + ready_count(t),
        ready_count(t) >= 0,
    decreases t.len(),
{
    let s = seq![x] + t;
    if t.len() > 0 {
        lemma_ready_count_front(x, t.drop_last());
        assert(s.drop_last() =~= seq![x] + t.drop_last());
        assert(s.last() == t.last());
        assert(ready_count(s) == ready_count(s.drop_last()) + ready(s.last()));
        assert(ready_count(t) == ready_count(t.drop_last()) + ready(t.last()));
    } else {
        assert(s.drop_last() =~= Seq::<RoadBuilder>::empty());
        assert(s.last() == x);
        assert(ready_count(s) == ready_count(s.drop_last()) + ready(s.last()));
        assert(ready_count(Seq::<RoadBuilder>::empty()) == 0);
    }
}

/// Counting the ready builders of a suffix, one builder at a time.
proof fn lemma_ready_count_skip(s: Seq<RoadBuilder>, i: int)
    requires
        0 <= i < s.len(),
    ensures
        ready_count(s.skip(i)) == ready(s[i]) + ready_count(s.skip(i + 1)),
        ready_count(s.skip(i + 1)) >= 0,
{
    assert(s.skip(i) =~= seq![s[i]] + s.skip(i + 1));
    lemma_ready_count_front(s[i], s.skip(i + 1));
}

/// The builder would be killed for running into a road: it is not of the
/// first generation and it stands on a road or next to one on either side.
pub open spec fn blocked(b: RoadBuilder, m: Map<OvermapChunkCoords, OvermapChunk>) -> bool {
    &&& b.generation > 0
    &&& {
        ||| tile_at(m, b.chunk_cursor.chunk_coord, b.chunk_cursor.local_pos) == Some(OvermapTileType::Road)
        ||| tile_at(m, shifted(b.chunk_cursor, perpendiculars(b.direction)[0]).0,
                shifted(b.chunk_cursor, perpendiculars(b.direction)[0]).1) == Some(OvermapTileType::Road)
        ||| tile_at(m, shifted(b.chunk_cursor, perpendiculars(b.direction)[1]).0,
                shifted(b.chunk_cursor, perpendiculars(b.direction)[1]).1) == Some(OvermapTileType::Road)
    }
}

/// A cursor in a chunk near the bound can look one tile around it without
/// overflow, and what it looks at is at most one chunk further out.
proof fn lemma_can_look_around(c: ChunkCursor, d: IVec2, k: int)
    requires
        0 <= k <= 8,
        c.placed(),
        coord_within(c.chunk_coord, k),
        -1 <= d.x <= 1,
        -1 <= d.y <= 1,
    ensures
        can_shift(c, d),
        coord_within(shifted(c, d).0, k + 1),
{
    let n = OVERMAP_CHUNK_SIZE as int;
    let sx = d.x + c.local_pos.x;
    let sy = d.y + c.local_pos.y;
    assert(-1 <= sx < n + 1);
    assert(-1 <= sy < n + 1);
    assert(-1 <= sx / n <= 1) by {
        if sx < 0 {
            vstd::arithmetic::div_mod::lemma_fundamental_div_mod_converse(sx, n, -1, sx + n);
        } else if sx < n {
            vstd::arithmetic::div_mod::lemma_fundamental_div_mod_converse(sx, n, 0, sx);
        } else {
            vstd::arithmetic::div_mod::lemma_fundamental_div_mod_converse(sx, n, 1, sx - n);
        }
    }
    assert(-1 <= sy / n <= 1) by {
        if sy < 0 {
            vstd::arithmetic::div_mod::lemma_fundamental_div_mod_converse(sy, n, -1, sy + n);
        } else if sy < n {
            vstd::arithmetic::div_mod::lemma_fundamental_div_mod_converse(sy, n, 0, sy);
        } else {
            vstd::arithmetic::div_mod::lemma_fundamental_div_mod_converse(sy, n, 1, sy - n);
        }
    }
}

/// Whether a builder of a later generation has run onto a road or alongside
/// one, which kills it.
fn builder_blocked(b: &RoadBuilder, overmap_chunks: &ChunkMap) -> (r: bool)
    requires
        b.chunk_cursor.placed(),
        coord_within(b.chunk_cursor.chunk_coord, 2),
        unit_cardinal(b.direction),
        map_wf(chunk_map(*overmap_chunks)),
    ensures
        r == blocked(*b, chunk_map(*overmap_chunks)),
{
    if b.generation > 0 {
        let current_tile = match chunk_map_get(overmap_chunks, &b.chunk_cursor.chunk_coord) {
            Some(chunk) => chunk.overmap_tiles[xy_idx(b.chunk_cursor.local_pos.x, b.chunk_cursor.local_pos.y, OVERMAP_CHUNK_SIZE as usize)],
            None => None,
        };
        match current_tile {
            Some(OvermapTileType::Road) => {
                return true;
            },
            _ => {},
        }
        let perpendicular_directions = b.get_perpendicular_directions();
        proof {
            lemma_can_look_around(b.chunk_cursor, perpendicular_directions@[0], 2);
            lemma_can_look_around(b.chunk_cursor, perpendicular_directions@[1], 2);
        }
        match b.chunk_cursor.peek_tile(overmap_chunks, perpendicular_directions[0]) {
            Some(OvermapTileType::Road) => {
                return true;
            },
            _ => {},
        }
        match b.chunk_cursor.peek_tile(overmap_chunks, perpendicular_directions[1]) {
            Some(OvermapTileType::Road) => {
                return true;
            },
            _ => {},
        }
        false
    } else {
        false
    }
}

/// Removes every candidate registered at a tile, and the tile's entry.
fn clear_candidates_at(building_candidates: &mut BuildingCandidates, key: &(OvermapChunkCoords, IVec2))
    requires
        old(building_candidates).wf(),
    ensures
        final(building_candidates).wf(),
        final(building_candidates).id_counter == old(building_candidates).id_counter,
        candidate_map(final(building_candidates).candidates).dom().subset_of(
            candidate_map(old(building_candidates).candidates).dom()),
        occupancy_map(final(building_candidates).occupancy_map)
            == occupancy_map(old(building_candidates).occupancy_map).remove(*key),
        forall|id: usize| #[trigger] candidate_map(final(building_candidates).candidates).contains_key(id)
            ==> candidate_map(final(building_candidates).candidates)[id]
                == candidate_map(old(building_candidates).candidates)[id],
        occupancy_map(old(building_candidates).occupancy_map).contains_key(*key) ==>
            forall|j: int| 0 <= j < occupancy_map(old(building_candidates).occupancy_map)[*key].len()
                ==> !candidate_map(final(building_candidates).candidates).contains_key(
                    #[trigger] occupancy_map(old(building_candidates).occupancy_map)[*key][j]),
{
    let ghost c0 = candidate_map(building_candidates.candidates);
    match occupancy_map_get(&building_candidates.occupancy_map, key) {
        Some(ids) => {
            let mut j: usize = 0;
            while j < ids.len()
                invariant
                    j <= ids@.len(),
                    ids@ == occupancy_map(old(building_candidates).occupancy_map)[*key],
                    building_candidates.id_counter == old(building_candidates).id_counter,
                    building_candidates.occupancy_map == old(building_candidates).occupancy_map,
                    candidate_map(building_candidates.candidates).dom().subset_of(c0.dom()),
                    forall|id: usize| #[trigger] candidate_map(building_candidates.candidates).contains_key(id)
                        ==> candidate_map(building_candidates.candidates)[id] == c0[id],
                    forall|k: int| 0 <= k < j ==> !candidate_map(building_candidates.candidates).contains_key(#[trigger] ids@[k]),
                    c0 == candidate_map(old(building_candidates).candidates),
                    old(building_candidates).wf(),
                decreases ids@.len() - j,
            {
                candidate_map_remove(&mut building_candidates.candidates, ids[j]);
                j += 1;
            }
        },
        None => {},
    }
    occupancy_map_remove(&mut building_candidates.occupancy_map, key);
}

/// Registers a one-by-one building candidate on each side of the builder
/// whose tile is unset and not yet covered by a candidate.
/// The id counter, candidates and occupancy lists of building candidates.
pub open spec fn candidates_view(c: BuildingCandidates) -> (usize, Map<usize, BuildingCandidate>, Map<(OvermapChunkCoords, IVec2), Seq<usize>>) {
    (c.id_counter, candidate_map(c.candidates), occupancy_map(c.occupancy_map))
}

/// The candidates after a builder `b` on map `m` looks to the side `dir`:
/// where the tile that way is unset and no candidate covers it, a one by one
/// candidate facing back to the road is added under the next id, and the tile
/// is recorded as covered by that id alone.
pub open spec fn side_step(
    s: (usize, Map<usize, BuildingCandidate>, Map<(OvermapChunkCoords, IVec2), Seq<usize>>),
    b: RoadBuilder,
    m: Map<OvermapChunkCoords, OvermapChunk>,
    dir: IVec2,
) -> (usize, Map<usize, BuildingCandidate>, Map<(OvermapChunkCoords, IVec2), Seq<usize>>) {
    let key = shifted(b.chunk_cursor, dir);
    let id = s.0;
    if tile_at(m, key.0, key.1) is Some {
        s
    } else if s.2.contains_key(key) && s.2[key].len() > 0 {
        s
    } else if id == usize::MAX {
        s
    } else {
        (
            (id + 1) as usize,
            s.1.insert(id, BuildingCandidate {
                id,
                position: key.1,
                chunk_coord: key.0,
                direction_to_road: IVec2 { x: (-dir.x) as i32, y: (-dir.y) as i32 },
                shape: BuildingShape::OneByOne,
            }),
            s.2.insert(key, seq![id]),
        )
    }
}

/// The candidates after the builder looks to its first `n` sides in turn.
pub open spec fn side_steps(
    s: (usize, Map<usize, BuildingCandidate>, Map<(OvermapChunkCoords, IVec2), Seq<usize>>),
    b: RoadBuilder,
    m: Map<OvermapChunkCoords, OvermapChunk>,
    n: int,
) -> (usize, Map<usize, BuildingCandidate>, Map<(OvermapChunkCoords, IVec2), Seq<usize>>)
    decreases n,
{
    if n <= 0 {
        s
    } else {
        side_step(side_steps(s, b, m, n - 1), b, m, perpendiculars(b.direction)[n - 1])
    }
}

fn add_side_candidates(b: &RoadBuilder, overmap_chunks: &ChunkMap, building_candidates: &mut BuildingCandidates)
    requires
        b.chunk_cursor.placed(),
        coord_within(b.chunk_cursor.chunk_coord, 2),
        unit_cardinal(b.direction),
        map_wf(chunk_map(*overmap_chunks)),
        old(building_candidates).wf(),
    ensures
        final(building_candidates).wf(),
        final(building_candidates).id_counter >= old(building_candidates).id_counter,
        forall|id: usize| #[trigger] candidate_map(old(building_candidates).candidates).contains_key(id)
            ==> candidate_map(final(building_candidates).candidates).contains_key(id)
                && candidate_map(final(building_candidates).candidates)[id]
                    == candidate_map(old(building_candidates).candidates)[id],
        candidates_view(*final(building_candidates))
            == side_steps(candidates_view(*old(building_candidates)), *b, chunk_map(*overmap_chunks), 2),
{
    let perpendicular_directions = b.get_perpendicular_directions();
    let mut j: usize = 0;
    while j < 2
        invariant
            j <= 2,
            perpendicular_directions@ == perpendiculars(b.direction),
            b.chunk_cursor.placed(),
            coord_within(b.chunk_cursor.chunk_coord, 2),
            unit_cardinal(b.direction),
            map_wf(chunk_map(*overmap_chunks)),
            building_candidates.wf(),
            building_candidates.id_counter >= old(building_candidates).id_counter,
            forall|id: usize| #[trigger] candidate_map(old(building_candidates).candidates).contains_key(id)
                ==> candidate_map(building_candidates.candidates).contains_key(id)
                    && candidate_map(building_candidates.candidates)[id]
                        == candidate_map(old(building_candidates).candidates)[id],
            candidates_view(*building_candidates)
                == side_steps(candidates_view(*old(building_candidates)), *b, chunk_map(*overmap_chunks), j as int),
            old(building_candidates).wf(),
        decreases 2 - j,
    {
        let dir = perpendicular_directions[j];
        let ghost before = candidates_view(*building_candidates);
        proof {
            lemma_can_look_around(b.chunk_cursor, dir, 2);
            assert(dir == perpendiculars(b.direction)[j as int]);
        }
        // Don't consider spots already occupied by another tile
        let occupied = match b.chunk_cursor.peek_tile(overmap_chunks, dir) {
            Some(OvermapTileType::Road) => true,
            Some(OvermapTileType::House) => true,
            None => false,
        };
        if !occupied {
            let (chunk_coord, pos) = b.chunk_cursor.get_position_delta(dir);
            let next_candidate_id = building_candidates.id_counter;
            let key = (chunk_coord, pos);
            let free = match occupancy_map_get(&building_candidates.occupancy_map, &key) {
                Some(ids) => ids.len() == 0,
                None => true,
            };
            if free && next_candidate_id < usize::MAX {
                proof {
                    assert(dir.x * -1 == -dir.x);
                    assert(dir.y * -1 == -dir.y);
                }
                let building_candidate = BuildingCandidate {
                    id: next_candidate_id,
                    position: pos,
                    chunk_coord,
                    direction_to_road: dir.scale(-1),
                    shape: BuildingShape::OneByOne,
                };
                let mut ids: Vec<usize> = Vec::new();
                ids.push(next_candidate_id);
                occupancy_map_insert(&mut building_candidates.occupancy_map, key, ids);
                candidate_map_insert(&mut building_candidates.candidates, next_candidate_id, building_candidate);
                building_candidates.id_counter = next_candidate_id + 1;
                proof {
                    assert(ids@ =~= seq![next_candidate_id]);
                }
            }
        }
        proof {
            assert(candidates_view(*building_candidates) == side_step(before, *b, chunk_map(*overmap_chunks), dir));
        }
        j += 1;
    }
}

/// The Manhattan distance between the builder and the centre of its city.
pub open spec fn distance_to_city(b: RoadBuilder, city: City) -> int {
    abs_int(b.chunk_cursor.global().0 - city_global(city).0) + abs_int(b.chunk_cursor.global().1 - city_global(city).1)
}

/// Rolls whether the builder stops here: a roll in `0..100` below the stop
/// probability that `stop_probability` gives for the builder's Manhattan
/// distance from the city centre and the city's size.
fn should_stop<F: Fn(u32, i32) -> i32>(
    b: &RoadBuilder,
    city: &City,
    rng: &mut chacha20::ChaCha8Rng,
    stop_probability: &F,
) -> (r: bool)
    requires
        forall|d: u32, s: i32| stop_probability.requires((d, s)),
        b.chunk_cursor.placed(),
        local_in_chunk(city.position),
        coord_within(city.overmap_chunk_coordinate, 0),
        chunk_distance(b.chunk_cursor.chunk_coord, city.overmap_chunk_coordinate) <= 1,
    ensures
        exists|p: i32|
            #[trigger] stop_probability.ensures((distance_to_city(*b, *city) as u32, city.size), p)
                && (r ==> p > 0) && (!r ==> p < 100),
{
    // Kill builder based on distance from city center
    let stop_roll = random_range(rng, 0, 100);
    stops_on_roll(b, city, stop_roll, stop_probability)
}

/// Whether the builder `b` stops on the roll `stop_roll`: exactly when the
/// roll lies below the stop probability that `stop_probability` gives for
/// the builder's Manhattan distance from the city centre and the city's size.
pub fn stops_on_roll<F: Fn(u32, i32) -> i32>(
    b: &RoadBuilder,
    city: &City,
    stop_roll: i32,
    stop_probability: &F,
) -> (r: bool)
    requires
        forall|d: u32, s: i32| stop_probability.requires((d, s)),
        b.chunk_cursor.placed(),
        local_in_chunk(city.position),
        coord_within(city.overmap_chunk_coordinate, 0),
        chunk_distance(b.chunk_cursor.chunk_coord, city.overmap_chunk_coordinate) <= 1,
    ensures
        exists|p: i32|
            #[trigger] stop_probability.ensures((distance_to_city(*b, *city) as u32, city.size), p)
                && r == (stop_roll < p),
{
    let here = global_position(b.chunk_cursor.chunk_coord, b.chunk_cursor.local_pos);
    let centre = global_position(city.overmap_chunk_coordinate, city.position);
    let distance_from_center = here.manhattan_distance(centre);
    let stop_chance = stop_probability(distance_from_center, city.size);
    proof {
        assert(stop_probability.ensures((distance_to_city(*b, *city) as u32, city.size), stop_chance));
    }
    stop_roll < stop_chance
}

/// A builder of the first generation goes on 8 times in 12 and splits both
/// ways otherwise; a later one goes on 4 times in 10, splits once and stops 1
/// time, splits once and goes on 2 times, splits twice and stops 1 time, and
/// splits twice and goes on 2 times.
pub proof fn lemma_action_weights(generation: i32)
    ensures
        generation == 0 ==> actions_for(generation) == seq![
            (RoadBuilderAction::Continue, 8i32),
            (RoadBuilderAction::SplitTwice, 2i32),
            (RoadBuilderAction::SplitTwiceAndContinue, 2i32),
        ],
        generation != 0 ==> actions_for(generation) == seq![
            (RoadBuilderAction::Continue, 4i32),
            (RoadBuilderAction::SplitOnce, 1i32),
            (RoadBuilderAction::SplitOnceAndContinue, 2i32),
            (RoadBuilderAction::SplitTwice, 1i32),
            (RoadBuilderAction::SplitTwiceAndContinue, 2i32),
        ],
{
}

/// The weighted actions of every generation sum to 12 (the first) or 10,
/// with at most five non-negative weights.
pub proof fn lemma_actions_weight(generation: i32)
    ensures
        weight_sum(actions_for(generation)) == (if generation == 0 { 12int } else { 10int }),
        0 < actions_for(generation).len() <= 5,
        forall|j: int| 0 <= j < actions_for(generation).len() ==> #[trigger] actions_for(generation)[j].1 >= 0,
{
    let s = actions_for(generation);
    reveal_with_fuel(weight_sum, 6);
    assert(s.drop_last().drop_last() =~= s.take(s.len() - 2));
    if generation != 0 {
        assert(s.drop_last().drop_last().drop_last() =~= s.take(2));
        assert(s.take(2).drop_last() =~= s.take(1));
        assert(s.take(1).drop_last() =~= Seq::<(RoadBuilderAction, i32)>::empty());
    } else {
        assert(s.take(1).drop_last() =~= Seq::<(RoadBuilderAction, i32)>::empty());
        assert(s.drop_last().drop_last() =~= s.take(1));
    }
}

/// Moves a builder one tile in its direction.
fn advance_builder(b: &mut RoadBuilder)
    requires
        unit_cardinal(old(b).direction),
        old(b).chunk_cursor.placed(),
        coord_within(old(b).chunk_cursor.chunk_coord, 1),
    ensures
        final(b).chunk_cursor.placed(),
        final(b).chunk_cursor.global() == (old(b).chunk_cursor.global().0 + old(b).direction.x,
            old(b).chunk_cursor.global().1 + old(b).direction.y),
        chunk_distance(final(b).chunk_cursor.chunk_coord, old(b).chunk_cursor.chunk_coord) <= 1,
        final(b).origin_chunk == old(b).origin_chunk,
        final(b).direction == old(b).direction,
        final(b).generation == old(b).generation,
        final(b).action_probabilities == old(b).action_probabilities,
        final(b).cumulative_action_weights == old(b).cumulative_action_weights,
        final(b).moves_since_split == old(b).moves_since_split,
{
    let ghost c0 = b.chunk_cursor;
    if b.direction.x != 0 {
        b.chunk_cursor.step_x(b.direction.x);
        proof {
            lemma_unit_step_x(c0, b.direction.x);
        }
    } else if b.direction.y != 0 {
        b.chunk_cursor.step_y(b.direction.y);
        proof {
            lemma_unit_step_y(c0, b.direction.y);
        }
    }
    proof {
        lemma_cursor_cell(c0);
        lemma_cursor_cell(b.chunk_cursor);
        let n = OVERMAP_CHUNK_SIZE as int;
        let g0 = c0.global();
        let g1 = b.chunk_cursor.global();
        vstd::arithmetic::div_mod::lemma_div_is_ordered(g0.0 - 1, g1.0, n);
        vstd::arithmetic::div_mod::lemma_div_is_ordered(g1.0, g0.0 + 1, n);
        vstd::arithmetic::div_mod::lemma_div_is_ordered(g0.1 - 1, g1.1, n);
        vstd::arithmetic::div_mod::lemma_div_is_ordered(g1.1, g0.1 + 1, n);
        assert((g0.0 - 1) / n >= g0.0 / n - 1) by {
            vstd::arithmetic::div_mod::lemma_fundamental_div_mod(g0.0, n);
            vstd::arithmetic::div_mod::lemma_fundamental_div_mod(g0.0 - 1, n);
        }
        assert((g0.0 + 1) / n <= g0.0 / n + 1) by {
            vstd::arithmetic::div_mod::lemma_fundamental_div_mod(g0.0, n);
            vstd::arithmetic::div_mod::lemma_fundamental_div_mod(g0.0 + 1, n);
        }
        assert((g0.1 - 1) / n >= g0.1 / n - 1) by {
            vstd::arithmetic::div_mod::lemma_fundamental_div_mod(g0.1, n);
            vstd::arithmetic::div_mod::lemma_fundamental_div_mod(g0.1 - 1, n);
        }
        assert((g0.1 + 1) / n <= g0.1 / n + 1) by {
            vstd::arithmetic::div_mod::lemma_fundamental_div_mod(g0.1, n);
            vstd::arithmetic::div_mod::lemma_fundamental_div_mod(g0.1 + 1, n);
        }
    }
}

/// Dropping the builder at `i` keeps the others well formed and on their
/// tiles, and the builders after it move up by one.
proof fn lemma_builders_remove(s: Seq<RoadBuilder>, i: int, origin: OvermapChunkCoords, m: Map<OvermapChunkCoords, OvermapChunk>)
    requires
        0 <= i < s.len(),
        forall|j: int| 0 <= j < s.len() && j != i ==> #[trigger] s[j].wf(origin),
        builders_on_tiles(s, i, m),
    ensures
        builders_wf(s.remove(i), origin),
        builders_on_tiles(s.remove(i), i, m),
        s.remove(i).skip(i) =~= s.skip(i + 1),
        s.remove(i).len() == s.len() - 1,
{
    let r = s.remove(i);
    assert forall|j: int| 0 <= j < r.len() implies #[trigger] r[j].wf(origin) by {
        if j < i { assert(r[j] == s[j]); } else { assert(r[j] == s[j + 1]); }
    }
    assert forall|j: int| 0 <= j < i implies (tile_at(m, #[trigger] r[j].chunk_cursor.chunk_coord, r[j].chunk_cursor.local_pos) is Some) by {
        assert(r[j] == s[j]);
    }
}

/// Appending a well-formed builder keeps the list well formed and the first
/// `n` builders on their tiles.
proof fn lemma_builders_push(s: Seq<RoadBuilder>, x: RoadBuilder, n: int, origin: OvermapChunkCoords, m: Map<OvermapChunkCoords, OvermapChunk>)
    requires
        0 <= n <= s.len(),
        builders_wf(s, origin),
        builders_on_tiles(s, n, m),
        x.wf(origin),
    ensures
        builders_wf(s.push(x), origin),
        builders_on_tiles(s.push(x), n, m),
        ready_count(s.push(x)) == ready_count(s) + ready(x),
{
    let r = s.push(x);
    assert forall|j: int| 0 <= j < r.len() implies #[trigger] r[j].wf(origin) by {
        if j < s.len() { assert(r[j] == s[j]); }
    }
    assert forall|j: int| 0 <= j < n implies (tile_at(m, #[trigger] r[j].chunk_cursor.chunk_coord, r[j].chunk_cursor.local_pos) is Some) by {
        assert(r[j] == s[j]);
    }
    assert(r.drop_last() =~= s);
}

/// Counting the ready builders after a push onto a suffix.
proof fn lemma_ready_count_push_skip(s: Seq<RoadBuilder>, i: int, x: RoadBuilder)
    requires
        0 <= i <= s.len(),
    ensures
        ready_count(s.push(x).skip(i)) == ready_count(s.skip(i)) + ready(x),
{
    assert(s.push(x).skip(i) =~= s.skip(i).push(x));
    assert(s.skip(i).push(x).drop_last() =~= s.skip(i));
}

/// Every builder of `s` is well formed for a city whose chunk is `origin`.
pub open spec fn builders_wf(s: Seq<RoadBuilder>, origin: OvermapChunkCoords) -> bool {
    forall|j: int| 0 <= j < s.len() ==> #[trigger] s[j].wf(origin)
}

/// The first `n` builders of `s` stand on set tiles of `m`.
pub open spec fn builders_on_tiles(s: Seq<RoadBuilder>, n: int, m: Map<OvermapChunkCoords, OvermapChunk>) -> bool {
    forall|j: int| 0 <= j < n ==> (tile_at(m, #[trigger] s[j].chunk_cursor.chunk_coord, s[j].chunk_cursor.local_pos) is Some)
}

/// What the candidate bookkeeping holds: the id counter, the candidates by
/// id, and the candidate ids listed on each tile.
pub type CandidatesView = (usize, Map<usize, BuildingCandidate>, Map<(OvermapChunkCoords, IVec2), Seq<usize>>);

/// The candidates of `s` are stored under their own ids, below the counter,
/// on tiles inside their chunks, facing a road one step away.
pub open spec fn view_ok(s: CandidatesView) -> bool {
    forall|x: usize| #[trigger] s.1.contains_key(x) ==> {
        &&& x < s.0
        &&& s.1[x].id == x
        &&& local_in_chunk(s.1[x].position)
        &&& unit_cardinal(s.1[x].direction_to_road)
    }
}

/// The cell `p` holds a road in `m` but held none in `m0`.
pub open spec fn became_road(m0: Map<OvermapChunkCoords, OvermapChunk>, m: Map<OvermapChunkCoords, OvermapChunk>, p: (OvermapChunkCoords, IVec2)) -> bool {
    &&& local_in_chunk(p.1)
    &&& tile_at(m, p.0, p.1) == Some(OvermapTileType::Road)
    &&& tile_at(m0, p.0, p.1) != Some(OvermapTileType::Road)
}

/// Every tile that differs from `old` to `new` lies in a chunk of the
/// rectangle of chunks from `lo` to `hi`.
pub open spec fn changes_inside(
    old: Map<OvermapChunkCoords, OvermapChunk>,
    new: Map<OvermapChunkCoords, OvermapChunk>,
    lo: OvermapChunkCoords,
    hi: OvermapChunkCoords,
) -> bool {
    forall|k: OvermapChunkCoords, i: int|
        old.contains_key(k) && 0 <= i < old[k].overmap_tiles.len() && #[trigger] new[k].overmap_tiles@[i] != old[k].overmap_tiles@[i]
        ==> chunk_in_box(k, lo, hi)
}

/// Changes inside a rectangle of chunks chain.
proof fn lemma_changes_inside_trans(
    m0: Map<OvermapChunkCoords, OvermapChunk>,
    m1: Map<OvermapChunkCoords, OvermapChunk>,
    m2: Map<OvermapChunkCoords, OvermapChunk>,
    lo: OvermapChunkCoords,
    hi: OvermapChunkCoords,
)
    requires
        changes_inside(m0, m1, lo, hi),
        changes_inside(m1, m2, lo, hi),
        tiles_grow(m0, m1),
    ensures
        changes_inside(m0, m2, lo, hi),
{
    assert forall|k: OvermapChunkCoords, i: int|
        m0.contains_key(k) && 0 <= i < m0[k].overmap_tiles.len() && #[trigger] m2[k].overmap_tiles@[i] != m0[k].overmap_tiles@[i]
        implies chunk_in_box(k, lo, hi) by {
        assert(m1.contains_key(k));
        if m1[k].overmap_tiles@[i] != m0[k].overmap_tiles@[i] {
        } else {
            assert(m2[k].overmap_tiles@[i] != m1[k].overmap_tiles@[i]);
        }
    }
}

/// A change only under a cursor standing in a rectangle of chunks is a
/// change inside that rectangle.
proof fn lemma_changes_inside_cursor(
    m1: Map<OvermapChunkCoords, OvermapChunk>,
    m2: Map<OvermapChunkCoords, OvermapChunk>,
    c: ChunkCursor,
    lo: OvermapChunkCoords,
    hi: OvermapChunkCoords,
)
    requires
        changes_within(m1, m2, seq![c]),
        chunk_in_box(c.chunk_coord, lo, hi),
    ensures
        changes_inside(m1, m2, lo, hi),
{
    assert forall|k: OvermapChunkCoords, i: int|
        m1.contains_key(k) && 0 <= i < m1[k].overmap_tiles.len() && #[trigger] m2[k].overmap_tiles@[i] != m1[k].overmap_tiles@[i]
        implies chunk_in_box(k, lo, hi) by {
        assert(on_path(seq![c], k, i));
        let j = choose|j: int| #![trigger seq![c][j]] 0 <= j < 1 && seq![c][j].chunk_coord == k && tile_index(seq![c][j].local_pos) == i;
        assert(seq![c][j] == c);
    }
}

/// Changes inside a rectangle of chunks are inside any rectangle holding it.
proof fn lemma_changes_inside_widen(
    m0: Map<OvermapChunkCoords, OvermapChunk>,
    m1: Map<OvermapChunkCoords, OvermapChunk>,
    lo: OvermapChunkCoords,
    hi: OvermapChunkCoords,
    lo2: OvermapChunkCoords,
    hi2: OvermapChunkCoords,
)
    requires
        changes_inside(m0, m1, lo, hi),
        lo2.0.x <= lo.0.x,
        lo2.0.y <= lo.0.y,
        hi.0.x <= hi2.0.x,
        hi.0.y <= hi2.0.y,
    ensures
        changes_inside(m0, m1, lo2, hi2),
{
    assert forall|k: OvermapChunkCoords, i: int|
        m0.contains_key(k) && 0 <= i < m0[k].overmap_tiles.len() && #[trigger] m1[k].overmap_tiles@[i] != m0[k].overmap_tiles@[i]
        implies chunk_in_box(k, lo2, hi2) by {
        assert(chunk_in_box(k, lo, hi));
    }
}

/// Every candidate of `cands` is anchored on a tile of the rectangle of
/// chunks from `lo` to `hi` or one tile outside it.
pub open spec fn anchors_near(cands: Map<usize, BuildingCandidate>, lo: OvermapChunkCoords, hi: OvermapChunkCoords) -> bool {
    forall|x: usize| #[trigger] cands.contains_key(x) ==> {
        let g = global_of(cands[x].chunk_coord, cands[x].position);
        &&& lo.0.x * OVERMAP_CHUNK_SIZE - 1 <= g.0 <= (hi.0.x + 1) * OVERMAP_CHUNK_SIZE
        &&& lo.0.y * OVERMAP_CHUNK_SIZE - 1 <= g.1 <= (hi.0.y + 1) * OVERMAP_CHUNK_SIZE
    }
}

/// Looking to both sides of a builder standing in a rectangle of chunks adds
/// only candidates anchored next to it.
proof fn lemma_anchors_side_steps(
    s: CandidatesView,
    b: RoadBuilder,
    m: Map<OvermapChunkCoords, OvermapChunk>,
    lo: OvermapChunkCoords,
    hi: OvermapChunkCoords,
)
    requires
        anchors_near(s.1, lo, hi),
        b.chunk_cursor.placed(),
        global_in_box(b.chunk_cursor.global(), lo, hi),
        coord_within(b.chunk_cursor.chunk_coord, 2),
        unit_cardinal(b.direction),
    ensures
        anchors_near(side_steps(s, b, m, 2).1, lo, hi),
{
    let d0 = perpendiculars(b.direction)[0];
    let d1 = perpendiculars(b.direction)[1];
    lemma_can_look_around(b.chunk_cursor, d0, 2);
    lemma_can_look_around(b.chunk_cursor, d1, 2);
    lemma_shift_is_global_move(b.chunk_cursor, d0);
    lemma_shift_is_global_move(b.chunk_cursor, d1);
    assert(side_steps(s, b, m, 0) == s);
    let sa = side_step(s, b, m, d0);
    assert(side_steps(s, b, m, 1) == sa);
    let sb = side_step(sa, b, m, d1);
    assert(side_steps(s, b, m, 2) == sb);
    assert(anchors_near(sa.1, lo, hi));
    assert(anchors_near(sb.1, lo, hi));
}

/// A footprint tile of a candidate anchored near a rectangle of chunks lies
/// in the rectangle grown by one chunk on every side.
proof fn lemma_footprint_near(c: BuildingCandidate, q: int, lo: OvermapChunkCoords, hi: OvermapChunkCoords)
    requires
        local_in_chunk(c.position),
        unit_cardinal(c.direction_to_road),
        coord_within(c.chunk_coord, 3),
        coord_within(lo, 0),
        coord_within(hi, 0),
        0 <= q < footprint_len(c),
        lo.0.x * OVERMAP_CHUNK_SIZE - 1 <= global_of(c.chunk_coord, c.position).0 <= (hi.0.x + 1) * OVERMAP_CHUNK_SIZE,
        lo.0.y * OVERMAP_CHUNK_SIZE - 1 <= global_of(c.chunk_coord, c.position).1 <= (hi.0.y + 1) * OVERMAP_CHUNK_SIZE,
    ensures
        chunk_in_box(footprint_cell(c, q).0, square_lo(lo, 1), square_hi(hi, 1)),
{
    let d = footprint_of(c.shape, c.direction_to_road)[q];
    lemma_footprint_small(c.shape, c.direction_to_road);
    let cur = ChunkCursor { chunk_coord: c.chunk_coord, local_pos: c.position };
    lemma_can_look_around(cur, d, 3);
    lemma_shift_is_global_move(cur, d);
    let k = footprint_cell(c, q);
    assert(k == shifted(cur, d));
    assert(global_of(k.0, k.1) == (cur.global().0 + d.x, cur.global().1 + d.y));
}

/// The cursor standing on the cell `p`.
pub open spec fn cursor_at(p: (OvermapChunkCoords, IVec2)) -> ChunkCursor {
    ChunkCursor { chunk_coord: p.0, local_pos: p.1 }
}

/// The tile `e` away from the cell `p` is set in `m`, or `s` lists a
/// candidate on it.
pub open spec fn side_covered(m: Map<OvermapChunkCoords, OvermapChunk>, s: CandidatesView, p: (OvermapChunkCoords, IVec2), e: IVec2) -> bool {
    let q = shifted(cursor_at(p), e);
    tile_at(m, q.0, q.1) is Some || (s.2.contains_key(q) && s.2[q].len() > 0)
}

/// Both sides of a road through `p` along some unit direction are covered.
pub open spec fn sides_covered(m: Map<OvermapChunkCoords, OvermapChunk>, s: CandidatesView, p: (OvermapChunkCoords, IVec2)) -> bool {
    exists|d: IVec2| unit_cardinal(d) && #[trigger] side_covered(m, s, p, perpendiculars(d)[0])
        && side_covered(m, s, p, perpendiculars(d)[1])
}

/// Every cell that became a road from `m0` to `m` lost its occupancy list
/// and every candidate of `s0` listed on it.
pub open spec fn roads_cleared(
    m0: Map<OvermapChunkCoords, OvermapChunk>,
    m: Map<OvermapChunkCoords, OvermapChunk>,
    s0: CandidatesView,
    s: CandidatesView,
) -> bool {
    forall|p: (OvermapChunkCoords, IVec2)| #[trigger] became_road(m0, m, p) ==> {
        &&& !s.2.contains_key(p)
        &&& forall|x: usize| #[trigger] listed_at(s0.2, p, x) && s0.1.contains_key(x) ==> !s.1.contains_key(x)
    }
}

/// While ids remain, every cell that became a road from `m0` to `m` has a
/// set tile or a listed candidate on both sides of a road through it.
pub open spec fn road_sides_done(m0: Map<OvermapChunkCoords, OvermapChunk>, m: Map<OvermapChunkCoords, OvermapChunk>, s: CandidatesView) -> bool {
    forall|p: (OvermapChunkCoords, IVec2)| #[trigger] became_road(m0, m, p) && s.0 < usize::MAX ==> sides_covered(m, s, p)
}

/// The candidates of `s` that `s0` lacks are one by one candidates with new
/// ids, each on an unset tile of `m` next to a set tile that it faces, and
/// listed alone on its tile; the candidates of `s0` that remain are unchanged.
pub open spec fn new_candidates_beside_roads(m: Map<OvermapChunkCoords, OvermapChunk>, s0: CandidatesView, s: CandidatesView) -> bool {
    &&& s0.0 <= s.0
    &&& forall|x: usize| #[trigger] s.1.contains_key(x) && s0.1.contains_key(x) ==> s.1[x] == s0.1[x]
    &&& forall|x: usize| #[trigger] s.1.contains_key(x) && !s0.1.contains_key(x) ==> {
        let n = s.1[x];
        &&& s0.0 <= x < s.0
        &&& n.shape == BuildingShape::OneByOne
        &&& tile_at(m, n.chunk_coord, n.position) is None
        &&& set_at_global(m, (global_of(n.chunk_coord, n.position).0 + n.direction_to_road.x,
                global_of(n.chunk_coord, n.position).1 + n.direction_to_road.y))
        &&& s.2.contains_key((n.chunk_coord, n.position))
        &&& s.2[(n.chunk_coord, n.position)] == seq![x]
    }
}

/// Each nonempty list of `s0` is still in `s`, or it was dropped, together
/// with the candidates of `s0` it listed, from a tile now set in `m`.
pub open spec fn old_lists_tracked(m: Map<OvermapChunkCoords, OvermapChunk>, s0: CandidatesView, s: CandidatesView) -> bool {
    forall|p: (OvermapChunkCoords, IVec2)| #[trigger] s0.2.contains_key(p) && s0.2[p].len() > 0 ==> {
        ||| s.2.contains_key(p) && s.2[p] == s0.2[p]
        ||| local_in_chunk(p.1) && tile_at(m, p.0, p.1) is Some && !s.2.contains_key(p)
            && forall|x: usize| #[trigger] listed_at(s0.2, p, x) && s0.1.contains_key(x) ==> !s.1.contains_key(x)
    }
}

/// The candidate bookkeeping followed the roads laid from `m0` to `m`.
pub open spec fn candidates_track(
    m0: Map<OvermapChunkCoords, OvermapChunk>,
    m: Map<OvermapChunkCoords, OvermapChunk>,
    s0: CandidatesView,
    s: CandidatesView,
) -> bool {
    &&& roads_cleared(m0, m, s0, s)
    &&& road_sides_done(m0, m, s)
    &&& new_candidates_beside_roads(m, s0, s)
    &&& old_lists_tracked(m, s0, s)
}

/// Before anything happened, the bookkeeping trivially followed the roads.
proof fn lemma_candidates_track_refl(m: Map<OvermapChunkCoords, OvermapChunk>, s: CandidatesView)
    ensures
        candidates_track(m, m, s, s),
{
}

/// Laying a road on the cursor's tile and then clearing the candidates listed
/// there keeps the bookkeeping following the roads, but for the sides of
/// that tile.
proof fn lemma_track_lay_clear(
    m0: Map<OvermapChunkCoords, OvermapChunk>,
    m1: Map<OvermapChunkCoords, OvermapChunk>,
    m2: Map<OvermapChunkCoords, OvermapChunk>,
    s0: CandidatesView,
    s1: CandidatesView,
    s2: CandidatesView,
    c: ChunkCursor,
)
    requires
        candidates_track(m0, m1, s0, s1),
        view_ok(s0),
        view_ok(s1),
        c.placed(),
        map_wf(m1),
        tiles_grow(m1, m2),
        only_tiles_change(m1, m2),
        changes_within(m1, m2, seq![c]),
        tile_at(m2, c.chunk_coord, c.local_pos) is Some,
        s2.0 == s1.0,
        s2.2 == s1.2.remove((c.chunk_coord, c.local_pos)),
        forall|x: usize| #[trigger] s2.1.contains_key(x) ==> s1.1.contains_key(x) && s2.1[x] == s1.1[x],
        forall|x: usize| #[trigger] listed_at(s1.2, (c.chunk_coord, c.local_pos), x) ==> !s2.1.contains_key(x),
    ensures
        roads_cleared(m0, m2, s0, s2),
        forall|p: (OvermapChunkCoords, IVec2)| #[trigger] became_road(m0, m2, p) && s2.0 < usize::MAX
            && p != (c.chunk_coord, c.local_pos) ==> sides_covered(m2, s2, p),
        new_candidates_beside_roads(m2, s0, s2),
        old_lists_tracked(m2, s0, s2),
        view_ok(s2),
{
    let key = (c.chunk_coord, c.local_pos);
    // A tile other than the cursor's is the same in `m1` and `m2`.
    assert forall|p: (OvermapChunkCoords, IVec2)| local_in_chunk(p.1) && p != key
        implies #[trigger] tile_at(m2, p.0, p.1) == tile_at(m1, p.0, p.1) by {
        if m1.contains_key(p.0) {
            assert(chunk_wf(p.0, m1[p.0]));
            let i = tile_index(p.1);
            if m2[p.0].overmap_tiles@[i] != m1[p.0].overmap_tiles@[i] {
                assert(on_path(seq![c], p.0, i));
                let j = choose|j: int| #![trigger seq![c][j]] 0 <= j < 1 && seq![c][j].chunk_coord == p.0 && tile_index(seq![c][j].local_pos) == i;
                assert(seq![c][j] == c);
            }
        }
    }
    assert forall|p: (OvermapChunkCoords, IVec2)| #[trigger] became_road(m0, m2, p) implies {
        &&& !s2.2.contains_key(p)
        &&& forall|x: usize| #[trigger] listed_at(s0.2, p, x) && s0.1.contains_key(x) ==> !s2.1.contains_key(x)
    } by {
        if p == key {
            assert forall|x: usize| #[trigger] listed_at(s0.2, p, x) && s0.1.contains_key(x) implies !s2.1.contains_key(x) by {
                assert(s0.2[p].len() > 0);
                if s1.2.contains_key(p) && s1.2[p] == s0.2[p] {
                    assert(listed_at(s1.2, key, x));
                }
            }
        } else {
            assert(tile_at(m2, p.0, p.1) == tile_at(m1, p.0, p.1));
            assert(became_road(m0, m1, p));
        }
    }
    assert forall|p: (OvermapChunkCoords, IVec2)| #[trigger] became_road(m0, m2, p) && s2.0 < usize::MAX
        && p != key implies sides_covered(m2, s2, p) by {
        assert(tile_at(m2, p.0, p.1) == tile_at(m1, p.0, p.1));
        assert(became_road(m0, m1, p));
        assert(sides_covered(m1, s1, p));
        let d = choose|d: IVec2| unit_cardinal(d) && #[trigger] side_covered(m1, s1, p, perpendiculars(d)[0])
            && side_covered(m1, s1, p, perpendiculars(d)[1]);
        assert forall|e: IVec2| #[trigger] side_covered(m1, s1, p, e) implies side_covered(m2, s2, p, e) by {
            let q = shifted(cursor_at(p), e);
            if tile_at(m1, q.0, q.1) is Some {
                assert(m1.contains_key(q.0));
                lemma_tile_stays_set_any(m1, m2, q.0, q.1);
            } else if q == key {
            } else {
            }
        }
        assert(side_covered(m2, s2, p, perpendiculars(d)[0]));
        assert(side_covered(m2, s2, p, perpendiculars(d)[1]));
    }
    assert forall|x: usize| #[trigger] s2.1.contains_key(x) && !s0.1.contains_key(x) implies {
        let n = s2.1[x];
        &&& s0.0 <= x < s2.0
        &&& n.shape == BuildingShape::OneByOne
        &&& tile_at(m2, n.chunk_coord, n.position) is None
        &&& set_at_global(m2, (global_of(n.chunk_coord, n.position).0 + n.direction_to_road.x,
                global_of(n.chunk_coord, n.position).1 + n.direction_to_road.y))
        &&& s2.2.contains_key((n.chunk_coord, n.position))
        &&& s2.2[(n.chunk_coord, n.position)] == seq![x]
    } by {
        let n = s2.1[x];
        assert(s1.1.contains_key(x));
        let cell = (n.chunk_coord, n.position);
        if cell == key {
            assert(s1.2[key] == seq![x]);
            assert(seq![x][0] == x);
            assert(listed_at(s1.2, key, x));
        }
        assert(tile_at(m2, cell.0, cell.1) == tile_at(m1, cell.0, cell.1));
        lemma_set_at_global_grows(m1, m2, (global_of(n.chunk_coord, n.position).0 + n.direction_to_road.x,
            global_of(n.chunk_coord, n.position).1 + n.direction_to_road.y));
    }
    assert forall|p: (OvermapChunkCoords, IVec2)| #[trigger] s0.2.contains_key(p) && s0.2[p].len() > 0 implies {
        ||| s2.2.contains_key(p) && s2.2[p] == s0.2[p]
        ||| local_in_chunk(p.1) && tile_at(m2, p.0, p.1) is Some && !s2.2.contains_key(p)
            && forall|x: usize| #[trigger] listed_at(s0.2, p, x) && s0.1.contains_key(x) ==> !s2.1.contains_key(x)
    } by {
        if p == key {
            assert forall|x: usize| #[trigger] listed_at(s0.2, p, x) && s0.1.contains_key(x) implies !s2.1.contains_key(x) by {
                if s1.2.contains_key(p) && s1.2[p] == s0.2[p] {
                    assert(listed_at(s1.2, key, x));
                }
            }
        } else if !(s1.2.contains_key(p) && s1.2[p] == s0.2[p]) {
            assert(tile_at(m1, p.0, p.1) is Some);
            assert(m1.contains_key(p.0));
            lemma_tile_stays_set_any(m1, m2, p.0, p.1);
        }
    }
}

/// While ids remain, every cell but `key` that became a road from `m0` to `m`
/// has both sides of a road through it covered.
pub open spec fn road_sides_done_but(
    m0: Map<OvermapChunkCoords, OvermapChunk>,
    m: Map<OvermapChunkCoords, OvermapChunk>,
    s: CandidatesView,
    key: (OvermapChunkCoords, IVec2),
) -> bool {
    forall|p: (OvermapChunkCoords, IVec2)| #[trigger] became_road(m0, m, p) && s.0 < usize::MAX && p != key
        ==> sides_covered(m, s, p)
}

/// Looking to one side of a builder on a set tile keeps the bookkeeping
/// following the roads, keeps every covered side covered, and, while ids
/// remain, covers the tile looked at.
proof fn lemma_track_side_step(
    m0: Map<OvermapChunkCoords, OvermapChunk>,
    m: Map<OvermapChunkCoords, OvermapChunk>,
    s0: CandidatesView,
    s: CandidatesView,
    b: RoadBuilder,
    dir: IVec2,
)
    requires
        roads_cleared(m0, m, s0, s),
        new_candidates_beside_roads(m, s0, s),
        old_lists_tracked(m, s0, s),
        view_ok(s0),
        view_ok(s),
        road_sides_done_but(m0, m, s, (b.chunk_cursor.chunk_coord, b.chunk_cursor.local_pos)),
        b.chunk_cursor.placed(),
        can_shift(b.chunk_cursor, dir),
        unit_cardinal(dir),
        tile_at(m, b.chunk_cursor.chunk_coord, b.chunk_cursor.local_pos) is Some,
    ensures
        roads_cleared(m0, m, s0, side_step(s, b, m, dir)),
        new_candidates_beside_roads(m, s0, side_step(s, b, m, dir)),
        old_lists_tracked(m, s0, side_step(s, b, m, dir)),
        view_ok(side_step(s, b, m, dir)),
        road_sides_done_but(m0, m, side_step(s, b, m, dir), (b.chunk_cursor.chunk_coord, b.chunk_cursor.local_pos)),
        s.0 <= side_step(s, b, m, dir).0,
        forall|p: (OvermapChunkCoords, IVec2), e: IVec2| #[trigger] side_covered(m, s, p, e)
            ==> side_covered(m, side_step(s, b, m, dir), p, e),
        side_step(s, b, m, dir).0 < usize::MAX
            ==> side_covered(m, side_step(s, b, m, dir), (b.chunk_cursor.chunk_coord, b.chunk_cursor.local_pos), dir),
{
    let key = (b.chunk_cursor.chunk_coord, b.chunk_cursor.local_pos);
    let q = shifted(b.chunk_cursor, dir);
    let s2 = side_step(s, b, m, dir);
    assert(cursor_at(key) == b.chunk_cursor);
    lemma_shift_is_global_move(b.chunk_cursor, dir);
    if tile_at(m, q.0, q.1) is Some || (s.2.contains_key(q) && s.2[q].len() > 0) || s.0 == usize::MAX {
        assert(s2 == s);
    } else {
        let id = s.0;
        let n = BuildingCandidate {
            id,
            position: q.1,
            chunk_coord: q.0,
            direction_to_road: IVec2 { x: (-dir.x) as i32, y: (-dir.y) as i32 },
            shape: BuildingShape::OneByOne,
        };
        assert(s2.1 == s.1.insert(id, n));
        assert(s2.2 == s.2.insert(q, seq![id]));
        assert(s2.0 == id + 1);
        assert(!s.1.contains_key(id));
        lemma_set_under_cursor(m, b.chunk_cursor);
        assert forall|x: usize| #[trigger] s2.1.contains_key(x) && !s0.1.contains_key(x) implies {
            let nn = s2.1[x];
            &&& s0.0 <= x < s2.0
            &&& nn.shape == BuildingShape::OneByOne
            &&& tile_at(m, nn.chunk_coord, nn.position) is None
            &&& set_at_global(m, (global_of(nn.chunk_coord, nn.position).0 + nn.direction_to_road.x,
                    global_of(nn.chunk_coord, nn.position).1 + nn.direction_to_road.y))
            &&& s2.2.contains_key((nn.chunk_coord, nn.position))
            &&& s2.2[(nn.chunk_coord, nn.position)] == seq![x]
        } by {
            if x == id {
                assert(s2.1[x] == n);
                assert((global_of(n.chunk_coord, n.position).0 + n.direction_to_road.x,
                    global_of(n.chunk_coord, n.position).1 + n.direction_to_road.y) == b.chunk_cursor.global());
            } else {
                let nn = s.1[x];
                assert(s.2[(nn.chunk_coord, nn.position)] == seq![x]);
                assert(seq![x].len() > 0);
                assert((nn.chunk_coord, nn.position) != q);
            }
        }
        assert forall|x: usize| #[trigger] s2.1.contains_key(x) && s0.1.contains_key(x) implies s2.1[x] == s0.1[x] by {
            assert(x < s0.0);
        }
        assert forall|p: (OvermapChunkCoords, IVec2)| #[trigger] became_road(m0, m, p) implies {
            &&& !s2.2.contains_key(p)
            &&& forall|x: usize| #[trigger] listed_at(s0.2, p, x) && s0.1.contains_key(x) ==> !s2.1.contains_key(x)
        } by {
            assert(p != q);
            assert forall|x: usize| #[trigger] listed_at(s0.2, p, x) && s0.1.contains_key(x) implies !s2.1.contains_key(x) by {
                assert(x < s0.0);
            }
        }
        assert forall|p: (OvermapChunkCoords, IVec2)| #[trigger] s0.2.contains_key(p) && s0.2[p].len() > 0 implies {
            ||| s2.2.contains_key(p) && s2.2[p] == s0.2[p]
            ||| local_in_chunk(p.1) && tile_at(m, p.0, p.1) is Some && !s2.2.contains_key(p)
                && forall|x: usize| #[trigger] listed_at(s0.2, p, x) && s0.1.contains_key(x) ==> !s2.1.contains_key(x)
        } by {
            assert(p != q);
            assert forall|x: usize| #[trigger] listed_at(s0.2, p, x) && s0.1.contains_key(x) && !s.1.contains_key(x)
                implies !s2.1.contains_key(x) by {
                assert(x < s0.0);
            }
        }
        assert forall|p: (OvermapChunkCoords, IVec2), e: IVec2| #[trigger] side_covered(m, s, p, e)
            implies side_covered(m, s2, p, e) by {
            let qq = shifted(cursor_at(p), e);
            if !(tile_at(m, qq.0, qq.1) is Some) {
                assert(qq != q);
            }
        }
        assert forall|p: (OvermapChunkCoords, IVec2)| #[trigger] became_road(m0, m, p) && s2.0 < usize::MAX && p != key
            implies sides_covered(m, s2, p) by {
            assert(sides_covered(m, s, p));
            let d = choose|d: IVec2| unit_cardinal(d) && #[trigger] side_covered(m, s, p, perpendiculars(d)[0])
                && side_covered(m, s, p, perpendiculars(d)[1]);
            assert(side_covered(m, s2, p, perpendiculars(d)[0]));
            assert(side_covered(m, s2, p, perpendiculars(d)[1]));
        }
        assert(side_covered(m, s2, key, dir));
    }
}

/// Looking to both sides of a builder on its freshly laid tile leaves the
/// bookkeeping following the roads.
proof fn lemma_track_sides(
    m0: Map<OvermapChunkCoords, OvermapChunk>,
    m: Map<OvermapChunkCoords, OvermapChunk>,
    s0: CandidatesView,
    s: CandidatesView,
    b: RoadBuilder,
)
    requires
        roads_cleared(m0, m, s0, s),
        new_candidates_beside_roads(m, s0, s),
        old_lists_tracked(m, s0, s),
        view_ok(s0),
        view_ok(s),
        road_sides_done_but(m0, m, s, (b.chunk_cursor.chunk_coord, b.chunk_cursor.local_pos)),
        b.chunk_cursor.placed(),
        coord_within(b.chunk_cursor.chunk_coord, 2),
        unit_cardinal(b.direction),
        tile_at(m, b.chunk_cursor.chunk_coord, b.chunk_cursor.local_pos) is Some,
    ensures
        candidates_track(m0, m, s0, side_steps(s, b, m, 2)),
        view_ok(side_steps(s, b, m, 2)),
{
    let key = (b.chunk_cursor.chunk_coord, b.chunk_cursor.local_pos);
    let d0 = perpendiculars(b.direction)[0];
    let d1 = perpendiculars(b.direction)[1];
    lemma_can_look_around(b.chunk_cursor, d0, 2);
    lemma_can_look_around(b.chunk_cursor, d1, 2);
    assert(side_steps(s, b, m, 0) == s);
    let sa = side_step(s, b, m, d0);
    assert(side_steps(s, b, m, 1) == sa);
    let sb = side_step(sa, b, m, d1);
    assert(side_steps(s, b, m, 2) == sb);
    lemma_track_side_step(m0, m, s0, s, b, d0);
    lemma_track_side_step(m0, m, s0, sa, b, d1);
    assert(cursor_at(key) == b.chunk_cursor);
    assert forall|p: (OvermapChunkCoords, IVec2)| #[trigger] became_road(m0, m, p) && sb.0 < usize::MAX
        implies sides_covered(m, sb, p) by {
        if p == key {
            assert(side_covered(m, sa, key, d0));
            assert(side_covered(m, sb, key, d0));
            assert(side_covered(m, sb, key, d1));
        }
    }
}

/// A set tile stays set as the map grows, wherever it lies.
proof fn lemma_tile_stays_set_any(
    m1: Map<OvermapChunkCoords, OvermapChunk>,
    m2: Map<OvermapChunkCoords, OvermapChunk>,
    chunk: OvermapChunkCoords,
    pos: IVec2,
)
    requires
        tiles_grow(m1, m2),
        chunks_wf(m1),
        local_in_chunk(pos),
        tile_at(m1, chunk, pos) is Some,
    ensures
        tile_at(m2, chunk, pos) is Some,
{
    lemma_tile_stays_set(m1, m2, chunk, pos);
}

/// The tile at the overmap-wide position `g` is set in `m`.
pub open spec fn set_at_global(m: Map<OvermapChunkCoords, OvermapChunk>, g: (int, int)) -> bool {
    tile_at(m, cell_of(g).0, cell_of(g).1) is Some
}

/// The overmap-wide position one step ahead of the builder `b`.
pub open spec fn stepped_global(b: RoadBuilder) -> (int, int) {
    (b.chunk_cursor.global().0 + b.direction.x, b.chunk_cursor.global().1 + b.direction.y)
}

/// The tile one step ahead of the builder `b` lies in the chunks within one
/// chunk of `origin`.
pub open spec fn step_in_block(b: RoadBuilder, origin: OvermapChunkCoords) -> bool {
    global_in_box(stepped_global(b), square_lo(origin, 1), square_hi(origin, 1))
}

/// The builder `b` after an uneventful move: one tile ahead, with one more
/// move since it last split.
pub open spec fn advanced(b: RoadBuilder) -> RoadBuilder {
    RoadBuilder {
        chunk_cursor: ChunkCursor { chunk_coord: cell_of(stepped_global(b)).0, local_pos: cell_of(stepped_global(b)).1 },
        origin_chunk: b.origin_chunk,
        direction: b.direction,
        generation: b.generation,
        action_probabilities: b.action_probabilities,
        cumulative_action_weights: b.cumulative_action_weights,
        moves_since_split: (b.moves_since_split + 1) as i32,
    }
}

/// The builder `b` of `city` moves on undisturbed: it is of the first
/// generation, has moved fewer than two tiles since it last split, steps
/// within the chunks around the city, and `stop_probability` gives no chance
/// of stopping at the distance from the centre that it reaches.
pub open spec fn keeps_going<F: Fn(u32, i32) -> i32>(b: RoadBuilder, city: City, stop_probability: &F) -> bool {
    &&& b.generation == 0
    &&& b.moves_since_split < RoadBuilder::MOVES_BEFORE_SPLIT
    &&& step_in_block(b, city.overmap_chunk_coordinate)
    &&& forall|p: i32| #[trigger] stop_probability.ensures((distance_to_city(advanced(b), city) as u32, city.size), p) ==> p <= 0
}

/// The builder `b` is dropped on its next step in `m` before it lays
/// anything: the step leaves the chunks around `origin`, or it runs onto or
/// alongside a road.
pub open spec fn halts_at_once(b: RoadBuilder, m: Map<OvermapChunkCoords, OvermapChunk>, origin: OvermapChunkCoords) -> bool {
    !step_in_block(b, origin) || blocked(advanced(b), m)
}

/// A placed builder standing one tile ahead of `b0` stands where
/// `advanced(b0)` does, and within the chunks around `origin` when that step
/// lies there.
pub proof fn lemma_advanced_cursor(b0: RoadBuilder, b1: RoadBuilder, origin: OvermapChunkCoords)
    requires
        b1.chunk_cursor.placed(),
        b1.chunk_cursor.global() == stepped_global(b0),
        coord_within(origin, 0),
    ensures
        b1.chunk_cursor == advanced(b0).chunk_cursor,
        step_in_block(b0, origin) ==> chunk_distance(b1.chunk_cursor.chunk_coord, origin) <= 1,
{
    lemma_cursor_cell(b1.chunk_cursor);
    let c = b1.chunk_cursor;
    let n = OVERMAP_CHUNK_SIZE as int;
    if step_in_block(b0, origin) {
        let lo = square_lo(origin, 1);
        let hi = square_hi(origin, 1);
        let g = c.global();
        assert(g.0 == c.chunk_coord.0.x * n + c.local_pos.x);
        assert(g.1 == c.chunk_coord.0.y * n + c.local_pos.y);
        assert(lo.0.x <= c.chunk_coord.0.x <= hi.0.x) by (nonlinear_arith)
            requires
                lo.0.x * n <= g.0 < (hi.0.x + 1) * n,
                g.0 == c.chunk_coord.0.x * n + c.local_pos.x,
                0 <= c.local_pos.x < n,
                n == 128,
        ;
        assert(lo.0.y <= c.chunk_coord.0.y <= hi.0.y) by (nonlinear_arith)
            requires
                lo.0.y * n <= g.1 < (hi.0.y + 1) * n,
                g.1 == c.chunk_coord.0.y * n + c.local_pos.y,
                0 <= c.local_pos.y < n,
                n == 128,
        ;
    }
}

/// Of the first `n` builders of `s`, each of the first generation whose next
/// tile lies in the chunks within one chunk of `origin` has that tile set in
/// `m`.
pub open spec fn first_steps_laid(s: Seq<RoadBuilder>, n: int, origin: OvermapChunkCoords, m: Map<OvermapChunkCoords, OvermapChunk>) -> bool {
    forall|k: int| #![trigger s[k]] 0 <= k < n && s[k].generation == 0 && step_in_block(s[k], origin)
        ==> set_at_global(m, stepped_global(s[k]))
}

/// A set tile stays set as the map grows.
proof fn lemma_set_at_global_grows(m1: Map<OvermapChunkCoords, OvermapChunk>, m2: Map<OvermapChunkCoords, OvermapChunk>, g: (int, int))
    requires
        tiles_grow(m1, m2),
        chunks_wf(m1),
        set_at_global(m1, g),
    ensures
        set_at_global(m2, g),
{
    let n = OVERMAP_CHUNK_SIZE as int;
    assert(0 <= g.0 % n < n);
    assert(0 <= g.1 % n < n);
    lemma_tile_stays_set(m1, m2, cell_of(g).0, cell_of(g).1);
}

/// The builders' first steps stay laid as the map grows.
proof fn lemma_first_steps_grow(
    s: Seq<RoadBuilder>,
    n: int,
    origin: OvermapChunkCoords,
    m1: Map<OvermapChunkCoords, OvermapChunk>,
    m2: Map<OvermapChunkCoords, OvermapChunk>,
)
    requires
        first_steps_laid(s, n, origin, m1),
        tiles_grow(m1, m2),
        chunks_wf(m1),
    ensures
        first_steps_laid(s, n, origin, m2),
{
    assert forall|k: int| #![trigger s[k]] 0 <= k < n && s[k].generation == 0 && step_in_block(s[k], origin)
        implies set_at_global(m2, stepped_global(s[k])) by {
        lemma_set_at_global_grows(m1, m2, stepped_global(s[k]));
    }
}

/// The tile under a placed cursor is the tile at its overmap-wide position.
proof fn lemma_set_under_cursor(m: Map<OvermapChunkCoords, OvermapChunk>, c: ChunkCursor)
    requires
        c.placed(),
        tile_at(m, c.chunk_coord, c.local_pos) is Some,
    ensures
        set_at_global(m, c.global()),
{
    lemma_cursor_cell(c);
    assert(cell_of(c.global()).0 == c.chunk_coord);
    assert(cell_of(c.global()).1 == c.local_pos);
}

/// The builders of `s_init` not yet handled, from number `done` on, stand in
/// order in `s` from index `i` on.
pub open spec fn pending_at(s: Seq<RoadBuilder>, i: int, s_init: Seq<RoadBuilder>, done: int) -> bool {
    &&& 0 <= done <= s_init.len()
    &&& 0 <= i
    &&& i + (s_init.len() - done) <= s.len()
    &&& forall|j: int| i <= j < i + (s_init.len() - done) ==> #[trigger] s[j] == s_init[j - i + done]
}

/// The count of handled builders of `s_init` once the builder at the current
/// index is handled: it grows while that builder is one of `s_init`.
pub open spec fn next_done(s_init: Seq<RoadBuilder>, done: int) -> int {
    if done < s_init.len() { done + 1 } else { done }
}

/// Handling the builder at index `i`, whether it stays there or is removed,
/// leaves the pending builders in order after it.
proof fn lemma_pending_step(s0: Seq<RoadBuilder>, sx: Seq<RoadBuilder>, i: int, s_init: Seq<RoadBuilder>, done: int)
    requires
        pending_at(s0, i, s_init, done),
        i < s0.len(),
        sx.len() >= s0.len(),
        forall|j: int| i < j < s0.len() ==> sx[j] == s0[j],
    ensures
        pending_at(sx, i + 1, s_init, next_done(s_init, done)),
        pending_at(sx.remove(i), i, s_init, next_done(s_init, done)),
        done < s_init.len() ==> s0[i] == s_init[done],
{
    let d2 = next_done(s_init, done);
    if done < s_init.len() {
        assert(s0[i] == s_init[i - i + done]);
    }
    assert forall|j: int| i + 1 <= j < i + 1 + (s_init.len() - d2) implies #[trigger] sx[j] == s_init[j - (i + 1) + d2] by {
        assert(s0[j] == s_init[j - i + done]);
    }
    let r = sx.remove(i);
    assert forall|j: int| i <= j < i + (s_init.len() - d2) implies #[trigger] r[j] == s_init[j - i + d2] by {
        assert(r[j] == sx[j + 1]);
        assert(s0[j + 1] == s_init[j + 1 - i + done]);
    }
}

/// The first steps of the handled builders stay laid when one more is
/// handled whose first step, if it has one, is laid.
proof fn lemma_first_steps_extend(s_init: Seq<RoadBuilder>, done: int, origin: OvermapChunkCoords, m: Map<OvermapChunkCoords, OvermapChunk>)
    requires
        first_steps_laid(s_init, done, origin, m),
        0 <= done,
        done < s_init.len() && s_init[done].generation == 0 && step_in_block(s_init[done], origin)
            ==> set_at_global(m, stepped_global(s_init[done])),
    ensures
        first_steps_laid(s_init, next_done(s_init, done), origin, m),
{
}

/// The city is a well-formed city of its chunk, within the coordinate bound.
pub open spec fn city_ok(city: City) -> bool {
    &&& city_wf(city.overmap_chunk_coordinate, city.id, city)
    &&& coord_within(city.overmap_chunk_coordinate, 0)
}

/// After the builder at `i` of `s1` took `action`, giving `sn`, the builders
/// stay well formed, those before the next index stand on set tiles, the
/// pending builders follow in order, and fewer builders are ready to split
/// from the next index on.
proof fn lemma_action_step(
    s0: Seq<RoadBuilder>,
    s1: Seq<RoadBuilder>,
    sn: Seq<RoadBuilder>,
    i: int,
    action: RoadBuilderAction,
    dir: i32,
    origin: OvermapChunkCoords,
    m: Map<OvermapChunkCoords, OvermapChunk>,
    s_init: Seq<RoadBuilder>,
    done: int,
)
    requires
        acted_on(s1, sn, i, action, dir),
        0 <= i < s1.len(),
        s1.len() == s0.len(),
        builders_wf(s1, origin),
        builders_on_tiles(s1, i + 1, m),
        forall|j: int| 0 <= j < s1.len() && j != i ==> s1[j] == s0[j],
        pending_at(s0, i, s_init, done),
        ready(s0[i]) == 1,
        ready(s1[i]) == 1,
    ensures
        builders_wf(sn, origin),
        builders_on_tiles(sn, if action_keeps(action) { i + 1 } else { i }, m),
        pending_at(sn, if action_keeps(action) { i + 1 } else { i }, s_init, next_done(s_init, done)),
        ready_count(sn.skip(if action_keeps(action) { i + 1 } else { i })) < ready_count(s0.skip(i)),
        ready_count(sn.skip(if action_keeps(action) { i + 1 } else { i })) >= 0,
{
    lemma_ready_count_front(s0[i], sn.skip(if action_keeps(action) { i + 1 } else { i }));
    lemma_ready_count_skip(s0, i);
    lemma_ready_count_skip(s1, i);
    assert(s1.skip(i + 1) =~= s0.skip(i + 1));
    match action {
        RoadBuilderAction::Continue => {
            assert(sn =~= s1);
            lemma_pending_step(s0, sn, i as int, s_init, done);
        },
        RoadBuilderAction::SplitOnce => {
            let child = sn[s1.len() - 1];
            let p = s1.push(child);
            assert(child_of(s1[i as int], action_sides(action, dir)[0], sn[kept_after(s1, i as int, action).len() as int + 0]));
            let kept = kept_after(s1, i, action);
            assert forall|j: int| 0 <= j < sn.len() implies sn[j] == p.remove(i)[j] by {
                if j < kept.len() {
                    assert(sn[j] == sn.take(kept.len() as int)[j]);
                }
            }
            assert(sn =~= p.remove(i as int));
            lemma_child_wf(s1[i as int], dir, child, origin);
            lemma_builders_push(s1, child, i as int, origin, m);
            lemma_builders_remove(p, i as int, origin, m);
            lemma_ready_count_push_skip(s1, i + 1, child);
            lemma_pending_step(s0, p, i as int, s_init, done);
        },
        RoadBuilderAction::SplitOnceAndContinue => {
            let child = sn[s1.len() as int];
            let s2 = s1.push(child);
            assert(child_of(s1[i as int], action_sides(action, dir)[0], sn[kept_after(s1, i as int, action).len() as int + 0]));
            let kept = kept_after(s1, i, action);
            assert forall|j: int| 0 <= j < sn.len() implies sn[j] == s2.update(i, reset_moves(s1[i]))[j] by {
                if j < kept.len() {
                    assert(sn[j] == sn.take(kept.len() as int)[j]);
                }
            }
            assert(sn =~= s2.update(i as int, reset_moves(s1[i as int])));
            lemma_child_wf(s1[i as int], dir, child, origin);
            lemma_builders_push(s1, child, i as int, origin, m);
            lemma_ready_count_push_skip(s1, i + 1, child);
            assert(sn.skip(i + 1) =~= s2.skip(i + 1));
            assert forall|j: int| 0 <= j < sn.len() implies #[trigger] sn[j].wf(origin) by {
                if j != i { assert(sn[j] == s2[j]); } else { assert(s1[i].wf(origin)); }
            }
            assert forall|j: int| 0 <= j < i + 1 implies (tile_at(m, #[trigger] sn[j].chunk_cursor.chunk_coord, sn[j].chunk_cursor.local_pos) is Some) by {
                if j < i { assert(sn[j] == s2[j]); }
            }
            lemma_pending_step(s0, sn, i as int, s_init, done);
        },
        RoadBuilderAction::SplitTwice => {
            let c0 = sn[s1.len() - 1];
            let c1 = sn[s1.len() as int];
            let s2 = s1.push(c0);
            let s3 = s2.push(c1);
            assert(child_of(s1[i as int], action_sides(action, dir)[0], sn[kept_after(s1, i as int, action).len() as int + 0]));
            assert(child_of(s1[i as int], action_sides(action, dir)[1], sn[kept_after(s1, i as int, action).len() as int + 1]));
            let kept = kept_after(s1, i, action);
            assert forall|j: int| 0 <= j < sn.len() implies sn[j] == s3.remove(i)[j] by {
                if j < kept.len() {
                    assert(sn[j] == sn.take(kept.len() as int)[j]);
                }
            }
            assert(sn =~= s3.remove(i as int));
            lemma_child_wf(s1[i as int], 0, c0, origin);
            lemma_builders_push(s1, c0, i as int, origin, m);
            lemma_ready_count_push_skip(s1, i + 1, c0);
            lemma_child_wf(s2[i as int], 1, c1, origin);
            lemma_builders_push(s2, c1, i as int, origin, m);
            lemma_ready_count_push_skip(s2, i + 1, c1);
            lemma_builders_remove(s3, i as int, origin, m);
            lemma_pending_step(s0, s3, i as int, s_init, done);
        },
        RoadBuilderAction::SplitTwiceAndContinue => {
            let c0 = sn[s1.len() as int];
            let c1 = sn[s1.len() as int + 1];
            let s2 = s1.push(c0);
            let s3 = s2.push(c1);
            assert(child_of(s1[i as int], action_sides(action, dir)[0], sn[kept_after(s1, i as int, action).len() as int + 0]));
            assert(child_of(s1[i as int], action_sides(action, dir)[1], sn[kept_after(s1, i as int, action).len() as int + 1]));
            let kept = kept_after(s1, i, action);
            assert forall|j: int| 0 <= j < sn.len() implies sn[j] == s3.update(i, reset_moves(s1[i]))[j] by {
                if j < kept.len() {
                    assert(sn[j] == sn.take(kept.len() as int)[j]);
                }
            }
            assert(sn =~= s3.update(i as int, reset_moves(s1[i as int])));
            lemma_child_wf(s1[i as int], 0, c0, origin);
            lemma_builders_push(s1, c0, i as int, origin, m);
            lemma_ready_count_push_skip(s1, i + 1, c0);
            lemma_child_wf(s2[i as int], 1, c1, origin);
            lemma_builders_push(s2, c1, i as int, origin, m);
            lemma_ready_count_push_skip(s2, i + 1, c1);
            assert(sn.skip(i + 1) =~= s3.skip(i + 1));
            assert forall|j: int| 0 <= j < sn.len() implies #[trigger] sn[j].wf(origin) by {
                if j != i { assert(sn[j] == s3[j]); } else { assert(s1[i].wf(origin)); }
            }
            assert forall|j: int| 0 <= j < i + 1 implies (tile_at(m, #[trigger] sn[j].chunk_cursor.chunk_coord, sn[j].chunk_cursor.local_pos) is Some) by {
                if j < i { assert(sn[j] == s3[j]); }
            }
            lemma_pending_step(s0, sn, i as int, s_init, done);
        },
    }
}

/// Where the overmap-wide tile `g` lies in the chunks within one chunk of
/// `origin`, its chunk exists in `m`.
pub open spec fn present_if_near(m: Map<OvermapChunkCoords, OvermapChunk>, g: (int, int), origin: OvermapChunkCoords) -> bool {
    global_in_box(g, square_lo(origin, 1), square_hi(origin, 1)) ==> m.contains_key(cell_of(g).0)
}

/// The chunks that the builder `b` may lay road in on its next move exist in
/// `m`, where they lie around `origin`: that of the tile ahead, and, for a
/// builder ready to split, those of the two tiles beside it, where its
/// children step.
pub open spec fn step_ok(b: RoadBuilder, m: Map<OvermapChunkCoords, OvermapChunk>, origin: OvermapChunkCoords) -> bool {
    let g = stepped_global(b);
    &&& present_if_near(m, g, origin)
    &&& b.moves_since_split >= RoadBuilder::MOVES_BEFORE_SPLIT ==> {
        &&& present_if_near(m, (g.0 + b.direction.y, g.1 + b.direction.x), origin)
        &&& present_if_near(m, (g.0 - b.direction.y, g.1 - b.direction.x), origin)
    }
}

/// Every builder of `s` finds the chunks of its next move in `m`.
pub open spec fn steps_ok(s: Seq<RoadBuilder>, m: Map<OvermapChunkCoords, OvermapChunk>, origin: OvermapChunkCoords) -> bool {
    forall|j: int| 0 <= j < s.len() ==> #[trigger] step_ok(s[j], m, origin)
}

/// A tile in the chunks within one chunk of `origin` lies in one of them.
proof fn lemma_near_cell_in_box(g: (int, int), origin: OvermapChunkCoords)
    requires
        global_in_box(g, square_lo(origin, 1), square_hi(origin, 1)),
        coord_within(origin, 0),
    ensures
        chunk_in_box(cell_of(g).0, square_lo(origin, 1), square_hi(origin, 1)),
{
    let n = OVERMAP_CHUNK_SIZE as int;
    let lo = square_lo(origin, 1);
    let hi = square_hi(origin, 1);
    vstd::arithmetic::div_mod::lemma_fundamental_div_mod(g.0, n);
    vstd::arithmetic::div_mod::lemma_fundamental_div_mod(g.1, n);
    vstd::arithmetic::div_mod::lemma_mod_bound(g.0, n);
    vstd::arithmetic::div_mod::lemma_mod_bound(g.1, n);
    let qx = g.0 / n;
    let qy = g.1 / n;
    let rx = g.0 % n;
    let ry = g.1 % n;
    assert(lo.0.x <= qx <= hi.0.x) by (nonlinear_arith)
        requires
            lo.0.x * n <= g.0 < (hi.0.x + 1) * n,
            g.0 == n * qx + rx,
            0 <= rx < n,
            n == 128,
    ;
    assert(lo.0.y <= qy <= hi.0.y) by (nonlinear_arith)
        requires
            lo.0.y * n <= g.1 < (hi.0.y + 1) * n,
            g.1 == n * qy + ry,
            0 <= ry < n,
            n == 128,
    ;
}

/// Where every chunk within one chunk of `origin` exists, every builder
/// finds the chunks of its next move.
pub proof fn lemma_box_steps_ok(s: Seq<RoadBuilder>, m: Map<OvermapChunkCoords, OvermapChunk>, origin: OvermapChunkCoords)
    requires
        box_present(m, square_lo(origin, 1), square_hi(origin, 1)),
        coord_within(origin, 0),
    ensures
        steps_ok(s, m, origin),
{
    assert forall|g: (int, int)| #[trigger] present_if_near(m, g, origin) by {
        if global_in_box(g, square_lo(origin, 1), square_hi(origin, 1)) {
            lemma_near_cell_in_box(g, origin);
        }
    }
}

/// The builders from index `i` on find their chunks, and so do those from
/// `i + 1` on.
proof fn lemma_steps_ok_tail(s: Seq<RoadBuilder>, i: int, m: Map<OvermapChunkCoords, OvermapChunk>, origin: OvermapChunkCoords)
    requires
        0 <= i < s.len(),
        steps_ok(s.skip(i), m, origin),
    ensures
        step_ok(s[i], m, origin),
        steps_ok(s.skip(i + 1), m, origin),
{
    assert(s.skip(i)[0] == s[i]);
    assert forall|j: int| 0 <= j < s.skip(i + 1).len() implies #[trigger] step_ok(s.skip(i + 1)[j], m, origin) by {
        assert(s.skip(i + 1)[j] == s.skip(i)[j + 1]);
    }
}

/// A child spawned by a builder ready to split, which stood at `b0` and now
/// stands at `b1`, finds the chunk of its first step.
proof fn lemma_child_step_ok(
    b0: RoadBuilder,
    b1: RoadBuilder,
    dir: i32,
    child: RoadBuilder,
    m: Map<OvermapChunkCoords, OvermapChunk>,
    origin: OvermapChunkCoords,
)
    requires
        step_ok(b0, m, origin),
        b0.moves_since_split >= RoadBuilder::MOVES_BEFORE_SPLIT,
        b1.chunk_cursor.global() == stepped_global(b0),
        b1.direction == b0.direction,
        child_of(b1, dir, child),
    ensures
        step_ok(child, m, origin),
{
    assert(child.chunk_cursor.global() == b1.chunk_cursor.global());
}

/// After the builder at `i` of `s1`, ready to split, took `action`, giving
/// `sn`, every builder from the next index on finds the chunks of its next
/// move: those that were there already, and the children, which step beside
/// their parent.
proof fn lemma_action_steps_ok(
    b0: RoadBuilder,
    s1: Seq<RoadBuilder>,
    sn: Seq<RoadBuilder>,
    i: int,
    action: RoadBuilderAction,
    dir: i32,
    mp: Map<OvermapChunkCoords, OvermapChunk>,
    origin: OvermapChunkCoords,
)
    requires
        acted_on(s1, sn, i, action, dir),
        0 <= i < s1.len(),
        steps_ok(s1.skip(i + 1), mp, origin),
        step_ok(b0, mp, origin),
        b0.moves_since_split >= RoadBuilder::MOVES_BEFORE_SPLIT,
        s1[i].chunk_cursor.global() == stepped_global(b0),
        s1[i].direction == b0.direction,
    ensures
        steps_ok(sn.skip(if action_keeps(action) { i + 1 } else { i }), mp, origin),
{
    let kept = kept_after(s1, i, action);
    let sides = action_sides(action, dir);
    let i2 = if action_keeps(action) { i + 1 } else { i };
    assert(sn.take(kept.len() as int) == kept);
    assert forall|t: int| 0 <= t < sides.len() implies step_ok(#[trigger] sn[kept.len() + t], mp, origin) by {
        assert(child_of(s1[i], sides[t], sn[kept.len() + t]));
        lemma_child_step_ok(b0, s1[i], sides[t], sn[kept.len() + t], mp, origin);
    }
    assert forall|j: int| 0 <= j < sn.skip(i2).len() implies #[trigger] step_ok(sn.skip(i2)[j], mp, origin) by {
        let jj = j + i2;
        assert(sn.skip(i2)[j] == sn[jj]);
        if jj < kept.len() {
            assert(sn[jj] == sn.take(kept.len() as int)[jj]);
            assert(kept[jj] == s1[jj + 1 - (if action_keeps(action) { 1int } else { 0int })]);
            assert(s1.skip(i + 1)[jj - i - (if action_keeps(action) { 1int } else { 0int })] == s1[jj + 1 - (if action_keeps(action) { 1int } else { 0int })]);
        } else {
            assert(sn[kept.len() + (jj - kept.len())] == sn[jj]);
        }
    }
}

/// Runs one round of the city's road builders: each builder (including those
/// spawned during the round) steps forward; it is dropped when it leaves the
/// chunks around the city, or, after the first generation, when it runs
/// onto or alongside a road; otherwise it lays a road (houses stay), clears
/// the building candidates under it, proposes candidates on free tiles to
/// its sides, and may stop by the roll against `stop_probability`; a builder
/// that has moved twice since it last split then picks a weighted action:
/// go on, or split one or two perpendicular children, and go on or stop
/// (`stops_on_roll` and `apply_action` carry out the rolled outcomes). Only
/// the chunks that the builders can write in this round need to exist.
fn run_road_builder_iteration<F: Fn(u32, i32) -> i32>(
    road_builders: &mut Vec<RoadBuilder>,
    city: &City,
    overmap_chunks: &mut ChunkMap,
    building_candidates: &mut BuildingCandidates,
    rng: &mut chacha20::ChaCha8Rng,
    stop_probability: &F,
)
    requires
        forall|d: u32, s: i32| stop_probability.requires((d, s)),
        city_ok(*city),
        map_wf(chunk_map(*old(overmap_chunks))),
        steps_ok(old(road_builders)@, chunk_map(*old(overmap_chunks)), city.overmap_chunk_coordinate),
        builders_wf(old(road_builders)@, city.overmap_chunk_coordinate),
        old(building_candidates).wf(),
    ensures
        map_wf(chunk_map(*final(overmap_chunks))),
        tiles_grow(chunk_map(*old(overmap_chunks)), chunk_map(*final(overmap_chunks))),
        only_tiles_change(chunk_map(*old(overmap_chunks)), chunk_map(*final(overmap_chunks))),
        builders_wf(final(road_builders)@, city.overmap_chunk_coordinate),
        builders_on_tiles(final(road_builders)@, final(road_builders)@.len() as int, chunk_map(*final(overmap_chunks))),
        only_roads_laid(chunk_map(*old(overmap_chunks)), chunk_map(*final(overmap_chunks))),
        final(building_candidates).wf(),
        first_steps_laid(old(road_builders)@, old(road_builders)@.len() as int, city.overmap_chunk_coordinate,
            chunk_map(*final(overmap_chunks))),
        candidates_track(chunk_map(*old(overmap_chunks)), chunk_map(*final(overmap_chunks)),
            candidates_view(*old(building_candidates)), candidates_view(*final(building_candidates))),
        (forall|k: int| 0 <= k < old(road_builders)@.len() ==> #[trigger] keeps_going(old(road_builders)@[k], *city, stop_probability))
            ==> final(road_builders)@ == old(road_builders)@.map_values(|b: RoadBuilder| advanced(b)),
        (forall|k: int| 0 <= k < old(road_builders)@.len()
            ==> #[trigger] halts_at_once(old(road_builders)@[k], chunk_map(*old(overmap_chunks)), city.overmap_chunk_coordinate))
            ==> final(road_builders)@.len() == 0 && *final(overmap_chunks) == *old(overmap_chunks)
                && *final(building_candidates) == *old(building_candidates) && *final(rng) == *old(rng),
        changes_inside(chunk_map(*old(overmap_chunks)), chunk_map(*final(overmap_chunks)),
            square_lo(city.overmap_chunk_coordinate, 1), square_hi(city.overmap_chunk_coordinate, 1)),
        anchors_near(candidate_map(old(building_candidates).candidates), square_lo(city.overmap_chunk_coordinate, 1),
            square_hi(city.overmap_chunk_coordinate, 1))
            ==> anchors_near(candidate_map(final(building_candidates).candidates), square_lo(city.overmap_chunk_coordinate, 1),
                square_hi(city.overmap_chunk_coordinate, 1)),
{
    let ghost sv0 = candidates_view(*building_candidates);
    proof {
        lemma_candidates_track_refl(chunk_map(*overmap_chunks), sv0);
    }
    let ghost s_init = road_builders@;
    let ghost mut done: int = 0;
    let ghost all_keep = forall|k: int| 0 <= k < s_init.len() ==> #[trigger] keeps_going(s_init[k], *city, stop_probability);
    let ghost origin = city.overmap_chunk_coordinate;
    let ghost all_stop = forall|k: int| 0 <= k < s_init.len()
        ==> #[trigger] halts_at_once(s_init[k], chunk_map(*overmap_chunks), origin);
    let ghost lo = square_lo(origin, 1);
    let ghost hi = square_hi(origin, 1);
    let ghost m0 = chunk_map(*overmap_chunks);
    let mut i: usize = 0;
    while i < road_builders.len()
        invariant
            i <= road_builders@.len(),
            forall|d: u32, s: i32| stop_probability.requires((d, s)),
            city_ok(*city),
            origin == city.overmap_chunk_coordinate,
            lo == square_lo(origin, 1),
            hi == square_hi(origin, 1),
            map_wf(chunk_map(*overmap_chunks)),
            steps_ok(road_builders@.skip(i as int), m0, origin),
            tiles_grow(m0, chunk_map(*overmap_chunks)),
            only_tiles_change(m0, chunk_map(*overmap_chunks)),
            only_roads_laid(m0, chunk_map(*overmap_chunks)),
            builders_wf(road_builders@, origin),
            builders_on_tiles(road_builders@, i as int, chunk_map(*overmap_chunks)),
            building_candidates.wf(),
            s_init == old(road_builders)@,
            pending_at(road_builders@, i as int, s_init, done),
            first_steps_laid(s_init, done, origin, chunk_map(*overmap_chunks)),
            all_keep == (forall|k: int| 0 <= k < s_init.len() ==> #[trigger] keeps_going(s_init[k], *city, stop_probability)),
            all_keep ==> road_builders@.len() == s_init.len() && i == done
                && (forall|t: int| 0 <= t < i ==> road_builders@[t] == advanced(#[trigger] s_init[t])),
            all_stop == (forall|k: int| 0 <= k < s_init.len() ==> #[trigger] halts_at_once(s_init[k], m0, origin)),
            all_stop ==> i == 0 && road_builders@.len() == s_init.len() - done && *overmap_chunks == *old(overmap_chunks)
                && *building_candidates == *old(building_candidates) && *rng == *old(rng),
            m0 == chunk_map(*old(overmap_chunks)),
            sv0 == candidates_view(*old(building_candidates)),
            view_ok(sv0),
            candidates_track(m0, chunk_map(*overmap_chunks), sv0, candidates_view(*building_candidates)),
            changes_inside(m0, chunk_map(*overmap_chunks), lo, hi),
            anchors_near(sv0.1, lo, hi) ==> anchors_near(candidate_map(building_candidates.candidates), lo, hi),
        decreases ready_count(road_builders@.skip(i as int)), road_builders@.len() - i,
    {
        let ghost s0 = road_builders@;
        proof {
            assert(s0[i as int].wf(origin));
            lemma_ready_count_skip(s0, i as int);
            lemma_steps_ok_tail(s0, i as int, m0, origin);
        }
        // move
        advance_builder(&mut road_builders[i]);
        let ghost s1 = road_builders@;
        proof {
            assert(s1.skip(i + 1) =~= s0.skip(i + 1));
            assert(ready(s1[i as int]) == ready(s0[i as int]));
            assert forall|j: int| 0 <= j < s1.len() && j != i implies #[trigger] s1[j].wf(origin) by {
                assert(s1[j] == s0[j]);
            }
            assert forall|j: int| 0 <= j < i implies (tile_at(chunk_map(*overmap_chunks), #[trigger] s1[j].chunk_cursor.chunk_coord, s1[j].chunk_cursor.local_pos) is Some) by {
                assert(s1[j] == s0[j]);
            }
            assert forall|j: int| i < j < s0.len() implies s1[j] == s0[j] by {
                assert(s1[j] == s0[j]);
            }
            lemma_pending_step(s0, s1, i as int, s_init, done);
            if all_keep {
                assert(s0[i as int] == s_init[done]);
                lemma_advanced_cursor(s0[i as int], s1[i as int], origin);
                assert(keeps_going(s_init[done], *city, stop_probability));
            }
            if all_stop {
                assert(s0[i as int] == s_init[done]);
                lemma_advanced_cursor(s0[i as int], s1[i as int], origin);
                assert(halts_at_once(s_init[done], m0, origin));
            }
        }
        let offset = road_builders[i].chunk_cursor.chunk_coord.0.sub(road_builders[i].origin_chunk.0).abs().max_element();
        if offset > 1 {
            proof {
                assert(!all_keep);
                lemma_builders_remove(road_builders@, i as int, origin, chunk_map(*overmap_chunks));
                lemma_pending_step(s0, s1, i as int, s_init, done);
                lemma_first_steps_extend(s_init, done, origin, chunk_map(*overmap_chunks));
                done = next_done(s_init, done);
            }
            road_builders.remove(i);
            continue;
        }
        proof {
            assert(road_builders@[i as int].wf(origin));
        }
        // Kill builder if moved onto another road, or if next to a road
        if builder_blocked(&road_builders[i], overmap_chunks) {
            proof {
                assert(!all_keep);
                lemma_builders_remove(road_builders@, i as int, origin, chunk_map(*overmap_chunks));
                lemma_pending_step(s0, s1, i as int, s_init, done);
                lemma_first_steps_extend(s_init, done, origin, chunk_map(*overmap_chunks));
                done = next_done(s_init, done);
            }
            road_builders.remove(i);
            continue;
        }
        // Set road tile
        let ghost before = chunk_map(*overmap_chunks);
        proof {
            lemma_placed_in_box(road_builders@[i as int].chunk_cursor, lo, hi);
            if all_stop {
                assert(step_in_block(s0[i as int], origin));
                assert(blocked(advanced(s0[i as int]), m0));
                assert(blocked(s1[i as int], m0));
                assert(false);
            }
        }
        let ghost kc = road_builders@[i as int].chunk_cursor.chunk_coord;
        proof {
            let c = road_builders@[i as int].chunk_cursor;
            assert(c.global() == stepped_global(s0[i as int]));
            assert(present_if_near(m0, c.global(), origin));
            lemma_cursor_cell(c);
            assert(cell_of(c.global()).0 == kc);
            assert(chunk_map(*overmap_chunks).contains_key(kc));
            assert forall|k: OvermapChunkCoords| #[trigger] chunk_in_box(k, kc, kc) implies chunk_map(*overmap_chunks).contains_key(k) by {
                assert(k.0 == kc.0);
            }
            lemma_placed_in_box(c, kc, kc);
        }
        lay_road_under(&road_builders[i].chunk_cursor, overmap_chunks, OvermapTileType::Road, Ghost(m0), Ghost(kc), Ghost(kc));
        proof {
            let after = chunk_map(*overmap_chunks);
            lemma_roads_laid_lay(m0, before, after, road_builders@[i as int].chunk_cursor);
            assert(tile_at(after, s1[i as int].chunk_cursor.chunk_coord, s1[i as int].chunk_cursor.local_pos) is Some);
            assert forall|j: int| 0 <= j < i implies (tile_at(after, #[trigger] road_builders@[j].chunk_cursor.chunk_coord, road_builders@[j].chunk_cursor.local_pos) is Some) by {
                assert(road_builders@[j] == s0[j]);
                assert(s0[j].wf(origin));
                lemma_tile_stays_set(before, after, s0[j].chunk_cursor.chunk_coord, s0[j].chunk_cursor.local_pos);
            }
            lemma_first_steps_grow(s_init, done, origin, before, after);
            lemma_changes_inside_cursor(before, after, s1[i as int].chunk_cursor, lo, hi);
            lemma_changes_inside_trans(m0, before, after, lo, hi);
            lemma_set_under_cursor(after, s1[i as int].chunk_cursor);
            assert(stepped_global(s0[i as int]) == s1[i as int].chunk_cursor.global());
            lemma_first_steps_extend(s_init, done, origin, after);
        }
        // Remove any building candidates where we just placed a road.
        let key = (road_builders[i].chunk_cursor.chunk_coord, road_builders[i].chunk_cursor.local_pos);
        let ghost sv_a = candidates_view(*building_candidates);
        clear_candidates_at(building_candidates, &key);
        let ghost sv_b = candidates_view(*building_candidates);
        proof {
            let after = chunk_map(*overmap_chunks);
            let c = s1[i as int].chunk_cursor;
            assert(key == (c.chunk_coord, c.local_pos));
            assert forall|x: usize| #[trigger] listed_at(sv_a.2, key, x) implies !sv_b.1.contains_key(x) by {
                let j = choose|j: int| 0 <= j < sv_a.2[key].len() && sv_a.2[key][j] == x;
                assert(sv_a.2[key][j] == x);
            }
            assert(view_ok(sv_a));
            lemma_track_lay_clear(m0, before, after, sv0, sv_a, sv_b, c);
        }
        // Set potential buildings
        add_side_candidates(&road_builders[i], overmap_chunks, building_candidates);
        proof {
            lemma_track_sides(m0, chunk_map(*overmap_chunks), sv0, sv_b, s1[i as int]);
            if anchors_near(sv0.1, lo, hi) {
                assert(anchors_near(sv_b.1, lo, hi)) by {
                    assert forall|x: usize| #[trigger] sv_b.1.contains_key(x) implies sv_a.1.contains_key(x) && sv_b.1[x] == sv_a.1[x] by {
                    }
                }
                lemma_anchors_side_steps(sv_b, s1[i as int], chunk_map(*overmap_chunks), lo, hi);
            }
        }
        if should_stop(&road_builders[i], city, rng, stop_probability) {
            proof {
                if all_keep {
                    assert(road_builders@[i as int].chunk_cursor == advanced(s_init[done]).chunk_cursor);
                    let p = choose|p: i32| #[trigger] stop_probability.ensures((distance_to_city(road_builders@[i as int], *city) as u32, city.size), p) && p > 0;
                    assert(stop_probability.ensures((distance_to_city(advanced(s_init[done]), *city) as u32, city.size), p));
                    assert(false);
                }
                lemma_builders_remove(road_builders@, i as int, origin, chunk_map(*overmap_chunks));
                lemma_pending_step(s0, road_builders@, i as int, s_init, done);
                done = next_done(s_init, done);
            }
            road_builders.remove(i);
            continue;
        }
        // calculate action
        if road_builders[i].moves_since_split < RoadBuilder::MOVES_BEFORE_SPLIT {
            road_builders[i].moves_since_split = road_builders[i].moves_since_split + 1;
            proof {
                if all_keep {
                    assert(road_builders@[i as int] == advanced(s_init[done]));
                    assert forall|t: int| 0 <= t < i + 1 implies road_builders@[t] == advanced(#[trigger] s_init[t]) by {
                        if t < i { assert(road_builders@[t] == s0[t]); }
                    }
                }
                assert(road_builders@.skip(i + 1) =~= s0.skip(i + 1));
                assert forall|j: int| 0 <= j < road_builders@.len() implies #[trigger] road_builders@[j].wf(origin) by {
                    if j != i { assert(road_builders@[j] == s1[j]); }
                }
                assert forall|j: int| 0 <= j < i + 1 implies (tile_at(chunk_map(*overmap_chunks), #[trigger] road_builders@[j].chunk_cursor.chunk_coord, road_builders@[j].chunk_cursor.local_pos) is Some) by {
                    if j < i { assert(road_builders@[j] == s0[j]); }
                }
            }
            proof {
                lemma_pending_step(s0, road_builders@, i as int, s_init, done);
                done = next_done(s_init, done);
            }
            i += 1;
        } else {
            proof {
                assert(!all_keep);
                lemma_actions_weight(road_builders@[i as int].generation);
            }
            let action_roll = random_range(rng, 0, road_builders[i].cumulative_action_weights);
            let action = pick_action(&road_builders[i].action_probabilities, action_roll);
            let ghost m = chunk_map(*overmap_chunks);
            proof {
                assert(ready(s0[i as int]) == 1);
                assert(road_builders@ == s1);
            }
            let mut dir: i32 = 0;
            match action {
                RoadBuilderAction::SplitOnce => {
                    dir = random_range(rng, 0, 2);
                },
                RoadBuilderAction::SplitOnceAndContinue => {
                    dir = random_range(rng, 0, 2);
                },
                _ => {},
            }
            let keep = apply_action(road_builders, i, city, action, dir);
            let ghost sn = road_builders@;
            proof {
                assert(builders_on_tiles(s1, i + 1, m));
                lemma_action_step(s0, s1, sn, i as int, action, dir, origin, m, s_init, done);
                lemma_action_steps_ok(s0[i as int], s1, sn, i as int, action, dir, m0, origin);
                done = next_done(s_init, done);
            }
            if keep {
                i += 1;
            }
        }
    }
    proof {
        lemma_tiles_grow_refl(m0);
    }
}

/// From `old` to `new` the city `id` only gains the link `link` at the end of
/// its connections, and every other city is unchanged.
pub open spec fn linked_once(old: Map<CityId, City>, new: Map<CityId, City>, id: CityId, link: (OvermapChunkCoords, CityId)) -> bool {
    &&& old.contains_key(id)
    &&& new.dom() == old.dom()
    &&& forall|k: CityId| #[trigger] new.contains_key(k) && k != id ==> new[k] == old[k]
    &&& new[id].id == old[id].id
    &&& new[id].position == old[id].position
    &&& new[id].overmap_chunk_coordinate == old[id].overmap_chunk_coordinate
    &&& new[id].size == old[id].size
    &&& new[id].connected_to@ == old[id].connected_to@.push(link)
}

/// From `old` to `new` the chunk `k` only sees city `id` gain the link `link`,
/// and every other chunk is unchanged.
pub open spec fn chunk_linked_once(
    old: Map<OvermapChunkCoords, OvermapChunk>,
    new: Map<OvermapChunkCoords, OvermapChunk>,
    k: OvermapChunkCoords,
    id: CityId,
    link: (OvermapChunkCoords, CityId),
) -> bool {
    &&& old.contains_key(k)
    &&& new.dom() == old.dom()
    &&& forall|j: OvermapChunkCoords| #[trigger] new.contains_key(j) && j != k ==> new[j] == old[j]
    &&& new[k].coordinates == old[k].coordinates
    &&& new[k].overmap_tiles == old[k].overmap_tiles
    &&& new[k].generation_complete == old[k].generation_complete
    &&& linked_once(city_map(old[k].cities), city_map(new[k].cities), id, link)
}

/// Appends `link` to the connections of city `id` of chunk `k`.
fn link_city(
    overmap_chunks: &mut ChunkMap,
    k: &OvermapChunkCoords,
    id: &CityId,
    link: (OvermapChunkCoords, CityId),
)
    requires
        map_wf(chunk_map(*old(overmap_chunks))),
        chunk_map(*old(overmap_chunks)).contains_key(*k),
        city_map(chunk_map(*old(overmap_chunks))[*k].cities).contains_key(*id),
    ensures
        map_wf(chunk_map(*final(overmap_chunks))),
        chunk_linked_once(chunk_map(*old(overmap_chunks)), chunk_map(*final(overmap_chunks)), *k, *id, link),
        tiles_grow(chunk_map(*old(overmap_chunks)), chunk_map(*final(overmap_chunks))),
{
    let ghost m0 = chunk_map(*overmap_chunks);
    match chunk_map_get_mut(overmap_chunks, k) {
        Some(chunk) => {
            match city_map_get_mut(&mut chunk.cities, id) {
                Some(city) => {
                    city.connected_to.push(link);
                },
                None => {},
            }
        },
        None => {},
    }
    proof {
        let m1 = chunk_map(*overmap_chunks);
        assert(m1.dom() =~= m0.dom());
        assert(city_map(m1[*k].cities).dom() =~= city_map(m0[*k].cities).dom());
        assert forall|j: OvermapChunkCoords| #[trigger] m1.contains_key(j) implies chunk_wf(j, m1[j]) && coord_within(j, 0) by {
            assert(m0.contains_key(j));
        }
        assert forall|j: OvermapChunkCoords| #[trigger] m1.contains_key(j) implies cities_wf(j, city_map(m1[j].cities)) by {
            assert(m0.contains_key(j));
            if j == *k {
                assert forall|c: CityId| #[trigger] city_map(m1[j].cities).contains_key(c) implies city_wf(j, c, city_map(m1[j].cities)[c]) by {
                    assert(city_map(m0[j].cities).contains_key(c));
                }
            }
        }
        assert forall|j: OvermapChunkCoords| #[trigger] m0.contains_key(j) implies {
            &&& m1.contains_key(j)
            &&& m1[j].overmap_tiles.len() == m0[j].overmap_tiles.len()
            &&& forall|i: int| 0 <= i < m0[j].overmap_tiles.len() ==> {
                &&& (#[trigger] m0[j].overmap_tiles@[i] is Some ==> m1[j].overmap_tiles@[i] is Some)
                &&& (m0[j].overmap_tiles@[i] == Some(OvermapTileType::House)
                    ==> m1[j].overmap_tiles@[i] == Some(OvermapTileType::House))
            }
        } by {
            assert(m1.contains_key(j));
        }
    }
}

/// Every connection is returned: when a city lists a city of another chunk,
/// that chunk and city exist and the other city lists the first one back.
pub open spec fn links_returned(m: Map<OvermapChunkCoords, OvermapChunk>) -> bool {
    forall|k: OvermapChunkCoords, a: CityId, l: (OvermapChunkCoords, CityId)|
        m.contains_key(k) && city_map(m[k].cities).contains_key(a)
            && #[trigger] city_map(m[k].cities)[a].connected_to@.contains(l)
            ==> m.contains_key(l.0) && city_map(m[l.0].cities).contains_key(l.1)
                && city_map(m[l.0].cities)[l.1].connected_to@.contains((k, a))
}

/// Around a generated centre, connections run both ways: when every
/// connection is returned, each city of a side neighbour of the nine chunks
/// around `current` lists each city of that chunk, as the chunk's cities list
/// the neighbour's.
pub proof fn lemma_connections_both_ways(m: Map<OvermapChunkCoords, OvermapChunk>, current: IVec2, j: int, ni: int)
    requires
        connected_around(m, current),
        links_returned(m),
        0 <= j < 9,
        0 <= ni < 4,
    ensures
        pair_linked(m, chunk_at(square_cell(current, 1, j)), chunk_at(cardinal_neighbours(square_cell(current, 1, j))[ni])),
        pair_linked(m, chunk_at(cardinal_neighbours(square_cell(current, 1, j))[ni]), chunk_at(square_cell(current, 1, j))),
{
    let c = chunk_at(square_cell(current, 1, j));
    let n = chunk_at(cardinal_neighbours(square_cell(current, 1, j))[ni]);
    assert(pair_linked(m, c, n));
    assert forall|b: CityId, a: CityId|
        m.contains_key(n) && m.contains_key(c) && #[trigger] city_map(m[n].cities).contains_key(b)
            && #[trigger] city_map(m[c].cities).contains_key(a)
        implies city_map(m[n].cities)[b].connected_to@.contains((c, a)) by {
        assert(city_map(m[c].cities)[a].connected_to@.contains((n, b)));
    }
}

/// Every connection that a city of `old` gained on the way to `new` joins it
/// to a city of a side neighbour of its chunk.
pub open spec fn new_links_beside(old: Map<OvermapChunkCoords, OvermapChunk>, new: Map<OvermapChunkCoords, OvermapChunk>) -> bool {
    forall|k: OvermapChunkCoords, a: CityId, j: int|
        #![trigger city_map(new[k].cities)[a].connected_to@[j]]
        old.contains_key(k) && city_map(old[k].cities).contains_key(a)
            && city_map(old[k].cities)[a].connected_to@.len() <= j < city_map(new[k].cities)[a].connected_to@.len()
            ==> side_by_side(k, city_map(new[k].cities)[a].connected_to@[j].0)
}

/// Gaining only connections to side neighbours chains.
proof fn lemma_new_links_beside_trans(
    m0: Map<OvermapChunkCoords, OvermapChunk>,
    m1: Map<OvermapChunkCoords, OvermapChunk>,
    m2: Map<OvermapChunkCoords, OvermapChunk>,
)
    requires
        new_links_beside(m0, m1),
        new_links_beside(m1, m2),
        cities_evolve(m0, m1),
        cities_evolve(m1, m2),
    ensures
        new_links_beside(m0, m2),
{
    assert forall|k: OvermapChunkCoords, a: CityId, j: int|
        #![trigger city_map(m2[k].cities)[a].connected_to@[j]]
        m0.contains_key(k) && city_map(m0[k].cities).contains_key(a)
            && city_map(m0[k].cities)[a].connected_to@.len() <= j < city_map(m2[k].cities)[a].connected_to@.len()
        implies side_by_side(k, city_map(m2[k].cities)[a].connected_to@[j].0) by {
        assert(m1.contains_key(k));
        assert(city_map(m1[k].cities).contains_key(a));
        let l1 = city_map(m1[k].cities)[a].connected_to@;
        let l2 = city_map(m2[k].cities)[a].connected_to@;
        assert(city_grows(city_map(m1[k].cities)[a], city_map(m2[k].cities)[a]));
        if j < l1.len() {
            assert(l2.take(l1.len() as int)[j] == l1[j]);
            assert(side_by_side(k, l1[j].0));
        }
    }
}

/// A map gains no connection on the way to itself, nor while its chunks keep
/// their cities.
proof fn lemma_new_links_beside_same_cities(m0: Map<OvermapChunkCoords, OvermapChunk>, m1: Map<OvermapChunkCoords, OvermapChunk>)
    requires
        forall|k: OvermapChunkCoords| #[trigger] m0.contains_key(k) ==> m1.contains_key(k) && m1[k].cities == m0[k].cities,
    ensures
        new_links_beside(m0, m1),
{
}

/// No city lists a connection twice.
pub open spec fn links_unique(m: Map<OvermapChunkCoords, OvermapChunk>) -> bool {
    forall|k: OvermapChunkCoords, a: CityId| m.contains_key(k) && #[trigger] city_map(m[k].cities).contains_key(a)
        ==> city_map(m[k].cities)[a].connected_to@.no_duplicates()
}

/// From `old` to `new` only the city `a` of chunk `c` gained connections of
/// chunk `c`, all to cities of chunk `n`, and the cities of `n` gained only
/// connections to `a`.
pub open spec fn links_gained_from(
    old: Map<OvermapChunkCoords, OvermapChunk>,
    new: Map<OvermapChunkCoords, OvermapChunk>,
    c: OvermapChunkCoords,
    a: CityId,
    n: OvermapChunkCoords,
) -> bool {
    forall|k: OvermapChunkCoords, x: CityId, j: int|
        #![trigger city_map(new[k].cities)[x].connected_to@[j]]
        old.contains_key(k) && city_map(old[k].cities).contains_key(x)
            && city_map(old[k].cities)[x].connected_to@.len() <= j < city_map(new[k].cities)[x].connected_to@.len()
            ==> link_from(k, x, city_map(new[k].cities)[x].connected_to@[j], c, a, n)
}

/// The connection `l` of city `x` of chunk `k` runs from city `a` of chunk
/// `c` to chunk `n`, or back to it from chunk `n`.
pub open spec fn link_from(k: OvermapChunkCoords, x: CityId, l: (OvermapChunkCoords, CityId), c: OvermapChunkCoords, a: CityId, n: OvermapChunkCoords) -> bool {
    (k == c && x == a && l.0 == n) || (k == n && l == (c, a))
}

/// From `old` to `new` the cities of chunk `c` gained only connections to
/// chunk `n`, those of `n` only connections to `c`, and no other city gained
/// any.
pub open spec fn links_gained_between(
    old: Map<OvermapChunkCoords, OvermapChunk>,
    new: Map<OvermapChunkCoords, OvermapChunk>,
    c: OvermapChunkCoords,
    n: OvermapChunkCoords,
) -> bool {
    forall|k: OvermapChunkCoords, x: CityId, j: int|
        #![trigger city_map(new[k].cities)[x].connected_to@[j]]
        old.contains_key(k) && city_map(old[k].cities).contains_key(x)
            && city_map(old[k].cities)[x].connected_to@.len() <= j < city_map(new[k].cities)[x].connected_to@.len()
            ==> link_between(k, city_map(new[k].cities)[x].connected_to@[j], c, n)
}

/// The connection `l` of a city of chunk `k` runs between chunks `c` and `n`.
pub open spec fn link_between(k: OvermapChunkCoords, l: (OvermapChunkCoords, CityId), c: OvermapChunkCoords, n: OvermapChunkCoords) -> bool {
    (k == c && l.0 == n) || (k == n && l.0 == c)
}

/// Connections gained between two chunks chain.
proof fn lemma_links_gained_between_trans(
    m0: Map<OvermapChunkCoords, OvermapChunk>,
    m1: Map<OvermapChunkCoords, OvermapChunk>,
    m2: Map<OvermapChunkCoords, OvermapChunk>,
    c: OvermapChunkCoords,
    n: OvermapChunkCoords,
)
    requires
        links_gained_between(m0, m1, c, n),
        links_gained_between(m1, m2, c, n),
        cities_evolve(m0, m1),
        cities_evolve(m1, m2),
    ensures
        links_gained_between(m0, m2, c, n),
{
    assert forall|k: OvermapChunkCoords, x: CityId, j: int|
        #![trigger city_map(m2[k].cities)[x].connected_to@[j]]
        m0.contains_key(k) && city_map(m0[k].cities).contains_key(x)
            && city_map(m0[k].cities)[x].connected_to@.len() <= j < city_map(m2[k].cities)[x].connected_to@.len()
        implies link_between(k, city_map(m2[k].cities)[x].connected_to@[j], c, n) by {
        assert(m1.contains_key(k));
        assert(city_map(m1[k].cities).contains_key(x));
        let l1 = city_map(m1[k].cities)[x].connected_to@;
        let l2 = city_map(m2[k].cities)[x].connected_to@;
        assert(city_grows(city_map(m1[k].cities)[x], city_map(m2[k].cities)[x]));
        if j < l1.len() {
            assert(l2.take(l1.len() as int) == l1);
            assert(l2.take(l1.len() as int)[j] == l2[j]);
            assert(l2[j] == l1[j]);
            assert(l1[j] == city_map(m1[k].cities)[x].connected_to@[j]);
        } else {
            assert(l2[j] == city_map(m2[k].cities)[x].connected_to@[j]);
            assert(l1.len() <= j);
        }
    }
}

/// Linking city `a` of chunk `ka` and city `b` of chunk `kb` both ways keeps
/// every connection returned.
proof fn lemma_links_returned_link(
    m0: Map<OvermapChunkCoords, OvermapChunk>,
    m1: Map<OvermapChunkCoords, OvermapChunk>,
    ka: OvermapChunkCoords,
    a: CityId,
    kb: OvermapChunkCoords,
    b: CityId,
)
    requires
        links_returned(m0),
        ka != kb,
        m0.contains_key(ka),
        m0.contains_key(kb),
        city_map(m0[ka].cities).contains_key(a),
        city_map(m0[kb].cities).contains_key(b),
        m1.dom() == m0.dom(),
        forall|k: OvermapChunkCoords| #[trigger] m0.contains_key(k) ==> city_map(m1[k].cities).dom() == city_map(m0[k].cities).dom(),
        forall|k: OvermapChunkCoords, x: CityId| m0.contains_key(k) && #[trigger] city_map(m0[k].cities).contains_key(x)
            && !(k == ka && x == a) && !(k == kb && x == b)
            ==> city_map(m1[k].cities)[x].connected_to@ == city_map(m0[k].cities)[x].connected_to@,
        city_map(m1[ka].cities)[a].connected_to@ == city_map(m0[ka].cities)[a].connected_to@.push((kb, b)),
        city_map(m1[kb].cities)[b].connected_to@ == city_map(m0[kb].cities)[b].connected_to@.push((ka, a)),
    ensures
        links_returned(m1),
{
    assert forall|k: OvermapChunkCoords, x: CityId, l: (OvermapChunkCoords, CityId)|
        m1.contains_key(k) && city_map(m1[k].cities).contains_key(x)
            && #[trigger] city_map(m1[k].cities)[x].connected_to@.contains(l)
        implies m1.contains_key(l.0) && city_map(m1[l.0].cities).contains_key(l.1)
            && city_map(m1[l.0].cities)[l.1].connected_to@.contains((k, x)) by {
        assert(m0.contains_key(k));
        assert(city_map(m0[k].cities).contains_key(x));
        let old_list = city_map(m0[k].cities)[x].connected_to@;
        let new_list = city_map(m1[k].cities)[x].connected_to@;
        let w = choose|w: int| 0 <= w < new_list.len() && new_list[w] == l;
        let is_new = (k == ka && x == a && l == (kb, b)) || (k == kb && x == b && l == (ka, a));
        if is_new {
            if k == ka {
                let bl = city_map(m1[kb].cities)[b].connected_to@;
                assert(bl[bl.len() - 1] == (ka, a));
            } else {
                let al = city_map(m1[ka].cities)[a].connected_to@;
                assert(al[al.len() - 1] == (kb, b));
            }
        } else {
            if w < old_list.len() {
                assert(old_list[w] == l);
            } else {
                assert(w == old_list.len());
            }
            assert(old_list.contains(l));
            assert(m0.contains_key(l.0) && city_map(m0[l.0].cities).contains_key(l.1));
            let back0 = city_map(m0[l.0].cities)[l.1].connected_to@;
            let back1 = city_map(m1[l.0].cities)[l.1].connected_to@;
            assert(back0.contains((k, x)));
            let v = choose|v: int| 0 <= v < back0.len() && back0[v] == (k, x);
            assert(back1[v] == (k, x));
        }
    }
}

/// Connections stay returned while every chunk keeps its cities.
proof fn lemma_links_returned_same_cities(m0: Map<OvermapChunkCoords, OvermapChunk>, m1: Map<OvermapChunkCoords, OvermapChunk>)
    requires
        links_returned(m0),
        m1.dom() == m0.dom(),
        forall|k: OvermapChunkCoords| #[trigger] m0.contains_key(k) ==> m1[k].cities == m0[k].cities,
    ensures
        links_returned(m1),
{
    assert forall|k: OvermapChunkCoords, x: CityId, l: (OvermapChunkCoords, CityId)|
        m1.contains_key(k) && city_map(m1[k].cities).contains_key(x)
            && #[trigger] city_map(m1[k].cities)[x].connected_to@.contains(l)
        implies m1.contains_key(l.0) && city_map(m1[l.0].cities).contains_key(l.1)
            && city_map(m1[l.0].cities)[l.1].connected_to@.contains((k, x)) by {
        assert(m0.contains_key(k));
        assert(city_map(m0[k].cities)[x].connected_to@.contains(l));
        assert(m0.contains_key(l.0));
    }
}

/// A new chunk whose cities list no connections keeps every connection
/// returned.
proof fn lemma_links_returned_new_chunk(m0: Map<OvermapChunkCoords, OvermapChunk>, k: OvermapChunkCoords, chunk: OvermapChunk)
    requires
        links_returned(m0),
        !m0.contains_key(k),
        forall|a: CityId| #[trigger] city_map(chunk.cities).contains_key(a)
            ==> city_map(chunk.cities)[a].connected_to@.len() == 0,
    ensures
        links_returned(m0.insert(k, chunk)),
{
    let m1 = m0.insert(k, chunk);
    assert forall|j: OvermapChunkCoords, x: CityId, l: (OvermapChunkCoords, CityId)|
        m1.contains_key(j) && city_map(m1[j].cities).contains_key(x)
            && #[trigger] city_map(m1[j].cities)[x].connected_to@.contains(l)
        implies m1.contains_key(l.0) && city_map(m1[l.0].cities).contains_key(l.1)
            && city_map(m1[l.0].cities)[l.1].connected_to@.contains((j, x)) by {
        if j == k {
            let w = choose|w: int| 0 <= w < city_map(m1[j].cities)[x].connected_to@.len()
                && city_map(m1[j].cities)[x].connected_to@[w] == l;
            assert(false);
        } else {
            assert(city_map(m0[j].cities)[x].connected_to@.contains(l));
            assert(m0.contains_key(l.0));
            assert(l.0 != k);
        }
    }
}

/// A road laid from `a` to `b` is laid from `a` to `c` when `c` holds the
/// same chunks with the same tiles as `b`.
proof fn lemma_road_laid_same_tiles(
    a: Map<OvermapChunkCoords, OvermapChunk>,
    b: Map<OvermapChunkCoords, OvermapChunk>,
    c: Map<OvermapChunkCoords, OvermapChunk>,
    ac: OvermapChunkCoords,
    ap: IVec2,
    bc: OvermapChunkCoords,
    bp: IVec2,
)
    requires
        road_laid(a, b, ac, ap, bc, bp),
        tiles_grow(a, b),
        c.dom() == b.dom(),
        forall|k: OvermapChunkCoords| #[trigger] b.contains_key(k) ==> c[k].overmap_tiles == b[k].overmap_tiles,
    ensures
        road_laid(a, c, ac, ap, bc, bp),
{
    let path = choose|path: Seq<ChunkCursor>| road_path(b, path) && path_between(path, ac, ap, bc, bp) && changes_within(a, b, path);
    assert forall|i: int| 0 <= i < path.len() implies (#[trigger] path[i]).placed()
        && tile_at(c, path[i].chunk_coord, path[i].local_pos) is Some by {
        assert(tile_at(b, path[i].chunk_coord, path[i].local_pos) is Some);
        assert(b.contains_key(path[i].chunk_coord));
    }
    assert(road_path(c, path));
    assert forall|k: OvermapChunkCoords, i: int|
        #![trigger c[k].overmap_tiles@[i]]
        a.contains_key(k) && 0 <= i < a[k].overmap_tiles.len() && c[k].overmap_tiles@[i] != a[k].overmap_tiles@[i]
        implies on_path(path, k, i) by {
        assert(b.contains_key(k));
        assert(c[k].overmap_tiles@[i] == b[k].overmap_tiles@[i]);
    }
    assert(changes_within(a, c, path));
}

/// A walked road and the houses that a road drawing added are kept by a map
/// with the same tiles in every chunk.
proof fn lemma_road_walked_same_tiles(
    a: Map<OvermapChunkCoords, OvermapChunk>,
    b: Map<OvermapChunkCoords, OvermapChunk>,
    c: Map<OvermapChunkCoords, OvermapChunk>,
    ac: OvermapChunkCoords,
    ap: IVec2,
    bc: OvermapChunkCoords,
    bp: IVec2,
)
    requires
        road_walked(a, b, ac, ap, bc, bp),
        houses_only_at(a, b, ac, ap, bc, bp),
        tiles_grow(a, b),
        c.dom() == b.dom(),
        forall|k: OvermapChunkCoords| #[trigger] b.contains_key(k) ==> c[k].overmap_tiles == b[k].overmap_tiles,
    ensures
        road_walked(a, c, ac, ap, bc, bp),
        houses_only_at(a, c, ac, ap, bc, bp),
{
    let s = global_of(ac, ap);
    let e = global_of(bc, bp);
    let path = choose|path: Seq<ChunkCursor>| {
        &&& road_path(b, path)
        &&& path_between(path, ac, ap, bc, bp)
        &&& changes_within(a, b, path)
        &&& path.len() == abs_int(e.0 - s.0) + abs_int(e.1 - s.1) + 1
        &&& steps_toward(path, 0, IVec2 { x: sign_int(e.0 - s.0) as i32, y: sign_int(e.1 - s.1) as i32 })
    };
    assert forall|i: int| 0 <= i < path.len() implies (#[trigger] path[i]).placed()
        && tile_at(c, path[i].chunk_coord, path[i].local_pos) is Some by {
        assert(tile_at(b, path[i].chunk_coord, path[i].local_pos) is Some);
        assert(b.contains_key(path[i].chunk_coord));
    }
    assert(road_path(c, path));
    assert forall|k: OvermapChunkCoords, i: int|
        #![trigger c[k].overmap_tiles@[i]]
        a.contains_key(k) && 0 <= i < a[k].overmap_tiles.len() && c[k].overmap_tiles@[i] != a[k].overmap_tiles@[i]
        implies on_path(path, k, i) by {
        assert(b.contains_key(k));
        assert(c[k].overmap_tiles@[i] == b[k].overmap_tiles@[i]);
    }
    assert(changes_within(a, c, path));
    assert forall|k: OvermapChunkCoords, i: int|
        #![trigger c[k].overmap_tiles@[i]]
        a.contains_key(k) && 0 <= i < a[k].overmap_tiles.len()
            && c[k].overmap_tiles@[i] == Some(OvermapTileType::House)
            && a[k].overmap_tiles@[i] != Some(OvermapTileType::House)
        implies (k == ac && i == tile_index(ap)) || (k == bc && i == tile_index(bp)) by {
        assert(b.contains_key(k));
        assert(c[k].overmap_tiles@[i] == b[k].overmap_tiles@[i]);
    }
}

/// Draws a road between two cities of different chunks and records the
/// connection in both cities' lists.
fn connect_cities_with_road(
    game_map: &mut GameMap,
    city_a: &City,
    city_b: &City,
    rng: &mut chacha20::ChaCha8Rng,
    layout: Layout,
)
    requires
        map_wf(chunk_map(old(game_map).overmap_chunks)),
        road_drawable(chunk_map(old(game_map).overmap_chunks), *city_a, *city_b),
        city_a.overmap_chunk_coordinate != city_b.overmap_chunk_coordinate,
        chunk_map(old(game_map).overmap_chunks).contains_key(city_a.overmap_chunk_coordinate),
        chunk_map(old(game_map).overmap_chunks).contains_key(city_b.overmap_chunk_coordinate),
        city_map(chunk_map(old(game_map).overmap_chunks)[city_a.overmap_chunk_coordinate].cities).contains_key(city_a.id),
        city_map(chunk_map(old(game_map).overmap_chunks)[city_b.overmap_chunk_coordinate].cities).contains_key(city_b.id),
        city_map(chunk_map(old(game_map).overmap_chunks)[city_a.overmap_chunk_coordinate].cities)[city_a.id].position
            == city_a.position,
        city_map(chunk_map(old(game_map).overmap_chunks)[city_b.overmap_chunk_coordinate].cities)[city_b.id].position
            == city_b.position,
    ensures
        map_wf(chunk_map(final(game_map).overmap_chunks)),
        tiles_grow(chunk_map(old(game_map).overmap_chunks), chunk_map(final(game_map).overmap_chunks)),
        cities_evolve(chunk_map(old(game_map).overmap_chunks), chunk_map(final(game_map).overmap_chunks)),
        links_have_roads(chunk_map(old(game_map).overmap_chunks)) ==> links_have_roads(chunk_map(final(game_map).overmap_chunks)),
        links_returned(chunk_map(old(game_map).overmap_chunks)) ==> links_returned(chunk_map(final(game_map).overmap_chunks)),
        houses_on_cities(chunk_map(old(game_map).overmap_chunks), chunk_map(final(game_map).overmap_chunks)),
        chunk_map(final(game_map).overmap_chunks).dom() == chunk_map(old(game_map).overmap_chunks).dom(),
        tile_at(chunk_map(final(game_map).overmap_chunks), city_a.overmap_chunk_coordinate, city_a.position)
            == Some(OvermapTileType::House),
        tile_at(chunk_map(final(game_map).overmap_chunks), city_b.overmap_chunk_coordinate, city_b.position)
            == Some(OvermapTileType::House),
        roads_join(chunk_map(final(game_map).overmap_chunks), city_a.overmap_chunk_coordinate, city_a.position,
            city_b.overmap_chunk_coordinate, city_b.position),
        road_laid(chunk_map(old(game_map).overmap_chunks), chunk_map(final(game_map).overmap_chunks),
            city_a.overmap_chunk_coordinate, city_a.position, city_b.overmap_chunk_coordinate, city_b.position),
        road_walked(chunk_map(old(game_map).overmap_chunks), chunk_map(final(game_map).overmap_chunks),
            city_a.overmap_chunk_coordinate, city_a.position, city_b.overmap_chunk_coordinate, city_b.position),
        houses_only_at(chunk_map(old(game_map).overmap_chunks), chunk_map(final(game_map).overmap_chunks),
            city_a.overmap_chunk_coordinate, city_a.position, city_b.overmap_chunk_coordinate, city_b.position),
        links_returned(chunk_map(old(game_map).overmap_chunks)) ==> links_returned(chunk_map(final(game_map).overmap_chunks)),
        changes_inside(chunk_map(old(game_map).overmap_chunks), chunk_map(final(game_map).overmap_chunks),
            span_lo(*city_a, *city_b), span_hi(*city_a, *city_b)),
        side_by_side(city_a.overmap_chunk_coordinate, city_b.overmap_chunk_coordinate)
            ==> new_links_beside(chunk_map(old(game_map).overmap_chunks), chunk_map(final(game_map).overmap_chunks)),
        links_gained_from(chunk_map(old(game_map).overmap_chunks), chunk_map(final(game_map).overmap_chunks),
            city_a.overmap_chunk_coordinate, city_a.id, city_b.overmap_chunk_coordinate),
        links_unique(chunk_map(old(game_map).overmap_chunks))
            && !city_map(chunk_map(old(game_map).overmap_chunks)[city_a.overmap_chunk_coordinate].cities)[city_a.id]
                .connected_to@.contains((city_b.overmap_chunk_coordinate, city_b.id))
            && !city_map(chunk_map(old(game_map).overmap_chunks)[city_b.overmap_chunk_coordinate].cities)[city_b.id]
                .connected_to@.contains((city_a.overmap_chunk_coordinate, city_a.id))
            ==> links_unique(chunk_map(final(game_map).overmap_chunks)),
        ({
            let old_m = chunk_map(old(game_map).overmap_chunks);
            let new_m = chunk_map(final(game_map).overmap_chunks);
            let ka = city_a.overmap_chunk_coordinate;
            let kb = city_b.overmap_chunk_coordinate;
            &&& forall|j: OvermapChunkCoords| #[trigger] new_m.contains_key(j) && j != ka && j != kb
                ==> new_m[j].cities == old_m[j].cities && new_m[j].coordinates == old_m[j].coordinates
            &&& linked_once(city_map(old_m[ka].cities), city_map(new_m[ka].cities), city_a.id, (kb, city_b.id))
            &&& linked_once(city_map(old_m[kb].cities), city_map(new_m[kb].cities), city_b.id, (ka, city_a.id))
            &&& new_m[ka].coordinates == old_m[ka].coordinates
            &&& new_m[kb].coordinates == old_m[kb].coordinates
        }),
{
    let ghost m0 = chunk_map(game_map.overmap_chunks);
    match layout {
        Layout::RoadsOnly => crate::map::generator::insert_road_tiles_between_cities(
            &mut game_map.overmap_chunks, city_a.position, city_a.overmap_chunk_coordinate,
            city_b.position, city_b.overmap_chunk_coordinate, rng),
        Layout::WithHouses => insert_road_tiles_between_cities(&mut game_map.overmap_chunks, city_a, city_b, rng),
    }
    let ghost m1 = chunk_map(game_map.overmap_chunks);
    // Connect city_a to city_b
    link_city(&mut game_map.overmap_chunks, &city_a.overmap_chunk_coordinate, &city_a.id,
        (city_b.overmap_chunk_coordinate, city_b.id));
    let ghost m2 = chunk_map(game_map.overmap_chunks);
    // Connect city_b to city_a
    link_city(&mut game_map.overmap_chunks, &city_b.overmap_chunk_coordinate, &city_b.id,
        (city_a.overmap_chunk_coordinate, city_a.id));
    proof {
        let m3 = chunk_map(game_map.overmap_chunks);
        lemma_tiles_grow_trans(m0, m1, m2);
        lemma_tiles_grow_trans(m0, m2, m3);
        let ka = city_a.overmap_chunk_coordinate;
        let kb = city_b.overmap_chunk_coordinate;
        assert(m2[ka].overmap_tiles == m1[ka].overmap_tiles);
        assert(m3[ka] == m2[ka]);
        assert(m3[kb].overmap_tiles == m2[kb].overmap_tiles);
        assert(m2[kb] == m1[kb]);
        lemma_roads_join_grows(m1, m2, ka, city_a.position, kb, city_b.position);
        lemma_roads_join_grows(m2, m3, ka, city_a.position, kb, city_b.position);
        assert(m3.dom() =~= m1.dom());
        assert forall|k: OvermapChunkCoords| #[trigger] m1.contains_key(k) implies m3[k].overmap_tiles == m1[k].overmap_tiles by {
            if k != ka && k != kb {
                assert(m2[k] == m1[k]);
            }
        }
        lemma_road_laid_same_tiles(m0, m1, m3, ka, city_a.position, kb, city_b.position);
        lemma_road_walked_same_tiles(m0, m1, m3, ka, city_a.position, kb, city_b.position);
        assert forall|k: OvermapChunkCoords, i: int|
            m0.contains_key(k) && 0 <= i < m0[k].overmap_tiles.len() && #[trigger] m3[k].overmap_tiles@[i] != m0[k].overmap_tiles@[i]
            implies chunk_in_box(k, span_lo(*city_a, *city_b), span_hi(*city_a, *city_b)) by {
            assert(m1.contains_key(k));
            assert(m3[k].overmap_tiles == m1[k].overmap_tiles);
            assert(m1[k].overmap_tiles@[i] != m0[k].overmap_tiles@[i]);
        }
        assert forall|k: OvermapChunkCoords| #[trigger] m0.contains_key(k) implies m1[k].cities == m0[k].cities by {
        }
        assert forall|k: OvermapChunkCoords, x: CityId| m0.contains_key(k) && #[trigger] city_map(m0[k].cities).contains_key(x)
            && !(k == ka && x == city_a.id) && !(k == kb && x == city_b.id)
            implies city_map(m3[k].cities)[x].connected_to@ == city_map(m0[k].cities)[x].connected_to@ by {
            assert(m1[k].cities == m0[k].cities);
            if k != ka && k != kb {
                assert(m2[k] == m1[k]);
                assert(m3[k] == m2[k]);
            } else if k == ka {
                assert(m3[k] == m2[k]);
                assert(city_map(m2[k].cities)[x] == city_map(m1[k].cities)[x]);
            } else {
                assert(m2[k] == m1[k]);
                assert(city_map(m3[k].cities)[x] == city_map(m2[k].cities)[x]);
            }
        }
        if side_by_side(ka, kb) {
            assert forall|k: OvermapChunkCoords, a: CityId, j: int|
                #![trigger city_map(m3[k].cities)[a].connected_to@[j]]
                m0.contains_key(k) && city_map(m0[k].cities).contains_key(a)
                    && city_map(m0[k].cities)[a].connected_to@.len() <= j < city_map(m3[k].cities)[a].connected_to@.len()
                implies side_by_side(k, city_map(m3[k].cities)[a].connected_to@[j].0) by {
                assert(m3[ka] == m2[ka]);
                assert(m2[kb] == m1[kb]);
                if k == ka && a == city_a.id {
                    assert(city_map(m3[k].cities)[a].connected_to@[j] == (kb, city_b.id));
                } else if k == kb && a == city_b.id {
                    assert(city_map(m3[k].cities)[a].connected_to@[j] == (ka, city_a.id));
                } else {
                    assert(city_map(m3[k].cities)[a].connected_to@ == city_map(m0[k].cities)[a].connected_to@);
                }
            }
        }
        assert(m3[ka] == m2[ka]);
        assert(m2[kb] == m1[kb]);
        assert forall|k: OvermapChunkCoords, x: CityId, j: int|
            #![trigger city_map(m3[k].cities)[x].connected_to@[j]]
            m0.contains_key(k) && city_map(m0[k].cities).contains_key(x)
                && city_map(m0[k].cities)[x].connected_to@.len() <= j < city_map(m3[k].cities)[x].connected_to@.len()
            implies link_from(k, x, city_map(m3[k].cities)[x].connected_to@[j], ka, city_a.id, kb) by {
            if k == ka && x == city_a.id {
                assert(city_map(m3[k].cities)[x].connected_to@[j] == (kb, city_b.id));
            } else if k == kb && x == city_b.id {
                assert(city_map(m3[k].cities)[x].connected_to@[j] == (ka, city_a.id));
            } else {
                assert(city_map(m3[k].cities)[x].connected_to@ == city_map(m0[k].cities)[x].connected_to@);
            }
        }
        if links_unique(m0)
            && !city_map(m0[ka].cities)[city_a.id].connected_to@.contains((kb, city_b.id))
            && !city_map(m0[kb].cities)[city_b.id].connected_to@.contains((ka, city_a.id)) {
            assert forall|k: OvermapChunkCoords, x: CityId| m3.contains_key(k) && #[trigger] city_map(m3[k].cities).contains_key(x)
                implies city_map(m3[k].cities)[x].connected_to@.no_duplicates() by {
                assert(m0.contains_key(k));
                assert(city_map(m0[k].cities).contains_key(x));
                let l0 = city_map(m0[k].cities)[x].connected_to@;
                if k == ka && x == city_a.id {
                    let l = l0.push((kb, city_b.id));
                    assert(city_map(m3[k].cities)[x].connected_to@ == l);
                    assert forall|i: int, j: int| 0 <= i < l.len() && 0 <= j < l.len() && i != j implies l[i] != l[j] by {
                        if i < l0.len() && j < l0.len() {
                        } else if i < l0.len() {
                            assert(l0[i] != (kb, city_b.id));
                        } else {
                            assert(l0[j] != (kb, city_b.id));
                        }
                    }
                } else if k == kb && x == city_b.id {
                    let l = l0.push((ka, city_a.id));
                    assert(city_map(m3[k].cities)[x].connected_to@ == l);
                    assert forall|i: int, j: int| 0 <= i < l.len() && 0 <= j < l.len() && i != j implies l[i] != l[j] by {
                        if i < l0.len() && j < l0.len() {
                        } else if i < l0.len() {
                            assert(l0[i] != (ka, city_a.id));
                        } else {
                            assert(l0[j] != (ka, city_a.id));
                        }
                    }
                } else {
                    assert(city_map(m3[k].cities)[x].connected_to@ == l0);
                }
            }
        }
        if links_returned(m0) {
            assert(m3[ka] == m2[ka]);
            assert(m2[kb] == m1[kb]);
            assert(m3.dom() =~= m0.dom());
            lemma_links_returned_link(m0, m3, ka, city_a.id, kb, city_b.id);
        }
        assert(cities_evolve(m0, m3)) by {
            assert forall|k: OvermapChunkCoords| #[trigger] m0.contains_key(k) implies {
                &&& m3[k].coordinates == m0[k].coordinates
                &&& city_map(m3[k].cities).dom() == city_map(m0[k].cities).dom()
                &&& forall|id: CityId| #[trigger] city_map(m0[k].cities).contains_key(id)
                    ==> city_grows(city_map(m0[k].cities)[id], city_map(m3[k].cities)[id])
            } by {
                assert forall|id: CityId| #[trigger] city_map(m0[k].cities).contains_key(id)
                    implies city_grows(city_map(m0[k].cities)[id], city_map(m3[k].cities)[id]) by {
                    let x = city_map(m0[k].cities)[id].connected_to@;
                    let y = city_map(m3[k].cities)[id].connected_to@;
                    assert(y.take(x.len() as int) =~= x);
                }
            }
        }
        if links_have_roads(m0) {
            assert forall|k: OvermapChunkCoords, a: CityId, j: int|
                #![trigger city_map(m3[k].cities)[a].connected_to@[j]]
                m3.contains_key(k) && city_map(m3[k].cities).contains_key(a)
                    && city_map(m0[k].cities)[a].connected_to@.len() <= j < city_map(m3[k].cities)[a].connected_to@.len()
                implies link_has_road(m3, k, a, city_map(m3[k].cities)[a].connected_to@[j]) by {
                if k == ka && a == city_a.id {
                    assert(city_map(m3[kb].cities)[city_b.id].position == city_b.position);
                    assert(city_map(m3[k].cities)[a].connected_to@[j] == (kb, city_b.id));
                } else if k == kb && a == city_b.id {
                    assert(city_map(m3[ka].cities)[city_a.id].position == city_a.position);
                    assert(city_map(m3[k].cities)[a].connected_to@[j] == (ka, city_a.id));
                    lemma_roads_join_reverse(m3, ka, city_a.position, kb, city_b.position);
                } else {
                    assert(city_map(m3[k].cities)[a] == city_map(m0[k].cities)[a]);
                }
            }
            lemma_links_have_roads_keep(m0, m3);
        }
        assert forall|k: OvermapChunkCoords, i: int|
            #![trigger m3[k].overmap_tiles@[i]]
            m0.contains_key(k) && 0 <= i < m0[k].overmap_tiles.len()
                && m3[k].overmap_tiles@[i] == Some(OvermapTileType::House)
                && m0[k].overmap_tiles@[i] != Some(OvermapTileType::House)
            implies exists|id: CityId| #[trigger] city_map(m3[k].cities).contains_key(id)
                && tile_index(city_map(m3[k].cities)[id].position) == i by {
            assert(m1.contains_key(k));
            assert(m3[k].overmap_tiles == m1[k].overmap_tiles);
            if k == ka && i == tile_index(city_a.position) {
                assert(city_map(m3[ka].cities).contains_key(city_a.id));
                assert(city_map(m3[ka].cities)[city_a.id].position == city_a.position);
            } else {
                assert(k == kb && i == tile_index(city_b.position));
                assert(city_map(m3[kb].cities).contains_key(city_b.id));
                assert(city_map(m3[kb].cities)[city_b.id].position == city_b.position);
            }
        }
    }
}

/// `b` is `a` with possibly more connections appended.
pub open spec fn city_grows(a: City, b: City) -> bool {
    &&& b.id == a.id
    &&& b.position == a.position
    &&& b.overmap_chunk_coordinate == a.overmap_chunk_coordinate
    &&& b.size == a.size
    &&& a.connected_to@.len() <= b.connected_to@.len()
    &&& b.connected_to@.take(a.connected_to@.len() as int) == a.connected_to@
}

/// From `old` to `new` the same chunks hold the same cities, whose
/// connection lists only grow at their ends.
pub open spec fn cities_evolve(
    old: Map<OvermapChunkCoords, OvermapChunk>,
    new: Map<OvermapChunkCoords, OvermapChunk>,
) -> bool {
    &&& new.dom() == old.dom()
    &&& forall|k: OvermapChunkCoords| #[trigger] old.contains_key(k) ==> {
        &&& new[k].coordinates == old[k].coordinates
        &&& city_map(new[k].cities).dom() == city_map(old[k].cities).dom()
        &&& forall|id: CityId| #[trigger] city_map(old[k].cities).contains_key(id)
            ==> city_grows(city_map(old[k].cities)[id], city_map(new[k].cities)[id])
    }
}

/// Every city of chunk `c` is connected to every city of chunk `n`.
pub open spec fn pair_linked(m: Map<OvermapChunkCoords, OvermapChunk>, c: OvermapChunkCoords, n: OvermapChunkCoords) -> bool {
    forall|a: CityId, b: CityId|
        m.contains_key(c) && m.contains_key(n) && #[trigger] city_map(m[c].cities).contains_key(a)
            && #[trigger] city_map(m[n].cities).contains_key(b)
            ==> city_map(m[c].cities)[a].connected_to@.contains((n, b))
}

/// A grown city keeps every connection it had.
proof fn lemma_city_grows_keeps(a: City, b: City, link: (OvermapChunkCoords, CityId))
    requires
        city_grows(a, b),
        a.connected_to@.contains(link),
    ensures
        b.connected_to@.contains(link),
{
    let j = choose|j: int| 0 <= j < a.connected_to@.len() && a.connected_to@[j] == link;
    assert(b.connected_to@.take(a.connected_to@.len() as int)[j] == link);
}

/// Evolving cities is a preorder.
proof fn lemma_cities_evolve_trans(
    a: Map<OvermapChunkCoords, OvermapChunk>,
    b: Map<OvermapChunkCoords, OvermapChunk>,
    c: Map<OvermapChunkCoords, OvermapChunk>,
)
    requires
        cities_evolve(a, b),
        cities_evolve(b, c),
    ensures
        cities_evolve(a, c),
{
    assert forall|k: OvermapChunkCoords| #[trigger] a.contains_key(k) implies {
        &&& c[k].coordinates == a[k].coordinates
        &&& city_map(c[k].cities).dom() == city_map(a[k].cities).dom()
        &&& forall|id: CityId| #[trigger] city_map(a[k].cities).contains_key(id)
            ==> city_grows(city_map(a[k].cities)[id], city_map(c[k].cities)[id])
    } by {
        assert(b.contains_key(k));
        assert forall|id: CityId| #[trigger] city_map(a[k].cities).contains_key(id)
            implies city_grows(city_map(a[k].cities)[id], city_map(c[k].cities)[id]) by {
            assert(city_map(b[k].cities).contains_key(id));
            let x = city_map(a[k].cities)[id].connected_to@;
            let y = city_map(b[k].cities)[id].connected_to@;
            let z = city_map(c[k].cities)[id].connected_to@;
            assert(z.take(x.len() as int) =~= z.take(y.len() as int).take(x.len() as int));
        }
    }
}

/// Every map evolves into itself.
proof fn lemma_cities_evolve_refl(a: Map<OvermapChunkCoords, OvermapChunk>)
    ensures
        cities_evolve(a, a),
{
    assert forall|k: OvermapChunkCoords| #[trigger] a.contains_key(k) implies {
        &&& a[k].coordinates == a[k].coordinates
        &&& city_map(a[k].cities).dom() == city_map(a[k].cities).dom()
        &&& forall|id: CityId| #[trigger] city_map(a[k].cities).contains_key(id)
            ==> city_grows(city_map(a[k].cities)[id], city_map(a[k].cities)[id])
    } by {
        assert forall|id: CityId| #[trigger] city_map(a[k].cities).contains_key(id)
            implies city_grows(city_map(a[k].cities)[id], city_map(a[k].cities)[id]) by {
            let x = city_map(a[k].cities)[id].connected_to@;
            assert(x.take(x.len() as int) =~= x);
        }
    }
}

/// Linked pairs stay linked as cities evolve.
proof fn lemma_pair_linked_stable(
    m: Map<OvermapChunkCoords, OvermapChunk>,
    m2: Map<OvermapChunkCoords, OvermapChunk>,
    c: OvermapChunkCoords,
    n: OvermapChunkCoords,
)
    requires
        pair_linked(m, c, n),
        cities_evolve(m, m2),
    ensures
        pair_linked(m2, c, n),
{
    assert forall|a: CityId, b: CityId|
        m2.contains_key(c) && m2.contains_key(n) && #[trigger] city_map(m2[c].cities).contains_key(a)
            && #[trigger] city_map(m2[n].cities).contains_key(b)
        implies city_map(m2[c].cities)[a].connected_to@.contains((n, b)) by {
        assert(m.contains_key(c) && m.contains_key(n));
        assert(city_map(m[c].cities).contains_key(a));
        assert(city_map(m[n].cities).contains_key(b));
        lemma_city_grows_keeps(city_map(m[c].cities)[a], city_map(m2[c].cities)[a], (n, b));
    }
}

/// Copies of all cities of chunk `k`, each once, in the map's walking order.
fn city_snapshot(overmap_chunks: &ChunkMap, k: &OvermapChunkCoords) -> (r: Vec<City>)
    requires
        chunk_map(*overmap_chunks).contains_key(*k),
        cities_wf(*k, city_map(chunk_map(*overmap_chunks)[*k].cities)),
    ensures
        forall|j: int| 0 <= j < r@.len() ==> {
            let stored = city_map(chunk_map(*overmap_chunks)[*k].cities)[#[trigger] r@[j].id];
            &&& city_map(chunk_map(*overmap_chunks)[*k].cities).contains_key(r@[j].id)
            &&& r@[j].position == stored.position
            &&& r@[j].overmap_chunk_coordinate == stored.overmap_chunk_coordinate
            &&& r@[j].size == stored.size
            &&& r@[j].connected_to@ == stored.connected_to@
        },
        forall|id: CityId| #[trigger] city_map(chunk_map(*overmap_chunks)[*k].cities).contains_key(id)
            ==> exists|j: int| 0 <= j < r@.len() && r@[j].id == id,
        forall|i: int, j: int| 0 <= i < j < r@.len() ==> (#[trigger] r@[i]).id != (#[trigger] r@[j]).id,
{
    let mut r: Vec<City> = Vec::new();
    match chunk_map_get(overmap_chunks, k) {
        Some(chunk) => {
            let ids = city_map_keys(&chunk.cities);
            let mut j: usize = 0;
            while j < ids.len()
                invariant
                    j <= ids@.len(),
                    r@.len() == j,
                    *chunk == chunk_map(*overmap_chunks)[*k],
                    forall|id: CityId| ids@.contains(id) <==> city_map(chunk.cities).contains_key(id),
                    forall|q: int| 0 <= q < j ==> r@[q].id == ids@[q],
                    ids@.no_duplicates(),
                    forall|q: int| 0 <= q < r@.len() ==> {
                        let stored = city_map(chunk.cities)[#[trigger] r@[q].id];
                        &&& city_map(chunk.cities).contains_key(r@[q].id)
                        &&& r@[q].position == stored.position
                        &&& r@[q].overmap_chunk_coordinate == stored.overmap_chunk_coordinate
                        &&& r@[q].size == stored.size
                        &&& r@[q].connected_to@ == stored.connected_to@
                    },
                decreases ids@.len() - j,
            {
                let id = ids[j];
                assert(ids@.contains(id));
                match city_map_get(&chunk.cities, &id) {
                    Some(city) => {
                        let mut copy = copy_city(city);
                        copy.id = id;
                        r.push(copy);
                    },
                    None => {
                        assert(false);
                    },
                }
                j += 1;
            }
            proof {
                assert forall|id: CityId| #[trigger] city_map(chunk.cities).contains_key(id)
                    implies exists|q: int| 0 <= q < r@.len() && r@[q].id == id by {
                    assert(ids@.contains(id));
                    let q = choose|q: int| 0 <= q < ids@.len() && ids@[q] == id;
                    assert(r@[q].id == id);
                }
                assert forall|i: int, j: int| 0 <= i < j < r@.len() implies (#[trigger] r@[i]).id != (#[trigger] r@[j]).id by {
                    assert(r@[i].id == ids@[i] && r@[j].id == ids@[j]);
                }
            }
        },
        None => {},
    }
    r
}

/// Whether `links` holds `link`.
fn links_contain(links: &Vec<(OvermapChunkCoords, CityId)>, link: (OvermapChunkCoords, CityId)) -> (r: bool)
    ensures
        r == links@.contains(link),
{
    let mut j: usize = 0;
    while j < links.len()
        invariant
            j <= links@.len(),
            forall|q: int| 0 <= q < j ==> links@[q] != link,
        decreases links@.len() - j,
    {
        let l = links[j];
        if l.0 == link.0 && l.1 == link.1 {
            assert(links@[j as int] == link);
            return true;
        }
        j += 1;
    }
    false
}

/// `c` and `n` are side by side: they differ by one along exactly one axis.
pub open spec fn side_by_side(c: OvermapChunkCoords, n: OvermapChunkCoords) -> bool {
    abs_int(c.0.x - n.0.x) + abs_int(c.0.y - n.0.y) == 1
}

/// Two present chunks side by side span a rectangle of present chunks, and
/// cities in them are close enough for a road.
proof fn lemma_side_by_side_drawable(m: Map<OvermapChunkCoords, OvermapChunk>, a: City, b: City)
    requires
        map_wf(m),
        m.contains_key(a.overmap_chunk_coordinate),
        m.contains_key(b.overmap_chunk_coordinate),
        side_by_side(a.overmap_chunk_coordinate, b.overmap_chunk_coordinate),
        local_in_chunk(a.position),
        local_in_chunk(b.position),
        0 <= a.size,
        0 <= b.size,
    ensures
        road_drawable(m, a, b),
{
    let lo = span_lo(a, b);
    let hi = span_hi(a, b);
    assert forall|c: OvermapChunkCoords| #[trigger] chunk_in_box(c, lo, hi) implies m.contains_key(c) by {
        if c.0 == a.overmap_chunk_coordinate.0 {
            assert(c == a.overmap_chunk_coordinate);
        } else {
            assert(c.0 == b.overmap_chunk_coordinate.0);
            assert(c == b.overmap_chunk_coordinate);
        }
    }
}

/// Connects `city_a` of chunk `c` to every city of chunk `n` that its list
/// (as it stood when `city_a` was copied) does not name yet.
fn connect_city_to_neighbour(
    game_map: &mut GameMap,
    city_a: &City,
    n: &OvermapChunkCoords,
    n_cities: &Vec<City>,
    rng: &mut chacha20::ChaCha8Rng,
    layout: Layout,
)
    requires
        map_wf(chunk_map(old(game_map).overmap_chunks)),
        chunk_map(old(game_map).overmap_chunks).contains_key(city_a.overmap_chunk_coordinate),
        chunk_map(old(game_map).overmap_chunks).contains_key(*n),
        side_by_side(city_a.overmap_chunk_coordinate, *n),
        city_map(chunk_map(old(game_map).overmap_chunks)[city_a.overmap_chunk_coordinate].cities).contains_key(city_a.id),
        city_grows(*city_a, city_map(chunk_map(old(game_map).overmap_chunks)[city_a.overmap_chunk_coordinate].cities)[city_a.id]),
        forall|j: int| 0 <= j < n_cities@.len() ==> {
            &&& city_map(chunk_map(old(game_map).overmap_chunks)[*n].cities).contains_key(#[trigger] n_cities@[j].id)
            &&& city_grows(n_cities@[j], city_map(chunk_map(old(game_map).overmap_chunks)[*n].cities)[n_cities@[j].id])
        },
    ensures
        map_wf(chunk_map(final(game_map).overmap_chunks)),
        tiles_grow(chunk_map(old(game_map).overmap_chunks), chunk_map(final(game_map).overmap_chunks)),
        cities_evolve(chunk_map(old(game_map).overmap_chunks), chunk_map(final(game_map).overmap_chunks)),
        links_have_roads(chunk_map(old(game_map).overmap_chunks)) ==> links_have_roads(chunk_map(final(game_map).overmap_chunks)),
        links_returned(chunk_map(old(game_map).overmap_chunks)) ==> links_returned(chunk_map(final(game_map).overmap_chunks)),
        new_links_beside(chunk_map(old(game_map).overmap_chunks), chunk_map(final(game_map).overmap_chunks)),
        houses_on_cities(chunk_map(old(game_map).overmap_chunks), chunk_map(final(game_map).overmap_chunks)),
        forall|j: int| 0 <= j < n_cities@.len() ==>
            city_map(chunk_map(final(game_map).overmap_chunks)[city_a.overmap_chunk_coordinate].cities)[city_a.id]
                .connected_to@.contains((*n, #[trigger] n_cities@[j].id)),
        links_gained_from(chunk_map(old(game_map).overmap_chunks), chunk_map(final(game_map).overmap_chunks),
            city_a.overmap_chunk_coordinate, city_a.id, *n),
        changes_inside(chunk_map(old(game_map).overmap_chunks), chunk_map(final(game_map).overmap_chunks),
            chunks_lo(city_a.overmap_chunk_coordinate, *n), chunks_hi(city_a.overmap_chunk_coordinate, *n)),
        links_unique(chunk_map(old(game_map).overmap_chunks)) && links_returned(chunk_map(old(game_map).overmap_chunks))
            && (forall|i: int, k: int| 0 <= i < k < n_cities@.len() ==> (#[trigger] n_cities@[i]).id != (#[trigger] n_cities@[k]).id)
            && no_link_beyond(*city_a, city_map(chunk_map(old(game_map).overmap_chunks)[city_a.overmap_chunk_coordinate].cities)[city_a.id], *n)
            ==> links_unique(chunk_map(final(game_map).overmap_chunks)),
{
    let ghost m0 = chunk_map(game_map.overmap_chunks);
    let ghost c = city_a.overmap_chunk_coordinate;
    let ghost uniq = links_unique(m0) && links_returned(m0)
        && (forall|i: int, k: int| 0 <= i < k < n_cities@.len() ==> (#[trigger] n_cities@[i]).id != (#[trigger] n_cities@[k]).id)
        && no_link_beyond(*city_a, city_map(m0[c].cities)[city_a.id], *n);
    proof {
        lemma_tiles_grow_refl(m0);
        lemma_cities_evolve_refl(m0);
        lemma_new_links_beside_same_cities(m0, m0);
    }
    let mut j: usize = 0;
    while j < n_cities.len()
        invariant
            j <= n_cities@.len(),
            c == city_a.overmap_chunk_coordinate,
            map_wf(chunk_map(game_map.overmap_chunks)),
            tiles_grow(m0, chunk_map(game_map.overmap_chunks)),
            cities_evolve(m0, chunk_map(game_map.overmap_chunks)),
            links_have_roads(m0) ==> links_have_roads(chunk_map(game_map.overmap_chunks)),
            links_returned(m0) ==> links_returned(chunk_map(game_map.overmap_chunks)),
            new_links_beside(m0, chunk_map(game_map.overmap_chunks)),
            houses_on_cities(m0, chunk_map(game_map.overmap_chunks)),
            m0.contains_key(c),
            m0.contains_key(*n),
            side_by_side(c, *n),
            city_map(m0[c].cities).contains_key(city_a.id),
            city_grows(*city_a, city_map(m0[c].cities)[city_a.id]),
            forall|q: int| 0 <= q < n_cities@.len() ==> {
                &&& city_map(m0[*n].cities).contains_key(#[trigger] n_cities@[q].id)
                &&& city_grows(n_cities@[q], city_map(m0[*n].cities)[n_cities@[q].id])
            },
            links_gained_from(m0, chunk_map(game_map.overmap_chunks), c, city_a.id, *n),
            changes_inside(m0, chunk_map(game_map.overmap_chunks), chunks_lo(c, *n), chunks_hi(c, *n)),
            uniq == (links_unique(m0) && links_returned(m0)
                && (forall|i: int, k: int| 0 <= i < k < n_cities@.len() ==> (#[trigger] n_cities@[i]).id != (#[trigger] n_cities@[k]).id)
                && no_link_beyond(*city_a, city_map(m0[c].cities)[city_a.id], *n)),
            uniq ==> links_unique(chunk_map(game_map.overmap_chunks)),
            uniq ==> links_beyond_done(*city_a, city_map(chunk_map(game_map.overmap_chunks)[c].cities)[city_a.id], *n, n_cities@, j as int),
            forall|q: int| 0 <= q < j ==>
                city_map(chunk_map(game_map.overmap_chunks)[c].cities)[city_a.id]
                    .connected_to@.contains((*n, #[trigger] n_cities@[q].id)),
        decreases n_cities@.len() - j,
    {
        let city_b = &n_cities[j];
        let ghost m1 = chunk_map(game_map.overmap_chunks);
        proof {
            assert(city_map(m0[*n].cities).contains_key(city_b.id));
            let stored_a = city_map(m0[c].cities)[city_a.id];
            let stored_b = city_map(m0[*n].cities)[city_b.id];
            assert(city_wf(c, city_a.id, stored_a));
            assert(city_wf(*n, city_b.id, stored_b));
            assert(m1.contains_key(c));
            lemma_side_by_side_drawable(m1, *city_a, *city_b);
            assert(city_map(m1[c].cities).contains_key(city_a.id));
            assert(city_map(m1[*n].cities).contains_key(city_b.id));
            assert(city_grows(stored_a, city_map(m1[c].cities)[city_a.id]));
            assert(city_grows(stored_b, city_map(m1[*n].cities)[city_b.id]));
        }
        if !links_contain(&city_a.connected_to, (*n, city_b.id)) {
            proof {
                if uniq {
                    let la = city_map(m1[c].cities)[city_a.id].connected_to@;
                    lemma_city_grows_trans(*city_a, city_map(m0[c].cities)[city_a.id], city_map(m1[c].cities)[city_a.id]);
                    if la.contains((*n, city_b.id)) {
                        let t = choose|t: int| 0 <= t < la.len() && la[t] == (*n, city_b.id);
                        if t < city_a.connected_to@.len() {
                            assert(la.take(city_a.connected_to@.len() as int)[t] == la[t]);
                            assert(city_a.connected_to@[t] == (*n, city_b.id));
                        } else {
                            assert(la[t] == city_map(m1[c].cities)[city_a.id].connected_to@[t]);
                            let q = choose|q: int| 0 <= q < j && la[t] == (*n, #[trigger] n_cities@[q].id);
                            assert(n_cities@[q].id == n_cities@[j as int].id);
                            assert(false);
                        }
                    }
                    let lb = city_map(m1[*n].cities)[city_b.id].connected_to@;
                    if lb.contains((c, city_a.id)) {
                        assert(links_returned(m1));
                        assert(city_map(m1[*n].cities)[city_b.id].connected_to@.contains((c, city_a.id)));
                        assert(la.contains((*n, city_b.id)));
                    }
                }
            }
            connect_cities_with_road(game_map, city_a, city_b, rng, layout);
            proof {
                let m2 = chunk_map(game_map.overmap_chunks);
                assert(cities_evolve(m1, m2)) by {
                    assert forall|k: OvermapChunkCoords| #[trigger] m1.contains_key(k) implies {
                        &&& m2[k].coordinates == m1[k].coordinates
                        &&& city_map(m2[k].cities).dom() == city_map(m1[k].cities).dom()
                        &&& forall|id: CityId| #[trigger] city_map(m1[k].cities).contains_key(id)
                            ==> city_grows(city_map(m1[k].cities)[id], city_map(m2[k].cities)[id])
                    } by {
                        assert forall|id: CityId| #[trigger] city_map(m1[k].cities).contains_key(id)
                            implies city_grows(city_map(m1[k].cities)[id], city_map(m2[k].cities)[id]) by {
                            let x = city_map(m1[k].cities)[id].connected_to@;
                            let y = city_map(m2[k].cities)[id].connected_to@;
                            if (k == c && id == city_a.id) || (k == *n && id == city_b.id) {
                                assert(y.take(x.len() as int) =~= x);
                            } else {
                                assert(y.take(x.len() as int) =~= x);
                            }
                        }
                    }
                }
                lemma_houses_on_cities_trans(m0, m1, m2);
                lemma_tiles_grow_trans(m0, m1, m2);
                lemma_cities_evolve_trans(m0, m1, m2);
                lemma_new_links_beside_trans(m0, m1, m2);
                assert(city_b.overmap_chunk_coordinate == *n);
                lemma_changes_inside_trans(m0, m1, m2, chunks_lo(c, *n), chunks_hi(c, *n));
                let last = city_map(m2[c].cities)[city_a.id].connected_to@;
                assert(last[last.len() - 1] == (*n, city_b.id));
                assert forall|q: int| 0 <= q < j + 1 implies
                    city_map(m2[c].cities)[city_a.id].connected_to@.contains((*n, #[trigger] n_cities@[q].id)) by {
                    if q < j {
                        lemma_city_grows_keeps(city_map(m1[c].cities)[city_a.id], city_map(m2[c].cities)[city_a.id], (*n, n_cities@[q].id));
                    }
                }
            }
        } else {
            proof {
                let stored_a = city_map(m1[c].cities)[city_a.id];
                assert(city_grows(city_map(m0[c].cities)[city_a.id], stored_a));
                lemma_city_grows_keeps(*city_a, city_map(m0[c].cities)[city_a.id], (*n, city_b.id));
                lemma_city_grows_keeps(city_map(m0[c].cities)[city_a.id], stored_a, (*n, city_b.id));
            }
        }
        j += 1;
    }
}

/// Connections gained by one city towards one chunk are gained between the
/// two chunks, and no other city of its chunk gains any.
proof fn lemma_links_gained_from_parts(
    m1: Map<OvermapChunkCoords, OvermapChunk>,
    m2: Map<OvermapChunkCoords, OvermapChunk>,
    c: OvermapChunkCoords,
    a: CityId,
    n: OvermapChunkCoords,
)
    requires
        links_gained_from(m1, m2, c, a, n),
        cities_evolve(m1, m2),
        c != n,
    ensures
        links_gained_between(m1, m2, c, n),
        forall|x: CityId| #[trigger] city_map(m1[c].cities).contains_key(x) && x != a && m1.contains_key(c)
            ==> city_map(m2[c].cities)[x].connected_to@ == city_map(m1[c].cities)[x].connected_to@,
{
    assert forall|k: OvermapChunkCoords, x: CityId, j: int|
        #![trigger city_map(m2[k].cities)[x].connected_to@[j]]
        m1.contains_key(k) && city_map(m1[k].cities).contains_key(x)
            && city_map(m1[k].cities)[x].connected_to@.len() <= j < city_map(m2[k].cities)[x].connected_to@.len()
        implies link_between(k, city_map(m2[k].cities)[x].connected_to@[j], c, n) by {
        assert(link_from(k, x, city_map(m2[k].cities)[x].connected_to@[j], c, a, n));
    }
    assert forall|x: CityId| #[trigger] city_map(m1[c].cities).contains_key(x) && x != a && m1.contains_key(c)
        implies city_map(m2[c].cities)[x].connected_to@ == city_map(m1[c].cities)[x].connected_to@ by {
        let l1 = city_map(m1[c].cities)[x].connected_to@;
        let l2 = city_map(m2[c].cities)[x].connected_to@;
        assert(city_grows(city_map(m1[c].cities)[x], city_map(m2[c].cities)[x]));
        if l2.len() > l1.len() {
            assert(link_from(c, x, city_map(m2[c].cities)[x].connected_to@[l1.len() as int], c, a, n));
        }
        assert(l2 =~= l2.take(l1.len() as int));
    }
}

/// Every connection that the city `stored` gained since its copy `copy`
/// leads to one of the chunks at the first `i` of the coordinates `ns`.
pub open spec fn links_beyond_among(copy: City, stored: City, ns: Seq<IVec2>, i: int) -> bool {
    forall|t: int| copy.connected_to@.len() <= t < stored.connected_to@.len()
        ==> exists|q: int| 0 <= q < i && (#[trigger] stored.connected_to@[t]).0 == chunk_at(ns[q])
}

/// The city `stored` has grown from its copy `copy` without gaining any
/// connection to chunk `n`.
pub open spec fn no_link_beyond(copy: City, stored: City, n: OvermapChunkCoords) -> bool {
    forall|t: int| copy.connected_to@.len() <= t < stored.connected_to@.len()
        ==> (#[trigger] stored.connected_to@[t]).0 != n
}

/// Every connection that the city `stored` gained since its copy `copy`
/// either leads out of chunk `n` or to one of the first `j` cities of
/// `n_cities`.
pub open spec fn links_beyond_done(copy: City, stored: City, n: OvermapChunkCoords, n_cities: Seq<City>, j: int) -> bool {
    forall|t: int| copy.connected_to@.len() <= t < stored.connected_to@.len()
        ==> (#[trigger] stored.connected_to@[t]).0 != n
            || exists|q: int| 0 <= q < j && stored.connected_to@[t] == (n, #[trigger] n_cities[q].id)
}

/// Growing cities chain.
proof fn lemma_city_grows_trans(a: City, b: City, c: City)
    requires
        city_grows(a, b),
        city_grows(b, c),
    ensures
        city_grows(a, c),
{
    let x = a.connected_to@;
    let y = b.connected_to@;
    let z = c.connected_to@;
    assert(z.take(x.len() as int) =~= z.take(y.len() as int).take(x.len() as int));
}

/// A copy of every city of the chunk is listed in `cities`, and each listed
/// copy has grown into the stored city.
pub open spec fn snapshot_of(m: Map<OvermapChunkCoords, OvermapChunk>, k: OvermapChunkCoords, cities: Seq<City>) -> bool {
    &&& forall|j: int| 0 <= j < cities.len() ==> {
        &&& city_map(m[k].cities).contains_key(#[trigger] cities[j].id)
        &&& city_grows(cities[j], city_map(m[k].cities)[cities[j].id])
    }
    &&& forall|id: CityId| #[trigger] city_map(m[k].cities).contains_key(id)
        ==> exists|j: int| 0 <= j < cities.len() && cities[j].id == id
}

/// A snapshot stays a snapshot as cities evolve.
proof fn lemma_snapshot_stable(
    m: Map<OvermapChunkCoords, OvermapChunk>,
    m2: Map<OvermapChunkCoords, OvermapChunk>,
    k: OvermapChunkCoords,
    cities: Seq<City>,
)
    requires
        m.contains_key(k),
        snapshot_of(m, k, cities),
        cities_evolve(m, m2),
    ensures
        snapshot_of(m2, k, cities),
{
    assert forall|j: int| 0 <= j < cities.len() implies {
        &&& city_map(m2[k].cities).contains_key(#[trigger] cities[j].id)
        &&& city_grows(cities[j], city_map(m2[k].cities)[cities[j].id])
    } by {
        lemma_city_grows_trans(cities[j], city_map(m[k].cities)[cities[j].id], city_map(m2[k].cities)[cities[j].id]);
    }
    assert forall|id: CityId| #[trigger] city_map(m2[k].cities).contains_key(id)
        implies exists|j: int| 0 <= j < cities.len() && cities[j].id == id by {
        assert(city_map(m[k].cities).contains_key(id));
    }
}

/// The copies `city_snapshot` returns are a snapshot.
proof fn lemma_city_snapshot_is_snapshot(m: Map<OvermapChunkCoords, OvermapChunk>, k: OvermapChunkCoords, cities: Seq<City>)
    requires
        m.contains_key(k),
        cities_wf(k, city_map(m[k].cities)),
        forall|j: int| 0 <= j < cities.len() ==> {
            let stored = city_map(m[k].cities)[#[trigger] cities[j].id];
            &&& city_map(m[k].cities).contains_key(cities[j].id)
            &&& cities[j].position == stored.position
            &&& cities[j].overmap_chunk_coordinate == stored.overmap_chunk_coordinate
            &&& cities[j].size == stored.size
            &&& cities[j].connected_to@ == stored.connected_to@
        },
        forall|id: CityId| #[trigger] city_map(m[k].cities).contains_key(id)
            ==> exists|j: int| 0 <= j < cities.len() && cities[j].id == id,
    ensures
        snapshot_of(m, k, cities),
{
    assert forall|j: int| 0 <= j < cities.len() implies {
        &&& city_map(m[k].cities).contains_key(#[trigger] cities[j].id)
        &&& city_grows(cities[j], city_map(m[k].cities)[cities[j].id])
    } by {
        let stored = city_map(m[k].cities)[cities[j].id];
        assert(city_wf(k, cities[j].id, stored));
        assert(stored.connected_to@.take(cities[j].connected_to@.len() as int) =~= cities[j].connected_to@);
    }
}

/// Connects every city of chunk `c`, as copied in `c_cities`, to every city
/// of the neighbouring chunk `n` that it is not yet connected to.
fn connect_with_neighbour(
    game_map: &mut GameMap,
    c: &OvermapChunkCoords,
    c_cities: &Vec<City>,
    n: &OvermapChunkCoords,
    rng: &mut chacha20::ChaCha8Rng,
    layout: Layout,
)
    requires
        map_wf(chunk_map(old(game_map).overmap_chunks)),
        chunk_map(old(game_map).overmap_chunks).contains_key(*c),
        chunk_map(old(game_map).overmap_chunks).contains_key(*n),
        side_by_side(*c, *n),
        snapshot_of(chunk_map(old(game_map).overmap_chunks), *c, c_cities@),
        forall|i: int, k: int| 0 <= i < k < c_cities@.len() ==> (#[trigger] c_cities@[i]).id != (#[trigger] c_cities@[k]).id,
    ensures
        links_gained_between(chunk_map(old(game_map).overmap_chunks), chunk_map(final(game_map).overmap_chunks), *c, *n),
        changes_inside(chunk_map(old(game_map).overmap_chunks), chunk_map(final(game_map).overmap_chunks),
            chunks_lo(*c, *n), chunks_hi(*c, *n)),
        links_unique(chunk_map(old(game_map).overmap_chunks)) && links_returned(chunk_map(old(game_map).overmap_chunks))
            && (forall|q: int| 0 <= q < c_cities@.len() ==> no_link_beyond(#[trigger] c_cities@[q],
                city_map(chunk_map(old(game_map).overmap_chunks)[*c].cities)[c_cities@[q].id], *n))
            ==> links_unique(chunk_map(final(game_map).overmap_chunks)),
        map_wf(chunk_map(final(game_map).overmap_chunks)),
        tiles_grow(chunk_map(old(game_map).overmap_chunks), chunk_map(final(game_map).overmap_chunks)),
        cities_evolve(chunk_map(old(game_map).overmap_chunks), chunk_map(final(game_map).overmap_chunks)),
        links_have_roads(chunk_map(old(game_map).overmap_chunks)) ==> links_have_roads(chunk_map(final(game_map).overmap_chunks)),
        links_returned(chunk_map(old(game_map).overmap_chunks)) ==> links_returned(chunk_map(final(game_map).overmap_chunks)),
        new_links_beside(chunk_map(old(game_map).overmap_chunks), chunk_map(final(game_map).overmap_chunks)),
        houses_on_cities(chunk_map(old(game_map).overmap_chunks), chunk_map(final(game_map).overmap_chunks)),
        pair_linked(chunk_map(final(game_map).overmap_chunks), *c, *n),
{
    let ghost m0 = chunk_map(game_map.overmap_chunks);
    let ghost uniq = links_unique(m0) && links_returned(m0)
        && (forall|q: int| 0 <= q < c_cities@.len() ==> no_link_beyond(#[trigger] c_cities@[q],
            city_map(m0[*c].cities)[c_cities@[q].id], *n));
    let n_cities = city_snapshot(&game_map.overmap_chunks, n);
    proof {
        lemma_city_snapshot_is_snapshot(m0, *n, n_cities@);
        lemma_tiles_grow_refl(m0);
        lemma_cities_evolve_refl(m0);
        lemma_new_links_beside_same_cities(m0, m0);
    }
    let mut ja: usize = 0;
    while ja < c_cities.len()
        invariant
            ja <= c_cities@.len(),
            map_wf(chunk_map(game_map.overmap_chunks)),
            tiles_grow(m0, chunk_map(game_map.overmap_chunks)),
            cities_evolve(m0, chunk_map(game_map.overmap_chunks)),
            links_have_roads(m0) ==> links_have_roads(chunk_map(game_map.overmap_chunks)),
            links_returned(m0) ==> links_returned(chunk_map(game_map.overmap_chunks)),
            new_links_beside(m0, chunk_map(game_map.overmap_chunks)),
            houses_on_cities(m0, chunk_map(game_map.overmap_chunks)),
            m0.contains_key(*c),
            m0.contains_key(*n),
            side_by_side(*c, *n),
            snapshot_of(m0, *c, c_cities@),
            snapshot_of(m0, *n, n_cities@),
            forall|q: int, jb: int| 0 <= q < ja && 0 <= jb < n_cities@.len() ==>
                city_map(chunk_map(game_map.overmap_chunks)[*c].cities)[#[trigger] c_cities@[q].id]
                    .connected_to@.contains((*n, #[trigger] n_cities@[jb].id)),
            forall|i: int, k: int| 0 <= i < k < c_cities@.len() ==> (#[trigger] c_cities@[i]).id != (#[trigger] c_cities@[k]).id,
            forall|i: int, k: int| 0 <= i < k < n_cities@.len() ==> (#[trigger] n_cities@[i]).id != (#[trigger] n_cities@[k]).id,
            links_gained_between(m0, chunk_map(game_map.overmap_chunks), *c, *n),
            changes_inside(m0, chunk_map(game_map.overmap_chunks), chunks_lo(*c, *n), chunks_hi(*c, *n)),
            uniq == (links_unique(m0) && links_returned(m0)
                && (forall|q: int| 0 <= q < c_cities@.len() ==> no_link_beyond(#[trigger] c_cities@[q],
                    city_map(m0[*c].cities)[c_cities@[q].id], *n))),
            uniq ==> links_unique(chunk_map(game_map.overmap_chunks)),
            uniq ==> forall|q: int| ja <= q < c_cities@.len() ==> no_link_beyond(#[trigger] c_cities@[q],
                city_map(chunk_map(game_map.overmap_chunks)[*c].cities)[c_cities@[q].id], *n),
        decreases c_cities@.len() - ja,
    {
        let ghost m1 = chunk_map(game_map.overmap_chunks);
        proof {
            lemma_snapshot_stable(m0, m1, *c, c_cities@);
            lemma_snapshot_stable(m0, m1, *n, n_cities@);
            let stored = city_map(m1[*c].cities)[c_cities@[ja as int].id];
            assert(city_wf(*c, c_cities@[ja as int].id, stored));
        }
        connect_city_to_neighbour(game_map, &c_cities[ja], n, &n_cities, rng, layout);
        proof {
            let m2 = chunk_map(game_map.overmap_chunks);
            lemma_houses_on_cities_trans(m0, m1, m2);
            lemma_tiles_grow_trans(m0, m1, m2);
            lemma_cities_evolve_trans(m0, m1, m2);
            lemma_new_links_beside_trans(m0, m1, m2);
            let a_id = c_cities@[ja as int].id;
            assert(*c != *n);
            lemma_links_gained_from_parts(m1, m2, *c, a_id, *n);
            lemma_links_gained_between_trans(m0, m1, m2, *c, *n);
            assert(c_cities@[ja as int].overmap_chunk_coordinate == *c);
            lemma_changes_inside_trans(m0, m1, m2, chunks_lo(*c, *n), chunks_hi(*c, *n));
            if uniq {
                assert(no_link_beyond(c_cities@[ja as int], city_map(m1[*c].cities)[a_id], *n));
                assert(links_unique(m2));
                assert forall|q: int| ja + 1 <= q < c_cities@.len() implies no_link_beyond(#[trigger] c_cities@[q],
                    city_map(m2[*c].cities)[c_cities@[q].id], *n) by {
                    assert(c_cities@[q].id != a_id);
                    assert(city_map(m1[*c].cities).contains_key(c_cities@[q].id));
                    assert(city_map(m2[*c].cities)[c_cities@[q].id].connected_to@ == city_map(m1[*c].cities)[c_cities@[q].id].connected_to@);
                    assert(no_link_beyond(c_cities@[q], city_map(m1[*c].cities)[c_cities@[q].id], *n));
                }
            }
            assert forall|q: int, jb: int| 0 <= q < ja + 1 && 0 <= jb < n_cities@.len() implies
                city_map(m2[*c].cities)[#[trigger] c_cities@[q].id]
                    .connected_to@.contains((*n, #[trigger] n_cities@[jb].id)) by {
                if q < ja {
                    lemma_city_grows_keeps(city_map(m1[*c].cities)[c_cities@[q].id], city_map(m2[*c].cities)[c_cities@[q].id],
                        (*n, n_cities@[jb].id));
                }
            }
        }
        ja += 1;
    }
    proof {
        let m = chunk_map(game_map.overmap_chunks);
        assert forall|a: CityId, b: CityId|
            m.contains_key(*c) && m.contains_key(*n) && #[trigger] city_map(m[*c].cities).contains_key(a)
                && #[trigger] city_map(m[*n].cities).contains_key(b)
            implies city_map(m[*c].cities)[a].connected_to@.contains((*n, b)) by {
            assert(city_map(m0[*c].cities).contains_key(a));
            assert(city_map(m0[*n].cities).contains_key(b));
            let q = choose|q: int| 0 <= q < c_cities@.len() && c_cities@[q].id == a;
            let jb = choose|jb: int| 0 <= jb < n_cities@.len() && n_cities@[jb].id == b;
            assert(city_map(m[*c].cities)[c_cities@[q].id].connected_to@.contains((*n, n_cities@[jb].id)));
        }
    }
}

/// The chunk at grid coordinates `c`.
pub open spec fn chunk_at(c: IVec2) -> OvermapChunkCoords {
    OvermapChunkCoords(c)
}

/// The chunk coordinates around which generation is centred leave room for
/// the two rings of chunks around them within the coordinate bound.
pub open spec fn centre_ok(current: IVec2) -> bool {
    coord_within(OvermapChunkCoords(current), -2)
}

/// Every city of every chunk within one chunk of `current` is connected to
/// every city of each of its four side neighbours.
pub open spec fn connected_around(m: Map<OvermapChunkCoords, OvermapChunk>, current: IVec2) -> bool {
    forall|j: int, ni: int| 0 <= j < 9 && 0 <= ni < 4 ==>
        #[trigger] pair_linked(m, chunk_at(square_cell(current, 1, j)),
            chunk_at(#[trigger] cardinal_neighbours(square_cell(current, 1, j))[ni]))
}

/// A chunk within `r` of `current` lies in the square of radius `r` around it.
proof fn lemma_near_in_square(current: IVec2, c: IVec2, r: int)
    requires
        centre_ok(current),
        0 <= r <= 2,
        abs_int(c.x - current.x) <= r,
        abs_int(c.y - current.y) <= r,
    ensures
        chunk_in_box(chunk_at(c), square_lo(chunk_at(current), 2), square_hi(chunk_at(current), 2)),
{
}

/// Connects the cities of every chunk within one chunk of
/// `current_overmap_coordinate` with the cities of each side neighbour that
/// they are not yet connected to, drawing a road for each new connection.
fn connect_cities(game_map: &mut GameMap, current_overmap_coordinate: IVec2, rng: &mut chacha20::ChaCha8Rng, layout: Layout)
    requires
        map_wf(chunk_map(old(game_map).overmap_chunks)),
        centre_ok(current_overmap_coordinate),
        box_present(chunk_map(old(game_map).overmap_chunks), square_lo(chunk_at(current_overmap_coordinate), 2),
            square_hi(chunk_at(current_overmap_coordinate), 2)),
    ensures
        map_wf(chunk_map(final(game_map).overmap_chunks)),
        tiles_grow(chunk_map(old(game_map).overmap_chunks), chunk_map(final(game_map).overmap_chunks)),
        cities_evolve(chunk_map(old(game_map).overmap_chunks), chunk_map(final(game_map).overmap_chunks)),
        links_have_roads(chunk_map(old(game_map).overmap_chunks)) ==> links_have_roads(chunk_map(final(game_map).overmap_chunks)),
        links_returned(chunk_map(old(game_map).overmap_chunks)) ==> links_returned(chunk_map(final(game_map).overmap_chunks)),
        new_links_beside(chunk_map(old(game_map).overmap_chunks), chunk_map(final(game_map).overmap_chunks)),
        houses_on_cities(chunk_map(old(game_map).overmap_chunks), chunk_map(final(game_map).overmap_chunks)),
        connected_around(chunk_map(final(game_map).overmap_chunks), current_overmap_coordinate),
        links_unique(chunk_map(old(game_map).overmap_chunks)) && links_returned(chunk_map(old(game_map).overmap_chunks))
            ==> links_unique(chunk_map(final(game_map).overmap_chunks)),
        changes_inside(chunk_map(old(game_map).overmap_chunks), chunk_map(final(game_map).overmap_chunks),
            square_lo(chunk_at(current_overmap_coordinate), 2), square_hi(chunk_at(current_overmap_coordinate), 2)),
        links_gained_inside(chunk_map(old(game_map).overmap_chunks), chunk_map(final(game_map).overmap_chunks),
            square_lo(chunk_at(current_overmap_coordinate), 2), square_hi(chunk_at(current_overmap_coordinate), 2)),
{
    let ghost m0 = chunk_map(game_map.overmap_chunks);
    let ghost lo = square_lo(chunk_at(current_overmap_coordinate), 2);
    let ghost hi = square_hi(chunk_at(current_overmap_coordinate), 2);
    let coords = get_coords_in_square_radius(current_overmap_coordinate, 1, false);
    proof {
        assert(square_width(1) == 3);
        assert(square_width(1) * square_width(1) == 9) by (nonlinear_arith)
            requires
                square_width(1) == 3,
        ;
        assert(coords@ == crate::utils::square_coords(current_overmap_coordinate, 1, false, 9));
        lemma_square_full(current_overmap_coordinate, 1, 9);
        lemma_tiles_grow_refl(m0);
        lemma_cities_evolve_refl(m0);
        lemma_new_links_beside_same_cities(m0, m0);
    }
    let mut ci: usize = 0;
    while ci < coords.len()
        invariant
            ci <= coords@.len(),
            coords@.len() == 9,
            forall|j: int| 0 <= j < 9 ==> #[trigger] coords@[j] == square_cell(current_overmap_coordinate, 1, j),
            centre_ok(current_overmap_coordinate),
            lo == square_lo(chunk_at(current_overmap_coordinate), 2),
            hi == square_hi(chunk_at(current_overmap_coordinate), 2),
            box_present(m0, lo, hi),
            map_wf(chunk_map(game_map.overmap_chunks)),
            tiles_grow(m0, chunk_map(game_map.overmap_chunks)),
            cities_evolve(m0, chunk_map(game_map.overmap_chunks)),
            links_have_roads(m0) ==> links_have_roads(chunk_map(game_map.overmap_chunks)),
            links_returned(m0) ==> links_returned(chunk_map(game_map.overmap_chunks)),
            new_links_beside(m0, chunk_map(game_map.overmap_chunks)),
            houses_on_cities(m0, chunk_map(game_map.overmap_chunks)),
            forall|j: int, ni: int| 0 <= j < ci && 0 <= ni < 4 ==>
                #[trigger] pair_linked(chunk_map(game_map.overmap_chunks), chunk_at(square_cell(current_overmap_coordinate, 1, j)),
                    chunk_at(#[trigger] cardinal_neighbours(square_cell(current_overmap_coordinate, 1, j))[ni])),
            links_unique(m0) && links_returned(m0) ==> links_unique(chunk_map(game_map.overmap_chunks)),
            changes_inside(m0, chunk_map(game_map.overmap_chunks), lo, hi),
            links_gained_inside(m0, chunk_map(game_map.overmap_chunks), lo, hi),
        decreases coords@.len() - ci,
    {
        let overmap_coord = coords[ci];
        let current_chunk_coordinate = OvermapChunkCoords(overmap_coord);
        let ghost m1 = chunk_map(game_map.overmap_chunks);
        proof {
            assert(square_width(1) == 3);
        assert(square_width(1) * square_width(1) == 9);
            lemma_square_cell_offsets(current_overmap_coordinate, 1, ci as int);
            lemma_near_in_square(current_overmap_coordinate, overmap_coord, 1);
            assert(m0.contains_key(current_chunk_coordinate));
            assert(m1.contains_key(current_chunk_coordinate));
        }
        let current_chunk_cities = city_snapshot(&game_map.overmap_chunks, &current_chunk_coordinate);
        proof {
            lemma_city_snapshot_is_snapshot(m1, current_chunk_coordinate, current_chunk_cities@);
            lemma_cities_evolve_refl(m1);
        }
        let coordinates_to_check = get_neighbouring_cardinal_coordinates(overmap_coord);
        let mut ni: usize = 0;
        while ni < 4
            invariant
                ni <= 4,
                coordinates_to_check@ == cardinal_neighbours(overmap_coord),
                overmap_coord == square_cell(current_overmap_coordinate, 1, ci as int),
                current_chunk_coordinate == chunk_at(overmap_coord),
                abs_int(overmap_coord.x - current_overmap_coordinate.x) <= 1,
                abs_int(overmap_coord.y - current_overmap_coordinate.y) <= 1,
                centre_ok(current_overmap_coordinate),
                lo == square_lo(chunk_at(current_overmap_coordinate), 2),
                hi == square_hi(chunk_at(current_overmap_coordinate), 2),
                box_present(m0, lo, hi),
                m1.contains_key(current_chunk_coordinate),
                snapshot_of(m1, current_chunk_coordinate, current_chunk_cities@),
                map_wf(chunk_map(game_map.overmap_chunks)),
                tiles_grow(m0, chunk_map(game_map.overmap_chunks)),
                cities_evolve(m0, chunk_map(game_map.overmap_chunks)),
                cities_evolve(m1, chunk_map(game_map.overmap_chunks)),
                links_have_roads(m0) ==> links_have_roads(chunk_map(game_map.overmap_chunks)),
                links_returned(m0) ==> links_returned(chunk_map(game_map.overmap_chunks)),
                new_links_beside(m0, chunk_map(game_map.overmap_chunks)),
            new_links_beside(m0, chunk_map(game_map.overmap_chunks)),
                houses_on_cities(m0, chunk_map(game_map.overmap_chunks)),
                forall|j: int, nj: int| 0 <= j < ci && 0 <= nj < 4 ==>
                    #[trigger] pair_linked(chunk_map(game_map.overmap_chunks), chunk_at(square_cell(current_overmap_coordinate, 1, j)),
                        chunk_at(#[trigger] cardinal_neighbours(square_cell(current_overmap_coordinate, 1, j))[nj])),
                forall|nj: int| 0 <= nj < ni ==>
                    #[trigger] pair_linked(chunk_map(game_map.overmap_chunks), current_chunk_coordinate,
                        chunk_at(cardinal_neighbours(overmap_coord)[nj])),
                forall|i: int, k: int| 0 <= i < k < current_chunk_cities@.len()
                    ==> (#[trigger] current_chunk_cities@[i]).id != (#[trigger] current_chunk_cities@[k]).id,
                links_unique(m0) && links_returned(m0) ==> links_unique(chunk_map(game_map.overmap_chunks)),
                changes_inside(m0, chunk_map(game_map.overmap_chunks), lo, hi),
                links_gained_inside(m0, chunk_map(game_map.overmap_chunks), lo, hi),
                links_unique(m0) && links_returned(m0) ==> forall|q: int| 0 <= q < current_chunk_cities@.len()
                    ==> links_beyond_among(#[trigger] current_chunk_cities@[q],
                        city_map(chunk_map(game_map.overmap_chunks)[current_chunk_coordinate].cities)[current_chunk_cities@[q].id],
                        cardinal_neighbours(overmap_coord), ni as int),
            decreases 4 - ni,
        {
            let neighbouring_chunk_coordinate = OvermapChunkCoords(coordinates_to_check[ni]);
            let ghost m2 = chunk_map(game_map.overmap_chunks);
            proof {
                let nc = cardinal_neighbours(overmap_coord)[ni as int];
                lemma_near_in_square(current_overmap_coordinate, nc, 2);
                assert(m0.contains_key(neighbouring_chunk_coordinate));
                assert(m0.contains_key(current_chunk_coordinate));
                lemma_snapshot_stable(m1, m2, current_chunk_coordinate, current_chunk_cities@);
            }
            proof {
                if links_unique(m0) && links_returned(m0) {
                    let nb = cardinal_neighbours(overmap_coord);
                    assert forall|q: int| 0 <= q < current_chunk_cities@.len() implies no_link_beyond(#[trigger] current_chunk_cities@[q],
                        city_map(m2[current_chunk_coordinate].cities)[current_chunk_cities@[q].id], neighbouring_chunk_coordinate) by {
                        let copy = current_chunk_cities@[q];
                        let stored = city_map(m2[current_chunk_coordinate].cities)[copy.id];
                        assert(links_beyond_among(copy, stored, nb, ni as int));
                        assert forall|t: int| copy.connected_to@.len() <= t < stored.connected_to@.len()
                            implies (#[trigger] stored.connected_to@[t]).0 != neighbouring_chunk_coordinate by {
                            let qq = choose|qq: int| 0 <= qq < ni && (#[trigger] stored.connected_to@[t]).0 == chunk_at(nb[qq]);
                            assert(nb[qq] != nb[ni as int]);
                        }
                    }
                }
            }
            connect_with_neighbour(game_map, &current_chunk_coordinate, &current_chunk_cities, &neighbouring_chunk_coordinate, rng, layout);
            proof {
                let m3 = chunk_map(game_map.overmap_chunks);
                lemma_houses_on_cities_trans(m0, m2, m3);
                lemma_tiles_grow_trans(m0, m2, m3);
                lemma_cities_evolve_trans(m0, m2, m3);
                lemma_new_links_beside_trans(m0, m2, m3);
                lemma_changes_inside_widen(m2, m3, chunks_lo(current_chunk_coordinate, neighbouring_chunk_coordinate),
                    chunks_hi(current_chunk_coordinate, neighbouring_chunk_coordinate), lo, hi);
                lemma_changes_inside_trans(m0, m2, m3, lo, hi);
                assert(chunk_in_box(current_chunk_coordinate, lo, hi));
                assert(chunk_in_box(neighbouring_chunk_coordinate, lo, hi));
                lemma_links_between_inside(m2, m3, current_chunk_coordinate, neighbouring_chunk_coordinate, lo, hi);
                lemma_links_gained_inside_trans(m0, m2, m3, lo, hi);
                if links_unique(m0) && links_returned(m0) {
                    let nb = cardinal_neighbours(overmap_coord);
                    assert forall|q: int| 0 <= q < current_chunk_cities@.len() implies links_beyond_among(#[trigger] current_chunk_cities@[q],
                        city_map(m3[current_chunk_coordinate].cities)[current_chunk_cities@[q].id], nb, ni + 1) by {
                        let copy = current_chunk_cities@[q];
                        let s2 = city_map(m2[current_chunk_coordinate].cities)[copy.id];
                        let s3 = city_map(m3[current_chunk_coordinate].cities)[copy.id];
                        assert(city_map(m2[current_chunk_coordinate].cities).contains_key(copy.id));
                        assert(city_grows(s2, s3));
                        assert(links_beyond_among(copy, s2, nb, ni as int));
                        assert forall|t: int| copy.connected_to@.len() <= t < s3.connected_to@.len()
                            implies exists|qq: int| 0 <= qq < ni + 1 && (#[trigger] s3.connected_to@[t]).0 == chunk_at(nb[qq]) by {
                            if t < s2.connected_to@.len() {
                                assert(s3.connected_to@.take(s2.connected_to@.len() as int)[t] == s3.connected_to@[t]);
                                assert(s3.connected_to@[t] == s2.connected_to@[t]);
                                let qq = choose|qq: int| 0 <= qq < ni && (#[trigger] s2.connected_to@[t]).0 == chunk_at(nb[qq]);
                                assert(s3.connected_to@[t].0 == chunk_at(nb[qq]));
                            } else {
                                assert(link_between(current_chunk_coordinate,
                                    city_map(m3[current_chunk_coordinate].cities)[copy.id].connected_to@[t],
                                    current_chunk_coordinate, neighbouring_chunk_coordinate));
                                assert(s3.connected_to@[t].0 == chunk_at(nb[ni as int]));
                            }
                        }
                    }
                }
                lemma_cities_evolve_trans(m1, m2, m3);
                assert forall|j: int, nj: int| 0 <= j < ci && 0 <= nj < 4 implies
                    #[trigger] pair_linked(m3, chunk_at(square_cell(current_overmap_coordinate, 1, j)),
                        chunk_at(#[trigger] cardinal_neighbours(square_cell(current_overmap_coordinate, 1, j))[nj])) by {
                    lemma_pair_linked_stable(m2, m3, chunk_at(square_cell(current_overmap_coordinate, 1, j)),
                        chunk_at(cardinal_neighbours(square_cell(current_overmap_coordinate, 1, j))[nj]));
                }
                assert forall|nj: int| 0 <= nj < ni + 1 implies
                    #[trigger] pair_linked(m3, current_chunk_coordinate, chunk_at(cardinal_neighbours(overmap_coord)[nj])) by {
                    if nj < ni {
                        lemma_pair_linked_stable(m2, m3, current_chunk_coordinate, chunk_at(cardinal_neighbours(overmap_coord)[nj]));
                    }
                }
            }
            ni += 1;
        }
        ci += 1;
    }
}

/// Whether a tile one step from a candidate leaves room for the building to
/// grow: the tile is unset, or it is not both a road and a house. No tile is
/// both, so every tile counts as free.
fn tile_is_free(tile: Option<OvermapTileType>) -> (r: bool)
    ensures
        r == true,
{
    match tile {
        None => true,
        Some(x) => x != OvermapTileType::Road || x != OvermapTileType::House,
    }
}

/// The footprint offsets of a candidate facing a unit direction lie within
/// one tile of its anchor.
proof fn lemma_footprint_small(shape: BuildingShape, d: IVec2)
    requires
        unit_cardinal(d),
    ensures
        forall|k: int| 0 <= k < footprint_of(shape, d).len() ==>
            -1 <= (#[trigger] footprint_of(shape, d)[k]).x <= 1 && -1 <= footprint_of(shape, d)[k].y <= 1,
        footprint_fits(shape, d),
{
}

/// The occupancy map `m` has a list for `key`.
pub open spec fn listed(m: Map<(OvermapChunkCoords, IVec2), Seq<usize>>, key: (OvermapChunkCoords, IVec2)) -> bool {
    m.contains_key(key)
}

/// `c` enlarged to a two by two building under the id `id`.
pub open spec fn enlarged(c: BuildingCandidate, id: usize) -> BuildingCandidate {
    BuildingCandidate {
        id,
        position: c.position,
        chunk_coord: c.chunk_coord,
        direction_to_road: c.direction_to_road,
        shape: BuildingShape::TwoByTwo,
    }
}

/// The chunk and local position of tile `q` of the footprint of `c`.
pub open spec fn footprint_cell(c: BuildingCandidate, q: int) -> (OvermapChunkCoords, IVec2) {
    shifted(ChunkCursor { chunk_coord: c.chunk_coord, local_pos: c.position }, footprint_of(c.shape, c.direction_to_road)[q])
}

/// The candidate `id` of `after` is a two by two copy, under that id, of some
/// candidate of `before`.
pub open spec fn enlarges_some(
    before: Map<usize, BuildingCandidate>,
    after: Map<usize, BuildingCandidate>,
    id: usize,
) -> bool {
    exists|o: usize| #[trigger] before.contains_key(o) && after[id] == enlarged(before[o], id)
}

/// The occupancy maps `occ0` and `occ1` agree at `key`.
pub open spec fn list_kept(
    occ0: Map<(OvermapChunkCoords, IVec2), Seq<usize>>,
    occ1: Map<(OvermapChunkCoords, IVec2), Seq<usize>>,
    key: (OvermapChunkCoords, IVec2),
) -> bool {
    occ1.contains_key(key) == occ0.contains_key(key) && (occ0.contains_key(key) ==> occ1[key] == occ0[key])
}

/// Some candidate of `after` with an id from `c0` up to `c1` covers `key`.
pub open spec fn covered_by_new(c0: usize, c1: usize, after: Map<usize, BuildingCandidate>, key: (OvermapChunkCoords, IVec2)) -> bool {
    exists|id: usize, q: int| c0 <= id < c1 && 0 <= q < 4 && #[trigger] footprint_cell(after[id], q) == key
}

/// Every candidate of `before` was enlarged: the ids from `c0` up to `c1`
/// are new, one for each candidate, each holding a two by two copy of its
/// candidate; each tile of a new candidate's footprint lists its id, and no
/// tile's list changed but those the new candidates cover.
pub open spec fn candidates_enlarged(
    c0: usize,
    c1: usize,
    before: Map<usize, BuildingCandidate>,
    after: Map<usize, BuildingCandidate>,
    occ0: Map<(OvermapChunkCoords, IVec2), Seq<usize>>,
    occ1: Map<(OvermapChunkCoords, IVec2), Seq<usize>>,
) -> bool {
    &&& c1 == c0 + before.dom().len()
    &&& forall|id: usize| #[trigger] after.contains_key(id) <==> (before.contains_key(id) || c0 <= id < c1)
    &&& forall|id: usize| c0 <= id < c1 ==> #[trigger] enlarges_some(before, after, id)
    &&& forall|o: usize| #[trigger] before.contains_key(o) ==> exists|id: usize| c0 <= id < c1
        && #[trigger] after[id] == enlarged(before[o], id)
    &&& forall|id: usize, q: int| c0 <= id < c1 && 0 <= q < 4 ==>
        #[trigger] occ1.contains_key(footprint_cell(after[id], q)) && occ1[footprint_cell(after[id], q)].contains(id)
    &&& forall|key: (OvermapChunkCoords, IVec2)| !#[trigger] list_kept(occ0, occ1, key) ==> covered_by_new(c0, c1, after, key)
}

/// The enlargement loop's record of new candidates and covered tiles, merged
/// into the old ones, is an enlargement of every old candidate.
proof fn lemma_candidates_enlarged(
    c0: usize,
    before: Map<usize, BuildingCandidate>,
    occ0: Map<(OvermapChunkCoords, IVec2), Seq<usize>>,
    ids: Seq<usize>,
    nc: Map<usize, BuildingCandidate>,
    no: Map<(OvermapChunkCoords, IVec2), Seq<usize>>,
)
    requires
        ids.len() == before.dom().len(),
        forall|id: usize| ids.contains(id) <==> before.contains_key(id),
        forall|id: usize| #[trigger] before.contains_key(id) ==> id < c0,
        c0 + ids.len() <= usize::MAX,
        forall|id: usize| #[trigger] nc.contains_key(id) <==> c0 <= id < c0 + ids.len(),
        forall|t: int| 0 <= t < ids.len() ==>
            #[trigger] nc[(c0 + t) as usize] == enlarged(before[ids[t]], (c0 + t) as usize),
        forall|t: int, q: int| 0 <= t < ids.len() && 0 <= q < 4 ==> {
            let key = #[trigger] footprint_cell(enlarged(before[ids[t]], (c0 + t) as usize), q);
            &&& no.contains_key(key)
            &&& no[key].contains((c0 + t) as usize)
        },
        forall|key: (OvermapChunkCoords, IVec2)| #[trigger] listed(no, key)
            ==> exists|t: int, q: int| 0 <= t < ids.len() && 0 <= q < 4
                && #[trigger] footprint_cell(enlarged(before[ids[t]], (c0 + t) as usize), q) == key,
    ensures
        candidates_enlarged(c0, (c0 + ids.len()) as usize, before, before.union_prefer_right(nc), occ0,
            occ0.union_prefer_right(no)),
{
    let c1 = (c0 + ids.len()) as usize;
    let after = before.union_prefer_right(nc);
    let occ1 = occ0.union_prefer_right(no);
    assert forall|id: usize| #[trigger] after.contains_key(id) <==> (before.contains_key(id) || c0 <= id < c1) by {
    }
    assert forall|id: usize| c0 <= id < c1 implies #[trigger] enlarges_some(before, after, id) by {
        let t = id - c0;
        assert(0 <= t < ids.len());
        assert((c0 + t) as usize == id);
        assert(nc.contains_key(id));
        assert(after[id] == nc[id]);
        assert(nc[(c0 + t) as usize] == enlarged(before[ids[t]], (c0 + t) as usize));
        assert(ids.contains(ids[t]));
        assert(before.contains_key(ids[t]));
        assert(after[id] == enlarged(before[ids[t]], id));
    }
    assert forall|o: usize| #[trigger] before.contains_key(o) implies exists|id: usize| c0 <= id < c1
        && #[trigger] after[id] == enlarged(before[o], id) by {
        assert(ids.contains(o));
        let t = choose|t: int| 0 <= t < ids.len() && ids[t] == o;
        assert(nc[(c0 + t) as usize] == enlarged(before[ids[t]], (c0 + t) as usize));
        assert(after[(c0 + t) as usize] == enlarged(before[o], (c0 + t) as usize));
    }
    assert forall|id: usize, q: int| c0 <= id < c1 && 0 <= q < 4 implies
        #[trigger] occ1.contains_key(footprint_cell(after[id], q)) && occ1[footprint_cell(after[id], q)].contains(id) by {
        let t = id - c0;
        assert(nc[(c0 + t) as usize] == enlarged(before[ids[t]], (c0 + t) as usize));
        assert(after[id] == enlarged(before[ids[t]], (c0 + t) as usize));
        let key = footprint_cell(enlarged(before[ids[t]], (c0 + t) as usize), q);
        assert(no.contains_key(key));
    }
    assert forall|key: (OvermapChunkCoords, IVec2)| !#[trigger] list_kept(occ0, occ1, key)
        implies covered_by_new(c0, c1, after, key) by {
        if !no.contains_key(key) {
            assert(occ1.contains_key(key) == occ0.contains_key(key));
            if occ0.contains_key(key) {
                assert(occ1[key] == occ0[key]);
            }
            assert(false);
        }
        assert(listed(no, key));
        let (t, q) = choose|t: int, q: int| 0 <= t < ids.len() && 0 <= q < 4
            && #[trigger] footprint_cell(enlarged(before[ids[t]], (c0 + t) as usize), q) == key;
        let id = (c0 + t) as usize;
        assert(c0 <= id < c1);
        assert(nc.contains_key(id));
        assert(after[id] == nc[id]);
        assert(nc[(c0 + t) as usize] == enlarged(before[ids[t]], (c0 + t) as usize));
        assert(footprint_cell(after[id], q) == key);
    }
    assert(c1 == c0 + before.dom().len());
}


/// For every candidate, proposes a larger building on the same anchor: two by
/// two when the tiles away from the road, along it, and diagonally are free,
/// one by two or two by one when only the tile away from or along the road is,
/// registering the tiles each new candidate would cover. Since every tile
/// counts as free (see `tile_is_free`), every candidate gets a two by two copy.
fn expand_building_candidates(building_candidates: &mut BuildingCandidates, overmap_chunks: &mut ChunkMap)
    requires
        old(building_candidates).wf(),
        map_wf(chunk_map(*old(overmap_chunks))),
    ensures
        final(building_candidates).wf(),
        chunk_map(*final(overmap_chunks)) == chunk_map(*old(overmap_chunks)),
        final(building_candidates).id_counter >= old(building_candidates).id_counter,
        forall|id: usize| #[trigger] candidate_map(old(building_candidates).candidates).contains_key(id)
            ==> candidate_map(final(building_candidates).candidates).contains_key(id)
                && candidate_map(final(building_candidates).candidates)[id]
                    == candidate_map(old(building_candidates).candidates)[id],
        forall|id: usize| #[trigger] candidate_map(final(building_candidates).candidates).contains_key(id)
            && !candidate_map(old(building_candidates).candidates).contains_key(id)
            ==> old(building_candidates).id_counter <= id < final(building_candidates).id_counter
                && candidate_map(final(building_candidates).candidates)[id].shape == BuildingShape::TwoByTwo,
        old(building_candidates).id_counter + candidate_map(old(building_candidates).candidates).dom().len() <= usize::MAX
            ==> candidates_enlarged(old(building_candidates).id_counter, final(building_candidates).id_counter,
                candidate_map(old(building_candidates).candidates), candidate_map(final(building_candidates).candidates),
                occupancy_map(old(building_candidates).occupancy_map), occupancy_map(final(building_candidates).occupancy_map)),
        forall|lo: OvermapChunkCoords, hi: OvermapChunkCoords| #[trigger] anchors_near(candidate_map(old(building_candidates).candidates), lo, hi)
            ==> anchors_near(candidate_map(final(building_candidates).candidates), lo, hi),
{
    let ghost old_map = candidate_map(building_candidates.candidates);
    let ghost old_occ = occupancy_map(building_candidates.occupancy_map);
    let ghost c0 = building_candidates.id_counter;
    let ghost fits = c0 + old_map.dom().len() <= usize::MAX;
    let mut new_candidates = candidate_map_new();
    let mut new_occupancies = occupancy_map_new();

    // For each candidate, test the surrounding tiles and add new candidates if the space is free.
    let mut curr_candidate_id = building_candidates.id_counter;
    let ids = candidate_map_keys(&building_candidates.candidates);
    proof {
        ids@.unique_seq_to_set();
        assert(ids@.to_set() =~= old_map.dom());
    }
    let mut j: usize = 0;
    while j < ids.len()
        invariant
            j <= ids@.len(),
            ids@.len() == old_map.dom().len(),
            ids@.no_duplicates(),
            forall|id: usize| ids@.contains(id) <==> old_map.contains_key(id),
            old_map == candidate_map(building_candidates.candidates),
            old_occ == occupancy_map(building_candidates.occupancy_map),
            c0 == building_candidates.id_counter,
            fits == (c0 + old_map.dom().len() <= usize::MAX),
            fits ==> curr_candidate_id == c0 + j,
            fits ==> forall|id: usize| #[trigger] candidate_map(new_candidates).contains_key(id) <==> c0 <= id < curr_candidate_id,
            fits ==> forall|t: int| 0 <= t < j ==>
                #[trigger] candidate_map(new_candidates)[(c0 + t) as usize] == enlarged(old_map[ids@[t]], (c0 + t) as usize),
            fits ==> forall|t: int, q: int| 0 <= t < j && 0 <= q < 4 ==> {
                let key = #[trigger] footprint_cell(enlarged(old_map[ids@[t]], (c0 + t) as usize), q);
                &&& occupancy_map(new_occupancies).contains_key(key)
                &&& occupancy_map(new_occupancies)[key].contains((c0 + t) as usize)
            },
            fits ==> forall|key: (OvermapChunkCoords, IVec2)| #[trigger] listed(occupancy_map(new_occupancies), key)
                ==> exists|t: int, q: int| 0 <= t < j && 0 <= q < 4
                    && #[trigger] footprint_cell(enlarged(old_map[ids@[t]], (c0 + t) as usize), q) == key,
            building_candidates.wf(),
            building_candidates.id_counter <= curr_candidate_id,
            map_wf(chunk_map(*overmap_chunks)),
            forall|id: usize| #[trigger] candidate_map(new_candidates).contains_key(id) ==> exists|o: usize|
                #[trigger] old_map.contains_key(o) && candidate_map(new_candidates)[id].chunk_coord == old_map[o].chunk_coord
                    && candidate_map(new_candidates)[id].position == old_map[o].position,
            forall|id: usize| #[trigger] candidate_map(new_candidates).contains_key(id) ==> {
                let c = candidate_map(new_candidates)[id];
                &&& building_candidates.id_counter <= id < curr_candidate_id
                &&& c.id == id
                &&& local_in_chunk(c.position)
                &&& unit_cardinal(c.direction_to_road)
                &&& coord_within(c.chunk_coord, 3)
                &&& c.shape == BuildingShape::TwoByTwo
            },
        decreases ids@.len() - j,
    {
        assert(ids@.contains(ids@[j as int]));
        let candidate = match candidate_map_get(&building_candidates.candidates, ids[j]) {
            Some(c) => *c,
            None => {
                proof {
                    assert(false);
                }
                j += 1;
                continue;
            },
        };
        let ghost occ_before = occupancy_map(new_occupancies);
        proof {
            assert(old_map.contains_key(ids@[j as int]));
            lemma_footprint_small(BuildingShape::TwoByTwo, candidate.direction_to_road);
        }
        let dir_away_from_road = candidate.direction_to_road.scale(-1);
        let dir_adjacent_to_road = candidate.direction_to_road.yx();
        let chunk_cursor = ChunkCursor { chunk_coord: candidate.chunk_coord, local_pos: candidate.position };

        // Test positions
        let a_delta = dir_away_from_road;
        let b_delta = dir_adjacent_to_road;
        let c_delta = dir_away_from_road.add(dir_adjacent_to_road);
        proof {
            lemma_can_look_around(chunk_cursor, a_delta, 3);
            lemma_can_look_around(chunk_cursor, b_delta, 3);
            lemma_can_look_around(chunk_cursor, c_delta, 3);
        }
        let a_is_free = tile_is_free(chunk_cursor.peek_tile(overmap_chunks, a_delta));
        let b_is_free = tile_is_free(chunk_cursor.peek_tile(overmap_chunks, b_delta));
        let c_is_free = tile_is_free(chunk_cursor.peek_tile(overmap_chunks, c_delta));

        let shape = match (a_is_free, b_is_free, c_is_free) {
            // RoA
            // RBC
            (true, true, true) => Some(BuildingShape::TwoByTwo),
            // RoA
            // Rxx
            (true, false, false) => Some(BuildingShape::OneByTwo),
            // Rox
            // RBx
            (false, true, false) => Some(BuildingShape::TwoByOne),
            _ => None,
        };

        if let Some(shape) = shape {
            if curr_candidate_id < usize::MAX {
                proof {
                    lemma_footprint_small(shape, candidate.direction_to_road);
                }
                let footprint = shape.footprint(candidate.direction_to_road);
                let ghost enl = enlarged(candidate, curr_candidate_id);
                proof {
                    assert(shape == BuildingShape::TwoByTwo);
                    assert(candidate == old_map[ids@[j as int]]);
                }
                let mut k: usize = 0;
                while k < footprint.len()
                    invariant
                        k <= footprint@.len(),
                        footprint@ == footprint_of(shape, candidate.direction_to_road),
                        footprint@.len() == 4,
                        shape == BuildingShape::TwoByTwo,
                        enl == enlarged(candidate, curr_candidate_id),
                        chunk_cursor == (ChunkCursor { chunk_coord: candidate.chunk_coord, local_pos: candidate.position }),
                        forall|q: int| 0 <= q < footprint@.len() ==>
                            -1 <= (#[trigger] footprint@[q]).x <= 1 && -1 <= footprint@[q].y <= 1,
                        chunk_cursor.placed(),
                        coord_within(chunk_cursor.chunk_coord, 3),
                        forall|key: (OvermapChunkCoords, IVec2)| #[trigger] occ_before.contains_key(key) ==> {
                            &&& occupancy_map(new_occupancies).contains_key(key)
                            &&& forall|x: usize| occ_before[key].contains(x) ==> occupancy_map(new_occupancies)[key].contains(x)
                        },
                        forall|q: int| 0 <= q < k ==> {
                            let key = #[trigger] footprint_cell(enl, q);
                            &&& occupancy_map(new_occupancies).contains_key(key)
                            &&& occupancy_map(new_occupancies)[key].contains(curr_candidate_id)
                        },
                        forall|key: (OvermapChunkCoords, IVec2)| #[trigger] occupancy_map(new_occupancies).contains_key(key)
                            ==> occ_before.contains_key(key) || exists|q: int| 0 <= q < k && #[trigger] footprint_cell(enl, q) == key,
                    decreases footprint@.len() - k,
                {
                    proof {
                        lemma_can_look_around(chunk_cursor, footprint@[k as int], 3);
                    }
                    let pos = chunk_cursor.get_position_delta(footprint[k]);
                    let ghost occ_k = occupancy_map(new_occupancies);
                    let mut ids_here: Vec<usize> = match occupancy_map_get(&new_occupancies, &pos) {
                        Some(v) => v.clone(),
                        None => Vec::new(),
                    };
                    proof {
                        if occ_k.contains_key(pos) {
                            assert(ids_here@ =~= occ_k[pos]);
                        }
                    }
                    let ghost ids_before = ids_here@;
                    ids_here.push(curr_candidate_id);
                    occupancy_map_insert(&mut new_occupancies, pos, ids_here);
                    proof {
                        assert(footprint_cell(enl, k as int) == pos);
                        assert(ids_here@.contains(curr_candidate_id)) by {
                            assert(ids_here@[ids_here@.len() - 1] == curr_candidate_id);
                        }
                        assert forall|x: usize| ids_before.contains(x) implies ids_here@.contains(x) by {
                            let w = choose|w: int| 0 <= w < ids_before.len() && ids_before[w] == x;
                            assert(ids_here@[w] == x);
                        }
                        assert forall|key: (OvermapChunkCoords, IVec2)| #[trigger] occupancy_map(new_occupancies).contains_key(key)
                            implies occ_before.contains_key(key) || exists|q: int| 0 <= q < k + 1 && #[trigger] footprint_cell(enl, q) == key by {
                            if key != pos {
                                assert(occ_k.contains_key(key));
                            }
                        }
                    }
                    k += 1;
                }

                let new_candidate = BuildingCandidate {
                    id: curr_candidate_id,
                    position: candidate.position,
                    chunk_coord: candidate.chunk_coord,
                    direction_to_road: candidate.direction_to_road,
                    shape,
                };
                let ghost nc0 = candidate_map(new_candidates);
                candidate_map_insert(&mut new_candidates, curr_candidate_id, new_candidate);
                curr_candidate_id = curr_candidate_id + 1;
                proof {
                    assert forall|id: usize| #[trigger] candidate_map(new_candidates).contains_key(id) implies exists|o: usize|
                        #[trigger] old_map.contains_key(o) && candidate_map(new_candidates)[id].chunk_coord == old_map[o].chunk_coord
                            && candidate_map(new_candidates)[id].position == old_map[o].position by {
                        if id == (curr_candidate_id - 1) as usize {
                            assert(old_map.contains_key(ids@[j as int]));
                        } else {
                            assert(nc0.contains_key(id));
                        }
                    }
                    assert(new_candidate == enl);
                    if fits {
                        assert forall|t: int| 0 <= t < j + 1 implies
                            #[trigger] candidate_map(new_candidates)[(c0 + t) as usize] == enlarged(old_map[ids@[t]], (c0 + t) as usize) by {
                            if t < j {
                                assert(nc0.contains_key((c0 + t) as usize));
                            }
                        }
                        assert forall|t: int, q: int| 0 <= t < j + 1 && 0 <= q < 4 implies {
                            let key = #[trigger] footprint_cell(enlarged(old_map[ids@[t]], (c0 + t) as usize), q);
                            &&& occupancy_map(new_occupancies).contains_key(key)
                            &&& occupancy_map(new_occupancies)[key].contains((c0 + t) as usize)
                        } by {
                            if t < j {
                                let key = footprint_cell(enlarged(old_map[ids@[t]], (c0 + t) as usize), q);
                                assert(occ_before.contains_key(key));
                            } else {
                                assert(enlarged(old_map[ids@[t]], (c0 + t) as usize) == enl);
                            }
                        }
                        assert forall|key: (OvermapChunkCoords, IVec2)| #[trigger] listed(occupancy_map(new_occupancies), key)
                            implies exists|t: int, q: int| 0 <= t < j + 1 && 0 <= q < 4
                                && #[trigger] footprint_cell(enlarged(old_map[ids@[t]], (c0 + t) as usize), q) == key by {
                            if occ_before.contains_key(key) {
                                assert(listed(occ_before, key));
                                let (t, q) = choose|t: int, q: int| 0 <= t < j && 0 <= q < 4
                                    && #[trigger] footprint_cell(enlarged(old_map[ids@[t]], (c0 + t) as usize), q) == key;
                                assert(footprint_cell(enlarged(old_map[ids@[t]], (c0 + t) as usize), q) == key);
                            } else {
                                let q = choose|q: int| 0 <= q < 4 && #[trigger] footprint_cell(enl, q) == key;
                                assert(enlarged(old_map[ids@[j as int]], (c0 + j) as usize) == enl);
                                assert(footprint_cell(enlarged(old_map[ids@[j as int]], (c0 + j) as usize), q) == key);
                            }
                        }
                    }
                }
            }
        }
        j += 1;
    }

    let ghost nc = candidate_map(new_candidates);
    let ghost no = occupancy_map(new_occupancies);
    building_candidates.id_counter = curr_candidate_id;
    candidate_map_extend(&mut building_candidates.candidates, new_candidates);
    occupancy_map_extend(&mut building_candidates.occupancy_map, new_occupancies);
    proof {
        assert forall|lo: OvermapChunkCoords, hi: OvermapChunkCoords| #[trigger] anchors_near(old_map, lo, hi)
            implies anchors_near(candidate_map(building_candidates.candidates), lo, hi) by {
            assert forall|x: usize| #[trigger] candidate_map(building_candidates.candidates).contains_key(x) implies {
                let g = global_of(candidate_map(building_candidates.candidates)[x].chunk_coord, candidate_map(building_candidates.candidates)[x].position);
                &&& lo.0.x * OVERMAP_CHUNK_SIZE - 1 <= g.0 <= (hi.0.x + 1) * OVERMAP_CHUNK_SIZE
                &&& lo.0.y * OVERMAP_CHUNK_SIZE - 1 <= g.1 <= (hi.0.y + 1) * OVERMAP_CHUNK_SIZE
            } by {
                if nc.contains_key(x) {
                    let o = choose|o: usize| #[trigger] old_map.contains_key(o) && nc[x].chunk_coord == old_map[o].chunk_coord
                        && nc[x].position == old_map[o].position;
                    assert(old_map.contains_key(o));
                } else {
                    assert(old_map.contains_key(x));
                }
            }
        }
        if fits {
            assert forall|id: usize| #[trigger] old_map.contains_key(id) implies id < c0 by {
            }
            lemma_candidates_enlarged(c0, old_map, old_occ, ids@, nc, no);
        }
    }
}

/// The occupancy map `occ` lists the candidate `id` at `key`.
pub open spec fn listed_at(occ: Map<(OvermapChunkCoords, IVec2), Seq<usize>>, key: (OvermapChunkCoords, IVec2), id: usize) -> bool {
    occ.contains_key(key) && occ[key].contains(id)
}

/// Removes every candidate that the occupancy map lists at `key`.
fn remove_candidates_listed(building_candidates: &mut BuildingCandidates, key: &(OvermapChunkCoords, IVec2))
    requires
        old(building_candidates).wf(),
    ensures
        final(building_candidates).wf(),
        final(building_candidates).id_counter == old(building_candidates).id_counter,
        final(building_candidates).occupancy_map == old(building_candidates).occupancy_map,
        candidate_map(final(building_candidates).candidates).dom().subset_of(
            candidate_map(old(building_candidates).candidates).dom()),
        forall|id: usize| #[trigger] candidate_map(final(building_candidates).candidates).contains_key(id)
            ==> candidate_map(final(building_candidates).candidates)[id]
                == candidate_map(old(building_candidates).candidates)[id],
        occupancy_map(old(building_candidates).occupancy_map).contains_key(*key) ==>
            forall|j: int| 0 <= j < occupancy_map(old(building_candidates).occupancy_map)[*key].len()
                ==> !candidate_map(final(building_candidates).candidates).contains_key(
                    #[trigger] occupancy_map(old(building_candidates).occupancy_map)[*key][j]),
        forall|id: usize| #[trigger] candidate_map(final(building_candidates).candidates).contains_key(id)
            <==> candidate_map(old(building_candidates).candidates).contains_key(id)
                && !listed_at(occupancy_map(old(building_candidates).occupancy_map), *key, id),
{
    let ghost c0 = candidate_map(building_candidates.candidates);
    match occupancy_map_get(&building_candidates.occupancy_map, key) {
        Some(ids) => {
            let mut j: usize = 0;
            while j < ids.len()
                invariant
                    j <= ids@.len(),
                    ids@ == occupancy_map(old(building_candidates).occupancy_map)[*key],
                    building_candidates.id_counter == old(building_candidates).id_counter,
                    building_candidates.occupancy_map == old(building_candidates).occupancy_map,
                    candidate_map(building_candidates.candidates).dom().subset_of(c0.dom()),
                    forall|id: usize| #[trigger] candidate_map(building_candidates.candidates).contains_key(id)
                        ==> candidate_map(building_candidates.candidates)[id] == c0[id],
                    forall|k: int| 0 <= k < j ==> !candidate_map(building_candidates.candidates).contains_key(#[trigger] ids@[k]),
                    forall|id: usize| #[trigger] candidate_map(building_candidates.candidates).contains_key(id)
                        <==> c0.contains_key(id) && !ids@.take(j as int).contains(id),
                    c0 == candidate_map(old(building_candidates).candidates),
                    old(building_candidates).wf(),
                decreases ids@.len() - j,
            {
                candidate_map_remove(&mut building_candidates.candidates, ids[j]);
                proof {
                    let t0 = ids@.take(j as int);
                    let t1 = ids@.take(j + 1);
                    assert(t1 =~= t0.push(ids@[j as int]));
                    assert forall|id: usize| #[trigger] candidate_map(building_candidates.candidates).contains_key(id)
                        <==> c0.contains_key(id) && !t1.contains(id) by {
                        if t0.contains(id) {
                            let w = choose|w: int| 0 <= w < t0.len() && t0[w] == id;
                            assert(t1[w] == id);
                        }
                        if id == ids@[j as int] {
                            assert(t1[j as int] == id);
                        }
                        if t1.contains(id) && id != ids@[j as int] {
                            let w = choose|w: int| 0 <= w < t1.len() && t1[w] == id;
                            assert(t0[w] == id);
                        }
                    }
                }
                j += 1;
            }
            proof {
                assert(ids@.take(ids@.len() as int) =~= ids@);
            }
        },
        None => {},
    }
}

/// No tile of `old` differs in `new` but tile `idx` of chunk `chunk`.
pub open spec fn changed_only_at(
    old: Map<OvermapChunkCoords, OvermapChunk>,
    new: Map<OvermapChunkCoords, OvermapChunk>,
    chunk: OvermapChunkCoords,
    idx: int,
) -> bool {
    forall|k: OvermapChunkCoords, i: int| old.contains_key(k) && 0 <= i < old[k].overmap_tiles.len() && (k != chunk || i != idx)
        ==> #[trigger] new[k].overmap_tiles@[i] == old[k].overmap_tiles@[i]
}

/// Tile `i` of chunk `k` lies in the footprint of a candidate of `cands`.
pub open spec fn in_some_footprint(cands: Map<usize, BuildingCandidate>, k: OvermapChunkCoords, i: int) -> bool {
    exists|id: usize, q: int| cands.contains_key(id)
        && 0 <= q < footprint_of(cands[id].shape, cands[id].direction_to_road).len()
        && (#[trigger] footprint_cell(cands[id], q)).0 == k && tile_index(footprint_cell(cands[id], q).1) == i
}

/// Every tile that differs from `old` to `new` is now a house, lying in the
/// footprint of a candidate of `cands`.
pub open spec fn houses_on_candidates(
    old: Map<OvermapChunkCoords, OvermapChunk>,
    new: Map<OvermapChunkCoords, OvermapChunk>,
    cands: Map<usize, BuildingCandidate>,
) -> bool {
    forall|k: OvermapChunkCoords, i: int| old.contains_key(k) && 0 <= i < old[k].overmap_tiles.len()
        && #[trigger] new[k].overmap_tiles@[i] != old[k].overmap_tiles@[i]
        ==> new[k].overmap_tiles@[i] == Some(OvermapTileType::House) && in_some_footprint(cands, k, i)
}

/// Builds a house on the tile at `pos` of chunk `chunk`, if that chunk exists.
fn place_house(overmap_chunks: &mut ChunkMap, chunk: &OvermapChunkCoords, pos: IVec2)
    requires
        map_wf(chunk_map(*old(overmap_chunks))),
        local_in_chunk(pos),
    ensures
        map_wf(chunk_map(*final(overmap_chunks))),
        tiles_grow(chunk_map(*old(overmap_chunks)), chunk_map(*final(overmap_chunks))),
        only_tiles_change(chunk_map(*old(overmap_chunks)), chunk_map(*final(overmap_chunks))),
        tile_at(chunk_map(*final(overmap_chunks)), *chunk, pos)
            == (if chunk_map(*old(overmap_chunks)).contains_key(*chunk) { Some(OvermapTileType::House) } else { None }),
        changed_only_at(chunk_map(*old(overmap_chunks)), chunk_map(*final(overmap_chunks)), *chunk, tile_index(pos)),
{
    let ghost m0 = chunk_map(*overmap_chunks);
    let idx = xy_idx(pos.x, pos.y, OVERMAP_CHUNK_SIZE as usize);
    match chunk_map_get_mut(overmap_chunks, chunk) {
        Some(c) => {
            proof {
                assert(chunk_wf(*chunk, m0[*chunk]));
            }
            c.overmap_tiles.set(idx, Some(OvermapTileType::House));
        },
        None => {},
    }
    proof {
        let m1 = chunk_map(*overmap_chunks);
        if m0.contains_key(*chunk) {
            assert(m1.dom() =~= m0.dom());
            lemma_wrote_tile_grows(m0, m1, *chunk, tile_index(pos), OvermapTileType::House);
        } else {
            lemma_tiles_grow_refl(m0);
        }
    }
}

/// Every tile among the first `n` of the footprint of `c` whose chunk `m0`
/// holds is a house in `m`.
pub open spec fn footprint_built(
    m0: Map<OvermapChunkCoords, OvermapChunk>,
    m: Map<OvermapChunkCoords, OvermapChunk>,
    c: BuildingCandidate,
    n: int,
) -> bool {
    forall|q: int| 0 <= q < n && m0.contains_key(#[trigger] footprint_cell(c, q).0)
        ==> tile_at(m, footprint_cell(c, q).0, footprint_cell(c, q).1) == Some(OvermapTileType::House)
}

/// Every tile that differs from `m0` to `m` is one of the first `n` tiles of
/// the footprint of `c`.
pub open spec fn changes_on_footprint(
    m0: Map<OvermapChunkCoords, OvermapChunk>,
    m: Map<OvermapChunkCoords, OvermapChunk>,
    c: BuildingCandidate,
    n: int,
) -> bool {
    forall|k: OvermapChunkCoords, i: int| m0.contains_key(k) && 0 <= i < m0[k].overmap_tiles.len()
        && #[trigger] m[k].overmap_tiles@[i] != m0[k].overmap_tiles@[i]
        ==> exists|q: int| 0 <= q < n && (#[trigger] footprint_cell(c, q)).0 == k && tile_index(footprint_cell(c, q).1) == i
}

/// The occupancy map `occ` lists `x` at one of the first `n` tiles of the
/// footprint of `c`.
pub open spec fn listed_on_footprint(occ: Map<(OvermapChunkCoords, IVec2), Seq<usize>>, c: BuildingCandidate, n: int, x: usize) -> bool {
    exists|q: int| 0 <= q < n && #[trigger] listed_at(occ, footprint_cell(c, q), x)
}

/// The tile of a footprint lies inside its chunk.
proof fn lemma_footprint_cell_local(c: BuildingCandidate, q: int)
    ensures
        local_in_chunk(footprint_cell(c, q).1),
        0 <= tile_index(footprint_cell(c, q).1) < OVERMAP_CHUNK_TILES,
{
    let d = footprint_of(c.shape, c.direction_to_road)[q];
    let n = OVERMAP_CHUNK_SIZE as int;
    assert(0 <= (d.x + c.position.x) % n < n);
    assert(0 <= (d.y + c.position.y) % n < n);
}

/// Laying a house on tile `k` of the footprint of `c` extends the built part
/// of the footprint by that tile.
proof fn lemma_build_step(
    m0: Map<OvermapChunkCoords, OvermapChunk>,
    m1: Map<OvermapChunkCoords, OvermapChunk>,
    m2: Map<OvermapChunkCoords, OvermapChunk>,
    c: BuildingCandidate,
    k: int,
)
    requires
        0 <= k,
        footprint_built(m0, m1, c, k),
        changes_on_footprint(m0, m1, c, k),
        only_tiles_change(m0, m1),
        tiles_grow(m0, m1),
        map_wf(m1),
        only_tiles_change(m1, m2),
        changed_only_at(m1, m2, footprint_cell(c, k).0, tile_index(footprint_cell(c, k).1)),
        tile_at(m2, footprint_cell(c, k).0, footprint_cell(c, k).1)
            == (if m1.contains_key(footprint_cell(c, k).0) { Some(OvermapTileType::House) } else { None }),
    ensures
        footprint_built(m0, m2, c, k + 1),
        changes_on_footprint(m0, m2, c, k + 1),
{
    let ck = footprint_cell(c, k);
    assert forall|q: int| 0 <= q < k + 1 && m0.contains_key(#[trigger] footprint_cell(c, q).0)
        implies tile_at(m2, footprint_cell(c, q).0, footprint_cell(c, q).1) == Some(OvermapTileType::House) by {
        let cq = footprint_cell(c, q);
        assert(m1.contains_key(cq.0));
        if q < k {
            lemma_footprint_cell_local(c, q);
            assert(chunk_wf(cq.0, m1[cq.0]));
            if !(cq.0 == ck.0 && tile_index(cq.1) == tile_index(ck.1)) {
                assert(m2[cq.0].overmap_tiles@[tile_index(cq.1)] == m1[cq.0].overmap_tiles@[tile_index(cq.1)]);
            }
        }
    }
    assert forall|kk: OvermapChunkCoords, i: int| m0.contains_key(kk) && 0 <= i < m0[kk].overmap_tiles.len()
        && #[trigger] m2[kk].overmap_tiles@[i] != m0[kk].overmap_tiles@[i]
        implies exists|q: int| 0 <= q < k + 1 && (#[trigger] footprint_cell(c, q)).0 == kk && tile_index(footprint_cell(c, q).1) == i by {
        assert(m1.contains_key(kk));
        if m1[kk].overmap_tiles@[i] != m0[kk].overmap_tiles@[i] {
            let q = choose|q: int| 0 <= q < k && (#[trigger] footprint_cell(c, q)).0 == kk && tile_index(footprint_cell(c, q).1) == i;
            assert(footprint_cell(c, q).0 == kk);
        } else {
            assert(ck.0 == kk && tile_index(ck.1) == i);
            assert(footprint_cell(c, k).0 == kk);
        }
    }
}

/// Builds the candidate `id` when it is still a candidate and `roll` falls
/// below its shape's placement chance out of 10: every candidate that the
/// occupancy map lists on a tile of its footprint is dropped, and each tile
/// of the footprint in a chunk of the map becomes a house. Otherwise nothing
/// changes.
pub fn place_candidate(game_map: &mut GameMap, building_candidates: &mut BuildingCandidates, id: usize, roll: i32)
    requires
        map_wf(chunk_map(old(game_map).overmap_chunks)),
        old(building_candidates).wf(),
    ensures
        map_wf(chunk_map(final(game_map).overmap_chunks)),
        tiles_grow(chunk_map(old(game_map).overmap_chunks), chunk_map(final(game_map).overmap_chunks)),
        only_tiles_change(chunk_map(old(game_map).overmap_chunks), chunk_map(final(game_map).overmap_chunks)),
        final(building_candidates).wf(),
        final(building_candidates).id_counter == old(building_candidates).id_counter,
        final(building_candidates).occupancy_map == old(building_candidates).occupancy_map,
        forall|x: usize| #[trigger] candidate_map(final(building_candidates).candidates).contains_key(x)
            ==> candidate_map(final(building_candidates).candidates)[x] == candidate_map(old(building_candidates).candidates)[x],
        !(candidate_map(old(building_candidates).candidates).contains_key(id)
            && roll < placement_chance_of(candidate_map(old(building_candidates).candidates)[id].shape)) ==> {
            &&& chunk_map(final(game_map).overmap_chunks) == chunk_map(old(game_map).overmap_chunks)
            &&& candidate_map(final(building_candidates).candidates) == candidate_map(old(building_candidates).candidates)
        },
        candidate_map(old(building_candidates).candidates).contains_key(id)
            && roll < placement_chance_of(candidate_map(old(building_candidates).candidates)[id].shape) ==> {
            let c = candidate_map(old(building_candidates).candidates)[id];
            let n = footprint_of(c.shape, c.direction_to_road).len() as int;
            &&& footprint_built(chunk_map(old(game_map).overmap_chunks), chunk_map(final(game_map).overmap_chunks), c, n)
            &&& changes_on_footprint(chunk_map(old(game_map).overmap_chunks), chunk_map(final(game_map).overmap_chunks), c, n)
            &&& forall|x: usize| #[trigger] candidate_map(final(building_candidates).candidates).contains_key(x)
                <==> candidate_map(old(building_candidates).candidates).contains_key(x)
                    && !listed_on_footprint(occupancy_map(old(building_candidates).occupancy_map), c, n, x)
        },
{
    let ghost m0 = chunk_map(game_map.overmap_chunks);
    let ghost cands0 = candidate_map(building_candidates.candidates);
    let ghost occ0 = occupancy_map(building_candidates.occupancy_map);
    proof {
        lemma_tiles_grow_refl(m0);
    }
    let candidate = match candidate_map_get(&building_candidates.candidates, id) {
        Some(c) => *c,
        None => {
            return;
        },
    };
    proof {
        assert(cands0.contains_key(id));
    }
    if roll < candidate.shape.placement_chance() {
        let chunk_cursor = ChunkCursor { chunk_coord: candidate.chunk_coord, local_pos: candidate.position };
        proof {
            lemma_footprint_small(candidate.shape, candidate.direction_to_road);
        }
        let footprint = candidate.shape.footprint(candidate.direction_to_road);
        // For all the squares in the buildings footprint
        let mut k: usize = 0;
        while k < footprint.len()
            invariant
                k <= footprint@.len(),
                footprint@ == footprint_of(candidate.shape, candidate.direction_to_road),
                forall|q: int| 0 <= q < footprint@.len() ==>
                    -1 <= (#[trigger] footprint@[q]).x <= 1 && -1 <= footprint@[q].y <= 1,
                chunk_cursor == (ChunkCursor { chunk_coord: candidate.chunk_coord, local_pos: candidate.position }),
                chunk_cursor.placed(),
                coord_within(chunk_cursor.chunk_coord, 3),
                candidate == cands0[id],
                map_wf(chunk_map(game_map.overmap_chunks)),
                tiles_grow(m0, chunk_map(game_map.overmap_chunks)),
                only_tiles_change(m0, chunk_map(game_map.overmap_chunks)),
                footprint_built(m0, chunk_map(game_map.overmap_chunks), candidate, k as int),
                changes_on_footprint(m0, chunk_map(game_map.overmap_chunks), candidate, k as int),
                building_candidates.wf(),
                building_candidates.id_counter == old(building_candidates).id_counter,
                building_candidates.occupancy_map == old(building_candidates).occupancy_map,
                occ0 == occupancy_map(building_candidates.occupancy_map),
                cands0 == candidate_map(old(building_candidates).candidates),
                forall|x: usize| #[trigger] candidate_map(building_candidates.candidates).contains_key(x)
                    ==> candidate_map(building_candidates.candidates)[x] == cands0[x],
                forall|x: usize| #[trigger] candidate_map(building_candidates.candidates).contains_key(x)
                    <==> cands0.contains_key(x) && !listed_on_footprint(occ0, candidate, k as int, x),
            decreases footprint@.len() - k,
        {
            proof {
                lemma_can_look_around(chunk_cursor, footprint@[k as int], 3);
            }
            let (chunk, pos) = chunk_cursor.get_position_delta(footprint[k]);
            proof {
                assert((chunk, pos) == footprint_cell(candidate, k as int));
            }
            // Remove ALL candidates in the occupancy map
            let ghost cb = candidate_map(building_candidates.candidates);
            remove_candidates_listed(building_candidates, &(chunk, pos));
            proof {
                assert forall|x: usize| #[trigger] candidate_map(building_candidates.candidates).contains_key(x)
                    <==> cands0.contains_key(x) && !listed_on_footprint(occ0, candidate, k + 1, x) by {
                    if listed_on_footprint(occ0, candidate, k + 1, x) && !listed_at(occ0, (chunk, pos), x) {
                        let q = choose|q: int| 0 <= q < k + 1 && #[trigger] listed_at(occ0, footprint_cell(candidate, q), x);
                        assert(q != k);
                        assert(listed_on_footprint(occ0, candidate, k as int, x));
                    }
                    if listed_on_footprint(occ0, candidate, k as int, x) {
                        let q = choose|q: int| 0 <= q < k && #[trigger] listed_at(occ0, footprint_cell(candidate, q), x);
                        assert(listed_at(occ0, footprint_cell(candidate, q), x));
                    }
                    if listed_at(occ0, (chunk, pos), x) {
                        assert(listed_at(occ0, footprint_cell(candidate, k as int), x));
                    }
                }
            }
            let ghost m1 = chunk_map(game_map.overmap_chunks);
            place_house(&mut game_map.overmap_chunks, &chunk, pos);
            proof {
                let m2 = chunk_map(game_map.overmap_chunks);
                lemma_build_step(m0, m1, m2, candidate, k as int);
                lemma_tiles_grow_trans(m0, m1, m2);
                lemma_only_tiles_change_trans(m0, m1, m2);
            }
            k += 1;
        }
    }
}

/// The number of tiles of the footprint of `c`.
pub open spec fn footprint_len(c: BuildingCandidate) -> int {
    footprint_of(c.shape, c.direction_to_road).len() as int
}

/// The occupancy map `occ` lists `x` on a tile of the footprint of one of
/// the candidates `built` of `cands`.
pub open spec fn listed_on_built(
    occ: Map<(OvermapChunkCoords, IVec2), Seq<usize>>,
    cands: Map<usize, BuildingCandidate>,
    built: Set<usize>,
    x: usize,
) -> bool {
    exists|id: usize| #[trigger] built.contains(id) && listed_on_footprint(occ, cands[id], footprint_len(cands[id]), x)
}

/// From `m0` and `cands0` to `m` and `cands`, the candidates `built` of
/// `cands0` were built: every tile of their footprints whose chunk exists is
/// a house, no other tile changed, and exactly the candidates that `occ`
/// lists on their footprints were dropped.
pub open spec fn built_from(
    m0: Map<OvermapChunkCoords, OvermapChunk>,
    m: Map<OvermapChunkCoords, OvermapChunk>,
    occ: Map<(OvermapChunkCoords, IVec2), Seq<usize>>,
    cands0: Map<usize, BuildingCandidate>,
    cands: Map<usize, BuildingCandidate>,
    built: Set<usize>,
) -> bool {
    &&& forall|id: usize| #[trigger] built.contains(id) ==> cands0.contains_key(id)
        && footprint_built(m0, m, cands0[id], footprint_len(cands0[id]))
    &&& forall|k: OvermapChunkCoords, i: int| m0.contains_key(k) && 0 <= i < m0[k].overmap_tiles.len()
        && #[trigger] m[k].overmap_tiles@[i] != m0[k].overmap_tiles@[i]
        ==> exists|id: usize, q: int| #![trigger built.contains(id), footprint_cell(cands0[id], q)]
            built.contains(id) && 0 <= q < footprint_len(cands0[id])
            && footprint_cell(cands0[id], q).0 == k && tile_index(footprint_cell(cands0[id], q).1) == i
    &&& forall|x: usize| #[trigger] cands.contains_key(x)
        <==> cands0.contains_key(x) && !listed_on_built(occ, cands0, built, x)
}

/// Building one more candidate extends what was built.
proof fn lemma_built_step(
    m0: Map<OvermapChunkCoords, OvermapChunk>,
    m1: Map<OvermapChunkCoords, OvermapChunk>,
    m2: Map<OvermapChunkCoords, OvermapChunk>,
    occ: Map<(OvermapChunkCoords, IVec2), Seq<usize>>,
    cands0: Map<usize, BuildingCandidate>,
    c1: Map<usize, BuildingCandidate>,
    c2: Map<usize, BuildingCandidate>,
    built: Set<usize>,
    id: usize,
)
    requires
        built_from(m0, m1, occ, cands0, c1, built),
        map_wf(m1),
        tiles_grow(m0, m1),
        only_tiles_change(m0, m1),
        tiles_grow(m1, m2),
        only_tiles_change(m1, m2),
        cands0.contains_key(id),
        footprint_built(m1, m2, cands0[id], footprint_len(cands0[id])),
        changes_on_footprint(m1, m2, cands0[id], footprint_len(cands0[id])),
        forall|x: usize| #[trigger] c2.contains_key(x)
            <==> c1.contains_key(x) && !listed_on_footprint(occ, cands0[id], footprint_len(cands0[id]), x),
    ensures
        built_from(m0, m2, occ, cands0, c2, built.insert(id)),
{
    let b2 = built.insert(id);
    assert forall|bid: usize| #[trigger] b2.contains(bid) implies cands0.contains_key(bid)
        && footprint_built(m0, m2, cands0[bid], footprint_len(cands0[bid])) by {
        let c = cands0[bid];
        assert forall|q: int| 0 <= q < footprint_len(c) && m0.contains_key(#[trigger] footprint_cell(c, q).0)
            implies tile_at(m2, footprint_cell(c, q).0, footprint_cell(c, q).1) == Some(OvermapTileType::House) by {
            let cq = footprint_cell(c, q);
            assert(m1.contains_key(cq.0));
            if bid != id || !built.contains(bid) {
                if bid == id {
                } else {
                    assert(footprint_built(m0, m1, c, footprint_len(c)));
                    lemma_footprint_cell_local(c, q);
                    assert(chunk_wf(cq.0, m1[cq.0]));
                    assert(tile_at(m1, cq.0, cq.1) == Some(OvermapTileType::House));
                }
            } else {
                assert(footprint_built(m1, m2, c, footprint_len(c)));
            }
        }
    }
    assert forall|k: OvermapChunkCoords, i: int| m0.contains_key(k) && 0 <= i < m0[k].overmap_tiles.len()
        && #[trigger] m2[k].overmap_tiles@[i] != m0[k].overmap_tiles@[i]
        implies exists|bid: usize, q: int| #![trigger b2.contains(bid), footprint_cell(cands0[bid], q)]
            b2.contains(bid) && 0 <= q < footprint_len(cands0[bid])
            && footprint_cell(cands0[bid], q).0 == k && tile_index(footprint_cell(cands0[bid], q).1) == i by {
        assert(m1.contains_key(k));
        if m1[k].overmap_tiles@[i] != m0[k].overmap_tiles@[i] {
            let (bid, q) = choose|bid: usize, q: int| #![trigger built.contains(bid), footprint_cell(cands0[bid], q)]
                built.contains(bid) && 0 <= q < footprint_len(cands0[bid])
                && footprint_cell(cands0[bid], q).0 == k && tile_index(footprint_cell(cands0[bid], q).1) == i;
            assert(b2.contains(bid));
            assert(footprint_cell(cands0[bid], q).0 == k);
        } else {
            let c = cands0[id];
            let q = choose|q: int| 0 <= q < footprint_len(c) && (#[trigger] footprint_cell(c, q)).0 == k
                && tile_index(footprint_cell(c, q).1) == i;
            assert(b2.contains(id));
            assert(footprint_cell(cands0[id], q).0 == k);
        }
    }
    assert forall|x: usize| #[trigger] c2.contains_key(x)
        <==> cands0.contains_key(x) && !listed_on_built(occ, cands0, b2, x) by {
        if listed_on_built(occ, cands0, b2, x) {
            let bid = choose|bid: usize| #[trigger] b2.contains(bid) && listed_on_footprint(occ, cands0[bid], footprint_len(cands0[bid]), x);
            if bid != id {
                assert(listed_on_built(occ, cands0, built, x));
            }
        }
        if listed_on_built(occ, cands0, built, x) {
            let bid = choose|bid: usize| #[trigger] built.contains(bid) && listed_on_footprint(occ, cands0[bid], footprint_len(cands0[bid]), x);
            assert(b2.contains(bid));
        }
        if listed_on_footprint(occ, cands0[id], footprint_len(cands0[id]), x) {
            assert(b2.contains(id));
        }
    }
}

/// Every tile that changed from `m1` to `m2`, all on the built footprint of
/// the candidate `id` of `cands`, is a house on a candidate's footprint.
proof fn lemma_houses_step(
    m0: Map<OvermapChunkCoords, OvermapChunk>,
    m1: Map<OvermapChunkCoords, OvermapChunk>,
    m2: Map<OvermapChunkCoords, OvermapChunk>,
    cands: Map<usize, BuildingCandidate>,
    id: usize,
)
    requires
        houses_on_candidates(m0, m1, cands),
        tiles_grow(m0, m1),
        cands.contains_key(id),
        footprint_built(m1, m2, cands[id], footprint_of(cands[id].shape, cands[id].direction_to_road).len() as int),
        changes_on_footprint(m1, m2, cands[id], footprint_of(cands[id].shape, cands[id].direction_to_road).len() as int),
    ensures
        houses_on_candidates(m0, m2, cands),
{
    let c = cands[id];
    let n = footprint_of(c.shape, c.direction_to_road).len() as int;
    assert forall|k: OvermapChunkCoords, i: int| m0.contains_key(k) && 0 <= i < m0[k].overmap_tiles.len()
        && #[trigger] m2[k].overmap_tiles@[i] != m0[k].overmap_tiles@[i]
        implies m2[k].overmap_tiles@[i] == Some(OvermapTileType::House) && in_some_footprint(cands, k, i) by {
        assert(m1.contains_key(k));
        if m2[k].overmap_tiles@[i] != m1[k].overmap_tiles@[i] {
            let q = choose|q: int| 0 <= q < n && (#[trigger] footprint_cell(c, q)).0 == k && tile_index(footprint_cell(c, q).1) == i;
            assert(footprint_cell(c, q).0 == k);
            assert(tile_at(m2, footprint_cell(c, q).0, footprint_cell(c, q).1) == Some(OvermapTileType::House));
            assert(footprint_cell(cands[id], q).0 == k && tile_index(footprint_cell(cands[id], q).1) == i);
        } else {
            assert(m1[k].overmap_tiles@[i] != m0[k].overmap_tiles@[i]);
        }
    }
}

/// Every candidate of `cands` is listed in `occ` on each tile of its
/// footprint.
pub open spec fn occupancy_complete(occ: Map<(OvermapChunkCoords, IVec2), Seq<usize>>, cands: Map<usize, BuildingCandidate>) -> bool {
    forall|id: usize, q: int| #![trigger footprint_cell(cands[id], q)]
        cands.contains_key(id) && 0 <= q < footprint_len(cands[id]) ==> listed_at(occ, footprint_cell(cands[id], q), id)
}

/// The footprints of `a` and `b` share no tile.
pub open spec fn footprints_apart(a: BuildingCandidate, b: BuildingCandidate) -> bool {
    forall|q: int, r: int| 0 <= q < footprint_len(a) && 0 <= r < footprint_len(b)
        ==> #[trigger] footprint_cell(a, q) != #[trigger] footprint_cell(b, r)
}

/// No two of the candidates `built` of `cands` share a footprint tile.
pub open spec fn built_apart(cands: Map<usize, BuildingCandidate>, built: Set<usize>) -> bool {
    forall|a: usize, b: usize| #![trigger built.contains(a), built.contains(b)]
        built.contains(a) && built.contains(b) && a != b ==> footprints_apart(cands[a], cands[b])
}

/// The candidates `built` of `cands0` share no footprint tile with each
/// other nor with any candidate left in `cands`, and none of them is left.
pub open spec fn built_kept_apart(
    cands0: Map<usize, BuildingCandidate>,
    cands: Map<usize, BuildingCandidate>,
    built: Set<usize>,
) -> bool {
    &&& built_apart(cands0, built)
    &&& forall|y: usize, x: usize| #![trigger built.contains(y), cands.contains_key(x)]
        built.contains(y) && cands.contains_key(x) ==> footprints_apart(cands0[y], cands0[x])
    &&& forall|y: usize| #[trigger] built.contains(y) ==> !cands.contains_key(y)
}

/// Building the candidate `x` of `c1` and dropping every candidate listed on
/// its footprint keeps the built candidates apart, where the occupancy map is
/// complete.
proof fn lemma_apart_step(
    occ: Map<(OvermapChunkCoords, IVec2), Seq<usize>>,
    cands0: Map<usize, BuildingCandidate>,
    c1: Map<usize, BuildingCandidate>,
    c2: Map<usize, BuildingCandidate>,
    built: Set<usize>,
    x: usize,
)
    requires
        occupancy_complete(occ, cands0),
        built_kept_apart(cands0, c1, built),
        c1.contains_key(x),
        forall|z: usize| #[trigger] c1.contains_key(z) ==> cands0.contains_key(z),
        forall|z: usize| #[trigger] c2.contains_key(z)
            <==> c1.contains_key(z) && !listed_on_footprint(occ, cands0[x], footprint_len(cands0[x]), z),
    ensures
        built_kept_apart(cands0, c2, built.insert(x)),
{
    let nb = built.insert(x);
    let cx = cands0[x];
    assert(cands0.contains_key(x));
    assert forall|z: usize| #[trigger] c2.contains_key(z) implies footprints_apart(cx, cands0[z]) by {
        assert(cands0.contains_key(z));
        assert forall|q: int, r: int| 0 <= q < footprint_len(cx) && 0 <= r < footprint_len(cands0[z])
            implies #[trigger] footprint_cell(cx, q) != #[trigger] footprint_cell(cands0[z], r) by {
            if footprint_cell(cx, q) == footprint_cell(cands0[z], r) {
                assert(listed_at(occ, footprint_cell(cands0[z], r), z));
                assert(listed_at(occ, footprint_cell(cx, q), z));
                assert(listed_on_footprint(occ, cx, footprint_len(cx), z));
            }
        }
    }
    assert(footprint_len(cx) > 0);
    assert(listed_at(occ, footprint_cell(cx, 0), x));
    assert(listed_on_footprint(occ, cx, footprint_len(cx), x));
    assert forall|a: usize, b: usize| #![trigger nb.contains(a), nb.contains(b)]
        nb.contains(a) && nb.contains(b) && a != b implies footprints_apart(cands0[a], cands0[b]) by {
        if a == x {
            assert(c1.contains_key(x) && built.contains(b));
            let fa = cands0[a];
            let fb = cands0[b];
            assert(footprints_apart(fb, fa));
            assert forall|q: int, r: int| 0 <= q < footprint_len(fa) && 0 <= r < footprint_len(fb)
                implies #[trigger] footprint_cell(fa, q) != #[trigger] footprint_cell(fb, r) by {
                assert(footprint_cell(fb, r) != footprint_cell(fa, q));
            }
        } else if b == x {
            assert(built.contains(a) && c1.contains_key(x));
        } else {
            assert(built.contains(a) && built.contains(b));
        }
    }
    assert forall|y: usize, z: usize| #![trigger nb.contains(y), c2.contains_key(z)]
        nb.contains(y) && c2.contains_key(z) implies footprints_apart(cands0[y], cands0[z]) by {
        if y != x {
            assert(built.contains(y) && c1.contains_key(z));
        }
    }
    assert forall|y: usize| #[trigger] nb.contains(y) implies !c2.contains_key(y) by {
        if y != x {
            assert(built.contains(y));
            assert(!c1.contains_key(y));
        }
    }
}

/// One of the rolls `rolls` was drawn for the candidate `id`.
pub open spec fn rolled(rolls: Seq<(usize, i32)>, id: usize) -> bool {
    exists|k: int| 0 <= k < rolls.len() && #[trigger] rolls[k].0 == id
}

/// One of the rolls `rolls` was drawn for the candidate `id` and came out
/// below `chance`.
pub open spec fn rolled_below(rolls: Seq<(usize, i32)>, id: usize, chance: int) -> bool {
    exists|k: int| 0 <= k < rolls.len() && #[trigger] rolls[k].0 == id && rolls[k].1 < chance
}

/// For each candidate, in the map's walking order and while it is still a
/// candidate, rolls its shape's placement chance out of 10 and hands the roll
/// to `place_candidate`: when placed, every candidate covering any tile of its
/// footprint is dropped and each tile of the footprint becomes a house.
/// Returns the candidates rolled for, each with its roll, in order.
fn draw_houses(game_map: &mut GameMap, building_candidates: &mut BuildingCandidates, rng: &mut chacha20::ChaCha8Rng)
    -> (rolls: Ghost<Seq<(usize, i32)>>)
    requires
        map_wf(chunk_map(old(game_map).overmap_chunks)),
        old(building_candidates).wf(),
    ensures
        map_wf(chunk_map(final(game_map).overmap_chunks)),
        tiles_grow(chunk_map(old(game_map).overmap_chunks), chunk_map(final(game_map).overmap_chunks)),
        only_tiles_change(chunk_map(old(game_map).overmap_chunks), chunk_map(final(game_map).overmap_chunks)),
        houses_on_candidates(chunk_map(old(game_map).overmap_chunks), chunk_map(final(game_map).overmap_chunks),
            candidate_map(old(building_candidates).candidates)),
        final(building_candidates).wf(),
        final(building_candidates).id_counter == old(building_candidates).id_counter,
        final(building_candidates).occupancy_map == old(building_candidates).occupancy_map,
        forall|id: usize| #[trigger] candidate_map(final(building_candidates).candidates).contains_key(id)
            ==> candidate_map(old(building_candidates).candidates).contains_key(id)
                && candidate_map(final(building_candidates).candidates)[id]
                    == candidate_map(old(building_candidates).candidates)[id],
        exists|built: Set<usize>| {
            &&& #[trigger] built_from(chunk_map(old(game_map).overmap_chunks), chunk_map(final(game_map).overmap_chunks),
                occupancy_map(old(building_candidates).occupancy_map), candidate_map(old(building_candidates).candidates),
                candidate_map(final(building_candidates).candidates), built)
            &&& occupancy_complete(occupancy_map(old(building_candidates).occupancy_map), candidate_map(old(building_candidates).candidates))
                ==> built_kept_apart(candidate_map(old(building_candidates).candidates),
                    candidate_map(final(building_candidates).candidates), built)
            &&& forall|id: usize| #[trigger] built.contains(id)
                <==> rolled_below(rolls@, id, placement_chance_of(candidate_map(old(building_candidates).candidates)[id].shape))
        },
        forall|k: int| 0 <= k < rolls@.len() ==> 0 <= #[trigger] rolls@[k].1 < 10,
        forall|id: usize| #[trigger] candidate_map(old(building_candidates).candidates).contains_key(id)
            ==> rolled(rolls@, id) || !candidate_map(final(building_candidates).candidates).contains_key(id),
        forall|lo: OvermapChunkCoords, hi: OvermapChunkCoords|
            #[trigger] anchors_near(candidate_map(old(building_candidates).candidates), lo, hi)
                && coord_within(lo, 0) && coord_within(hi, 0)
            ==> changes_inside(chunk_map(old(game_map).overmap_chunks), chunk_map(final(game_map).overmap_chunks),
                square_lo(lo, 1), square_hi(hi, 1)),
{
    let ghost m0 = chunk_map(game_map.overmap_chunks);
    let ghost cands0 = candidate_map(building_candidates.candidates);
    let ghost occ0 = occupancy_map(building_candidates.occupancy_map);
    let ghost mut built: Set<usize> = Set::empty();
    let ghost mut rolls: Seq<(usize, i32)> = Seq::empty();
    let mut candidate_keys = candidate_map_keys(&building_candidates.candidates);
    proof {
        lemma_tiles_grow_refl(m0);
    }
    while candidate_keys.len() > 0
        invariant
            map_wf(chunk_map(game_map.overmap_chunks)),
            tiles_grow(m0, chunk_map(game_map.overmap_chunks)),
            only_tiles_change(m0, chunk_map(game_map.overmap_chunks)),
            houses_on_candidates(m0, chunk_map(game_map.overmap_chunks), cands0),
            building_candidates.wf(),
            building_candidates.id_counter == old(building_candidates).id_counter,
            building_candidates.occupancy_map == old(building_candidates).occupancy_map,
            cands0 == candidate_map(old(building_candidates).candidates),
            forall|id: usize| #[trigger] candidate_map(building_candidates.candidates).contains_key(id)
                ==> cands0.contains_key(id) && candidate_map(building_candidates.candidates)[id] == cands0[id],
            occ0 == occupancy_map(building_candidates.occupancy_map),
            built_from(m0, chunk_map(game_map.overmap_chunks), occ0, cands0, candidate_map(building_candidates.candidates), built),
            occupancy_complete(occ0, cands0) ==> built_kept_apart(cands0, candidate_map(building_candidates.candidates), built),
            forall|k: int| 0 <= k < rolls.len() ==> 0 <= #[trigger] rolls[k].1 < 10,
            forall|k: int| 0 <= k < rolls.len() ==> !candidate_keys@.contains(#[trigger] rolls[k].0),
            candidate_keys@.no_duplicates(),
            forall|id: usize| #[trigger] built.contains(id) <==> rolled_below(rolls, id, placement_chance_of(cands0[id].shape)),
            forall|id: usize| #[trigger] cands0.contains_key(id) && !candidate_keys@.contains(id)
                ==> rolled(rolls, id) || !candidate_map(building_candidates.candidates).contains_key(id),
        ensures
            candidate_keys@.len() == 0,
        decreases candidate_keys@.len(),
    {
        let ghost keys_before = candidate_keys@;
        let candidate_id = match candidate_keys.pop() {
            Some(id) => id,
            None => {
                break;
            },
        };
        proof {
            assert(candidate_keys@ =~= keys_before.drop_last());
            assert(keys_before.last() == candidate_id);
            assert(!candidate_keys@.contains(candidate_id)) by {
                if candidate_keys@.contains(candidate_id) {
                    let j = choose|j: int| 0 <= j < candidate_keys@.len() && candidate_keys@[j] == candidate_id;
                    assert(keys_before[j] == keys_before[keys_before.len() - 1]);
                }
            }
            assert forall|x: usize| #[trigger] candidate_keys@.contains(x) implies keys_before.contains(x) by {
                let j = choose|j: int| 0 <= j < candidate_keys@.len() && candidate_keys@[j] == x;
                assert(keys_before[j] == x);
            }
            assert(keys_before[keys_before.len() - 1] == candidate_id);
            assert forall|x: usize| #[trigger] keys_before.contains(x) && x != candidate_id implies candidate_keys@.contains(x) by {
                let j = choose|j: int| 0 <= j < keys_before.len() && keys_before[j] == x;
                assert(j < keys_before.len() - 1);
                assert(candidate_keys@[j] == x);
            }
            assert(keys_before.contains(candidate_id));
            assert(!rolled(rolls, candidate_id));
        }
        // If the candidate was removed in another iteration continue
        match candidate_map_get(&building_candidates.candidates, candidate_id) {
            Some(_) => {},
            None => {
                continue;
            },
        }
        // If we decide to place the building
        let roll = random_range(rng, 0, 10);
        let ghost m1 = chunk_map(game_map.overmap_chunks);
        let ghost c1 = candidate_map(building_candidates.candidates);
        place_candidate(game_map, building_candidates, candidate_id, roll);
        proof {
            let r0 = rolls;
            rolls = rolls.push((candidate_id, roll));
            assert(rolls[r0.len() as int] == (candidate_id, roll));
            assert(rolls[r0.len() as int].0 == candidate_id);
            assert forall|id: usize| #[trigger] rolled(r0, id) implies rolled(rolls, id) by {
                let k = choose|k: int| 0 <= k < r0.len() && #[trigger] r0[k].0 == id;
                assert(rolls[k] == r0[k]);
            }
            assert forall|id: usize, c: int| #[trigger] rolled_below(r0, id, c) implies rolled_below(rolls, id, c) by {
                let k = choose|k: int| 0 <= k < r0.len() && #[trigger] r0[k].0 == id && r0[k].1 < c;
                assert(rolls[k] == r0[k]);
            }
            assert forall|id: usize, c: int| id != candidate_id && #[trigger] rolled_below(rolls, id, c) implies rolled_below(r0, id, c) by {
                let k = choose|k: int| 0 <= k < rolls.len() && #[trigger] rolls[k].0 == id && rolls[k].1 < c;
                assert(k < r0.len());
                assert(r0[k] == rolls[k]);
            }
            assert(rolled(rolls, candidate_id));
            assert(roll < placement_chance_of(cands0[candidate_id].shape)
                ==> rolled_below(rolls, candidate_id, placement_chance_of(cands0[candidate_id].shape)));
            assert(!(roll < placement_chance_of(cands0[candidate_id].shape))
                ==> !rolled_below(rolls, candidate_id, placement_chance_of(cands0[candidate_id].shape))) by {
                if !(roll < placement_chance_of(cands0[candidate_id].shape))
                    && rolled_below(rolls, candidate_id, placement_chance_of(cands0[candidate_id].shape)) {
                    let k = choose|k: int| 0 <= k < rolls.len() && #[trigger] rolls[k].0 == candidate_id
                        && rolls[k].1 < placement_chance_of(cands0[candidate_id].shape);
                    if k < r0.len() {
                        assert(r0[k] == rolls[k]);
                        assert(rolled(r0, candidate_id));
                    }
                }
            }
            let m2 = chunk_map(game_map.overmap_chunks);
            assert(c1.contains_key(candidate_id));
            assert(c1[candidate_id] == cands0[candidate_id]);
            if roll < placement_chance_of(c1[candidate_id].shape) {
                lemma_houses_step(m0, m1, m2, cands0, candidate_id);
                lemma_built_step(m0, m1, m2, occ0, cands0, c1, candidate_map(building_candidates.candidates), built, candidate_id);
                if occupancy_complete(occ0, cands0) {
                    lemma_apart_step(occ0, cands0, c1, candidate_map(building_candidates.candidates), built, candidate_id);
                }
                built = built.insert(candidate_id);
            }
            lemma_tiles_grow_trans(m0, m1, m2);
            lemma_only_tiles_change_trans(m0, m1, m2);
        }
    }
    proof {
        let m = chunk_map(game_map.overmap_chunks);
        let cands = candidate_map(building_candidates.candidates);
        assert(candidate_keys@.len() == 0);
        assert forall|id: usize| #[trigger] cands0.contains_key(id) implies rolled(rolls, id) || !cands.contains_key(id) by {
            assert(!candidate_keys@.contains(id));
        }
        assert(built_from(m0, m, occ0, cands0, cands, built)
            && (occupancy_complete(occ0, cands0) ==> built_kept_apart(cands0, cands, built))
            && (forall|id: usize| #[trigger] built.contains(id) <==> rolled_below(rolls, id, placement_chance_of(cands0[id].shape))));
        assert forall|lo: OvermapChunkCoords, hi: OvermapChunkCoords|
            #[trigger] anchors_near(cands0, lo, hi) && coord_within(lo, 0) && coord_within(hi, 0)
            implies changes_inside(m0, m, square_lo(lo, 1), square_hi(hi, 1)) by {
            assert forall|k: OvermapChunkCoords, i: int|
                m0.contains_key(k) && 0 <= i < m0[k].overmap_tiles.len() && #[trigger] m[k].overmap_tiles@[i] != m0[k].overmap_tiles@[i]
                implies chunk_in_box(k, square_lo(lo, 1), square_hi(hi, 1)) by {
                let (id, q) = choose|id: usize, q: int| #![trigger built.contains(id), footprint_cell(cands0[id], q)]
                    built.contains(id) && 0 <= q < footprint_len(cands0[id])
                    && footprint_cell(cands0[id], q).0 == k && tile_index(footprint_cell(cands0[id], q).1) == i;
                assert(cands0.contains_key(id));
                lemma_footprint_near(cands0[id], q, lo, hi);
            }
        }
    }
    Ghost(rolls)
}

/// The square of chunks of radius 1 around a chunk within one chunk of
/// `current` lies in the square of radius 2 around `current`.
proof fn lemma_inner_square_present(m: Map<OvermapChunkCoords, OvermapChunk>, current: IVec2, c: IVec2)
    requires
        centre_ok(current),
        abs_int(c.x - current.x) <= 1,
        abs_int(c.y - current.y) <= 1,
        box_present(m, square_lo(chunk_at(current), 2), square_hi(chunk_at(current), 2)),
    ensures
        box_present(m, square_lo(chunk_at(c), 1), square_hi(chunk_at(c), 1)),
{
    assert forall|k: OvermapChunkCoords| #[trigger] chunk_in_box(k, square_lo(chunk_at(c), 1), square_hi(chunk_at(c), 1))
        implies m.contains_key(k) by {
        assert(chunk_in_box(k, square_lo(chunk_at(current), 2), square_hi(chunk_at(current), 2)));
    }
}

/// The four tiles next to the overmap-wide position `g`, above, below, right
/// and left of it, are set in `m`.
pub open spec fn unit_steps_set(m: Map<OvermapChunkCoords, OvermapChunk>, g: (int, int)) -> bool {
    &&& set_at_global(m, (g.0, g.1 + 1))
    &&& set_at_global(m, (g.0, g.1 - 1))
    &&& set_at_global(m, (g.0 + 1, g.1))
    &&& set_at_global(m, (g.0 - 1, g.1))
}

/// Every city that `src` holds in chunk `k` has the four tiles next to its
/// centre set in `m`: its streets have begun.
pub open spec fn city_roads_begun(
    src: Map<OvermapChunkCoords, OvermapChunk>,
    m: Map<OvermapChunkCoords, OvermapChunk>,
    k: OvermapChunkCoords,
) -> bool {
    forall|id: CityId| #[trigger] city_map(src[k].cities).contains_key(id)
        ==> unit_steps_set(m, global_of(k, city_map(src[k].cities)[id].position))
}

/// The tiles next to a position stay set as the map grows.
proof fn lemma_unit_steps_grow(m1: Map<OvermapChunkCoords, OvermapChunk>, m2: Map<OvermapChunkCoords, OvermapChunk>, g: (int, int))
    requires
        tiles_grow(m1, m2),
        chunks_wf(m1),
        unit_steps_set(m1, g),
    ensures
        unit_steps_set(m2, g),
{
    lemma_set_at_global_grows(m1, m2, (g.0, g.1 + 1));
    lemma_set_at_global_grows(m1, m2, (g.0, g.1 - 1));
    lemma_set_at_global_grows(m1, m2, (g.0 + 1, g.1));
    lemma_set_at_global_grows(m1, m2, (g.0 - 1, g.1));
}

/// A chunk's cities keep their begun streets as the map grows.
proof fn lemma_city_roads_grow(
    src: Map<OvermapChunkCoords, OvermapChunk>,
    m1: Map<OvermapChunkCoords, OvermapChunk>,
    m2: Map<OvermapChunkCoords, OvermapChunk>,
    k: OvermapChunkCoords,
)
    requires
        city_roads_begun(src, m1, k),
        tiles_grow(m1, m2),
        chunks_wf(m1),
    ensures
        city_roads_begun(src, m2, k),
{
    assert forall|id: CityId| #[trigger] city_map(src[k].cities).contains_key(id)
        implies unit_steps_set(m2, global_of(k, city_map(src[k].cities)[id].position)) by {
        lemma_unit_steps_grow(m1, m2, global_of(k, city_map(src[k].cities)[id].position));
    }
}

/// `stop_probability` gives no chance of stopping one or two tiles from a
/// city's centre, for every size that a city can have.
pub open spec fn quiet_near_centre<F: Fn(u32, i32) -> i32>(stop_probability: &F) -> bool {
    forall|d: u32, s: i32, p: i32| 1 <= d <= 2 && 64 <= s <= 128 && #[trigger] stop_probability.ensures((d, s), p) ==> p <= 0
}

/// The four tiles `t` steps from the overmap-wide position `g`, above, below,
/// right and left of it, are set in `m`.
pub open spec fn steps_set_at(m: Map<OvermapChunkCoords, OvermapChunk>, g: (int, int), t: int) -> bool {
    &&& set_at_global(m, (g.0, g.1 + t))
    &&& set_at_global(m, (g.0, g.1 - t))
    &&& set_at_global(m, (g.0 + t, g.1))
    &&& set_at_global(m, (g.0 - t, g.1))
}

/// Every city that `src` holds in chunk `k` has the tiles two and three steps
/// from its centre, in each of the four directions, set in `m`.
pub open spec fn city_streets_reach_three(
    src: Map<OvermapChunkCoords, OvermapChunk>,
    m: Map<OvermapChunkCoords, OvermapChunk>,
    k: OvermapChunkCoords,
) -> bool {
    forall|id: CityId| #[trigger] city_map(src[k].cities).contains_key(id)
        ==> steps_set_at(m, global_of(k, city_map(src[k].cities)[id].position), 2)
            && steps_set_at(m, global_of(k, city_map(src[k].cities)[id].position), 3)
}

/// The tiles `t` steps from a position stay set as the map grows.
proof fn lemma_steps_set_grow(m1: Map<OvermapChunkCoords, OvermapChunk>, m2: Map<OvermapChunkCoords, OvermapChunk>, g: (int, int), t: int)
    requires
        tiles_grow(m1, m2),
        chunks_wf(m1),
        steps_set_at(m1, g, t),
    ensures
        steps_set_at(m2, g, t),
{
    lemma_set_at_global_grows(m1, m2, (g.0, g.1 + t));
    lemma_set_at_global_grows(m1, m2, (g.0, g.1 - t));
    lemma_set_at_global_grows(m1, m2, (g.0 + t, g.1));
    lemma_set_at_global_grows(m1, m2, (g.0 - t, g.1));
}

/// A chunk's cities keep their streets three tiles long as the map grows.
proof fn lemma_city_streets_grow(
    src: Map<OvermapChunkCoords, OvermapChunk>,
    m1: Map<OvermapChunkCoords, OvermapChunk>,
    m2: Map<OvermapChunkCoords, OvermapChunk>,
    k: OvermapChunkCoords,
)
    requires
        city_streets_reach_three(src, m1, k),
        tiles_grow(m1, m2),
        chunks_wf(m1),
    ensures
        city_streets_reach_three(src, m2, k),
{
    assert forall|id: CityId| #[trigger] city_map(src[k].cities).contains_key(id)
        implies steps_set_at(m2, global_of(k, city_map(src[k].cities)[id].position), 2)
            && steps_set_at(m2, global_of(k, city_map(src[k].cities)[id].position), 3) by {
        lemma_steps_set_grow(m1, m2, global_of(k, city_map(src[k].cities)[id].position), 2);
        lemma_steps_set_grow(m1, m2, global_of(k, city_map(src[k].cities)[id].position), 3);
    }
}

/// A builder whose next step lies in the chunks around `origin` stands, once
/// advanced, on that step.
proof fn lemma_advanced_global(b: RoadBuilder, origin: OvermapChunkCoords)
    requires
        step_in_block(b, origin),
        coord_within(origin, 0),
    ensures
        advanced(b).chunk_cursor.placed(),
        advanced(b).chunk_cursor.global() == stepped_global(b),
{
    let g = stepped_global(b);
    let n = OVERMAP_CHUNK_SIZE as int;
    let lo = square_lo(origin, 1);
    let hi = square_hi(origin, 1);
    vstd::arithmetic::div_mod::lemma_fundamental_div_mod(g.0, n);
    vstd::arithmetic::div_mod::lemma_fundamental_div_mod(g.1, n);
    vstd::arithmetic::div_mod::lemma_mod_bound(g.0, n);
    vstd::arithmetic::div_mod::lemma_mod_bound(g.1, n);
    let qx = g.0 / n;
    let qy = g.1 / n;
    let rx = g.0 % n;
    let ry = g.1 % n;
    assert(lo.0.x <= qx <= hi.0.x) by (nonlinear_arith)
        requires
            lo.0.x * n <= g.0 < (hi.0.x + 1) * n,
            g.0 == n * qx + rx,
            0 <= rx < n,
            n == 128,
    ;
    assert(lo.0.y <= qy <= hi.0.y) by (nonlinear_arith)
        requires
            lo.0.y * n <= g.1 < (hi.0.y + 1) * n,
            g.1 == n * qy + ry,
            0 <= ry < n,
            n == 128,
    ;
}

/// The first-generation builder `b` that leaves the centre of `city` steps
/// one, two and three tiles out along its direction within the chunks around
/// the city, and, where `stop_probability` is quiet near the centre, keeps
/// going on its first two moves.
proof fn lemma_first_builder_arm<F: Fn(u32, i32) -> i32>(b: RoadBuilder, city: City, stop_probability: &F)
    requires
        city_ok(city),
        b.chunk_cursor.chunk_coord == city.overmap_chunk_coordinate,
        b.chunk_cursor.local_pos == city.position,
        unit_cardinal(b.direction),
        b.generation == 0,
        b.moves_since_split == 0,
    ensures
        stepped_global(b) == (city_global(city).0 + b.direction.x, city_global(city).1 + b.direction.y),
        stepped_global(advanced(b)) == (city_global(city).0 + 2 * b.direction.x, city_global(city).1 + 2 * b.direction.y),
        stepped_global(advanced(advanced(b))) == (city_global(city).0 + 3 * b.direction.x, city_global(city).1 + 3 * b.direction.y),
        step_in_block(b, city.overmap_chunk_coordinate),
        step_in_block(advanced(b), city.overmap_chunk_coordinate),
        step_in_block(advanced(advanced(b)), city.overmap_chunk_coordinate),
        advanced(b).generation == 0,
        advanced(advanced(b)).generation == 0,
        quiet_near_centre(stop_probability) ==> keeps_going(b, city, stop_probability)
            && keeps_going(advanced(b), city, stop_probability),
{
    let origin = city.overmap_chunk_coordinate;
    let g = city_global(city);
    lemma_advanced_global(b, origin);
    assert(step_in_block(advanced(b), origin));
    lemma_advanced_global(advanced(b), origin);
    assert(distance_to_city(advanced(b), city) == 1);
    assert(distance_to_city(advanced(advanced(b)), city) == 2);
    if quiet_near_centre(stop_probability) {
        assert forall|p: i32| #[trigger] stop_probability.ensures((distance_to_city(advanced(b), city) as u32, city.size), p)
            implies p <= 0 by {
            assert(stop_probability.ensures((1u32, city.size), p));
        }
        assert forall|p: i32| #[trigger] stop_probability.ensures((distance_to_city(advanced(advanced(b)), city) as u32, city.size), p)
            implies p <= 0 by {
            assert(stop_probability.ensures((2u32, city.size), p));
        }
    }
}

/// One round of a city's builders where `stop_probability` is quiet near the
/// centre: the four first builders have taken `r` uneventful steps before it,
/// and the tiles two and three steps out are set once enough rounds have run.
proof fn lemma_quiet_round<F: Fn(u32, i32) -> i32>(
    first: Seq<RoadBuilder>,
    sb: Seq<RoadBuilder>,
    sa: Seq<RoadBuilder>,
    m2: Map<OvermapChunkCoords, OvermapChunk>,
    m3: Map<OvermapChunkCoords, OvermapChunk>,
    city: City,
    r: int,
    stop_probability: &F,
)
    requires
        quiet_near_centre(stop_probability),
        city_ok(city),
        builders_wf(first, city.overmap_chunk_coordinate),
        first.len() == 4,
        first[0].direction == (IVec2 { x: 0, y: 1 }),
        first[1].direction == (IVec2 { x: 0, y: -1i32 }),
        first[2].direction == (IVec2 { x: 1, y: 0 }),
        first[3].direction == (IVec2 { x: -1i32, y: 0 }),
        forall|j: int| 0 <= j < 4 ==> (#[trigger] first[j]).chunk_cursor.local_pos == city.position
            && first[j].chunk_cursor.chunk_coord == city.overmap_chunk_coordinate && first[j].generation == 0
            && first[j].moves_since_split == 0,
        r >= 0,
        r == 0 ==> sb == first,
        r == 1 ==> sb == first.map_values(|b: RoadBuilder| advanced(b)),
        r == 2 ==> sb == first.map_values(|b: RoadBuilder| advanced(advanced(b))),
        r >= 2 ==> steps_set_at(m2, city_global(city), 2),
        r >= 3 ==> steps_set_at(m2, city_global(city), 3),
        (forall|k: int| 0 <= k < sb.len() ==> #[trigger] keeps_going(sb[k], city, stop_probability))
            ==> sa == sb.map_values(|b: RoadBuilder| advanced(b)),
        first_steps_laid(sb, sb.len() as int, city.overmap_chunk_coordinate, m3),
        tiles_grow(m2, m3),
        chunks_wf(m2),
    ensures
        r + 1 == 1 ==> sa == first.map_values(|b: RoadBuilder| advanced(b)),
        r + 1 == 2 ==> sa == first.map_values(|b: RoadBuilder| advanced(advanced(b))),
        r + 1 >= 2 ==> steps_set_at(m3, city_global(city), 2),
        r + 1 >= 3 ==> steps_set_at(m3, city_global(city), 3),
{
    let origin = city.overmap_chunk_coordinate;
    let g = city_global(city);
    assert forall|j: int| 0 <= j < 4 implies {
        let b = #[trigger] first[j];
        &&& stepped_global(advanced(b)) == (g.0 + 2 * b.direction.x, g.1 + 2 * b.direction.y)
        &&& stepped_global(advanced(advanced(b))) == (g.0 + 3 * b.direction.x, g.1 + 3 * b.direction.y)
        &&& step_in_block(advanced(b), origin)
        &&& step_in_block(advanced(advanced(b)), origin)
        &&& advanced(b).generation == 0
        &&& advanced(advanced(b)).generation == 0
        &&& keeps_going(b, city, stop_probability)
        &&& keeps_going(advanced(b), city, stop_probability)
    } by {
        assert(first[j].wf(origin));
        lemma_first_builder_arm(first[j], city, stop_probability);
    }
    if r == 0 {
        assert(forall|k: int| 0 <= k < sb.len() ==> #[trigger] keeps_going(sb[k], city, stop_probability));
    } else if r == 1 {
        assert forall|k: int| 0 <= k < sb.len() implies #[trigger] keeps_going(sb[k], city, stop_probability) by {
            assert(sb[k] == advanced(first[k]));
        }
        assert(sa =~= first.map_values(|b: RoadBuilder| advanced(advanced(b))));
        assert forall|j: int| 0 <= j < 4 implies set_at_global(m3, stepped_global(advanced(#[trigger] first[j]))) by {
            assert(sb[j] == advanced(first[j]));
            assert(sb[j].generation == 0 && step_in_block(sb[j], origin));
        }
        assert(stepped_global(advanced(first[0])) == (g.0, g.1 + 2));
        assert(stepped_global(advanced(first[1])) == (g.0, g.1 - 2));
        assert(stepped_global(advanced(first[2])) == (g.0 + 2, g.1));
        assert(stepped_global(advanced(first[3])) == (g.0 - 2, g.1));
    } else if r == 2 {
        lemma_steps_set_grow(m2, m3, g, 2);
        assert forall|j: int| 0 <= j < 4 implies set_at_global(m3, stepped_global(advanced(advanced(#[trigger] first[j])))) by {
            assert(sb[j] == advanced(advanced(first[j])));
            assert(sb[j].generation == 0 && step_in_block(sb[j], origin));
        }
        assert(stepped_global(advanced(advanced(first[0]))) == (g.0, g.1 + 3));
        assert(stepped_global(advanced(advanced(first[1]))) == (g.0, g.1 - 3));
        assert(stepped_global(advanced(advanced(first[2]))) == (g.0 + 3, g.1));
        assert(stepped_global(advanced(advanced(first[3]))) == (g.0 - 3, g.1));
    } else {
        lemma_steps_set_grow(m2, m3, g, 2);
        lemma_steps_set_grow(m2, m3, g, 3);
    }
}

/// Rounds of road building allowed per city; a city's builders are run until
/// none is left or this many rounds have passed.
pub const MAX_BUILDER_ROUNDS: u64 = 18446744073709551615;

/// The four first-generation builders of a city, heading up, down, right and
/// left from its centre.
fn city_builders(chunk: OvermapChunkCoords, city: &City) -> (r: Vec<RoadBuilder>)
    requires
        city_ok(*city),
        city.overmap_chunk_coordinate == chunk,
    ensures
        builders_wf(r@, chunk),
        r@.len() == 4,
        r@[0].direction == (IVec2 { x: 0, y: 1 }),
        r@[1].direction == (IVec2 { x: 0, y: -1i32 }),
        r@[2].direction == (IVec2 { x: 1, y: 0 }),
        r@[3].direction == (IVec2 { x: -1i32, y: 0 }),
        forall|j: int| 0 <= j < 4 ==> (#[trigger] r@[j]).chunk_cursor.local_pos == city.position
            && r@[j].chunk_cursor.chunk_coord == chunk && r@[j].generation == 0 && r@[j].moves_since_split == 0,
{
    let r = vec![
        RoadBuilder::new(chunk, city.position, chunk, IVec2 { x: 0, y: 1 }, 0),
        RoadBuilder::new(chunk, city.position, chunk, IVec2 { x: 0, y: -1 }, 0),
        RoadBuilder::new(chunk, city.position, chunk, IVec2 { x: 1, y: 0 }, 0),
        RoadBuilder::new(chunk, city.position, chunk, IVec2 { x: -1, y: 0 }, 0),
    ];
    proof {
        assert forall|j: int| 0 <= j < r@.len() implies #[trigger] r@[j].wf(chunk) by {
            lemma_actions_weight(0);
        }
    }
    r
}

/// Grows the street network of every city in the chunks within one chunk of
/// `current_overmap_coordinate`: the city's four builders run round after
/// round until none is left. The builders note building candidates along the
/// streets in either layout; in `Layout::WithHouses` the candidates are then
/// enlarged and houses are placed, while the roads-only layout lays nothing
/// but roads.
fn generate_cities<F: Fn(u32, i32) -> i32>(
    game_map: &mut GameMap,
    current_overmap_coordinate: IVec2,
    rng: &mut chacha20::ChaCha8Rng,
    stop_probability: &F,
    layout: Layout,
)
    requires
        forall|d: u32, s: i32| stop_probability.requires((d, s)),
        map_wf(chunk_map(old(game_map).overmap_chunks)),
        centre_ok(current_overmap_coordinate),
        box_present(chunk_map(old(game_map).overmap_chunks), square_lo(chunk_at(current_overmap_coordinate), 2),
            square_hi(chunk_at(current_overmap_coordinate), 2)),
    ensures
        map_wf(chunk_map(final(game_map).overmap_chunks)),
        tiles_grow(chunk_map(old(game_map).overmap_chunks), chunk_map(final(game_map).overmap_chunks)),
        only_tiles_change(chunk_map(old(game_map).overmap_chunks), chunk_map(final(game_map).overmap_chunks)),
        layout == Layout::RoadsOnly ==> only_roads_laid(chunk_map(old(game_map).overmap_chunks), chunk_map(final(game_map).overmap_chunks)),
        forall|j: int| 0 <= j < 9 ==> city_roads_begun(chunk_map(old(game_map).overmap_chunks),
            chunk_map(final(game_map).overmap_chunks), chunk_at(#[trigger] square_cell(current_overmap_coordinate, 1, j))),
        changes_inside(chunk_map(old(game_map).overmap_chunks), chunk_map(final(game_map).overmap_chunks),
            square_lo(chunk_at(current_overmap_coordinate), 3), square_hi(chunk_at(current_overmap_coordinate), 3)),
        quiet_near_centre(stop_probability) ==> forall|j: int| 0 <= j < 9 ==> city_streets_reach_three(
            chunk_map(old(game_map).overmap_chunks), chunk_map(final(game_map).overmap_chunks),
            chunk_at(#[trigger] square_cell(current_overmap_coordinate, 1, j))),
{
    let ghost m0 = chunk_map(game_map.overmap_chunks);
    let coords = get_coords_in_square_radius(current_overmap_coordinate, 1, false);
    proof {
        assert(square_width(1) == 3);
        assert(square_width(1) * square_width(1) == 9) by (nonlinear_arith)
            requires
                square_width(1) == 3,
        ;
        assert(coords@ == crate::utils::square_coords(current_overmap_coordinate, 1, false, 9));
        lemma_square_full(current_overmap_coordinate, 1, 9);
        lemma_tiles_grow_refl(m0);
    }
    let mut ci: usize = 0;
    while ci < coords.len()
        invariant
            ci <= coords@.len(),
            coords@.len() == 9,
            forall|j: int| 0 <= j < 9 ==> #[trigger] coords@[j] == square_cell(current_overmap_coordinate, 1, j),
            forall|d: u32, s: i32| stop_probability.requires((d, s)),
            centre_ok(current_overmap_coordinate),
            box_present(m0, square_lo(chunk_at(current_overmap_coordinate), 2), square_hi(chunk_at(current_overmap_coordinate), 2)),
            map_wf(chunk_map(game_map.overmap_chunks)),
            tiles_grow(m0, chunk_map(game_map.overmap_chunks)),
            only_tiles_change(m0, chunk_map(game_map.overmap_chunks)),
            layout == Layout::RoadsOnly ==> only_roads_laid(m0, chunk_map(game_map.overmap_chunks)),
            m0 == chunk_map(old(game_map).overmap_chunks),
            forall|j: int| 0 <= j < ci ==> city_roads_begun(m0, chunk_map(game_map.overmap_chunks), chunk_at(#[trigger] coords@[j])),
            quiet_near_centre(stop_probability) ==> forall|j: int| 0 <= j < ci
                ==> city_streets_reach_three(m0, chunk_map(game_map.overmap_chunks), chunk_at(#[trigger] coords@[j])),
            changes_inside(m0, chunk_map(game_map.overmap_chunks),
                square_lo(chunk_at(current_overmap_coordinate), 3), square_hi(chunk_at(current_overmap_coordinate), 3)),
        decreases coords@.len() - ci,
    {
        let overmap_coord = coords[ci];
        let current_overmap_chunk_coord = OvermapChunkCoords(overmap_coord);
        let ghost m1 = chunk_map(game_map.overmap_chunks);
        proof {
            assert(square_width(1) == 3);
            assert(square_width(1) * square_width(1) == 9) by (nonlinear_arith)
                requires
                    square_width(1) == 3,
            ;
            lemma_square_cell_offsets(current_overmap_coordinate, 1, ci as int);
            lemma_near_in_square(current_overmap_coordinate, overmap_coord, 1);
            assert(m0.contains_key(current_overmap_chunk_coord));
            assert(m1.contains_key(current_overmap_chunk_coord));
            lemma_inner_square_present(m0, current_overmap_coordinate, overmap_coord);
            assert forall|k: OvermapChunkCoords| #[trigger] chunk_in_box(k, square_lo(chunk_at(overmap_coord), 1), square_hi(chunk_at(overmap_coord), 1))
                implies m1.contains_key(k) by {
                assert(m0.contains_key(k));
            }
        }
        let current_chunk_cities = city_snapshot(&game_map.overmap_chunks, &current_overmap_chunk_coord);
        let mut building_candidates = BuildingCandidates {
            id_counter: 0,
            candidates: candidate_map_new(),
            occupancy_map: occupancy_map_new(),
        };
        let mut q: usize = 0;
        while q < current_chunk_cities.len()
            invariant
                q <= current_chunk_cities@.len(),
                forall|d: u32, s: i32| stop_probability.requires((d, s)),
                current_overmap_chunk_coord == chunk_at(overmap_coord),
                m1.contains_key(current_overmap_chunk_coord),
                map_wf(m1),
                forall|j: int| 0 <= j < current_chunk_cities@.len() ==> {
                    let stored = city_map(m1[current_overmap_chunk_coord].cities)[#[trigger] current_chunk_cities@[j].id];
                    &&& city_map(m1[current_overmap_chunk_coord].cities).contains_key(current_chunk_cities@[j].id)
                    &&& current_chunk_cities@[j].position == stored.position
                    &&& current_chunk_cities@[j].overmap_chunk_coordinate == stored.overmap_chunk_coordinate
                    &&& current_chunk_cities@[j].size == stored.size
                },
                box_present(chunk_map(game_map.overmap_chunks), square_lo(current_overmap_chunk_coord, 1),
                    square_hi(current_overmap_chunk_coord, 1)),
                map_wf(chunk_map(game_map.overmap_chunks)),
                tiles_grow(m0, chunk_map(game_map.overmap_chunks)),
                only_tiles_change(m0, chunk_map(game_map.overmap_chunks)),
                layout == Layout::RoadsOnly ==> only_roads_laid(m0, chunk_map(game_map.overmap_chunks)),
                building_candidates.wf(),
                forall|id: CityId| #[trigger] city_map(m1[current_overmap_chunk_coord].cities).contains_key(id)
                    ==> exists|j: int| 0 <= j < current_chunk_cities@.len() && current_chunk_cities@[j].id == id,
                tiles_grow(m1, chunk_map(game_map.overmap_chunks)),
                forall|t: int| 0 <= t < q ==> unit_steps_set(chunk_map(game_map.overmap_chunks),
                    global_of(current_overmap_chunk_coord, #[trigger] current_chunk_cities@[t].position)),
                quiet_near_centre(stop_probability) ==> forall|t: int| 0 <= t < q ==> {
                    let g = global_of(current_overmap_chunk_coord, #[trigger] current_chunk_cities@[t].position);
                    steps_set_at(chunk_map(game_map.overmap_chunks), g, 2) && steps_set_at(chunk_map(game_map.overmap_chunks), g, 3)
                },
                changes_inside(m0, chunk_map(game_map.overmap_chunks),
                    square_lo(chunk_at(current_overmap_coordinate), 3), square_hi(chunk_at(current_overmap_coordinate), 3)),
                anchors_near(candidate_map(building_candidates.candidates), square_lo(current_overmap_chunk_coord, 1),
                    square_hi(current_overmap_chunk_coord, 1)),
                centre_ok(current_overmap_coordinate),
                abs_int(overmap_coord.x - current_overmap_coordinate.x) <= 1,
                abs_int(overmap_coord.y - current_overmap_coordinate.y) <= 1,
                tiles_grow(m0, chunk_map(game_map.overmap_chunks)),
            decreases current_chunk_cities@.len() - q,
        {
            let city = &current_chunk_cities[q];
            proof {
                let stored = city_map(m1[current_overmap_chunk_coord].cities)[city.id];
                assert(city_wf(current_overmap_chunk_coord, city.id, stored));
            }
            let ghost mq = chunk_map(game_map.overmap_chunks);
            let ghost g_city = global_of(current_overmap_chunk_coord, city.position);
            proof {
                lemma_tiles_grow_refl(mq);
            }
            let mut road_builders = city_builders(current_overmap_chunk_coord, city);
            let ghost first_builders = road_builders@;
            let mut rounds_left: u64 = MAX_BUILDER_ROUNDS;
            let ghost quiet = quiet_near_centre(stop_probability);
            while road_builders.len() > 0 && rounds_left > 0
                invariant
                    forall|d: u32, s: i32| stop_probability.requires((d, s)),
                    city_ok(*city),
                    city.overmap_chunk_coordinate == current_overmap_chunk_coord,
                    box_present(chunk_map(game_map.overmap_chunks), square_lo(current_overmap_chunk_coord, 1),
                        square_hi(current_overmap_chunk_coord, 1)),
                    builders_wf(road_builders@, current_overmap_chunk_coord),
                    map_wf(chunk_map(game_map.overmap_chunks)),
                    tiles_grow(m0, chunk_map(game_map.overmap_chunks)),
                    only_tiles_change(m0, chunk_map(game_map.overmap_chunks)),
                    layout == Layout::RoadsOnly ==> only_roads_laid(m0, chunk_map(game_map.overmap_chunks)),
                    building_candidates.wf(),
                    tiles_grow(mq, chunk_map(game_map.overmap_chunks)),
                    g_city == global_of(current_overmap_chunk_coord, city.position),
                    first_builders.len() == 4,
                    first_builders[0].direction == (IVec2 { x: 0, y: 1 }),
                    first_builders[1].direction == (IVec2 { x: 0, y: -1i32 }),
                    first_builders[2].direction == (IVec2 { x: 1, y: 0 }),
                    first_builders[3].direction == (IVec2 { x: -1i32, y: 0 }),
                    forall|j: int| 0 <= j < 4 ==> (#[trigger] first_builders[j]).chunk_cursor.local_pos == city.position
                        && first_builders[j].chunk_cursor.chunk_coord == current_overmap_chunk_coord
                        && first_builders[j].generation == 0,
                    rounds_left == MAX_BUILDER_ROUNDS ==> road_builders@ == first_builders,
                    rounds_left < MAX_BUILDER_ROUNDS ==> unit_steps_set(chunk_map(game_map.overmap_chunks), g_city),
                    forall|j: int| 0 <= j < 4 ==> (#[trigger] first_builders[j]).moves_since_split == 0,
                    builders_wf(first_builders, current_overmap_chunk_coord),
                    g_city == city_global(*city),
                    quiet == quiet_near_centre(stop_probability),
                    quiet && rounds_left == MAX_BUILDER_ROUNDS - 1
                        ==> road_builders@ == first_builders.map_values(|b: RoadBuilder| advanced(b)),
                    quiet && rounds_left == MAX_BUILDER_ROUNDS - 2
                        ==> road_builders@ == first_builders.map_values(|b: RoadBuilder| advanced(advanced(b))),
                    quiet && rounds_left <= MAX_BUILDER_ROUNDS - 2 ==> steps_set_at(chunk_map(game_map.overmap_chunks), g_city, 2),
                    quiet && rounds_left <= MAX_BUILDER_ROUNDS - 3 ==> steps_set_at(chunk_map(game_map.overmap_chunks), g_city, 3),
                    changes_inside(m0, chunk_map(game_map.overmap_chunks),
                        square_lo(chunk_at(current_overmap_coordinate), 3), square_hi(chunk_at(current_overmap_coordinate), 3)),
                    anchors_near(candidate_map(building_candidates.candidates), square_lo(current_overmap_chunk_coord, 1),
                        square_hi(current_overmap_chunk_coord, 1)),
                    centre_ok(current_overmap_coordinate),
                    abs_int(overmap_coord.x - current_overmap_coordinate.x) <= 1,
                    abs_int(overmap_coord.y - current_overmap_coordinate.y) <= 1,
                    current_overmap_chunk_coord == chunk_at(overmap_coord),
                decreases rounds_left,
            {
                let ghost m2 = chunk_map(game_map.overmap_chunks);
                let ghost sb = road_builders@;
                proof {
                    lemma_box_steps_ok(road_builders@, chunk_map(game_map.overmap_chunks), current_overmap_chunk_coord);
                }
                run_road_builder_iteration(&mut road_builders, city, &mut game_map.overmap_chunks,
                    &mut building_candidates, rng, stop_probability);
                proof {
                    let m3 = chunk_map(game_map.overmap_chunks);
                    if layout == Layout::RoadsOnly {
                        lemma_roads_laid_trans(m0, m2, m3);
                    }
                    lemma_tiles_grow_trans(m0, m2, m3);
                    lemma_tiles_grow_trans(mq, m2, m3);
                    lemma_only_tiles_change_trans(m0, m2, m3);
                    lemma_changes_inside_widen(m2, m3, square_lo(current_overmap_chunk_coord, 1), square_hi(current_overmap_chunk_coord, 1),
                        square_lo(chunk_at(current_overmap_coordinate), 3), square_hi(chunk_at(current_overmap_coordinate), 3));
                    lemma_changes_inside_trans(m0, m2, m3,
                        square_lo(chunk_at(current_overmap_coordinate), 3), square_hi(chunk_at(current_overmap_coordinate), 3));
                    assert forall|k: OvermapChunkCoords| #[trigger] chunk_in_box(k, square_lo(current_overmap_chunk_coord, 1), square_hi(current_overmap_chunk_coord, 1))
                        implies m3.contains_key(k) by {
                        assert(m2.contains_key(k));
                    }
                    if rounds_left == MAX_BUILDER_ROUNDS {
                        assert(first_builders[0].generation == 0);
                        assert(first_builders[1].generation == 0);
                        assert(first_builders[2].generation == 0);
                        assert(first_builders[3].generation == 0);
                        assert(stepped_global(first_builders[0]) == (g_city.0, g_city.1 + 1));
                        assert(stepped_global(first_builders[1]) == (g_city.0, g_city.1 - 1));
                        assert(stepped_global(first_builders[2]) == (g_city.0 + 1, g_city.1));
                        assert(stepped_global(first_builders[3]) == (g_city.0 - 1, g_city.1));
                    } else {
                        lemma_unit_steps_grow(m2, m3, g_city);
                    }
                    if quiet {
                        lemma_quiet_round(first_builders, sb, road_builders@, m2, m3, *city,
                            MAX_BUILDER_ROUNDS - rounds_left, stop_probability);
                    }
                }
                rounds_left = rounds_left - 1;
            }
            proof {
                if rounds_left == MAX_BUILDER_ROUNDS {
                    assert(road_builders@.len() == 4);
                }
                if quiet && (rounds_left == MAX_BUILDER_ROUNDS - 1 || rounds_left == MAX_BUILDER_ROUNDS - 2) {
                    assert(road_builders@.len() == 4);
                }
                if quiet {
                    assert(steps_set_at(chunk_map(game_map.overmap_chunks), g_city, 2));
                    assert(steps_set_at(chunk_map(game_map.overmap_chunks), g_city, 3));
                }
            }
            let ghost m_built = chunk_map(game_map.overmap_chunks);
            if layout == Layout::WithHouses {
                // Expand the building candidates
                let ghost cb = candidate_map(building_candidates.candidates);
                expand_building_candidates(&mut building_candidates, &mut game_map.overmap_chunks);
                let ghost m4 = chunk_map(game_map.overmap_chunks);
                let ghost cx = candidate_map(building_candidates.candidates);
                proof {
                    assert(anchors_near(cb, square_lo(current_overmap_chunk_coord, 1), square_hi(current_overmap_chunk_coord, 1)));
                    assert(anchors_near(cx, square_lo(current_overmap_chunk_coord, 1), square_hi(current_overmap_chunk_coord, 1)));
                }
                draw_houses(game_map, &mut building_candidates, rng);
                proof {
                    let m5 = chunk_map(game_map.overmap_chunks);
                    lemma_tiles_grow_trans(m0, m4, m5);
                    lemma_tiles_grow_trans(mq, m4, m5);
                    lemma_only_tiles_change_trans(m0, m4, m5);
                    let lo1 = square_lo(current_overmap_chunk_coord, 1);
                    let hi1 = square_hi(current_overmap_chunk_coord, 1);
                    assert(coord_within(lo1, 0) && coord_within(hi1, 0));
                    assert(anchors_near(cx, lo1, hi1));
                    assert(changes_inside(m4, m5, square_lo(lo1, 1), square_hi(hi1, 1)));
                    lemma_changes_inside_widen(m4, m5, square_lo(lo1, 1), square_hi(hi1, 1),
                        square_lo(chunk_at(current_overmap_coordinate), 3), square_hi(chunk_at(current_overmap_coordinate), 3));
                    lemma_changes_inside_trans(m0, m4, m5,
                        square_lo(chunk_at(current_overmap_coordinate), 3), square_hi(chunk_at(current_overmap_coordinate), 3));
                    assert forall|x: usize| #[trigger] candidate_map(building_candidates.candidates).contains_key(x)
                        implies cx.contains_key(x) && candidate_map(building_candidates.candidates)[x] == cx[x] by {
                    }
                    assert(anchors_near(candidate_map(building_candidates.candidates), lo1, hi1));
                    assert forall|k: OvermapChunkCoords| #[trigger] chunk_in_box(k, square_lo(current_overmap_chunk_coord, 1), square_hi(current_overmap_chunk_coord, 1))
                        implies m5.contains_key(k) by {
                        assert(m4.contains_key(k));
                    }
                }
            }
            proof {
                let m6 = chunk_map(game_map.overmap_chunks);
                if layout == Layout::WithHouses {
                    assert(tiles_grow(m_built, m6));
                } else {
                    lemma_tiles_grow_refl(m_built);
                }
                lemma_unit_steps_grow(m_built, m6, g_city);
                lemma_tiles_grow_trans(m1, mq, m6);
                assert forall|t: int| 0 <= t < q + 1 implies unit_steps_set(m6,
                    global_of(current_overmap_chunk_coord, #[trigger] current_chunk_cities@[t].position)) by {
                    if t < q {
                        lemma_unit_steps_grow(mq, m6, global_of(current_overmap_chunk_coord, current_chunk_cities@[t].position));
                    }
                }
                if quiet {
                    lemma_steps_set_grow(m_built, m6, g_city, 2);
                    lemma_steps_set_grow(m_built, m6, g_city, 3);
                    assert forall|t: int| 0 <= t < q + 1 implies {
                        let g = global_of(current_overmap_chunk_coord, #[trigger] current_chunk_cities@[t].position);
                        steps_set_at(m6, g, 2) && steps_set_at(m6, g, 3)
                    } by {
                        if t < q {
                            lemma_steps_set_grow(mq, m6, global_of(current_overmap_chunk_coord, current_chunk_cities@[t].position), 2);
                            lemma_steps_set_grow(mq, m6, global_of(current_overmap_chunk_coord, current_chunk_cities@[t].position), 3);
                        }
                    }
                }
            }
            q += 1;
        }
        proof {
            let m7 = chunk_map(game_map.overmap_chunks);
            let k = current_overmap_chunk_coord;
            assert(m1[k].cities == m0[k].cities);
            assert forall|id: CityId| #[trigger] city_map(m0[k].cities).contains_key(id)
                implies unit_steps_set(m7, global_of(k, city_map(m0[k].cities)[id].position)) by {
                let j = choose|j: int| 0 <= j < current_chunk_cities@.len() && current_chunk_cities@[j].id == id;
                assert(current_chunk_cities@[j].position == city_map(m1[k].cities)[current_chunk_cities@[j].id].position);
                assert(unit_steps_set(m7, global_of(k, current_chunk_cities@[j].position)));
            }
            assert forall|j: int| 0 <= j < ci + 1 implies city_roads_begun(m0, m7, chunk_at(#[trigger] coords@[j])) by {
                if j < ci {
                    lemma_city_roads_grow(m0, m1, m7, chunk_at(coords@[j]));
                }
            }
            if quiet_near_centre(stop_probability) {
                assert forall|id: CityId| #[trigger] city_map(m0[k].cities).contains_key(id)
                    implies steps_set_at(m7, global_of(k, city_map(m0[k].cities)[id].position), 2)
                        && steps_set_at(m7, global_of(k, city_map(m0[k].cities)[id].position), 3) by {
                    let j = choose|j: int| 0 <= j < current_chunk_cities@.len() && current_chunk_cities@[j].id == id;
                    assert(current_chunk_cities@[j].position == city_map(m1[k].cities)[current_chunk_cities@[j].id].position);
                    assert(steps_set_at(m7, global_of(k, current_chunk_cities@[j].position), 2));
                }
                assert forall|j: int| 0 <= j < ci + 1 implies city_streets_reach_three(m0, m7, chunk_at(#[trigger] coords@[j])) by {
                    if j < ci {
                        lemma_city_streets_grow(m0, m1, m7, chunk_at(coords@[j]));
                    }
                }
            }
        }
        ci += 1;
    }
    proof {
        assert forall|j: int| 0 <= j < 9 implies city_roads_begun(m0, chunk_map(game_map.overmap_chunks),
            chunk_at(#[trigger] square_cell(current_overmap_coordinate, 1, j))) by {
            assert(coords@[j] == square_cell(current_overmap_coordinate, 1, j));
        }
        if quiet_near_centre(stop_probability) {
            assert forall|j: int| 0 <= j < 9 implies city_streets_reach_three(m0, chunk_map(game_map.overmap_chunks),
                chunk_at(#[trigger] square_cell(current_overmap_coordinate, 1, j))) by {
                assert(coords@[j] == square_cell(current_overmap_coordinate, 1, j));
            }
        }
    }
}

/// From `old` to `new` only cities of chunks in the rectangle from `lo` to
/// `hi` gained connections: every other city has no more than before.
pub open spec fn links_gained_inside(
    old: Map<OvermapChunkCoords, OvermapChunk>,
    new: Map<OvermapChunkCoords, OvermapChunk>,
    lo: OvermapChunkCoords,
    hi: OvermapChunkCoords,
) -> bool {
    forall|k: OvermapChunkCoords, x: CityId|
        #![trigger city_map(new[k].cities)[x]]
        old.contains_key(k) && city_map(old[k].cities).contains_key(x) && !chunk_in_box(k, lo, hi)
            ==> city_map(new[k].cities)[x].connected_to@.len() <= city_map(old[k].cities)[x].connected_to@.len()
}

/// Connections gained between two chunks of a rectangle are gained inside it.
proof fn lemma_links_between_inside(
    m0: Map<OvermapChunkCoords, OvermapChunk>,
    m1: Map<OvermapChunkCoords, OvermapChunk>,
    c: OvermapChunkCoords,
    n: OvermapChunkCoords,
    lo: OvermapChunkCoords,
    hi: OvermapChunkCoords,
)
    requires
        links_gained_between(m0, m1, c, n),
        chunk_in_box(c, lo, hi),
        chunk_in_box(n, lo, hi),
    ensures
        links_gained_inside(m0, m1, lo, hi),
{
    assert forall|k: OvermapChunkCoords, x: CityId|
        #![trigger city_map(m1[k].cities)[x]]
        m0.contains_key(k) && city_map(m0[k].cities).contains_key(x) && !chunk_in_box(k, lo, hi)
        implies city_map(m1[k].cities)[x].connected_to@.len() <= city_map(m0[k].cities)[x].connected_to@.len() by {
        let j = city_map(m0[k].cities)[x].connected_to@.len() as int;
        if j < city_map(m1[k].cities)[x].connected_to@.len() {
            assert(link_between(k, city_map(m1[k].cities)[x].connected_to@[j], c, n));
        }
    }
}

/// Connections gained inside a rectangle chain.
proof fn lemma_links_gained_inside_trans(
    m0: Map<OvermapChunkCoords, OvermapChunk>,
    m1: Map<OvermapChunkCoords, OvermapChunk>,
    m2: Map<OvermapChunkCoords, OvermapChunk>,
    lo: OvermapChunkCoords,
    hi: OvermapChunkCoords,
)
    requires
        links_gained_inside(m0, m1, lo, hi),
        links_gained_inside(m1, m2, lo, hi),
        cities_evolve(m0, m1),
    ensures
        links_gained_inside(m0, m2, lo, hi),
{
    assert forall|k: OvermapChunkCoords, x: CityId|
        #![trigger city_map(m2[k].cities)[x]]
        m0.contains_key(k) && city_map(m0[k].cities).contains_key(x) && !chunk_in_box(k, lo, hi)
        implies city_map(m2[k].cities)[x].connected_to@.len() <= city_map(m0[k].cities)[x].connected_to@.len() by {
        assert(m1.contains_key(k));
        assert(city_map(m1[k].cities).contains_key(x));
        assert(city_map(m1[k].cities)[x].connected_to@.len() <= city_map(m0[k].cities)[x].connected_to@.len());
    }
}

/// Chunks outside the larger rectangle keep their tiles and their cities'
/// connections when the map is first extended by new chunks only, then gains
/// connections inside the smaller rectangle, then changes tiles only, with
/// tiles changing inside the larger rectangle.
proof fn lemma_far_chunks_kept(
    m0: Map<OvermapChunkCoords, OvermapChunk>,
    m3: Map<OvermapChunkCoords, OvermapChunk>,
    m4: Map<OvermapChunkCoords, OvermapChunk>,
    m5: Map<OvermapChunkCoords, OvermapChunk>,
    lo2: OvermapChunkCoords,
    hi2: OvermapChunkCoords,
    lo3: OvermapChunkCoords,
    hi3: OvermapChunkCoords,
)
    requires
        forall|k: OvermapChunkCoords| #[trigger] m0.contains_key(k) ==> m3.contains_key(k) && m3[k] == m0[k],
        cities_evolve(m3, m4),
        links_gained_inside(m3, m4, lo2, hi2),
        only_tiles_change(m4, m5),
        changes_inside(m0, m5, lo3, hi3),
        tiles_grow(m0, m5),
        lo3.0.x <= lo2.0.x,
        lo3.0.y <= lo2.0.y,
        hi2.0.x <= hi3.0.x,
        hi2.0.y <= hi3.0.y,
    ensures
        far_chunks_kept(m0, m5, lo3, hi3),
{
    assert forall|k: OvermapChunkCoords| #[trigger] m0.contains_key(k) && !chunk_in_box(k, lo3, hi3) implies {
        &&& m5.contains_key(k)
        &&& m5[k].overmap_tiles@ == m0[k].overmap_tiles@
        &&& forall|x: CityId| #[trigger] city_map(m0[k].cities).contains_key(x)
            ==> city_map(m5[k].cities)[x].connected_to@ == city_map(m0[k].cities)[x].connected_to@
    } by {
        assert(m3.contains_key(k));
        assert(m4.contains_key(k));
        assert(!chunk_in_box(k, lo2, hi2));
        assert forall|i: int| 0 <= i < m0[k].overmap_tiles@.len() implies m5[k].overmap_tiles@[i] == m0[k].overmap_tiles@[i] by {
            if m5[k].overmap_tiles@[i] != m0[k].overmap_tiles@[i] {
                assert(chunk_in_box(k, lo3, hi3));
            }
        }
        assert(m5[k].overmap_tiles@ =~= m0[k].overmap_tiles@);
        assert forall|x: CityId| #[trigger] city_map(m0[k].cities).contains_key(x)
            implies city_map(m5[k].cities)[x].connected_to@ == city_map(m0[k].cities)[x].connected_to@ by {
            let a = city_map(m3[k].cities)[x].connected_to@;
            let b = city_map(m4[k].cities)[x].connected_to@;
            assert(city_grows(city_map(m3[k].cities)[x], city_map(m4[k].cities)[x]));
            assert(b.len() <= a.len());
            assert(b =~= b.take(a.len() as int));
            assert(m5[k].cities == m4[k].cities);
        }
    }
}

/// Every chunk of `old` outside the rectangle from `lo` to `hi` is still in
/// `new` with the same tiles, and each of its cities keeps its connections.
pub open spec fn far_chunks_kept(
    old: Map<OvermapChunkCoords, OvermapChunk>,
    new: Map<OvermapChunkCoords, OvermapChunk>,
    lo: OvermapChunkCoords,
    hi: OvermapChunkCoords,
) -> bool {
    forall|k: OvermapChunkCoords| #[trigger] old.contains_key(k) && !chunk_in_box(k, lo, hi) ==> {
        &&& new.contains_key(k)
        &&& new[k].overmap_tiles@ == old[k].overmap_tiles@
        &&& forall|x: CityId| #[trigger] city_map(old[k].cities).contains_key(x)
            ==> city_map(new[k].cities)[x].connected_to@ == city_map(old[k].cities)[x].connected_to@
    }
}

/// Every chunk of `old` is still in `new`, with the same coordinates and the
/// same cities, each keeping its id, position and size and only gaining
/// connections at the end of its list.
pub open spec fn old_cities_kept(old: Map<OvermapChunkCoords, OvermapChunk>, new: Map<OvermapChunkCoords, OvermapChunk>) -> bool {
    forall|k: OvermapChunkCoords| #[trigger] old.contains_key(k) ==> {
        &&& new.contains_key(k)
        &&& new[k].coordinates == old[k].coordinates
        &&& city_map(new[k].cities).dom() == city_map(old[k].cities).dom()
        &&& forall|id: CityId| #[trigger] city_map(old[k].cities).contains_key(id)
            ==> city_grows(city_map(old[k].cities)[id], city_map(new[k].cities)[id])
    }
}

/// Every chunk of `new` that `old` lacks holds at most one city, of id 0.
pub open spec fn new_chunks_one_city(old: Map<OvermapChunkCoords, OvermapChunk>, new: Map<OvermapChunkCoords, OvermapChunk>) -> bool {
    forall|k: OvermapChunkCoords, id: CityId| new.contains_key(k) && !old.contains_key(k)
        && #[trigger] city_map(new[k].cities).contains_key(id) ==> id == CityId(0)
}

/// The streets of the cities of the nine chunks around `current` have begun
/// in `m`.
pub open spec fn roads_begun_around(m: Map<OvermapChunkCoords, OvermapChunk>, current: IVec2) -> bool {
    forall|j: int| 0 <= j < 9 ==> city_roads_begun(m, m, chunk_at(#[trigger] square_cell(current, 1, j)))
}

/// The streets of the cities of the nine chunks around `current` reach three
/// tiles out from each centre in every direction in `m`.
pub open spec fn streets_reach_three_around(m: Map<OvermapChunkCoords, OvermapChunk>, current: IVec2) -> bool {
    forall|j: int| 0 <= j < 9 ==> city_streets_reach_three(m, m, chunk_at(#[trigger] square_cell(current, 1, j)))
}

/// Generates the overmap around `current_overmap_coordinate`: every missing
/// chunk within two chunks of it is created, with a city with chance two in
/// three; the cities within one chunk of it are connected by roads to the
/// cities of their side neighbours; then those cities grow their streets and
/// houses. `stop_probability` gives, for a builder's Manhattan distance from
/// its city's centre and the city's size, the percent chance that it stops.
pub fn generate_overmap_chunk<F: Fn(u32, i32) -> i32>(
    game_map: &mut GameMap,
    current_overmap_coordinate: IVec2,
    rng: &mut chacha20::ChaCha8Rng,
    stop_probability: &F,
)
    requires
        forall|d: u32, s: i32| stop_probability.requires((d, s)),
        map_wf(chunk_map(old(game_map).overmap_chunks)),
        centre_ok(current_overmap_coordinate),
    ensures
        map_wf(chunk_map(final(game_map).overmap_chunks)),
        tiles_grow(chunk_map(old(game_map).overmap_chunks), chunk_map(final(game_map).overmap_chunks)),
        box_present(chunk_map(final(game_map).overmap_chunks), square_lo(chunk_at(current_overmap_coordinate), 2),
            square_hi(chunk_at(current_overmap_coordinate), 2)),
        connected_around(chunk_map(final(game_map).overmap_chunks), current_overmap_coordinate),
        links_have_roads(chunk_map(old(game_map).overmap_chunks)) ==> links_have_roads(chunk_map(final(game_map).overmap_chunks)),
        links_returned(chunk_map(old(game_map).overmap_chunks)) ==> links_returned(chunk_map(final(game_map).overmap_chunks)),
        forall|k: OvermapChunkCoords| #[trigger] chunk_map(final(game_map).overmap_chunks).contains_key(k)
            ==> chunk_map(old(game_map).overmap_chunks).contains_key(k)
                || chunk_in_box(k, square_lo(chunk_at(current_overmap_coordinate), 2),
                    square_hi(chunk_at(current_overmap_coordinate), 2)),
        old_cities_kept(chunk_map(old(game_map).overmap_chunks), chunk_map(final(game_map).overmap_chunks)),
        new_chunks_one_city(chunk_map(old(game_map).overmap_chunks), chunk_map(final(game_map).overmap_chunks)),
        roads_begun_around(chunk_map(final(game_map).overmap_chunks), current_overmap_coordinate),
        quiet_near_centre(stop_probability)
            ==> streets_reach_three_around(chunk_map(final(game_map).overmap_chunks), current_overmap_coordinate),
        links_returned(chunk_map(old(game_map).overmap_chunks)) ==> links_returned(chunk_map(final(game_map).overmap_chunks)),
        new_links_beside(chunk_map(old(game_map).overmap_chunks), chunk_map(final(game_map).overmap_chunks)),
        links_unique(chunk_map(old(game_map).overmap_chunks)) && links_returned(chunk_map(old(game_map).overmap_chunks))
            ==> links_unique(chunk_map(final(game_map).overmap_chunks)),
        changes_inside(chunk_map(old(game_map).overmap_chunks), chunk_map(final(game_map).overmap_chunks),
            square_lo(chunk_at(current_overmap_coordinate), 3), square_hi(chunk_at(current_overmap_coordinate), 3)),
        far_chunks_kept(chunk_map(old(game_map).overmap_chunks), chunk_map(final(game_map).overmap_chunks),
            square_lo(chunk_at(current_overmap_coordinate), 3), square_hi(chunk_at(current_overmap_coordinate), 3)),
{
    generate_with_layout(game_map, current_overmap_coordinate, rng, stop_probability, Layout::WithHouses);
}

/// Generates the overmap around `current_overmap_coordinate` in the given
/// layout: every missing chunk within two chunks of it is created and given
/// its city, if any; the cities within one chunk of it are connected by roads
/// to the cities of their side neighbours; then those cities grow their
/// streets, and, in `Layout::WithHouses`, their houses.
pub(crate) fn generate_with_layout<F: Fn(u32, i32) -> i32>(
    game_map: &mut GameMap,
    current_overmap_coordinate: IVec2,
    rng: &mut chacha20::ChaCha8Rng,
    stop_probability: &F,
    layout: Layout,
)
    requires
        forall|d: u32, s: i32| stop_probability.requires((d, s)),
        map_wf(chunk_map(old(game_map).overmap_chunks)),
        centre_ok(current_overmap_coordinate),
    ensures
        map_wf(chunk_map(final(game_map).overmap_chunks)),
        tiles_grow(chunk_map(old(game_map).overmap_chunks), chunk_map(final(game_map).overmap_chunks)),
        box_present(chunk_map(final(game_map).overmap_chunks), square_lo(chunk_at(current_overmap_coordinate), 2),
            square_hi(chunk_at(current_overmap_coordinate), 2)),
        connected_around(chunk_map(final(game_map).overmap_chunks), current_overmap_coordinate),
        links_have_roads(chunk_map(old(game_map).overmap_chunks)) ==> links_have_roads(chunk_map(final(game_map).overmap_chunks)),
        links_returned(chunk_map(old(game_map).overmap_chunks)) ==> links_returned(chunk_map(final(game_map).overmap_chunks)),
        layout == Layout::RoadsOnly ==> houses_on_cities(chunk_map(old(game_map).overmap_chunks), chunk_map(final(game_map).overmap_chunks)),
        forall|k: OvermapChunkCoords| #[trigger] chunk_map(final(game_map).overmap_chunks).contains_key(k)
            ==> chunk_map(old(game_map).overmap_chunks).contains_key(k)
                || chunk_in_box(k, square_lo(chunk_at(current_overmap_coordinate), 2),
                    square_hi(chunk_at(current_overmap_coordinate), 2)),
        old_cities_kept(chunk_map(old(game_map).overmap_chunks), chunk_map(final(game_map).overmap_chunks)),
        new_chunks_one_city(chunk_map(old(game_map).overmap_chunks), chunk_map(final(game_map).overmap_chunks)),
        roads_begun_around(chunk_map(final(game_map).overmap_chunks), current_overmap_coordinate),
        quiet_near_centre(stop_probability)
            ==> streets_reach_three_around(chunk_map(final(game_map).overmap_chunks), current_overmap_coordinate),
        new_links_beside(chunk_map(old(game_map).overmap_chunks), chunk_map(final(game_map).overmap_chunks)),
        links_unique(chunk_map(old(game_map).overmap_chunks)) && links_returned(chunk_map(old(game_map).overmap_chunks))
            ==> links_unique(chunk_map(final(game_map).overmap_chunks)),
        changes_inside(chunk_map(old(game_map).overmap_chunks), chunk_map(final(game_map).overmap_chunks),
            square_lo(chunk_at(current_overmap_coordinate), 3), square_hi(chunk_at(current_overmap_coordinate), 3)),
        far_chunks_kept(chunk_map(old(game_map).overmap_chunks), chunk_map(final(game_map).overmap_chunks),
            square_lo(chunk_at(current_overmap_coordinate), 3), square_hi(chunk_at(current_overmap_coordinate), 3)),
{
    let ghost m0 = chunk_map(game_map.overmap_chunks);
    let ghost lo = square_lo(chunk_at(current_overmap_coordinate), 2);
    let ghost hi = square_hi(chunk_at(current_overmap_coordinate), 2);
    // Create any surrounding chunks which don't already exist, add add cities to them.
    let coords = get_coords_in_square_radius(current_overmap_coordinate, 2, false);
    proof {
        assert(square_width(2) == 5);
        assert(square_width(2) * square_width(2) == 25) by (nonlinear_arith)
            requires
                square_width(2) == 5,
        ;
        assert(coords@ == crate::utils::square_coords(current_overmap_coordinate, 2, false, 25));
        lemma_square_full(current_overmap_coordinate, 2, 25);
        lemma_tiles_grow_refl(m0);
    }
    let mut ci: usize = 0;
    while ci < coords.len()
        invariant
            ci <= coords@.len(),
            coords@.len() == 25,
            forall|j: int| 0 <= j < 25 ==> #[trigger] coords@[j] == square_cell(current_overmap_coordinate, 2, j),
            centre_ok(current_overmap_coordinate),
            lo == square_lo(chunk_at(current_overmap_coordinate), 2),
            hi == square_hi(chunk_at(current_overmap_coordinate), 2),
            map_wf(chunk_map(game_map.overmap_chunks)),
            tiles_grow(m0, chunk_map(game_map.overmap_chunks)),
            links_have_roads(m0) ==> links_have_roads(chunk_map(game_map.overmap_chunks)),
            links_returned(m0) ==> links_returned(chunk_map(game_map.overmap_chunks)),
            forall|k: OvermapChunkCoords| #[trigger] m0.contains_key(k) ==> chunk_map(game_map.overmap_chunks)[k] == m0[k],
            forall|j: int| 0 <= j < ci ==> chunk_map(game_map.overmap_chunks).contains_key(chunk_at(#[trigger] square_cell(current_overmap_coordinate, 2, j))),
            forall|k: OvermapChunkCoords| #[trigger] chunk_map(game_map.overmap_chunks).contains_key(k)
                ==> m0.contains_key(k) || chunk_in_box(k, lo, hi),
            new_chunks_one_city(m0, chunk_map(game_map.overmap_chunks)),
            links_unique(m0) ==> links_unique(chunk_map(game_map.overmap_chunks)),
        decreases coords@.len() - ci,
    {
        let overmap_coord = coords[ci];
        let chunk_coordinate = OvermapChunkCoords(overmap_coord);
        proof {
            assert(square_width(2) == 5);
            assert(square_width(2) * square_width(2) == 25) by (nonlinear_arith)
                requires
                    square_width(2) == 5,
            ;
            lemma_square_cell_offsets(current_overmap_coordinate, 2, ci as int);
        }
        if !chunk_map_contains(&game_map.overmap_chunks, &chunk_coordinate) {
            let mut overmap_chunk = OvermapChunk::new(chunk_coordinate);
            match layout {
                Layout::RoadsOnly => crate::map::generator::add_cities_to_chunk(&mut overmap_chunk, rng),
                Layout::WithHouses => add_cities_to_chunk(&mut overmap_chunk, rng),
            }
            let ghost m1 = chunk_map(game_map.overmap_chunks);
            chunk_map_insert(&mut game_map.overmap_chunks, chunk_coordinate, overmap_chunk);
            proof {
                let m2 = chunk_map(game_map.overmap_chunks);
                assert(chunk_wf(chunk_coordinate, m2[chunk_coordinate]));
                assert(cities_wf(chunk_coordinate, city_map(m2[chunk_coordinate].cities)));
                assert forall|k: OvermapChunkCoords| #[trigger] m2.contains_key(k) implies chunk_wf(k, m2[k]) by {
                    if k != chunk_coordinate { assert(m1.contains_key(k)); }
                }
                assert forall|k: OvermapChunkCoords| #[trigger] m2.contains_key(k) implies coord_within(k, 0) by {
                    if k != chunk_coordinate { assert(m1.contains_key(k)); }
                }
                assert forall|k: OvermapChunkCoords| #[trigger] m2.contains_key(k) implies cities_wf(k, city_map(m2[k].cities)) by {
                    if k != chunk_coordinate { assert(m1.contains_key(k)); }
                }
                assert forall|k: OvermapChunkCoords| #[trigger] m0.contains_key(k) implies {
                    &&& m2.contains_key(k)
                    &&& m2[k].overmap_tiles.len() == m0[k].overmap_tiles.len()
                    &&& forall|i: int| 0 <= i < m0[k].overmap_tiles.len() ==> {
                        &&& (#[trigger] m0[k].overmap_tiles@[i] is Some ==> m2[k].overmap_tiles@[i] is Some)
                        &&& (m0[k].overmap_tiles@[i] == Some(OvermapTileType::House)
                            ==> m2[k].overmap_tiles@[i] == Some(OvermapTileType::House))
                    }
                } by {
                    assert(m1.contains_key(k));
                    assert(m2[k] == m1[k]);
                }
                assert forall|k: OvermapChunkCoords| #[trigger] m2.contains_key(k) implies m0.contains_key(k) || chunk_in_box(k, lo, hi) by {
                    if k != chunk_coordinate { assert(m1.contains_key(k)); }
                }
                assert forall|a: CityId| #[trigger] city_map(m2[chunk_coordinate].cities).contains_key(a)
                    implies city_map(m2[chunk_coordinate].cities)[a].connected_to@.len() == 0 by {
                    assert(a == CityId(0));
                }
                assert forall|k: OvermapChunkCoords| #[trigger] m0.contains_key(k) implies m2[k] == m0[k] by {
                    assert(m1.contains_key(k));
                }
                assert forall|k: OvermapChunkCoords, id: CityId| m2.contains_key(k) && !m0.contains_key(k)
                    && #[trigger] city_map(m2[k].cities).contains_key(id) implies id == CityId(0) by {
                    if k != chunk_coordinate {
                        assert(m1.contains_key(k));
                        assert(city_map(m1[k].cities).contains_key(id));
                    }
                }
                if links_have_roads(m1) {
                    lemma_links_have_roads_new_chunk(m1, chunk_coordinate, m2[chunk_coordinate]);
                    assert(m1.insert(chunk_coordinate, m2[chunk_coordinate]) == m2);
                }
                if links_returned(m1) {
                    lemma_links_returned_new_chunk(m1, chunk_coordinate, m2[chunk_coordinate]);
                    assert(m1.insert(chunk_coordinate, m2[chunk_coordinate]) == m2);
                }
                if links_unique(m1) {
                    assert forall|k: OvermapChunkCoords, a: CityId| m2.contains_key(k) && #[trigger] city_map(m2[k].cities).contains_key(a)
                        implies city_map(m2[k].cities)[a].connected_to@.no_duplicates() by {
                        if k != chunk_coordinate {
                            assert(m1.contains_key(k));
                        }
                    }
                }
            }
        }
        ci += 1;
    }
    proof {
        let m = chunk_map(game_map.overmap_chunks);
        assert forall|k: OvermapChunkCoords| #[trigger] chunk_in_box(k, lo, hi) implies m.contains_key(k) by {
            lemma_square_cell_of_offset(current_overmap_coordinate, 2, k.0.x - current_overmap_coordinate.x, k.0.y - current_overmap_coordinate.y);
            let j = (k.0.y - current_overmap_coordinate.y + 2) * square_width(2) + (k.0.x - current_overmap_coordinate.x + 2);
            assert(square_width(2) * square_width(2) == 25) by (nonlinear_arith)
                requires
                    square_width(2) == 5,
            ;
            assert(chunk_at(square_cell(current_overmap_coordinate, 2, j)) == k);
        }
    }
    let ghost m3 = chunk_map(game_map.overmap_chunks);
    connect_cities(game_map, current_overmap_coordinate, rng, layout);
    let ghost m4 = chunk_map(game_map.overmap_chunks);
    proof {
        assert forall|k: OvermapChunkCoords| #[trigger] chunk_in_box(k, lo, hi) implies m4.contains_key(k) by {
            assert(m3.contains_key(k));
        }
    }
    generate_cities(game_map, current_overmap_coordinate, rng, stop_probability, layout);
    proof {
        let m5 = chunk_map(game_map.overmap_chunks);
        if links_have_roads(m4) {
            lemma_links_have_roads_tiles(m4, m5);
        }
        if links_returned(m4) {
            lemma_links_returned_same_cities(m4, m5);
        }
        if links_unique(m4) {
            assert forall|k: OvermapChunkCoords, a: CityId| m5.contains_key(k) && #[trigger] city_map(m5[k].cities).contains_key(a)
                implies city_map(m5[k].cities)[a].connected_to@.no_duplicates() by {
                assert(m4.contains_key(k));
                assert(m5[k].cities == m4[k].cities);
            }
        }
        lemma_tiles_only_cities_evolve(m4, m5);
        lemma_new_links_beside_trans(m3, m4, m5);
        let l3 = square_lo(chunk_at(current_overmap_coordinate), 3);
        let h3 = square_hi(chunk_at(current_overmap_coordinate), 3);
        assert forall|k: OvermapChunkCoords, i: int|
            m0.contains_key(k) && 0 <= i < m0[k].overmap_tiles.len() && #[trigger] m3[k].overmap_tiles@[i] != m0[k].overmap_tiles@[i]
            implies chunk_in_box(k, l3, h3) by {
            assert(m3[k] == m0[k]);
        }
        lemma_changes_inside_widen(m3, m4, lo, hi, l3, h3);
        lemma_changes_inside_trans(m0, m3, m4, l3, h3);
        lemma_changes_inside_trans(m0, m4, m5, l3, h3);
        assert forall|k: OvermapChunkCoords, a: CityId, j: int|
            #![trigger city_map(m5[k].cities)[a].connected_to@[j]]
            m0.contains_key(k) && city_map(m0[k].cities).contains_key(a)
                && city_map(m0[k].cities)[a].connected_to@.len() <= j < city_map(m5[k].cities)[a].connected_to@.len()
            implies side_by_side(k, city_map(m5[k].cities)[a].connected_to@[j].0) by {
            assert(m3[k] == m0[k]);
            assert(m3.contains_key(k));
        }
        if layout == Layout::RoadsOnly {
            assert(houses_on_cities(m0, m3));
            lemma_tiles_grow_trans(m0, m3, m4);
            lemma_houses_on_cities_trans(m0, m3, m4);
            lemma_roads_no_houses(m4, m5);
            lemma_tiles_only_cities_evolve(m4, m5);
            lemma_houses_on_cities_trans(m0, m4, m5);
        }
        lemma_tiles_grow_trans(m0, m3, m4);
        lemma_tiles_grow_trans(m0, m4, m5);
        assert forall|k: OvermapChunkCoords| #[trigger] chunk_in_box(k, lo, hi) implies m5.contains_key(k) by {
            assert(m4.contains_key(k));
        }
        assert forall|j: int, ni: int| 0 <= j < 9 && 0 <= ni < 4 implies
            #[trigger] pair_linked(m5, chunk_at(square_cell(current_overmap_coordinate, 1, j)),
                chunk_at(#[trigger] cardinal_neighbours(square_cell(current_overmap_coordinate, 1, j))[ni])) by {
            let c = chunk_at(square_cell(current_overmap_coordinate, 1, j));
            let n = chunk_at(cardinal_neighbours(square_cell(current_overmap_coordinate, 1, j))[ni]);
            assert(pair_linked(m4, c, n));
            assert forall|a: CityId, b: CityId|
                m5.contains_key(c) && m5.contains_key(n) && #[trigger] city_map(m5[c].cities).contains_key(a)
                    && #[trigger] city_map(m5[n].cities).contains_key(b)
                implies city_map(m5[c].cities)[a].connected_to@.contains((n, b)) by {
                assert(m4.contains_key(c) && m4.contains_key(n));
                assert(m5[c].cities == m4[c].cities);
                assert(m5[n].cities == m4[n].cities);
            }
        }
        assert forall|k: OvermapChunkCoords| #[trigger] m5.contains_key(k) implies m0.contains_key(k) || chunk_in_box(k, lo, hi) by {
            assert(m3.contains_key(k));
        }
        assert forall|k: OvermapChunkCoords| #[trigger] m0.contains_key(k) implies {
            &&& m5.contains_key(k)
            &&& m5[k].coordinates == m0[k].coordinates
            &&& city_map(m5[k].cities).dom() == city_map(m0[k].cities).dom()
            &&& forall|id: CityId| #[trigger] city_map(m0[k].cities).contains_key(id)
                ==> city_grows(city_map(m0[k].cities)[id], city_map(m5[k].cities)[id])
        } by {
            assert(m3[k] == m0[k]);
            assert(m3.contains_key(k));
            assert(m4.contains_key(k));
            assert(m5[k].cities == m4[k].cities);
        }
        assert forall|k: OvermapChunkCoords, id: CityId| m5.contains_key(k) && !m0.contains_key(k)
            && #[trigger] city_map(m5[k].cities).contains_key(id) implies id == CityId(0) by {
            assert(m3.contains_key(k));
            assert(m5[k].cities == m4[k].cities);
            assert(city_map(m3[k].cities).contains_key(id));
        }
        assert forall|j: int| 0 <= j < 9 implies city_roads_begun(m5, m5, chunk_at(#[trigger] square_cell(current_overmap_coordinate, 1, j))) by {
            let k = chunk_at(square_cell(current_overmap_coordinate, 1, j));
            assert(city_roads_begun(m4, m5, k));
            lemma_square_cell_offsets(current_overmap_coordinate, 1, j);
            lemma_near_in_square(current_overmap_coordinate, square_cell(current_overmap_coordinate, 1, j), 2);
            assert(m4.contains_key(k));
            assert(m5[k].cities == m4[k].cities);
        }
        if quiet_near_centre(stop_probability) {
            assert forall|j: int| 0 <= j < 9 implies city_streets_reach_three(m5, m5, chunk_at(#[trigger] square_cell(current_overmap_coordinate, 1, j))) by {
                let k = chunk_at(square_cell(current_overmap_coordinate, 1, j));
                assert(city_streets_reach_three(m4, m5, k));
                lemma_square_cell_offsets(current_overmap_coordinate, 1, j);
                lemma_near_in_square(current_overmap_coordinate, square_cell(current_overmap_coordinate, 1, j), 2);
                assert(m4.contains_key(k));
                assert(m5[k].cities == m4[k].cities);
            }
        }
        assert(tiles_grow(m0, m5));
        lemma_far_chunks_kept(m0, m3, m4, m5, lo, hi, l3, h3);
    }
}

} // verus!
