//! The pass that records, tile by tile, who stands there and whether the
//! tile can be entered.
use vstd::prelude::*;
use crate::components::Entity;
use crate::map::{cell_index, lemma_cell_index_in_grid, TileMapView, TileType};
use crate::world::{lemma_recorded_wf, World, WorldView};

verus! {

/// Whether `e` is on the map, on the tile with the given index.
pub open spec fn stands_on(w: WorldView, e: int, tile: int) -> bool {
    match w.positions[e] {
        Some(at) => cell_index(w.map.width, at.x as int, at.y as int) == tile,
        None => false,
    }
}

/// Those of the first `k` entities that stand on the tile, in rising order.
pub open spec fn occupants_upto(w: WorldView, tile: int, k: nat) -> Seq<Entity>
    decreases k,
{
    if k == 0 {
        Seq::empty()
    } else if stands_on(w, k - 1, tile) {
        occupants_upto(w, tile, (k - 1) as nat).push((k - 1) as Entity)
    } else {
        occupants_upto(w, tile, (k - 1) as nat)
    }
}

/// Whether the tile is a wall or one of the first `k` entities blocks it.
pub open spec fn blocked_upto(w: WorldView, tile: int, k: nat) -> bool
    decreases k,
{
    if k == 0 {
        w.map.tiles[tile] == TileType::Wall
    } else {
        blocked_upto(w, tile, (k - 1) as nat) || (stands_on(w, k - 1, tile) && w.blocks_tile[k
            - 1].is_some())
    }
}

/// The world with its occupancy index rebuilt from where everybody stands.
pub open spec fn indexed(w: WorldView) -> WorldView {
    WorldView {
        map: TileMapView {
            blocked: Seq::new(w.map.tiles.len(), |i: int| blocked_upto(w, i, w.count())),
            tile_content: Seq::new(w.map.tiles.len(), |i: int| occupants_upto(w, i, w.count())),
            ..w.map
        },
        ..w
    }
}

/// Only the entities counted so far are among the occupants.
pub proof fn lemma_occupants_counted(w: WorldView, tile: int, k: nat)
    requires
        k <= usize::MAX,
    ensures
        forall|j: int|
            0 <= j < occupants_upto(w, tile, k).len() ==> (#[trigger] occupants_upto(w, tile, k)[j])
                < k,
    decreases k,
{
    if k > 0 {
        lemma_occupants_counted(w, tile, (k - 1) as nat);
        let before = occupants_upto(w, tile, (k - 1) as nat);
        let now = occupants_upto(w, tile, k);
        assert forall|j: int| 0 <= j < now.len() implies (#[trigger] now[j]) < k by {
            if j < before.len() {
                assert(now[j] == before[j]);
            }
        }
    }
}

/// Rebuilding the occupancy index keeps the world in order.
pub proof fn lemma_indexed_wf(w: WorldView)
    requires
        w.wf(),
        w.count() <= usize::MAX,
    ensures
        indexed(w).wf(),
        indexed(w).count() == w.count(),
{
    let v = indexed(w);
    assert forall|i: int, k: int|
        0 <= i < v.map.tile_content.len() && 0 <= k < v.map.tile_content[i].len() implies #[trigger] v.map.tile_content[i][k]
        < v.count() by {
        lemma_occupants_counted(w, i, w.count());
    }
    lemma_recorded_wf(w, v);
}

/// The pass that rebuilds the occupancy index.
pub struct MapIndexingSystem {}

impl MapIndexingSystem {
    /// Rebuilds the occupancy index: walls block, so does everybody who is
    /// marked as blocking, and each tile lists who stands on it.
    pub fn run(&mut self, ecs: &mut World)
        requires
            old(ecs).wf(),
        ensures
            final(ecs).wf(),
            final(ecs)@ == indexed(old(ecs)@),
    {
        ecs.map.populate_blocked();
        ecs.map.clear_content_index();
        let n = ecs.count();
        let ghost start = old(ecs)@;
        let mut e: usize = 0;
        while e < n
            invariant
                e <= n,
                n == start.count(),
                start == old(ecs)@,
                start.wf(),
                ecs.map.wf(),
                ecs@ == (WorldView { map: ecs@.map, ..start }),
                ecs@.map == (TileMapView {
                    blocked: ecs@.map.blocked,
                    tile_content: ecs@.map.tile_content,
                    ..start.map
                }),
                forall|i: int|
                    0 <= i < start.map.tiles.len() ==> ecs@.map.blocked[i] == blocked_upto(
                        start,
                        i,
                        e as nat,
                    ),
                forall|i: int|
                    0 <= i < start.map.tiles.len() ==> #[trigger] ecs@.map.tile_content[i]
                        == occupants_upto(start, i, e as nat),
            decreases n - e,
        {
            let place = match ecs.positions.get(e) {
                Some(at) => Some(*at),
                None => None,
            };
            let ghost before = ecs@.map;
            assert(start.positions[e as int] == place);
            if let Some(at) = place {
                proof {
                    lemma_cell_index_in_grid(
                        start.map.width,
                        start.map.height,
                        at.x as int,
                        at.y as int,
                    );
                }
                assert(ecs.map.tiles.len() == ecs.map.tiles@.len());
                let idx = ecs.map.xy_idx(at.x, at.y);
                if ecs.blocks_tile.has(e) {
                    ecs.map.blocked[idx] = true;
                }
                ecs.map.tile_content[idx].push(e);
                proof {
                    assert forall|i: int| 0 <= i < start.map.tiles.len() implies #[trigger] ecs@.map.tile_content[i]
                        == occupants_upto(start, i, (e + 1) as nat) by {
                        assert(before.tile_content[i] == occupants_upto(start, i, e as nat));
                        if i == idx {
                            assert(ecs@.map.tile_content[i] =~= before.tile_content[i].push(e));
                        } else {
                            assert(ecs@.map.tile_content[i] == before.tile_content[i]);
                        }
                    }
                    assert forall|i: int| 0 <= i < start.map.tiles.len() implies ecs@.map.blocked[i]
                        == blocked_upto(start, i, (e + 1) as nat) by {
                        assert(before.blocked[i] == blocked_upto(start, i, e as nat));
                        assert(stands_on(start, e as int, i) == (i == idx));
                        assert(start.blocks_tile[e as int].is_some() == ecs.blocks_tile@[e as int].is_some());
                    }
                }
            } else {
                proof {
                    assert forall|i: int| 0 <= i < start.map.tiles.len() implies #[trigger] ecs@.map.tile_content[i]
                        == occupants_upto(start, i, (e + 1) as nat) by {
                        assert(before.tile_content[i] == occupants_upto(start, i, e as nat));
                    }
                    assert forall|i: int| 0 <= i < start.map.tiles.len() implies ecs@.map.blocked[i]
                        == blocked_upto(start, i, (e + 1) as nat) by {
                        assert(before.blocked[i] == blocked_upto(start, i, e as nat));
                        assert(!stands_on(start, e as int, i));
                    }
                }
            }
            e = e + 1;
        }
        proof {
            let goal = indexed(start);
            assert(ecs@.map.blocked =~= goal.map.blocked);
            assert(ecs@.map.tile_content =~= goal.map.tile_content);
            assert forall|i: int, k: int|
                0 <= i < ecs@.map.tile_content.len() && 0 <= k < ecs@.map.tile_content[i].len() implies #[trigger] ecs@.map.tile_content[i][k]
                < ecs@.count() by {
                lemma_occupants_counted(start, i, n as nat);
            }
            lemma_recorded_wf(start, ecs@);
        }
    }
}

} // verus!
