//! The pass that records on the map what the player sees.
use vstd::prelude::*;
use crate::components::Position;
use crate::map::{cell_index, lemma_cell_index_in_grid, TileMapView};
use crate::world::{lemma_recorded_wf, World, WorldView};

verus! {

/// Whether the tile with index `i` is among the first `k` tiles seen. Tiles
/// outside the map are not seen.
pub open spec fn lit_by(m: TileMapView, seen: Seq<Position>, k: nat, i: int) -> bool
    decreases k,
{
    if k == 0 {
        false
    } else {
        lit_by(m, seen, (k - 1) as nat, i) || (m.in_bounds(seen[k - 1].x as int, seen[k - 1].y as int)
            && cell_index(m.width, seen[k - 1].x as int, seen[k - 1].y as int) == i)
    }
}

/// The world after the player saw exactly these tiles: they are the visible
/// ones, and they are revealed for good.
pub open spec fn surveyed(w: WorldView, seen: Seq<Position>) -> WorldView {
    WorldView {
        map: TileMapView {
            visible: Seq::new(w.map.tiles.len(), |i: int| lit_by(w.map, seen, seen.len(), i)),
            revealed: Seq::new(
                w.map.tiles.len(),
                |i: int| w.map.revealed[i] || lit_by(w.map, seen, seen.len(), i),
            ),
            ..w.map
        },
        ..w
    }
}

/// The world after the field of view reported, if it did.
pub open spec fn after_survey(w: WorldView, sight: Option<Vec<Position>>) -> WorldView {
    match sight {
        Some(seen) => surveyed(w, seen@),
        None => w,
    }
}

/// Recording what the player sees keeps the world in order.
pub proof fn lemma_survey_wf(w: WorldView, sight: Option<Vec<Position>>)
    requires
        w.wf(),
    ensures
        after_survey(w, sight).wf(),
        after_survey(w, sight).count() == w.count(),
{
    lemma_recorded_wf(w, after_survey(w, sight));
}

/// The pass that records what the player sees.
pub struct VisibilitySystem {}

impl VisibilitySystem {
    /// Records what the field of view reported for the player. Where it
    /// reported nothing, because the player's view has not changed, the map
    /// stays as it is.
    pub fn run(&mut self, ecs: &mut World, sight: &Option<Vec<Position>>)
        requires
            old(ecs).wf(),
        ensures
            final(ecs).wf(),
            final(ecs)@ == after_survey(old(ecs)@, *sight),
    {
        let seen = match sight {
            Some(seen) => seen,
            None => {
                return ;
            },
        };
        let ghost start = old(ecs)@;
        let count = ecs.map.visible_tiles.len();
        let mut i: usize = 0;
        while i < count
            invariant
                i <= count,
                count == start.map.tiles.len(),
                start == old(ecs)@,
                start.wf(),
                ecs@ == (WorldView { map: ecs@.map, ..start }),
                ecs@.map == (TileMapView { visible: ecs@.map.visible, ..start.map }),
                ecs@.map.visible.len() == count,
                forall|j: int| 0 <= j < i ==> !ecs@.map.visible[j],
            decreases count - i,
        {
            ecs.map.visible_tiles[i] = false;
            i = i + 1;
        }
        let mut k: usize = 0;
        while k < seen.len()
            invariant
                k <= seen@.len(),
                count == start.map.tiles.len(),
                start == old(ecs)@,
                start.wf(),
                ecs@ == (WorldView { map: ecs@.map, ..start }),
                ecs@.map == (TileMapView {
                    visible: ecs@.map.visible,
                    revealed: ecs@.map.revealed,
                    ..start.map
                }),
                ecs@.map.visible.len() == count,
                ecs@.map.revealed.len() == count,
                forall|j: int|
                    0 <= j < count ==> (#[trigger] ecs@.map.visible[j]) == lit_by(
                        start.map,
                        seen@,
                        k as nat,
                        j,
                    ),
                forall|j: int|
                    0 <= j < count ==> (#[trigger] ecs@.map.revealed[j]) == (start.map.revealed[j]
                        || lit_by(start.map, seen@, k as nat, j)),
            decreases seen@.len() - k,
        {
            let tile = seen[k];
            let ghost before = ecs@.map;
            if ecs.map.in_bounds(tile.x, tile.y) {
                proof {
                    lemma_cell_index_in_grid(
                        start.map.width,
                        start.map.height,
                        tile.x as int,
                        tile.y as int,
                    );
                }
                let idx = ecs.map.xy_idx(tile.x, tile.y);
                ecs.map.visible_tiles[idx] = true;
                ecs.map.revealed_tiles[idx] = true;
            }
            proof {
                assert forall|j: int| 0 <= j < count implies ecs@.map.visible[j] == lit_by(
                    start.map,
                    seen@,
                    (k + 1) as nat,
                    j,
                ) by {
                    assert(before.visible[j] == lit_by(start.map, seen@, k as nat, j));
                }
                assert forall|j: int| 0 <= j < count implies ecs@.map.revealed[j] == (
                start.map.revealed[j] || lit_by(start.map, seen@, (k + 1) as nat, j)) by {
                    assert(before.revealed[j] == (start.map.revealed[j] || lit_by(
                        start.map,
                        seen@,
                        k as nat,
                        j,
                    )));
                }
            }
            k = k + 1;
        }
        proof {
            let goal = surveyed(start, seen@);
            assert(ecs@.map.visible =~= goal.map.visible);
            assert(ecs@.map.revealed =~= goal.map.revealed);
            lemma_recorded_wf(start, ecs@);
        }
    }
}

} // verus!
