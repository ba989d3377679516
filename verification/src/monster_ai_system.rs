//! The pass that carries out what the hostile creatures decided, and counts
//! down their confusion.
use vstd::prelude::*;
use crate::components::{Confusion, Entity, Position, WantsToMelee};
use crate::map::{cell_index, lemma_cell_index_in_grid, TileMapView};
use crate::storage::lookup;
use crate::world::{lemma_side_tables_wf, lemma_step_wf, World, WorldView};

verus! {

/// What a creature decided to do with its turn.
#[derive(PartialEq, Eq, Structural, Clone, Copy, Debug)]
pub enum Decision {
    /// Strike `target`.
    Attack { monster: Entity, target: Entity },
    /// Step onto the tile `to`.
    Approach { monster: Entity, to: Position },
}

/// Whether `e` is a creature that is confused. A confused creature loses its turn.
pub open spec fn dazed(w: WorldView, e: Entity) -> bool {
    lookup(w.confusion, e).is_some() && lookup(w.combat_stats, e).is_some()
}

/// Whether the tile is on the map and free to enter.
pub open spec fn can_enter(m: TileMapView, to: Position) -> bool {
    m.in_bounds(to.x as int, to.y as int) && !m.blocked[cell_index(m.width, to.x as int, to.y as int)]
}

/// The world after `mover` stepped from `from` onto `to`: the tile left is
/// free to enter and the tile entered is not.
pub open spec fn stepped(w: WorldView, mover: Entity, from: Position, to: Position) -> WorldView {
    WorldView {
        positions: w.positions.update(mover as int, Some(to)),
        map: TileMapView {
            blocked: w.map.blocked.update(
                cell_index(w.map.width, from.x as int, from.y as int),
                false,
            ).update(cell_index(w.map.width, to.x as int, to.y as int), true),
            ..w.map
        },
        ..w
    }
}

/// The world after one decision was carried out. The decision of a confused
/// creature, of an entity that the tables have no row for, or to step where
/// nobody can step, changes nothing.
pub open spec fn decided(w: WorldView, decision: Decision) -> WorldView {
    match decision {
        Decision::Attack { monster, target } => if monster < w.count() && !dazed(w, monster) {
            WorldView {
                wants_melee: w.wants_melee.update(monster as int, Some(WantsToMelee { target })),
                ..w
            }
        } else {
            w
        },
        Decision::Approach { monster, to } => match lookup(w.positions, monster) {
            Some(from) => if !dazed(w, monster) && can_enter(w.map, to) {
                stepped(w, monster, from, to)
            } else {
                w
            },
            None => w,
        },
    }
}

/// The world after the first `k` decisions were carried out, in their order.
pub open spec fn decisions_upto(w: WorldView, decisions: Seq<Decision>, k: nat) -> WorldView
    decreases k,
{
    if k == 0 {
        w
    } else {
        decided(decisions_upto(w, decisions, (k - 1) as nat), decisions[k - 1])
    }
}

/// The confusion a creature has left after one more turn. What an item
/// carries to inflict is not counted down.
pub open spec fn sobered(daze: Option<Confusion>, is_creature: bool) -> Option<Confusion> {
    match daze {
        Some(daze) => if !is_creature {
            Some(daze)
        } else if daze.turns <= 1 {
            None
        } else {
            Some(Confusion { turns: (daze.turns - 1) as i32 })
        },
        None => None,
    }
}

/// The world after every confused creature came one turn closer to its senses.
pub open spec fn counted_down(w: WorldView) -> WorldView {
    WorldView {
        confusion: Seq::new(
            w.confusion.len(),
            |e: int| sobered(w.confusion[e], w.combat_stats[e].is_some()),
        ),
        ..w
    }
}

/// The world after the hostile creatures had their turn.
pub open spec fn hostile_turn(w: WorldView, decisions: Seq<Decision>) -> WorldView {
    counted_down(decisions_upto(w, decisions, decisions.len()))
}

/// Decisions touch nothing but where creatures stand, whom they want to
/// strike, and which tiles are blocked.
pub proof fn lemma_decisions_touch(w: WorldView, decisions: Seq<Decision>, k: nat)
    ensures
        decisions_upto(w, decisions, k) == (WorldView {
            positions: decisions_upto(w, decisions, k).positions,
            wants_melee: decisions_upto(w, decisions, k).wants_melee,
            map: TileMapView { blocked: decisions_upto(w, decisions, k).map.blocked, ..w.map },
            ..w
        }),
    decreases k,
{
    if k > 0 {
        lemma_decisions_touch(w, decisions, (k - 1) as nat);
    }
}

/// Carrying out one decision keeps the world in order.
pub proof fn lemma_decided_wf(w: WorldView, decision: Decision)
    requires
        w.wf(),
    ensures
        decided(w, decision).wf(),
        decided(w, decision).count() == w.count(),
{
    let v = decided(w, decision);
    match decision {
        Decision::Attack { monster, target } => {
            if monster < w.count() && !dazed(w, monster) {
                lemma_side_tables_wf(w, v);
            }
        },
        Decision::Approach { monster, to } => {
            match lookup(w.positions, monster) {
                Some(from) => {
                    if !dazed(w, monster) && can_enter(w.map, to) {
                        assert(w.positions[monster as int] == Some(from));
                        lemma_cell_index_in_grid(w.map.width, w.map.height, from.x as int, from.y as int);
                        lemma_cell_index_in_grid(w.map.width, w.map.height, to.x as int, to.y as int);
                        lemma_step_wf(w, v, monster, to);
                    }
                },
                None => {},
            }
        },
    }
}

/// Carrying out decisions keeps the world in order.
pub proof fn lemma_decisions_wf(w: WorldView, decisions: Seq<Decision>, k: nat)
    requires
        w.wf(),
    ensures
        decisions_upto(w, decisions, k).wf(),
        decisions_upto(w, decisions, k).count() == w.count(),
    decreases k,
{
    if k > 0 {
        lemma_decisions_wf(w, decisions, (k - 1) as nat);
        lemma_decided_wf(decisions_upto(w, decisions, (k - 1) as nat), decisions[k - 1]);
    }
}

/// The turn of the hostile creatures keeps the world in order.
pub proof fn lemma_hostile_turn_wf(w: WorldView, decisions: Seq<Decision>)
    requires
        w.wf(),
    ensures
        hostile_turn(w, decisions).wf(),
        hostile_turn(w, decisions).count() == w.count(),
{
    lemma_decisions_wf(w, decisions, decisions.len());
    let carried = decisions_upto(w, decisions, decisions.len());
    lemma_side_tables_wf(carried, counted_down(carried));
}

/// The pass of the hostile creatures.
pub struct MonsterAI {}

impl MonsterAI {
    /// Carries out the decisions in their order, then counts down the
    /// confusion of every creature. A creature that was confused when its
    /// decision came up loses that decision.
    pub fn run(&mut self, ecs: &mut World, decisions: &Vec<Decision>)
        requires
            old(ecs).wf(),
        ensures
            final(ecs).wf(),
            final(ecs)@ == hostile_turn(old(ecs)@, decisions@),
    {
        let n = ecs.count();
        let mut k: usize = 0;
        while k < decisions.len()
            invariant
                k <= decisions@.len(),
                n == ecs@.count(),
                ecs.wf(),
                ecs@ == decisions_upto(old(ecs)@, decisions@, k as nat),
            decreases decisions@.len() - k,
        {
            let ghost before = ecs@;
            match decisions[k] {
                Decision::Attack { monster, target } => {
                    if monster < n && !(ecs.confusion.has(monster) && ecs.combat_stats.has(monster)) {
                        ecs.wants_melee.insert(monster, WantsToMelee { target });
                        proof {
                            lemma_side_tables_wf(before, ecs@);
                        }
                    }
                },
                Decision::Approach { monster, to } => {
                    let place = match ecs.positions.get(monster) {
                        Some(from) => Some(*from),
                        None => None,
                    };
                    if let Some(from) = place {
                        if !(ecs.confusion.has(monster) && ecs.combat_stats.has(monster))
                            && ecs.map.in_bounds(to.x, to.y) {
                            proof {
                                assert(before.positions[monster as int] == Some(from));
                                lemma_cell_index_in_grid(
                                    before.map.width,
                                    before.map.height,
                                    from.x as int,
                                    from.y as int,
                                );
                                lemma_cell_index_in_grid(
                                    before.map.width,
                                    before.map.height,
                                    to.x as int,
                                    to.y as int,
                                );
                            }
                            assert(ecs.map.tiles.len() == ecs.map.tiles@.len());
                            let target = ecs.map.xy_idx(to.x, to.y);
                            if !ecs.map.blocked[target] {
                                let source = ecs.map.xy_idx(from.x, from.y);
                                ecs.map.blocked[source] = false;
                                ecs.map.blocked[target] = true;
                                ecs.positions.insert(monster, to);
                                proof {
                                    lemma_step_wf(before, ecs@, monster, to);
                                }
                            }
                        }
                    }
                },
            }
            k = k + 1;
        }
        let ghost carried = ecs@;
        let mut e: usize = 0;
        while e < n
            invariant
                e <= n,
                n == carried.count(),
                carried.wf(),
                ecs@.confusion.len() == n,
                ecs@ == (WorldView { confusion: ecs@.confusion, ..carried }),
                forall|j: int|
                    0 <= j < e ==> (#[trigger] ecs@.confusion[j]) == sobered(
                        carried.confusion[j],
                        carried.combat_stats[j].is_some(),
                    ),
                forall|j: int| e <= j < n ==> (#[trigger] ecs@.confusion[j]) == carried.confusion[j],
            decreases n - e,
        {
            let left = match ecs.confusion.get(e) {
                Some(daze) => Some(daze.turns),
                None => None,
            };
            if let Some(turns) = left {
                if ecs.combat_stats.has(e) {
                    if turns <= 1 {
                        ecs.confusion.remove(e);
                    } else {
                        ecs.confusion.insert(e, Confusion { turns: turns - 1 });
                    }
                }
            }
            e = e + 1;
        }
        proof {
            assert(ecs@.confusion =~= counted_down(carried).confusion);
            lemma_side_tables_wf(carried, ecs@);
        }
    }
}

} // verus!
