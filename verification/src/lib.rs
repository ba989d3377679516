//! Turn resolution and level generation for a turn-based dungeon crawl.
//!
//! The crate keeps the whole game in one [`World`](world::World): attribute
//! tables keyed by entity, the map, the log and the turn state. Each pass of
//! the turn pipeline is a function on that world whose contract is written
//! over the world's view. What the game needs from outside (the field of
//! view, the decisions of the hostile creatures, the player's command) comes
//! in as plain values.
use vstd::prelude::*;
use crate::components::{CombatStats, Entity, Position, TurnError};
use crate::damage_system::{
    blows_upto, damage_applied, dead, delete_the_dead, lemma_blows_same, lemma_damage_adds_up,
    lemma_damage_applied_wf, total,
    lemma_nobody_dead_after_sweep, lemma_sweep_idle, lemma_sweep_removes_the_dead,
    lemma_swept_wf, swept_row, swept_upto, DamageSystem,
};
use crate::inventory_system::{
    drops_upto, lemma_drops_idle, lemma_drops_wf, lemma_pickups_idle, lemma_pickups_wf,
    lemma_uses_idle, lemma_uses_wf, pickups_upto, uses_upto,
    with_no_drops, with_no_pickups, with_no_uses, ItemCollectionSystem, ItemDropSystem,
    ItemUseSystem,
};
use crate::map::TileMapView;
use crate::map_indexing_system::{indexed, lemma_indexed_wf, MapIndexingSystem};
use crate::melee_combat_system::{
    lemma_blows_wait, lemma_melees_skip, lemma_melees_wf, melees_upto, with_no_melees,
    MeleeCombatSystem,
};
use crate::monster_ai_system::{
    hostile_turn, lemma_decisions_touch, lemma_hostile_turn_wf, Decision, MonsterAI,
};
use crate::player::{
    after_input, lemma_after_input_wf, player_input, turn_after_input, Command,
};
use crate::visibility_system::{after_survey, lemma_survey_wf, VisibilitySystem};
use crate::storage::lookup;
use crate::world::{clamp_hp, lemma_side_tables_wf, Resolution, World, WorldView};

pub mod components;
pub mod damage_system;
pub mod dice;
pub mod gamelog;
pub mod inventory_system;
pub mod map;
pub mod map_builders;
pub mod map_indexing_system;
pub mod melee_combat_system;
pub mod monster_ai_system;
pub mod player;
pub mod spawner;
pub mod storage;
pub mod visibility_system;
pub mod world;

verus! {

/// Whose move it is.
#[derive(PartialEq, Eq, Structural, Clone, Copy, Debug)]
pub enum RunState {
    AwaitingInput,
    PreRun,
    PlayerTurn,
    MonsterTurn,
}

/// What came in from outside for one run of the passes.
pub struct Senses {
    /// The tiles that the player sees, where the player's view has changed.
    pub sight: Option<Vec<Position>>,
    /// What the hostile creatures decided, in the order in which they act.
    pub decisions: Vec<Decision>,
    /// At the index of each entity that aims an item with an area of effect:
    /// the tiles seen from the tile aimed at, within the item's radius.
    pub blasts: Vec<Vec<Position>>,
}

/// The game.
pub struct State {
    pub ecs: World,
}

/// The passes in their order: sight, the hostile creatures, occupancy,
/// blows, damage, picking up, using, dropping. A pass that stops at a fault
/// stops the run, and the world stays as that pass left it.
pub open spec fn systems_run(w: WorldView, senses: Senses) -> Resolution {
    let placed = indexed(hostile_turn(after_survey(w, senses.sight), senses.decisions@));
    let fought = melees_upto(placed, placed.count());
    if fought.fault.is_some() {
        fought
    } else {
        let hurt = damage_applied(with_no_melees(fought.world));
        let gathered = pickups_upto(hurt, hurt.count());
        if gathered.fault.is_some() {
            gathered
        } else {
            let used = uses_upto(
                with_no_pickups(gathered.world),
                senses.blasts@,
                gathered.world.count(),
            );
            if used.fault.is_some() {
                used
            } else {
                let laid = drops_upto(with_no_uses(used.world), used.world.count());
                if laid.fault.is_some() {
                    laid
                } else {
                    Resolution { world: with_no_drops(laid.world), fault: None }
                }
            }
        }
    }
}

/// The state that follows a run of the passes.
pub open spec fn turn_after_run(state: RunState) -> RunState {
    match state {
        RunState::PlayerTurn => RunState::MonsterTurn,
        _ => RunState::AwaitingInput,
    }
}

/// The world with the dead removed.
pub open spec fn swept(w: WorldView) -> WorldView {
    swept_upto(w, w.count())
}

/// One tick of the game: while the game waits for input, the command is
/// heeded; in every other state the passes run. Then the state moves on and
/// the dead are removed. A fault stops the tick where the passes stopped.
pub open spec fn ticked(w: WorldView, command: Option<Command>, senses: Senses) -> Resolution {
    if w.runstate == RunState::AwaitingInput {
        Resolution {
            world: swept(
                WorldView { runstate: turn_after_input(w, command), ..after_input(w, command) },
            ),
            fault: None,
        }
    } else {
        let end = systems_run(w, senses);
        if end.fault.is_some() {
            end
        } else {
            Resolution {
                world: swept(WorldView { runstate: turn_after_run(w.runstate), ..end.world }),
                fault: None,
            }
        }
    }
}

/// The passes keep the world in order, wherever they stop: the world that
/// a run leaves is in order and has the entities that it had.
pub proof fn lemma_systems_run_wf(w: WorldView, senses: Senses)
    requires
        w.wf(),
        w.count() <= usize::MAX,
    ensures
        systems_run(w, senses).world.wf(),
        systems_run(w, senses).world.count() == w.count(),
{
    let seen = after_survey(w, senses.sight);
    lemma_survey_wf(w, senses.sight);
    let stirred = hostile_turn(seen, senses.decisions@);
    lemma_hostile_turn_wf(seen, senses.decisions@);
    let placed = indexed(stirred);
    lemma_indexed_wf(stirred);
    let fought = melees_upto(placed, placed.count());
    lemma_melees_wf(placed, placed.count());
    if fought.fault.is_none() {
        let rested = with_no_melees(fought.world);
        lemma_side_tables_wf(fought.world, rested);
        let hurt = damage_applied(rested);
        lemma_damage_applied_wf(rested);
        let gathered = pickups_upto(hurt, hurt.count());
        lemma_pickups_wf(hurt, hurt.count());
        if gathered.fault.is_none() {
            let emptied = with_no_pickups(gathered.world);
            lemma_side_tables_wf(gathered.world, emptied);
            let used = uses_upto(emptied, senses.blasts@, gathered.world.count());
            lemma_uses_wf(emptied, senses.blasts@, gathered.world.count());
            if used.fault.is_none() {
                let spent = with_no_uses(used.world);
                lemma_side_tables_wf(used.world, spent);
                let laid = drops_upto(spent, used.world.count());
                lemma_drops_wf(spent, used.world.count());
                if laid.fault.is_none() {
                    lemma_side_tables_wf(laid.world, with_no_drops(laid.world));
                }
            }
        }
    }
}

/// The world of a tick before the dead are removed: the command heeded or
/// the passes run, and the state moved on.
pub open spec fn before_sweep(w: WorldView, command: Option<Command>, senses: Senses) -> WorldView {
    if w.runstate == RunState::AwaitingInput {
        WorldView { runstate: turn_after_input(w, command), ..after_input(w, command) }
    } else {
        WorldView { runstate: turn_after_run(w.runstate), ..systems_run(w, senses).world }
    }
}

/// A tick keeps the world in order, and one that ends without a fault
/// leaves nobody dead: the world before its sweep is in order, the sweep
/// takes every attribute from each entity without hit points and leaves
/// everybody else all of theirs.
pub proof fn lemma_tick_sweeps(w: WorldView, command: Option<Command>, senses: Senses)
    requires
        w.wf(),
        w.count() <= usize::MAX,
    ensures
        ticked(w, command, senses).world.wf(),
        ticked(w, command, senses).world.count() == w.count(),
        ticked(w, command, senses).fault.is_none() ==> {
            &&& before_sweep(w, command, senses).wf()
            &&& ticked(w, command, senses).world == swept(before_sweep(w, command, senses))
            &&& forall|e: int| 0 <= e < w.count() ==> !dead(ticked(w, command, senses).world, e)
            &&& forall|e: int|
                0 <= e < w.count() ==> #[trigger] swept_row(
                    before_sweep(w, command, senses),
                    w.count(),
                    e,
                )
        },
{
    let moved = before_sweep(w, command, senses);
    if w.runstate == RunState::AwaitingInput {
        lemma_after_input_wf(w, command);
        lemma_side_tables_wf(after_input(w, command), moved);
    } else {
        lemma_systems_run_wf(w, senses);
        lemma_side_tables_wf(systems_run(w, senses).world, moved);
    }
    if ticked(w, command, senses).fault.is_none() {
        lemma_swept_wf(moved, moved.count());
        lemma_sweep_removes_the_dead(moved, moved.count());
        lemma_nobody_dead_after_sweep(moved);
    }
}

/// The world that the blows of a run start from: sight recorded, the
/// decisions of the hostile creatures carried out, occupancy rebuilt.
pub open spec fn before_blows(w: WorldView, senses: Senses) -> WorldView {
    indexed(hostile_turn(after_survey(w, senses.sight), senses.decisions@))
}

/// What is taken off the hit points of `victim` in a run: what waited for
/// it and every blow dealt to it.
pub open spec fn taken_from(w: WorldView, senses: Senses, victim: Entity) -> int {
    total(before_blows(w, senses).queue_of(victim)) + blows_upto(
        before_blows(w, senses),
        victim,
        w.count(),
    )
}

/// Blows stack within one tick and death is looked at once, after them:
/// in a tick that runs the passes and ends without a fault, with nobody
/// wanting to pick up, use or drop anything, each creature loses what
/// waited for it and every blow dealt to it, all at once and stopping at
/// nothing. Whoever has no hit points left after that is gone when the
/// tick ends; whoever has some keeps them, and its name and place.
pub proof fn lemma_blows_kill_once(
    w: WorldView,
    command: Option<Command>,
    senses: Senses,
    victim: Entity,
)
    requires
        w.wf(),
        w.count() <= usize::MAX,
        w.runstate != RunState::AwaitingInput,
        forall|e: int| 0 <= e < w.count() ==> (#[trigger] w.wants_pickup[e]).is_none(),
        forall|e: int| 0 <= e < w.count() ==> (#[trigger] w.wants_use[e]).is_none(),
        forall|e: int| 0 <= e < w.count() ==> (#[trigger] w.wants_drop[e]).is_none(),
        ticked(w, command, senses).fault.is_none(),
        lookup(w.combat_stats, victim).is_some(),
    ensures
        before_blows(w, senses).combat_stats == w.combat_stats,
        before_blows(w, senses).suffer_damage == w.suffer_damage,
        senses.decisions@.len() == 0 ==> before_blows(w, senses).wants_melee == w.wants_melee,
        senses.decisions@.len() == 0 ==> taken_from(w, senses, victim) == total(w.queue_of(victim))
            + blows_upto(w, victim, w.count()),
        ticked(w, command, senses).world.runstate == turn_after_run(w.runstate),
        ({
            let stats = lookup(w.combat_stats, victim).unwrap();
            let left = clamp_hp(stats.hp - taken_from(w, senses, victim), stats.max_hp as int);
            let end = ticked(w, command, senses).world;
            if left <= 0 {
                end.gone(victim as int)
            } else {
                &&& end.combat_stats[victim as int] == Some(CombatStats { hp: left as i32, ..stats })
                &&& end.names[victim as int] == before_blows(w, senses).names[victim as int]
                &&& end.positions[victim as int] == before_blows(w, senses).positions[victim as int]
            }
        }),
{
    let n = w.count();
    let seen = after_survey(w, senses.sight);
    lemma_survey_wf(w, senses.sight);
    lemma_decisions_touch(seen, senses.decisions@, senses.decisions@.len());
    lemma_hostile_turn_wf(seen, senses.decisions@);
    let stirred = hostile_turn(seen, senses.decisions@);
    lemma_indexed_wf(stirred);
    let placed = before_blows(w, senses);
    let fought = melees_upto(placed, n);
    lemma_melees_wf(placed, n);
    lemma_blows_wait(placed, n);
    lemma_damage_adds_up(placed, victim);
    let rested = with_no_melees(fought.world);
    lemma_side_tables_wf(fought.world, rested);
    let hurt = damage_applied(rested);
    lemma_damage_applied_wf(rested);
    assert(forall|e: int| 0 <= e < n ==> (#[trigger] hurt.wants_pickup[e]) == w.wants_pickup[e]);
    lemma_pickups_idle(hurt, n);
    assert(with_no_pickups(hurt).wants_pickup =~= hurt.wants_pickup);
    assert(forall|e: int| 0 <= e < n ==> (#[trigger] hurt.wants_use[e]) == w.wants_use[e]);
    lemma_uses_idle(hurt, senses.blasts@, n);
    assert(with_no_uses(hurt).wants_use =~= hurt.wants_use);
    assert(forall|e: int| 0 <= e < n ==> (#[trigger] hurt.wants_drop[e]) == w.wants_drop[e]);
    lemma_drops_idle(hurt, n);
    assert(with_no_drops(hurt).wants_drop =~= hurt.wants_drop);
    assert(systems_run(w, senses).world == hurt);
    let moved = WorldView { runstate: turn_after_run(w.runstate), ..hurt };
    lemma_sweep_removes_the_dead(moved, n);
    assert(swept_row(moved, n, victim as int));
    lemma_sweep_keeps_state(moved, n);
    if senses.decisions@.len() == 0 {
        lemma_blows_same(placed, w, victim, n);
    }
}

/// The sweep leaves the turn state as it is.
pub proof fn lemma_sweep_keeps_state(w: WorldView, k: nat)
    ensures
        swept_upto(w, k).runstate == w.runstate,
    decreases k,
{
    if k > 0 {
        lemma_sweep_keeps_state(w, (k - 1) as nat);
    }
}

/// A run with nothing to resolve changes nothing but what the map records
/// of sight and of occupancy, and the confusion that wears off: where nobody
/// wants anything, no damage waits and the hostile creatures decided
/// nothing, the run ends without a fault and every other part of the world
/// (combat statistics, positions, backpacks, worn items, names, the log)
/// is what it was.
pub proof fn lemma_idle_run(w: WorldView, senses: Senses)
    requires
        w.wf(),
        w.at_rest(),
        senses.decisions@.len() == 0,
    ensures
        systems_run(w, senses).fault.is_none(),
        systems_run(w, senses).world == (WorldView {
            map: systems_run(w, senses).world.map,
            confusion: systems_run(w, senses).world.confusion,
            ..w
        }),
        systems_run(w, senses).world.map == (TileMapView {
            visible: systems_run(w, senses).world.map.visible,
            revealed: systems_run(w, senses).world.map.revealed,
            blocked: systems_run(w, senses).world.map.blocked,
            tile_content: systems_run(w, senses).world.map.tile_content,
            ..w.map
        }),
{
    let seen = after_survey(w, senses.sight);
    let stirred = hostile_turn(seen, senses.decisions@);
    let placed = indexed(stirred);
    assert(forall|e: int| 0 <= e < placed.count() ==> (#[trigger] placed.wants_melee[e]) == w.wants_melee[e]);
    lemma_melees_skip(placed, placed, 0, placed.count());
    let fought = melees_upto(placed, placed.count());
    assert(with_no_melees(placed).wants_melee =~= placed.wants_melee);
    let hurt = damage_applied(with_no_melees(fought.world));
    assert(hurt.combat_stats =~= placed.combat_stats) by {
        assert forall|e: int| 0 <= e < placed.combat_stats.len() implies hurt.combat_stats[e]
            == placed.combat_stats[e] by {
            assert(w.suffer_damage[e].is_none());
        }
    }
    assert(hurt.suffer_damage =~= placed.suffer_damage) by {
        assert forall|e: int| 0 <= e < placed.suffer_damage.len() implies hurt.suffer_damage[e]
            == placed.suffer_damage[e] by {
            assert(w.suffer_damage[e].is_none());
        }
    }
    assert(hurt == placed);
    assert(forall|e: int| 0 <= e < hurt.count() ==> (#[trigger] hurt.wants_pickup[e]) == w.wants_pickup[e]);
    lemma_pickups_idle(hurt, hurt.count());
    assert(with_no_pickups(hurt).wants_pickup =~= hurt.wants_pickup);
    assert(forall|e: int| 0 <= e < hurt.count() ==> (#[trigger] hurt.wants_use[e]) == w.wants_use[e]);
    lemma_uses_idle(hurt, senses.blasts@, hurt.count());
    assert(with_no_uses(hurt).wants_use =~= hurt.wants_use);
    assert(forall|e: int| 0 <= e < hurt.count() ==> (#[trigger] hurt.wants_drop[e]) == w.wants_drop[e]);
    lemma_drops_idle(hurt, hurt.count());
    assert(with_no_drops(hurt).wants_drop =~= hurt.wants_drop);
    assert(systems_run(w, senses).world == placed);
}

/// A tick with nothing to resolve and nobody dead: where the game does not
/// wait for input, nobody wants anything, no damage waits, the hostile
/// creatures decided nothing and everybody with combat statistics has hit
/// points left, the tick ends without a fault, the state moves on, and
/// nothing else changes but what the map records of sight and of occupancy,
/// and the confusion that wears off.
pub proof fn lemma_idle_tick(w: WorldView, command: Option<Command>, senses: Senses)
    requires
        w.wf(),
        w.at_rest(),
        senses.decisions@.len() == 0,
        w.runstate != RunState::AwaitingInput,
        forall|e: int| 0 <= e < w.count() ==> !dead(w, e),
    ensures
        ticked(w, command, senses).fault.is_none(),
        ticked(w, command, senses).world == (WorldView {
            map: ticked(w, command, senses).world.map,
            confusion: ticked(w, command, senses).world.confusion,
            runstate: turn_after_run(w.runstate),
            ..w
        }),
        ticked(w, command, senses).world.map == (TileMapView {
            visible: ticked(w, command, senses).world.map.visible,
            revealed: ticked(w, command, senses).world.map.revealed,
            blocked: ticked(w, command, senses).world.map.blocked,
            tile_content: ticked(w, command, senses).world.map.tile_content,
            ..w.map
        }),
{
    lemma_idle_run(w, senses);
    let end = systems_run(w, senses);
    let moved = WorldView { runstate: turn_after_run(w.runstate), ..end.world };
    assert forall|e: int| 0 <= e < moved.count() implies !dead(moved, e) by {
        assert(!dead(w, e));
    }
    lemma_sweep_idle(moved, moved.count());
}

impl State {
    /// Runs the passes once, in their order.
    pub fn run_systems(&mut self, senses: &Senses) -> (r: Result<(), TurnError>)
        requires
            old(self).ecs.wf(),
        ensures
            final(self).ecs.wf(),
            ({
                let end = systems_run(old(self).ecs@, *senses);
                match r {
                    Ok(()) => end.fault.is_none() && final(self).ecs@ == end.world,
                    Err(fault) => end.fault == Some(fault) && final(self).ecs@ == end.world,
                }
            }),
    {
        let mut vis = VisibilitySystem {  };
        vis.run(&mut self.ecs, &senses.sight);
        let mut mob = MonsterAI {  };
        mob.run(&mut self.ecs, &senses.decisions);
        let mut mapindex = MapIndexingSystem {  };
        mapindex.run(&mut self.ecs);
        let mut melee = MeleeCombatSystem {  };
        match melee.run(&mut self.ecs) {
            Ok(()) => {},
            Err(fault) => {
                return Err(fault);
            },
        }
        let mut damage = DamageSystem {  };
        damage.run(&mut self.ecs);
        let mut pickup = ItemCollectionSystem {  };
        match pickup.run(&mut self.ecs) {
            Ok(()) => {},
            Err(fault) => {
                return Err(fault);
            },
        }
        let mut items = ItemUseSystem {  };
        match items.run(&mut self.ecs, &senses.blasts) {
            Ok(()) => {},
            Err(fault) => {
                return Err(fault);
            },
        }
        let mut drops = ItemDropSystem {  };
        match drops.run(&mut self.ecs) {
            Ok(()) => {},
            Err(fault) => {
                return Err(fault);
            },
        }
        Ok(())
    }

    /// Advances the game by one tick. `command` is what the input handed
    /// over, if anything; it is looked at only while the game waits for it.
    pub fn tick(&mut self, command: Option<Command>, senses: &Senses) -> (r: Result<(), TurnError>)
        requires
            old(self).ecs.wf(),
        ensures
            final(self).ecs.wf(),
            ({
                let end = ticked(old(self).ecs@, command, *senses);
                match r {
                    Ok(()) => end.fault.is_none() && final(self).ecs@ == end.world,
                    Err(fault) => end.fault == Some(fault) && final(self).ecs@ == end.world,
                }
            }),
    {
        let newrunstate = match self.ecs.runstate {
            RunState::AwaitingInput => player_input(&mut self.ecs, command),
            RunState::PreRun => {
                match self.run_systems(senses) {
                    Ok(()) => {},
                    Err(fault) => {
                        return Err(fault);
                    },
                }
                RunState::AwaitingInput
            },
            RunState::PlayerTurn => {
                match self.run_systems(senses) {
                    Ok(()) => {},
                    Err(fault) => {
                        return Err(fault);
                    },
                }
                RunState::MonsterTurn
            },
            RunState::MonsterTurn => {
                match self.run_systems(senses) {
                    Ok(()) => {},
                    Err(fault) => {
                        return Err(fault);
                    },
                }
                RunState::AwaitingInput
            },
        };
        let ghost before = self.ecs@;
        self.ecs.runstate = newrunstate;
        proof {
            lemma_side_tables_wf(before, self.ecs@);
        }
        delete_the_dead(&mut self.ecs);
        Ok(())
    }
}

} // verus!
