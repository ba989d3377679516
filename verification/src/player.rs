//! What the player's commands make of the world.
use vstd::prelude::*;
use crate::components::{
    Entity, Position, WantsToDropItem, WantsToMelee, WantsToPickupItem, WantsToUseItem,
};
use crate::map::{cell_index, lemma_cell_index_in_grid};
use crate::storage::lookup;
use crate::world::{lemma_side_tables_wf, lemma_step_wf, World, WorldView};
use crate::RunState;
use vstd::string::*;

verus! {

/// One command of the player, as the input hands it over.
#[derive(PartialEq, Eq, Structural, Clone, Copy, Debug)]
pub enum Command {
    /// Step, or strike whoever stands in the way.
    Move { dx: i32, dy: i32 },
    /// Pick up what lies here.
    Pickup,
    /// Use an item, on a tile or on oneself.
    UseItem { item: Entity, target: Option<Position> },
    /// Drop an item here.
    DropItem { item: Entity },
    /// Let the turn pass.
    Wait,
}

/// The first entity of `list`, from `from` on, that has combat statistics.
pub open spec fn first_fighter(w: WorldView, list: Seq<Entity>, from: nat) -> Option<Entity>
    decreases list.len() - from,
{
    if from >= list.len() {
        None
    } else if lookup(w.combat_stats, list[from as int]).is_some() {
        Some(list[from as int])
    } else {
        first_fighter(w, list, from + 1)
    }
}

/// The first item, from entity `from` on, that lies on the tile `at`.
pub open spec fn item_at(w: WorldView, at: Position, from: nat) -> Option<Entity>
    decreases w.count() - from,
{
    if from >= w.count() {
        None
    } else if w.items[from as int].is_some() && w.positions[from as int] == Some(at) {
        Some(from as Entity)
    } else {
        item_at(w, at, from + 1)
    }
}

/// What the log says to a player who reaches for nothing.
pub open spec fn nothing_here_line() -> Seq<char> {
    "There is nothing here to pick up."@
}

/// The world after the player tried to step by `(dx, dy)`: a creature on
/// the tile ahead is attacked, a free tile is entered, and nothing happens
/// at the edge of the map or in front of anything else that blocks.
pub open spec fn player_moved(w: WorldView, dx: i32, dy: i32) -> WorldView {
    match lookup(w.positions, w.player) {
        None => w,
        Some(at) => if !w.map.in_bounds(at.x + dx, at.y + dy) {
            w
        } else {
            let tile = cell_index(w.map.width, at.x + dx, at.y + dy);
            match first_fighter(w, w.map.tile_content[tile], 0) {
                Some(target) => WorldView {
                    wants_melee: w.wants_melee.update(w.player as int, Some(WantsToMelee { target })),
                    ..w
                },
                None => if w.map.blocked[tile] {
                    w
                } else {
                    WorldView {
                        positions: w.positions.update(
                            w.player as int,
                            Some(Position { x: (at.x + dx) as i32, y: (at.y + dy) as i32 }),
                        ),
                        ..w
                    }
                },
            }
        },
    }
}

/// The world after the player reached for what lies on their tile.
pub open spec fn player_reached(w: WorldView) -> WorldView {
    match lookup(w.positions, w.player) {
        None => w,
        Some(at) => match item_at(w, at, 0) {
            Some(item) => WorldView {
                wants_pickup: w.wants_pickup.update(
                    w.player as int,
                    Some(WantsToPickupItem { collected_by: w.player, item }),
                ),
                ..w
            },
            None => w.say(nothing_here_line()),
        },
    }
}

/// The world after the player's command was turned into what they want.
pub open spec fn commanded(w: WorldView, command: Command) -> WorldView {
    match command {
        Command::Move { dx, dy } => player_moved(w, dx, dy),
        Command::Pickup => player_reached(w),
        Command::UseItem { item, target } => WorldView {
            wants_use: w.wants_use.update(w.player as int, Some(WantsToUseItem { item, target })),
            ..w
        },
        Command::DropItem { item } => WorldView {
            wants_drop: w.wants_drop.update(w.player as int, Some(WantsToDropItem { item })),
            ..w
        },
        Command::Wait => w,
    }
}

/// Whether the command is heeded: there has to be one, and the tables have to
/// have a row for the player.
pub open spec fn heeded(w: WorldView, command: Option<Command>) -> bool {
    command.is_some() && w.player < w.count()
}

/// The world after the input was asked: a command that is heeded is turned
/// into what the player wants, and anything else changes nothing.
pub open spec fn after_input(w: WorldView, command: Option<Command>) -> WorldView {
    if heeded(w, command) {
        commanded(w, command.unwrap())
    } else {
        w
    }
}

/// Whose turn it is after the input was asked: the player's after a command
/// that is heeded, and otherwise the game goes on waiting.
pub open spec fn turn_after_input(w: WorldView, command: Option<Command>) -> RunState {
    if heeded(w, command) {
        RunState::PlayerTurn
    } else {
        RunState::AwaitingInput
    }
}

/// Heeding the input keeps the world in order.
pub proof fn lemma_after_input_wf(w: WorldView, command: Option<Command>)
    requires
        w.wf(),
    ensures
        after_input(w, command).wf(),
        after_input(w, command).count() == w.count(),
{
    if heeded(w, command) {
        let v = commanded(w, command.unwrap());
        match command.unwrap() {
            Command::Move { dx, dy } => {
                match lookup(w.positions, w.player) {
                    Some(at) => {
                        if w.map.in_bounds(at.x + dx, at.y + dy) {
                            let tile = cell_index(w.map.width, at.x + dx, at.y + dy);
                            match first_fighter(w, w.map.tile_content[tile], 0) {
                                Some(target) => {
                                    lemma_side_tables_wf(w, v);
                                },
                                None => {
                                    if !w.map.blocked[tile] {
                                        let to = Position {
                                            x: (at.x + dx) as i32,
                                            y: (at.y + dy) as i32,
                                        };
                                        assert(w.positions[w.player as int] == Some(at));
                                        lemma_step_wf(w, v, w.player, to);
                                    }
                                },
                            }
                        }
                    },
                    None => {},
                }
            },
            Command::Pickup => {
                match lookup(w.positions, w.player) {
                    Some(at) => {
                        lemma_side_tables_wf(w, v);
                    },
                    None => {},
                }
            },
            Command::UseItem { item, target } => {
                lemma_side_tables_wf(w, v);
            },
            Command::DropItem { item } => {
                lemma_side_tables_wf(w, v);
            },
            Command::Wait => {},
        }
    }
}

fn find_fighter(ecs: &World, list: &Vec<Entity>) -> (found: Option<Entity>)
    ensures
        found == first_fighter(ecs@, list@, 0),
{
    let mut k: usize = 0;
    while k < list.len()
        invariant
            k <= list@.len(),
            first_fighter(ecs@, list@, 0) == first_fighter(ecs@, list@, k as nat),
        decreases list@.len() - k,
    {
        if ecs.combat_stats.has(list[k]) {
            return Some(list[k]);
        }
        k = k + 1;
    }
    None
}

fn find_item_at(ecs: &World, at: Position) -> (found: Option<Entity>)
    requires
        ecs.wf(),
    ensures
        found == item_at(ecs@, at, 0),
{
    let n = ecs.count();
    let mut e: usize = 0;
    while e < n
        invariant
            e <= n,
            n == ecs@.count(),
            ecs.wf(),
            item_at(ecs@, at, 0) == item_at(ecs@, at, e as nat),
        decreases n - e,
    {
        let lies_here = match ecs.positions.get(e) {
            Some(place) => place.x == at.x && place.y == at.y,
            None => false,
        };
        if ecs.items.has(e) && lies_here {
            return Some(e);
        }
        e = e + 1;
    }
    None
}

/// Tries to step by `(dx, dy)`.
pub fn try_move_player(dx: i32, dy: i32, ecs: &mut World)
    requires
        old(ecs).wf(),
        old(ecs)@.player < old(ecs)@.count(),
    ensures
        final(ecs).wf(),
        final(ecs)@ == player_moved(old(ecs)@, dx, dy),
{
    let player = ecs.player;
    let at = match ecs.positions.get(player) {
        Some(at) => *at,
        None => {
            return ;
        },
    };
    let x: i64 = at.x as i64 + dx as i64;
    let y: i64 = at.y as i64 + dy as i64;
    if !(0 <= x && x < ecs.map.width as i64 && 0 <= y && y < ecs.map.height as i64) {
        return ;
    }
    proof {
        lemma_cell_index_in_grid(ecs@.map.width, ecs@.map.height, x as int, y as int);
    }
    assert(ecs.map.tiles.len() == ecs.map.tiles@.len());
    let tile = ecs.map.xy_idx(x as i32, y as i32);
    assert(ecs.map.tile_content[tile as int]@ == ecs@.map.tile_content[tile as int]);
    match find_fighter(ecs, &ecs.map.tile_content[tile]) {
        Some(target) => {
            ecs.wants_melee.insert(player, WantsToMelee { target });
            proof {
                lemma_side_tables_wf(old(ecs)@, ecs@);
            }
        },
        None => {
            if !ecs.map.blocked[tile] {
                let to = Position { x: x as i32, y: y as i32 };
                ecs.positions.insert(player, to);
                proof {
                    assert(old(ecs)@.positions[player as int] == Some(at));
                    lemma_step_wf(old(ecs)@, ecs@, player, to);
                }
            }
        },
    }
}

/// Reaches for what lies on the player's tile.
pub fn get_item(ecs: &mut World)
    requires
        old(ecs).wf(),
        old(ecs)@.player < old(ecs)@.count(),
    ensures
        final(ecs).wf(),
        final(ecs)@ == player_reached(old(ecs)@),
{
    let player = ecs.player;
    let at = match ecs.positions.get(player) {
        Some(at) => *at,
        None => {
            return ;
        },
    };
    match find_item_at(ecs, at) {
        Some(item) => {
            ecs.wants_pickup.insert(player, WantsToPickupItem { collected_by: player, item });
            proof {
                lemma_side_tables_wf(old(ecs)@, ecs@);
            }
        },
        None => {
            ecs.say(String::from_str("There is nothing here to pick up."));
        },
    }
}

/// Turns what the input handed over into what the player wants, and says
/// whose turn it is next.
pub fn player_input(ecs: &mut World, command: Option<Command>) -> (next: RunState)
    requires
        old(ecs).wf(),
    ensures
        final(ecs).wf(),
        final(ecs)@ == after_input(old(ecs)@, command),
        next == turn_after_input(old(ecs)@, command),
{
    let command = match command {
        Some(command) => command,
        None => {
            return RunState::AwaitingInput;
        },
    };
    let player = ecs.player;
    if player >= ecs.count() {
        return RunState::AwaitingInput;
    }
    match command {
        Command::Move { dx, dy } => {
            try_move_player(dx, dy, ecs);
        },
        Command::Pickup => {
            get_item(ecs);
        },
        Command::UseItem { item, target } => {
            ecs.wants_use.insert(player, WantsToUseItem { item, target });
            proof {
                lemma_side_tables_wf(old(ecs)@, ecs@);
            }
        },
        Command::DropItem { item } => {
            ecs.wants_drop.insert(player, WantsToDropItem { item });
            proof {
                lemma_side_tables_wf(old(ecs)@, ecs@);
            }
        },
        Command::Wait => {},
    }
    RunState::PlayerTurn
}

} // verus!
