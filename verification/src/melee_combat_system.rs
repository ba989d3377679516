//! The pass that turns wishes to attack into queued damage.
use vstd::prelude::*;
use crate::components::{Entity, TurnError, WantsToMelee};
use crate::gamelog::{melee_line, write_melee};
use crate::storage::{emptied, lookup};
use crate::world::{lemma_side_tables_wf, Resolution, World, WorldView};

verus! {

/// What a blow takes off: the attacker's power less the defender's defense,
/// never less than nothing, and never more than one entry of a damage queue
/// can hold.
pub open spec fn melee_damage(power: int, defense: int) -> int {
    if power - defense <= 0 {
        0
    } else if power - defense >= i32::MAX {
        i32::MAX as int
    } else {
        power - defense
    }
}

/// The damage of the blow that `attacker` deals to the target of `want`.
pub open spec fn blow(w: WorldView, attacker: Entity, want: WantsToMelee) -> int {
    melee_damage(
        lookup(w.combat_stats, attacker).unwrap().power as int,
        lookup(w.combat_stats, want.target).unwrap().defense as int,
    )
}

/// Whether the log tells of a blow between the two: it does where the player
/// is one of them.
pub open spec fn told(w: WorldView, attacker: Entity, want: WantsToMelee) -> bool {
    attacker == w.player || want.target == w.player
}

/// What is wrong with a wish to attack, if anything: both sides have to
/// have combat statistics, and both have to have a name where the log tells
/// of a blow that hurts.
pub open spec fn melee_fault(w: WorldView, attacker: Entity, want: WantsToMelee) -> Option<TurnError> {
    if lookup(w.combat_stats, attacker).is_none() {
        Some(TurnError::MissingStats(attacker))
    } else if lookup(w.combat_stats, want.target).is_none() {
        Some(TurnError::MissingStats(want.target))
    } else if blow(w, attacker, want) > 0 && told(w, attacker, want) && w.nameless(attacker) {
        Some(TurnError::MissingName(attacker))
    } else if blow(w, attacker, want) > 0 && told(w, attacker, want) && w.nameless(want.target) {
        Some(TurnError::MissingName(want.target))
    } else {
        None
    }
}

/// The world after the blow: its damage waits in the defender's queue, where
/// there is any.
pub open spec fn struck(w: WorldView, attacker: Entity, want: WantsToMelee) -> WorldView {
    if blow(w, attacker, want) > 0 {
        w.hurt(want.target, blow(w, attacker, want) as i32).say_if(
            told(w, attacker, want),
            melee_line(w.name_of(attacker), w.name_of(want.target), blow(w, attacker, want)),
        )
    } else {
        w
    }
}

/// The pass over the first `k` entities.
pub open spec fn melees_upto(w: WorldView, k: nat) -> Resolution
    decreases k,
{
    if k == 0 {
        Resolution { world: w, fault: None }
    } else {
        let before = melees_upto(w, (k - 1) as nat);
        if before.fault.is_some() {
            before
        } else {
            match before.world.wants_melee[k - 1] {
                None => before,
                Some(want) => match melee_fault(before.world, (k - 1) as Entity, want) {
                    Some(fault) => Resolution { world: before.world, fault: Some(fault) },
                    None => Resolution {
                        world: struck(before.world, (k - 1) as Entity, want),
                        fault: None,
                    },
                },
            }
        }
    }
}

/// The world after every wish to attack was forgotten.
pub open spec fn with_no_melees(w: WorldView) -> WorldView {
    WorldView { wants_melee: emptied(w.wants_melee), ..w }
}

/// A pass that has stopped stays where it stopped.
pub proof fn lemma_melees_stopped(w: WorldView, k: nat, m: nat)
    requires
        k <= m,
        melees_upto(w, k).fault.is_some(),
    ensures
        melees_upto(w, m) == melees_upto(w, k),
    decreases m,
{
    if k < m {
        lemma_melees_stopped(w, k, (m - 1) as nat);
    }
}

/// Entities that want no fight are passed over: where the pass over the
/// first `k` entities left the world `at`, and none of the entities from
/// `k` up to `m` wants to attack, the pass over the first `m` left it there
/// too.
pub proof fn lemma_melees_skip(w: WorldView, at: WorldView, k: nat, m: nat)
    requires
        k <= m,
        melees_upto(w, k) == (Resolution { world: at, fault: None }),
        forall|e: int| k <= e < m ==> (#[trigger] at.wants_melee[e]).is_none(),
    ensures
        melees_upto(w, m) == (Resolution { world: at, fault: None }),
    decreases m,
{
    if k < m {
        lemma_melees_skip(w, at, k, (m - 1) as nat);
    }
}

/// Blows wait: the pass over the first `k` entities changes nothing but the
/// damage queues and the log. Hit points are what they were.
pub proof fn lemma_blows_wait(w: WorldView, k: nat)
    ensures
        melees_upto(w, k).world == (WorldView {
            suffer_damage: melees_upto(w, k).world.suffer_damage,
            log: melees_upto(w, k).world.log,
            ..w
        }),
    decreases k,
{
    if k > 0 {
        lemma_blows_wait(w, (k - 1) as nat);
    }
}

/// The pass of the blows keeps the world in order, as far as it gets.
pub proof fn lemma_melees_wf(w: WorldView, k: nat)
    requires
        w.wf(),
        k <= w.count(),
    ensures
        melees_upto(w, k).world.wf(),
        melees_upto(w, k).world.count() == w.count(),
    decreases k,
{
    if k > 0 {
        lemma_melees_wf(w, (k - 1) as nat);
        let before = melees_upto(w, (k - 1) as nat);
        if before.fault.is_none() {
            match before.world.wants_melee[k - 1] {
                Some(want) => {
                    if melee_fault(before.world, (k - 1) as Entity, want).is_none() {
                        let amount = blow(before.world, (k - 1) as Entity, want);
                        if amount > 0 {
                            let hurt = before.world.hurt(want.target, amount as i32);
                            lemma_side_tables_wf(before.world, hurt);
                            lemma_side_tables_wf(hurt, struck(before.world, (k - 1) as Entity, want));
                        }
                    }
                },
                None => {},
            }
        }
    }
}

/// The pass that resolves wishes to attack.
pub struct MeleeCombatSystem {}

impl MeleeCombatSystem {
    /// Resolves every wish to attack, then forgets them all. Hit points do
    /// not change here: the damage waits in the queues.
    pub fn run(&mut self, ecs: &mut World) -> (r: Result<(), TurnError>)
        requires
            old(ecs).wf(),
        ensures
            final(ecs).wf(),
            ({
                let end = melees_upto(old(ecs)@, old(ecs)@.count());
                match r {
                    Ok(()) => end.fault.is_none() && final(ecs)@ == with_no_melees(end.world),
                    Err(fault) => end.fault == Some(fault) && final(ecs)@ == end.world,
                }
            }),
    {
        let n = ecs.count();
        let mut e: usize = 0;
        while e < n
            invariant
                e <= n,
                n == old(ecs)@.count(),
                n == ecs@.count(),
                ecs.wf(),
                melees_upto(old(ecs)@, e as nat) == (Resolution { world: ecs@, fault: None }),
            decreases n - e,
        {
            let wish = match ecs.wants_melee.get(e) {
                Some(want) => Some(*want),
                None => None,
            };
            if let Some(want) = wish {
                let power = match ecs.combat_stats.get(e) {
                    Some(stats) => stats.power,
                    None => {
                        proof {
                            lemma_melees_stopped(old(ecs)@, (e + 1) as nat, n as nat);
                        }
                        return Err(TurnError::MissingStats(e));
                    },
                };
                let defense = match ecs.combat_stats.get(want.target) {
                    Some(stats) => stats.defense,
                    None => {
                        proof {
                            lemma_melees_stopped(old(ecs)@, (e + 1) as nat, n as nat);
                        }
                        return Err(TurnError::MissingStats(want.target));
                    },
                };
                let gap: i64 = power as i64 - defense as i64;
                let damage: i32 = if gap <= 0 {
                    0
                } else if gap >= i32::MAX as i64 {
                    i32::MAX
                } else {
                    gap as i32
                };
                assert(damage == blow(ecs@, e, want));
                if damage > 0 {
                    if e == ecs.player || want.target == ecs.player {
                        if !ecs.names.has(e) {
                            proof {
                                lemma_melees_stopped(old(ecs)@, (e + 1) as nat, n as nat);
                            }
                            return Err(TurnError::MissingName(e));
                        }
                        if !ecs.names.has(want.target) {
                            proof {
                                lemma_melees_stopped(old(ecs)@, (e + 1) as nat, n as nat);
                            }
                            return Err(TurnError::MissingName(want.target));
                        }
                        let line = write_melee(ecs.name_text(e), ecs.name_text(want.target), damage);
                        ecs.hurt(want.target, damage);
                        ecs.say(line);
                    } else {
                        ecs.hurt(want.target, damage);
                    }
                }
            }
            e = e + 1;
        }
        let ghost resolved = ecs@;
        ecs.wants_melee.clear();
        proof {
            lemma_side_tables_wf(resolved, ecs@);
        }
        Ok(())
    }
}

} // verus!
