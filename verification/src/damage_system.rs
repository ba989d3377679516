//! The pass that takes queued damage off hit points, and the sweep that
//! removes whoever has none left.
use vstd::prelude::*;
use crate::components::{CombatStats, Entity, EquipmentSlot, WantsToMelee};
use crate::melee_combat_system::{
    blow, lemma_blows_wait, lemma_melees_skip, lemma_melees_stopped, melee_fault, melees_upto,
    struck, with_no_melees,
};
use crate::storage::{emptied, lookup};
use crate::world::{clamp_hp, lemma_without_wf, Resolution, World, WorldView};

verus! {

/// The sum of the amounts.
pub open spec fn total(amounts: Seq<i32>) -> int
    decreases amounts.len(),
{
    if amounts.len() == 0 {
        0
    } else {
        total(amounts.drop_last()) + amounts.last()
    }
}

/// The statistics of a creature after everything in its queue was taken off
/// at once: hit points never fall below nothing.
pub open spec fn after_damage(stats: Option<CombatStats>, pending: Option<Seq<i32>>) -> Option<
    CombatStats,
> {
    match (stats, pending) {
        (Some(stats), Some(amounts)) => Some(
            CombatStats {
                hp: clamp_hp(stats.hp - total(amounts), stats.max_hp as int) as i32,
                ..stats
            },
        ),
        _ => stats,
    }
}

/// The world after every queue was taken off its creature's hit points and
/// emptied.
pub open spec fn damage_applied(w: WorldView) -> WorldView {
    WorldView {
        combat_stats: Seq::new(
            w.combat_stats.len(),
            |e: int| after_damage(w.combat_stats[e], w.suffer_damage[e]),
        ),
        suffer_damage: emptied(w.suffer_damage),
        ..w
    }
}

/// Applying damage keeps the world in order.
pub proof fn lemma_damage_applied_wf(w: WorldView)
    requires
        w.wf(),
    ensures
        damage_applied(w).wf(),
{
    let v = damage_applied(w);
    assert forall|e: int| 0 <= e < v.count() implies #[trigger] v.places(e) <= 1 by {
        assert(w.places(e) <= 1);
    }
    assert forall|a: int, b: int, o: Entity, s: EquipmentSlot|
        #[trigger] v.worn(a, o, s) && #[trigger] v.worn(b, o, s) implies a == b by {
        assert(w.worn(a, o, s) && w.worn(b, o, s));
    }
    assert forall|e: int| 0 <= e < v.count() implies match #[trigger] v.combat_stats[e] {
        Some(stats) => 0 <= stats.hp <= stats.max_hp,
        None => true,
    } by {
        assert(v.combat_stats[e] == after_damage(w.combat_stats[e], w.suffer_damage[e]));
        match w.combat_stats[e] {
            Some(stats) => {
                assert(0 <= stats.hp <= stats.max_hp);
            },
            None => {},
        }
    }
}

fn sum_of(amounts: &Vec<i32>) -> (sum: i128)
    ensures
        sum == total(amounts@),
        -0x8000_0000_0000_0000_0000_0000 <= sum <= 0x8000_0000_0000_0000_0000_0000,
{
    let mut sum: i128 = 0;
    let mut k: usize = 0;
    assert(amounts@.take(0) =~= Seq::<i32>::empty());
    while k < amounts.len()
        invariant
            k <= amounts@.len(),
            sum == total(amounts@.take(k as int)),
            -0x8000_0000 * k <= sum <= 0x8000_0000 * k,
        decreases amounts@.len() - k,
    {
        assert(amounts@.take(k + 1).drop_last() =~= amounts@.take(k as int));
        sum = sum + amounts[k] as i128;
        k = k + 1;
    }
    assert(amounts@.take(k as int) =~= amounts@);
    sum
}

/// The pass that applies queued damage.
pub struct DamageSystem {}

impl DamageSystem {
    /// Takes every queue off its creature's hit points, all of it at once,
    /// and empties the queues. Nobody is removed here, whatever is left.
    pub fn run(&mut self, ecs: &mut World)
        requires
            old(ecs).wf(),
        ensures
            final(ecs).wf(),
            final(ecs)@ == damage_applied(old(ecs)@),
    {
        let n = ecs.count();
        let mut e: usize = 0;
        while e < n
            invariant
                e <= n,
                n == old(ecs)@.count(),
                old(ecs).wf(),
                ecs@.combat_stats.len() == n,
                ecs@ == (WorldView { combat_stats: ecs@.combat_stats, ..old(ecs)@ }),
                forall|j: int|
                    0 <= j < e ==> ecs@.combat_stats[j] == after_damage(
                        old(ecs)@.combat_stats[j],
                        old(ecs)@.suffer_damage[j],
                    ),
                forall|j: int| e <= j < n ==> ecs@.combat_stats[j] == old(ecs)@.combat_stats[j],
            decreases n - e,
        {
            let found = match ecs.combat_stats.get(e) {
                Some(stats) => Some(*stats),
                None => None,
            };
            if let Some(stats) = found {
                let taken = match ecs.suffer_damage.get(e) {
                    Some(pending) => Some(sum_of(&pending.amount)),
                    None => None,
                };
                if let Some(sum) = taken {
                    assert(old(ecs)@.combat_stats[e as int] == Some(stats));
                    assert(0 <= stats.hp <= stats.max_hp);
                    let left: i128 = stats.hp as i128 - sum;
                    let hp: i32 = if left <= 0 {
                        0
                    } else if left >= stats.max_hp as i128 {
                        stats.max_hp
                    } else {
                        left as i32
                    };
                    ecs.combat_stats.insert(
                        e,
                        CombatStats {
                            max_hp: stats.max_hp,
                            hp,
                            defense: stats.defense,
                            power: stats.power,
                        },
                    );
                }
            }
            e = e + 1;
        }
        ecs.suffer_damage.clear();
        proof {
            assert(ecs@.combat_stats =~= damage_applied(old(ecs)@).combat_stats);
            assert(ecs@.suffer_damage =~= damage_applied(old(ecs)@).suffer_damage);
            lemma_damage_applied_wf(old(ecs)@);
        }
    }
}

/// Whether `e` has combat statistics and no hit points left.
pub open spec fn dead(w: WorldView, e: int) -> bool {
    match w.combat_stats[e] {
        Some(stats) => stats.hp <= 0,
        None => false,
    }
}

/// The world after the dead among the first `k` entities were removed.
pub open spec fn swept_upto(w: WorldView, k: nat) -> WorldView
    decreases k,
{
    if k == 0 {
        w
    } else {
        let before = swept_upto(w, (k - 1) as nat);
        if dead(before, k - 1) {
            before.without((k - 1) as Entity)
        } else {
            before
        }
    }
}

/// Where none of the first `k` entities is dead, the sweep removes nobody.
pub proof fn lemma_sweep_idle(w: WorldView, k: nat)
    requires
        forall|e: int| 0 <= e < k ==> !dead(w, e),
    ensures
        swept_upto(w, k) == w,
    decreases k,
{
    if k > 0 {
        lemma_sweep_idle(w, (k - 1) as nat);
    }
}

/// The sum of the blows that the first `k` entities deal to `victim`.
pub open spec fn blows_upto(w: WorldView, victim: Entity, k: nat) -> int
    decreases k,
{
    if k == 0 {
        0
    } else {
        blows_upto(w, victim, (k - 1) as nat) + (match w.wants_melee[k - 1] {
            Some(want) => if want.target == victim {
                blow(w, (k - 1) as Entity, want)
            } else {
                0
            },
            None => 0,
        })
    }
}

/// The blows go by the combat statistics and by who wants to strike whom:
/// worlds that agree on both have the same blows.
pub proof fn lemma_blows_same(a: WorldView, b: WorldView, victim: Entity, k: nat)
    requires
        a.combat_stats == b.combat_stats,
        a.wants_melee == b.wants_melee,
    ensures
        blows_upto(a, victim, k) == blows_upto(b, victim, k),
    decreases k,
{
    if k > 0 {
        lemma_blows_same(a, b, victim, (k - 1) as nat);
    }
}

/// One more amount at the end of a queue adds to its sum.
pub proof fn lemma_total_push(amounts: Seq<i32>, amount: i32)
    ensures
        total(amounts.push(amount)) == total(amounts) + amount,
{
    assert(amounts.push(amount).drop_last() =~= amounts);
}

/// Every blow waits in its defender's queue: where the pass of the blows
/// over the first `k` entities ends without a fault, what waits for
/// `victim` after it adds up to what waited before and the blows that
/// those entities deal to it.
pub proof fn lemma_blows_queue_up(w: WorldView, victim: Entity, k: nat)
    requires
        w.wf(),
        k <= w.count(),
        melees_upto(w, k).fault.is_none(),
    ensures
        melees_upto(w, k).world.aligned(),
        total(melees_upto(w, k).world.queue_of(victim)) == total(w.queue_of(victim)) + blows_upto(
            w,
            victim,
            k,
        ),
    decreases k,
{
    if k > 0 {
        let before = melees_upto(w, (k - 1) as nat);
        if before.fault.is_some() {
            lemma_melees_stopped(w, (k - 1) as nat, k);
        }
        lemma_blows_queue_up(w, victim, (k - 1) as nat);
        lemma_blows_wait(w, (k - 1) as nat);
        match before.world.wants_melee[k - 1] {
            Some(want) => {
                let attacker = (k - 1) as Entity;
                assert(melee_fault(before.world, attacker, want).is_none());
                assert(blow(before.world, attacker, want) == blow(w, attacker, want));
                let damage = blow(w, attacker, want);
                if damage > 0 {
                    assert(want.target < w.count());
                    let hurt = before.world.hurt(want.target, damage as i32);
                    lemma_total_push(before.world.queue_of(want.target), damage as i32);
                    assert(hurt.queue_of(want.target) == before.world.queue_of(want.target).push(
                        damage as i32,
                    ));
                    if want.target != victim {
                        assert(hurt.queue_of(victim) == before.world.queue_of(victim));
                    }
                }
            },
            None => {},
        }
    }
}

/// Damage adds up: where the pass of the blows ends without a fault, the
/// pass of the damage after it takes off the hit points of each creature
/// what waited for it before and every blow dealt to it, all at once, and
/// stops at nothing.
pub proof fn lemma_damage_adds_up(w: WorldView, victim: Entity)
    requires
        w.wf(),
        melees_upto(w, w.count()).fault.is_none(),
        lookup(w.combat_stats, victim).is_some(),
    ensures
        ({
            let stats = lookup(w.combat_stats, victim).unwrap();
            let taken = total(w.queue_of(victim)) + blows_upto(w, victim, w.count());
            let after = damage_applied(with_no_melees(melees_upto(w, w.count()).world));
            after.combat_stats[victim as int] == Some(
                CombatStats { hp: clamp_hp(stats.hp - taken, stats.max_hp as int) as i32, ..stats },
            )
        }),
{
    let n = w.count();
    lemma_blows_queue_up(w, victim, n);
    lemma_blows_wait(w, n);
    let fought = melees_upto(w, n).world;
    let stats = lookup(w.combat_stats, victim).unwrap();
    assert(w.combat_stats[victim as int] == Some(stats));
    assert(0 <= stats.hp <= stats.max_hp);
    let after = damage_applied(with_no_melees(fought));
    assert(after.combat_stats[victim as int] == after_damage(
        fought.combat_stats[victim as int],
        fought.suffer_damage[victim as int],
    ));
    if fought.suffer_damage[victim as int].is_none() {
        assert(fought.queue_of(victim) =~= Seq::<i32>::empty());
    }
}

/// Two blows at one defender in one turn count together: where `first` and
/// `second` are the only ones who want to attack, both attack `victim`, no
/// damage waits for `victim` yet and the pass of the blows ends without a
/// fault, the pass of the damage takes the sum of both blows off the
/// victim's hit points, stopping at nothing, and the victim is dead after
/// it exactly if the sum is no less than the hit points it had.
pub proof fn lemma_blows_stack(w: WorldView, first: Entity, second: Entity, victim: Entity)
    requires
        w.wf(),
        first < second < w.count(),
        w.wants_melee[first as int] == Some(WantsToMelee { target: victim }),
        w.wants_melee[second as int] == Some(WantsToMelee { target: victim }),
        forall|e: int|
            0 <= e < w.count() && e != first && e != second ==> (#[trigger] w.wants_melee[e]).is_none(),
        lookup(w.suffer_damage, victim).is_none(),
        melees_upto(w, w.count()).fault.is_none(),
    ensures
        lookup(w.combat_stats, victim).is_some(),
        ({
            let want = WantsToMelee { target: victim };
            let stats = lookup(w.combat_stats, victim).unwrap();
            let blows = blow(w, first, want) + blow(w, second, want);
            let after = damage_applied(with_no_melees(melees_upto(w, w.count()).world));
            &&& after.combat_stats[victim as int] == Some(
                CombatStats { hp: clamp_hp(stats.hp - blows, stats.max_hp as int) as i32, ..stats },
            )
            &&& dead(after, victim as int) <==> stats.hp - blows <= 0
        }),
{
    let n = w.count();
    let want = WantsToMelee { target: victim };
    lemma_melees_skip(w, w, 0, first as nat);
    if melee_fault(w, first, want).is_some() {
        lemma_melees_stopped(w, (first + 1) as nat, n);
    }
    let w1 = struck(w, first, want);
    assert(melees_upto(w, (first + 1) as nat) == (Resolution { world: w1, fault: None }));
    lemma_melees_skip(w, w1, (first + 1) as nat, second as nat);
    if melee_fault(w1, second, want).is_some() {
        lemma_melees_stopped(w, (second + 1) as nat, n);
    }
    let w2 = struck(w1, second, want);
    assert(melees_upto(w, (second + 1) as nat) == (Resolution { world: w2, fault: None }));
    lemma_melees_skip(w, w2, (second + 1) as nat, n);
    assert(melees_upto(w, n).world == w2);
    let stats = lookup(w.combat_stats, victim).unwrap();
    assert(w.combat_stats[victim as int] == Some(stats));
    assert(0 <= stats.hp <= stats.max_hp);
    let b1 = blow(w, first, want);
    let b2 = blow(w, second, want);
    assert(blow(w1, second, want) == b2);
    let after = damage_applied(with_no_melees(w2));
    assert(after.combat_stats[victim as int] == after_damage(
        w2.combat_stats[victim as int],
        w2.suffer_damage[victim as int],
    ));
    reveal_with_fuel(total, 3);
    let none = Seq::<i32>::empty();
    if b1 > 0 {
        assert(w1.suffer_damage[victim as int] == Some(none.push(b1 as i32)));
        assert(none.push(b1 as i32).drop_last() =~= none);
        if b2 > 0 {
            let both = none.push(b1 as i32).push(b2 as i32);
            assert(w2.suffer_damage[victim as int] == Some(both));
            assert(both.drop_last() =~= none.push(b1 as i32));
            assert(total(both) == b1 + b2);
        } else {
            assert(total(none.push(b1 as i32)) == b1);
        }
    } else {
        if b2 > 0 {
            assert(w2.suffer_damage[victim as int] == Some(none.push(b2 as i32)));
            assert(none.push(b2 as i32).drop_last() =~= none);
            assert(total(none.push(b2 as i32)) == b2);
        } else {
            assert(w2.suffer_damage[victim as int].is_none());
        }
    }
}

/// The sweep keeps the world in order.
pub proof fn lemma_swept_wf(w: WorldView, k: nat)
    requires
        w.wf(),
        k <= w.count(),
    ensures
        swept_upto(w, k).wf(),
        swept_upto(w, k).count() == w.count(),
    decreases k,
{
    if k > 0 {
        lemma_swept_wf(w, (k - 1) as nat);
        let before = swept_upto(w, (k - 1) as nat);
        if dead(before, k - 1) {
            lemma_without_wf(before, (k - 1) as Entity);
        }
    }
}

/// What the sweep over the first `k` entities makes of `e`: gone if it was
/// among them and dead, and otherwise left with all it had.
pub open spec fn swept_row(w: WorldView, k: nat, e: int) -> bool {
    if e < k && dead(w, e) {
        swept_upto(w, k).gone(e)
    } else {
        swept_upto(w, k).same_row(w, e)
    }
}

/// The sweep removes exactly the dead: each of the first `k` entities that
/// has no hit points left loses every attribute, and everybody else keeps
/// all of theirs.
pub proof fn lemma_sweep_removes_the_dead(w: WorldView, k: nat)
    requires
        w.aligned(),
        k <= w.count() <= usize::MAX,
    ensures
        swept_upto(w, k).aligned(),
        swept_upto(w, k).count() == w.count(),
        forall|e: int| 0 <= e < w.count() ==> #[trigger] swept_row(w, k, e),
    decreases k,
{
    if k > 0 {
        lemma_sweep_removes_the_dead(w, (k - 1) as nat);
        let before = swept_upto(w, (k - 1) as nat);
        assert(swept_row(w, (k - 1) as nat, k - 1));
        assert(dead(before, k - 1) == dead(w, k - 1));
        assert forall|e: int| 0 <= e < w.count() implies #[trigger] swept_row(w, k, e) by {
            assert(swept_row(w, (k - 1) as nat, e));
        }
    }
}

/// After the whole sweep nobody is dead.
pub proof fn lemma_nobody_dead_after_sweep(w: WorldView)
    requires
        w.aligned(),
        w.count() <= usize::MAX,
    ensures
        forall|e: int| 0 <= e < w.count() ==> !dead(swept_upto(w, w.count()), e),
{
    lemma_sweep_removes_the_dead(w, w.count());
    assert forall|e: int| 0 <= e < w.count() implies !dead(swept_upto(w, w.count()), e) by {
        assert(swept_row(w, w.count(), e));
    }
}

/// Removes every entity that has no hit points left.
pub fn delete_the_dead(ecs: &mut World)
    requires
        old(ecs).wf(),
    ensures
        final(ecs).wf(),
        final(ecs)@ == swept_upto(old(ecs)@, old(ecs)@.count()),
{
    let n = ecs.count();
    let mut e: usize = 0;
    while e < n
        invariant
            e <= n,
            n == old(ecs)@.count(),
            n == ecs@.count(),
            ecs.wf(),
            ecs@ == swept_upto(old(ecs)@, e as nat),
        decreases n - e,
    {
        let gone = match ecs.combat_stats.get(e) {
            Some(stats) => stats.hp <= 0,
            None => false,
        };
        if gone {
            ecs.delete_entity(e);
        }
        e = e + 1;
    }
}

} // verus!
