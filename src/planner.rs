use vstd::prelude::*;

use crate::food::{
    consumable, consumed_one, consumable_food, key_of, lemma_positions, listed_food, positions, Food,
    FoodStateManager,
};
use crate::names::{craving_listed, key_in, lemma_folded_match, name_keys};

verus! {

/// Calories of one food that must be eaten for it to count toward variety.
pub const VARIETY_CAL_THRESHOLD: u64 = 2000;

/// Most bites one planning run takes.
pub const MAX_ITERATIONS: usize = 100;

/// `quantity` units of a food of `calories` each reach the variety threshold.
pub open spec fn variety_qualifying(calories: u32, quantity: u32) -> bool {
    calories * quantity >= VARIETY_CAL_THRESHOLD
}

/// Whether `quantity` units of a food with `calories_per_unit` each count
/// toward variety.
pub fn is_variety_qualifying(calories_per_unit: u32, quantity: u32) -> (r: bool)
    ensures
        r == variety_qualifying(calories_per_unit, quantity),
{
    let c = calories_per_unit as u64;
    let q = quantity as u64;
    assert(c * q <= 0xffff_ffff_ffff_ffffu64) by (nonlinear_arith)
        requires
            c <= 0xffff_ffffu64,
            q <= 0xffff_ffffu64,
    ;
    c * q >= VARIETY_CAL_THRESHOLD
}

/// One bite of a plan: the food's position in the catalog, its name and
/// calories, whether it satisfied a craving, and what the caller's observer
/// saw of the catalog just before the food was chosen and just after it was
/// eaten.
#[derive(Debug, Clone)]
pub struct PlanStep<S> {
    pub food_index: usize,
    pub food_name: String,
    pub calories: u32,
    pub is_craving: bool,
    pub before: S,
    pub after: S,
}

/// Calories of all bites of a plan.
pub open spec fn plan_calories<S>(steps: Seq<PlanStep<S>>) -> int
    decreases steps.len(),
{
    if steps.len() == 0 {
        0
    } else {
        plan_calories(steps.drop_last()) + steps.last().calories
    }
}

/// How many bites of a plan took the food at position `i`.
pub open spec fn times_chosen<S>(steps: Seq<PlanStep<S>>, i: int) -> int
    decreases steps.len(),
{
    if steps.len() == 0 {
        0
    } else {
        times_chosen(steps.drop_last(), i) + if steps.last().food_index == i {
            1int
        } else {
            0
        }
    }
}

/// Some food that can be taken matches a craving.
pub open spec fn craving_on_offer<A>(s: Seq<Food<A>>, cravings: Seq<String>) -> bool {
    exists|i: int| 0 <= i < s.len() && consumable(#[trigger] s[i]) && craving_listed(s[i].name@, cravings)
}

/// Some food can be taken.
pub open spec fn any_consumable<A>(s: Seq<Food<A>>) -> bool {
    exists|i: int| 0 <= i < s.len() && consumable(#[trigger] s[i])
}

/// Every food that can be taken costs more than `budget` calories.
pub open spec fn costs_exceed<A>(s: Seq<Food<A>>, budget: int) -> bool {
    forall|i: int| 0 <= i < s.len() && consumable(#[trigger] s[i]) ==> s[i].calories > budget
}

/// Some food that can be taken costs more than `room` calories.
pub open spec fn too_dear_on_offer<A>(s: Seq<Food<A>>, room: int) -> bool {
    exists|i: int| 0 <= i < s.len() && consumable(#[trigger] s[i]) && s[i].calories > room
}

/// Whenever `chooser` is offered a non-empty list, it answers with a
/// position in that list.
pub open spec fn answers_in_range<A, C: Fn(&FoodStateManager<A>, &[usize], bool) -> Option<usize>>(chooser: C) -> bool {
    forall|m: &FoodStateManager<A>, c: &[usize], b: bool, r: Option<usize>|
        #[trigger] chooser.ensures((m, c, b), r) && c@.len() > 0 ==> (r matches Some(p) && p < c@.len())
}

/// Some bite of the plan did not satisfy a craving.
pub open spec fn skips_cravings<S>(steps: Seq<PlanStep<S>>) -> bool {
    exists|k: int| 0 <= k < steps.len() && !(#[trigger] steps[k]).is_craving
}

/// The catalog `now` is `start` after the bites of `steps`.
pub open spec fn eaten_as_planned<A, S>(start: Seq<Food<A>>, now: Seq<Food<A>>, steps: Seq<PlanStep<S>>) -> bool {
    &&& now.len() == start.len()
    &&& forall|i: int|
        0 <= i < start.len() ==> #[trigger] now[i] == (Food {
            stomach: (start[i].stomach + times_chosen(steps, i)) as u32,
            available: (start[i].available - times_chosen(steps, i)) as u32,
            ..start[i]
        })
}

/// Each bite names a food of `start`, with its name and calories, and says
/// whether that food matches a craving.
pub open spec fn steps_describe<A, S>(start: Seq<Food<A>>, steps: Seq<PlanStep<S>>, cravings: Seq<String>) -> bool {
    forall|k: int|
        #![trigger steps[k]]
        0 <= k < steps.len() ==> {
            &&& steps[k].food_index < start.len()
            &&& steps[k].food_name == start[steps[k].food_index as int].name
            &&& steps[k].calories == start[steps[k].food_index as int].calories
            &&& steps[k].is_craving == craving_listed(start[steps[k].food_index as int].name@, cravings)
        }
}

proof fn lemma_push_step<S>(steps: Seq<PlanStep<S>>, s: PlanStep<S>)
    ensures
        steps.push(s).drop_last() == steps,
        plan_calories(steps.push(s)) == plan_calories(steps) + s.calories,
        forall|i: int|
            #[trigger] times_chosen(steps.push(s), i) == times_chosen(steps, i) + if s.food_index == i {
                1int
            } else {
                0
            },
{
    assert(steps.push(s).drop_last() =~= steps);
}

/// Taking a unit never puts a food back on offer.
proof fn lemma_offer_shrinks<A>(old: Seq<Food<A>>, new: Seq<Food<A>>, i: int, cravings: Seq<String>)
    requires
        consumed_one(old, new, i),
        consumable(old[i]),
        !craving_on_offer(old, cravings),
    ensures
        !craving_on_offer(new, cravings),
{
    assert forall|j: int| 0 <= j < new.len() && consumable(#[trigger] new[j]) implies !craving_listed(
        new[j].name@,
        cravings,
    ) by {
        if j != i {
            assert(new[j] == old[j]);
        } else {
            assert(new[j].name == old[j].name);
            assert(consumable(old[j]));
        }
    }
}

/// Greedily plan bites until the calorie `budget` is spent.
///
/// Each round, while budget remains and some food can be taken, the foods
/// that match a craving and can be taken are offered to `chooser` (with
/// `true`); when there are none, every food that can be taken is offered
/// (with `false`). `chooser` answers with a position in the list it was
/// given. The first bite is taken even if it costs more than the budget; a
/// later bite that does not fit ends the plan, as does an answer of `None`
/// or a position outside the list. At most `MAX_ITERATIONS` rounds are run.
/// `observe` is called on the catalog before each choice and after each bite,
/// and what it returns is kept in the step.
pub fn generate_plan<A, S, C, O>(
    manager: &mut FoodStateManager<A>,
    cravings: &[String],
    budget: i64,
    chooser: C,
    observe: O,
) -> (plan: Vec<PlanStep<S>>) where
    C: Fn(&FoodStateManager<A>, &[usize], bool) -> Option<usize>,
    O: Fn(&FoodStateManager<A>) -> S,

    requires
        old(manager).wf(),
        forall|m: &FoodStateManager<A>, c: &[usize], b: bool| #[trigger] chooser.requires((m, c, b)),
        forall|m: &FoodStateManager<A>| #[trigger] observe.requires((m,)),
    ensures
        final(manager).wf(),
        plan@.len() <= MAX_ITERATIONS,
        budget <= 0 ==> plan@.len() == 0,
        eaten_as_planned(old(manager)@, final(manager)@, plan@),
        steps_describe(old(manager)@, plan@, cravings@),
        forall|i: int|
            0 <= i < old(manager)@.len() ==> 0 <= #[trigger] times_chosen(plan@, i) <= old(manager)@[i].available
                && old(manager)@[i].stomach + times_chosen(plan@, i) <= u32::MAX,
        plan@.len() >= 2 ==> plan_calories(plan@) <= budget,
        plan@.len() > 0 ==> consumable(old(manager)@[plan@[0].food_index as int]),
        plan@.len() > 0 && craving_on_offer(old(manager)@, cravings@) ==> plan@[0].is_craving,
        skips_cravings(plan@) ==> !craving_on_offer(final(manager)@, cravings@),
        costs_exceed(old(manager)@, budget as int) ==> plan@.len() <= 1,
        answers_in_range(chooser) && budget > 0 && any_consumable(old(manager)@) ==> plan@.len() >= 1,
        answers_in_range(chooser) && plan@.len() < MAX_ITERATIONS ==> plan_calories(plan@) >= budget || !any_consumable(final(manager)@)
            || too_dear_on_offer(final(manager)@, budget - plan_calories(plan@)),
{
    let ghost start = manager@;
    let ghost valid_chooser = answers_in_range(chooser);
    let ghost too_dear = costs_exceed(start, budget as int);
    let keys = name_keys(cravings);
    let mut plan: Vec<PlanStep<S>> = Vec::new();
    let mut remaining: i64 = budget;
    let mut iter: usize = 0;
    let mut done = false;
    while iter < MAX_ITERATIONS && !done
        invariant
            manager.wf(),
            start == old(manager)@,
            valid_chooser == answers_in_range(chooser),
            too_dear == costs_exceed(start, budget as int),
            forall|m: &FoodStateManager<A>, c: &[usize], b: bool| #[trigger] chooser.requires((m, c, b)),
            forall|m: &FoodStateManager<A>| #[trigger] observe.requires((m,)),
            keys@.len() == cravings@.len(),
            forall|i: int| 0 <= i < cravings@.len() ==> #[trigger] keys@[i]@ == crate::names::lower_of(cravings@[i]@),
            0 <= iter <= MAX_ITERATIONS,
            plan@.len() <= iter,
            iter == 0 ==> manager@ == start && plan@.len() == 0 && !done,
            budget <= 0 ==> plan@.len() == 0,
            remaining == budget - plan_calories(plan@),
            plan@.len() == 0 ==> remaining == budget && manager@ == start,
            plan@.len() > 0 ==> remaining > -0x1_0000_0000i64,
            plan@.len() >= 2 ==> remaining >= 0,
            plan@.len() >= 1 ==> remaining <= budget - plan@[0].calories,
            eaten_as_planned(start, manager@, plan@),
            steps_describe(start, plan@, cravings@),
            forall|i: int|
                0 <= i < start.len() ==> 0 <= #[trigger] times_chosen(plan@, i) <= start[i].available
                    && start[i].stomach + times_chosen(plan@, i) <= u32::MAX,
            plan@.len() > 0 ==> consumable(start[plan@[0].food_index as int]),
            plan@.len() > 0 && craving_on_offer(start, cravings@) ==> plan@[0].is_craving,
            skips_cravings(plan@) ==> !craving_on_offer(manager@, cravings@),
            too_dear ==> plan@.len() <= 1,
            valid_chooser && budget > 0 && any_consumable(start) && iter >= 1 ==> plan@.len() >= 1,
            !done ==> plan@.len() == iter,
            done && valid_chooser ==> remaining <= 0 || !any_consumable(manager@) || too_dear_on_offer(
                manager@,
                remaining as int,
            ),
        decreases MAX_ITERATIONS - iter,
    {
        if remaining <= 0 {
            done = true;
        } else {
            proof {
                if too_dear && plan@.len() > 0 {
                    let i0 = plan@[0].food_index as int;
                    assert(consumable(start[i0]));
                    assert(plan@[0].calories == start[i0].calories);
                    assert(false);
                }
            }
            let open = manager.consumable_indices();
            if open.len() == 0 {
                proof {
                    if any_consumable(manager@) {
                        let i = choose|i: int| 0 <= i < manager@.len() && consumable(#[trigger] manager@[i]);
                        lemma_positions(manager@, consumable_food());
                        assert(positions(manager@, consumable_food()).contains(i));
                    }
                }
                done = true;
            } else {
                let before = observe(&*manager);
                let wanted = manager.listed_indices(keys.as_slice());
                let from_cravings = wanted.len() > 0;
                let list = if from_cravings {
                    wanted
                } else {
                    open
                };
                proof {
                    lemma_positions(manager@, consumable_food());
                    lemma_positions(manager@, listed_food(keys@));
                }
                let pick = chooser(&*manager, list.as_slice(), from_cravings);
                let chosen: Option<usize> = match pick {
                    Some(p) => if p < list.len() {
                        Some(list[p])
                    } else {
                        None
                    },
                    None => None,
                };
                proof {
                    if valid_chooser {
                        assert(list@.len() > 0);
                        assert(pick matches Some(p) && p < list@.len());
                    }
                }
                match chosen {
                    None => {
                        done = true;
                    },
                    Some(idx) => {
                        let ghost k = choose|k: int| 0 <= k < list@.len() && list@[k] == idx;
                        let ghost now = manager@;
                        proof {
                            if from_cravings {
                                assert(list@[k] as int == positions(now, listed_food(keys@))[k]);
                            } else {
                                assert(list@[k] as int == positions(now, consumable_food())[k]);
                            }
                            assert(idx < now.len());
                            assert(consumable(now[idx as int]));
                            assert(times_chosen(plan@, idx as int) <= start[idx as int].available);
                            assert(start[idx as int].stomach + times_chosen(plan@, idx as int) <= u32::MAX);
                            assert(now[idx as int].stomach == start[idx as int].stomach + times_chosen(plan@, idx as int));
                            assert(now[idx as int].available == start[idx as int].available - times_chosen(plan@, idx as int));
                        }
                        let cal = manager.food_at(idx).calories;
                        if cal as i64 > remaining && plan.len() > 0 {
                            proof {
                                assert(0 <= idx < manager@.len() && consumable(manager@[idx as int])
                                    && manager@[idx as int].calories > remaining);
                            }
                            done = true;
                        } else {
                            let food_name = manager.food_at(idx).name.clone();
                            let key = manager.food_at(idx).key();
                            let is_craving = key_in(key.as_str(), keys.as_slice());
                            proof {
                                lemma_folded_match(keys@, cravings@, now[idx as int].name@);
                            }
                            manager.consume_at(idx);
                            let after = observe(&*manager);
                            let step = PlanStep {
                                food_index: idx,
                                food_name,
                                calories: cal,
                                is_craving,
                                before,
                                after,
                            };
                            let ghost prev = plan@;
                            plan.push(step);
                            remaining = remaining - cal as i64;
                            proof {
                                lemma_push_step(prev, step);
                                assert(plan@ == prev.push(step));
                                assert(now[idx as int] == (Food {
                                    stomach: (start[idx as int].stomach + times_chosen(prev, idx as int)) as u32,
                                    available: (start[idx as int].available - times_chosen(prev, idx as int)) as u32,
                                    ..start[idx as int]
                                }));
                                assert forall|i: int| 0 <= i < start.len() implies 0 <= #[trigger] times_chosen(plan@, i)
                                    <= start[i].available && start[i].stomach + times_chosen(plan@, i) <= u32::MAX by {
                                    assert(times_chosen(plan@, i) == times_chosen(prev, i) + if idx == i {
                                        1int
                                    } else {
                                        0
                                    });
                                }
                                assert forall|i: int| 0 <= i < start.len() implies #[trigger] manager@[i] == (Food {
                                    stomach: (start[i].stomach + times_chosen(plan@, i)) as u32,
                                    available: (start[i].available - times_chosen(plan@, i)) as u32,
                                    ..start[i]
                                }) by {
                                    assert(times_chosen(plan@, i) == times_chosen(prev, i) + if idx == i {
                                        1int
                                    } else {
                                        0
                                    });
                                    if i != idx {
                                        assert(manager@[i] == now[i]);
                                    } else {
                                        assert(times_chosen(plan@, i) == times_chosen(prev, i) + 1);
                                        assert(manager@[i].stomach == now[i].stomach + 1);
                                        assert(manager@[i].available == now[i].available - 1);
                                        assert(manager@[i].name == start[i].name);
                                        assert(manager@[i].calories == start[i].calories);
                                        assert(manager@[i].nutrients == start[i].nutrients);
                                        assert(manager@[i].tastiness == start[i].tastiness);
                                    }
                                }
                                assert forall|k2: int| #![trigger plan@[k2]] 0 <= k2 < plan@.len() implies {
                                    &&& plan@[k2].food_index < start.len()
                                    &&& plan@[k2].food_name == start[plan@[k2].food_index as int].name
                                    &&& plan@[k2].calories == start[plan@[k2].food_index as int].calories
                                    &&& plan@[k2].is_craving == craving_listed(
                                        start[plan@[k2].food_index as int].name@,
                                        cravings@,
                                    )
                                } by {
                                    if k2 < prev.len() {
                                        assert(plan@[k2] == prev[k2]);
                                    } else {
                                        assert(now[idx as int].name == start[idx as int].name);
                                    }
                                }
                                if from_cravings {
                                    assert(is_craving);
                                } else if craving_on_offer(now, cravings@) {
                                    let i = choose|i: int|
                                        0 <= i < now.len() && consumable(#[trigger] now[i]) && craving_listed(
                                            now[i].name@,
                                            cravings@,
                                        );
                                    lemma_folded_match(keys@, cravings@, now[i].name@);
                                    assert(positions(now, listed_food(keys@)).contains(i));
                                }
                                if skips_cravings(plan@) {
                                    if skips_cravings(prev) {
                                        let k3 = choose|k3: int| 0 <= k3 < prev.len() && !(#[trigger] prev[k3]).is_craving;
                                        assert(plan@[k3] == prev[k3]);
                                    } else {
                                        assert(!is_craving) by {
                                            if is_craving {
                                                assert forall|k3: int| 0 <= k3 < plan@.len() implies (#[trigger] plan@[k3]).is_craving by {
                                                    if k3 < prev.len() {
                                                        assert(plan@[k3] == prev[k3]);
                                                    }
                                                }
                                            }
                                        }
                                    }
                                    lemma_offer_shrinks(now, manager@, idx as int, cravings@);
                                }
                                if prev.len() > 0 {
                                    assert(plan@[0] == prev[0]);
                                } else {
                                    assert(plan@[0] == step);
                                    assert(now == start);
                                }
                            }
                        }
                    },
                }
            }
        }
        iter = iter + 1;
    }
    plan
}

} // verus!
