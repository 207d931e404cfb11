use eco_diet_maker::food::{Food, FoodStateManager};
use eco_diet_maker::planner::{
    generate_plan, is_variety_qualifying, PlanStep, MAX_ITERATIONS, VARIETY_CAL_THRESHOLD,
};

type Nutrients = [f64; 4];

fn food(name: &str, calories: u32, n: Nutrients, tastiness: i8, available: u32) -> Food<Nutrients> {
    Food::new(name.to_string(), calories, n, tastiness, 0, available)
}

/// The three-food catalog: an apple, bread and cheese.
fn sample_foods() -> Vec<Food<Nutrients>> {
    vec![
        food("Apple", 100, [20.0, 1.0, 0.5, 5.0], 2, 50),
        food("Bread", 500, [40.0, 8.0, 2.0, 1.0], 1, 10),
        food("Cheese", 300, [1.0, 20.0, 25.0, 2.0], 3, 8),
    ]
}

/// The four-food catalog of the smoke tests.
fn smoke_foods() -> Vec<Food<Nutrients>> {
    vec![
        food("High Protein", 400, [5.0, 30.0, 10.0, 2.0], 2, 20),
        food("High Carb", 500, [50.0, 5.0, 5.0, 3.0], 1, 20),
        food("Balanced", 450, [15.0, 15.0, 15.0, 10.0], 3, 20),
        food("Low Cal Snack", 100, [10.0, 2.0, 1.0, 5.0], 2, 50),
    ]
}

/// A simple stand-in for the scorer: the densest offered food (most
/// nutrients per calorie), the first of equals.
fn densest(m: &FoodStateManager<Nutrients>, offered: &[usize], _cravings_only: bool) -> Option<usize> {
    let mut best: Option<(usize, f64)> = None;
    for (pos, &i) in offered.iter().enumerate() {
        let f = m.food_at(i);
        let density = f.nutrients.iter().sum::<f64>() / f.calories as f64;
        if best.map_or(true, |(_, d)| density > d) {
            best = Some((pos, density));
        }
    }
    best.map(|(pos, _)| pos)
}

fn first_offered(_m: &FoodStateManager<Nutrients>, offered: &[usize], _cravings_only: bool) -> Option<usize> {
    if offered.is_empty() {
        None
    } else {
        Some(0)
    }
}

fn nothing(_m: &FoodStateManager<Nutrients>) {}

fn plan(foods: Vec<Food<Nutrients>>, cravings: &[String], budget: i64) -> (FoodStateManager<Nutrients>, Vec<PlanStep<()>>) {
    let mut manager = FoodStateManager::new(foods);
    let steps = generate_plan(&mut manager, cravings, budget, densest, nothing);
    (manager, steps)
}

fn total_calories(steps: &[PlanStep<()>]) -> u64 {
    steps.iter().map(|s| s.calories as u64).sum()
}

#[test]
fn test_is_variety_qualifying() {
    assert!(is_variety_qualifying(500, 4));
    assert!(!is_variety_qualifying(500, 3));
    assert!(is_variety_qualifying(2000, 1));
}

#[test]
fn test_variety_qualification_threshold() {
    assert!(is_variety_qualifying(VARIETY_CAL_THRESHOLD as u32, 1));
    assert!(is_variety_qualifying(1000, 2));

    assert!(!is_variety_qualifying(1999, 1));
    assert!(!is_variety_qualifying(500, 3));

    assert!(is_variety_qualifying(2001, 1));
    assert!(is_variety_qualifying(1000, 3));
}

#[test]
fn variety_qualifying_at_largest_values() {
    assert!(is_variety_qualifying(u32::MAX, u32::MAX));
    assert!(!is_variety_qualifying(u32::MAX, 0));
    assert!(!is_variety_qualifying(0, u32::MAX));
}

#[test]
fn test_generate_plan() {
    let (_, steps) = plan(sample_foods(), &[], 1000);
    assert!(!steps.is_empty());
    assert!(total_calories(&steps) <= 1000 || steps.len() == 1);
}

#[test]
fn test_generate_plan_respects_calorie_budget() {
    let (_, steps) = plan(smoke_foods(), &[], 1000);
    let total_cal = total_calories(&steps);
    assert!(
        total_cal <= 1000 || steps.len() == 1,
        "Plan exceeded budget: {} calories",
        total_cal
    );
}

#[test]
fn test_generate_plan_nonempty_for_available_foods() {
    let (_, steps) = plan(smoke_foods(), &[], 2000);
    assert!(!steps.is_empty(), "Plan should not be empty when foods are available");
}

#[test]
fn test_generate_plan_prioritizes_cravings() {
    let cravings = vec!["Balanced".to_string()];
    let (_, steps) = plan(smoke_foods(), &cravings, 500);
    assert!(!steps.is_empty());
    assert_eq!(
        steps[0].food_name.to_lowercase(),
        "balanced",
        "Expected craving to be selected first"
    );
    assert!(steps[0].is_craving);
}

#[test]
fn test_generate_plan_updates_state() {
    let mut manager = FoodStateManager::new(smoke_foods());
    let before_available: u32 = manager.all_available().iter().map(|f| f.available).sum();

    let steps = generate_plan(&mut manager, &[], 1500, densest, nothing);

    let after_available: u32 = manager.all_available().iter().map(|f| f.available).sum();
    let total_stomach: u32 = manager.all_foods().iter().map(|f| f.stomach).sum();

    let items_consumed = steps.len() as u32;
    assert_eq!(before_available - after_available, items_consumed, "Available count mismatch");
    assert_eq!(total_stomach, items_consumed, "Stomach count mismatch");
}

#[test]
fn test_generate_plan_empty_when_no_available() {
    let foods: Vec<Food<Nutrients>> = smoke_foods()
        .into_iter()
        .map(|mut f| {
            f.available = 0;
            f
        })
        .collect();
    let (_, steps) = plan(foods, &[], 2000);
    assert!(steps.is_empty(), "Plan should be empty when no foods are available");
}

#[test]
fn test_generate_plan_zero_budget() {
    let (_, steps) = plan(smoke_foods(), &[], 0);
    assert!(steps.is_empty(), "Plan should be empty with zero calorie budget");
}

#[test]
fn negative_budget_plans_nothing() {
    let (manager, steps) = plan(smoke_foods(), &[], -500);
    assert!(steps.is_empty());
    assert!(manager.all_foods().iter().all(|f| f.stomach == 0));
}

#[test]
fn budget_below_every_cost_gives_one_bite() {
    let (manager, steps) = plan(smoke_foods(), &[], 50);
    assert_eq!(steps.len(), 1);
    assert_eq!(manager.all_foods().iter().map(|f| f.stomach).sum::<u32>(), 1);
}

#[test]
fn three_food_scenario_stays_in_budget() {
    let (_, steps) = plan(sample_foods(), &[], 1000);
    assert!(!steps.is_empty());
    assert!(total_calories(&steps) <= 1000 || steps.len() == 1);
    for s in &steps {
        assert!(!s.is_craving);
    }
}

#[test]
fn craving_with_varied_case_is_taken_first() {
    let cravings = vec!["cHEESE".to_string()];
    let mut manager = FoodStateManager::new(sample_foods());
    let steps = generate_plan(&mut manager, &cravings, 5000, first_offered, nothing);
    assert!(!steps.is_empty());
    assert_eq!(steps[0].food_name, "Cheese");
    assert_eq!(steps[0].food_index, 2);
    assert!(steps[0].is_craving);
}

#[test]
fn cravings_are_served_until_supply_runs_out() {
    let cravings = vec!["cheese".to_string()];
    let mut manager = FoodStateManager::new(sample_foods());
    let steps = generate_plan(&mut manager, &cravings, 100_000, first_offered, nothing);
    let cheese = steps.iter().filter(|s| s.is_craving).count();
    assert_eq!(cheese, 8);
    assert!(steps[..8].iter().all(|s| s.is_craving));
    assert!(steps[8..].iter().all(|s| !s.is_craving));
    assert_eq!(manager.get_food("cheese").unwrap().available, 0);
}

#[test]
fn plan_stops_at_iteration_cap() {
    let foods = vec![food("Crumb", 1, [1.0, 1.0, 1.0, 1.0], 0, 1000)];
    let (manager, steps) = plan(foods, &[], 1_000_000);
    assert_eq!(steps.len(), MAX_ITERATIONS);
    assert_eq!(manager.get_food("crumb").unwrap().available, 1000 - MAX_ITERATIONS as u32);
}

#[test]
fn plan_ends_when_chooser_declines() {
    let mut manager = FoodStateManager::new(sample_foods());
    let steps = generate_plan(
        &mut manager,
        &[],
        1000,
        |_m: &FoodStateManager<Nutrients>, _c: &[usize], _b: bool| None,
        nothing,
    );
    assert!(steps.is_empty());
    let steps = generate_plan(
        &mut manager,
        &[],
        1000,
        |_m: &FoodStateManager<Nutrients>, c: &[usize], _b: bool| Some(c.len()),
        nothing,
    );
    assert!(steps.is_empty());
}

#[test]
fn observer_sees_state_before_and_after_each_bite() {
    let mut manager = FoodStateManager::new(sample_foods());
    let steps = generate_plan(
        &mut manager,
        &[],
        300,
        first_offered,
        |m: &FoodStateManager<Nutrients>| m.total_stomach_calories(),
    );
    assert_eq!(steps.len(), 3);
    assert_eq!(steps[0].before, 0);
    assert_eq!(steps[0].after, 100);
    assert_eq!(steps[2].before, 200);
    assert_eq!(steps[2].after, 300);
}

#[test]
fn food_without_supply_is_never_offered() {
    let foods = vec![
        food("Gold", 100, [100.0, 100.0, 100.0, 100.0], 3, 0),
        food("Apple", 100, [20.0, 1.0, 0.5, 5.0], 2, 3),
    ];
    let mut manager = FoodStateManager::new(foods);
    let steps = generate_plan(
        &mut manager,
        &["gold".to_string()],
        1000,
        |m: &FoodStateManager<Nutrients>, offered: &[usize], cravings_only: bool| {
            assert!(!cravings_only);
            assert!(offered.iter().all(|&i| m.food_at(i).available > 0));
            densest(m, offered, cravings_only)
        },
        nothing,
    );
    assert_eq!(steps.len(), 3);
    assert!(steps.iter().all(|s| s.food_name == "Apple"));
    assert_eq!(manager.get_food("gold").unwrap().stomach, 0);
}
