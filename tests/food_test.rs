use eco_diet_maker::food::{EcoError, Food, FoodStateManager};

type Nutrients = [f64; 4];

fn food(name: &str, calories: u32, n: Nutrients, tastiness: i8, stomach: u32, available: u32) -> Food<Nutrients> {
    Food::new(name.to_string(), calories, n, tastiness, stomach, available)
}

fn sample_food() -> Food<Nutrients> {
    food("Apple", 100, [20.0, 1.0, 0.5, 5.0], 2, 0, 5)
}

fn sample_foods() -> Vec<Food<Nutrients>> {
    vec![
        food("Apple", 100, [20.0, 1.0, 0.5, 5.0], 2, 0, 5),
        food("Bread", 200, [40.0, 8.0, 2.0, 1.0], 1, 2, 10),
    ]
}

#[test]
fn test_is_valid() {
    let food = sample_food();
    assert!(food.is_valid());

    let mut invalid = sample_food();
    invalid.tastiness = 5;
    assert!(!invalid.is_valid());
}

#[test]
fn unknown_tastiness_is_valid() {
    let mut f = sample_food();
    f.tastiness = 99;
    assert!(f.is_valid());
    f.tastiness = -4;
    assert!(!f.is_valid());
}

#[test]
fn test_equality_case_insensitive() {
    let food1 = sample_food();
    let mut food2 = sample_food();
    food2.name = "APPLE".to_string();
    assert_eq!(food1, food2);
}

#[test]
fn different_names_are_different_foods() {
    let food1 = sample_food();
    let mut food2 = sample_food();
    food2.name = "Apples".to_string();
    assert_ne!(food1, food2);
}

#[test]
fn key_is_lower_case_name() {
    let mut f = sample_food();
    f.name = "Big APPLE Pie".to_string();
    assert_eq!(f.key(), "big apple pie");
}

#[test]
fn test_get_food_case_insensitive() {
    let manager = FoodStateManager::new(sample_foods());
    assert!(manager.get_food("apple").is_some());
    assert!(manager.get_food("APPLE").is_some());
    assert!(manager.get_food("Apple").is_some());
    assert!(manager.get_food("banana").is_none());
}

#[test]
fn test_consume_food() {
    let mut manager = FoodStateManager::new(sample_foods());

    assert!(manager.can_consume("apple"));
    manager.consume_food("apple").unwrap();

    let apple = manager.get_food("apple").unwrap();
    assert_eq!(apple.stomach, 1);
    assert_eq!(apple.available, 4);
}

#[test]
fn consume_unknown_food_is_not_found() {
    let mut manager = FoodStateManager::new(sample_foods());
    assert_eq!(
        manager.consume_food("Banana"),
        Err(EcoError::FoodNotFound("Banana".to_string()))
    );
}

#[test]
fn consume_without_supply_is_invalid_input() {
    let mut foods = sample_foods();
    foods[0].available = 0;
    let mut manager = FoodStateManager::new(foods);
    assert!(!manager.can_consume("Apple"));
    assert_eq!(
        manager.consume_food("Apple"),
        Err(EcoError::InvalidInput("Apple has no available units".to_string()))
    );
    let apple = manager.get_food("apple").unwrap();
    assert_eq!(apple.stomach, 0);
    assert_eq!(apple.available, 0);
}

#[test]
fn consume_with_full_counter_is_invalid_input() {
    let mut foods = sample_foods();
    foods[0].stomach = u32::MAX;
    let mut manager = FoodStateManager::new(foods);
    assert!(!manager.can_consume("apple"));
    assert!(matches!(manager.consume_food("apple"), Err(EcoError::InvalidInput(_))));
}

#[test]
fn test_reset_stomach() {
    let mut manager = FoodStateManager::new(sample_foods());
    assert_eq!(manager.get_food("bread").unwrap().stomach, 2);

    manager.reset_stomach();
    assert_eq!(manager.get_food("bread").unwrap().stomach, 0);
}

#[test]
fn test_all_available() {
    let manager = FoodStateManager::new(sample_foods());
    let available = manager.all_available();
    assert_eq!(available.len(), 2);
}

#[test]
fn all_available_skips_empty_supply() {
    let mut foods = sample_foods();
    foods[1].available = 0;
    let manager = FoodStateManager::new(foods);
    let available = manager.all_available();
    assert_eq!(available.len(), 1);
    assert_eq!(available[0].name, "Apple");
}

#[test]
fn new_keeps_last_of_duplicate_names() {
    let foods = vec![
        food("Apple", 100, [20.0, 1.0, 0.0, 5.0], 1, 0, 5),
        food("Bread", 200, [40.0, 8.0, 2.0, 1.0], 1, 0, 10),
        food("apple", 100, [20.0, 1.0, 0.0, 5.0], 3, 0, 10),
    ];
    let manager = FoodStateManager::new(foods);
    assert_eq!(manager.len(), 2);
    let apple = manager.get_food("APPLE").unwrap();
    assert_eq!(apple.tastiness, 3);
    assert_eq!(apple.available, 10);
    let names: Vec<String> = manager.all_foods().iter().map(|f| f.name.clone()).collect();
    assert_eq!(names, vec!["Bread".to_string(), "apple".to_string()]);
}

#[test]
fn empty_catalog() {
    let manager: FoodStateManager<Nutrients> = FoodStateManager::new(Vec::new());
    assert!(manager.is_empty());
    assert_eq!(manager.len(), 0);
    assert!(manager.all_available().is_empty());
    assert_eq!(manager.total_stomach_calories(), 0);
}

#[test]
fn reset_availability_and_tastiness() {
    let mut manager = FoodStateManager::new(sample_foods());
    manager.reset_availability(0);
    assert!(manager.all_available().is_empty());
    manager.reset_tastiness(true);
    assert!(manager.all_foods().iter().all(|f| f.tastiness == 99));
    manager.reset_tastiness(false);
    assert!(manager.all_foods().iter().all(|f| f.tastiness == 0));
}

#[test]
fn set_tastiness_by_name() {
    let mut manager = FoodStateManager::new(sample_foods());
    assert!(manager.set_tastiness("BREAD", -2));
    assert_eq!(manager.get_food("bread").unwrap().tastiness, -2);
    assert!(!manager.set_tastiness("cake", 1));
}

#[test]
fn stomach_contents_lists_eaten_foods() {
    let mut manager = FoodStateManager::new(sample_foods());
    assert_eq!(manager.stomach_contents(), vec![("bread".to_string(), 2)]);
    manager.consume_food("Apple").unwrap();
    assert_eq!(
        manager.stomach_contents(),
        vec![("apple".to_string(), 1), ("bread".to_string(), 2)]
    );
}

#[test]
fn total_stomach_calories_sums_eaten_units() {
    let mut manager = FoodStateManager::new(sample_foods());
    assert_eq!(manager.total_stomach_calories(), 400);
    manager.consume_food("apple").unwrap();
    assert_eq!(manager.total_stomach_calories(), 500);
}

#[test]
fn total_stomach_calories_of_largest_counters() {
    let foods = vec![
        food("A", u32::MAX, [0.0; 4], 0, u32::MAX, 0),
        food("B", u32::MAX, [0.0; 4], 0, u32::MAX, 0),
    ];
    let manager = FoodStateManager::new(foods);
    let one = (u32::MAX as u128) * (u32::MAX as u128);
    assert_eq!(manager.total_stomach_calories(), 2 * one);
}

#[test]
fn variety_counts_foods_past_threshold() {
    let foods = vec![
        food("Steak", 1000, [0.0; 4], 0, 2, 5),
        food("Rice", 500, [0.0; 4], 0, 3, 5),
        food("Pie", 2500, [0.0; 4], 0, 1, 5),
    ];
    let manager = FoodStateManager::new(foods);
    assert_eq!(manager.count_variety_qualifying(), 2);
    let names: Vec<&str> = manager.unique_variety_foods().iter().map(|f| f.name.as_str()).collect();
    assert_eq!(names, vec!["Steak", "Pie"]);
}

#[test]
fn craving_matches_count_eaten_foods_only() {
    let mut manager = FoodStateManager::new(sample_foods());
    let cravings = vec!["APPLE".to_string(), "bread".to_string(), "cake".to_string()];
    assert_eq!(manager.count_craving_matches(&cravings), 1);
    manager.consume_food("apple").unwrap();
    assert_eq!(manager.count_craving_matches(&cravings), 2);
    assert_eq!(manager.count_craving_matches(&[]), 0);
}

#[test]
fn consumable_indices_follow_catalog_order() {
    let mut foods = sample_foods();
    foods.push(food("Cheese", 300, [1.0, 20.0, 25.0, 2.0], 3, 0, 0));
    let manager = FoodStateManager::new(foods);
    assert_eq!(manager.consumable_indices(), vec![0, 1]);
    assert_eq!(manager.listed_indices(&["bread".to_string()]), vec![1]);
    assert_eq!(manager.index_of("CHEESE"), Some(2));
    assert_eq!(manager.food_at(2).calories, 300);
}

#[test]
fn into_foods_returns_catalog() {
    let manager = FoodStateManager::new(sample_foods());
    let foods = manager.into_foods();
    assert_eq!(foods.len(), 2);
    assert_eq!(foods[0].name, "Apple");
    assert_eq!(foods[1].nutrients, [40.0, 8.0, 2.0, 1.0]);
}

#[test]
fn stomach_food_map_pairs_foods_with_counts() {
    let mut manager = FoodStateManager::new(sample_foods());
    let eaten = manager.stomach_food_map();
    assert_eq!(eaten.len(), 1);
    assert_eq!(eaten[0].0.name, "Bread");
    assert_eq!(eaten[0].1, 2);
    manager.consume_food("apple").unwrap();
    let eaten: Vec<(String, u32)> = manager.stomach_food_map().iter().map(|(f, q)| (f.name.clone(), *q)).collect();
    assert_eq!(eaten, vec![("Apple".to_string(), 1), ("Bread".to_string(), 2)]);
}
