use eco_diet_maker::cli::{apply_reset, Cli, Command, DEFAULT_FOOD_FILE};
use eco_diet_maker::food::{Food, FoodStateManager};

fn catalog() -> FoodStateManager<()> {
    FoodStateManager::new(vec![
        Food::new("Apple".to_string(), 100, (), 2, 3, 5),
        Food::new("Bread".to_string(), 200, (), -1, 2, 10),
    ])
}

#[test]
fn command_defaults_to_plan() {
    assert_eq!(Command::default(), Command::Plan);
    let cli = Cli { command: None, file: DEFAULT_FOOD_FILE.to_string() };
    assert_eq!(cli.command_or_default(), Command::Plan);
    let cli = Cli { command: Some(Command::RateUnknowns), file: "x.json".to_string() };
    assert_eq!(cli.command_or_default(), Command::RateUnknowns);
    assert_eq!(DEFAULT_FOOD_FILE, "food_state.json");
}

#[test]
fn reset_without_options_changes_nothing() {
    let mut manager = catalog();
    assert!(!apply_reset(&mut manager, false, false, false));
    assert_eq!(manager.get_food("apple").unwrap().stomach, 3);
    assert_eq!(manager.get_food("bread").unwrap().tastiness, -1);
}

#[test]
fn reset_each_part() {
    let mut manager = catalog();
    assert!(apply_reset(&mut manager, true, false, false));
    assert!(manager.all_foods().iter().all(|f| f.stomach == 0 && f.available > 0));

    let mut manager = catalog();
    assert!(apply_reset(&mut manager, false, true, true));
    assert!(manager.all_foods().iter().all(|f| f.available == 0 && f.tastiness == 99 && f.stomach > 0));
}
