use std::rc::Rc;

use ic_stable_structures::DefaultMemoryImpl;
use recipe_store::record::{Recipe, StoreError};
use recipe_store::store::RecipeStore;

fn recipe(name: &str, category: &str, ingredients: &[&str], instructions: &str) -> Recipe {
    Recipe {
        id: 0,
        name: name.to_string(),
        category: category.to_string(),
        ingredients: ingredients.iter().map(|s| s.to_string()).collect(),
        instructions: instructions.to_string(),
    }
}

fn fresh_store() -> RecipeStore {
    RecipeStore::open(DefaultMemoryImpl::default())
}

#[test]
fn example_insert_and_query() {
    let mut store = fresh_store();
    let pasta = store
        .add_recipe(recipe(
            "Pasta",
            "Italian",
            &["pasta", "tomato"],
            "boil; mix",
        ))
        .unwrap();
    assert_eq!(pasta.id, 0);
    assert_eq!(pasta.name, "Pasta");

    let risotto = store
        .add_recipe(recipe("Risotto", "Italian", &["rice"], "stir"))
        .unwrap();
    assert_eq!(risotto.id, 1);

    let italian = store.search_by_category("Italian".to_string()).unwrap();
    assert_eq!(italian, vec![pasta.clone(), risotto.clone()]);

    let by_name = store.search_by_name("Pasta".to_string()).unwrap();
    assert_eq!(by_name, Some(pasta));
}

#[test]
fn inserted_ids_strictly_increase() {
    let mut store = fresh_store();
    let mut last: Option<u64> = None;
    for k in 0..5 {
        let r = store
            .add_recipe(recipe(&format!("r{k}"), "c", &[], ""))
            .unwrap();
        if let Some(prev) = last {
            assert!(r.id > prev);
        }
        last = Some(r.id);
    }
    assert_eq!(last, Some(4));
}

#[test]
fn reconnect_preserves_contents_and_counter() {
    let memory = DefaultMemoryImpl::default();
    let mut store = RecipeStore::open(Rc::clone(&memory));
    store
        .add_recipe(recipe("Pasta", "Italian", &["pasta"], "boil"))
        .unwrap();
    store
        .add_recipe(recipe("Stew", "Hearty", &["beef"], "simmer"))
        .unwrap();
    let all_before = store.get_all_recipes().unwrap();
    let next_before = store.next_id_value();
    drop(store);

    let reopened = RecipeStore::open(memory);
    assert_eq!(reopened.next_id_value(), next_before);
    assert_eq!(reopened.get_all_recipes().unwrap(), all_before);
}

#[test]
fn oversize_insert_fails_and_leaves_store_unchanged() {
    let mut store = fresh_store();
    let kept = store
        .add_recipe(recipe("Toast", "Breakfast", &["bread"], "toast"))
        .unwrap();
    let all_before = store.get_all_recipes().unwrap();
    let next_before = store.next_id_value();

    let huge = "x".repeat(4000);
    let res = store.add_recipe(recipe("Too big", "c", &[], &huge));
    assert_eq!(res, Err(StoreError::SizeExceeded));

    assert_eq!(store.get_all_recipes().unwrap(), all_before);
    assert_eq!(store.next_id_value(), next_before);
    assert_eq!(store.get_all_recipes().unwrap(), vec![kept]);
}

#[test]
fn category_search_partitions_full_scan() {
    let mut store = fresh_store();
    store.add_recipe(recipe("a", "veg", &[], "")).unwrap();
    store.add_recipe(recipe("b", "meat", &[], "")).unwrap();
    store.add_recipe(recipe("c", "veg", &[], "")).unwrap();

    let all = store.get_all_recipes().unwrap();
    let veg = store.search_by_category("veg".to_string()).unwrap();
    let expected: Vec<Recipe> = all
        .iter()
        .filter(|r| r.category == "veg")
        .cloned()
        .collect();
    assert_eq!(veg, expected);
    assert_eq!(veg.len(), 2);

    let none = store.search_by_category("fish".to_string()).unwrap();
    assert_eq!(none, Vec::new());
}

#[test]
fn name_search_returns_lowest_id_match() {
    let mut store = fresh_store();
    let first = store
        .add_recipe(recipe("Twin", "a", &["one"], ""))
        .unwrap();
    store.add_recipe(recipe("Twin", "b", &["two"], "")).unwrap();
    let found = store.search_by_name("Twin".to_string()).unwrap().unwrap();
    assert_eq!(found, first);
    assert_eq!(found.id, 0);

    assert_eq!(store.search_by_name("Absent".to_string()).unwrap(), None);
}

#[test]
fn point_lookup_finds_only_stored_ids() {
    let mut store = fresh_store();
    let r = store.add_recipe(recipe("Cake", "Sweet", &[], "bake")).unwrap();
    assert_eq!(store.get(r.id).unwrap(), Some(r));
    assert_eq!(store.get(99).unwrap(), None);
}

#[test]
fn empty_store_scans_are_empty() {
    let store = fresh_store();
    assert_eq!(store.get_all_recipes().unwrap(), Vec::new());
    assert_eq!(store.search_by_category("any".to_string()).unwrap(), Vec::new());
    assert_eq!(store.search_by_name("any".to_string()).unwrap(), None);
    assert_eq!(store.next_id_value(), 0);
}

#[test]
fn unique_insert_rejects_duplicate_name() {
    let mut store = fresh_store();
    let first = store
        .add_recipe_unique(recipe("Pie", "Sweet", &[], "bake"))
        .unwrap();
    assert_eq!(first.id, 0);

    let res = store.add_recipe_unique(recipe("Pie", "Savoury", &[], "bake again"));
    assert_eq!(res, Err(StoreError::DuplicateName));
    assert_eq!(store.get_all_recipes().unwrap(), vec![first.clone()]);
    assert_eq!(store.next_id_value(), 1);

    let second = store
        .add_recipe_unique(recipe("Tart", "Sweet", &[], "bake"))
        .unwrap();
    assert_eq!(second.id, 1);
    assert_eq!(store.get_all_recipes().unwrap(), vec![first, second]);
}
