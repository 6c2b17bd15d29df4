use finance_store::store::{Store, StoreError};

fn cat(s: &mut Store, name: &str) -> usize {
    s.create_category(String::from(name)).expect("category should be created")
}

fn sub(s: &mut Store, category_id: usize, name: &str) -> usize {
    s.create_subcategory(category_id, String::from(name)).expect("subcategory should be created")
}

fn op(s: &mut Store, subcategory_id: usize, date: &str, value: u64) -> usize {
    s.create_operation(subcategory_id, String::from(date), value)
        .expect("operation should be created")
}

#[test]
fn new_store_is_empty() {
    let s = Store::new();
    assert!(s.list_categories().is_empty());
    assert!(s.list_subcategories().is_empty());
    assert!(s.list_operations().is_empty());
}

#[test]
fn duplicate_category_name_fails_and_count_is_unchanged() {
    let mut s = Store::new();
    cat(&mut s, "Food");
    let before = s.list_categories().len();
    let r = s.create_category(String::from("Food"));
    assert_eq!(r, Err(StoreError::DuplicateCategoryName));
    assert_eq!(s.list_categories().len(), before);
}

#[test]
fn subcategory_under_missing_category_fails_and_inserts_nothing() {
    let mut s = Store::new();
    let r = s.create_subcategory(99, String::from("Groceries"));
    assert_eq!(r, Err(StoreError::UnknownCategory));
    assert!(s.list_subcategories().is_empty());
}

#[test]
fn operation_under_missing_subcategory_fails_and_inserts_nothing() {
    let mut s = Store::new();
    let r = s.create_operation(5, String::from("2024-01-01"), 100);
    assert_eq!(r, Err(StoreError::UnknownSubcategory));
    assert!(s.list_operations().is_empty());
}

#[test]
fn created_category_is_listed_exactly_once_with_its_fields() {
    let mut s = Store::new();
    cat(&mut s, "Home");
    let id = cat(&mut s, "Food");
    let rows = s.list_categories();
    let hits: Vec<_> = rows.iter().filter(|c| c.id == id).collect();
    assert_eq!(hits.len(), 1);
    assert_eq!(hits[0].name, "Food");
}

#[test]
fn created_subcategory_is_listed_exactly_once_with_its_fields() {
    let mut s = Store::new();
    let c = cat(&mut s, "Food");
    sub(&mut s, c, "Drinks");
    let id = sub(&mut s, c, "Groceries");
    let rows = s.list_subcategories();
    let hits: Vec<_> = rows.iter().filter(|x| x.id == id).collect();
    assert_eq!(hits.len(), 1);
    assert_eq!(hits[0].category_id, c);
    assert_eq!(hits[0].name, "Groceries");
}

#[test]
fn created_operation_is_listed_exactly_once_with_its_fields() {
    let mut s = Store::new();
    let c = cat(&mut s, "Food");
    let g = sub(&mut s, c, "Groceries");
    op(&mut s, g, "2024-03-01", 999);
    let id = op(&mut s, g, "2024-01-05", 2500);
    let rows = s.list_operations();
    let hits: Vec<_> = rows.iter().filter(|o| o.id == id).collect();
    assert_eq!(hits.len(), 1);
    assert_eq!(hits[0].subcategory_id, g);
    assert_eq!(hits[0].date, "2024-01-05");
    assert_eq!(hits[0].value, 2500);
}

#[test]
fn removing_a_category_cascades_to_subcategories_and_operations() {
    let mut s = Store::new();
    let food = cat(&mut s, "Food");
    let home = cat(&mut s, "Home");
    let groceries = sub(&mut s, food, "Groceries");
    let drinks = sub(&mut s, food, "Drinks");
    let rent = sub(&mut s, home, "Rent");
    op(&mut s, groceries, "2024-01-05", 2500);
    op(&mut s, drinks, "2024-01-06", 700);
    let kept_op = op(&mut s, rent, "2024-01-07", 90000);
    s.remove_category(food);
    assert!(s.list_categories().iter().all(|c| c.id != food));
    assert!(s.list_subcategories().iter().all(|x| x.category_id != food));
    let subs_of_food = [groceries, drinks];
    assert!(s
        .list_operations()
        .iter()
        .all(|o| !subs_of_food.contains(&o.subcategory_id)));
    assert_eq!(s.list_categories().len(), 1);
    assert_eq!(s.list_subcategories().len(), 1);
    let ops = s.list_operations();
    assert_eq!(ops.len(), 1);
    assert_eq!(ops[0].id, kept_op);
}

#[test]
fn removing_a_subcategory_cascades_to_its_operations_only() {
    let mut s = Store::new();
    let food = cat(&mut s, "Food");
    let groceries = sub(&mut s, food, "Groceries");
    let drinks = sub(&mut s, food, "Drinks");
    op(&mut s, groceries, "2024-01-05", 2500);
    let kept = op(&mut s, drinks, "2024-01-06", 700);
    s.remove_subcategory(groceries);
    assert_eq!(s.list_categories().len(), 1);
    assert!(s.list_subcategories().iter().all(|x| x.id != groceries));
    assert_eq!(s.list_subcategories().len(), 1);
    let ops = s.list_operations();
    assert_eq!(ops.len(), 1);
    assert_eq!(ops[0].id, kept);
}

#[test]
fn removing_a_missing_id_changes_nothing() {
    let mut s = Store::new();
    let food = cat(&mut s, "Food");
    let groceries = sub(&mut s, food, "Groceries");
    op(&mut s, groceries, "2024-01-05", 2500);
    s.remove_category(12345);
    s.remove_subcategory(12345);
    assert_eq!(s.list_categories().len(), 1);
    assert_eq!(s.list_subcategories().len(), 1);
    assert_eq!(s.list_operations().len(), 1);
}

#[test]
fn operations_are_listed_date_descending_then_id_descending() {
    let mut s = Store::new();
    let food = cat(&mut s, "Food");
    let g = sub(&mut s, food, "Groceries");
    op(&mut s, g, "2024-01-05", 1);
    op(&mut s, g, "2024-02-01", 2);
    op(&mut s, g, "2023-12-31", 3);
    op(&mut s, g, "2024-02-01", 4);
    op(&mut s, g, "2024-01-31", 5);
    let ops = s.list_operations();
    for w in ops.windows(2) {
        let earlier = &w[0];
        let later = &w[1];
        assert!(
            earlier.date > later.date
                || (earlier.date == later.date && earlier.id > later.id)
        );
    }
    assert_eq!(ops.len(), 5);
    assert_eq!(ops[0].date, "2024-02-01");
    assert_eq!(ops[1].date, "2024-02-01");
    assert!(ops[0].id > ops[1].id);
    assert_eq!(ops[4].date, "2023-12-31");
}

#[test]
fn same_date_operations_surface_latest_insert_first() {
    let mut s = Store::new();
    let food = cat(&mut s, "Food");
    let g = sub(&mut s, food, "Groceries");
    let first = op(&mut s, g, "2024-01-10", 100);
    let second = op(&mut s, g, "2024-01-10", 200);
    let ops = s.list_operations();
    assert_eq!(ops[0].id, second);
    assert_eq!(ops[1].id, first);
}

#[test]
fn update_category_on_missing_id_succeeds_and_changes_nothing() {
    let mut s = Store::new();
    cat(&mut s, "Food");
    let before: Vec<(usize, String)> =
        s.list_categories().into_iter().map(|c| (c.id, c.name)).collect();
    let r = s.update_category(999, String::from("Anything"));
    assert_eq!(r, Ok(()));
    let after: Vec<(usize, String)> =
        s.list_categories().into_iter().map(|c| (c.id, c.name)).collect();
    assert_eq!(before, after);
}

#[test]
fn update_subcategory_on_missing_id_succeeds_and_changes_nothing() {
    let mut s = Store::new();
    let food = cat(&mut s, "Food");
    sub(&mut s, food, "Groceries");
    let r = s.update_subcategory(999, String::from("Anything"));
    assert_eq!(r, Ok(()));
    assert_eq!(s.list_subcategories().len(), 1);
    assert_eq!(s.list_subcategories()[0].name, "Groceries");
}

#[test]
fn update_category_renames_only_the_target() {
    let mut s = Store::new();
    let food = cat(&mut s, "Food");
    let home = cat(&mut s, "Home");
    let r = s.update_category(food, String::from("Meals"));
    assert_eq!(r, Ok(()));
    let rows = s.list_categories();
    assert_eq!(rows.iter().find(|c| c.id == food).unwrap().name, "Meals");
    assert_eq!(rows.iter().find(|c| c.id == home).unwrap().name, "Home");
}

#[test]
fn update_category_to_a_taken_name_fails() {
    let mut s = Store::new();
    let food = cat(&mut s, "Food");
    cat(&mut s, "Home");
    let r = s.update_category(food, String::from("Home"));
    assert_eq!(r, Err(StoreError::DuplicateCategoryName));
    let rows = s.list_categories();
    assert_eq!(rows.iter().find(|c| c.id == food).unwrap().name, "Food");
}

#[test]
fn update_category_to_its_own_name_succeeds() {
    let mut s = Store::new();
    let food = cat(&mut s, "Food");
    let r = s.update_category(food, String::from("Food"));
    assert_eq!(r, Ok(()));
    assert_eq!(s.list_categories()[0].name, "Food");
}

#[test]
fn update_subcategory_to_a_sibling_name_fails() {
    let mut s = Store::new();
    let food = cat(&mut s, "Food");
    let groceries = sub(&mut s, food, "Groceries");
    sub(&mut s, food, "Drinks");
    let r = s.update_subcategory(groceries, String::from("Drinks"));
    assert_eq!(r, Err(StoreError::DuplicateSubcategoryName));
    let rows = s.list_subcategories();
    assert_eq!(rows.iter().find(|x| x.id == groceries).unwrap().name, "Groceries");
}

#[test]
fn update_subcategory_to_a_name_used_under_another_category_succeeds() {
    let mut s = Store::new();
    let food = cat(&mut s, "Food");
    let home = cat(&mut s, "Home");
    sub(&mut s, food, "Misc");
    let target = sub(&mut s, home, "Rent");
    let r = s.update_subcategory(target, String::from("Misc"));
    assert_eq!(r, Ok(()));
    let rows = s.list_subcategories();
    let renamed = rows.iter().find(|x| x.id == target).unwrap();
    assert_eq!(renamed.name, "Misc");
    assert_eq!(renamed.category_id, home);
}

#[test]
fn same_subcategory_name_under_two_categories_is_allowed() {
    let mut s = Store::new();
    let food = cat(&mut s, "Food");
    let home = cat(&mut s, "Home");
    sub(&mut s, food, "Misc");
    sub(&mut s, home, "Misc");
    assert_eq!(s.list_subcategories().len(), 2);
}

#[test]
fn duplicate_subcategory_name_under_one_category_fails() {
    let mut s = Store::new();
    let food = cat(&mut s, "Food");
    sub(&mut s, food, "Misc");
    let r = s.create_subcategory(food, String::from("Misc"));
    assert_eq!(r, Err(StoreError::DuplicateSubcategoryName));
    assert_eq!(s.list_subcategories().len(), 1);
}

#[test]
fn scenario_food_groceries_two_operations_listed_most_recent_first() {
    let mut s = Store::new();
    let food = cat(&mut s, "Food");
    let groceries = sub(&mut s, food, "Groceries");
    op(&mut s, groceries, "2024-01-05", 2500);
    op(&mut s, groceries, "2024-01-10", 1200);
    let ops = s.list_operations();
    assert_eq!(ops.len(), 2);
    assert_eq!(ops[0].date, "2024-01-10");
    assert_eq!(ops[0].value, 1200);
    assert_eq!(ops[1].date, "2024-01-05");
    assert_eq!(ops[1].value, 2500);
}

#[test]
fn scenario_second_food_category_fails_and_one_entry_remains() {
    let mut s = Store::new();
    cat(&mut s, "Food");
    let r = s.create_category(String::from("Food"));
    assert!(r.is_err());
    let rows = s.list_categories();
    let food_rows: Vec<_> = rows.iter().filter(|c| c.name == "Food").collect();
    assert_eq!(food_rows.len(), 1);
}

#[test]
fn identifiers_are_assigned_increasing_and_never_reused() {
    let mut s = Store::new();
    let a = cat(&mut s, "A");
    let b = cat(&mut s, "B");
    assert!(b > a);
    s.remove_category(b);
    let c = cat(&mut s, "C");
    assert!(c > b);
}

#[test]
fn error_messages_describe_each_kind() {
    assert_eq!(
        StoreError::DuplicateCategoryName.message(),
        "a category with this name already exists"
    );
    assert_eq!(
        StoreError::DuplicateSubcategoryName.message(),
        "this category already has a subcategory with this name"
    );
    assert_eq!(StoreError::UnknownCategory.message(), "no category has this id");
    assert_eq!(StoreError::UnknownSubcategory.message(), "no subcategory has this id");
}
