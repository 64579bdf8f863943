use todo_list::store::Category;
use todo_list::store::StoreError;
use todo_list::store::Task;
use todo_list::store::TodoList;

fn task(name: &str, category: Category) -> Task {
    Task { name: name.to_string(), category }
}

fn names_in_order(list: &TodoList) -> Vec<(usize, String, Category)> {
    list.list_in_order()
        .into_iter()
        .map(|(i, t)| (i, t.name, t.category))
        .collect()
}

fn names_by_category(list: &TodoList) -> Vec<(usize, String, Category)> {
    list.list_by_category()
        .into_iter()
        .map(|(i, t)| (i, t.name, t.category))
        .collect()
}

#[test]
fn empty_list_has_no_tasks() {
    let list = TodoList::new();
    assert_eq!(list.len(), 0);
    assert!(list.list_in_order().is_empty());
    assert!(list.list_by_category().is_empty());
}

#[test]
fn add_then_list_in_order() {
    let mut list = TodoList::new();
    list.add(task("Buy milk", Category::Any));
    list.add(task("Write report", Category::Todo));
    assert_eq!(
        names_in_order(&list),
        vec![
            (0, "Buy milk".to_string(), Category::Any),
            (1, "Write report".to_string(), Category::Todo),
        ]
    );
    assert_eq!(
        names_by_category(&list),
        vec![
            (0, "Buy milk".to_string(), Category::Any),
            (1, "Write report".to_string(), Category::Todo),
        ]
    );
}

#[test]
fn by_category_reorders_and_keeps_original_indices() {
    let mut list = TodoList::new();
    list.add(task("A", Category::Done));
    list.add(task("B", Category::Any));
    list.add(task("C", Category::Todo));
    assert_eq!(
        names_by_category(&list),
        vec![
            (1, "B".to_string(), Category::Any),
            (2, "C".to_string(), Category::Todo),
            (0, "A".to_string(), Category::Done),
        ]
    );
    // The projection is read-only: the stored order is untouched.
    assert_eq!(
        names_in_order(&list),
        vec![
            (0, "A".to_string(), Category::Done),
            (1, "B".to_string(), Category::Any),
            (2, "C".to_string(), Category::Todo),
        ]
    );
}

#[test]
fn by_category_is_stable_for_equal_categories() {
    let mut list = TodoList::new();
    list.add(task("first", Category::Todo));
    list.add(task("between", Category::Any));
    list.add(task("second", Category::Todo));
    assert_eq!(
        names_by_category(&list),
        vec![
            (1, "between".to_string(), Category::Any),
            (0, "first".to_string(), Category::Todo),
            (2, "second".to_string(), Category::Todo),
        ]
    );
}

#[test]
fn remove_out_of_range_reports_error_and_leaves_list_unchanged() {
    let mut list = TodoList::new();
    list.add(task("A", Category::Any));
    list.add(task("B", Category::Todo));
    list.add(task("C", Category::Done));
    assert_eq!(list.remove(5), Err(StoreError::IndexOutOfRange));
    assert_eq!(list.remove(3), Err(StoreError::IndexOutOfRange));
    assert_eq!(
        names_in_order(&list),
        vec![
            (0, "A".to_string(), Category::Any),
            (1, "B".to_string(), Category::Todo),
            (2, "C".to_string(), Category::Done),
        ]
    );
}

#[test]
fn remove_in_range_shifts_later_tasks_back() {
    let mut list = TodoList::new();
    list.add(task("A", Category::Any));
    list.add(task("B", Category::Todo));
    list.add(task("C", Category::Done));
    assert_eq!(list.remove(1), Ok(()));
    assert_eq!(
        names_in_order(&list),
        vec![
            (0, "A".to_string(), Category::Any),
            (1, "C".to_string(), Category::Done),
        ]
    );
}

#[test]
fn edit_name_replaces_only_the_name() {
    let mut list = TodoList::new();
    list.add(task("old", Category::InProgress));
    assert_eq!(list.edit_name(0, "new".to_string()), Ok(()));
    assert_eq!(
        names_in_order(&list),
        vec![(0, "new".to_string(), Category::InProgress)]
    );
}

#[test]
fn edit_name_out_of_range_reports_error() {
    let mut list = TodoList::new();
    list.add(task("only", Category::Any));
    assert_eq!(
        list.edit_name(1, "other".to_string()),
        Err(StoreError::IndexOutOfRange)
    );
    assert_eq!(
        names_in_order(&list),
        vec![(0, "only".to_string(), Category::Any)]
    );
}

#[test]
fn edit_category_replaces_only_the_category() {
    let mut list = TodoList::new();
    list.add(task("job", Category::Todo));
    assert_eq!(list.edit_category(0, Category::Done), Ok(()));
    assert_eq!(
        names_in_order(&list),
        vec![(0, "job".to_string(), Category::Done)]
    );
}

#[test]
fn edit_category_out_of_range_reports_error() {
    let mut list = TodoList::new();
    assert_eq!(
        list.edit_category(0, Category::Done),
        Err(StoreError::IndexOutOfRange)
    );
    assert_eq!(list.len(), 0);
}

#[test]
fn category_priority_orders_the_four_categories() {
    let list = TodoList::new();
    assert_eq!(list.category_priority(&Category::Any), 0);
    assert_eq!(list.category_priority(&Category::Todo), 1);
    assert_eq!(list.category_priority(&Category::InProgress), 2);
    assert_eq!(list.category_priority(&Category::Done), 3);
}

#[test]
fn category_labels_are_the_four_names() {
    assert_eq!(Category::Any.label(), "Any");
    assert_eq!(Category::Todo.label(), "Todo");
    assert_eq!(Category::InProgress.label(), "InProgress");
    assert_eq!(Category::Done.label(), "Done");
}

#[test]
fn get_returns_the_task_at_the_position() {
    let mut list = TodoList::new();
    list.add(task("A", Category::Any));
    list.add(task("B", Category::Done));
    assert_eq!(list.get(1).name, "B");
    assert_eq!(list.get(1).category, Category::Done);
}
