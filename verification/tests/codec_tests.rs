use todo_list::store::Category;
use todo_list::store::Task;
use todo_list::store::TodoList;

fn task(name: &str, category: Category) -> Task {
    Task { name: name.to_string(), category }
}

fn pairs(list: &TodoList) -> Vec<(String, Category)> {
    list.list_in_order()
        .into_iter()
        .map(|(_, t)| (t.name, t.category))
        .collect()
}

#[test]
fn encode_writes_one_line_per_task_in_storage_order() {
    let mut list = TodoList::new();
    list.add(task("Buy milk", Category::Any));
    list.add(task("Write report", Category::Todo));
    list.add(task("Refactor module", Category::InProgress));
    list.add(task("Ship release", Category::Done));
    assert_eq!(
        list.encode(),
        "[Any] Buy milk\n[Todo] Write report\n[InProgress] Refactor module\n[Done] Ship release\n"
    );
}

#[test]
fn encode_of_empty_list_is_empty() {
    assert_eq!(TodoList::new().encode(), "");
}

#[test]
fn decode_reads_one_task_per_line_in_file_order() {
    let decoded = TodoList::decode("[Any] Buy milk\n[Todo] Write report\n[Done] Ship release\n");
    assert_eq!(
        pairs(&decoded),
        vec![
            ("Buy milk".to_string(), Category::Any),
            ("Write report".to_string(), Category::Todo),
            ("Ship release".to_string(), Category::Done),
        ]
    );
}

#[test]
fn round_trip_preserves_names_and_categories() {
    let mut list = TodoList::new();
    list.add(task("Buy milk", Category::Any));
    list.add(task("", Category::Todo));
    list.add(task("odd ] name [ with brackets", Category::InProgress));
    list.add(task("[Todo] a name that opens like a marker", Category::Done));
    let decoded = TodoList::decode(&list.encode());
    assert_eq!(pairs(&decoded), pairs(&list));
}

#[test]
fn decode_skips_lines_with_unrecognized_categories() {
    let decoded = TodoList::decode("[Any] Good\n[Nope] Bad\n");
    assert_eq!(pairs(&decoded), vec![("Good".to_string(), Category::Any)]);
}

#[test]
fn decode_is_case_sensitive_about_category_tokens() {
    let decoded = TodoList::decode("[any] lower\n[TODO] upper\n[Done] kept\n");
    assert_eq!(pairs(&decoded), vec![("kept".to_string(), Category::Done)]);
}

#[test]
fn decode_skips_malformed_brackets_and_missing_space() {
    let decoded = TodoList::decode("Any] no open\n[Any no close\n[Any]no space\n[Any] yes\n");
    assert_eq!(pairs(&decoded), vec![("yes".to_string(), Category::Any)]);
}

#[test]
fn decode_keeps_a_task_with_an_empty_name() {
    let decoded = TodoList::decode("[Any] \n");
    assert_eq!(pairs(&decoded), vec![("".to_string(), Category::Any)]);
}

#[test]
fn decode_reads_a_last_line_without_a_line_break() {
    let decoded = TodoList::decode("[Todo] first\n[Done] last");
    assert_eq!(
        pairs(&decoded),
        vec![
            ("first".to_string(), Category::Todo),
            ("last".to_string(), Category::Done),
        ]
    );
}

#[test]
fn decode_of_empty_text_is_empty() {
    assert_eq!(TodoList::decode("").len(), 0);
    assert_eq!(TodoList::decode("\n\n").len(), 0);
}
