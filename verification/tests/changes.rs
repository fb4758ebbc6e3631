use kask::create::{create_task, next_id, validate_date, validate_time, ValidationError};
use kask::date::{parse_date, parse_time, Date};
use kask::edit::{complete_task, delete_task, edit_task, find_by_id, NotFoundError};
use kask::task::Task;

fn task(id: u32, name: &str, done: bool) -> Task {
    Task {
        id,
        name: String::from(name),
        date: String::from("06/15/24"),
        time: String::from("10:00am"),
        description: String::from("about ") + name,
        done,
        tags: vec![String::from("t")],
    }
}

fn three() -> Vec<Task> {
    vec![task(1, "one", false), task(2, "two", false), task(3, "three", true)]
}

#[test]
fn date_in_the_expected_form_is_accepted() {
    assert_eq!(validate_date("06/15/24"), Ok(Date { year: 2024, month: 6, day: 15 }));
    assert_eq!(validate_date("12/31/99"), Ok(Date { year: 1999, month: 12, day: 31 }));
    assert_eq!(validate_date("02/29/24"), Ok(Date { year: 2024, month: 2, day: 29 }));
}

#[test]
fn date_in_another_form_is_refused_with_the_text() {
    assert_eq!(
        validate_date("2024-06-15"),
        Err(ValidationError::DateFormat { given: String::from("2024-06-15") })
    );
    assert_eq!(
        validate_date("13/01/24"),
        Err(ValidationError::DateFormat { given: String::from("13/01/24") })
    );
    assert_eq!(
        validate_date("02/30/24"),
        Err(ValidationError::DateFormat { given: String::from("02/30/24") })
    );
    assert_eq!(validate_date(""), Err(ValidationError::DateFormat { given: String::new() }));
}

#[test]
fn date_that_is_written_loosely_is_refused() {
    for text in ["6/15/24", "06/5/24", " 06/15/24", "06/15/24 ", "06/15/2024", "06/15/4", "06-15-24"] {
        assert_eq!(
            validate_date(text),
            Err(ValidationError::DateFormat { given: String::from(text) })
        );
    }
    assert_eq!(parse_date("6/5/24"), Some(Date { year: 2024, month: 6, day: 5 }));
    assert_eq!(parse_date(" 06/15/24"), Some(Date { year: 2024, month: 6, day: 15 }));
}

#[test]
fn time_that_is_written_loosely_is_refused() {
    for text in ["9:30am", "09:30AM", "09:30Pm", "09:5am", " 09:30am", "09:30am ", "09.30am"] {
        assert_eq!(
            validate_time(text),
            Err(ValidationError::TimeFormat { given: String::from(text) })
        );
    }
    assert!(parse_time("9:30am"));
    assert!(parse_time("09:30AM"));
}

#[test]
fn time_in_the_expected_form_is_accepted() {
    assert_eq!(validate_time("09:30am"), Ok(()));
    assert_eq!(validate_time("11:59pm"), Ok(()));
    assert_eq!(validate_time("12:00pm"), Ok(()));
}

#[test]
fn time_in_another_form_is_refused_with_the_text() {
    assert_eq!(
        validate_time("25:00"),
        Err(ValidationError::TimeFormat { given: String::from("25:00") })
    );
    assert_eq!(
        validate_time("13:00pm"),
        Err(ValidationError::TimeFormat { given: String::from("13:00pm") })
    );
    assert_eq!(
        validate_time("09:30 am"),
        Err(ValidationError::TimeFormat { given: String::from("09:30 am") })
    );
    assert_eq!(
        validate_time("noon"),
        Err(ValidationError::TimeFormat { given: String::from("noon") })
    );
}

#[test]
fn created_task_has_defaults_for_what_was_left_out() {
    let made = create_task(String::from("Buy milk"), None, String::from("06/15/24"), None, None, 4);
    assert_eq!(
        made,
        Ok(Task {
            id: 4,
            name: String::from("Buy milk"),
            date: String::from("06/15/24"),
            time: String::from("11:59pm"),
            description: String::new(),
            done: false,
            tags: Vec::new(),
        })
    );
}

#[test]
fn created_task_keeps_what_was_given() {
    let made = create_task(
        String::from("Buy milk"),
        Some(String::from("two litres")),
        String::from("06/15/24"),
        Some(String::from("09:30am")),
        Some(vec![String::from("home"), String::from("shop")]),
        1,
    );
    assert_eq!(
        made,
        Ok(Task {
            id: 1,
            name: String::from("Buy milk"),
            date: String::from("06/15/24"),
            time: String::from("09:30am"),
            description: String::from("two litres"),
            done: false,
            tags: vec![String::from("home"), String::from("shop")],
        })
    );
}

#[test]
fn bad_date_makes_no_task() {
    let made = create_task(
        String::from("x"),
        None,
        String::from("tomorrow"),
        Some(String::from("never")),
        None,
        1,
    );
    assert_eq!(made, Err(ValidationError::DateFormat { given: String::from("tomorrow") }));
}

#[test]
fn bad_time_makes_no_task() {
    let made = create_task(
        String::from("x"),
        None,
        String::from("06/15/24"),
        Some(String::from("never")),
        None,
        1,
    );
    assert_eq!(made, Err(ValidationError::TimeFormat { given: String::from("never") }));
}

#[test]
fn first_id_is_one() {
    assert_eq!(next_id(&Vec::new()), Some(1));
}

#[test]
fn next_id_is_one_more_than_the_largest() {
    assert_eq!(next_id(&three()), Some(4));
    let gaps = vec![task(2, "a", false), task(17, "b", false), task(5, "c", false)];
    assert_eq!(next_id(&gaps), Some(18));
}

#[test]
fn no_id_follows_the_last_one() {
    assert_eq!(next_id(&vec![task(u32::MAX, "a", false)]), None);
    assert_eq!(next_id(&vec![task(u32::MAX - 1, "a", false)]), Some(u32::MAX));
}

#[test]
fn edit_of_done_alone_leaves_the_rest() {
    let mut tasks = three();
    assert_eq!(edit_task(&mut tasks, 2, None, None, None, None, Some(true), None), Ok(()));
    let mut expected = three();
    expected[1].done = true;
    assert_eq!(tasks, expected);
}

#[test]
fn edit_of_absent_id_is_refused_and_changes_nothing() {
    let mut tasks = three();
    let outcome = edit_task(
        &mut tasks,
        99,
        Some(String::from("new")),
        None,
        None,
        None,
        Some(true),
        None,
    );
    assert_eq!(outcome, Err(NotFoundError { id: 99 }));
    assert_eq!(tasks, three());
}

#[test]
fn edit_replaces_what_is_supplied_and_trims_texts() {
    let mut tasks = three();
    let outcome = edit_task(
        &mut tasks,
        1,
        Some(String::from("  renamed \t")),
        Some(String::from("\n described ")),
        Some(String::from(" 07/01/24 ")),
        Some(String::from(" 08:00am")),
        Some(true),
        Some(vec![String::from(" kept as given ")]),
    );
    assert_eq!(outcome, Ok(()));
    assert_eq!(
        tasks[0],
        Task {
            id: 1,
            name: String::from("renamed"),
            date: String::from("07/01/24"),
            time: String::from("08:00am"),
            description: String::from("described"),
            done: true,
            tags: vec![String::from(" kept as given ")],
        }
    );
    assert_eq!(tasks[1], three()[1]);
    assert_eq!(tasks[2], three()[2]);
}

#[test]
fn edit_can_set_done_back_to_false() {
    let mut tasks = three();
    assert_eq!(edit_task(&mut tasks, 3, None, None, None, None, Some(false), None), Ok(()));
    assert!(!tasks[2].done);
}

#[test]
fn edit_changes_only_the_first_of_two_with_one_id() {
    let mut tasks = vec![task(1, "a", false), task(1, "b", false)];
    assert_eq!(
        edit_task(&mut tasks, 1, Some(String::from("c")), None, None, None, None, None),
        Ok(())
    );
    assert_eq!(tasks[0].name, "c");
    assert_eq!(tasks[1].name, "b");
}

#[test]
fn complete_marks_the_task_done() {
    let mut tasks = three();
    complete_task(&mut tasks, 1);
    let mut expected = three();
    expected[0].done = true;
    assert_eq!(tasks, expected);
}

#[test]
fn complete_of_a_done_task_changes_nothing() {
    let mut tasks = three();
    complete_task(&mut tasks, 3);
    assert_eq!(tasks, three());
}

#[test]
fn complete_of_absent_id_changes_nothing() {
    let mut tasks = three();
    complete_task(&mut tasks, 99);
    assert_eq!(tasks, three());
}

#[test]
fn complete_marks_only_the_first_of_two_with_one_id() {
    let mut tasks = vec![task(1, "a", false), task(1, "b", false)];
    complete_task(&mut tasks, 1);
    assert!(tasks[0].done);
    assert!(!tasks[1].done);
}

#[test]
fn delete_removes_the_task_and_keeps_the_order() {
    let mut tasks = three();
    delete_task(&mut tasks, 2);
    assert_eq!(tasks, vec![task(1, "one", false), task(3, "three", true)]);
}

#[test]
fn delete_of_absent_id_changes_nothing() {
    let mut tasks = three();
    delete_task(&mut tasks, 99);
    assert_eq!(tasks, three());
}

#[test]
fn delete_removes_every_task_with_the_id() {
    let mut tasks = vec![task(1, "a", false), task(2, "b", false), task(1, "c", false)];
    delete_task(&mut tasks, 1);
    assert_eq!(tasks, vec![task(2, "b", false)]);
}

#[test]
fn deleted_id_is_not_given_again_while_a_larger_one_is_there() {
    let mut tasks = three();
    delete_task(&mut tasks, 2);
    assert_eq!(next_id(&tasks), Some(4));
}

#[test]
fn find_gives_the_first_place_of_an_id() {
    let tasks = vec![task(4, "a", false), task(2, "b", false), task(2, "c", false)];
    assert_eq!(find_by_id(&tasks, 2), Some(1));
    assert_eq!(find_by_id(&tasks, 4), Some(0));
    assert_eq!(find_by_id(&tasks, 3), None);
}

#[test]
fn copy_of_a_task_is_equal_to_it() {
    let original = task(5, "copy me", true);
    assert_eq!(original.clone(), original);
}
