use kask::create::ValidationError;
use kask::date::{parse_date, parse_time, week_end, Date};
use kask::distance::close_enough;
use kask::list::{
    arrange, list_tasks, match_name, rank, search_tasks, strip_dates, with_dates, without_dates,
    Dated, Scored, ShowMode, Window,
};
use kask::rank::sort_by_rank;
use kask::task::Task;
use kask::text::{chars_of, string_of, text_contains, text_le, trim};

fn task(id: u32, name: &str, date: &str, time: &str, done: bool) -> Task {
    Task {
        id,
        name: String::from(name),
        date: String::from(date),
        time: String::from(time),
        description: String::new(),
        done,
        tags: Vec::new(),
    }
}

fn day(year: i32, month: u32, day: u32) -> Date {
    Date::new(year, month, day).unwrap()
}

fn ids(tasks: &Vec<Task>) -> Vec<u32> {
    let mut out = Vec::new();
    for t in tasks {
        out.push(t.id);
    }
    out
}

fn names(tasks: &Vec<Task>) -> Vec<String> {
    let mut out = Vec::new();
    for t in tasks {
        out.push(t.name.clone());
    }
    out
}

fn year_of_tasks() -> Vec<Task> {
    vec![
        task(1, "new year", "01/01/24", "11:59pm", false),
        task(2, "mid june", "06/15/24", "11:59pm", false),
        task(3, "new year's eve", "12/31/24", "11:59pm", false),
    ]
}

fn week_of_tasks() -> Vec<Task> {
    vec![
        task(1, "next monday", "06/10/24", "11:59pm", false),
        task(2, "sunday", "06/09/24", "11:59pm", false),
        task(3, "wednesday", "06/05/24", "11:59pm", true),
        task(4, "tuesday", "06/04/24", "11:59pm", false),
        task(5, "friday", "06/07/24", "11:59pm", false),
    ]
}

#[test]
fn month_scope_keeps_the_tasks_of_the_month() {
    let shown = list_tasks(year_of_tasks(), false, false, true, ShowMode::All, 10, day(2024, 6, 1));
    assert_eq!(shown, vec![task(2, "mid june", "06/15/24", "11:59pm", false)]);
}

#[test]
fn month_scope_keeps_the_month_of_any_year() {
    let tasks = vec![
        task(1, "a", "06/15/23", "11:59pm", false),
        task(2, "b", "06/15/25", "11:59pm", false),
        task(3, "c", "07/15/24", "11:59pm", false),
    ];
    let shown = list_tasks(tasks, false, false, true, ShowMode::All, 10, day(2024, 6, 1));
    assert_eq!(ids(&shown), vec![1, 2]);
}

#[test]
fn today_scope_keeps_the_tasks_of_the_day() {
    let shown = list_tasks(week_of_tasks(), true, false, false, ShowMode::All, 10, day(2024, 6, 5));
    assert_eq!(ids(&shown), vec![3]);
}

#[test]
fn week_scope_keeps_today_to_sunday() {
    let shown = list_tasks(week_of_tasks(), false, true, false, ShowMode::All, 10, day(2024, 6, 5));
    assert_eq!(ids(&shown), vec![3, 5, 2]);
}

#[test]
fn week_scope_on_a_sunday_keeps_that_day_only() {
    let shown = list_tasks(week_of_tasks(), false, true, false, ShowMode::All, 10, day(2024, 6, 9));
    assert_eq!(ids(&shown), vec![2]);
}

#[test]
fn week_scope_on_a_monday_keeps_seven_days() {
    let shown = list_tasks(week_of_tasks(), false, true, false, ShowMode::All, 10, day(2024, 6, 3));
    assert_eq!(ids(&shown), vec![4, 3, 5, 2]);
}

#[test]
fn no_scope_keeps_every_day_in_order_of_date() {
    let shown =
        list_tasks(week_of_tasks(), false, false, false, ShowMode::All, 10, day(2024, 6, 5));
    assert_eq!(ids(&shown), vec![4, 3, 5, 2, 1]);
}

#[test]
fn first_switch_that_is_set_counts() {
    let shown = list_tasks(week_of_tasks(), true, true, true, ShowMode::All, 10, day(2024, 6, 5));
    assert_eq!(ids(&shown), vec![3]);
    let shown = list_tasks(week_of_tasks(), false, true, true, ShowMode::All, 10, day(2024, 6, 5));
    assert_eq!(ids(&shown), vec![3, 5, 2]);
}

#[test]
fn show_mode_narrows_by_done() {
    let now = day(2024, 6, 5);
    let shown = list_tasks(week_of_tasks(), false, false, false, ShowMode::Done, 10, now);
    assert_eq!(ids(&shown), vec![3]);
    let shown = list_tasks(week_of_tasks(), false, false, false, ShowMode::NotDone, 10, now);
    assert_eq!(ids(&shown), vec![4, 5, 2, 1]);
}

#[test]
fn listing_is_cut_to_the_count() {
    let now = day(2024, 6, 5);
    let shown = list_tasks(week_of_tasks(), false, false, false, ShowMode::All, 2, now);
    assert_eq!(ids(&shown), vec![4, 3]);
    let shown = list_tasks(week_of_tasks(), false, false, false, ShowMode::All, 0, now);
    assert!(shown.is_empty());
}

#[test]
fn tasks_of_one_day_are_ordered_by_time_as_text() {
    let tasks = vec![
        task(1, "a", "06/05/24", "9:00am", false),
        task(2, "b", "06/05/24", "10:00am", false),
        task(3, "c", "06/05/24", "09:00pm", false),
        task(4, "d", "06/04/24", "11:59pm", false),
    ];
    let shown = list_tasks(tasks, false, false, false, ShowMode::All, 10, day(2024, 6, 5));
    assert_eq!(ids(&shown), vec![4, 3, 2, 1]);
}

#[test]
fn tasks_with_one_date_and_time_keep_their_order() {
    let tasks = vec![
        task(3, "a", "06/05/24", "10:00am", false),
        task(1, "b", "06/05/24", "10:00am", false),
        task(2, "c", "06/05/24", "10:00am", false),
    ];
    let shown = list_tasks(tasks, false, false, false, ShowMode::All, 10, day(2024, 6, 5));
    assert_eq!(ids(&shown), vec![3, 1, 2]);
}

#[test]
fn years_are_ordered_before_months_and_days() {
    let tasks = vec![
        task(1, "a", "01/01/25", "11:59pm", false),
        task(2, "b", "12/31/24", "11:59pm", false),
        task(3, "c", "06/15/99", "11:59pm", false),
    ];
    let shown = list_tasks(tasks, false, false, false, ShowMode::All, 10, day(2024, 6, 5));
    assert_eq!(ids(&shown), vec![3, 2, 1]);
}

#[test]
fn task_without_a_readable_date_is_left_out() {
    let tasks = vec![
        task(1, "a", "06/05/24", "10:00am", false),
        task(2, "b", "someday", "10:00am", false),
        task(3, "c", "06/04/24", "10:00am", false),
    ];
    let shown = list_tasks(tasks, false, false, false, ShowMode::All, 10, day(2024, 6, 5));
    assert_eq!(ids(&shown), vec![3, 1]);
}

#[test]
fn places_of_tasks_without_a_date_are_told() {
    let tasks = vec![
        task(1, "a", "someday", "10:00am", false),
        task(2, "b", "06/05/24", "10:00am", false),
        task(3, "c", "", "10:00am", false),
        task(4, "d", "6/5/24", "10:00am", false),
        task(5, "e", "02/30/24", "10:00am", false),
    ];
    assert_eq!(without_dates(&tasks), vec![0, 2, 4]);
    assert_eq!(without_dates(&year_of_tasks()), Vec::<usize>::new());
    assert_eq!(without_dates(&Vec::new()), Vec::<usize>::new());
}

#[test]
fn dates_are_read_for_each_task() {
    let tasks = vec![
        task(1, "a", "06/05/24", "10:00am", false),
        task(2, "b", "", "10:00am", false),
    ];
    let entries = with_dates(tasks);
    assert_eq!(entries.len(), 1);
    assert_eq!(entries[0].date, Date { year: 2024, month: 6, day: 5 });
    assert_eq!(entries[0].task.id, 1);
    assert_eq!(ids(&strip_dates(entries)), vec![1]);
}

#[test]
fn arrange_goes_by_the_dates_it_is_given() {
    let entries = vec![
        Dated { task: task(1, "a", "x", "b", false), date: Date { year: 2024, month: 3, day: 2 } },
        Dated { task: task(2, "b", "x", "a", false), date: Date { year: 2024, month: 3, day: 2 } },
        Dated { task: task(3, "c", "x", "z", true), date: Date { year: 2024, month: 3, day: 1 } },
        Dated { task: task(4, "d", "x", "z", false), date: Date { year: 2023, month: 12, day: 9 } },
    ];
    let window =
        Window::Span(Date { year: 2024, month: 1, day: 1 }, Date { year: 2024, month: 3, day: 2 });
    assert_eq!(ids(&arrange(entries, window, ShowMode::All, 5)), vec![3, 2, 1]);
}

#[test]
fn window_admits_its_days() {
    let d = Date { year: 2024, month: 6, day: 5 };
    assert!(Window::Any.allows(&d));
    assert!(Window::Day(d).allows(&d));
    assert!(!Window::Day(Date { year: 2023, month: 6, day: 5 }).allows(&d));
    assert!(Window::Month(6).allows(&d));
    assert!(!Window::Month(5).allows(&d));
    assert!(Window::Span(d, d).allows(&d));
    assert!(!Window::Span(Date { year: 2024, month: 6, day: 6 }, Date { year: 2024, month: 7, day: 1 })
        .allows(&d));
    assert!(!Window::Span(Date { year: 2024, month: 1, day: 1 }, Date { year: 2024, month: 6, day: 4 })
        .allows(&d));
}

#[test]
fn search_keeps_what_holds_the_query() {
    let tasks = vec![
        task(1, "Go to gym", "06/15/24", "11:59pm", false),
        task(2, "Buy milk", "06/15/24", "11:59pm", false),
        task(3, "Gym session", "06/15/24", "11:59pm", false),
    ];
    let found =
        search_tasks(tasks, String::from("gym"), None, None, None, 10, day(2024, 6, 1)).unwrap();
    assert_eq!(names(&found), vec![String::from("Go to gym")]);
}

#[test]
fn search_ranks_by_distance() {
    let tasks = vec![
        task(1, "my gym bag is gone", "06/15/24", "11:59pm", false),
        task(2, "gym", "06/15/24", "11:59pm", false),
        task(3, "Buy milk", "06/15/24", "11:59pm", false),
        task(4, "gym at 5", "06/15/24", "11:59pm", false),
    ];
    let found =
        search_tasks(tasks, String::from("gym"), None, None, None, 10, day(2024, 6, 1)).unwrap();
    assert_eq!(ids(&found), vec![2, 4, 1]);
}

#[test]
fn search_keeps_similar_names_without_the_query_in_them() {
    let tasks = vec![
        task(1, "weekly report", "06/15/24", "11:59pm", false),
        task(2, "weakly report", "06/15/24", "11:59pm", false),
        task(3, "annual report", "06/15/24", "11:59pm", false),
    ];
    let found = search_tasks(
        tasks,
        String::from("weekly reports"),
        None,
        None,
        None,
        10,
        day(2024, 6, 1),
    )
    .unwrap();
    assert_eq!(ids(&found), vec![1, 2]);
}

#[test]
fn search_keeps_the_order_of_equal_distances() {
    let tasks = vec![
        task(5, "gym b", "06/15/24", "11:59pm", false),
        task(1, "gym a", "06/15/24", "11:59pm", false),
        task(3, "a gym", "06/15/24", "11:59pm", false),
    ];
    let found =
        search_tasks(tasks, String::from("gym"), None, None, None, 10, day(2024, 6, 1)).unwrap();
    assert_eq!(ids(&found), vec![5, 1, 3]);
}

#[test]
fn search_starts_today_where_no_start_is_given() {
    let tasks = vec![
        task(1, "gym", "05/31/24", "11:59pm", false),
        task(2, "gym", "06/01/24", "11:59pm", false),
        task(3, "gym", "06/02/68", "11:59pm", false),
    ];
    let found =
        search_tasks(tasks, String::from("gym"), None, None, None, 10, day(2024, 6, 1)).unwrap();
    assert_eq!(ids(&found), vec![2, 3]);
}

#[test]
fn search_keeps_the_days_of_the_window() {
    let tasks = vec![
        task(1, "gym", "05/31/24", "11:59pm", false),
        task(2, "gym", "06/01/24", "11:59pm", false),
        task(3, "gym", "06/30/24", "11:59pm", false),
        task(4, "gym", "07/01/24", "11:59pm", false),
        task(5, "gym", "never", "11:59pm", false),
    ];
    let found = search_tasks(
        tasks,
        String::from("gym"),
        Some(String::from("06/01/24")),
        Some(String::from("06/30/24")),
        Some(vec![String::from("ignored")]),
        10,
        day(2030, 1, 1),
    )
    .unwrap();
    assert_eq!(ids(&found), vec![2, 3]);
}

#[test]
fn search_is_cut_to_the_count() {
    let tasks = vec![
        task(1, "gym 1", "06/15/24", "11:59pm", false),
        task(2, "gym", "06/15/24", "11:59pm", false),
        task(3, "gym 22", "06/15/24", "11:59pm", false),
    ];
    let found =
        search_tasks(tasks, String::from("gym"), None, None, None, 2, day(2024, 6, 1)).unwrap();
    assert_eq!(ids(&found), vec![2, 1]);
}

#[test]
fn search_refuses_a_start_that_is_no_date() {
    let found = search_tasks(
        year_of_tasks(),
        String::from("new"),
        Some(String::from("soon")),
        Some(String::from("later")),
        None,
        10,
        day(2024, 6, 1),
    );
    assert_eq!(found, Err(ValidationError::DateFormat { given: String::from("soon") }));
}

#[test]
fn search_refuses_an_end_that_is_no_date() {
    let found = search_tasks(
        year_of_tasks(),
        String::from("new"),
        Some(String::from("01/01/24")),
        Some(String::from("later")),
        None,
        10,
        day(2024, 6, 1),
    );
    assert_eq!(found, Err(ValidationError::DateFormat { given: String::from("later") }));
}

#[test]
fn empty_query_stands_in_every_name() {
    let found =
        search_tasks(year_of_tasks(), String::new(), None, None, None, 10, day(2024, 1, 1)).unwrap();
    assert_eq!(ids(&found), vec![1, 2, 3]);
}

#[test]
fn names_are_matched_and_measured() {
    assert_eq!(match_name("Go to gym", "gym"), (true, 6));
    assert_eq!(match_name("Buy milk", "gym"), (false, 6));
    assert_eq!(match_name("Gym session", "gym"), (false, 9));
    assert_eq!(match_name("kitten", "sitting"), (false, 3));
    assert_eq!(match_name("abcd", "abce"), (false, 1));
    assert_eq!(match_name("abcde", "abcdf"), (true, 1));
    assert_eq!(match_name("", ""), (true, 0));
    assert_eq!(match_name("", "abc"), (false, 3));
    assert_eq!(match_name("abc", ""), (true, 3));
    assert_eq!(match_name("naïve café", "naive cafe"), (true, 2));
}

#[test]
fn closeness_is_more_than_three_quarters_alike() {
    assert!(close_enough(0, 0));
    assert!(close_enough(0, 1));
    assert!(!close_enough(1, 4));
    assert!(close_enough(1, 5));
    assert!(!close_enough(2, 8));
    assert!(close_enough(2, 9));
    assert!(!close_enough(3, 7));
    assert!(!close_enough(usize::MAX, usize::MAX));
    assert!(close_enough(usize::MAX / 4, usize::MAX));
}

#[test]
fn rank_orders_by_distance_and_cuts() {
    let entries = vec![
        Scored { task: task(1, "c", "x", "y", false), distance: 9 },
        Scored { task: task(2, "a", "x", "y", false), distance: 6 },
        Scored { task: task(3, "b", "x", "y", false), distance: 6 },
        Scored { task: task(4, "d", "x", "y", false), distance: 0 },
    ];
    assert_eq!(ids(&rank(entries, 3)), vec![4, 2, 3]);
}

#[test]
fn sorting_is_stable_and_keeps_every_item() {
    let mut entries = Vec::new();
    let distances = [5usize, 3, 5, 1, 3, 3, 9, 0, 5];
    for (i, d) in distances.iter().enumerate() {
        entries.push(Scored { task: task(i as u32, "n", "x", "y", false), distance: *d });
    }
    let sorted = sort_by_rank(entries);
    let mut order = Vec::new();
    for e in &sorted {
        order.push((e.distance, e.task.id));
    }
    assert_eq!(
        order,
        vec![(0, 7), (1, 3), (3, 1), (3, 4), (3, 5), (5, 0), (5, 2), (5, 8), (9, 6)]
    );
}

#[test]
fn sorting_nothing_gives_nothing() {
    assert!(sort_by_rank(Vec::<Scored>::new()).is_empty());
}

#[test]
fn dates_are_read_by_the_date_library() {
    assert_eq!(parse_date("06/15/24"), Some(Date { year: 2024, month: 6, day: 15 }));
    assert_eq!(parse_date("01/01/70"), Some(Date { year: 1970, month: 1, day: 1 }));
    assert_eq!(parse_date("12/31/69"), Some(Date { year: 2069, month: 12, day: 31 }));
    assert_eq!(parse_date("02/29/23"), None);
    assert_eq!(parse_date("06/15/2024"), None);
    assert_eq!(parse_date("15/06/24"), None);
    assert_eq!(parse_date("06-15-24"), None);
}

#[test]
fn times_are_read_by_the_date_library() {
    assert!(parse_time("01:05am"));
    assert!(parse_time("12:59pm"));
    assert!(!parse_time("00:30am"));
    assert!(!parse_time("10:60am"));
    assert!(!parse_time("10:30"));
    assert!(!parse_time(""));
}

#[test]
fn calendar_dates_are_told_from_others() {
    assert_eq!(Date::new(2024, 2, 29), Some(Date { year: 2024, month: 2, day: 29 }));
    assert_eq!(Date::new(2023, 2, 29), None);
    assert_eq!(Date::new(1900, 2, 29), None);
    assert_eq!(Date::new(2000, 2, 29), Some(Date { year: 2000, month: 2, day: 29 }));
    assert_eq!(Date::new(2024, 4, 31), None);
    assert_eq!(Date::new(2024, 12, 31), Some(Date { year: 2024, month: 12, day: 31 }));
    assert_eq!(Date::new(2024, 0, 1), None);
    assert_eq!(Date::new(2024, 13, 1), None);
    assert_eq!(Date::new(2024, 1, 0), None);
    assert_eq!(Date::new(0, 1, 1), None);
    assert_eq!(Date::new(10000, 1, 1), None);
    assert_eq!(Date::new(9999, 12, 31), Some(Date { year: 9999, month: 12, day: 31 }));
    assert!(Date { year: 2024, month: 6, day: 30 }.is_valid());
    assert!(!Date { year: 2024, month: 6, day: 31 }.is_valid());
}

#[test]
fn dates_are_ordered_by_year_month_and_day() {
    let a = Date { year: 2024, month: 6, day: 5 };
    assert!(a.is_on_or_before(&a));
    assert!(a.is_on_or_before(&Date { year: 2024, month: 6, day: 6 }));
    assert!(a.is_on_or_before(&Date { year: 2024, month: 7, day: 1 }));
    assert!(a.is_on_or_before(&Date { year: 2025, month: 1, day: 1 }));
    assert!(!a.is_on_or_before(&Date { year: 2024, month: 6, day: 4 }));
    assert!(!a.is_on_or_before(&Date { year: 2024, month: 5, day: 31 }));
    assert!(!a.is_on_or_before(&Date { year: 2023, month: 12, day: 31 }));
}

#[test]
fn week_ends_on_its_sunday() {
    assert_eq!(week_end(day(2024, 6, 1)), Date { year: 2024, month: 6, day: 2 });
    assert_eq!(week_end(day(2024, 6, 3)), Date { year: 2024, month: 6, day: 9 });
    assert_eq!(week_end(day(2024, 6, 5)), Date { year: 2024, month: 6, day: 9 });
    assert_eq!(week_end(day(2024, 6, 9)), Date { year: 2024, month: 6, day: 9 });
    assert_eq!(week_end(day(2024, 12, 30)), Date { year: 2025, month: 1, day: 5 });
    assert_eq!(week_end(day(2023, 12, 31)), Date { year: 2023, month: 12, day: 31 });
    assert_eq!(week_end(day(9999, 12, 27)), Date { year: 10000, month: 1, day: 2 });
}

#[test]
fn trimming_takes_the_whitespace_around_a_text() {
    assert_eq!(trim("  a b \n"), "a b");
    assert_eq!(trim("\t\r\n"), "");
    assert_eq!(trim(""), "");
    assert_eq!(trim("x"), "x");
    assert_eq!(trim("\u{3000}wide\u{a0}"), "wide");
    assert_eq!(trim("\u{200b}zero width\u{200b}"), "\u{200b}zero width\u{200b}");
    for s in [" \u{85}a\u{2028}", "\u{1680}\u{2000}b c\u{200a}\u{205f}", "\u{b}\u{c}d\u{202f}  "] {
        assert_eq!(trim(s), s.trim());
    }
}

#[test]
fn texts_are_ordered_character_by_character() {
    assert!(text_le("", ""));
    assert!(text_le("", "a"));
    assert!(!text_le("a", ""));
    assert!(text_le("10:00am", "9:00am"));
    assert!(!text_le("9:00am", "10:00am"));
    assert!(text_le("ab", "abc"));
    assert!(!text_le("abc", "ab"));
    assert!(text_le("abc", "abd"));
    assert!(text_le("Z", "a"));
    for (a, b) in [("é", "z"), ("z", "é"), ("日本", "日本語"), ("😀", "é"), ("same", "same")] {
        assert_eq!(text_le(a, b), a <= b);
    }
}

#[test]
fn a_text_is_found_inside_another() {
    assert!(text_contains("Go to gym", "gym"));
    assert!(text_contains("Go to gym", "Go"));
    assert!(text_contains("Go to gym", "o t"));
    assert!(text_contains("Go to gym", ""));
    assert!(text_contains("", ""));
    assert!(!text_contains("", "a"));
    assert!(!text_contains("Gym", "gym"));
    assert!(!text_contains("gy", "gym"));
    assert!(!text_contains("g-y-m", "gym"));
    assert!(text_contains("aaab", "aab"));
    assert!(text_contains("日本語", "本"));
}

#[test]
fn characters_go_to_strings_and_back() {
    let chars = chars_of("héllo");
    assert_eq!(chars, vec!['h', 'é', 'l', 'l', 'o']);
    assert_eq!(string_of(&chars, 1, 4), "éll");
    assert_eq!(string_of(&chars, 2, 2), "");
    assert_eq!(string_of(&chars, 0, 5), "héllo");
}
