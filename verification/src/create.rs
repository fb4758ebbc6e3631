//! Creating a task: the checks on the date and the time as they were
//! typed, the defaults for what was left out, and the next free id.

use crate::date::{is_task_time, parse_date, parse_time, task_date, Date};
use crate::record::is_digit;
use crate::task::{Task, TaskView};
use crate::text::chars_of;
use crate::text::texts;
use vstd::prelude::*;

verus! {

/// The time of a task that was created without one: the end of the day.
pub const DEFAULT_TIME: &'static str = "11:59pm";

/// Why a date or a time was refused. Each holds the text as it was given.
/// The form expected of a date is mm/dd/yy, that of a time hh:mm followed
/// by am or pm.
#[derive(Debug, PartialEq, Eq)]
pub enum ValidationError {
    /// The text is no date of the form month/day/two-digit year.
    DateFormat { given: String },
    /// The text is no time of the form hour:minute followed by am or pm.
    TimeFormat { given: String },
}

impl ValidationError {
    /// Whether this is the refusal of `text` as a date.
    pub open spec fn refuses_date(self, text: Seq<char>) -> bool {
        self matches ValidationError::DateFormat { given } && given@ == text
    }

    /// Whether this is the refusal of `text` as a time.
    pub open spec fn refuses_time(self, text: Seq<char>) -> bool {
        self matches ValidationError::TimeFormat { given } && given@ == text
    }
}

/// Whether `text` is written as a date is: two digits for the month, a
/// slash, two digits for the day, a slash, and two digits for the year.
pub open spec fn has_date_shape(text: Seq<char>) -> bool {
    &&& text.len() == 8
    &&& is_digit(text[0]) && is_digit(text[1])
    &&& text[2] == '/'
    &&& is_digit(text[3]) && is_digit(text[4])
    &&& text[5] == '/'
    &&& is_digit(text[6]) && is_digit(text[7])
}

/// Whether `text` is written as a time is: two digits for the hour, a
/// colon, two digits for the minute, and `am` or `pm` in small letters.
pub open spec fn has_time_shape(text: Seq<char>) -> bool {
    &&& text.len() == 7
    &&& is_digit(text[0]) && is_digit(text[1])
    &&& text[2] == ':'
    &&& is_digit(text[3]) && is_digit(text[4])
    &&& (text[5] == 'a' || text[5] == 'p')
    &&& text[6] == 'm'
}

/// The date that `text` is accepted as when a task is created: the date
/// that the date library reads from it, where it is written as a date is.
pub open spec fn accepted_date(text: Seq<char>) -> Option<Date> {
    if has_date_shape(text) {
        task_date(text)
    } else {
        None
    }
}

/// Whether `text` is accepted as a time when a task is created: it is
/// written as a time is, and the date library reads a clock time from it.
pub open spec fn is_accepted_time(text: Seq<char>) -> bool {
    has_time_shape(text) && is_task_time(text)
}

/// Decides `is_digit`.
fn is_digit_char(c: char) -> (r: bool)
    ensures
        r == is_digit(c),
{
    '0' <= c && c <= '9'
}

/// The date that `text` is accepted as; the refusal of `text` where it is
/// not written as a date is, or the date library reads no date from it.
pub fn validate_date(text: &str) -> (checked: Result<Date, ValidationError>)
    ensures
        match checked {
            Ok(date) => accepted_date(text@) == Some(date),
            Err(e) => accepted_date(text@) is None && e.refuses_date(text@),
        },
{
    let c = chars_of(text);
    let shaped = c.len() == 8 && is_digit_char(c[0]) && is_digit_char(c[1]) && c[2] == '/'
        && is_digit_char(c[3]) && is_digit_char(c[4]) && c[5] == '/' && is_digit_char(c[6])
        && is_digit_char(c[7]);
    if shaped {
        match parse_date(text) {
            Some(date) => Ok(date),
            None => Err(ValidationError::DateFormat { given: text.to_owned() }),
        }
    } else {
        Err(ValidationError::DateFormat { given: text.to_owned() })
    }
}

/// Accepts `text` where it is written as a time is and the date library
/// reads a clock time from it, and refuses it otherwise.
pub fn validate_time(text: &str) -> (checked: Result<(), ValidationError>)
    ensures
        match checked {
            Ok(_) => is_accepted_time(text@),
            Err(e) => !is_accepted_time(text@) && e.refuses_time(text@),
        },
{
    let c = chars_of(text);
    let shaped = c.len() == 7 && is_digit_char(c[0]) && is_digit_char(c[1]) && c[2] == ':'
        && is_digit_char(c[3]) && is_digit_char(c[4]) && (c[5] == 'a' || c[5] == 'p') && c[6]
        == 'm';
    if shaped && parse_time(text) {
        Ok(())
    } else {
        Err(ValidationError::TimeFormat { given: text.to_owned() })
    }
}

/// What a new task holds: the given texts, the defaults for what was left
/// out, and not done.
pub open spec fn new_task(
    name: Seq<char>,
    description: Option<Seq<char>>,
    date: Seq<char>,
    time: Option<Seq<char>>,
    tags: Option<Seq<Seq<char>>>,
    id: u32,
) -> TaskView {
    TaskView {
        id,
        name,
        date,
        time: match time {
            Some(t) => t,
            None => DEFAULT_TIME@,
        },
        description: match description {
            Some(d) => d,
            None => Seq::empty(),
        },
        done: false,
        tags: match tags {
            Some(list) => list,
            None => Seq::empty(),
        },
    }
}

/// The characters of a text that may be absent.
pub open spec fn text_view(text: Option<String>) -> Option<Seq<char>> {
    match text {
        Some(t) => Some(t@),
        None => None,
    }
}

/// The characters of each text of a list that may be absent.
pub open spec fn texts_view(list: Option<Vec<String>>) -> Option<Seq<Seq<char>>> {
    match list {
        Some(l) => Some(texts(l@)),
        None => None,
    }
}

/// A new task with the id `generated_id`. The date is checked first, then
/// the time if one is given; a refusal makes no task.
pub fn create_task(
    name: String,
    description: Option<String>,
    date: String,
    time: Option<String>,
    tags: Option<Vec<String>>,
    generated_id: u32,
) -> (created: Result<Task, ValidationError>)
    ensures
        match created {
            Ok(task) => {
                &&& accepted_date(date@) is Some
                &&& time matches Some(t) ==> is_accepted_time(t@)
                &&& task@ == new_task(
                    name@,
                    text_view(description),
                    date@,
                    text_view(time),
                    texts_view(tags),
                    generated_id,
                )
            },
            Err(e) => if accepted_date(date@) is None {
                e.refuses_date(date@)
            } else {
                time matches Some(t) && !is_accepted_time(t@) && e.refuses_time(t@)
            },
        },
{
    match validate_date(date.as_str()) {
        Ok(_) => {},
        Err(e) => {
            return Err(e);
        },
    }
    let when = match time {
        Some(t) => {
            match validate_time(t.as_str()) {
                Ok(_) => {},
                Err(e) => {
                    return Err(e);
                },
            }
            t
        },
        None => DEFAULT_TIME.to_owned(),
    };
    let what = match description {
        Some(d) => d,
        None => String::new(),
    };
    let labels = match tags {
        Some(list) => list,
        None => Vec::new(),
    };
    let task = Task {
        id: generated_id,
        name,
        date,
        time: when,
        description: what,
        done: false,
        tags: labels,
    };
    assert(task@.tags =~= new_task(
        name@,
        text_view(description),
        date@,
        text_view(time),
        texts_view(tags),
        generated_id,
    ).tags);
    Ok(task)
}

/// The largest id among `tasks`; 0 where there are none.
pub open spec fn max_id(tasks: Seq<Task>) -> nat
    decreases tasks.len(),
{
    if tasks.len() == 0 {
        0
    } else {
        let before = max_id(tasks.drop_last());
        if tasks.last().id > before {
            tasks.last().id as nat
        } else {
            before
        }
    }
}

/// No task has an id above `max_id`.
pub proof fn lemma_max_id_bounds(tasks: Seq<Task>)
    ensures
        forall|i: int| 0 <= i < tasks.len() ==> (#[trigger] tasks[i]).id <= max_id(tasks),
    decreases tasks.len(),
{
    if tasks.len() > 0 {
        lemma_max_id_bounds(tasks.drop_last());
        assert forall|i: int| 0 <= i < tasks.len() implies (#[trigger] tasks[i]).id <= max_id(
            tasks,
        ) by {
            if i < tasks.len() - 1 {
                assert(tasks.drop_last()[i] == tasks[i]);
            }
        }
    }
}

/// The id for the next task of a list: one more than the largest id in it,
/// so 1 for an empty list, and an id that no task of the list has. `None`
/// where the largest id is the last that 32 bits hold.
pub fn next_id(tasks: &Vec<Task>) -> (id: Option<u32>)
    ensures
        id == if max_id(tasks@) < u32::MAX {
            Some((max_id(tasks@) + 1) as u32)
        } else {
            None
        },
        id matches Some(fresh) ==> forall|i: int| 0 <= i < tasks.len() ==> tasks[i].id != fresh,
{
    let mut largest: u32 = 0;
    let mut i: usize = 0;
    assert(tasks@.take(0) =~= Seq::<Task>::empty());
    while i < tasks.len()
        invariant
            i <= tasks.len(),
            largest == max_id(tasks@.take(i as int)),
        decreases tasks.len() - i,
    {
        assert(tasks@.take(i + 1).drop_last() =~= tasks@.take(i as int));
        if tasks[i].id > largest {
            largest = tasks[i].id;
        }
        i += 1;
    }
    assert(tasks@.take(tasks.len() as int) =~= tasks@);
    proof {
        lemma_max_id_bounds(tasks@);
    }
    if largest < u32::MAX {
        Some(largest + 1)
    } else {
        None
    }
}

} // verus!
