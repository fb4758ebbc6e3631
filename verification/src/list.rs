//! Queries on a loaded collection: the listing of a day, a week or a month,
//! ordered by date and time, and the search by name, ordered by edit
//! distance.

use crate::create::{text_view, ValidationError};
use crate::date::{lemma_date_order_transitive, parse_date, sunday_of, task_date, week_end, Date};
use crate::distance::{close_enough, edit_distance, is_similar, levenshtein};
use crate::rank::{is_ordered, lemma_sorted_is_ordered, sort_by_rank, sorted, Ranked};
use crate::task::Task;
use crate::text::{
    chars_contain, chars_of, lemma_lex_total, lemma_lex_transitive, lex_le, occurs_in, text_le,
};
use vstd::prelude::*;

verus! {

/// Which tasks a listing shows, by whether they are done.
#[derive(Copy, Clone, PartialEq, Eq, PartialOrd, Ord, Debug, Structural)]
pub enum ShowMode {
    /// Only the tasks that are not done.
    NotDone,
    /// Every task.
    All,
    /// Only the tasks that are done.
    Done,
}

impl ShowMode {
    /// Whether a task is shown that is done, or not done, as `done` says.
    pub open spec fn shows(self, done: bool) -> bool {
        match self {
            ShowMode::NotDone => !done,
            ShowMode::All => true,
            ShowMode::Done => done,
        }
    }

    /// Decides `shows`.
    pub fn admits(&self, done: bool) -> (r: bool)
        ensures
            r == self.shows(done),
    {
        match self {
            ShowMode::NotDone => !done,
            ShowMode::All => true,
            ShowMode::Done => done,
        }
    }
}

/// The days that a query admits.
#[derive(Copy, Clone, PartialEq, Eq, Debug, Structural)]
pub enum Window {
    /// Every day.
    Any,
    /// One day.
    Day(Date),
    /// The days from the first date to the second, both among them.
    Span(Date, Date),
    /// The days of one month of the year, in any year.
    Month(u32),
}

impl Window {
    /// Whether `date` is one of the days of the window.
    pub open spec fn admits(self, date: Date) -> bool {
        match self {
            Window::Any => true,
            Window::Day(day) => date == day,
            Window::Span(first, last) => first.on_or_before(date) && date.on_or_before(last),
            Window::Month(month) => date.month == month,
        }
    }

    /// Decides `admits`.
    pub fn allows(&self, date: &Date) -> (r: bool)
        ensures
            r == self.admits(*date),
    {
        match self {
            Window::Any => true,
            Window::Day(day) => date.year == day.year && date.month == day.month && date.day
                == day.day,
            Window::Span(first, last) => first.is_on_or_before(date) && date.is_on_or_before(last),
            Window::Month(month) => date.month == *month,
        }
    }
}

/// A task together with the date that its date text stands for.
#[derive(Debug)]
pub struct Dated {
    pub task: Task,
    pub date: Date,
}

impl Ranked for Dated {
    /// Earlier dates first; on one date, by the time as text.
    open spec fn ranks_le(&self, other: &Self) -> bool {
        if self.date == other.date {
            lex_le(self.task.time@, other.task.time@)
        } else {
            self.date.on_or_before(other.date)
        }
    }

    fn no_later_than(&self, other: &Self) -> (r: bool) {
        if self.date.year == other.date.year && self.date.month == other.date.month
            && self.date.day == other.date.day {
            text_le(self.task.time.as_str(), other.task.time.as_str())
        } else {
            self.date.is_on_or_before(&other.date)
        }
    }

    proof fn lemma_total(a: &Self, b: &Self) {
        lemma_lex_total(a.task.time@, b.task.time@);
    }

    proof fn lemma_transitive(a: &Self, b: &Self, c: &Self) {
        if a.date == b.date && b.date == c.date {
            lemma_lex_transitive(a.task.time@, b.task.time@, c.task.time@);
        } else {
            lemma_date_order_transitive(a.date, b.date, c.date);
        }
    }
}

/// A task together with the edit distance of its name from a query.
#[derive(Debug)]
pub struct Scored {
    pub task: Task,
    pub distance: usize,
}

impl Ranked for Scored {
    /// Smaller distances first.
    open spec fn ranks_le(&self, other: &Self) -> bool {
        self.distance <= other.distance
    }

    fn no_later_than(&self, other: &Self) -> (r: bool) {
        self.distance <= other.distance
    }

    proof fn lemma_total(a: &Self, b: &Self) {
    }

    proof fn lemma_transitive(a: &Self, b: &Self, c: &Self) {
    }
}

/// The tasks of `tasks` whose date text stands for a date, each with that
/// date, in their order. A task whose date text stands for none is left
/// out.
pub open spec fn dated(tasks: Seq<Task>) -> Seq<Dated>
    decreases tasks.len(),
{
    if tasks.len() == 0 {
        Seq::empty()
    } else {
        let before = dated(tasks.drop_last());
        match task_date(tasks.last().date@) {
            Some(date) => before.push(Dated { task: tasks.last(), date }),
            None => before,
        }
    }
}

/// The entries that a listing keeps: those that the show mode shows and
/// whose date the window admits.
pub open spec fn kept(entries: Seq<Dated>, window: Window, mode: ShowMode) -> Seq<Dated> {
    entries.filter(|e: Dated| mode.shows(e.task.done) && window.admits(e.date))
}

/// The first `count` items of `s`, or all of them where there are fewer.
pub open spec fn first<T>(s: Seq<T>, count: nat) -> Seq<T> {
    if count <= s.len() {
        s.take(count as int)
    } else {
        s
    }
}

/// The tasks of dated entries, in their order.
pub open spec fn tasks_of(entries: Seq<Dated>) -> Seq<Task> {
    Seq::new(entries.len(), |i: int| entries[i].task)
}

/// What a listing of dated entries shows: the entries that are kept, by
/// date and then by time as text, entries with the same date and time in
/// the order in which they came; of these the first `count`.
pub open spec fn arranged(entries: Seq<Dated>, window: Window, mode: ShowMode, count: nat) -> Seq<
    Task,
> {
    tasks_of(first(sorted(kept(entries, window, mode)), count))
}

/// The window that the three switches of a listing choose on the day
/// `now`: that day, the days from it to the Sunday that ends its week, the
/// month of it, or every day. Where more than one switch is set, the first
/// of them in this order counts.
pub open spec fn scope(today: bool, week: bool, month: bool, now: Date) -> Window {
    if today {
        Window::Day(now)
    } else if week {
        Window::Span(now, sunday_of(now))
    } else if month {
        Window::Month(now.month)
    } else {
        Window::Any
    }
}

/// The first items of a sorted sequence are in ascending rank: a listing is
/// in order of date and then time, a search in order of distance.
pub proof fn lemma_first_is_ordered<T: Ranked>(s: Seq<T>, count: nat)
    ensures
        is_ordered(first(sorted(s), count)),
{
    lemma_sorted_is_ordered(s);
    let all = sorted(s);
    let cut = first(all, count);
    assert forall|i: int, j: int| #![trigger cut[i], cut[j]] 0 <= i < j < cut.len() implies cut[i].ranks_le(
        &cut[j],
    ) by {
        assert(cut[i] == all[i] && cut[j] == all[j]);
    }
}

/// Every entry that a listing keeps is one that the show mode shows and
/// whose date the window admits.
pub proof fn lemma_kept_are_admitted(entries: Seq<Dated>, window: Window, mode: ShowMode, at: int)
    requires
        0 <= at < kept(entries, window, mode).len(),
    ensures
        mode.shows(kept(entries, window, mode)[at].task.done),
        window.admits(kept(entries, window, mode)[at].date),
{
    entries.lemma_filter_pred(|e: Dated| mode.shows(e.task.done) && window.admits(e.date), at);
}

/// Reads the date of each task and leaves out the tasks that have none.
pub fn with_dates(tasks: Vec<Task>) -> (entries: Vec<Dated>)
    ensures
        entries@ == dated(tasks@),
{
    let mut entries: Vec<Dated> = Vec::new();
    let ghost all = tasks@;
    assert(all.take(0) =~= Seq::<Task>::empty());
    for task in it: tasks.into_iter()
        invariant
            it.seq() == all,
            entries@ == dated(all.take(it.index() as int)),
    {
        assert(all.take(it.index() + 1).drop_last() =~= all.take(it.index() as int));
        match parse_date(task.date.as_str()) {
            Some(date) => {
                entries.push(Dated { task, date });
            },
            None => {},
        }
    }
    assert(all.take(all.len() as int) =~= all);
    entries
}

/// The places in `tasks` of the tasks that a listing or a search passes
/// over for their date.
pub open spec fn undated(tasks: Seq<Task>) -> Seq<usize>
    decreases tasks.len(),
{
    if tasks.len() == 0 {
        Seq::empty()
    } else {
        let before = undated(tasks.drop_last());
        if task_date(tasks.last().date@) is None {
            before.push((tasks.len() - 1) as usize)
        } else {
            before
        }
    }
}

/// The places of tasks without a date are places of the collection, each
/// of a task whose date text stands for no date, and in ascending order;
/// every such place is among them.
pub proof fn lemma_undated(tasks: Seq<Task>)
    requires
        tasks.len() <= usize::MAX,
    ensures
        undated(tasks).len() <= tasks.len(),
        forall|k: int|
            0 <= k < undated(tasks).len() ==> {
                &&& (#[trigger] undated(tasks)[k]) < tasks.len()
                &&& task_date(tasks[undated(tasks)[k] as int].date@) is None
            },
        forall|j: int, k: int|
            #![trigger undated(tasks)[j], undated(tasks)[k]]
            0 <= j < k < undated(tasks).len() ==> undated(tasks)[j] < undated(tasks)[k],
        forall|i: int|
            0 <= i < tasks.len() && task_date((#[trigger] tasks[i]).date@) is None ==> undated(
                tasks,
            ).contains(i as usize),
    decreases tasks.len(),
{
    if tasks.len() > 0 {
        let init = tasks.drop_last();
        let all = undated(tasks);
        let before = undated(init);
        lemma_undated(init);
        assert forall|k: int| 0 <= k < all.len() implies {
            &&& (#[trigger] all[k]) < tasks.len()
            &&& task_date(tasks[all[k] as int].date@) is None
        } by {
            if k < before.len() {
                assert(all[k] == before[k]);
                assert(tasks[before[k] as int] == init[before[k] as int]);
            }
        }
        assert forall|j: int, k: int| #![trigger all[j], all[k]] 0 <= j < k < all.len() implies all[j]
            < all[k] by {
            assert(all[j] == before[j]);
            if k < before.len() {
                assert(all[k] == before[k]);
            }
        }
        assert forall|i: int|
            0 <= i < tasks.len() && task_date((#[trigger] tasks[i]).date@) is None implies all.contains(
            i as usize,
        ) by {
            if i < init.len() {
                assert(init[i] == tasks[i]);
                assert(before.contains(i as usize));
                let k = choose|k: int| 0 <= k < before.len() && before[k] == i as usize;
                assert(all[k] == i as usize);
            } else {
                assert(all[all.len() - 1] == i as usize);
            }
        }
    }
}

/// The places of the tasks that a listing or a search passes over because
/// the date library reads no date from their date text, in ascending
/// order.
pub fn without_dates(tasks: &Vec<Task>) -> (skipped: Vec<usize>)
    ensures
        skipped@ == undated(tasks@),
        forall|k: int|
            0 <= k < skipped.len() ==> {
                &&& (#[trigger] skipped[k]) < tasks.len()
                &&& task_date(tasks[skipped[k] as int].date@) is None
            },
        forall|j: int, k: int|
            #![trigger skipped[j], skipped[k]]
            0 <= j < k < skipped.len() ==> skipped[j] < skipped[k],
        forall|i: int|
            0 <= i < tasks.len() && task_date((#[trigger] tasks[i]).date@) is None
                ==> skipped@.contains(i as usize),
{
    let mut skipped: Vec<usize> = Vec::new();
    let mut i: usize = 0;
    assert(tasks@.take(0) =~= Seq::<Task>::empty());
    while i < tasks.len()
        invariant
            i <= tasks.len(),
            skipped@ == undated(tasks@.take(i as int)),
        decreases tasks.len() - i,
    {
        assert(tasks@.take(i + 1).drop_last() =~= tasks@.take(i as int));
        if parse_date(tasks[i].date.as_str()).is_none() {
            skipped.push(i);
        }
        i += 1;
    }
    assert(tasks@.take(tasks.len() as int) =~= tasks@);
    proof {
        lemma_undated(tasks@);
    }
    skipped
}

/// The tasks of `entries`, in their order.
pub fn strip_dates(entries: Vec<Dated>) -> (tasks: Vec<Task>)
    ensures
        tasks@ == tasks_of(entries@),
{
    let mut tasks: Vec<Task> = Vec::new();
    let ghost all = entries@;
    for entry in it: entries.into_iter()
        invariant
            it.seq() == all,
            tasks@ == tasks_of(all.take(it.index() as int)),
    {
        tasks.push(entry.task);
        assert(tasks@ =~= tasks_of(all.take(it.index() + 1)));
    }
    assert(all.take(all.len() as int) =~= all);
    tasks
}

/// Lists dated entries: keeps those that the show mode shows and the
/// window admits, orders them by date and then by time as text, and hands
/// out the tasks of the first `count`.
pub fn arrange(entries: Vec<Dated>, window: Window, mode: ShowMode, count: u32) -> (shown: Vec<
    Task,
>)
    ensures
        shown@ == arranged(entries@, window, mode, count as nat),
{
    let mut chosen: Vec<Dated> = Vec::new();
    let ghost all = entries@;
    assert(all.take(0) =~= Seq::<Dated>::empty());
    proof {
        reveal(Seq::filter);
    }
    for entry in it: entries.into_iter()
        invariant
            it.seq() == all,
            chosen@ == kept(all.take(it.index() as int), window, mode),
    {
        let ghost seen = all.take(it.index() as int);
        assert(all.take(it.index() + 1) =~= seen.push(entry));
        proof {
            seen.lemma_filter_push(
                entry,
                |e: Dated| mode.shows(e.task.done) && window.admits(e.date),
            );
        }
        if mode.admits(entry.task.done) && window.allows(&entry.date) {
            chosen.push(entry);
        }
    }
    assert(all.take(all.len() as int) =~= all);
    let mut ordered = sort_by_rank(chosen);
    ordered.truncate(count as usize);
    strip_dates(ordered)
}

/// Lists the tasks of a collection on the day `now`. Tasks whose date text
/// stands for no date are left out. The others are narrowed by the show
/// mode and by the window that the switches choose, ordered by date and
/// then by time as text, and cut to the first `count`.
pub fn list_tasks(
    tasks: Vec<Task>,
    today: bool,
    week: bool,
    month: bool,
    show_mode: ShowMode,
    count: u32,
    now: Date,
) -> (shown: Vec<Task>)
    requires
        now.is_calendar_date(),
    ensures
        shown@ == arranged(dated(tasks@), scope(today, week, month, now), show_mode, count as nat),
{
    let window = if today {
        Window::Day(now)
    } else if week {
        Window::Span(now, week_end(now))
    } else if month {
        Window::Month(now.month)
    } else {
        Window::Any
    };
    arrange(with_dates(tasks), window, show_mode, count)
}

/// The last day that a search without an end reaches.
pub open spec fn far_future() -> Date {
    Date { year: 9999, month: 12, day: 31 }
}

/// Whether a task named `name` answers a query: the query stands in the
/// name as it is written, or the name and the query are similar.
pub open spec fn is_match(name: Seq<char>, query: Seq<char>) -> bool {
    occurs_in(query, name) || is_similar(name, query)
}

/// The entries that answer a query, each with the edit distance of its name
/// from the query, in their order: those whose date the window admits and
/// whose name matches.
pub open spec fn scored(entries: Seq<Dated>, query: Seq<char>, window: Window) -> Seq<Scored>
    decreases entries.len(),
{
    if entries.len() == 0 {
        Seq::empty()
    } else {
        let before = scored(entries.drop_last(), query, window);
        let entry = entries.last();
        if window.admits(entry.date) && is_match(entry.task.name@, query) {
            before.push(
                Scored {
                    task: entry.task,
                    distance: edit_distance(entry.task.name@, query) as usize,
                },
            )
        } else {
            before
        }
    }
}

/// Every entry that answers a query has a name that matches it, at the
/// distance that is noted, and a date that the window admits.
pub proof fn lemma_scored_are_matches(
    entries: Seq<Dated>,
    query: Seq<char>,
    window: Window,
    at: int,
)
    requires
        0 <= at < scored(entries, query, window).len(),
    ensures
        is_match(scored(entries, query, window)[at].task.name@, query),
        scored(entries, query, window)[at].distance == edit_distance(
            scored(entries, query, window)[at].task.name@,
            query,
        ) as usize,
        exists|i: int|
            0 <= i < entries.len() && window.admits((#[trigger] entries[i]).date) && entries[i].task
                == scored(entries, query, window)[at].task,
    decreases entries.len(),
{
    let before = scored(entries.drop_last(), query, window);
    if at < before.len() {
        lemma_scored_are_matches(entries.drop_last(), query, window, at);
        let i = choose|i: int|
            0 <= i < entries.drop_last().len() && window.admits(
                (#[trigger] entries.drop_last()[i]).date,
            ) && entries.drop_last()[i].task == before[at].task;
        assert(entries[i] == entries.drop_last()[i]);
    } else {
        assert(entries[entries.len() - 1] == entries.last());
    }
}

/// The tasks of scored entries, in their order.
pub open spec fn found_tasks(entries: Seq<Scored>) -> Seq<Task> {
    Seq::new(entries.len(), |i: int| entries[i].task)
}

/// The tasks of scored entries by ascending distance, entries at the same
/// distance in the order in which they came; of these the first `count`.
pub open spec fn ranked(entries: Seq<Scored>, count: nat) -> Seq<Task> {
    found_tasks(first(sorted(entries), count))
}

/// What a search finds among `tasks` for the days from `first_day` to
/// `last_day`.
pub open spec fn searched(
    tasks: Seq<Task>,
    query: Seq<char>,
    first_day: Date,
    last_day: Date,
    count: nat,
) -> Seq<Task> {
    ranked(scored(dated(tasks), query, Window::Span(first_day, last_day)), count)
}

/// The first day of a search: the given date, or today where none is
/// given. `None` where the given text stands for no date.
pub open spec fn search_start(given: Option<Seq<char>>, today: Date) -> Option<Date> {
    match given {
        Some(text) => task_date(text),
        None => Some(today),
    }
}

/// The last day of a search: the given date, or the far future where none
/// is given. `None` where the given text stands for no date.
pub open spec fn search_end(given: Option<Seq<char>>) -> Option<Date> {
    match given {
        Some(text) => task_date(text),
        None => Some(far_future()),
    }
}

/// Whether a task named `name` answers `query`, and the edit distance of
/// the two.
pub fn match_name(name: &str, query: &str) -> (answer: (bool, usize))
    ensures
        answer.0 == is_match(name@, query@),
        answer.1 == edit_distance(name@, query@),
{
    let distance = levenshtein(name, query);
    let name_chars = chars_of(name);
    let query_chars = chars_of(query);
    let longer = if name_chars.len() >= query_chars.len() {
        name_chars.len()
    } else {
        query_chars.len()
    };
    let matched = chars_contain(&name_chars, &query_chars) || close_enough(distance, longer);
    (matched, distance)
}

/// Ranks scored entries by ascending distance and hands out the tasks of
/// the first `count`.
pub fn rank(entries: Vec<Scored>, count: u32) -> (found: Vec<Task>)
    ensures
        found@ == ranked(entries@, count as nat),
{
    let mut ordered = sort_by_rank(entries);
    ordered.truncate(count as usize);
    let mut found: Vec<Task> = Vec::new();
    let ghost all = ordered@;
    for entry in it: ordered.into_iter()
        invariant
            it.seq() == all,
            found@ == found_tasks(all.take(it.index() as int)),
    {
        found.push(entry.task);
        assert(found@ =~= found_tasks(all.take(it.index() + 1)));
    }
    assert(all.take(all.len() as int) =~= all);
    found
}

/// Searches a collection for `query` on the day `today`. The search covers
/// the days from `start_date`, or from today where none is given, to
/// `end_date`, or to the far future where none is given; a text from which
/// the date library reads no date is refused, that of the start first. Tasks whose
/// date text stands for no date are left out. Of the others, those in the
/// window whose name matches the query are ordered by the edit distance of
/// their name from the query and cut to the first `count`. The tags do not
/// narrow the search.
pub fn search_tasks(
    tasks: Vec<Task>,
    query: String,
    start_date: Option<String>,
    end_date: Option<String>,
    tags: Option<Vec<String>>,
    count: u32,
    today: Date,
) -> (found: Result<Vec<Task>, ValidationError>)
    ensures
        match found {
            Ok(list) => {
                &&& search_start(text_view(start_date), today) matches Some(first_day)
                &&& search_end(text_view(end_date)) matches Some(last_day)
                &&& list@ == searched(tasks@, query@, first_day, last_day, count as nat)
            },
            Err(e) => if search_start(text_view(start_date), today) is None {
                start_date matches Some(text) && e.refuses_date(text@)
            } else {
                &&& search_end(text_view(end_date)) is None
                &&& end_date matches Some(text) && e.refuses_date(text@)
            },
        },
{
    let first_day = match &start_date {
        Some(text) => match parse_date(text.as_str()) {
            Some(date) => date,
            None => {
                return Err(ValidationError::DateFormat { given: text.clone() });
            },
        },
        None => today,
    };
    let last_day = match &end_date {
        Some(text) => match parse_date(text.as_str()) {
            Some(date) => date,
            None => {
                return Err(ValidationError::DateFormat { given: text.clone() });
            },
        },
        None => Date { year: 9999, month: 12, day: 31 },
    };
    let window = Window::Span(first_day, last_day);
    let entries = with_dates(tasks);
    let mut answers: Vec<Scored> = Vec::new();
    let ghost all = entries@;
    assert(all.take(0) =~= Seq::<Dated>::empty());
    for entry in it: entries.into_iter()
        invariant
            it.seq() == all,
            answers@ == scored(all.take(it.index() as int), query@, window),
    {
        assert(all.take(it.index() + 1).drop_last() =~= all.take(it.index() as int));
        if window.allows(&entry.date) {
            let (matched, distance) = match_name(entry.task.name.as_str(), query.as_str());
            if matched {
                answers.push(Scored { task: entry.task, distance });
            }
        }
    }
    assert(all.take(all.len() as int) =~= all);
    Ok(rank(answers, count))
}

} // verus!
