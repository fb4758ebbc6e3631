//! The task file as text: the lines of a file, the tasks that a file
//! holds, and the text of a file that holds given tasks.

use crate::record::{
    decode, encode, fields_of, is_plain, lemma_decimal_is_digits, lemma_round_trip, read_record,
    RecordError,
};
use crate::task::{views, Task, TaskView};
use crate::text::{
    chars_of, lacks, lemma_join_lacks, lemma_split_extended, lemma_split_nonempty, rows, split,
    split_chars,
};
use vstd::prelude::*;

verus! {

/// `line` without the carriage return at its end, if it ends in one.
pub open spec fn without_return(line: Seq<char>) -> Seq<char> {
    if line.len() > 0 && line.last() == '\r' {
        line.drop_last()
    } else {
        line
    }
}

/// The lines of `text`. A line ends with a line feed, or with a carriage
/// return and a line feed, neither of which is part of the line; what
/// follows the last line feed is a line too, unless nothing follows it.
pub open spec fn lines(text: Seq<char>) -> Seq<Seq<char>> {
    let pieces = split(text, '\n');
    let count = if pieces.last().len() == 0 {
        pieces.len() - 1
    } else {
        pieces.len() as int
    };
    Seq::new(
        count as nat,
        |i: int|
            if i < pieces.len() - 1 {
                without_return(pieces[i])
            } else {
                pieces[i]
            },
    )
}

/// The tasks that `lines` stand for, in their order. A line that stands
/// for no task is passed over.
pub open spec fn decoded(lines: Seq<Seq<char>>) -> Seq<TaskView>
    decreases lines.len(),
{
    if lines.len() == 0 {
        Seq::empty()
    } else {
        let before = decoded(lines.drop_last());
        match decode(lines.last()) {
            Ok(task) => before.push(task),
            Err(_) => before,
        }
    }
}

/// Why the lines that stand for no task do not, in the order of those
/// lines.
pub open spec fn rejected(lines: Seq<Seq<char>>) -> Seq<RecordError>
    decreases lines.len(),
{
    if lines.len() == 0 {
        Seq::empty()
    } else {
        let before = rejected(lines.drop_last());
        match decode(lines.last()) {
            Ok(_) => before,
            Err(e) => before.push(e),
        }
    }
}

/// The text of a file that holds `tasks`: the line of each, ended by a line
/// feed.
pub open spec fn file_text(tasks: Seq<TaskView>) -> Seq<char>
    decreases tasks.len(),
{
    if tasks.len() == 0 {
        Seq::empty()
    } else {
        file_text(tasks.drop_last()) + encode(tasks.last()) + seq!['\n']
    }
}

/// The tasks that the text of a file holds.
pub open spec fn loaded(text: Seq<char>) -> Seq<TaskView> {
    decoded(lines(text))
}

/// The tasks of lines that follow each other are the tasks of the first
/// lines followed by those of the others, and so are the refusals.
pub proof fn lemma_decoded_concat(a: Seq<Seq<char>>, b: Seq<Seq<char>>)
    ensures
        decoded(a + b) == decoded(a) + decoded(b),
        rejected(a + b) == rejected(a) + rejected(b),
    decreases b.len(),
{
    if b.len() == 0 {
        assert(a + b =~= a);
        assert(decoded(a) + decoded(b) =~= decoded(a));
        assert(rejected(a) + rejected(b) =~= rejected(a));
    } else {
        lemma_decoded_concat(a, b.drop_last());
        assert((a + b).drop_last() =~= a + b.drop_last());
        assert((a + b).last() == b.last());
        assert(decoded(a + b) =~= decoded(a) + decoded(b));
        assert(rejected(a + b) =~= rejected(a) + rejected(b));
    }
}

/// Where every line stands for a task, reading the lines gives as many
/// tasks as there are lines, each the task of the line at its place, and
/// refuses nothing.
pub proof fn lemma_all_lines_read(lines: Seq<Seq<char>>)
    requires
        forall|i: int| 0 <= i < lines.len() ==> decode(#[trigger] lines[i]) is Ok,
    ensures
        decoded(lines).len() == lines.len(),
        forall|i: int|
            0 <= i < lines.len() ==> decode(lines[i]) == Ok::<TaskView, RecordError>(
                #[trigger] decoded(lines)[i],
            ),
        rejected(lines).len() == 0,
    decreases lines.len(),
{
    if lines.len() > 0 {
        let init = lines.drop_last();
        assert forall|i: int| 0 <= i < init.len() implies decode(#[trigger] init[i]) is Ok by {
            assert(init[i] == lines[i]);
        }
        lemma_all_lines_read(init);
        assert(decode(lines[lines.len() - 1]) is Ok);
        assert forall|i: int| 0 <= i < lines.len() implies decode(lines[i]) == Ok::<
            TaskView,
            RecordError,
        >(#[trigger] decoded(lines)[i]) by {
            if i < init.len() {
                assert(init[i] == lines[i]);
                assert(decoded(lines)[i] == decoded(init)[i]);
            }
        }
    }
}

/// A file of well-formed lines holds as many tasks as it has lines, in the
/// order of the lines.
pub proof fn lemma_load_well_formed(text: Seq<char>)
    requires
        forall|i: int| 0 <= i < lines(text).len() ==> decode(#[trigger] lines(text)[i]) is Ok,
    ensures
        loaded(text).len() == lines(text).len(),
        forall|i: int|
            0 <= i < lines(text).len() ==> decode(lines(text)[i]) == Ok::<TaskView, RecordError>(
                #[trigger] loaded(text)[i],
            ),
        rejected(lines(text)).len() == 0,
{
    lemma_all_lines_read(lines(text));
}

/// A file with one malformed line among well-formed ones holds the tasks
/// of the well-formed lines, one fewer than it has lines and in their
/// order: what the file without that line holds. The one refusal is that
/// of the malformed line.
pub proof fn lemma_load_one_malformed(text: Seq<char>, bad: int)
    requires
        0 <= bad < lines(text).len(),
        decode(lines(text)[bad]) is Err,
        forall|i: int|
            0 <= i < lines(text).len() && i != bad ==> decode(#[trigger] lines(text)[i]) is Ok,
    ensures
        loaded(text).len() == lines(text).len() - 1,
        loaded(text) == decoded(lines(text).remove(bad)),
        forall|i: int|
            0 <= i < lines(text).len() - 1 ==> decode(
                lines(text)[if i < bad {
                    i
                } else {
                    i + 1
                }],
            ) == Ok::<TaskView, RecordError>(#[trigger] loaded(text)[i]),
        rejected(lines(text)) == seq![decode(lines(text)[bad])->Err_0],
{
    let all = lines(text);
    let front = all.subrange(0, bad);
    let back = all.subrange(bad + 1, all.len() as int);
    let one = seq![all[bad]];
    let rest = all.remove(bad);
    assert(all =~= (front + one) + back);
    assert(rest =~= front + back);
    lemma_decoded_concat(front, one);
    lemma_decoded_concat(front + one, back);
    lemma_decoded_concat(front, back);
    assert(one.drop_last() =~= Seq::<Seq<char>>::empty());
    assert(one.last() == all[bad]);
    assert(decoded(one.drop_last()) =~= Seq::<TaskView>::empty());
    assert(rejected(one.drop_last()) =~= Seq::<RecordError>::empty());
    assert(decoded(one) =~= Seq::<TaskView>::empty());
    assert(rejected(one) =~= seq![decode(all[bad])->Err_0]);
    assert(decoded(all) =~= decoded(rest));
    assert forall|i: int| 0 <= i < rest.len() implies decode(#[trigger] rest[i]) is Ok by {
        if i < bad {
            assert(rest[i] == all[i]);
        } else {
            assert(rest[i] == all[i + 1]);
        }
    }
    lemma_all_lines_read(rest);
    lemma_all_lines_read(front);
    lemma_all_lines_read(back);
    assert(rejected(all) =~= seq![decode(all[bad])->Err_0]);
    assert forall|i: int| 0 <= i < all.len() - 1 implies decode(
        all[if i < bad {
            i
        } else {
            i + 1
        }],
    ) == Ok::<TaskView, RecordError>(#[trigger] loaded(text)[i]) by {
        assert(decode(rest[i]) == Ok::<TaskView, RecordError>(decoded(rest)[i]));
    }
}

/// Whether a task's line is one line of a file: its texts and its tags
/// hold neither a line feed nor a carriage return.
pub open spec fn fits_a_line(t: TaskView) -> bool {
    &&& lacks(t.name, '\n') && lacks(t.name, '\r')
    &&& lacks(t.date, '\n') && lacks(t.date, '\r')
    &&& lacks(t.time, '\n') && lacks(t.time, '\r')
    &&& lacks(t.description, '\n') && lacks(t.description, '\r')
    &&& forall|i: int|
        0 <= i < t.tags.len() ==> lacks(#[trigger] t.tags[i], '\n') && lacks(t.tags[i], '\r')
}

/// The lines of tasks, each at the place of its task.
pub open spec fn encoded(tasks: Seq<TaskView>) -> Seq<Seq<char>> {
    Seq::new(tasks.len(), |i: int| encode(tasks[i]))
}

/// The line of a task whose texts hold no line break holds none.
pub proof fn lemma_line_has_no_break(t: TaskView)
    requires
        fits_a_line(t),
    ensures
        lacks(encode(t), '\n'),
        lacks(encode(t), '\r'),
{
    reveal_strlit(", ");
    reveal_strlit("; ");
    reveal_strlit("true");
    reveal_strlit("false");
    lemma_decimal_is_digits(t.id as nat);
    let fields = fields_of(t);
    lemma_join_lacks(t.tags, "; "@, '\n');
    lemma_join_lacks(t.tags, "; "@, '\r');
    assert forall|i: int| 0 <= i < fields.len() implies lacks(#[trigger] fields[i], '\n') && lacks(
        fields[i],
        '\r',
    ) by {}
    lemma_join_lacks(fields, ", "@, '\n');
    lemma_join_lacks(fields, ", "@, '\r');
}

/// The text of a file that holds tasks has the lines of the tasks as its
/// lines, where no line of a task holds a line break.
pub proof fn lemma_lines_of_file(tasks: Seq<TaskView>)
    requires
        forall|i: int| 0 <= i < tasks.len() ==> fits_a_line(#[trigger] tasks[i]),
    ensures
        split(file_text(tasks), '\n') == encoded(tasks).push(Seq::empty()),
        lines(file_text(tasks)) == encoded(tasks),
    decreases tasks.len(),
{
    let text = file_text(tasks);
    if tasks.len() == 0 {
        assert(split(text, '\n') =~= encoded(tasks).push(Seq::empty()));
    } else {
        let init = tasks.drop_last();
        let line = encode(tasks.last());
        assert forall|i: int| 0 <= i < init.len() implies fits_a_line(#[trigger] init[i]) by {
            assert(init[i] == tasks[i]);
        }
        lemma_lines_of_file(init);
        assert(fits_a_line(tasks[tasks.len() - 1]));
        lemma_line_has_no_break(tasks.last());
        lemma_split_extended(file_text(init), line, '\n');
        assert(text.drop_last() =~= file_text(init) + line);
        assert(Seq::<char>::empty() + line =~= line);
        assert(split(text, '\n') =~= encoded(tasks).push(Seq::empty()));
    }
    let pieces = split(text, '\n');
    assert forall|i: int| 0 <= i < tasks.len() implies without_return(#[trigger] pieces[i])
        == encode(tasks[i]) by {
        lemma_line_has_no_break(tasks[i]);
    }
    assert(lines(text) =~= encoded(tasks));
}

/// The lines of plain tasks read back as the tasks.
pub proof fn lemma_decoded_encoded(tasks: Seq<TaskView>)
    requires
        forall|i: int| 0 <= i < tasks.len() ==> is_plain(#[trigger] tasks[i]),
    ensures
        decoded(encoded(tasks)) == tasks,
    decreases tasks.len(),
{
    if tasks.len() == 0 {
        assert(decoded(encoded(tasks)) =~= tasks);
    } else {
        let init = tasks.drop_last();
        assert forall|i: int| 0 <= i < init.len() implies is_plain(#[trigger] init[i]) by {
            assert(init[i] == tasks[i]);
        }
        lemma_decoded_encoded(init);
        assert(is_plain(tasks[tasks.len() - 1]));
        lemma_round_trip(tasks.last());
        assert(encoded(tasks).drop_last() =~= encoded(init));
        assert(decoded(encoded(tasks)) =~= tasks);
    }
}

/// A file written from tasks holds those tasks, where the line of each
/// reads back as the task and none of their texts holds a line break.
pub proof fn lemma_file_round_trip(tasks: Seq<TaskView>)
    requires
        forall|i: int| 0 <= i < tasks.len() ==> is_plain(#[trigger] tasks[i]) && fits_a_line(tasks[i]),
    ensures
        loaded(file_text(tasks)) == tasks,
        rejected(lines(file_text(tasks))).len() == 0,
{
    lemma_lines_of_file(tasks);
    lemma_decoded_encoded(tasks);
    assert forall|i: int| 0 <= i < encoded(tasks).len() implies decode(
        #[trigger] encoded(tasks)[i],
    ) is Ok by {
        lemma_round_trip(tasks[i]);
    }
    lemma_all_lines_read(encoded(tasks));
}

/// The tasks that the text of a file holds, and why each line that stands
/// for no task does not. One such line does not stop the others from being
/// read.
pub fn load_tasks(text: &str) -> (found: (Vec<Task>, Vec<RecordError>))
    ensures
        views(found.0@) == loaded(text@),
        found.1@ == rejected(lines(text@)),
{
    let chars = chars_of(text);
    assert(chars@.subrange(0, chars.len() as int) =~= text@);
    let pieces = split_chars(&chars, 0, chars.len(), '\n');
    proof {
        lemma_split_nonempty(text@, '\n');
    }
    assert(rows(pieces@).len() == pieces.len());
    let last: usize = pieces.len() - 1;
    assert(rows(pieces@)[last as int] == pieces[last as int]@);
    let count: usize = if pieces[last].len() == 0 {
        last
    } else {
        pieces.len()
    };
    let ghost all = lines(text@);
    let mut tasks: Vec<Task> = Vec::new();
    let mut errors: Vec<RecordError> = Vec::new();
    let mut i: usize = 0;
    assert(all.take(0) =~= Seq::<Seq<char>>::empty());
    assert(views(tasks@) =~= decoded(all.take(0)));
    while i < count
        invariant
            i <= count <= pieces.len(),
            last == pieces.len() - 1,
            all.len() == count,
            forall|k: int|
                0 <= k < count ==> #[trigger] all[k] == if k < last {
                    without_return(pieces[k]@)
                } else {
                    pieces[k]@
                },
            views(tasks@) == decoded(all.take(i as int)),
            errors@ == rejected(all.take(i as int)),
        decreases count - i,
    {
        let piece = &pieces[i];
        let end: usize = if i < last && piece.len() > 0 && piece[piece.len() - 1] == '\r' {
            piece.len() - 1
        } else {
            piece.len()
        };
        assert(piece@.subrange(0, end as int) =~= all[i as int]);
        assert(all.take(i + 1).drop_last() =~= all.take(i as int));
        assert(all.take(i + 1).last() == all[i as int]);
        let ghost before = tasks@;
        match read_record(piece, 0, end) {
            Ok(task) => {
                tasks.push(task);
                assert(views(tasks@) =~= views(before).push(task@));
            },
            Err(e) => {
                errors.push(e);
            },
        }
        i += 1;
    }
    assert(all.take(count as int) =~= all);
    (tasks, errors)
}

/// The text of a file that holds `tasks`, in their order.
pub fn dump_tasks(tasks: &Vec<Task>) -> (text: String)
    ensures
        text@ == file_text(views(tasks@)),
{
    let mut text = String::new();
    let mut i: usize = 0;
    assert(views(tasks@).take(0) =~= Seq::<TaskView>::empty());
    while i < tasks.len()
        invariant
            i <= tasks.len(),
            text@ == file_text(views(tasks@).take(i as int)),
        decreases tasks.len() - i,
    {
        assert(views(tasks@).take(i + 1).drop_last() =~= views(tasks@).take(i as int));
        assert(views(tasks@).take(i + 1).last() == tasks[i as int]@);
        let line = tasks[i].to_line();
        text.append(line.as_str());
        text.push('\n');
        assert(text@ =~= file_text(views(tasks@).take(i + 1)));
        i += 1;
    }
    assert(views(tasks@).take(tasks.len() as int) =~= views(tasks@));
    text
}

} // verus!
