//! The line format of the task file: one task per line, seven fields
//! separated by commas, the tags separated by semicolons.

use crate::task::{Task, TaskView};
use crate::text::{
    chars_of, is_space, join, join_texts, lacks, lemma_join_lacks, lemma_join_next,
    lemma_split_joined, padded, rows, split, split_chars, string_of, texts, trim_chars, trim_end,
    trim_start, trimmed,
};
use vstd::prelude::*;

verus! {

/// Why a line is not a task record.
#[derive(Clone, Copy, Debug, PartialEq, Eq, Structural)]
pub enum RecordError {
    /// The line does not have seven fields; `found` is the number it has.
    MalformedRecord { found: usize },
    /// The first field is not an unsigned number that fits 32 bits.
    InvalidId,
    /// The sixth field is neither `true` nor `false`.
    InvalidBoolean,
}

/// The number of fields of a record.
pub const FIELDS: usize = 7;

/// Whether `c` is one of the ten decimal digits.
pub open spec fn is_digit(c: char) -> bool {
    '0' <= c <= '9'
}

/// The number that the digit `c` stands for.
pub open spec fn digit_value(c: char) -> nat {
    (c as u32 - '0' as u32) as nat
}

/// The digit that stands for `d`, a number below ten.
pub open spec fn digit_char(d: nat) -> char {
    (d + '0' as u32) as char
}

/// `n` in decimal digits, without leading zeros.
pub open spec fn decimal(n: nat) -> Seq<char>
    decreases n,
{
    if n < 10 {
        seq![digit_char(n)]
    } else {
        decimal(n / 10).push(digit_char(n % 10))
    }
}

/// The number that `s` is in decimal digits; `None` where `s` is empty or
/// holds anything but digits.
pub open spec fn decimal_value(s: Seq<char>) -> Option<nat>
    decreases s.len(),
{
    if s.len() == 0 || !is_digit(s.last()) {
        None
    } else if s.len() == 1 {
        Some(digit_value(s.last()))
    } else {
        match decimal_value(s.drop_last()) {
            Some(v) => Some(v * 10 + digit_value(s.last())),
            None => None,
        }
    }
}

/// The id that the field `s` holds: decimal digits, with or without a plus
/// sign before them, for a number that fits 32 bits.
pub open spec fn parse_id(s: Seq<char>) -> Option<u32> {
    let digits = if s.len() > 0 && s[0] == '+' {
        s.drop_first()
    } else {
        s
    };
    match decimal_value(digits) {
        Some(v) => if v <= u32::MAX {
            Some(v as u32)
        } else {
            None
        },
        None => None,
    }
}

/// How a flag is written.
pub open spec fn flag_text(flag: bool) -> Seq<char> {
    if flag {
        "true"@
    } else {
        "false"@
    }
}

/// The flag that `s` names.
pub open spec fn parse_flag(s: Seq<char>) -> Option<bool> {
    if s == "true"@ {
        Some(true)
    } else if s == "false"@ {
        Some(false)
    } else {
        None
    }
}

/// `s` without the one blank that a writer puts after a separator.
pub open spec fn unpad(s: Seq<char>) -> Seq<char> {
    if s.len() > 0 && s[0] == ' ' {
        s.drop_first()
    } else {
        s
    }
}

/// The tags that the text of the last field holds, once the blank after
/// the comma is gone: none where nothing is left, else its pieces between
/// semicolons, each but the first without the blank that follows the
/// semicolon.
pub open spec fn parse_tag_field(field: Seq<char>) -> Seq<Seq<char>> {
    if field.len() == 0 {
        Seq::empty()
    } else {
        let pieces = split(field, ';');
        Seq::new(
            pieces.len(),
            |i: int|
                if i == 0 {
                    pieces[i]
                } else {
                    unpad(pieces[i])
                },
        )
    }
}

/// The tags that the seventh field of a line holds. A field with nothing in
/// it is one empty tag. A field that holds only the blank that a writer
/// puts after the comma is no tags, and so a task without tags reads back
/// without tags.
pub open spec fn tags_of_field(field: Seq<char>) -> Seq<Seq<char>> {
    if field.len() == 0 {
        seq![Seq::<char>::empty()]
    } else {
        parse_tag_field(unpad(field))
    }
}

/// The seven fields of a task's line, as they are written.
pub open spec fn fields_of(t: TaskView) -> Seq<Seq<char>> {
    seq![
        decimal(t.id as nat),
        t.name,
        t.date,
        t.time,
        t.description,
        flag_text(t.done),
        join(t.tags, "; "@),
    ]
}

/// The line that stands for a task: id, name, date, time, description, done
/// and tags, separated by a comma and a blank; the tags separated by a
/// semicolon and a blank. Nothing in a field is escaped.
pub open spec fn encode(t: TaskView) -> Seq<char> {
    join(fields_of(t), ", "@)
}

/// The task that a line stands for, or why it stands for none. The line is
/// split at its commas. The id is read from the first field as it stands,
/// the flag from the sixth without the whitespace around it; the other
/// fields lose the one blank after the comma, if it is there. A seventh
/// field with nothing in it, not even that blank, gives one empty tag.
/// Dates and times are not examined.
pub open spec fn decode(line: Seq<char>) -> Result<TaskView, RecordError> {
    let fields = split(line, ',');
    if fields.len() != FIELDS {
        Err(RecordError::MalformedRecord { found: fields.len() as usize })
    } else {
        match parse_id(fields[0]) {
            None => Err(RecordError::InvalidId),
            Some(id) => match parse_flag(trimmed(fields[5])) {
                None => Err(RecordError::InvalidBoolean),
                Some(done) => Ok(
                    TaskView {
                        id,
                        name: unpad(fields[1]),
                        date: unpad(fields[2]),
                        time: unpad(fields[3]),
                        description: unpad(fields[4]),
                        done,
                        tags: tags_of_field(fields[6]),
                    },
                ),
            },
        }
    }
}

/// Whether a task's line reads back as the task: no comma in its texts, no
/// comma or semicolon in its tags, and its tags not one empty tag alone,
/// which is written as no tags are.
pub open spec fn is_plain(t: TaskView) -> bool {
    &&& lacks(t.name, ',')
    &&& lacks(t.date, ',')
    &&& lacks(t.time, ',')
    &&& lacks(t.description, ',')
    &&& forall|i: int|
        0 <= i < t.tags.len() ==> lacks(#[trigger] t.tags[i], ',') && lacks(t.tags[i], ';')
    &&& !(t.tags.len() == 1 && t.tags[0].len() == 0)
}

/// A number in decimal is one digit or more, and nothing else.
pub proof fn lemma_decimal_is_digits(n: nat)
    ensures
        decimal(n).len() >= 1,
        forall|i: int| 0 <= i < decimal(n).len() ==> is_digit(#[trigger] decimal(n)[i]),
    decreases n,
{
    if n >= 10 {
        lemma_decimal_is_digits(n / 10);
    }
}

/// A number in decimal reads back as the number.
pub proof fn lemma_decimal_value(n: nat)
    ensures
        decimal_value(decimal(n)) == Some(n),
    decreases n,
{
    if n >= 10 {
        lemma_decimal_value(n / 10);
        lemma_decimal_is_digits(n / 10);
        assert(decimal(n).drop_last() =~= decimal(n / 10));
    }
}

/// An id in decimal reads back as the id.
pub proof fn lemma_id_round_trip(id: u32)
    ensures
        parse_id(decimal(id as nat)) == Some(id),
        lacks(decimal(id as nat), ','),
{
    lemma_decimal_is_digits(id as nat);
    lemma_decimal_value(id as nat);
    assert(is_digit(decimal(id as nat)[0]));
}

/// A written flag, after the blank that follows a separator, reads back as
/// the flag.
pub proof fn lemma_flag_round_trip(flag: bool)
    ensures
        parse_flag(trimmed(seq![' '] + flag_text(flag))) == Some(flag),
        lacks(flag_text(flag), ','),
{
    reveal_strlit("true");
    reveal_strlit("false");
    let word = flag_text(flag);
    let field = seq![' '] + word;
    assert(field.drop_first() =~= word);
    assert(is_space(field[0]));
    assert(!is_space(word[0]));
    assert(trim_start(field) == trim_start(word));
    assert(trim_start(word) == word);
    assert(!is_space(word.last()));
    assert(trim_end(word) == word);
}

/// Tags without semicolons, joined and written, read back as the tags,
/// unless they are one empty tag alone.
pub proof fn lemma_tags_round_trip(tags: Seq<Seq<char>>)
    requires
        forall|i: int| 0 <= i < tags.len() ==> lacks(#[trigger] tags[i], ';'),
        !(tags.len() == 1 && tags[0].len() == 0),
    ensures
        parse_tag_field(join(tags, "; "@)) == tags,
{
    reveal_strlit("; ");
    assert("; "@ =~= seq![';', ' ']);
    let field = join(tags, "; "@);
    if tags.len() == 0 {
        assert(parse_tag_field(field) =~= tags);
    } else {
        lemma_split_joined(tags, ';');
        if tags.len() > 1 {
            assert(field == join(tags.drop_last(), "; "@) + "; "@ + tags.last());
        }
        assert(field.len() > 0);
        let read = parse_tag_field(field);
        assert(read.len() == tags.len());
        assert forall|i: int| 0 <= i < tags.len() implies read[i] == tags[i] by {
            if i > 0 {
                assert(padded(tags)[i].drop_first() =~= tags[i]);
            }
        }
        assert(read =~= tags);
    }
}

/// Reading a written task gives the task back, where its texts hold no
/// comma, its tags neither comma nor semicolon, and its tags are not one
/// empty tag alone.
pub proof fn lemma_round_trip(t: TaskView)
    requires
        is_plain(t),
    ensures
        decode(encode(t)) == Ok::<TaskView, RecordError>(t),
{
    reveal_strlit(", ");
    reveal_strlit("; ");
    assert(", "@ =~= seq![',', ' ']);
    let fields = fields_of(t);
    lemma_id_round_trip(t.id);
    lemma_flag_round_trip(t.done);
    lemma_join_lacks(t.tags, "; "@, ',');
    lemma_tags_round_trip(t.tags);
    assert forall|i: int| 0 <= i < fields.len() implies lacks(#[trigger] fields[i], ',') by {}
    lemma_split_joined(fields, ',');
    let read = split(encode(t), ',');
    assert(read == padded(fields));
    assert(read[0] == fields[0]);
    assert forall|i: int| 1 <= i < 7 implies unpad(#[trigger] read[i]) == fields[i] by {
        assert(read[i] == seq![' '] + fields[i]);
        assert(read[i].drop_first() =~= fields[i]);
    }
    assert(read[5] == seq![' '] + flag_text(t.done));
    let back = decode(encode(t));
    assert(back is Ok);
    assert(back->Ok_0.tags == t.tags);
    assert(back->Ok_0 == t);
}

/// The digit that stands for `d`.
fn digit_of(d: u32) -> (c: char)
    requires
        d < 10,
    ensures
        c == digit_char(d as nat),
{
    if d == 0 {
        '0'
    } else if d == 1 {
        '1'
    } else if d == 2 {
        '2'
    } else if d == 3 {
        '3'
    } else if d == 4 {
        '4'
    } else if d == 5 {
        '5'
    } else if d == 6 {
        '6'
    } else if d == 7 {
        '7'
    } else if d == 8 {
        '8'
    } else {
        '9'
    }
}

/// Appends `n` in decimal digits to `out`.
pub fn push_decimal(out: &mut String, n: u32)
    ensures
        final(out)@ == old(out)@ + decimal(n as nat),
    decreases n,
{
    if n >= 10 {
        push_decimal(out, n / 10);
    }
    out.push(digit_of(n % 10));
    assert(out@ =~= old(out)@ + decimal(n as nat));
}

/// The tags joined by a semicolon and a blank; the empty text where there
/// are none.
pub fn parse_tags(tags: Option<Vec<String>>) -> (joined: String)
    ensures
        joined@ == match tags {
            Some(list) => join(texts(list@), "; "@),
            None => Seq::<char>::empty(),
        },
{
    match tags {
        Some(list) => join_texts(&list, "; "),
        None => String::new(),
    }
}

/// The id that `field` holds.
fn read_id(field: &Vec<char>) -> (id: Option<u32>)
    ensures
        id == parse_id(field@),
{
    let start: usize = if field.len() > 0 && field[0] == '+' {
        1
    } else {
        0
    };
    let ghost digits = field@.subrange(start as int, field.len() as int);
    assert(digits =~= if field@.len() > 0 && field@[0] == '+' {
        field@.drop_first()
    } else {
        field@
    });
    if start == field.len() {
        return None;
    }
    let mut i: usize = start;
    let mut value: u64 = 0;
    let mut too_large = false;
    let ghost mut exact: nat = 0;
    while i < field.len()
        invariant
            start <= i <= field.len(),
            start < field.len(),
            digits == field@.subrange(start as int, field.len() as int),
            digits == if field@.len() > 0 && field@[0] == '+' {
                field@.drop_first()
            } else {
                field@
            },
            i > start ==> decimal_value(digits.take(i - start)) == Some(exact),
            i == start ==> exact == 0,
            too_large <==> exact > u32::MAX,
            !too_large ==> value == exact,
        decreases field.len() - i,
    {
        let c = field[i];
        let ghost read = digits.take(i + 1 - start);
        assert(read.last() == c);
        assert(read.drop_last() =~= digits.take(i - start));
        if !('0' <= c && c <= '9') {
            proof {
                assert(digits[i - start] == c);
                lemma_decimal_value_needs_digits(digits, i - start);
            }
            return None;
        }
        let d: u64 = (c as u32 - '0' as u32) as u64;
        proof {
            exact = exact * 10 + d as nat;
        }
        if !too_large {
            value = value * 10 + d;
            if value > u32::MAX as u64 {
                too_large = true;
            }
        }
        i += 1;
    }
    assert(digits.take(field.len() - start) =~= digits);
    if too_large {
        None
    } else {
        Some(value as u32)
    }
}

/// A text with something other than a digit in it is no number.
proof fn lemma_decimal_value_needs_digits(s: Seq<char>, at: int)
    requires
        0 <= at < s.len(),
        !is_digit(s[at]),
    ensures
        decimal_value(s) is None,
    decreases s.len(),
{
    if at < s.len() - 1 {
        lemma_decimal_value_needs_digits(s.drop_last(), at);
    }
}

/// The text of a field that follows a separator.
fn field_text(field: &Vec<char>) -> (out: String)
    ensures
        out@ == unpad(field@),
{
    let from: usize = if field.len() > 0 && field[0] == ' ' {
        1
    } else {
        0
    };
    let out = string_of(field, from, field.len());
    assert(out@ =~= unpad(field@));
    out
}

/// The tags that the last field holds.
fn read_tags(field: &Vec<char>) -> (tags: Vec<String>)
    ensures
        texts(tags@) == parse_tag_field(unpad(field@)),
{
    let from: usize = if field.len() > 0 && field[0] == ' ' {
        1
    } else {
        0
    };
    assert(field@.subrange(from as int, field.len() as int) =~= unpad(field@));
    let mut tags: Vec<String> = Vec::new();
    if from == field.len() {
        assert(texts(tags@) =~= parse_tag_field(unpad(field@)));
        return tags;
    }
    let pieces = split_chars(field, from, field.len(), ';');
    let mut i: usize = 0;
    while i < pieces.len()
        invariant
            i <= pieces.len(),
            tags.len() == i,
            forall|j: int|
                0 <= j < i ==> (#[trigger] tags[j])@ == if j == 0 {
                    pieces[j]@
                } else {
                    unpad(pieces[j]@)
                },
        decreases pieces.len() - i,
    {
        let tag = if i == 0 {
            let whole = string_of(&pieces[i], 0, pieces[i].len());
            assert(whole@ =~= pieces[i as int]@);
            whole
        } else {
            field_text(&pieces[i])
        };
        tags.push(tag);
        i += 1;
    }
    assert(texts(tags@) =~= parse_tag_field(unpad(field@))) by {
        let expected = parse_tag_field(unpad(field@));
        assert(expected.len() == rows(pieces@).len());
        assert forall|j: int| 0 <= j < tags.len() implies texts(tags@)[j] == expected[j] by {
            assert(rows(pieces@)[j] == pieces[j]@);
        }
    }
    tags
}

/// What a decoded task holds, or the error.
pub open spec fn outcome(r: Result<Task, RecordError>) -> Result<TaskView, RecordError> {
    match r {
        Ok(task) => Ok(task@),
        Err(e) => Err(e),
    }
}

impl Task {
    /// The line that stands for the task `self`.
    pub fn to_line(&self) -> (line: String)
        ensures
            line@ == encode(self@),
    {
        let mut line = String::new();
        push_decimal(&mut line, self.id);
        line.append(", ");
        line.append(self.name.as_str());
        line.append(", ");
        line.append(self.date.as_str());
        line.append(", ");
        line.append(self.time.as_str());
        line.append(", ");
        line.append(self.description.as_str());
        line.append(", ");
        if self.done {
            line.append("true");
        } else {
            line.append("false");
        }
        line.append(", ");
        let tags = join_texts(&self.tags, "; ");
        line.append(tags.as_str());
        proof {
            let f = fields_of(self@);
            let sep = ", "@;
            assert(f.take(1) =~= seq![f[0]]);
            assert(f.take(7) =~= f);
            lemma_join_next(f, sep, 1);
            lemma_join_next(f, sep, 2);
            lemma_join_next(f, sep, 3);
            lemma_join_next(f, sep, 4);
            lemma_join_next(f, sep, 5);
            lemma_join_next(f, sep, 6);
            assert(line@ =~= f[0] + sep + f[1] + sep + f[2] + sep + f[3] + sep + f[4] + sep + f[5]
                + sep + f[6]);
        }
        line
    }

    /// The task that `line` stands for, or why it stands for none.
    pub fn from_str(line: &str) -> (read: Result<Task, RecordError>)
        ensures
            outcome(read) == decode(line@),
    {
        let chars = chars_of(line);
        assert(chars@.subrange(0, chars.len() as int) =~= line@);
        read_record(&chars, 0, chars.len())
    }
}

impl core::str::FromStr for Task {
    type Err = RecordError;

    /// The task that `line` stands for, as `Task::from_str` reads it.
    fn from_str(line: &str) -> Result<Task, RecordError> {
        Task::from_str(line)
    }
}

/// The task that the characters `chars[from..to]` stand for as a line, or
/// why they stand for none.
pub fn read_record(chars: &Vec<char>, from: usize, to: usize) -> (read: Result<Task, RecordError>)
    requires
        from <= to <= chars.len(),
    ensures
        outcome(read) == decode(chars@.subrange(from as int, to as int)),
{
    let fields = split_chars(chars, from, to, ',');
    assert(rows(fields@).len() == fields.len());
    if fields.len() != FIELDS {
        return Err(RecordError::MalformedRecord { found: fields.len() });
    }
    assert(forall|k: int| 0 <= k < 7 ==> rows(fields@)[k] == (#[trigger] fields[k])@);
    let id = match read_id(&fields[0]) {
        Some(id) => id,
        None => {
            return Err(RecordError::InvalidId);
        },
    };
    let word = trim_chars(&fields[5]);
    let done = if word == "true".to_owned() {
        true
    } else if word == "false".to_owned() {
        false
    } else {
        return Err(RecordError::InvalidBoolean);
    };
    let tags = if fields[6].len() == 0 {
        let mut one: Vec<String> = Vec::new();
        one.push(String::new());
        assert(texts(one@) =~= seq![Seq::<char>::empty()]);
        one
    } else {
        read_tags(&fields[6])
    };
    let task = Task {
        id,
        name: field_text(&fields[1]),
        date: field_text(&fields[2]),
        time: field_text(&fields[3]),
        description: field_text(&fields[4]),
        done,
        tags,
    };
    Ok(task)
}

} // verus!
