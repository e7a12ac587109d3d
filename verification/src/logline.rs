//! The event-log line format: one line per mutating engine operation, of
//! the shape `<operation><version>: [<arguments>]`.
//!
//! The arguments are written as a JSON-style array holding strings (with
//! the usual escapes), unsigned numbers, `null` or a `{"secs":…,"nanos":…}`
//! duration object, and completion instants as date strings.  Writing a
//! record and reading the line back is proved to give the record back
//! exactly.  Reading accepts the canonical spacing and any run of spaces
//! where the writer puts one; an unknown operation name, malformed
//! arguments or trailing text make the line unreadable, which replay treats
//! as fatal.

use vstd::prelude::*;
use crate::data::{
    FIXED_SPAN_MAX, Span, TaskId, TodoCompleted, TodoDate, TodoId, date_in_range,
    fixed_span_in_range,
};
use crate::datetext::{digit_char_x, digit_val_x};
use crate::datetext::{
    date_text, digit_char, digit_val, digits_val, is_digit, lemma_pow10_mono, pow10,
    spec_parse_date,
};

verus! {

/// One logged operation, exactly the data needed to reproduce the call.
#[derive(Debug)]
pub enum LogRecord {
    CreateTask { title: String, due_every: Option<Span>, task_id: TaskId, todo_id: TodoId },
    CloneTask { task_id: TaskId, title: String, new_task_id: TaskId, todo_id: TodoId },
    CompleteTodo { todo_id: TodoId, completed: TodoCompleted },
    TodoLater { todo_id: TodoId },
    PauseTask { task_id: TaskId },
    UnpauseTask { task_id: TaskId },
}

/// Mathematical image of a `LogRecord`.
#[verifier::ext_equal]
pub ghost enum RecordV {
    CreateTask { title: Seq<char>, due_every: Option<int>, task_id: u64, todo_id: u64 },
    CloneTask { task_id: u64, title: Seq<char>, new_task_id: u64, todo_id: u64 },
    CompleteTodo { todo_id: u64, completed: int },
    TodoLater { todo_id: u64 },
    PauseTask { task_id: u64 },
    UnpauseTask { task_id: u64 },
}

impl View for LogRecord {
    type V = RecordV;

    open spec fn view(&self) -> RecordV {
        match self {
            LogRecord::CreateTask { title, due_every, task_id, todo_id } => RecordV::CreateTask {
                title: title@,
                due_every: match due_every {
                    Some(d) => Some(d.nanos as int),
                    None => None,
                },
                task_id: task_id.0,
                todo_id: todo_id.0,
            },
            LogRecord::CloneTask { task_id, title, new_task_id, todo_id } => RecordV::CloneTask {
                task_id: task_id.0,
                title: title@,
                new_task_id: new_task_id.0,
                todo_id: todo_id.0,
            },
            LogRecord::CompleteTodo { todo_id, completed } => RecordV::CompleteTodo {
                todo_id: todo_id.0,
                completed: completed.date.nanos as int,
            },
            LogRecord::TodoLater { todo_id } => RecordV::TodoLater { todo_id: todo_id.0 },
            LogRecord::PauseTask { task_id } => RecordV::PauseTask { task_id: task_id.0 },
            LogRecord::UnpauseTask { task_id } => RecordV::UnpauseTask { task_id: task_id.0 },
        }
    }
}

/// A record the log can carry: durations nonnegative and within the
/// largest whole-second duration, completion instants within the textual
/// date range.
pub open spec fn record_wf(r: RecordV) -> bool {
    match r {
        RecordV::CreateTask { title, due_every, .. } => valid_title(title) && match due_every {
            Some(d) => fixed_span_in_range(d),
            None => true,
        },
        RecordV::CloneTask { title, .. } => valid_title(title),
        RecordV::CompleteTodo { completed, .. } => date_in_range(completed),
        _ => true,
    }
}

/// Any value a `char` can actually hold (a Unicode scalar value is never
/// negative and never above 0x10FFFF); sequence views do not carry this by
/// themselves, so it is recorded where text enters the library.
pub open spec fn valid_char(c: char) -> bool {
    0 <= c as int <= 0x10FFFF
}

pub open spec fn valid_title(s: Seq<char>) -> bool {
    forall|i: int| 0 <= i < s.len() ==> valid_char(#[trigger] s[i])
}

/// The character for a low hexadecimal digit.
pub open spec fn hex_char(v: int) -> char {
    if v < 10 {
        digit_char(v)
    } else if v == 10 {
        'a'
    } else if v == 11 {
        'b'
    } else if v == 12 {
        'c'
    } else if v == 13 {
        'd'
    } else if v == 14 {
        'e'
    } else {
        'f'
    }
}

/// The value of a hexadecimal digit character, -1 for anything else.
pub open spec fn hex_val(c: char) -> int {
    if is_digit(c) {
        digit_val(c)
    } else if c == 'a' || c == 'A' {
        10
    } else if c == 'b' || c == 'B' {
        11
    } else if c == 'c' || c == 'C' {
        12
    } else if c == 'd' || c == 'D' {
        13
    } else if c == 'e' || c == 'E' {
        14
    } else if c == 'f' || c == 'F' {
        15
    } else {
        -1
    }
}

/// The control character with the given code.
pub open spec fn code_char(v: int) -> char {
    v as char
}

/// How one character is written inside a string literal.
pub open spec fn esc_char(c: char) -> Seq<char> {
    if c == '"' {
        seq!['\\', '"']
    } else if c == '\\' {
        seq!['\\', '\\']
    } else if c == '\u{8}' {
        seq!['\\', 'b']
    } else if c == '\u{9}' {
        seq!['\\', 't']
    } else if c == '\u{a}' {
        seq!['\\', 'n']
    } else if c == '\u{c}' {
        seq!['\\', 'f']
    } else if c == '\u{d}' {
        seq!['\\', 'r']
    } else if (c as int) < 0x20 {
        seq!['\\', 'u', '0', '0', hex_char(c as int / 16), hex_char(c as int % 16)]
    } else {
        seq![c]
    }
}

/// A whole string written with its escapes (the quotes are not included).
pub open spec fn json_escape(s: Seq<char>) -> Seq<char>
    decreases s.len(),
{
    if s.len() == 0 {
        Seq::empty()
    } else {
        esc_char(s[0]) + json_escape(s.drop_first())
    }
}

/// An unsigned number in decimal, as the log writes it.
pub open spec fn dec_text(v: int) -> Seq<char>
    decreases v,
{
    if v < 10 {
        seq![digit_char(v)]
    } else {
        dec_text(v / 10).push(digit_char(v % 10))
    }
}

/// A duration argument: `null` or a seconds/nanoseconds object.
pub open spec fn duration_text(d: Option<int>) -> Seq<char> {
    match d {
        None => seq!['n', 'u', 'l', 'l'],
        Some(n) => seq!['{', '"', 's', 'e', 'c', 's', '"', ':'] + dec_text(n / 1_000_000_000)
            + seq![',', '"', 'n', 'a', 'n', 'o', 's', '"', ':'] + dec_text(n % 1_000_000_000)
            + seq!['}'],
    }
}

pub open spec fn create_task_prefix() -> Seq<char> {
    seq!['c', 'r', 'e', 'a', 't', 'e', '_', 't', 'a', 's', 'k', '1', ':']
}

pub open spec fn clone_task_prefix() -> Seq<char> {
    seq!['c', 'l', 'o', 'n', 'e', '_', 't', 'a', 's', 'k', '1', ':']
}

pub open spec fn complete_todo_prefix() -> Seq<char> {
    seq!['c', 'o', 'm', 'p', 'l', 'e', 't', 'e', '_', 't', 'o', 'd', 'o', '1', ':']
}

pub open spec fn todo_later_prefix() -> Seq<char> {
    seq!['t', 'o', 'd', 'o', '_', 'l', 'a', 't', 'e', 'r', '1', ':']
}

pub open spec fn pause_task_prefix() -> Seq<char> {
    seq!['p', 'a', 'u', 's', 'e', '_', 't', 'a', 's', 'k', '1', ':']
}

pub open spec fn unpause_task_prefix() -> Seq<char> {
    seq!['u', 'n', 'p', 'a', 'u', 's', 'e', '_', 't', 'a', 's', 'k', '1', ':']
}

/// The whole line a record is written as (without the newline).
pub open spec fn render_record_text(r: RecordV) -> Seq<char> {
    match r {
        RecordV::CreateTask { title, due_every, task_id, todo_id } => create_task_prefix()
            + seq![' ', '[', '"'] + json_escape(title) + seq!['"', ',', ' ']
            + duration_text(due_every) + seq![',', ' '] + dec_text(task_id as int)
            + seq![',', ' '] + dec_text(todo_id as int) + seq![']'],
        RecordV::CloneTask { task_id, title, new_task_id, todo_id } => clone_task_prefix()
            + seq![' ', '['] + dec_text(task_id as int) + seq![',', ' ', '"']
            + json_escape(title) + seq!['"', ',', ' '] + dec_text(new_task_id as int)
            + seq![',', ' '] + dec_text(todo_id as int) + seq![']'],
        RecordV::CompleteTodo { todo_id, completed } => complete_todo_prefix()
            + seq![' ', '['] + dec_text(todo_id as int) + seq![',', ' ', '"']
            + date_text(completed) + seq!['"', ']'],
        RecordV::TodoLater { todo_id } => todo_later_prefix() + seq![' ', '['] + dec_text(
            todo_id as int,
        ) + seq![']'],
        RecordV::PauseTask { task_id } => pause_task_prefix() + seq![' ', '['] + dec_text(
            task_id as int,
        ) + seq![']'],
        RecordV::UnpauseTask { task_id } => unpause_task_prefix() + seq![' ', '['] + dec_text(
            task_id as int,
        ) + seq![']'],
    }
}

/// The first position at or after `i` that does not hold a space.
pub open spec fn skip_sp(s: Seq<char>, i: int) -> int
    decreases s.len() - i,
{
    if 0 <= i < s.len() && s[i] == ' ' {
        skip_sp(s, i + 1)
    } else {
        i
    }
}

/// The first position at or after `i` that does not hold a decimal digit.
pub open spec fn digits_end(s: Seq<char>, i: int) -> int
    decreases s.len() - i,
{
    if 0 <= i < s.len() && is_digit(s[i]) {
        digits_end(s, i + 1)
    } else {
        i
    }
}

/// Reads an unsigned 64-bit number: digits without a leading zero (except
/// the number 0 itself), within range.
pub open spec fn sp_u64(s: Seq<char>, i: int) -> Option<(int, int)> {
    let j = digits_end(s, i);
    if j == i {
        None
    } else if s[i] == '0' && j > i + 1 {
        None
    } else {
        let v = digits_val(s.subrange(i, j));
        if v <= u64::MAX {
            Some((v, j))
        } else {
            None
        }
    }
}

/// Reads the escaped body of a string literal from `i` up to its closing
/// quote; yields the unescaped text and the position after the quote.
pub open spec fn sp_unescape(s: Seq<char>, i: int) -> Option<(Seq<char>, int)>
    decreases s.len() - i,
{
    if i >= s.len() {
        None
    } else if s[i] == '"' {
        Some((Seq::empty(), i + 1))
    } else if s[i] == '\\' {
        if i + 1 >= s.len() {
            None
        } else {
            let e = s[i + 1];
            if e == 'u' {
                if i + 6 <= s.len() && s[i + 2] == '0' && s[i + 3] == '0' && hex_val(s[i + 4])
                    >= 0 && hex_val(s[i + 5]) >= 0 && hex_val(s[i + 4]) * 16 + hex_val(
                    s[i + 5],
                ) < 0x20 {
                    match sp_unescape(s, i + 6) {
                        Some((rest, j)) => Some(
                            (
                                seq![
                                    code_char(hex_val(s[i + 4]) * 16 + hex_val(s[i + 5])),
                                ] + rest,
                                j,
                            ),
                        ),
                        None => None,
                    }
                } else {
                    None
                }
            } else {
                let c: char = if e == '"' {
                    '"'
                } else if e == '\\' {
                    '\\'
                } else if e == '/' {
                    '/'
                } else if e == 'b' {
                    '\u{8}'
                } else if e == 't' {
                    '\u{9}'
                } else if e == 'n' {
                    '\u{a}'
                } else if e == 'f' {
                    '\u{c}'
                } else {
                    'r'
                };
                if e == '"' || e == '\\' || e == '/' || e == 'b' || e == 't' || e == 'n' || e
                    == 'f' || e == 'r' {
                    let c2: char = if e == 'r' {
                        '\u{d}'
                    } else {
                        c
                    };
                    match sp_unescape(s, i + 2) {
                        Some((rest, j)) => Some((seq![c2] + rest, j)),
                        None => None,
                    }
                } else {
                    None
                }
            }
        }
    } else if (s[i] as int) < 0x20 {
        None
    } else {
        match sp_unescape(s, i + 1) {
            Some((rest, j)) => Some((seq![s[i]] + rest, j)),
            None => None,
        }
    }
}

/// Reads a quoted string literal starting at `i`.
pub open spec fn sp_string(s: Seq<char>, i: int) -> Option<(Seq<char>, int)> {
    if 0 <= i < s.len() && s[i] == '"' {
        sp_unescape(s, i + 1)
    } else {
        None
    }
}

/// Reads a duration argument: `null` or `{"secs":S,"nanos":N}` with the
/// fields in that order and N below one second.
pub open spec fn sp_duration(s: Seq<char>, i: int) -> Option<(Option<int>, int)> {
    if i + 4 <= s.len() && s.subrange(i, i + 4) =~= seq!['n', 'u', 'l', 'l'] {
        Some((None, i + 4))
    } else if 0 <= i < s.len() && s[i] == '{' && i + 8 <= s.len() && s.subrange(i, i + 8)
        =~= seq!['{', '"', 's', 'e', 'c', 's', '"', ':'] {
        match sp_u64(s, i + 8) {
            Some((secs, j)) => {
                if j + 9 <= s.len() && s.subrange(j, j + 9) =~= seq![
                    ',', '"', 'n', 'a', 'n', 'o', 's', '"', ':',
                ] {
                    match sp_u64(s, j + 9) {
                        Some((nanos, k)) => {
                            if nanos < 1_000_000_000 && k < s.len() && s[k] == '}' {
                                Some((Some(secs * 1_000_000_000 + nanos), k + 1))
                            } else {
                                None
                            }
                        },
                        None => None,
                    }
                } else {
                    None
                }
            },
            None => None,
        }
    } else {
        None
    }
}

/// Reads a quoted date string starting at `i` (no escapes).
pub open spec fn sp_date(s: Seq<char>, i: int) -> Option<(int, int)> {
    if !(0 <= i < s.len() && s[i] == '"') {
        None
    } else {
        let j = quote_end(s, i + 1);
        if j >= s.len() || s[j] != '"' {
            None
        } else {
            match spec_parse_date(s.subrange(i + 1, j)) {
                Some(n) => Some((n, j + 1)),
                None => None,
            }
        }
    }
}

/// The position of the next quote at or after `i`, or the length; a
/// backslash on the way also stops the search (the text then fails to
/// read as a date anyway, and dates never contain one).
pub open spec fn quote_end(s: Seq<char>, i: int) -> int
    decreases s.len() - i,
{
    if 0 <= i < s.len() && s[i] != '"' && s[i] != '\\' {
        quote_end(s, i + 1)
    } else {
        i
    }
}

/// `true` when the line holds only spaces from `i` on.
pub open spec fn only_spaces_from(s: Seq<char>, i: int) -> bool {
    skip_sp(s, i) == s.len()
}

/// Expects `,` with optional spaces around it; yields the position after.
pub open spec fn sp_comma(s: Seq<char>, i: int) -> Option<int> {
    let j = skip_sp(s, i);
    if j < s.len() && s[j] == ',' {
        Some(skip_sp(s, j + 1))
    } else {
        None
    }
}

/// Expects `]` and then only spaces; `Some` means the line ended well.
pub open spec fn sp_close(s: Seq<char>, i: int) -> bool {
    let j = skip_sp(s, i);
    j < s.len() && s[j] == ']' && only_spaces_from(s, j + 1)
}

/// Expects `[` after optional spaces; yields the position after it and
/// any following spaces.
pub open spec fn sp_open(s: Seq<char>, i: int) -> Option<int> {
    let j = skip_sp(s, i);
    if j < s.len() && s[j] == '[' {
        Some(skip_sp(s, j + 1))
    } else {
        None
    }
}

/// Whether `s` starts with `p`.
pub open spec fn starts_with(s: Seq<char>, p: Seq<char>) -> bool {
    p.len() <= s.len() && s.subrange(0, p.len() as int) =~= p
}

/// Reads one line of the log.
#[verifier::opaque]
pub open spec fn spec_parse_line(s: Seq<char>) -> Option<RecordV> {
    if starts_with(s, create_task_prefix()) {
        parse_create_args(s, create_task_prefix().len() as int)
    } else if starts_with(s, clone_task_prefix()) {
        parse_clone_args(s, clone_task_prefix().len() as int)
    } else if starts_with(s, complete_todo_prefix()) {
        parse_complete_args(s, complete_todo_prefix().len() as int)
    } else if starts_with(s, todo_later_prefix()) {
        match parse_one_id(s, todo_later_prefix().len() as int) {
            Some(id) => Some(RecordV::TodoLater { todo_id: id as u64 }),
            None => None,
        }
    } else if starts_with(s, pause_task_prefix()) {
        match parse_one_id(s, pause_task_prefix().len() as int) {
            Some(id) => Some(RecordV::PauseTask { task_id: id as u64 }),
            None => None,
        }
    } else if starts_with(s, unpause_task_prefix()) {
        match parse_one_id(s, unpause_task_prefix().len() as int) {
            Some(id) => Some(RecordV::UnpauseTask { task_id: id as u64 }),
            None => None,
        }
    } else {
        None
    }
}

pub open spec fn parse_create_args(s: Seq<char>, i: int) -> Option<RecordV> {
    match sp_open(s, i) {
        Some(p1) => match sp_string(s, p1) {
            Some((title, p2)) => match sp_comma(s, p2) {
                Some(p3) => match sp_duration(s, p3) {
                    Some((due_every, p4)) => match sp_comma(s, p4) {
                        Some(p5) => match sp_u64(s, p5) {
                            Some((task_id, p6)) => match sp_comma(s, p6) {
                                Some(p7) => match sp_u64(s, p7) {
                                    Some((todo_id, p8)) => if sp_close(s, p8) && due_ok(
                                        due_every,
                                    ) {
                                        Some(
                                            RecordV::CreateTask {
                                                title,
                                                due_every,
                                                task_id: task_id as u64,
                                                todo_id: todo_id as u64,
                                            },
                                        )
                                    } else {
                                        None
                                    },
                                    None => None,
                                },
                                None => None,
                            },
                            None => None,
                        },
                        None => None,
                    },
                    None => None,
                },
                None => None,
            },
            None => None,
        },
        None => None,
    }
}

/// A read duration is storable.
pub open spec fn due_ok(d: Option<int>) -> bool {
    match d {
        Some(n) => fixed_span_in_range(n),
        None => true,
    }
}

pub open spec fn parse_clone_args(s: Seq<char>, i: int) -> Option<RecordV> {
    match sp_open(s, i) {
        Some(p1) => match sp_u64(s, p1) {
            Some((task_id, p2)) => match sp_comma(s, p2) {
                Some(p3) => match sp_string(s, p3) {
                    Some((title, p4)) => match sp_comma(s, p4) {
                        Some(p5) => match sp_u64(s, p5) {
                            Some((new_task_id, p6)) => match sp_comma(s, p6) {
                                Some(p7) => match sp_u64(s, p7) {
                                    Some((todo_id, p8)) => if sp_close(s, p8) {
                                        Some(
                                            RecordV::CloneTask {
                                                task_id: task_id as u64,
                                                title,
                                                new_task_id: new_task_id as u64,
                                                todo_id: todo_id as u64,
                                            },
                                        )
                                    } else {
                                        None
                                    },
                                    None => None,
                                },
                                None => None,
                            },
                            None => None,
                        },
                        None => None,
                    },
                    None => None,
                },
                None => None,
            },
            None => None,
        },
        None => None,
    }
}

pub open spec fn parse_complete_args(s: Seq<char>, i: int) -> Option<RecordV> {
    match sp_open(s, i) {
        Some(p1) => match sp_u64(s, p1) {
            Some((todo_id, p2)) => match sp_comma(s, p2) {
                Some(p3) => match sp_date(s, p3) {
                    Some((completed, p4)) => if sp_close(s, p4) {
                        Some(
                            RecordV::CompleteTodo { todo_id: todo_id as u64, completed },
                        )
                    } else {
                        None
                    },
                    None => None,
                },
                None => None,
            },
            None => None,
        },
        None => None,
    }
}

pub open spec fn parse_one_id(s: Seq<char>, i: int) -> Option<int> {
    match sp_open(s, i) {
        Some(p1) => match sp_u64(s, p1) {
            Some((id, p2)) => if sp_close(s, p2) {
                Some(id)
            } else {
                None
            },
            None => None,
        },
        None => None,
    }
}

/// Relies on `str::chars`: the characters of the string, in order; each is
/// a Unicode scalar value, so its numeric value lies in 0 to 0x10FFFF.
#[verifier::external_body]
pub(crate) fn str_chars(s: &str) -> (v: Vec<char>)
    ensures
        v@ == s@,
        valid_title(v@),
{
    s.chars().collect()
}

/// Relies on `String`'s `FromIterator<char>`: concatenating the characters
/// back into a string.
#[verifier::external_body]
pub(crate) fn chars_string(v: &Vec<char>) -> (s: String)
    ensures
        s@ == v@,
{
    v.iter().collect()
}

/// Appends a literal's characters.
#[verifier::loop_isolation(false)]
fn push_lit(out: &mut Vec<char>, s: &str)
    ensures
        final(out)@ == old(out)@ + s@,
{
    let n = s.unicode_len();
    let mut i: usize = 0;
    while i < n
        invariant
            i <= n,
            n == s@.len(),
            out@ == old(out)@ + s@.take(i as int),
        decreases n - i,
    {
        out.push(s.get_char(i));
        proof {
            assert(out@ =~= old(out)@ + s@.take(i + 1));
        }
        i = i + 1;
    }
    proof {
        assert(out@ =~= old(out)@ + s@);
    }
}

fn hex_char_x(v: u32) -> (c: char)
    requires
        v < 16,
    ensures
        c == hex_char(v as int),
{
    match v {
        0 => '0',
        1 => '1',
        2 => '2',
        3 => '3',
        4 => '4',
        5 => '5',
        6 => '6',
        7 => '7',
        8 => '8',
        9 => '9',
        10 => 'a',
        11 => 'b',
        12 => 'c',
        13 => 'd',
        14 => 'e',
        _ => 'f',
    }
}

/// Escaping distributes over appending one character.
proof fn lemma_json_escape_push(s: Seq<char>, c: char)
    ensures
        json_escape(s.push(c)) == json_escape(s) + esc_char(c),
    decreases s.len(),
{
    if s.len() == 0 {
        assert(s.push(c).drop_first() =~= Seq::<char>::empty());
        assert(json_escape(s.push(c)) =~= esc_char(c) + json_escape(Seq::<char>::empty()));
        assert(json_escape(s.push(c)) =~= json_escape(s) + esc_char(c));
    } else {
        assert(s.push(c).drop_first() =~= s.drop_first().push(c));
        lemma_json_escape_push(s.drop_first(), c);
        assert(json_escape(s.push(c)) == esc_char(s[0]) + (json_escape(s.drop_first())
            + esc_char(c)));
        assert(esc_char(s[0]) + (json_escape(s.drop_first()) + esc_char(c)) =~= (esc_char(
            s[0],
        ) + json_escape(s.drop_first())) + esc_char(c));
    }
}

/// Appends a string's characters with their escapes.
#[verifier::loop_isolation(false)]
fn push_escaped(out: &mut Vec<char>, title: &str)
    ensures
        final(out)@ == old(out)@ + json_escape(title@),
{
    let v = str_chars(title);
    let n = v.len();
    let mut i: usize = 0;
    proof {
        assert(v@.take(0) =~= Seq::<char>::empty());
        assert(json_escape(Seq::<char>::empty()) =~= Seq::<char>::empty());
        assert(out@ =~= old(out)@ + json_escape(v@.take(0)));
    }
    while i < n
        invariant
            i <= n,
            n == v@.len(),
            out@ == old(out)@ + json_escape(v@.take(i as int)),
        decreases n - i,
    {
        let c = v[i];
        if c == '"' {
            out.push('\\');
            out.push('"');
        } else if c == '\\' {
            out.push('\\');
            out.push('\\');
        } else if c == '\u{8}' {
            out.push('\\');
            out.push('b');
        } else if c == '\u{9}' {
            out.push('\\');
            out.push('t');
        } else if c == '\u{a}' {
            out.push('\\');
            out.push('n');
        } else if c == '\u{c}' {
            out.push('\\');
            out.push('f');
        } else if c == '\u{d}' {
            out.push('\\');
            out.push('r');
        } else if (c as u32) < 0x20 {
            out.push('\\');
            out.push('u');
            out.push('0');
            out.push('0');
            out.push(hex_char_x((c as u32) / 16));
            out.push(hex_char_x((c as u32) % 16));
        } else {
            out.push(c);
        }
        proof {
            assert(v@.take(i + 1) =~= v@.take(i as int).push(v@[i as int]));
            lemma_json_escape_push(v@.take(i as int), v@[i as int]);
            assert(out@ =~= old(out)@ + json_escape(v@.take(i + 1)));
        }
        i = i + 1;
    }
    proof {
        assert(v@.take(n as int) =~= title@);
    }
}

/// Appends an unsigned number in decimal.
pub(crate) fn push_u64(out: &mut Vec<char>, v: u64)
    ensures
        final(out)@ =~= old(out)@ + dec_text(v as int),
    decreases v,
{
    if v < 10 {
        out.push(digit_char_x(v));
    } else {
        push_u64(out, v / 10);
        out.push(digit_char_x(v % 10));
    }
}

/// Appends a duration argument.
fn push_duration(out: &mut Vec<char>, d: &Option<Span>)
    requires
        match d {
            Some(sp) => fixed_span_in_range(sp.nanos as int),
            None => true,
        },
    ensures
        final(out)@ == old(out)@ + duration_text(
            match d {
                Some(sp) => Some(sp.nanos as int),
                None => None,
            },
        ),
{
    match d {
        None => {
            push_lit(out, "null");
            proof {
                reveal_strlit("null");
                assert("null"@ =~= seq!['n', 'u', 'l', 'l']);
            }
        },
        Some(sp) => {
            let total = sp.nanos as u128;
            proof {
                vstd::arithmetic::div_mod::lemma_div_is_ordered(
                    total as int,
                    FIXED_SPAN_MAX as int,
                    1_000_000_000,
                );
            }
            let secs = (total / 1_000_000_000) as u64;
            let nanos = (total % 1_000_000_000) as u64;
            push_lit(out, "{\"secs\":");
            push_u64(out, secs);
            push_lit(out, ",\"nanos\":");
            push_u64(out, nanos);
            push_lit(out, "}");
            proof {
                reveal_strlit("{\"secs\":");
                reveal_strlit(",\"nanos\":");
                reveal_strlit("}");
                assert("{\"secs\":"@ =~= seq!['{', '"', 's', 'e', 'c', 's', '"', ':']);
                assert(",\"nanos\":"@ =~= seq![',', '"', 'n', 'a', 'n', 'o', 's', '"', ':']);
                assert("}"@ =~= seq!['}']);
                assert(final(out)@ =~= old(out)@ + duration_text(Some(sp.nanos as int)));
            }
        },
    }
}

/// Appends a quoted completion instant.
fn push_date(out: &mut Vec<char>, d: TodoDate)
    requires
        date_in_range(d.nanos as int),
    ensures
        final(out)@ == old(out)@ + seq!['"'] + date_text(d.nanos as int) + seq!['"'],
{
    out.push('"');
    let t = crate::datetext::format_date(d.nanos);
    let ghost base = out@;
    let n = t.len();
    let mut i: usize = 0;
    while i < n
        invariant
            i <= n,
            n == t@.len(),
            out@ == base + t@.take(i as int),
            t@ == date_text(d.nanos as int),
        decreases n - i,
    {
        out.push(t[i]);
        proof {
            assert(out@ =~= base + t@.take(i + 1));
        }
        i = i + 1;
    }
    out.push('"');
    proof {
        assert(t@.take(n as int) =~= t@);
        assert(out@ =~= old(out)@ + seq!['"'] + date_text(d.nanos as int) + seq!['"']);
    }
}

/// Writes a record as its log line (without the newline).
pub fn render_record(r: &LogRecord) -> (line: String)
    requires
        record_wf(r@),
    ensures
        line@ == render_record_text(r@),
{
    let mut out: Vec<char> = Vec::new();
    match r {
        LogRecord::CreateTask { title, due_every, task_id, todo_id } => {
            push_lit(&mut out, "create_task1: [\"");
            push_escaped(&mut out, title.as_str());
            push_lit(&mut out, "\", ");
            push_duration(&mut out, due_every);
            push_lit(&mut out, ", ");
            push_u64(&mut out, task_id.0);
            push_lit(&mut out, ", ");
            push_u64(&mut out, todo_id.0);
            push_lit(&mut out, "]");
            proof {
                reveal_strlit("create_task1: [\"");
                reveal_strlit("\", ");
                reveal_strlit(", ");
                reveal_strlit("]");
                assert("create_task1: [\""@ =~= create_task_prefix() + seq![' ', '[', '"']);
                assert("\", "@ =~= seq!['"', ',', ' ']);
                assert(", "@ =~= seq![',', ' ']);
                assert("]"@ =~= seq![']']);
                assert(out@ =~= render_record_text(r@));
            }
        },
        LogRecord::CloneTask { task_id, title, new_task_id, todo_id } => {
            push_lit(&mut out, "clone_task1: [");
            push_u64(&mut out, task_id.0);
            push_lit(&mut out, ", \"");
            push_escaped(&mut out, title.as_str());
            push_lit(&mut out, "\", ");
            push_u64(&mut out, new_task_id.0);
            push_lit(&mut out, ", ");
            push_u64(&mut out, todo_id.0);
            push_lit(&mut out, "]");
            proof {
                reveal_strlit("clone_task1: [");
                reveal_strlit(", \"");
                reveal_strlit("\", ");
                reveal_strlit(", ");
                reveal_strlit("]");
                assert("clone_task1: ["@ =~= clone_task_prefix() + seq![' ', '[']);
                assert(", \""@ =~= seq![',', ' ', '"']);
                assert("\", "@ =~= seq!['"', ',', ' ']);
                assert(", "@ =~= seq![',', ' ']);
                assert("]"@ =~= seq![']']);
                assert(out@ =~= render_record_text(r@));
            }
        },
        LogRecord::CompleteTodo { todo_id, completed } => {
            push_lit(&mut out, "complete_todo1: [");
            push_u64(&mut out, todo_id.0);
            push_lit(&mut out, ", ");
            push_date(&mut out, completed.date);
            push_lit(&mut out, "]");
            proof {
                reveal_strlit("complete_todo1: [");
                reveal_strlit(", ");
                reveal_strlit("]");
                assert("complete_todo1: ["@ =~= complete_todo_prefix() + seq![' ', '[']);
                assert(", "@ =~= seq![',', ' ']);
                assert("]"@ =~= seq![']']);
                assert(out@ =~= render_record_text(r@));
            }
        },
        LogRecord::TodoLater { todo_id } => {
            push_lit(&mut out, "todo_later1: [");
            push_u64(&mut out, todo_id.0);
            push_lit(&mut out, "]");
            proof {
                reveal_strlit("todo_later1: [");
                reveal_strlit("]");
                assert("todo_later1: ["@ =~= todo_later_prefix() + seq![' ', '[']);
                assert("]"@ =~= seq![']']);
                assert(out@ =~= render_record_text(r@));
            }
        },
        LogRecord::PauseTask { task_id } => {
            push_lit(&mut out, "pause_task1: [");
            push_u64(&mut out, task_id.0);
            push_lit(&mut out, "]");
            proof {
                reveal_strlit("pause_task1: [");
                reveal_strlit("]");
                assert("pause_task1: ["@ =~= pause_task_prefix() + seq![' ', '[']);
                assert("]"@ =~= seq![']']);
                assert(out@ =~= render_record_text(r@));
            }
        },
        LogRecord::UnpauseTask { task_id } => {
            push_lit(&mut out, "unpause_task1: [");
            push_u64(&mut out, task_id.0);
            push_lit(&mut out, "]");
            proof {
                reveal_strlit("unpause_task1: [");
                reveal_strlit("]");
                assert("unpause_task1: ["@ =~= unpause_task_prefix() + seq![' ', '[']);
                assert("]"@ =~= seq![']']);
                assert(out@ =~= render_record_text(r@));
            }
        },
    }
    chars_string(&out)
}

/// Skips spaces, executably.
#[verifier::loop_isolation(false)]
fn skip_sp_x(v: &Vec<char>, i: usize) -> (j: usize)
    requires
        i <= v@.len(),
    ensures
        j as int == skip_sp(v@, i as int),
        i <= j <= v@.len(),
{
    let mut j = i;
    while j < v.len() && v[j] == ' '
        invariant
            i <= j <= v@.len(),
            skip_sp(v@, i as int) == skip_sp(v@, j as int),
        decreases v@.len() - j,
    {
        j = j + 1;
    }
    j
}

/// Digit runs with a leading nonzero digit are worth at least the power of
/// ten of their width.
proof fn lemma_digits_lower(s: Seq<char>)
    requires
        s.len() >= 1,
        forall|i: int| 0 <= i < s.len() ==> is_digit(#[trigger] s[i]),
        s[0] != '0',
    ensures
        digits_val(s) >= pow10(s.len() - 1),
    decreases s.len(),
{
    if s.len() == 1 {
        assert(digit_val(s[0]) >= 1);
    } else {
        assert(forall|i: int|
            0 <= i < s.drop_last().len() ==> is_digit(#[trigger] s.drop_last()[i]));
        assert(s.drop_last()[0] == s[0]);
        lemma_digits_lower(s.drop_last());
        assert(digits_val(s) == digits_val(s.drop_last()) * 10 + digit_val(s.last()));
        assert(digits_val(s.drop_last()) * 10 >= pow10(s.len() - 2) * 10)
            by (nonlinear_arith)
            requires
                digits_val(s.drop_last()) >= pow10(s.len() - 2),
        ;
    }
}

/// Reads an unsigned 64-bit number, executably.
#[verifier::loop_isolation(false)]
#[verifier::rlimit(50)]
#[verifier::spinoff_prover]
fn u64_x(v: &Vec<char>, i: usize) -> (r: Option<(u64, usize)>)
    requires
        i <= v@.len(),
    ensures
        match r {
            Some((val, j)) => sp_u64(v@, i as int) == Some((val as int, j as int)) && i < j
                <= v@.len(),
            None => sp_u64(v@, i as int) is None,
        },
{
    proof {
        reveal_with_fuel(pow10, 22);
    }
    let mut j = i;
    while j < v.len() && digit_val_x(v[j]).is_some()
        invariant
            i <= j <= v@.len(),
            digits_end(v@, i as int) == digits_end(v@, j as int),
            forall|k: int| i <= k < j ==> is_digit(#[trigger] v@[k]),
        decreases v@.len() - j,
    {
        j = j + 1;
    }
    proof {
        assert(digits_end(v@, j as int) == j);
    }
    if j == i {
        return None;
    }
    if v[i] == '0' && j > i + 1 {
        return None;
    }
    if j - i > 20 {
        proof {
            assert forall|k: int|
                0 <= k < (j - i) implies is_digit(
                #[trigger] v@.subrange(i as int, j as int)[k],
            ) by {
                assert(v@.subrange(i as int, j as int)[k] == v@[i + k]);
            }
            lemma_digits_lower(v@.subrange(i as int, j as int));
            lemma_pow10_mono(20, j - i - 1);
        }
        return None;
    }
    let mut val: u128 = 0;
    let mut k = i;
    while k < j
        invariant
            i <= k <= j,
            val as int == digits_val(v@.subrange(i as int, k as int)),
            (val as int) < pow10(k - i),
        decreases j - k,
    {
        let d = match digit_val_x(v[k]) {
            Some(x) => x,
            None => vstd::pervasive::unreached(),
        };
        proof {
            assert(v@.subrange(i as int, k + 1).drop_last() =~= v@.subrange(
                i as int,
                k as int,
            ));
            assert(v@.subrange(i as int, k + 1).last() == v@[k as int]);
            lemma_pow10_mono(k + 1 - i as int, 20);
        }
        val = val * 10 + d as u128;
        k = k + 1;
    }
    if val > u64::MAX as u128 {
        return None;
    }
    Some((val as u64, j))
}

fn hex_val_x(c: char) -> (r: Option<u32>)
    ensures
        match r {
            Some(x) => hex_val(c) == x && x < 16,
            None => hex_val(c) == -1,
        },
{
    match c {
        '0' => Some(0),
        '1' => Some(1),
        '2' => Some(2),
        '3' => Some(3),
        '4' => Some(4),
        '5' => Some(5),
        '6' => Some(6),
        '7' => Some(7),
        '8' => Some(8),
        '9' => Some(9),
        'a' | 'A' => Some(10),
        'b' | 'B' => Some(11),
        'c' | 'C' => Some(12),
        'd' | 'D' => Some(13),
        'e' | 'E' => Some(14),
        'f' | 'F' => Some(15),
        _ => None,
    }
}

fn code_char_x(v: u32) -> (c: char)
    requires
        v < 0x20,
    ensures
        c == code_char(v as int),
        valid_char(c),
{
    match v {
        0x0 => '\u{0}',
        0x1 => '\u{1}',
        0x2 => '\u{2}',
        0x3 => '\u{3}',
        0x4 => '\u{4}',
        0x5 => '\u{5}',
        0x6 => '\u{6}',
        0x7 => '\u{7}',
        0x8 => '\u{8}',
        0x9 => '\u{9}',
        0xa => '\u{a}',
        0xb => '\u{b}',
        0xc => '\u{c}',
        0xd => '\u{d}',
        0xe => '\u{e}',
        0xf => '\u{f}',
        0x10 => '\u{10}',
        0x11 => '\u{11}',
        0x12 => '\u{12}',
        0x13 => '\u{13}',
        0x14 => '\u{14}',
        0x15 => '\u{15}',
        0x16 => '\u{16}',
        0x17 => '\u{17}',
        0x18 => '\u{18}',
        0x19 => '\u{19}',
        0x1a => '\u{1a}',
        0x1b => '\u{1b}',
        0x1c => '\u{1c}',
        0x1d => '\u{1d}',
        0x1e => '\u{1e}',
        _ => '\u{1f}',
    }
}

/// Reads a quoted string literal, executably.
#[verifier::loop_isolation(false)]
#[verifier::rlimit(50)]
#[verifier::spinoff_prover]
fn string_x(v: &Vec<char>, i: usize) -> (r: Option<(String, usize)>)
    requires
        i <= v@.len(),
        valid_title(v@),
    ensures
        match r {
            Some((t, j)) => sp_string(v@, i as int) == Some((t@, j as int)) && i < j
                <= v@.len() && valid_title(t@),
            None => sp_string(v@, i as int) is None,
        },
{
    proof {
        assert(valid_title(v@));
    }
    if !(i < v.len() && v[i] == '"') {
        return None;
    }
    let mut out: Vec<char> = Vec::new();
    let mut cur: usize = i + 1;
    proof {
        if let Some((rest, j)) = sp_unescape(v@, i as int + 1) {
            assert(Seq::<char>::empty() + rest =~= rest);
        }
    }
    loop
        invariant
            i + 1 <= cur <= v@.len(),
            valid_title(out@),
            match sp_unescape(v@, cur as int) {
                Some((rest, j)) => sp_unescape(v@, i as int + 1) == Some((out@ + rest, j)),
                None => sp_unescape(v@, i as int + 1) is None,
            },
        decreases v@.len() - cur,
    {
        if cur >= v.len() {
            return None;
        }
        let c = v[cur];
        let ghost pre_out = out@;
        let ghost pre_cur = cur as int;
        if c == '"' {
            proof {
                assert(out@ + Seq::<char>::empty() =~= out@);
            }
            return Some((chars_string(&out), cur + 1));
        } else if c == '\\' {
            if v.len() - cur < 2 {
                return None;
            }
            let e = v[cur + 1];
            if e == 'u' {
                if v.len() - cur < 6 || v[cur + 2] != '0' || v[cur + 3] != '0' {
                    return None;
                }
                let h1 = match hex_val_x(v[cur + 4]) {
                    Some(x) => x,
                    None => {
                        return None;
                    },
                };
                let h2 = match hex_val_x(v[cur + 5]) {
                    Some(x) => x,
                    None => {
                        return None;
                    },
                };
                let code = h1 * 16 + h2;
                if code >= 0x20 {
                    return None;
                }
                out.push(code_char_x(code));
                cur = cur + 6;
            } else {
                let c2: char = if e == '"' {
                    '"'
                } else if e == '\\' {
                    '\\'
                } else if e == '/' {
                    '/'
                } else if e == 'b' {
                    '\u{8}'
                } else if e == 't' {
                    '\u{9}'
                } else if e == 'n' {
                    '\u{a}'
                } else if e == 'f' {
                    '\u{c}'
                } else if e == 'r' {
                    '\u{d}'
                } else {
                    return None;
                };
                out.push(c2);
                cur = cur + 2;
            }
        } else if (c as u32) < 0x20 {
            return None;
        } else {
            out.push(c);
            cur = cur + 1;
        }
        proof {
            match sp_unescape(v@, cur as int) {
                Some((rest, j)) => {
                    assert(sp_unescape(v@, pre_cur) == Some(
                        (seq![out@.last()] + rest, j),
                    ));
                    assert(pre_out + (seq![out@.last()] + rest) =~= out@ + rest);
                },
                None => {},
            }
        }
    }
}

/// Whether the characters at `i` spell the literal.
#[verifier::loop_isolation(false)]
fn lit_at(v: &Vec<char>, i: usize, p: &str) -> (b: bool)
    requires
        i <= v@.len(),
    ensures
        b == (i + p@.len() <= v@.len() && v@.subrange(i as int, i as int + p@.len()) =~= p@),
{
    let n = p.unicode_len();
    if v.len() - i < n {
        return false;
    }
    let mut k: usize = 0;
    while k < n
        invariant
            k <= n,
            n == p@.len(),
            i + n <= v@.len(),
            forall|t: int| 0 <= t < k ==> v@[i + t] == #[trigger] p@[t],
        decreases n - k,
    {
        if v[i + k] != p.get_char(k) {
            proof {
                assert(v@.subrange(i as int, i as int + p@.len())[k as int] != p@[k as int]);
            }
            return false;
        }
        k = k + 1;
    }
    proof {
        assert(v@.subrange(i as int, i as int + p@.len()) =~= p@);
    }
    true
}

/// Reads a duration argument, executably.
#[verifier::rlimit(50)]
#[verifier::spinoff_prover]
fn duration_x(v: &Vec<char>, i: usize) -> (r: Option<(Option<Span>, usize)>)
    requires
        i <= v@.len(),
    ensures
        match r {
            Some((d, j)) => {
                &&& sp_duration(v@, i as int) == Some(
                    (
                        match d {
                            Some(sp) => Some(sp.nanos as int),
                            None => None,
                        },
                        j as int,
                    ),
                )
                &&& i < j <= v@.len()
                &&& match d {
                    Some(sp) => fixed_span_in_range(sp.nanos as int),
                    None => true,
                }
            },
            None => sp_duration(v@, i as int) is None,
        },
{
    let n_len = v.len();
    proof {
        reveal_strlit("null");
        reveal_strlit("{\"secs\":");
        reveal_strlit(",\"nanos\":");
        assert("null"@ =~= seq!['n', 'u', 'l', 'l']);
        assert("{\"secs\":"@ =~= seq!['{', '"', 's', 'e', 'c', 's', '"', ':']);
        assert(",\"nanos\":"@ =~= seq![',', '"', 'n', 'a', 'n', 'o', 's', '"', ':']);
    }
    if lit_at(v, i, "null") {
        proof {
            assert("null"@.len() == 4);
            assert(i + 4 <= v@.len());
        }
        return Some((None, i + 4));
    }
    if !lit_at(v, i, "{\"secs\":") {
        return None;
    }
    proof {
        assert("{\"secs\":"@.len() == 8);
        assert(i + 8 <= v@.len());
    }
    let (secs, j) = match u64_x(v, i + 8) {
        Some(x) => x,
        None => {
            return None;
        },
    };
    if !lit_at(v, j, ",\"nanos\":") {
        return None;
    }
    let (nanos, k) = match u64_x(v, j + 9) {
        Some(x) => x,
        None => {
            return None;
        },
    };
    if !(nanos < 1_000_000_000 && k < v.len() && v[k] == '}') {
        return None;
    }
    let sp = Span { nanos: (secs as i128) * 1_000_000_000 + nanos as i128 };
    Some((Some(sp), k + 1))
}

/// Reads a quoted completion instant, executably.
#[verifier::loop_isolation(false)]
fn date_x(v: &Vec<char>, i: usize) -> (r: Option<(i128, usize)>)
    requires
        i <= v@.len(),
    ensures
        match r {
            Some((n, j)) => sp_date(v@, i as int) == Some((n as int, j as int)) && i < j
                <= v@.len() && date_in_range(n as int),
            None => sp_date(v@, i as int) is None,
        },
{
    if !(i < v.len() && v[i] == '"') {
        return None;
    }
    let mut j = i + 1;
    while j < v.len() && v[j] != '"' && v[j] != '\\'
        invariant
            i + 1 <= j <= v@.len(),
            quote_end(v@, i as int + 1) == quote_end(v@, j as int),
        decreases v@.len() - j,
    {
        j = j + 1;
    }
    proof {
        assert(quote_end(v@, j as int) == j);
    }
    if j >= v.len() {
        return None;
    }
    if v[j] != '"' {
        return None;
    }
    let mut sub: Vec<char> = Vec::new();
    let mut k = i + 1;
    while k < j
        invariant
            i + 1 <= k <= j,
            j < v@.len(),
            sub@ == v@.subrange(i as int + 1, k as int),
        decreases j - k,
    {
        sub.push(v[k]);
        proof {
            assert(sub@ =~= v@.subrange(i as int + 1, k + 1));
        }
        k = k + 1;
    }
    match crate::datetext::parse_date(&sub) {
        Some(n) => Some((n, j + 1)),
        None => None,
    }
}

fn comma_x(v: &Vec<char>, i: usize) -> (r: Option<usize>)
    requires
        i <= v@.len(),
    ensures
        match r {
            Some(j) => sp_comma(v@, i as int) == Some(j as int) && j <= v@.len(),
            None => sp_comma(v@, i as int) is None,
        },
{
    let j = skip_sp_x(v, i);
    if j < v.len() && v[j] == ',' {
        Some(skip_sp_x(v, j + 1))
    } else {
        None
    }
}

fn open_x(v: &Vec<char>, i: usize) -> (r: Option<usize>)
    requires
        i <= v@.len(),
    ensures
        match r {
            Some(j) => sp_open(v@, i as int) == Some(j as int) && j <= v@.len(),
            None => sp_open(v@, i as int) is None,
        },
{
    let j = skip_sp_x(v, i);
    if j < v.len() && v[j] == '[' {
        Some(skip_sp_x(v, j + 1))
    } else {
        None
    }
}

fn close_x(v: &Vec<char>, i: usize) -> (b: bool)
    requires
        i <= v@.len(),
    ensures
        b == sp_close(v@, i as int),
{
    let j = skip_sp_x(v, i);
    if j < v.len() && v[j] == ']' {
        let k = skip_sp_x(v, j + 1);
        k == v.len()
    } else {
        false
    }
}

fn parse_create_x(v: &Vec<char>, i: usize) -> (r: Option<LogRecord>)
    requires
        i <= v@.len(),
        valid_title(v@),
    ensures
        match r {
            Some(rec) => parse_create_args(v@, i as int) == Some(rec@) && record_wf(rec@),
            None => parse_create_args(v@, i as int) is None,
        },
{
    let p1 = match open_x(v, i) {
        Some(p) => p,
        None => {
            return None;
        },
    };
    let (title, p2) = match string_x(v, p1) {
        Some(x) => x,
        None => {
            return None;
        },
    };
    let p3 = match comma_x(v, p2) {
        Some(p) => p,
        None => {
            return None;
        },
    };
    let (due_every, p4) = match duration_x(v, p3) {
        Some(x) => x,
        None => {
            return None;
        },
    };
    let p5 = match comma_x(v, p4) {
        Some(p) => p,
        None => {
            return None;
        },
    };
    let (task_id, p6) = match u64_x(v, p5) {
        Some(x) => x,
        None => {
            return None;
        },
    };
    let p7 = match comma_x(v, p6) {
        Some(p) => p,
        None => {
            return None;
        },
    };
    let (todo_id, p8) = match u64_x(v, p7) {
        Some(x) => x,
        None => {
            return None;
        },
    };
    if !close_x(v, p8) {
        return None;
    }
    Some(
        LogRecord::CreateTask {
            title,
            due_every,
            task_id: TaskId(task_id),
            todo_id: TodoId(todo_id),
        },
    )
}

fn parse_clone_x(v: &Vec<char>, i: usize) -> (r: Option<LogRecord>)
    requires
        i <= v@.len(),
        valid_title(v@),
    ensures
        match r {
            Some(rec) => parse_clone_args(v@, i as int) == Some(rec@) && record_wf(rec@),
            None => parse_clone_args(v@, i as int) is None,
        },
{
    let p1 = match open_x(v, i) {
        Some(p) => p,
        None => {
            return None;
        },
    };
    let (task_id, p2) = match u64_x(v, p1) {
        Some(x) => x,
        None => {
            return None;
        },
    };
    let p3 = match comma_x(v, p2) {
        Some(p) => p,
        None => {
            return None;
        },
    };
    let (title, p4) = match string_x(v, p3) {
        Some(x) => x,
        None => {
            return None;
        },
    };
    let p5 = match comma_x(v, p4) {
        Some(p) => p,
        None => {
            return None;
        },
    };
    let (new_task_id, p6) = match u64_x(v, p5) {
        Some(x) => x,
        None => {
            return None;
        },
    };
    let p7 = match comma_x(v, p6) {
        Some(p) => p,
        None => {
            return None;
        },
    };
    let (todo_id, p8) = match u64_x(v, p7) {
        Some(x) => x,
        None => {
            return None;
        },
    };
    if !close_x(v, p8) {
        return None;
    }
    Some(
        LogRecord::CloneTask {
            task_id: TaskId(task_id),
            title,
            new_task_id: TaskId(new_task_id),
            todo_id: TodoId(todo_id),
        },
    )
}

fn parse_complete_x(v: &Vec<char>, i: usize) -> (r: Option<LogRecord>)
    requires
        i <= v@.len(),
    ensures
        match r {
            Some(rec) => parse_complete_args(v@, i as int) == Some(rec@) && record_wf(rec@),
            None => parse_complete_args(v@, i as int) is None,
        },
{
    let p1 = match open_x(v, i) {
        Some(p) => p,
        None => {
            return None;
        },
    };
    let (todo_id, p2) = match u64_x(v, p1) {
        Some(x) => x,
        None => {
            return None;
        },
    };
    let p3 = match comma_x(v, p2) {
        Some(p) => p,
        None => {
            return None;
        },
    };
    let (completed, p4) = match date_x(v, p3) {
        Some(x) => x,
        None => {
            return None;
        },
    };
    if !close_x(v, p4) {
        return None;
    }
    Some(
        LogRecord::CompleteTodo {
            todo_id: TodoId(todo_id),
            completed: TodoCompleted { date: TodoDate { nanos: completed } },
        },
    )
}

fn parse_one_id_x(v: &Vec<char>, i: usize) -> (r: Option<u64>)
    requires
        i <= v@.len(),
    ensures
        match r {
            Some(id) => parse_one_id(v@, i as int) == Some(id as int),
            None => parse_one_id(v@, i as int) is None,
        },
{
    let p1 = match open_x(v, i) {
        Some(p) => p,
        None => {
            return None;
        },
    };
    let (id, p2) = match u64_x(v, p1) {
        Some(x) => x,
        None => {
            return None;
        },
    };
    if !close_x(v, p2) {
        return None;
    }
    Some(id)
}

/// Reads one log line (without its newline) into a record, if it is
/// well-formed; anything else is unreadable and replay treats it as fatal.
#[verifier::rlimit(100)]
#[verifier::spinoff_prover]
pub fn parse_line(line: &str) -> (r: Option<LogRecord>)
    ensures
        match r {
            Some(rec) => spec_parse_line(line@) == Some(rec@) && record_wf(rec@),
            None => spec_parse_line(line@) is None,
        },
{
    let v = str_chars(line);
    proof {
        reveal(spec_parse_line);
        reveal_strlit("create_task1:");
        reveal_strlit("clone_task1:");
        reveal_strlit("complete_todo1:");
        reveal_strlit("todo_later1:");
        reveal_strlit("pause_task1:");
        reveal_strlit("unpause_task1:");
        assert("create_task1:"@ =~= create_task_prefix());
        assert("clone_task1:"@ =~= clone_task_prefix());
        assert("complete_todo1:"@ =~= complete_todo_prefix());
        assert("todo_later1:"@ =~= todo_later_prefix());
        assert("pause_task1:"@ =~= pause_task_prefix());
        assert("unpause_task1:"@ =~= unpause_task_prefix());
    }
    if lit_at(&v, 0, "create_task1:") {
        parse_create_x(&v, 13)
    } else if lit_at(&v, 0, "clone_task1:") {
        parse_clone_x(&v, 12)
    } else if lit_at(&v, 0, "complete_todo1:") {
        parse_complete_x(&v, 15)
    } else if lit_at(&v, 0, "todo_later1:") {
        match parse_one_id_x(&v, 12) {
            Some(id) => Some(LogRecord::TodoLater { todo_id: TodoId(id) }),
            None => None,
        }
    } else if lit_at(&v, 0, "pause_task1:") {
        match parse_one_id_x(&v, 12) {
            Some(id) => Some(LogRecord::PauseTask { task_id: TaskId(id) }),
            None => None,
        }
    } else if lit_at(&v, 0, "unpause_task1:") {
        match parse_one_id_x(&v, 14) {
            Some(id) => Some(LogRecord::UnpauseTask { task_id: TaskId(id) }),
            None => None,
        }
    } else {
        None
    }
}

/// What the decimal writing of a nonnegative number looks like.
pub proof fn lemma_dec_text(v: int)
    requires
        0 <= v,
    ensures
        dec_text(v).len() >= 1,
        forall|i: int| 0 <= i < dec_text(v).len() ==> is_digit(#[trigger] dec_text(v)[i]),
        digits_val(dec_text(v)) == v,
        v > 0 ==> dec_text(v)[0] != '0',
    decreases v,
{
    if v < 10 {
        reveal_with_fuel(digits_val, 3);
        assert(dec_text(v) =~= seq![digit_char(v)]);
        assert(dec_text(v).drop_last() =~= Seq::<char>::empty());
    } else {
        vstd::arithmetic::div_mod::lemma_fundamental_div_mod(v, 10);
        vstd::arithmetic::div_mod::lemma_mod_bound(v, 10);
        vstd::arithmetic::div_mod::lemma_div_is_ordered(10, v, 10);
        lemma_dec_text(v / 10);
        let s = dec_text(v);
        assert(s == dec_text(v / 10).push(digit_char(v % 10)));
        assert(s.drop_last() =~= dec_text(v / 10));
        assert(s[0] == dec_text(v / 10)[0]);
        assert forall|i: int| 0 <= i < s.len() implies is_digit(#[trigger] s[i]) by {
            if i < s.len() - 1 {
                assert(s[i] == dec_text(v / 10)[i]);
            }
        }
    }
}

/// A digit run embedded before a non-digit ends exactly at the non-digit.
proof fn lemma_digits_end_embed(s: Seq<char>, i: int, j: int)
    requires
        0 <= i <= j <= s.len(),
        forall|k: int| i <= k < j ==> is_digit(#[trigger] s[k]),
        j == s.len() || !is_digit(s[j]),
    ensures
        digits_end(s, i) == j,
    decreases j - i,
{
    if i < j {
        lemma_digits_end_embed(s, i + 1, j);
    }
}

/// A written number embedded before a non-digit reads back as itself.
proof fn lemma_sp_u64_at(s: Seq<char>, i: int, v: int)
    requires
        0 <= v <= u64::MAX,
        0 <= i,
        i + dec_text(v).len() <= s.len(),
        s.subrange(i, i + dec_text(v).len()) =~= dec_text(v),
        i + dec_text(v).len() == s.len() || !is_digit(s[i + dec_text(v).len()]),
    ensures
        sp_u64(s, i) == Some((v, i + dec_text(v).len())),
{
    lemma_dec_text(v);
    let w = dec_text(v).len() as int;
    let j = i + w;
    assert forall|k: int| i <= k < j implies is_digit(#[trigger] s[k]) by {
        assert(s[k] == s.subrange(i, j)[k - i]);
    }
    lemma_digits_end_embed(s, i, j);
    assert(s[i] == dec_text(v)[0]);
    if v == 0 {
        assert(dec_text(v).len() == 1);
    }
    assert(s.subrange(i, j) == dec_text(v));
}

/// A single space embedded before a non-space is skipped exactly.
proof fn lemma_skip_one_space(s: Seq<char>, i: int)
    requires
        0 <= i < s.len(),
        s[i] == ' ',
        i + 1 == s.len() || s[i + 1] != ' ',
    ensures
        skip_sp(s, i) == i + 1,
{
    assert(skip_sp(s, i + 1) == i + 1);
}

/// Escaped text embedded before a closing quote unescapes to the original.
#[verifier::rlimit(50)]
#[verifier::spinoff_prover]
proof fn lemma_unescape_escape(t: Seq<char>, s: Seq<char>, i: int)
    requires
        valid_title(t),
        0 <= i,
        i + json_escape(t).len() < s.len(),
        s.subrange(i, i + json_escape(t).len()) =~= json_escape(t),
        s[i + json_escape(t).len()] == '"',
    ensures
        sp_unescape(s, i) == Some((t, i + json_escape(t).len() + 1)),
    decreases t.len(),
{
    if t.len() == 0 {
        assert(json_escape(t).len() == 0);
        assert(s[i] == '"');
        assert(Seq::<char>::empty() =~= t);
    } else {
        let c = t[0];
        let e = esc_char(c);
        let rest = json_escape(t.drop_first());
        assert(json_escape(t) == e + rest);
        let w = e.len() as int;
        assert forall|k: int| 0 <= k < w implies s[i + k] == #[trigger] e[k] by {
            assert(s[i + k] == s.subrange(i, i + json_escape(t).len() as int)[k]);
            assert((e + rest)[k] == e[k]);
        }
        assert(s.subrange(i + w, i + w + rest.len()) =~= rest) by {
            assert forall|k: int| 0 <= k < rest.len() implies s.subrange(
                i + w,
                i + w + rest.len(),
            )[k] == #[trigger] rest[k] by {
                assert(s.subrange(i + w, i + w + rest.len())[k] == s[i + w + k]);
                assert(s[i + w + k] == s.subrange(i, i + json_escape(t).len() as int)[w + k]);
                assert((e + rest)[w + k] == rest[k]);
            }
        }
        assert(valid_title(t.drop_first())) by {
            assert forall|k: int|
                0 <= k < t.drop_first().len() implies valid_char(
                #[trigger] t.drop_first()[k],
            ) by {
                assert(t.drop_first()[k] == t[k + 1]);
            }
        }
        lemma_unescape_escape(t.drop_first(), s, i + w);
        assert(seq![c] + t.drop_first() =~= t);
        if c == '"' || c == '\\' {
            assert(s[i] == '\\');
        } else if c == '\u{8}' || c == '\u{9}' || c == '\u{a}' || c == '\u{c}' || c
            == '\u{d}' {
            assert(s[i] == '\\');
        } else if (c as int) < 0x20 {
            assert(s[i] == '\\');
            assert(s[i + 1] == 'u');
            assert(s[i + 2] == '0');
            assert(s[i + 3] == '0');
            assert(s[i + 4] == hex_char(c as int / 16));
            assert(s[i + 5] == hex_char(c as int % 16));
            vstd::arithmetic::div_mod::lemma_fundamental_div_mod(c as int, 16);
            vstd::arithmetic::div_mod::lemma_mod_bound(c as int, 16);
            vstd::arithmetic::div_mod::lemma_div_pos_is_pos(c as int, 16);
            assert(hex_val(s[i + 4]) == c as int / 16);
            assert(hex_val(s[i + 5]) == c as int % 16);
            assert(hex_val(s[i + 4]) * 16 + hex_val(s[i + 5]) == c as int);
            assert(code_char(c as int) == c);
        } else {
            assert(s[i] == c);
        }
    }
}

/// A quote-free run embedded before a quote ends the scan at the quote.
proof fn lemma_quote_end_embed(s: Seq<char>, i: int, j: int)
    requires
        0 <= i <= j <= s.len(),
        forall|k: int| i <= k < j ==> (#[trigger] s[k]) != '"' && s[k] != '\\',
        j < s.len(),
        s[j] == '"',
    ensures
        quote_end(s, i) == j,
    decreases j - i,
{
    if i < j {
        lemma_quote_end_embed(s, i + 1, j);
    }
}

/// Nothing in a written date looks like a quote or an escape.
proof fn lemma_date_text_chars(n: int)
    requires
        date_in_range(n),
    ensures
        forall|k: int|
            0 <= k < date_text(n).len() ==> (#[trigger] date_text(n)[k]) != '"' && date_text(
                n,
            )[k] != '\\',
{
    crate::datetext::lemma_date_text_shape(n);
}

/// A space, an opening bracket and a non-space read as the array opening.
proof fn lemma_open_at(s: Seq<char>, i: int)
    requires
        0 <= i,
        i + 2 < s.len(),
        s[i] == ' ',
        s[i + 1] == '[',
        s[i + 2] != ' ',
    ensures
        sp_open(s, i) == Some(i + 2),
{
    lemma_skip_one_space(s, i);
    assert(skip_sp(s, i + 2) == i + 2);
}

/// A comma, a space and a non-space read as an argument separator.
proof fn lemma_comma_at(s: Seq<char>, i: int)
    requires
        0 <= i,
        i + 2 < s.len(),
        s[i] == ',',
        s[i + 1] == ' ',
        s[i + 2] != ' ',
    ensures
        sp_comma(s, i) == Some(i + 2),
{
    assert(skip_sp(s, i) == i);
    lemma_skip_one_space(s, i + 1);
}

/// A closing bracket at the very end reads as a good line ending.
proof fn lemma_close_at(s: Seq<char>, i: int)
    requires
        0 <= i,
        i + 1 == s.len(),
        s[i] == ']',
    ensures
        sp_close(s, i),
{
    assert(skip_sp(s, i) == i);
    assert(skip_sp(s, i + 1) == i + 1);
}

/// A written duration embedded in a line reads back as itself.
#[verifier::rlimit(50)]
#[verifier::spinoff_prover]
proof fn lemma_duration_at(s: Seq<char>, i: int, d: Option<int>)
    requires
        0 <= i,
        i + duration_text(d).len() <= s.len(),
        s.subrange(i, i + duration_text(d).len()) =~= duration_text(d),
        match d {
            Some(n) => fixed_span_in_range(n),
            None => true,
        },
    ensures
        sp_duration(s, i) == Some((d, i + duration_text(d).len())),
{
    match d {
        None => {
            assert(s.subrange(i, i + 4) =~= seq!['n', 'u', 'l', 'l']);
        },
        Some(n) => {
            vstd::arithmetic::div_mod::lemma_fundamental_div_mod(n, 1_000_000_000);
            vstd::arithmetic::div_mod::lemma_mod_bound(n, 1_000_000_000);
            vstd::arithmetic::div_mod::lemma_div_pos_is_pos(n, 1_000_000_000);
            vstd::arithmetic::div_mod::lemma_div_is_ordered(n, FIXED_SPAN_MAX as int, 1_000_000_000);
            let secs = n / 1_000_000_000;
            let nanos = n % 1_000_000_000;
            lemma_dec_text(secs);
            lemma_dec_text(nanos);
            let a = dec_text(secs);
            let b = dec_text(nanos);
            let t = duration_text(d);
            let w = t.len() as int;
            assert(t == seq!['{', '"', 's', 'e', 'c', 's', '"', ':'] + a + seq![
                ',', '"', 'n', 'a', 'n', 'o', 's', '"', ':',
            ] + b + seq!['}']);
            assert(t.len() == 18 + a.len() + b.len());
            assert forall|k: int| 0 <= k < w implies s[i + k] == #[trigger] t[k] by {
                assert(s[i + k] == s.subrange(i, i + w)[k]);
            }
            // the null branch does not fire
            assert(t[0] == '{');
            assert(s[i + 0] == t[0]);
            assert(s[i] == '{');
            assert(!(s.subrange(i, i + 4) =~= seq!['n', 'u', 'l', 'l'])) by {
                assert(s.subrange(i, i + 4)[0] == '{');
            }
            assert(s.subrange(i, i + 8) =~= seq!['{', '"', 's', 'e', 'c', 's', '"', ':'])
                by {
                assert forall|k: int| 0 <= k < 8 implies s.subrange(i, i + 8)[k] == #[trigger]
                    t[k] by {
                    assert(s.subrange(i, i + 8)[k] == s[i + k]);
                }
            }
            assert(s.subrange(i + 8, i + 8 + a.len()) =~= a) by {
                assert forall|k: int| 0 <= k < a.len() implies s.subrange(
                    i + 8,
                    i + 8 + a.len(),
                )[k] == #[trigger] a[k] by {
                    assert(s.subrange(i + 8, i + 8 + a.len())[k] == s[i + 8 + k]);
                    assert(t[8 + k] == a[k]);
                }
            }
            assert(t[8 + a.len() as int] == ',');
            assert(s[i + 8 + a.len() as int] == t[8 + a.len() as int]);
            lemma_sp_u64_at(s, i + 8, secs);
            let j = i + 8 + a.len() as int;
            assert(s.subrange(j, j + 9) =~= seq![',', '"', 'n', 'a', 'n', 'o', 's', '"', ':'])
                by {
                assert forall|k: int|
                    0 <= k < 9 implies s.subrange(j, j + 9)[k] == seq![
                    ',', '"', 'n', 'a', 'n', 'o', 's', '"', ':',
                ][k] by {
                    assert(s.subrange(j, j + 9)[k] == s[j + k]);
                    assert(s[j + k] == #[trigger] t[8 + a.len() as int + k]);
                    assert(t[8 + a.len() as int + k] == seq![
                        ',', '"', 'n', 'a', 'n', 'o', 's', '"', ':',
                    ][k]);
                }
            }
            assert(s.subrange(j + 9, j + 9 + b.len()) =~= b) by {
                assert forall|k: int| 0 <= k < b.len() implies s.subrange(
                    j + 9,
                    j + 9 + b.len(),
                )[k] == #[trigger] b[k] by {
                    assert(s.subrange(j + 9, j + 9 + b.len())[k] == s[j + 9 + k]);
                    assert(t[17 + a.len() + k] == b[k]);
                }
            }
            assert(t[17 + a.len() as int + b.len() as int] == '}');
            assert(s[j + 9 + b.len() as int] == t[17 + a.len() as int + b.len() as int]);
            lemma_sp_u64_at(s, j + 9, nanos);
        },
    }
}

/// A written date embedded between quotes reads back as itself.
#[verifier::rlimit(100)]
#[verifier::spinoff_prover]
proof fn lemma_date_at(s: Seq<char>, i: int, n: int)
    requires
        0 <= i,
        date_in_range(n),
        i + 2 + date_text(n).len() <= s.len(),
        s[i] == '"',
        s.subrange(i + 1, i + 1 + date_text(n).len()) =~= date_text(n),
        s[i + 1 + date_text(n).len()] == '"',
    ensures
        sp_date(s, i) == Some((n, i + 2 + date_text(n).len())),
{
    let w = date_text(n).len() as int;
    lemma_date_text_chars(n);
    assert forall|k: int| i + 1 <= k < i + 1 + w implies (#[trigger] s[k]) != '"' && s[k]
        != '\\' by {
        assert(s[k] == s.subrange(i + 1, i + 1 + w)[k - (i + 1)]);
        assert(s.subrange(i + 1, i + 1 + w)[k - (i + 1)] == date_text(n)[k - (i + 1)]);
    }
    lemma_quote_end_embed(s, i + 1, i + 1 + w);
    assert(s.subrange(i + 1, i + 1 + w) == date_text(n));
    crate::datetext::lemma_date_roundtrip(n);
}

/// The head of a create line: opening, title, separator, duration.
#[verifier::rlimit(100)]
#[verifier::spinoff_prover]
proof fn lemma_pr_create_head(title: Seq<char>, due_every: Option<int>, task_id: u64, todo_id: u64)
    requires
        valid_title(title),
        due_ok(due_every),
    ensures
        ({
            let s = render_record_text(
                RecordV::CreateTask { title, due_every, task_id, todo_id },
            );
            let e = json_escape(title).len() as int;
            let dd = duration_text(due_every).len() as int;
            &&& s.len() == 24 + e + dd + dec_text(task_id as int).len() + dec_text(
                todo_id as int,
            ).len()
            &&& starts_with(s, create_task_prefix())
            &&& sp_open(s, 13) == Some(15int)
            &&& sp_string(s, 15) == Some((title, 17 + e))
            &&& sp_comma(s, 17 + e) == Some(19 + e)
            &&& sp_duration(s, 19 + e) == Some((due_every, 19 + e + dd))
        }),
{
    let r = RecordV::CreateTask { title, due_every, task_id, todo_id };
    let s = render_record_text(r);
    let esc = json_escape(title);
    let e = esc.len() as int;
    let dur = duration_text(due_every);
    let dd = dur.len() as int;
    lemma_dec_text(task_id as int);
    lemma_dec_text(todo_id as int);
    assert(dur.len() >= 4);
    assert(s.subrange(0, 13) =~= create_task_prefix());
    assert(s[13] == ' ' && s[14] == '[' && s[15] == '"');
    lemma_open_at(s, 13);
    assert(s.subrange(16, 16 + e) =~= esc) by {
        assert forall|k: int| 0 <= k < e implies s.subrange(16, 16 + e)[k] == #[trigger] esc[k]
            by {
            assert(s.subrange(16, 16 + e)[k] == s[16 + k]);
        }
    }
    assert(s[16 + e] == '"');
    lemma_unescape_escape(title, s, 16);
    assert(s[17 + e] == ',' && s[18 + e] == ' ');
    assert(s[19 + e] == dur[0]);
    assert(dur[0] != ' ');
    lemma_comma_at(s, 17 + e);
    assert(s.subrange(19 + e, 19 + e + dd) =~= dur) by {
        assert forall|k: int| 0 <= k < dd implies s.subrange(19 + e, 19 + e + dd)[k]
            == #[trigger] dur[k] by {
            assert(s.subrange(19 + e, 19 + e + dd)[k] == s[19 + e + k]);
        }
    }
    lemma_duration_at(s, 19 + e, due_every);
}

/// The tail of a create line: the two ids and the closing bracket.
#[verifier::rlimit(100)]
#[verifier::spinoff_prover]
proof fn lemma_pr_create_tail(title: Seq<char>, due_every: Option<int>, task_id: u64, todo_id: u64)
    requires
        valid_title(title),
        due_ok(due_every),
    ensures
        ({
            let s = render_record_text(
                RecordV::CreateTask { title, due_every, task_id, todo_id },
            );
            let b = 19 + json_escape(title).len() as int + duration_text(due_every).len() as int;
            let t1 = dec_text(task_id as int).len() as int;
            let t2 = dec_text(todo_id as int).len() as int;
            &&& sp_comma(s, b) == Some(b + 2)
            &&& sp_u64(s, b + 2) == Some((task_id as int, b + 2 + t1))
            &&& sp_comma(s, b + 2 + t1) == Some(b + 4 + t1)
            &&& sp_u64(s, b + 4 + t1) == Some((todo_id as int, b + 4 + t1 + t2))
            &&& sp_close(s, b + 4 + t1 + t2)
        }),
{
    let r = RecordV::CreateTask { title, due_every, task_id, todo_id };
    let s = render_record_text(r);
    let e = json_escape(title).len() as int;
    let dd = duration_text(due_every).len() as int;
    let b = 19 + e + dd;
    lemma_dec_text(task_id as int);
    lemma_dec_text(todo_id as int);
    let a1 = dec_text(task_id as int);
    let a2 = dec_text(todo_id as int);
    let t1 = a1.len() as int;
    let t2 = a2.len() as int;
    assert(s.len() == b + 5 + t1 + t2);
    assert(s[b] == ',' && s[b + 1] == ' ');
    assert(s[b + 2] == a1[0]);
    lemma_comma_at(s, b);
    assert(s.subrange(b + 2, b + 2 + t1) =~= a1) by {
        assert forall|k: int| 0 <= k < t1 implies s.subrange(b + 2, b + 2 + t1)[k]
            == #[trigger] a1[k] by {
            assert(s.subrange(b + 2, b + 2 + t1)[k] == s[b + 2 + k]);
        }
    }
    assert(s[b + 2 + t1] == ',');
    lemma_sp_u64_at(s, b + 2, task_id as int);
    assert(s[b + 3 + t1] == ' ');
    assert(s[b + 4 + t1] == a2[0]);
    lemma_comma_at(s, b + 2 + t1);
    assert(s.subrange(b + 4 + t1, b + 4 + t1 + t2) =~= a2) by {
        assert forall|k: int| 0 <= k < t2 implies s.subrange(b + 4 + t1, b + 4 + t1 + t2)[k]
            == #[trigger] a2[k] by {
            assert(s.subrange(b + 4 + t1, b + 4 + t1 + t2)[k] == s[b + 4 + t1 + k]);
        }
    }
    assert(s[b + 4 + t1 + t2] == ']');
    lemma_sp_u64_at(s, b + 4 + t1, todo_id as int);
    lemma_close_at(s, b + 4 + t1 + t2);
}

/// The head of a clone line: opening, source id, separator, title.
#[verifier::rlimit(100)]
#[verifier::spinoff_prover]
proof fn lemma_pr_clone_head(task_id: u64, title: Seq<char>, new_task_id: u64, todo_id: u64)
    requires
        valid_title(title),
    ensures
        ({
            let s = render_record_text(
                RecordV::CloneTask { task_id, title, new_task_id, todo_id },
            );
            let t1 = dec_text(task_id as int).len() as int;
            let e = json_escape(title).len() as int;
            &&& s.len() == 23 + t1 + e + dec_text(new_task_id as int).len() + dec_text(
                todo_id as int,
            ).len()
            &&& starts_with(s, clone_task_prefix())
            &&& sp_open(s, 12) == Some(14int)
            &&& sp_u64(s, 14) == Some((task_id as int, 14 + t1))
            &&& sp_comma(s, 14 + t1) == Some(16 + t1)
            &&& sp_string(s, 16 + t1) == Some((title, 18 + t1 + e))
        }),
{
    let r = RecordV::CloneTask { task_id, title, new_task_id, todo_id };
    let s = render_record_text(r);
    let esc = json_escape(title);
    let e = esc.len() as int;
    lemma_dec_text(task_id as int);
    lemma_dec_text(new_task_id as int);
    lemma_dec_text(todo_id as int);
    let a = dec_text(task_id as int);
    let t1 = a.len() as int;
    assert(s.subrange(0, 12) =~= clone_task_prefix());
    assert(s[12] == ' ' && s[13] == '[');
    assert(s[14] == a[0]);
    lemma_open_at(s, 12);
    assert(s.subrange(14, 14 + t1) =~= a) by {
        assert forall|k: int| 0 <= k < t1 implies s.subrange(14, 14 + t1)[k] == #[trigger] a[k]
            by {
            assert(s.subrange(14, 14 + t1)[k] == s[14 + k]);
        }
    }
    assert(s[14 + t1] == ',');
    lemma_sp_u64_at(s, 14, task_id as int);
    assert(s[15 + t1] == ' ' && s[16 + t1] == '"');
    lemma_comma_at(s, 14 + t1);
    assert(s.subrange(17 + t1, 17 + t1 + e) =~= esc) by {
        assert forall|k: int| 0 <= k < e implies s.subrange(17 + t1, 17 + t1 + e)[k]
            == #[trigger] esc[k] by {
            assert(s.subrange(17 + t1, 17 + t1 + e)[k] == s[17 + t1 + k]);
        }
    }
    assert(s[17 + t1 + e] == '"');
    lemma_unescape_escape(title, s, 17 + t1);
}

/// The tail of a clone line: the two fresh ids and the closing bracket.
#[verifier::rlimit(100)]
#[verifier::spinoff_prover]
proof fn lemma_pr_clone_tail(task_id: u64, title: Seq<char>, new_task_id: u64, todo_id: u64)
    requires
        valid_title(title),
    ensures
        ({
            let s = render_record_text(
                RecordV::CloneTask { task_id, title, new_task_id, todo_id },
            );
            let b = 18 + dec_text(task_id as int).len() as int + json_escape(title).len() as int;
            let t2 = dec_text(new_task_id as int).len() as int;
            let t3 = dec_text(todo_id as int).len() as int;
            &&& sp_comma(s, b) == Some(b + 2)
            &&& sp_u64(s, b + 2) == Some((new_task_id as int, b + 2 + t2))
            &&& sp_comma(s, b + 2 + t2) == Some(b + 4 + t2)
            &&& sp_u64(s, b + 4 + t2) == Some((todo_id as int, b + 4 + t2 + t3))
            &&& sp_close(s, b + 4 + t2 + t3)
        }),
{
    let r = RecordV::CloneTask { task_id, title, new_task_id, todo_id };
    let s = render_record_text(r);
    let t1 = dec_text(task_id as int).len() as int;
    let e = json_escape(title).len() as int;
    let b = 18 + t1 + e;
    lemma_dec_text(task_id as int);
    lemma_dec_text(new_task_id as int);
    lemma_dec_text(todo_id as int);
    let a2 = dec_text(new_task_id as int);
    let a3 = dec_text(todo_id as int);
    let t2 = a2.len() as int;
    let t3 = a3.len() as int;
    assert(s.len() == b + 5 + t2 + t3);
    assert(s[b] == ',' && s[b + 1] == ' ');
    assert(s[b + 2] == a2[0]);
    lemma_comma_at(s, b);
    assert(s.subrange(b + 2, b + 2 + t2) =~= a2) by {
        assert forall|k: int| 0 <= k < t2 implies s.subrange(b + 2, b + 2 + t2)[k]
            == #[trigger] a2[k] by {
            assert(s.subrange(b + 2, b + 2 + t2)[k] == s[b + 2 + k]);
        }
    }
    assert(s[b + 2 + t2] == ',');
    lemma_sp_u64_at(s, b + 2, new_task_id as int);
    assert(s[b + 3 + t2] == ' ');
    assert(s[b + 4 + t2] == a3[0]);
    lemma_comma_at(s, b + 2 + t2);
    assert(s.subrange(b + 4 + t2, b + 4 + t2 + t3) =~= a3) by {
        assert forall|k: int| 0 <= k < t3 implies s.subrange(b + 4 + t2, b + 4 + t2 + t3)[k]
            == #[trigger] a3[k] by {
            assert(s.subrange(b + 4 + t2, b + 4 + t2 + t3)[k] == s[b + 4 + t2 + k]);
        }
    }
    assert(s[b + 4 + t2 + t3] == ']');
    lemma_sp_u64_at(s, b + 4 + t2, todo_id as int);
    lemma_close_at(s, b + 4 + t2 + t3);
}

/// A completion line reads back as its record (body only).
#[verifier::rlimit(100)]
#[verifier::spinoff_prover]
proof fn lemma_pr_complete_body(todo_id: u64, completed: int)
    requires
        date_in_range(completed),
    ensures
        ({
            let s = render_record_text(RecordV::CompleteTodo { todo_id, completed });
            parse_complete_args(s, 15) == Some(RecordV::CompleteTodo { todo_id, completed })
                && starts_with(s, complete_todo_prefix())
        }),
{
    let r = RecordV::CompleteTodo { todo_id, completed };
    let s = render_record_text(r);
    lemma_dec_text(todo_id as int);
    let a = dec_text(todo_id as int);
    let t1 = a.len() as int;
    let dt = date_text(completed);
    let w = dt.len() as int;
    assert(s.len() == 22 + t1 + w);
    assert(s.subrange(0, 15) =~= complete_todo_prefix());
    assert(s[15] == ' ' && s[16] == '[');
    assert(s[17] == a[0]);
    lemma_open_at(s, 15);
    assert(s.subrange(17, 17 + t1) =~= a) by {
        assert forall|k: int| 0 <= k < t1 implies s.subrange(17, 17 + t1)[k] == #[trigger] a[k]
            by {
            assert(s.subrange(17, 17 + t1)[k] == s[17 + k]);
        }
    }
    assert(s[17 + t1] == ',');
    lemma_sp_u64_at(s, 17, todo_id as int);
    assert(s[18 + t1] == ' ' && s[19 + t1] == '"');
    lemma_comma_at(s, 17 + t1);
    assert(s.subrange(20 + t1, 20 + t1 + w) =~= dt) by {
        assert forall|k: int| 0 <= k < w implies s.subrange(20 + t1, 20 + t1 + w)[k]
            == #[trigger] dt[k] by {
            assert(s.subrange(20 + t1, 20 + t1 + w)[k] == s[20 + t1 + k]);
        }
    }
    assert(s[20 + t1 + w] == '"');
    lemma_date_at(s, 19 + t1, completed);
    assert(s[21 + t1 + w] == ']');
    lemma_close_at(s, 21 + t1 + w);
}

/// No line of one kind wears another kind's operation name.
#[verifier::rlimit(100)]
#[verifier::spinoff_prover]
proof fn lemma_prefixes_apart(r: RecordV)
    ensures
        ({
            let s = render_record_text(r);
            &&& r is CreateTask <==> starts_with(s, create_task_prefix())
            &&& r is CloneTask <==> starts_with(s, clone_task_prefix())
            &&& r is CompleteTodo <==> starts_with(s, complete_todo_prefix())
            &&& r is TodoLater <==> starts_with(s, todo_later_prefix())
            &&& r is PauseTask <==> starts_with(s, pause_task_prefix())
            &&& r is UnpauseTask <==> starts_with(s, unpause_task_prefix())
        }),
{
    let s = render_record_text(r);
    match r {
        RecordV::CreateTask { .. } => {
            assert(s.subrange(0, 13) =~= create_task_prefix());
            assert(s[1] == 'r');
        },
        RecordV::CloneTask { .. } => {
            assert(s.subrange(0, 12) =~= clone_task_prefix());
            assert(s[1] == 'l');
        },
        RecordV::CompleteTodo { .. } => {
            assert(s.subrange(0, 15) =~= complete_todo_prefix());
            assert(s[1] == 'o' && s[2] == 'm');
        },
        RecordV::TodoLater { .. } => {
            assert(s.subrange(0, 12) =~= todo_later_prefix());
            assert(s[0] == 't' && s[1] == 'o');
        },
        RecordV::PauseTask { .. } => {
            assert(s.subrange(0, 12) =~= pause_task_prefix());
            assert(s[0] == 'p');
        },
        RecordV::UnpauseTask { .. } => {
            assert(s.subrange(0, 14) =~= unpause_task_prefix());
            assert(s[0] == 'u' && s[1] == 'n');
        },
    }
    if starts_with(s, create_task_prefix()) {
        assert(s[1] == create_task_prefix()[1]);
        assert(s.subrange(0, 13)[1] == s[1]);
    }
    if starts_with(s, clone_task_prefix()) {
        assert(s.subrange(0, 12)[1] == s[1]);
    }
    if starts_with(s, complete_todo_prefix()) {
        assert(s.subrange(0, 15)[1] == s[1]);
        assert(s.subrange(0, 15)[2] == s[2]);
    }
    if starts_with(s, todo_later_prefix()) {
        assert(s.subrange(0, 12)[0] == s[0]);
        assert(s.subrange(0, 12)[1] == s[1]);
    }
    if starts_with(s, pause_task_prefix()) {
        assert(s.subrange(0, 12)[0] == s[0]);
    }
    if starts_with(s, unpause_task_prefix()) {
        assert(s.subrange(0, 14)[0] == s[0]);
        assert(s.subrange(0, 14)[1] == s[1]);
    }
}

/// Law: writing any well-formed record as its log line and reading the
/// line back yields exactly the record - the textual half of replay
/// determinism.
#[verifier::rlimit(100)]
#[verifier::spinoff_prover]
pub proof fn lemma_parse_render(r: RecordV)
    requires
        record_wf(r),
    ensures
        spec_parse_line(render_record_text(r)) == Some(r),
{
    reveal(spec_parse_line);
    let s = render_record_text(r);
    lemma_prefixes_apart(r);
    match r {
        RecordV::CreateTask { title, due_every, task_id, todo_id } => {
            lemma_pr_create_head(title, due_every, task_id, todo_id);
            lemma_pr_create_tail(title, due_every, task_id, todo_id);
            assert(parse_create_args(s, 13) == Some(r));
        },
        RecordV::CloneTask { task_id, title, new_task_id, todo_id } => {
            lemma_pr_clone_head(task_id, title, new_task_id, todo_id);
            lemma_pr_clone_tail(task_id, title, new_task_id, todo_id);
            assert(parse_clone_args(s, 12) == Some(r));
        },
        RecordV::CompleteTodo { todo_id, completed } => {
            lemma_pr_complete_body(todo_id, completed);
        },
        RecordV::TodoLater { todo_id } => {
            lemma_one_id_case(s, todo_later_prefix(), 12, todo_id);
        },
        RecordV::PauseTask { task_id } => {
            lemma_one_id_case(s, pause_task_prefix(), 12, task_id);
        },
        RecordV::UnpauseTask { task_id } => {
            lemma_one_id_case(s, unpause_task_prefix(), 14, task_id);
        },
    }
}

/// The single-id argument lists all read the same way.
#[verifier::rlimit(50)]
#[verifier::spinoff_prover]
proof fn lemma_one_id_case(s: Seq<char>, prefix: Seq<char>, p: int, id: u64)
    requires
        0 <= p == prefix.len(),
        s =~= prefix + seq![' ', '['] + dec_text(id as int) + seq![']'],
    ensures
        parse_one_id(s, p) == Some(id as int),
{
    lemma_dec_text(id as int);
    let a = dec_text(id as int);
    let t1 = a.len() as int;
    assert(s.len() == p + 3 + t1);
    assert(s[p] == ' ' && s[p + 1] == '[');
    assert(s[p + 2] == a[0]);
    lemma_open_at(s, p);
    assert(s.subrange(p + 2, p + 2 + t1) =~= a) by {
        assert forall|k: int| 0 <= k < t1 implies s.subrange(p + 2, p + 2 + t1)[k]
            == #[trigger] a[k] by {
            assert(s.subrange(p + 2, p + 2 + t1)[k] == s[p + 2 + k]);
        }
    }
    assert(s[p + 2 + t1] == ']');
    lemma_sp_u64_at(s, p + 2, id as int);
    lemma_close_at(s, p + 2 + t1);
}

} // verus!
