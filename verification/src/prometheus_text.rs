//! Minimal Prometheus text-exposition parsing for engine metrics scraping.
//!
//! Deliberately not a full parser: exactly one gauge per worker is needed (the
//! engine's reported prefix cache hit rate), and line matching is enough.

use vstd::prelude::*;

use crate::numbers::{
    is_number, is_timestamp, law_numbers_start_as_numbers, law_timestamps_are_numbers, number_text,
    timestamp_text,
};
use crate::text::{chars_of, is_white_space, string_of, texts, white_space};

verus! {

/// A text without white space at its start.
pub open spec fn trimmed_start(s: Seq<char>) -> Seq<char>
    decreases s.len(),
{
    if s.len() > 0 && is_white_space(s[0]) {
        trimmed_start(s.drop_first())
    } else {
        s
    }
}

/// A text without white space at its end.
pub open spec fn trimmed_end(s: Seq<char>) -> Seq<char>
    decreases s.len(),
{
    if s.len() > 0 && is_white_space(s.last()) {
        trimmed_end(s.drop_last())
    } else {
        s
    }
}

/// A text without white space at either end.
pub open spec fn trimmed(s: Seq<char>) -> Seq<char> {
    trimmed_end(trimmed_start(s))
}

/// Whether a character ends a metric name.
pub open spec fn ends_name(c: char) -> bool {
    c == '{' || c == ' ' || c == '\t'
}

/// Whether a character stands between a series and its value.
pub open spec fn is_blank(c: char) -> bool {
    c == ' ' || c == '\t'
}

/// Where the metric name of a line ends.
pub open spec fn name_end(line: Seq<char>) -> int
    decreases line.len(),
{
    if line.len() == 0 || ends_name(line[0]) {
        0
    } else {
        1 + name_end(line.drop_first())
    }
}

/// A text without blanks at its start.
pub open spec fn after_blanks(s: Seq<char>) -> Seq<char>
    decreases s.len(),
{
    if s.len() > 0 && is_blank(s[0]) {
        after_blanks(s.drop_first())
    } else {
        s
    }
}

/// A text up to its first blank.
pub open spec fn first_word(s: Seq<char>) -> Seq<char>
    decreases s.len(),
{
    if s.len() == 0 || is_blank(s[0]) {
        seq![]
    } else {
        seq![s[0]] + first_word(s.drop_first())
    }
}

/// A text without its first word.
pub open spec fn after_word(s: Seq<char>) -> Seq<char>
    decreases s.len(),
{
    if s.len() == 0 || is_blank(s[0]) {
        s
    } else {
        after_word(s.drop_first())
    }
}

/// The text after the last blank; none where there is no blank.
pub open spec fn after_last_blank(s: Seq<char>) -> Option<Seq<char>>
    decreases s.len(),
{
    if s.len() == 0 {
        None
    } else if is_blank(s.last()) {
        Some(seq![])
    } else {
        match after_last_blank(s.drop_last()) {
            Some(tail) => Some(tail.push(s.last())),
            None => None,
        }
    }
}

/// What follows the brace that closes a label block, `s` being the text after
/// the opening one, or after any other character of the block. Between quotes
/// (`quoted`) braces do not count, and a backslash takes away the meaning of
/// the character after it. None where the block is not closed.
pub open spec fn after_labels(s: Seq<char>, quoted: bool) -> Option<Seq<char>>
    decreases s.len(),
{
    if s.len() == 0 {
        None
    } else if quoted && s[0] == '\\' {
        if s.len() < 2 {
            None
        } else {
            after_labels(s.skip(2), true)
        }
    } else if s[0] == '"' {
        after_labels(s.drop_first(), !quoted)
    } else if s[0] == '}' && !quoted {
        Some(s.drop_first())
    } else {
        after_labels(s.drop_first(), quoted)
    }
}

/// The part of a line after the series: after the name, and after the label
/// block where there is one.
pub open spec fn after_series(line: Seq<char>) -> Option<Seq<char>> {
    let rest = line.skip(name_end(line));
    let block = after_blanks(rest);
    if block.len() > 0 && block[0] == '{' {
        after_labels(block.drop_first(), false)
    } else {
        Some(rest)
    }
}

/// Whether a line (trimmed) is a sample of the metric `name`.
pub open spec fn is_sample_of(line: Seq<char>, name: Seq<char>) -> bool {
    line.len() > 0 && line[0] != '#' && line.take(name_end(line)) == name
}

/// The value text of a sample that ends in a timestamp: a number between the
/// series and the timestamp, with blanks around it.
pub open spec fn stamped_value(line: Seq<char>) -> Option<Seq<char>> {
    match after_series(line) {
        Some(rest) => {
            let value = first_word(after_blanks(rest));
            let behind = after_blanks(after_word(after_blanks(rest)));
            if rest.len() > 0 && is_blank(rest[0]) && is_number(value) && is_timestamp(behind) {
                Some(value)
            } else {
                None
            }
        },
        None => None,
    }
}

/// The value text of a sample: the text after the last blank, if that is a
/// number. A timestamp is not taken for the value.
pub open spec fn sample_value(line: Seq<char>) -> Option<Seq<char>> {
    match stamped_value(line) {
        Some(value) => Some(value),
        None => match after_last_blank(line.skip(name_end(line))) {
            Some(text) => if is_number(text) {
                Some(text)
            } else {
                None
            },
            None => None,
        },
    }
}

/// The value that a line (trimmed) gives for the metric `name`, if any.
pub open spec fn line_value(line: Seq<char>, name: Seq<char>) -> Option<Seq<char>> {
    if is_sample_of(line, name) {
        sample_value(line)
    } else {
        None
    }
}

/// The value texts of a metric, from trimmed lines, in order: each is a number.
/// Lines that give no value are passed over.
pub open spec fn values_in(lines: Seq<Seq<char>>, name: Seq<char>) -> Seq<Seq<char>>
    decreases lines.len(),
{
    if lines.len() == 0 {
        seq![]
    } else {
        let before = values_in(lines.drop_last(), name);
        match line_value(lines.last(), name) {
            Some(value) => before.push(value),
            None => before,
        }
    }
}

/// The lines of `rest`, trimmed, when `current` is the part of a line read so
/// far.
pub open spec fn lines_after(current: Seq<char>, rest: Seq<char>) -> Seq<Seq<char>>
    decreases rest.len(),
{
    if rest.len() == 0 {
        seq![trimmed(current)]
    } else if rest[0] == '\n' {
        seq![trimmed(current)] + lines_after(seq![], rest.drop_first())
    } else {
        lines_after(current.push(rest[0]), rest.drop_first())
    }
}

/// The value texts of a metric's series, in order.
pub open spec fn metric_values(text: Seq<char>, name: Seq<char>) -> Seq<Seq<char>> {
    values_in(lines_after(seq![], text), name)
}

/// Trim the characters between two positions.
fn trim(chars: &Vec<char>, from: usize, to: usize) -> (r: (usize, usize))
    requires
        from <= to <= chars@.len(),
    ensures
        from <= r.0 <= r.1 <= to,
        chars@.subrange(r.0 as int, r.1 as int) == trimmed(
            chars@.subrange(from as int, to as int),
        ),
{
    let mut start: usize = from;
    while start < to && white_space(chars[start])
        invariant
            from <= start <= to <= chars@.len(),
            trimmed_start(chars@.subrange(from as int, to as int)) == trimmed_start(
                chars@.subrange(start as int, to as int),
            ),
        decreases to - start,
    {
        assert(chars@.subrange(start as int, to as int).drop_first() =~= chars@.subrange(
            start + 1,
            to as int,
        ));
        start += 1;
    }
    let ghost middle = chars@.subrange(start as int, to as int);
    assert(trimmed_start(middle) == middle);
    let mut end: usize = to;
    while end > start && white_space(chars[end - 1])
        invariant
            start <= end <= to <= chars@.len(),
            trimmed_end(middle) == trimmed_end(chars@.subrange(start as int, end as int)),
        decreases end - start,
    {
        assert(chars@.subrange(start as int, end as int).drop_last() =~= chars@.subrange(
            start as int,
            end - 1,
        ));
        end -= 1;
    }
    (start, end)
}

fn find_name_end(chars: &Vec<char>, from: usize, to: usize) -> (at: usize)
    requires
        from <= to <= chars@.len(),
    ensures
        from <= at <= to,
        at - from == name_end(chars@.subrange(from as int, to as int)),
{
    let mut at: usize = from;
    while at < to && chars[at] != '{' && chars[at] != ' ' && chars[at] != '\t'
        invariant
            from <= at <= to <= chars@.len(),
            name_end(chars@.subrange(from as int, to as int)) == at - from + name_end(
                chars@.subrange(at as int, to as int),
            ),
        decreases to - at,
    {
        assert(chars@.subrange(at as int, to as int).drop_first() =~= chars@.subrange(
            at + 1,
            to as int,
        ));
        at += 1;
    }
    at
}

fn skip_blanks(chars: &Vec<char>, from: usize) -> (at: usize)
    requires
        from <= chars@.len(),
    ensures
        from <= at <= chars@.len(),
        chars@.skip(at as int) == after_blanks(chars@.skip(from as int)),
{
    let mut at: usize = from;
    while at < chars.len() && (chars[at] == ' ' || chars[at] == '\t')
        invariant
            from <= at <= chars@.len(),
            after_blanks(chars@.skip(from as int)) == after_blanks(chars@.skip(at as int)),
        decreases chars@.len() - at,
    {
        assert(chars@.skip(at as int).drop_first() =~= chars@.skip(at + 1));
        at += 1;
    }
    at
}

fn find_word_end(chars: &Vec<char>, from: usize) -> (at: usize)
    requires
        from <= chars@.len(),
    ensures
        from <= at <= chars@.len(),
        chars@.subrange(from as int, at as int) == first_word(chars@.skip(from as int)),
        chars@.skip(at as int) == after_word(chars@.skip(from as int)),
{
    let mut at: usize = from;
    assert(chars@.subrange(from as int, at as int) + first_word(chars@.skip(at as int))
        =~= first_word(chars@.skip(from as int)));
    while at < chars.len() && chars[at] != ' ' && chars[at] != '\t'
        invariant
            from <= at <= chars@.len(),
            chars@.subrange(from as int, at as int) + first_word(chars@.skip(at as int))
                == first_word(chars@.skip(from as int)),
            after_word(chars@.skip(at as int)) == after_word(chars@.skip(from as int)),
        decreases chars@.len() - at,
    {
        proof {
            let rest = chars@.skip(at as int);
            assert(rest.drop_first() =~= chars@.skip(at + 1));
            assert(chars@.subrange(from as int, at + 1) =~= chars@.subrange(
                from as int,
                at as int,
            ).push(chars@[at as int]));
            assert(chars@.subrange(from as int, at + 1) + first_word(rest.drop_first())
                =~= chars@.subrange(from as int, at as int) + (seq![rest[0]] + first_word(
                rest.drop_first(),
            )));
        }
        at += 1;
    }
    assert(first_word(chars@.skip(at as int)) =~= seq![]);
    assert(chars@.subrange(from as int, at as int) + seq![] =~= chars@.subrange(
        from as int,
        at as int,
    ));
    at
}

/// The position after the brace that closes the label block, from a position
/// inside it.
fn find_labels_end(chars: &Vec<char>, from: usize) -> (end: Option<usize>)
    requires
        from <= chars@.len(),
    ensures
        match end {
            Some(end) => from <= end <= chars@.len() && after_labels(
                chars@.skip(from as int),
                false,
            ) == Some(chars@.skip(end as int)),
            None => after_labels(chars@.skip(from as int), false) is None,
        },
{
    let mut at: usize = from;
    let mut quoted = false;
    while at < chars.len()
        invariant
            from <= at <= chars@.len(),
            after_labels(chars@.skip(from as int), false) == after_labels(
                chars@.skip(at as int),
                quoted,
            ),
        decreases chars@.len() - at,
    {
        let ghost rest = chars@.skip(at as int);
        assert(rest.drop_first() =~= chars@.skip(at + 1));
        let c = chars[at];
        if quoted && c == '\\' {
            if chars.len() - at < 2 {
                return None;
            }
            assert(rest.skip(2) =~= chars@.skip(at + 2));
            at += 2;
        } else if c == '"' {
            quoted = !quoted;
            at += 1;
        } else if c == '}' && !quoted {
            return Some(at + 1);
        } else {
            at += 1;
        }
    }
    None
}

/// The position after the series of a line, the name ending at `name_to`.
fn find_series_end(chars: &Vec<char>, name_to: usize) -> (r: Option<usize>)
    requires
        name_to == name_end(chars@),
        name_to <= chars@.len(),
    ensures
        match r {
            Some(at) => at <= chars@.len() && after_series(chars@) == Some(chars@.skip(at as int)),
            None => after_series(chars@) is None,
        },
{
    let at = skip_blanks(chars, name_to);
    if at < chars.len() && chars[at] == '{' {
        assert(chars@.skip(at as int).drop_first() =~= chars@.skip(at + 1));
        find_labels_end(chars, at + 1)
    } else {
        Some(name_to)
    }
}

/// The value of a sample that ends in a timestamp, the name ending at `name_to`.
fn read_stamped_value(chars: &Vec<char>, name_to: usize) -> (r: Option<String>)
    requires
        name_to == name_end(chars@),
        name_to <= chars@.len(),
    ensures
        match r {
            Some(value) => stamped_value(chars@) == Some(value@),
            None => stamped_value(chars@) is None,
        },
{
    match find_series_end(chars, name_to) {
        None => None,
        Some(series_to) => {
            let from = skip_blanks(chars, series_to);
            let to = find_word_end(chars, from);
            let behind = skip_blanks(chars, to);
            let value = string_of(chars, from, to);
            let stamp = string_of(chars, behind, chars.len());
            assert(stamp@ =~= chars@.skip(behind as int));
            if from > series_to && number_text(value.as_str()) && timestamp_text(stamp.as_str()) {
                Some(value)
            } else {
                None
            }
        },
    }
}

fn find_last_word(chars: &Vec<char>, from: usize) -> (at: Option<usize>)
    requires
        from <= chars@.len(),
    ensures
        match at {
            Some(at) => from <= at <= chars@.len() && after_last_blank(chars@.skip(from as int))
                == Some(chars@.skip(at as int)),
            None => after_last_blank(chars@.skip(from as int)) is None,
        },
{
    let mut at: usize = chars.len();
    while at > from
        invariant
            from <= at <= chars@.len(),
            forall|k: int| at <= k < chars@.len() ==> !is_blank(#[trigger] chars@[k]),
        decreases at - from,
    {
        if chars[at - 1] == ' ' || chars[at - 1] == '\t' {
            proof {
                lemma_after_last_blank(chars@.skip(from as int), at - from);
                assert(chars@.skip(from as int).skip(at - from) =~= chars@.skip(at as int));
            }
            return Some(at);
        }
        at -= 1;
    }
    proof {
        lemma_no_blank(chars@.skip(from as int));
    }
    None
}

proof fn lemma_after_last_blank(s: Seq<char>, at: int)
    requires
        0 < at <= s.len(),
        is_blank(s[at - 1]),
        forall|k: int| at <= k < s.len() ==> !is_blank(#[trigger] s[k]),
    ensures
        after_last_blank(s) == Some(s.skip(at)),
    decreases s.len(),
{
    if at == s.len() {
        assert(s.skip(at) =~= seq![]);
    } else {
        assert(!is_blank(s[s.len() - 1]));
        lemma_after_last_blank(s.drop_last(), at);
        assert(s.drop_last().skip(at).push(s.last()) =~= s.skip(at));
    }
}

proof fn lemma_no_blank(s: Seq<char>)
    requires
        forall|k: int| 0 <= k < s.len() ==> !is_blank(#[trigger] s[k]),
    ensures
        after_last_blank(s) is None,
    decreases s.len(),
{
    if s.len() > 0 {
        assert(!is_blank(s[s.len() - 1]));
        lemma_no_blank(s.drop_last());
    }
}

/// The value of a sample, the name ending at `name_to`.
fn read_value(chars: &Vec<char>, name_to: usize) -> (r: Option<String>)
    requires
        name_to == name_end(chars@),
        name_to <= chars@.len(),
    ensures
        match r {
            Some(value) => sample_value(chars@) == Some(value@),
            None => sample_value(chars@) is None,
        },
{
    match read_stamped_value(chars, name_to) {
        Some(value) => Some(value),
        None => match find_last_word(chars, name_to) {
            None => None,
            Some(at) => {
                let text = string_of(chars, at, chars.len());
                assert(text@ =~= chars@.skip(at as int));
                if number_text(text.as_str()) {
                    Some(text)
                } else {
                    None
                }
            },
        },
    }
}

fn same_text(chars: &Vec<char>, from: usize, to: usize, name: &Vec<char>) -> (r: bool)
    requires
        from <= to <= chars@.len(),
    ensures
        r == (chars@.subrange(from as int, to as int) == name@),
{
    if to - from != name.len() {
        return false;
    }
    let mut i: usize = 0;
    while i < name.len()
        invariant
            from <= to <= chars@.len(),
            to - from == name@.len(),
            i <= name@.len(),
            forall|k: int| 0 <= k < i ==> chars@[from + k] == #[trigger] name@[k],
        decreases name@.len() - i,
    {
        if chars[from + i] != name[i] {
            assert(chars@.subrange(from as int, to as int)[i as int] != name@[i as int]);
            return false;
        }
        i += 1;
    }
    assert(chars@.subrange(from as int, to as int) =~= name@);
    true
}

/// The value that a line gives for a metric.
fn value_on_line(line: &String, name: &Vec<char>) -> (r: Option<String>)
    ensures
        match r {
            Some(value) => line_value(line@, name@) == Some(value@),
            None => line_value(line@, name@) is None,
        },
{
    let chars = chars_of(line.as_str());
    if chars.is_empty() || chars[0] == '#' {
        return None;
    }
    assert(chars@.subrange(0, chars@.len() as int) =~= line@);
    let name_to = find_name_end(&chars, 0, chars.len());
    assert(line@.take(name_end(line@)) =~= chars@.subrange(0, name_to as int));
    if !same_text(&chars, 0, name_to, name) {
        return None;
    }
    read_value(&chars, name_to)
}

/// The value texts of a metric's series, in order, from lines that are already
/// trimmed. None where the metric is absent.
pub fn find_in_lines(lines: &Vec<String>, name: &str) -> (r: Option<Vec<String>>)
    ensures
        match r {
            Some(values) => values@.len() > 0 && texts(values@) == values_in(
                texts(lines@),
                name@,
            ),
            None => values_in(texts(lines@), name@).len() == 0,
        },
{
    let wanted = chars_of(name);
    let ghost all = texts(lines@);
    let mut values: Vec<String> = Vec::new();
    let mut i: usize = 0;
    assert(texts(values@) =~= seq![]);
    while i < lines.len()
        invariant
            wanted@ == name@,
            all == texts(lines@),
            i <= lines@.len(),
            values_in(all.take(i as int), name@) == texts(values@),
        decreases lines@.len() - i,
    {
        assert(all.take(i + 1).drop_last() =~= all.take(i as int));
        let ghost before = texts(values@);
        if let Some(value) = value_on_line(&lines[i], &wanted) {
            let ghost found = value@;
            values.push(value);
            assert(texts(values@) =~= before.push(found));
        }
        i += 1;
    }
    assert(all.take(i as int) =~= all);
    if values.is_empty() {
        None
    } else {
        Some(values)
    }
}

/// The lines of a text, trimmed.
pub fn trimmed_lines(text: &str) -> (lines: Vec<String>)
    ensures
        texts(lines@) == lines_after(seq![], text@),
{
    let chars = chars_of(text);
    let mut lines: Vec<String> = Vec::new();
    let mut from: usize = 0;
    let mut at: usize = 0;
    proof {
        assert(texts(lines@) =~= seq![]);
        assert(chars@.subrange(0, 0) =~= seq![]);
        assert(chars@.skip(0) =~= chars@);
        assert(lines_after(seq![], text@) =~= texts(lines@) + lines_after(seq![], text@));
    }
    while at < chars.len()
        invariant
            chars@ == text@,
            from <= at <= chars@.len(),
            lines_after(seq![], text@) == texts(lines@) + lines_after(
                chars@.subrange(from as int, at as int),
                chars@.skip(at as int),
            ),
        decreases chars@.len() - at,
    {
        assert(chars@.skip(at as int).drop_first() =~= chars@.skip(at + 1));
        if chars[at] == '\n' {
            let ghost before = texts(lines@);
            let (start, end) = trim(&chars, from, at);
            let line = string_of(&chars, start, end);
            let ghost added = line@;
            lines.push(line);
            from = at + 1;
            proof {
                assert(chars@.subrange(from as int, at + 1) =~= seq![]);
                assert(texts(lines@) =~= before.push(added));
                let rest = lines_after(seq![], chars@.skip(at + 1));
                assert(before + (seq![added] + rest) =~= before.push(added) + rest);
            }
        } else {
            assert(chars@.subrange(from as int, at + 1) =~= chars@.subrange(
                from as int,
                at as int,
            ).push(chars@[at as int]));
        }
        at += 1;
    }
    assert(chars@.skip(at as int) =~= seq![]);
    let (start, end) = trim(&chars, from, at);
    let ghost before = texts(lines@);
    let line = string_of(&chars, start, end);
    let ghost added = line@;
    lines.push(line);
    assert(texts(lines@) =~= before.push(added));
    assert(before + seq![added] =~= before.push(added));
    lines
}

/// Look up a metric by name in Prometheus text exposition and return the value
/// texts of its series, in order. None where the metric is absent.
pub fn find_metric(text: &str, name: &str) -> (r: Option<Vec<String>>)
    ensures
        match r {
            Some(values) => values@.len() > 0 && texts(values@) == metric_values(text@, name@),
            None => metric_values(text@, name@).len() == 0,
        },
{
    let lines = trimmed_lines(text);
    find_in_lines(&lines, name)
}

/// A newline ends a line: the lines of a text are those before it and those
/// after it.
pub proof fn law_lines_are_split_at_newlines(before: Seq<char>, after: Seq<char>)
    ensures
        lines_after(seq![], before.push('\n') + after) == lines_after(seq![], before)
            + lines_after(seq![], after),
{
    lemma_lines_split(seq![], before, after);
}

proof fn lemma_lines_split(current: Seq<char>, before: Seq<char>, after: Seq<char>)
    ensures
        lines_after(current, before.push('\n') + after) == lines_after(current, before)
            + lines_after(seq![], after),
    decreases before.len(),
{
    let all = before.push('\n') + after;
    if before.len() == 0 {
        assert(all.drop_first() =~= after);
    } else {
        let rest = before.drop_first();
        assert(all.drop_first() =~= rest.push('\n') + after);
        if before[0] == '\n' {
            lemma_lines_split(seq![], rest, after);
            let first = seq![trimmed(current)];
            assert(first + (lines_after(seq![], rest) + lines_after(seq![], after)) =~= first
                + lines_after(seq![], rest) + lines_after(seq![], after));
        } else {
            lemma_lines_split(current.push(before[0]), rest, after);
        }
    }
}

/// A text without newlines is one line, trimmed: what is left starts and ends
/// with something other than white space, and what was cut off is white space.
pub proof fn law_one_line_is_trimmed(text: Seq<char>) -> (bounds: (int, int))
    requires
        forall|i: int| 0 <= i < text.len() ==> #[trigger] text[i] != '\n',
    ensures
        ({
            let (from, to) = bounds;
            &&& 0 <= from <= to <= text.len()
            &&& lines_after(seq![], text) == seq![text.subrange(from, to)]
            &&& forall|i: int| 0 <= i < from ==> is_white_space(#[trigger] text[i])
            &&& forall|i: int| to <= i < text.len() ==> is_white_space(#[trigger] text[i])
            &&& from < to ==> !is_white_space(text[from]) && !is_white_space(text[to - 1])
        }),
{
    lemma_one_line(seq![], text);
    assert(seq![] + text =~= text);
    lemma_trim_bounds(text)
}

proof fn lemma_one_line(current: Seq<char>, text: Seq<char>)
    requires
        forall|i: int| 0 <= i < text.len() ==> #[trigger] text[i] != '\n',
    ensures
        lines_after(current, text) == seq![trimmed(current + text)],
    decreases text.len(),
{
    if text.len() == 0 {
        assert(current + text =~= current);
    } else {
        assert(text[0] != '\n');
        lemma_one_line(current.push(text[0]), text.drop_first());
        assert(current.push(text[0]) + text.drop_first() =~= current + text);
    }
}

proof fn lemma_trim_bounds(text: Seq<char>) -> (bounds: (int, int))
    ensures
        ({
            let (from, to) = bounds;
            &&& 0 <= from <= to <= text.len()
            &&& trimmed(text) == text.subrange(from, to)
            &&& forall|i: int| 0 <= i < from ==> is_white_space(#[trigger] text[i])
            &&& forall|i: int| to <= i < text.len() ==> is_white_space(#[trigger] text[i])
            &&& from < to ==> !is_white_space(text[from]) && !is_white_space(text[to - 1])
        }),
{
    let from = lemma_start_bound(text);
    let rest = text.skip(from);
    let len = lemma_end_bound(rest);
    assert(rest.take(len) =~= text.subrange(from, from + len));
    assert forall|i: int| from + len <= i < text.len() implies is_white_space(
        #[trigger] text[i],
    ) by {
        assert(rest[i - from] == text[i]);
    }
    (from, from + len)
}

proof fn lemma_start_bound(text: Seq<char>) -> (from: int)
    ensures
        0 <= from <= text.len(),
        trimmed_start(text) == text.skip(from),
        forall|i: int| 0 <= i < from ==> is_white_space(#[trigger] text[i]),
        from < text.len() ==> !is_white_space(text[from]),
    decreases text.len(),
{
    if text.len() > 0 && is_white_space(text[0]) {
        let inner = lemma_start_bound(text.drop_first());
        assert(text.drop_first().skip(inner) =~= text.skip(inner + 1));
        assert forall|i: int| 0 <= i < inner + 1 implies is_white_space(#[trigger] text[i]) by {
            if i > 0 {
                assert(text.drop_first()[i - 1] == text[i]);
            }
        }
        inner + 1
    } else {
        assert(text.skip(0) =~= text);
        0
    }
}

proof fn lemma_end_bound(text: Seq<char>) -> (len: int)
    ensures
        0 <= len <= text.len(),
        trimmed_end(text) == text.take(len),
        forall|i: int| len <= i < text.len() ==> is_white_space(#[trigger] text[i]),
        len > 0 ==> !is_white_space(text[len - 1]),
    decreases text.len(),
{
    if text.len() > 0 && is_white_space(text.last()) {
        let inner = lemma_end_bound(text.drop_last());
        assert(text.drop_last().take(inner) =~= text.take(inner));
        assert forall|i: int| inner <= i < text.len() implies is_white_space(#[trigger] text[i]) by {
            if i < text.len() - 1 {
                assert(text.drop_last()[i] == text[i]);
            }
        }
        inner
    } else {
        assert(text.take(text.len() as int) =~= text);
        text.len() as int
    }
}

/// The values of a metric are those of its lines, one after the other.
pub proof fn law_values_come_line_by_line(
    before: Seq<Seq<char>>,
    after: Seq<Seq<char>>,
    name: Seq<char>,
)
    ensures
        values_in(before + after, name) == values_in(before, name) + values_in(after, name),
    decreases after.len(),
{
    if after.len() == 0 {
        assert(before + after =~= before);
    } else {
        let all = before + after;
        law_values_come_line_by_line(before, after.drop_last(), name);
        assert(all.drop_last() =~= before + after.drop_last());
        assert(all.last() == after.last());
        assert(values_in(all, name) =~= values_in(before, name) + values_in(after, name));
    }
}

/// The values of a text are those before a newline and those after it.
pub proof fn law_values_of_a_text_are_split_at_newlines(
    before: Seq<char>,
    after: Seq<char>,
    name: Seq<char>,
)
    ensures
        metric_values(before.push('\n') + after, name) == metric_values(before, name)
            + metric_values(after, name),
{
    law_lines_are_split_at_newlines(before, after);
    law_values_come_line_by_line(lines_after(seq![], before), lines_after(seq![], after), name);
}

proof fn lemma_single_line(line: Seq<char>, name: Seq<char>)
    ensures
        line_value(line, name) is None ==> values_in(seq![line], name) == Seq::<Seq<char>>::empty(),
        line_value(line, name) matches Some(value) ==> values_in(seq![line], name) == seq![value],
{
    let lines = seq![line];
    assert(lines.drop_last() =~= seq![]);
    assert(lines.last() == line);
    assert(values_in(lines.drop_last(), name) =~= seq![]);
}

/// Empty lines and comments give no value.
pub proof fn law_comments_give_no_value(line: Seq<char>, name: Seq<char>)
    requires
        line.len() == 0 || line[0] == '#',
    ensures
        values_in(seq![line], name) == Seq::<Seq<char>>::empty(),
{
    lemma_single_line(line, name);
}

proof fn lemma_name_ends(name: Seq<char>, rest: Seq<char>)
    requires
        forall|i: int| 0 <= i < name.len() ==> !ends_name(#[trigger] name[i]),
        rest.len() == 0 || ends_name(rest[0]),
    ensures
        name_end(name + rest) == name.len(),
        (name + rest).take(name.len() as int) == name,
        (name + rest).skip(name.len() as int) == rest,
    decreases name.len(),
{
    let line = name + rest;
    assert(line.take(name.len() as int) =~= name);
    assert(line.skip(name.len() as int) =~= rest);
    if name.len() == 0 {
        assert(line =~= rest);
    } else {
        assert(line.drop_first() =~= name.drop_first() + rest);
        assert(!ends_name(name[0]));
        assert forall|i: int| 0 <= i < name.drop_first().len() implies !ends_name(
            #[trigger] name.drop_first()[i],
        ) by {
            assert(name.drop_first()[i] == name[i + 1]);
        }
        lemma_name_ends(name.drop_first(), rest);
    }
}

/// A line about another metric gives no value. The name of a line ends at the
/// first brace or blank, so a metric whose name merely starts with `name`, or
/// that `name` starts with, is another.
pub proof fn law_other_metrics_give_no_value(
    other: Seq<char>,
    rest: Seq<char>,
    name: Seq<char>,
)
    requires
        forall|i: int|
            0 <= i < other.len() ==> #[trigger] other[i] != '{' && other[i] != ' ' && other[i]
                != '\t',
        rest.len() == 0 || rest[0] == '{' || rest[0] == ' ' || rest[0] == '\t',
        other != name,
    ensures
        values_in(seq![other + rest], name) == Seq::<Seq<char>>::empty(),
{
    lemma_name_ends(other, rest);
    lemma_single_line(other + rest, name);
}

proof fn lemma_blanks_bound(s: Seq<char>) -> (k: int)
    ensures
        0 <= k <= s.len(),
        after_blanks(s) == s.skip(k),
        forall|i: int| 0 <= i < k ==> is_blank(#[trigger] s[i]),
        k < s.len() ==> !is_blank(s[k]),
    decreases s.len(),
{
    if s.len() > 0 && is_blank(s[0]) {
        let inner = lemma_blanks_bound(s.drop_first());
        assert(s.drop_first().skip(inner) =~= s.skip(inner + 1));
        assert forall|i: int| 0 <= i < inner + 1 implies is_blank(#[trigger] s[i]) by {
            if i > 0 {
                assert(s.drop_first()[i - 1] == s[i]);
            }
        }
        inner + 1
    } else {
        assert(s.skip(0) =~= s);
        0
    }
}

proof fn lemma_word_bound(s: Seq<char>) -> (k: int)
    ensures
        0 <= k <= s.len(),
        first_word(s) == s.take(k),
        after_word(s) == s.skip(k),
        forall|i: int| 0 <= i < k ==> !is_blank(#[trigger] s[i]),
        k < s.len() ==> is_blank(s[k]),
    decreases s.len(),
{
    if s.len() == 0 || is_blank(s[0]) {
        assert(s.skip(0) =~= s);
        assert(s.take(0) =~= seq![]);
        0
    } else {
        let inner = lemma_word_bound(s.drop_first());
        assert(s.drop_first().skip(inner) =~= s.skip(inner + 1));
        assert(seq![s[0]] + s.drop_first().take(inner) =~= s.take(inner + 1));
        assert forall|i: int| 0 <= i < inner + 1 implies !is_blank(#[trigger] s[i]) by {
            if i > 0 {
                assert(s.drop_first()[i - 1] == s[i]);
            }
        }
        inner + 1
    }
}

proof fn lemma_labels_bound(s: Seq<char>, quoted: bool) -> (k: int)
    requires
        after_labels(s, quoted) is Some,
    ensures
        0 <= k <= s.len(),
        after_labels(s, quoted) == Some(s.skip(k)),
    decreases s.len(),
{
    if quoted && s[0] == '\\' {
        let inner = lemma_labels_bound(s.skip(2), true);
        assert(s.skip(2).skip(inner) =~= s.skip(inner + 2));
        inner + 2
    } else if s[0] == '"' {
        let inner = lemma_labels_bound(s.drop_first(), !quoted);
        assert(s.drop_first().skip(inner) =~= s.skip(inner + 1));
        inner + 1
    } else if s[0] == '}' && !quoted {
        assert(s.drop_first() =~= s.skip(1));
        1
    } else {
        let inner = lemma_labels_bound(s.drop_first(), quoted);
        assert(s.drop_first().skip(inner) =~= s.skip(inner + 1));
        inner + 1
    }
}

/// Where a value is read before a timestamp, the timestamp stands behind the
/// last blank.
proof fn lemma_stamp_is_last(line: Seq<char>)
    requires
        0 <= name_end(line) <= line.len(),
        stamped_value(line) is Some,
    ensures
        after_last_blank(line.skip(name_end(line))) matches Some(last) && is_timestamp(last),
{
    let rest = line.skip(name_end(line));
    let block_at = lemma_blanks_bound(rest);
    let block = after_blanks(rest);
    let series_at: int = if block.len() > 0 && block[0] == '{' {
        let inner = lemma_labels_bound(block.drop_first(), false);
        assert(block.drop_first().skip(inner) =~= rest.skip(block_at + 1 + inner));
        block_at + 1 + inner
    } else {
        assert(rest.skip(0) =~= rest);
        0
    };
    let series = rest.skip(series_at);
    assert(after_series(line) == Some(series));
    let a = lemma_blanks_bound(series);
    let words = series.skip(a);
    let b = lemma_word_bound(words);
    let tail = words.skip(b);
    let c = lemma_blanks_bound(tail);
    let behind = tail.skip(c);
    let at = series_at + a + b + c;
    assert(behind =~= rest.skip(at));
    law_timestamps_are_numbers(behind);
    assert(c > 0) by {
        if c == 0 {
            assert(tail.skip(0) =~= tail);
            assert(tail.len() > 0);
            assert(is_blank(words[b]));
            assert(tail[0] == words[b]);
            assert(behind[0] == tail[0]);
        }
    }
    assert(is_blank(tail[c - 1]));
    assert(rest[at - 1] == tail[c - 1]);
    assert forall|k: int| at <= k < rest.len() implies !is_blank(#[trigger] rest[k]) by {
        assert(behind[k - at] == rest[k]);
    }
    lemma_after_last_blank(rest, at);
}

/// The value of a sample is what stands behind its last blank, whatever stands
/// before, where that is a number and no whole one; where it is no number the
/// line gives no value.
pub proof fn law_the_last_word_is_the_value(
    name: Seq<char>,
    middle: Seq<char>,
    blank: char,
    value: Seq<char>,
)
    requires
        name.len() > 0,
        name[0] != '#',
        forall|i: int|
            0 <= i < name.len() ==> #[trigger] name[i] != '{' && name[i] != ' ' && name[i] != '\t',
        middle.len() == 0 || middle[0] == '{' || middle[0] == ' ' || middle[0] == '\t',
        blank == ' ' || blank == '\t',
        forall|i: int| 0 <= i < value.len() ==> #[trigger] value[i] != ' ' && value[i] != '\t',
        !is_timestamp(value),
    ensures
        is_number(value) ==> values_in(seq![name + middle.push(blank) + value], name) == seq![
            value,
        ],
        !is_number(value) ==> values_in(seq![name + middle.push(blank) + value], name) == Seq::<
            Seq<char>,
        >::empty(),
{
    let rest = middle.push(blank) + value;
    let line = name + rest;
    assert(line =~= name + middle.push(blank) + value);
    assert(rest[0] == if middle.len() == 0 {
        blank
    } else {
        middle[0]
    });
    lemma_name_ends(name, rest);
    let at = middle.len() + 1;
    assert forall|k: int| at <= k < rest.len() implies !is_blank(#[trigger] rest[k]) by {
        assert(rest[k] == value[k - at]);
    }
    lemma_after_last_blank(rest, at as int);
    assert(rest.skip(at as int) =~= value);
    if stamped_value(line) is Some {
        lemma_stamp_is_last(line);
    }
    assert(line[0] == name[0]);
    lemma_single_line(line, name);
}

proof fn lemma_two_words(
    series: Seq<char>,
    blank: char,
    value: Seq<char>,
    gap: char,
    stamp: Seq<char>,
)
    requires
        series == seq![blank] + value + (seq![gap] + stamp),
        is_blank(blank),
        is_blank(gap),
        value.len() > 0,
        forall|i: int| 0 <= i < value.len() ==> !is_blank(#[trigger] value[i]),
        stamp.len() > 0,
        !is_blank(stamp[0]),
    ensures
        first_word(after_blanks(series)) == value,
        after_blanks(after_word(after_blanks(series))) == stamp,
{
    let a = lemma_blanks_bound(series);
    assert(series[0] == blank);
    assert(series[1] == value[0]);
    assert(a == 1) by {
        if a > 1 {
            assert(is_blank(series[1]));
        }
    }
    let words = series.skip(1);
    assert(words =~= value + (seq![gap] + stamp));
    let b = lemma_word_bound(words);
    assert(b == value.len()) by {
        if b < value.len() {
            assert(words[b] == value[b]);
        }
        if b > value.len() {
            assert(words[value.len() as int] == gap);
        }
    }
    assert(words.take(b) =~= value);
    let tail = words.skip(b);
    assert(tail =~= seq![gap] + stamp);
    let c = lemma_blanks_bound(tail);
    assert(c == 1) by {
        if c > 1 {
            assert(tail[1] == stamp[0]);
            assert(is_blank(tail[1]));
        }
    }
    assert(tail.skip(1) =~= stamp);
}

proof fn lemma_one_word(series: Seq<char>, blank: char, value: Seq<char>)
    requires
        series == seq![blank] + value,
        is_blank(blank),
        forall|i: int| 0 <= i < value.len() ==> !is_blank(#[trigger] value[i]),
    ensures
        after_blanks(after_word(after_blanks(series))) == Seq::<char>::empty(),
{
    let a = lemma_blanks_bound(series);
    assert(series[0] == blank);
    assert(a == 1) by {
        if a > 1 {
            assert(series[1] == value[0]);
            assert(is_blank(series[1]));
        }
    }
    let words = series.skip(1);
    assert(words =~= value);
    let b = lemma_word_bound(words);
    assert(b == value.len());
    assert(words.skip(b) =~= seq![]);
}

proof fn lemma_plain_labels(inner: Seq<char>, rest: Seq<char>)
    requires
        forall|i: int| 0 <= i < inner.len() ==> #[trigger] inner[i] != '}' && inner[i] != '"',
    ensures
        after_labels(inner + rest, false) == after_labels(rest, false),
    decreases inner.len(),
{
    let all = inner + rest;
    if inner.len() == 0 {
        assert(all =~= rest);
    } else {
        assert(all.drop_first() =~= inner.drop_first() + rest);
        assert(all[0] == inner[0]);
        assert(inner[0] != '}' && inner[0] != '"');
        assert forall|i: int| 0 <= i < inner.drop_first().len() implies #[trigger]
            inner.drop_first()[i] != '}' && inner.drop_first()[i] != '"' by {
            assert(inner.drop_first()[i] == inner[i + 1]);
        }
        lemma_plain_labels(inner.drop_first(), rest);
    }
}

proof fn lemma_quoted_labels(inner: Seq<char>, rest: Seq<char>)
    requires
        forall|i: int| 0 <= i < inner.len() ==> #[trigger] inner[i] != '\\' && inner[i] != '"',
    ensures
        after_labels(inner + rest, true) == after_labels(rest, true),
    decreases inner.len(),
{
    let all = inner + rest;
    if inner.len() == 0 {
        assert(all =~= rest);
    } else {
        assert(all.drop_first() =~= inner.drop_first() + rest);
        assert(all[0] == inner[0]);
        assert(inner[0] != '\\' && inner[0] != '"');
        assert forall|i: int| 0 <= i < inner.drop_first().len() implies #[trigger]
            inner.drop_first()[i] != '\\' && inner.drop_first()[i] != '"' by {
            assert(inner.drop_first()[i] == inner[i + 1]);
        }
        lemma_quoted_labels(inner.drop_first(), rest);
    }
}

/// A sample without labels gives its value, with a timestamp behind it or
/// without one.
pub proof fn law_plain_samples_give_their_value(
    name: Seq<char>,
    blank: char,
    value: Seq<char>,
    gap: char,
    stamp: Seq<char>,
)
    requires
        name.len() > 0,
        name[0] != '#',
        forall|i: int|
            0 <= i < name.len() ==> #[trigger] name[i] != '{' && name[i] != ' ' && name[i] != '\t',
        blank == ' ' || blank == '\t',
        gap == ' ' || gap == '\t',
        is_number(value),
        forall|i: int| 0 <= i < value.len() ==> #[trigger] value[i] != ' ' && value[i] != '\t',
        is_timestamp(stamp),
    ensures
        values_in(seq![name + seq![blank] + value], name) == seq![value],
        values_in(seq![name + seq![blank] + value + (seq![gap] + stamp)], name) == seq![value],
{
    law_numbers_start_as_numbers(value);
    lemma_sample_value(name, seq![], blank, value, gap, stamp);
    assert(name + Seq::<char>::empty() =~= name);
}

/// A sample with a label gives its value, with a timestamp behind it or without
/// one; what stands between the quotes may hold blanks and braces.
pub proof fn law_labelled_samples_give_their_value(
    name: Seq<char>,
    key: Seq<char>,
    label: Seq<char>,
    blank: char,
    value: Seq<char>,
    gap: char,
    stamp: Seq<char>,
)
    requires
        name.len() > 0,
        name[0] != '#',
        forall|i: int|
            0 <= i < name.len() ==> #[trigger] name[i] != '{' && name[i] != ' ' && name[i] != '\t',
        forall|i: int| 0 <= i < key.len() ==> #[trigger] key[i] != '}' && key[i] != '"',
        forall|i: int| 0 <= i < label.len() ==> #[trigger] label[i] != '\\' && label[i] != '"',
        blank == ' ' || blank == '\t',
        gap == ' ' || gap == '\t',
        is_number(value),
        forall|i: int| 0 <= i < value.len() ==> #[trigger] value[i] != ' ' && value[i] != '\t',
        is_timestamp(stamp),
    ensures
        ({
            let series = name + (seq!['{'] + key + seq!['"'] + label + seq!['"', '}']);
            &&& values_in(seq![series + seq![blank] + value], name) == seq![value]
            &&& values_in(seq![series + seq![blank] + value + (seq![gap] + stamp)], name) == seq![
                value,
            ]
        }),
{
    law_numbers_start_as_numbers(value);
    let labels = seq!['{'] + key + seq!['"'] + label + seq!['"', '}'];
    assert forall|rest: Seq<char>| #[trigger]
        after_labels((labels + rest).drop_first(), false) == Some(rest) by {
        let closing = seq!['"', '}'] + rest;
        let quoted = label + closing;
        let opening = seq!['"'] + quoted;
        assert((labels + rest).drop_first() =~= key + opening);
        lemma_plain_labels(key, opening);
        assert(opening.drop_first() =~= quoted);
        lemma_quoted_labels(label, closing);
        assert(closing.drop_first() =~= seq!['}'] + rest);
        assert((seq!['}'] + rest).drop_first() =~= rest);
        assert(after_labels(opening, false) == after_labels(quoted, true)) by {
            assert(opening[0] == '"');
        }
        assert(after_labels(closing, true) == after_labels(seq!['}'] + rest, false)) by {
            assert(closing[0] == '"');
        }
        assert(after_labels(seq!['}'] + rest, false) == Some(rest)) by {
            assert((seq!['}'] + rest)[0] == '}');
        }
    }
    lemma_sample_value(name, labels, blank, value, gap, stamp);
}

/// The values of a sample whose label block, if it has one, is `labels`.
proof fn lemma_sample_value(
    name: Seq<char>,
    labels: Seq<char>,
    blank: char,
    value: Seq<char>,
    gap: char,
    stamp: Seq<char>,
)
    requires
        name.len() > 0,
        name[0] != '#',
        forall|i: int|
            0 <= i < name.len() ==> #[trigger] name[i] != '{' && name[i] != ' ' && name[i] != '\t',
        labels.len() > 0 ==> labels[0] == '{',
        labels.len() > 0 ==> forall|rest: Seq<char>| #[trigger]
            after_labels((labels + rest).drop_first(), false) == Some(rest),
        is_blank(blank),
        is_blank(gap),
        is_number(value),
        value.len() > 0,
        value[0] != '{',
        forall|i: int| 0 <= i < value.len() ==> #[trigger] value[i] != ' ' && value[i] != '\t',
        is_timestamp(stamp),
    ensures
        values_in(seq![name + labels + seq![blank] + value], name) == seq![value],
        values_in(seq![name + labels + seq![blank] + value + (seq![gap] + stamp)], name) == seq![
            value,
        ],
{
    law_timestamps_are_numbers(stamp);
    let short = seq![blank] + value;
    let long = seq![blank] + value + (seq![gap] + stamp);
    lemma_series_ends(name, labels, short);
    lemma_series_ends(name, labels, long);
    lemma_one_word(short, blank, value);
    lemma_two_words(long, blank, value, gap, stamp);
    let line = name + labels + seq![blank] + value;
    let stamped = name + labels + seq![blank] + value + (seq![gap] + stamp);
    assert(line =~= name + (labels + short));
    assert(stamped =~= name + (labels + long));
    assert(!is_timestamp(Seq::<char>::empty()));
    let rest = labels + short;
    let at = labels.len() + 1;
    assert forall|k: int| at <= k < rest.len() implies !is_blank(#[trigger] rest[k]) by {
        assert(rest[k] == value[k - at]);
    }
    assert(is_blank(rest[at - 1]));
    lemma_after_last_blank(rest, at as int);
    assert(rest.skip(at as int) =~= value);
    assert(line[0] == name[0] && stamped[0] == name[0]);
    lemma_single_line(line, name);
    lemma_single_line(stamped, name);
}

proof fn lemma_series_ends(name: Seq<char>, labels: Seq<char>, tail: Seq<char>)
    requires
        forall|i: int|
            0 <= i < name.len() ==> #[trigger] name[i] != '{' && name[i] != ' ' && name[i] != '\t',
        labels.len() > 0 ==> labels[0] == '{',
        labels.len() > 0 ==> forall|rest: Seq<char>| #[trigger]
            after_labels((labels + rest).drop_first(), false) == Some(rest),
        tail.len() > 1,
        is_blank(tail[0]),
        !is_blank(tail[1]),
        tail[1] != '{',
    ensures
        name_end(name + (labels + tail)) == name.len(),
        (name + (labels + tail)).take(name.len() as int) == name,
        (name + (labels + tail)).skip(name.len() as int) == labels + tail,
        after_series(name + (labels + tail)) == Some(tail),
{
    let rest = labels + tail;
    assert(rest[0] == if labels.len() > 0 {
        labels[0]
    } else {
        tail[0]
    });
    lemma_name_ends(name, rest);
    let k = lemma_blanks_bound(rest);
    if labels.len() > 0 {
        assert(k == 0) by {
            if k > 0 {
                assert(is_blank(rest[0]));
            }
        }
        assert(rest.skip(0) =~= rest);
        assert(after_labels((labels + tail).drop_first(), false) == Some(tail));
    } else {
        assert(rest =~= tail);
        assert(k == 1) by {
            if k > 1 {
                assert(is_blank(rest[1]));
            }
        }
        assert(rest.skip(1)[0] == tail[1]);
    }
}

/// A label block ends at the first closing brace that is not between quotes.
/// Quotes open and close, and between them a backslash takes the character
/// after it with it.
pub proof fn law_label_blocks_end_at_their_brace(c: char, rest: Seq<char>, quoted: bool)
    ensures
        after_labels(seq![], quoted) is None,
        after_labels(seq!['}'] + rest, false) == Some(rest),
        after_labels(seq!['"'] + rest, quoted) == after_labels(rest, !quoted),
        after_labels(seq!['\\', c] + rest, true) == after_labels(rest, true),
        after_labels(seq!['\\'] + rest, false) == after_labels(rest, false),
        after_labels(seq!['}'] + rest, true) == after_labels(rest, true),
        c != '}' && c != '"' && c != '\\' ==> after_labels(seq![c] + rest, quoted)
            == after_labels(rest, quoted),
{
    assert((seq![c] + rest).drop_first() =~= rest);
    assert((seq!['}'] + rest).drop_first() =~= rest);
    assert((seq!['"'] + rest).drop_first() =~= rest);
    assert((seq!['\\'] + rest).drop_first() =~= rest);
    assert((seq!['\\', c] + rest).skip(2) =~= rest);
    assert((seq!['\\', c] + rest)[0] == '\\');
}

} // verus!
