//! Texts as sequences of characters: lines, fields and decimal numbers.

use vstd::prelude::*;

verus! {

/// The lines of a text: what stands between its line feeds. A text without a
/// line feed is one line; one that ends in a line feed has an empty last line.
pub open spec fn split_lines(text: Seq<char>) -> Seq<Seq<char>>
    decreases text.len(),
{
    if text.len() == 0 {
        seq![Seq::<char>::empty()]
    } else {
        let before = split_lines(text.drop_last());
        if text.last() == '\n' {
            before.push(Seq::<char>::empty())
        } else {
            before.drop_last().push(before.last().push(text.last()))
        }
    }
}

/// The first `n` of the lines, joined by line feeds.
pub open spec fn join_lines(lines: Seq<Seq<char>>, n: int) -> Seq<char>
    decreases n,
{
    if n <= 0 {
        Seq::<char>::empty()
    } else if n == 1 {
        lines[0]
    } else {
        join_lines(lines, n - 1).push('\n') + lines[n - 1]
    }
}

/// A text has at least one line.
pub proof fn lemma_split_lines_some(text: Seq<char>)
    ensures
        split_lines(text).len() >= 1,
    decreases text.len(),
{
    if text.len() > 0 {
        lemma_split_lines_some(text.drop_last());
    }
}

/// What the first `n` lines are joined to depends on those lines alone.
pub proof fn lemma_join_lines_same(a: Seq<Seq<char>>, b: Seq<Seq<char>>, n: int)
    requires
        n <= a.len(),
        n <= b.len(),
        forall|i: int| 0 <= i < n ==> a[i] == b[i],
    ensures
        join_lines(a, n) == join_lines(b, n),
    decreases n,
{
    if n > 1 {
        lemma_join_lines_same(a, b, n - 1);
    }
}

/// A blank, a tab or a carriage return.
pub open spec fn is_blank(c: char) -> bool {
    c == ' ' || c == '\t' || c == '\r'
}

/// The fields found in a line so far: those that a blank has closed, and the
/// characters of the one that is still open (none between fields).
pub open spec fn fields_scan(line: Seq<char>) -> (Seq<Seq<char>>, Seq<char>)
    decreases line.len(),
{
    if line.len() == 0 {
        (Seq::<Seq<char>>::empty(), Seq::<char>::empty())
    } else {
        let (closed, open) = fields_scan(line.drop_last());
        if is_blank(line.last()) {
            if open.len() > 0 {
                (closed.push(open), Seq::<char>::empty())
            } else {
                (closed, open)
            }
        } else {
            (closed, open.push(line.last()))
        }
    }
}

/// The fields of a line: its maximal runs of characters that are not blank.
pub open spec fn fields(line: Seq<char>) -> Seq<Seq<char>> {
    let (closed, open) = fields_scan(line);
    if open.len() > 0 {
        closed.push(open)
    } else {
        closed
    }
}

/// The value of a decimal digit, if the character is one.
pub open spec fn digit_value(c: char) -> Option<int> {
    if c == '0' {
        Some(0)
    } else if c == '1' {
        Some(1)
    } else if c == '2' {
        Some(2)
    } else if c == '3' {
        Some(3)
    } else if c == '4' {
        Some(4)
    } else if c == '5' {
        Some(5)
    } else if c == '6' {
        Some(6)
    } else if c == '7' {
        Some(7)
    } else if c == '8' {
        Some(8)
    } else if c == '9' {
        Some(9)
    } else {
        None
    }
}

/// The character of a decimal digit.
pub open spec fn digit_char(d: int) -> char {
    if d == 0 {
        '0'
    } else if d == 1 {
        '1'
    } else if d == 2 {
        '2'
    } else if d == 3 {
        '3'
    } else if d == 4 {
        '4'
    } else if d == 5 {
        '5'
    } else if d == 6 {
        '6'
    } else if d == 7 {
        '7'
    } else if d == 8 {
        '8'
    } else {
        '9'
    }
}

/// Every character is a decimal digit.
pub open spec fn all_digits(s: Seq<char>) -> bool {
    forall|i: int| 0 <= i < s.len() ==> digit_value(#[trigger] s[i]) is Some
}

/// The number that a run of decimal digits writes.
pub open spec fn decimal_value(s: Seq<char>) -> int
    decreases s.len(),
{
    if s.len() == 0 {
        0
    } else {
        match digit_value(s.last()) {
            Some(d) => 10 * decimal_value(s.drop_last()) + d,
            None => 10 * decimal_value(s.drop_last()),
        }
    }
}

/// The number that a field writes, if the field is one or more decimal
/// digits and the number is at most `max`.
pub open spec fn number(s: Seq<char>, max: int) -> Option<int> {
    if s.len() > 0 && all_digits(s) && decimal_value(s) <= max {
        Some(decimal_value(s))
    } else {
        None
    }
}

/// A number in decimal digits, without leading zeros.
pub open spec fn decimal(n: int) -> Seq<char>
    decreases n,
{
    if n < 10 {
        seq![digit_char(n)]
    } else {
        decimal(n / 10).push(digit_char(n % 10))
    }
}

/// A number in at least two decimal digits.
pub open spec fn two_digits(n: int) -> Seq<char> {
    if n < 10 {
        seq!['0', digit_char(n)]
    } else {
        decimal(n)
    }
}

/// A number in decimal digits, after a minus sign if it is negative.
pub open spec fn signed_decimal(n: int) -> Seq<char> {
    if n < 0 {
        seq!['-'] + decimal(-n)
    } else {
        decimal(n)
    }
}

/// The lines of a text, each as a sequence of characters.
pub open spec fn rows(lines: Seq<Vec<char>>) -> Seq<Seq<char>> {
    Seq::new(lines.len(), |i: int| lines[i]@)
}

/// The characters of `s`, in order.
pub fn chars_of(s: &str) -> (v: Vec<char>)
    ensures
        v@ == s@,
{
    let mut v: Vec<char> = Vec::new();
    for c in it: s.chars()
        invariant
            it.seq() == s@,
            v@ == it.seq().take(it.index()),
    {
        v.push(c);
    }
    v
}

/// Splits a text into its lines.
pub fn lines_of(text: &Vec<char>) -> (lines: Vec<Vec<char>>)
    ensures
        rows(lines@) == split_lines(text@),
{
    let mut lines: Vec<Vec<char>> = Vec::new();
    let mut current: Vec<char> = Vec::new();
    let mut i: usize = 0;
    while i < text.len()
        invariant
            i <= text.len(),
            rows(lines@).push(current@) == split_lines(text@.take(i as int)),
        decreases text.len() - i,
    {
        let c = text[i];
        proof {
            let next = text@.take(i + 1);
            assert(next.drop_last() == text@.take(i as int));
            assert(next.last() == c);
            let before = rows(lines@).push(current@);
            assert(before.drop_last() == rows(lines@));
            assert(before.last() == current@);
        }
        if c == '\n' {
            let ghost closed = rows(lines@).push(current@);
            lines.push(current);
            current = Vec::new();
            assert(rows(lines@) == closed);
        } else {
            current.push(c);
        }
        i += 1;
    }
    assert(text@.take(i as int) == text@);
    let ghost all = rows(lines@).push(current@);
    lines.push(current);
    assert(rows(lines@) == all);
    lines
}

/// True for a blank, a tab and a carriage return.
pub fn is_blank_char(c: char) -> (b: bool)
    ensures
        b == is_blank(c),
{
    c == ' ' || c == '\t' || c == '\r'
}

/// Splits a line into its fields.
pub fn fields_of(line: &Vec<char>) -> (found: Vec<Vec<char>>)
    ensures
        rows(found@) == fields(line@),
{
    let mut closed: Vec<Vec<char>> = Vec::new();
    let mut open: Vec<char> = Vec::new();
    let mut i: usize = 0;
    while i < line.len()
        invariant
            i <= line.len(),
            (rows(closed@), open@) == fields_scan(line@.take(i as int)),
        decreases line.len() - i,
    {
        let c = line[i];
        proof {
            let next = line@.take(i + 1);
            assert(next.drop_last() == line@.take(i as int));
            assert(next.last() == c);
        }
        if is_blank_char(c) {
            if open.len() > 0 {
                let ghost grown = rows(closed@).push(open@);
                closed.push(open);
                open = Vec::new();
                assert(rows(closed@) == grown);
            }
        } else {
            open.push(c);
        }
        i += 1;
    }
    assert(line@.take(i as int) == line@);
    if open.len() > 0 {
        let ghost grown = rows(closed@).push(open@);
        closed.push(open);
        assert(rows(closed@) == grown);
    }
    closed
}

/// The value of a decimal digit, if the character is one.
pub fn digit_of(c: char) -> (d: Option<u8>)
    ensures
        match d {
            Some(v) => digit_value(c) == Some(v as int),
            None => digit_value(c) is None,
        },
{
    match c {
        '0' => Some(0),
        '1' => Some(1),
        '2' => Some(2),
        '3' => Some(3),
        '4' => Some(4),
        '5' => Some(5),
        '6' => Some(6),
        '7' => Some(7),
        '8' => Some(8),
        '9' => Some(9),
        _ => None,
    }
}

/// A run of digits that writes more than `max` keeps doing so when it grows.
pub proof fn lemma_decimal_value_grows(s: Seq<char>, n: int)
    requires
        0 <= n <= s.len(),
    ensures
        0 <= decimal_value(s.take(n)) <= decimal_value(s),
    decreases s.len() - n,
{
    lemma_decimal_value_non_negative(s.take(n));
    if n < s.len() {
        let next = s.take(n + 1);
        assert(next.drop_last() == s.take(n));
        lemma_decimal_value_grows(s, n + 1);
    } else {
        assert(s.take(n) == s);
    }
}

/// The value of a run of digits is not negative.
pub proof fn lemma_decimal_value_non_negative(s: Seq<char>)
    ensures
        0 <= decimal_value(s),
    decreases s.len(),
{
    if s.len() > 0 {
        lemma_decimal_value_non_negative(s.drop_last());
    }
}

/// Reads a field as a number of at most `max`.
pub fn number_of(field: &Vec<char>, max: u8) -> (n: Option<u8>)
    ensures
        match n {
            Some(v) => number(field@, max as int) == Some(v as int),
            None => number(field@, max as int) is None,
        },
{
    if field.len() == 0 {
        return None;
    }
    let mut value: u8 = 0;
    let mut i: usize = 0;
    while i < field.len()
        invariant
            i <= field.len(),
            value <= max,
            value == decimal_value(field@.take(i as int)),
            all_digits(field@.take(i as int)),
        decreases field.len() - i,
    {
        proof {
            let next = field@.take(i + 1);
            assert(next.drop_last() == field@.take(i as int));
            assert(next.last() == field@[i as int]);
        }
        match digit_of(field[i]) {
            None => {
                assert(!all_digits(field@)) by {
                    assert(digit_value(field@[i as int]) is None);
                }
                return None;
            },
            Some(d) => {
                if d > max || value > (max - d) / 10 {
                    proof {
                        lemma_decimal_value_grows(field@, i + 1);
                    }
                    return None;
                }
                value = 10 * value + d;
                assert(all_digits(field@.take(i + 1))) by {
                    assert forall|k: int| 0 <= k < i + 1 implies digit_value(
                        #[trigger] field@.take(i + 1)[k],
                    ) is Some by {
                        if k < i {
                            assert(field@.take(i + 1)[k] == field@.take(i as int)[k]);
                        }
                    }
                }
            },
        }
        i += 1;
    }
    assert(field@.take(i as int) == field@);
    Some(value)
}

/// `String::push` appends the character to the end of the string.
pub assume_specification[ String::push ](s: &mut String, ch: char)
    ensures
        final(s)@ == old(s)@.push(ch),
;

/// The character of a decimal digit.
pub fn digit_char_of(d: u8) -> (c: char)
    requires
        d < 10,
    ensures
        c == digit_char(d as int),
{
    match d {
        0 => '0',
        1 => '1',
        2 => '2',
        3 => '3',
        4 => '4',
        5 => '5',
        6 => '6',
        7 => '7',
        8 => '8',
        _ => '9',
    }
}

/// Appends the characters to the text.
pub fn push_chars(out: &mut String, chars: &Vec<char>, from: usize, to: usize)
    requires
        from <= to <= chars.len(),
    ensures
        final(out)@ == old(out)@ + chars@.subrange(from as int, to as int),
{
    let mut i: usize = from;
    while i < to
        invariant
            from <= i <= to <= chars.len(),
            out@ == old(out)@ + chars@.subrange(from as int, i as int),
        decreases to - i,
    {
        out.push(chars[i]);
        assert(chars@.subrange(from as int, i + 1) == chars@.subrange(from as int, i as int).push(
            chars@[i as int],
        ));
        i += 1;
    }
}

/// Appends a number in decimal digits.
pub fn push_decimal(out: &mut String, n: u8)
    ensures
        final(out)@ == old(out)@ + decimal(n as int),
    decreases n,
{
    if n >= 10 {
        push_decimal(out, n / 10);
    }
    out.push(digit_char_of(n % 10));
    assert(out@ == old(out)@ + decimal(n as int));
}

/// Appends a number in at least two decimal digits.
pub fn push_two_digits(out: &mut String, n: u8)
    ensures
        final(out)@ == old(out)@ + two_digits(n as int),
{
    if n < 10 {
        out.push('0');
        out.push(digit_char_of(n));
        assert(out@ == old(out)@ + two_digits(n as int));
    } else {
        push_decimal(out, n);
    }
}

/// Appends a number in decimal digits, after a minus sign if it is negative.
pub fn push_signed_decimal(out: &mut String, n: i8)
    ensures
        final(out)@ == old(out)@ + signed_decimal(n as int),
{
    if n < 0 {
        out.push('-');
        let size: u8 = if n == i8::MIN {
            128
        } else {
            (-n) as u8
        };
        push_decimal(out, size);
        assert(out@ == old(out)@ + signed_decimal(n as int));
    } else {
        push_decimal(out, n as u8);
    }
}

/// The text holds no line feed.
pub open spec fn no_line_feed(s: Seq<char>) -> bool {
    forall|i: int| 0 <= i < s.len() ==> #[trigger] s[i] != '\n'
}

/// The text holds no blank.
pub open spec fn no_blank(s: Seq<char>) -> bool {
    forall|i: int| 0 <= i < s.len() ==> !is_blank(#[trigger] s[i])
}

/// No line of a text holds a line feed.
pub proof fn lemma_lines_hold_no_line_feed(text: Seq<char>)
    ensures
        forall|i: int| 0 <= i < split_lines(text).len() ==> no_line_feed(#[trigger] split_lines(text)[i]),
    decreases text.len(),
{
    if text.len() > 0 {
        lemma_lines_hold_no_line_feed(text.drop_last());
        lemma_split_lines_some(text.drop_last());
    }
}

/// A text without a line feed is its own single line.
pub proof fn lemma_split_one_line(line: Seq<char>)
    requires
        no_line_feed(line),
    ensures
        split_lines(line) == seq![line],
    decreases line.len(),
{
    if line.len() == 0 {
        assert(line == Seq::<char>::empty());
    } else {
        let shorter = line.drop_last();
        assert(no_line_feed(shorter)) by {
            assert forall|i: int| 0 <= i < shorter.len() implies #[trigger] shorter[i] != '\n' by {
                assert(shorter[i] == line[i]);
            }
        }
        lemma_split_one_line(shorter);
        assert(line[line.len() - 1] != '\n');
        let before = seq![shorter];
        assert(before.drop_last() == Seq::<Seq<char>>::empty());
        assert(before.last() == shorter);
        assert(shorter.push(line.last()) == line);
        assert(Seq::<Seq<char>>::empty().push(line) == seq![line]);
    }
}

/// After a line feed, a text without a line feed is one more line.
pub proof fn lemma_split_after_feed(text: Seq<char>, line: Seq<char>)
    requires
        no_line_feed(line),
    ensures
        split_lines(text.push('\n') + line) == split_lines(text).push(line),
    decreases line.len(),
{
    let whole = text.push('\n') + line;
    if line.len() == 0 {
        assert(whole == text.push('\n'));
        assert(whole.drop_last() == text);
        assert(whole.last() == '\n');
        assert(line == Seq::<char>::empty());
    } else {
        let shorter = line.drop_last();
        assert(no_line_feed(shorter)) by {
            assert forall|i: int| 0 <= i < shorter.len() implies #[trigger] shorter[i] != '\n' by {
                assert(shorter[i] == line[i]);
            }
        }
        lemma_split_after_feed(text, shorter);
        assert(whole.drop_last() == text.push('\n') + shorter);
        assert(whole.last() == line.last());
        assert(line[line.len() - 1] != '\n');
        let before = split_lines(text).push(shorter);
        assert(before.drop_last() == split_lines(text));
        assert(before.last() == shorter);
        assert(shorter.push(line.last()) == line);
    }
}

/// Lines without line feeds, joined and split again, are the same lines.
pub proof fn lemma_split_join(lines: Seq<Seq<char>>, n: int)
    requires
        1 <= n <= lines.len(),
        forall|i: int| 0 <= i < n ==> no_line_feed(#[trigger] lines[i]),
    ensures
        split_lines(join_lines(lines, n)) == lines.take(n),
    decreases n,
{
    if n == 1 {
        lemma_split_one_line(lines[0]);
        assert(lines.take(1) == seq![lines[0]]);
    } else {
        lemma_split_join(lines, n - 1);
        lemma_split_after_feed(join_lines(lines, n - 1), lines[n - 1]);
        assert(lines.take(n - 1).push(lines[n - 1]) == lines.take(n));
    }
}

/// The lines of a text, joined, are the text.
pub proof fn law_join_split(text: Seq<char>)
    ensures
        join_lines(split_lines(text), split_lines(text).len() as int) == text,
    decreases text.len(),
{
    if text.len() == 0 {
        assert(split_lines(text)[0] == text);
    } else {
        let shorter = text.drop_last();
        let before = split_lines(shorter);
        let lines = split_lines(text);
        let n = before.len() as int;
        lemma_split_lines_some(shorter);
        law_join_split(shorter);
        assert(shorter.push(text.last()) == text);
        if text.last() == '\n' {
            lemma_join_lines_same(before, lines, n);
            assert(lines[n] == Seq::<char>::empty());
            assert(join_lines(lines, n + 1) == join_lines(lines, n).push('\n') + lines[n]);
            assert(join_lines(lines, n).push('\n') + Seq::<char>::empty() == join_lines(
                lines,
                n,
            ).push('\n'));
        } else {
            assert(lines[n - 1] == before[n - 1].push(text.last()));
            if n == 1 {
                assert(join_lines(lines, 1) == lines[0]);
            } else {
                lemma_join_lines_same(before, lines, n - 1);
                let head = join_lines(before, n - 1).push('\n');
                assert(join_lines(lines, n) == head + lines[n - 1]);
                assert(head + before[n - 1].push(text.last()) == (head + before[n - 1]).push(
                    text.last(),
                ));
            }
        }
    }
}

/// A digit reads back as its value, and is neither a blank nor a line feed.
pub proof fn lemma_digit_reads_back(d: int)
    requires
        0 <= d <= 9,
    ensures
        digit_value(digit_char(d)) == Some(d),
        !is_blank(digit_char(d)),
        digit_char(d) != '\n',
        digit_char(d) != 'o',
        digit_char(d) != '!',
{
}

/// A number written in decimal digits reads back as itself; what is written
/// is one digit or more and holds no blank and no line feed.
pub proof fn lemma_decimal_reads_back(n: int)
    requires
        0 <= n,
    ensures
        decimal(n).len() >= 1,
        all_digits(decimal(n)),
        decimal_value(decimal(n)) == n,
        no_blank(decimal(n)),
        no_line_feed(decimal(n)),
    decreases n,
{
    if n < 10 {
        lemma_digit_reads_back(n);
        let s = decimal(n);
        assert(s.drop_last() == Seq::<char>::empty());
        assert(decimal_value(s.drop_last()) == 0);
    } else {
        lemma_decimal_reads_back(n / 10);
        lemma_digit_reads_back(n % 10);
        let s = decimal(n);
        assert(s.drop_last() == decimal(n / 10));
        assert(s.last() == digit_char(n % 10));
        assert forall|i: int| 0 <= i < s.len() implies digit_value(#[trigger] s[i]) is Some by {
            if i < s.len() - 1 {
                assert(s[i] == decimal(n / 10)[i]);
            }
        }
        assert forall|i: int| 0 <= i < s.len() implies !is_blank(#[trigger] s[i]) by {
            if i < s.len() - 1 {
                assert(s[i] == decimal(n / 10)[i]);
            }
        }
        assert forall|i: int| 0 <= i < s.len() implies #[trigger] s[i] != '\n' by {
            if i < s.len() - 1 {
                assert(s[i] == decimal(n / 10)[i]);
            }
        }
    }
}

/// After a closed field or none, a blank and a field are that field left
/// open.
pub proof fn lemma_field_after_blank(line: Seq<char>, field: Seq<char>)
    requires
        field.len() >= 1,
        no_blank(field),
    ensures
        fields_scan(line.push(' ') + field) == (fields(line), field),
    decreases field.len(),
{
    let whole = line.push(' ') + field;
    let shorter = field.drop_last();
    assert(whole.drop_last() == line.push(' ') + shorter);
    assert(whole.last() == field.last());
    assert(!is_blank(field[field.len() - 1]));
    assert(shorter.push(field.last()) == field);
    if field.len() == 1 {
        assert(line.push(' ') + shorter == line.push(' '));
        assert(line.push(' ').drop_last() == line);
        assert(line.push(' ').last() == ' ');
        assert(fields_scan(line.push(' ')) == (fields(line), Seq::<char>::empty()));
        assert(shorter == Seq::<char>::empty());
        assert(Seq::<char>::empty().push(field.last()) == field);
    } else {
        assert(no_blank(shorter)) by {
            assert forall|i: int| 0 <= i < shorter.len() implies !is_blank(
                #[trigger] shorter[i],
            ) by {
                assert(shorter[i] == field[i]);
            }
        }
        lemma_field_after_blank(line, shorter);
    }
}

/// After a blank, a field that holds no blank is one more field of the line.
pub proof fn lemma_fields_grow(line: Seq<char>, field: Seq<char>)
    requires
        field.len() >= 1,
        no_blank(field),
    ensures
        fields(line.push(' ') + field) == fields(line).push(field),
{
    lemma_field_after_blank(line, field);
}

} // verus!
