//! Reading a puzzle from lines of text: the row quotas, the column
//! quotas, then the table.

use vstd::prelude::*;
use vstd::string::*;
use crate::board::{fits, size_mismatch_text, Board};
use crate::text::{first_stray, readable, table_of_text};
use crate::tile::unknown_tile_text;

verus! {

/// What can be wrong with the text of a number.
#[derive(Clone, Copy, PartialEq, Eq, Debug, Structural)]
pub enum Fault {
    /// There is no text at all.
    Empty,
    /// A character is no decimal digit, or a sign stands alone.
    InvalidDigit,
    /// The number does not fit into a `usize`.
    TooLarge,
}

/// The text that reports a fault.
pub open spec fn fault_text(fault: Fault) -> Seq<char> {
    match fault {
        Fault::Empty => "cannot parse integer from empty string"@,
        Fault::InvalidDigit => "invalid digit found in string"@,
        Fault::TooLarge => "number too large to fit in target type"@,
    }
}

/// The text of the error for a quota line that is empty.
pub open spec fn no_descriptors_text() -> Seq<char> {
    "Row or column descriptors must not be empty"@
}

/// The text of the error for an input of fewer than three lines.
pub open spec fn too_few_lines_text() -> Seq<char> {
    "Too few lines.  There must be at least 3."@
}

/// White space: the characters that are dropped from both ends of a
/// number's text.
pub open spec fn is_blank(c: char) -> bool {
    let n = c as u32;
    ||| 0x09 <= n <= 0x0d
    ||| n == 0x20
    ||| n == 0x85
    ||| n == 0xa0
    ||| n == 0x1680
    ||| 0x2000 <= n <= 0x200a
    ||| n == 0x2028
    ||| n == 0x2029
    ||| n == 0x202f
    ||| n == 0x205f
    ||| n == 0x3000
}

/// The number of blanks at the start of a text.
pub open spec fn leading_blanks(s: Seq<char>) -> nat
    decreases s.len(),
{
    if s.len() > 0 && is_blank(s[0]) {
        1 + leading_blanks(s.drop_first())
    } else {
        0
    }
}

/// The number of blanks at the end of a text.
pub open spec fn trailing_blanks(s: Seq<char>) -> nat
    decreases s.len(),
{
    if s.len() > 0 && is_blank(s.last()) {
        1 + trailing_blanks(s.drop_last())
    } else {
        0
    }
}

/// A text without the blanks at its start and at its end.
pub open spec fn trimmed(s: Seq<char>) -> Seq<char> {
    if leading_blanks(s) == s.len() {
        Seq::empty()
    } else {
        s.subrange(leading_blanks(s) as int, s.len() - trailing_blanks(s))
    }
}

/// The parts of a text between its commas.  A text without a comma is
/// one part, the empty text too.
pub open spec fn pieces(s: Seq<char>) -> Seq<Seq<char>>
    decreases s.len(),
{
    if s.len() == 0 {
        seq![Seq::empty()]
    } else {
        let before = pieces(s.drop_last());
        if s.last() == ',' {
            before.push(Seq::empty())
        } else {
            before.update(before.len() - 1, before.last().push(s.last()))
        }
    }
}

/// The value of a decimal digit.
pub open spec fn digit_value(c: char) -> Option<nat> {
    if '0' <= c <= '9' {
        Some((c as u32 - '0' as u32) as nat)
    } else {
        None
    }
}

/// The number that the first `upto` characters of a text spell when
/// read as decimal digits from the left, or the first fault met: a
/// character that is no digit, or a value that outgrows `usize`.
pub open spec fn digits_read(s: Seq<char>, upto: nat) -> Result<nat, Fault>
    decreases upto,
{
    if upto == 0 {
        Ok(0)
    } else {
        match digits_read(s, (upto - 1) as nat) {
            Err(fault) => Err(fault),
            Ok(value) => match digit_value(s[upto - 1]) {
                None => Err(Fault::InvalidDigit),
                Some(d) => if value * 10 + d > usize::MAX {
                    Err(Fault::TooLarge)
                } else {
                    Ok(value * 10 + d)
                },
            },
        }
    }
}

/// The number that a text spells: decimal digits, which a `+` may
/// precede.
pub open spec fn number_read(s: Seq<char>) -> Result<nat, Fault> {
    if s.len() == 0 {
        Err(Fault::Empty)
    } else if s.len() == 1 && (s[0] == '+' || s[0] == '-') {
        Err(Fault::InvalidDigit)
    } else if s[0] == '+' {
        digits_read(s.drop_first(), (s.len() - 1) as nat)
    } else {
        digits_read(s, s.len())
    }
}

/// The numbers that the first `upto` parts spell, each without the
/// blanks round it, or the fault of the first part that spells none.
pub open spec fn numbers_read(parts: Seq<Seq<char>>, upto: nat) -> Result<Seq<usize>, Fault>
    decreases upto,
{
    if upto == 0 {
        Ok(Seq::empty())
    } else {
        match numbers_read(parts, (upto - 1) as nat) {
            Err(fault) => Err(fault),
            Ok(values) => match number_read(trimmed(parts[upto - 1])) {
                Err(fault) => Err(fault),
                Ok(value) => Ok(values.push(value as usize)),
            },
        }
    }
}

/// The quotas that a line of text gives: numbers separated by commas,
/// with blanks allowed round each.  Else the text of the error.
pub open spec fn descriptors(s: Seq<char>) -> Result<Seq<usize>, Seq<char>> {
    if s.len() == 0 {
        Err(no_descriptors_text())
    } else {
        match numbers_read(pieces(s), pieces(s).len()) {
            Ok(values) => Ok(values),
            Err(fault) => Err(fault_text(fault)),
        }
    }
}

/// Whether a character is white space.
fn blank(c: char) -> (b: bool)
    ensures
        b == is_blank(c),
{
    let n: u32 = c as u32;
    (0x09 <= n && n <= 0x0d) || n == 0x20 || n == 0x85 || n == 0xa0 || n == 0x1680 || (0x2000 <= n
        && n <= 0x200a) || n == 0x2028 || n == 0x2029 || n == 0x202f || n == 0x205f || n
        == 0x3000
}

/// The texts held by a list of character vectors.
pub open spec fn texts_of(parts: Seq<Vec<char>>) -> Seq<Seq<char>> {
    Seq::new(parts.len(), |i: int| parts[i]@)
}

/// Split a text at its commas.
fn split_commas(s: &str) -> (parts: Vec<Vec<char>>)
    ensures
        texts_of(parts@) == pieces(s@),
{
    let mut parts: Vec<Vec<char>> = Vec::new();
    let mut part: Vec<char> = Vec::new();
    for c in it: s.chars()
        invariant
            it.seq() == s@,
            texts_of(parts@).push(part@) == pieces(s@.take(it.index() as int)),
    {
        let ghost i = it.index() as int;
        assert(s@.take(i + 1).drop_last() =~= s@.take(i));
        assert(s@.take(i + 1).last() == c);
        if c == ',' {
            assert(texts_of(parts@.push(part)) =~= texts_of(parts@).push(part@));
            parts.push(part);
            part = Vec::new();
        } else {
            part.push(c);
            assert(texts_of(parts@).push(part@) =~= pieces(s@.take(i + 1)));
        }
    }
    assert(s@.take(s@.len() as int) =~= s@);
    assert(texts_of(parts@.push(part)) =~= texts_of(parts@).push(part@));
    parts.push(part);
    parts
}

/// The blanks at the start of a text are those before a place up to
/// which all is blank, and those from there on.
proof fn leading_blanks_from(s: Seq<char>, k: int)
    requires
        0 <= k <= s.len(),
        forall|i: int| 0 <= i < k ==> is_blank(s[i]),
    ensures
        leading_blanks(s) == k + leading_blanks(s.skip(k)),
    decreases k,
{
    if k > 0 {
        leading_blanks_from(s.drop_first(), k - 1);
        assert(s.drop_first().skip(k - 1) =~= s.skip(k));
    } else {
        assert(s.skip(0) =~= s);
    }
}

/// The blanks at the end of a text are those after a place from which
/// on all is blank, and those before it.
proof fn trailing_blanks_from(s: Seq<char>, k: int)
    requires
        0 <= k <= s.len(),
        forall|i: int| k <= i < s.len() ==> is_blank(s[i]),
    ensures
        trailing_blanks(s) == (s.len() - k) + trailing_blanks(s.take(k)),
    decreases s.len() - k,
{
    if k < s.len() {
        trailing_blanks_from(s.drop_last(), k);
        assert(s.drop_last().take(k) =~= s.take(k));
    } else {
        assert(s.take(k) =~= s);
    }
}

/// Where the text without the blanks round it starts and ends.
fn trim(part: &Vec<char>) -> (bounds: (usize, usize))
    ensures
        bounds.0 <= bounds.1 <= part@.len(),
        part@.subrange(bounds.0 as int, bounds.1 as int) == trimmed(part@),
{
    let len: usize = part.len();
    let mut start: usize = 0;
    while start < len && blank(part[start])
        invariant
            len == part@.len(),
            start <= len,
            forall|i: int| 0 <= i < start ==> is_blank(part@[i]),
        decreases len - start,
    {
        start += 1;
    }
    proof {
        leading_blanks_from(part@, start as int);
        if start < len {
            assert(part@.skip(start as int)[0] == part@[start as int]);
        }
    }
    if start == len {
        assert(part@.subrange(len as int, len as int) =~= Seq::<char>::empty());
        return (len, len);
    }
    let mut end: usize = len;
    while end > start + 1 && blank(part[end - 1])
        invariant
            len == part@.len(),
            start < end <= len,
            !is_blank(part@[start as int]),
            forall|i: int| end <= i < len ==> is_blank(part@[i]),
        decreases end,
    {
        end -= 1;
    }
    proof {
        trailing_blanks_from(part@, end as int);
        assert(part@.take(end as int).last() == part@[end - 1]);
    }
    (start, end)
}

/// The value of a character as a decimal digit.
fn digit_of(c: char) -> (d: Option<usize>)
    ensures
        match d {
            Some(v) => digit_value(c) == Some(v as nat),
            None => digit_value(c) is None,
        },
{
    let n: u32 = c as u32;
    if 0x30 <= n && n <= 0x39 {
        Some((n - 0x30) as usize)
    } else {
        None
    }
}

/// Read the part of `part` between `start` and `end` as a number.
fn read_number(part: &Vec<char>, start: usize, end: usize) -> (res: Result<usize, Fault>)
    requires
        start <= end <= part@.len(),
    ensures
        match res {
            Ok(value) => number_read(part@.subrange(start as int, end as int)) == Ok::<nat, Fault>(
                value as nat,
            ),
            Err(fault) => number_read(part@.subrange(start as int, end as int)) == Err::<
                nat,
                Fault,
            >(fault),
        },
{
    let ghost text = part@.subrange(start as int, end as int);
    if start == end {
        return Err(Fault::Empty);
    }
    let first = part[start];
    assert(text[0] == first);
    if end - start == 1 && (first == '+' || first == '-') {
        return Err(Fault::InvalidDigit);
    }
    let from: usize = if first == '+' { start + 1 } else { start };
    let ghost body = part@.subrange(from as int, end as int);
    assert(body =~= if first == '+' { text.drop_first() } else { text });
    assert(number_read(text) == digits_read(body, body.len()));
    let mut value: usize = 0;
    for i in from..end
        invariant
            from <= end <= part@.len(),
            text == part@.subrange(start as int, end as int),
            body == part@.subrange(from as int, end as int),
            number_read(text) == digits_read(body, body.len()),
            digits_read(body, (i - from) as nat) == Ok::<nat, Fault>(value as nat),
    {
        assert(body[i - from] == part@[i as int]);
        match digit_of(part[i]) {
            None => {
                proof {
                    digits_read_stays_faulty(body, (i - from + 1) as nat, body.len());
                }
                return Err(Fault::InvalidDigit);
            },
            Some(d) => {
                let next = match value.checked_mul(10) {
                    None => None,
                    Some(tens) => tens.checked_add(d),
                };
                match next {
                    None => {
                        proof {
                            digits_read_stays_faulty(body, (i - from + 1) as nat, body.len());
                        }
                        return Err(Fault::TooLarge);
                    },
                    Some(more) => {
                        value = more;
                    },
                }
            },
        }
    }
    Ok(value)
}

/// Once a fault was met, reading on meets the same fault.
proof fn digits_read_stays_faulty(s: Seq<char>, from: nat, upto: nat)
    requires
        from <= upto,
        digits_read(s, from) is Err,
    ensures
        digits_read(s, upto) == digits_read(s, from),
    decreases upto,
{
    if from < upto {
        digits_read_stays_faulty(s, from, (upto - 1) as nat);
    }
}

/// Once a part spelled no number, reading further parts reports the
/// same fault.
proof fn numbers_read_stays_faulty(parts: Seq<Seq<char>>, from: nat, upto: nat)
    requires
        from <= upto,
        numbers_read(parts, from) is Err,
    ensures
        numbers_read(parts, upto) == numbers_read(parts, from),
    decreases upto,
{
    if from < upto {
        numbers_read_stays_faulty(parts, from, (upto - 1) as nat);
    }
}

/// The text that reports a fault.
fn describe(fault: Fault) -> (e: String)
    ensures
        e@ == fault_text(fault),
{
    match fault {
        Fault::Empty => String::from_str("cannot parse integer from empty string"),
        Fault::InvalidDigit => String::from_str("invalid digit found in string"),
        Fault::TooLarge => String::from_str("number too large to fit in target type"),
    }
}

/// Read the quotas that a line gives: numbers separated by commas, with
/// blanks allowed round each.
///
/// Fails on an empty line, and on the first part that spells no number
/// that fits a `usize`.
pub fn read_camps(s: &str) -> (res: Result<Vec<usize>, String>)
    ensures
        match res {
            Ok(camps) => descriptors(s@) == Ok::<Seq<usize>, Seq<char>>(camps@),
            Err(e) => descriptors(s@) == Err::<Seq<usize>, Seq<char>>(e@),
        },
{
    if s.is_empty() {
        return Err(String::from_str("Row or column descriptors must not be empty"));
    }
    let parts = split_commas(s);
    let total: usize = parts.len();
    let mut camps: Vec<usize> = Vec::new();
    for i in 0..total
        invariant
            total == parts@.len(),
            s@.len() > 0,
            texts_of(parts@) == pieces(s@),
            numbers_read(pieces(s@), i as nat) == Ok::<Seq<usize>, Fault>(camps@),
    {
        assert(texts_of(parts@)[i as int] == parts@[i as int]@);
        let bounds = trim(&parts[i]);
        match read_number(&parts[i], bounds.0, bounds.1) {
            Ok(value) => {
                camps.push(value);
            },
            Err(fault) => {
                proof {
                    numbers_read_stays_faulty(pieces(s@), (i + 1) as nat, pieces(s@).len());
                }
                return Err(describe(fault));
            },
        }
    }
    Ok(camps)
}

/// The texts held by a list of strings.
pub open spec fn lines_of(lines: Seq<String>) -> Seq<Seq<char>> {
    Seq::new(lines.len(), |i: int| lines[i]@)
}

/// The lines from place `from` up to, not including, place `upto`, put
/// together with a line break between each two.
pub open spec fn joined(lines: Seq<Seq<char>>, from: int, upto: int) -> Seq<char>
    decreases upto - from,
{
    if upto <= from {
        Seq::empty()
    } else if upto == from + 1 {
        lines[from]
    } else {
        joined(lines, from, upto - 1).push('\n') + lines[upto - 1]
    }
}

/// Read a puzzle from its lines: the row quotas, the column quotas, and
/// from the third line on the rows of the table.
///
/// Fails if there are fewer than three lines, if a quota line cannot be
/// read, if the table holds a character that is no tile, or if its size
/// is not the one the quotas call for.
pub fn analyze_stdin(lines: Vec<String>) -> (res: Result<Board, String>)
    ensures
        match res {
            Ok(board) => {
                &&& lines@.len() >= 3
                &&& descriptors(lines@[0]@) == Ok::<Seq<usize>, Seq<char>>(board.rows@)
                &&& descriptors(lines@[1]@) == Ok::<Seq<usize>, Seq<char>>(board.columns@)
                &&& readable(joined(lines_of(lines@), 2, lines@.len() as int))
                &&& board.grid@ == table_of_text(joined(lines_of(lines@), 2, lines@.len() as int))
                &&& board.well_formed()
            },
            Err(e) => {
                ||| lines@.len() < 3 && e@ == too_few_lines_text()
                ||| lines@.len() >= 3 && descriptors(lines@[0]@) == Err::<Seq<usize>, Seq<char>>(
                    e@,
                )
                ||| {
                    &&& lines@.len() >= 3
                    &&& descriptors(lines@[0]@) is Ok
                    &&& descriptors(lines@[1]@) == Err::<Seq<usize>, Seq<char>>(e@)
                }
                ||| {
                    &&& lines@.len() >= 3
                    &&& descriptors(lines@[0]@) is Ok
                    &&& descriptors(lines@[1]@) is Ok
                    &&& exists|at: int|
                        first_stray(joined(lines_of(lines@), 2, lines@.len() as int), at) && e@
                            == unknown_tile_text(
                            joined(lines_of(lines@), 2, lines@.len() as int)[at],
                        )
                }
                ||| {
                    &&& lines@.len() >= 3
                    &&& descriptors(lines@[0]@) is Ok
                    &&& descriptors(lines@[1]@) is Ok
                    &&& readable(joined(lines_of(lines@), 2, lines@.len() as int))
                    &&& !fits(
                        table_of_text(joined(lines_of(lines@), 2, lines@.len() as int)),
                        descriptors(lines@[0]@)->Ok_0.len(),
                        descriptors(lines@[1]@)->Ok_0.len(),
                    )
                    &&& e@ == size_mismatch_text()
                }
            },
        },
{
    let total: usize = lines.len();
    if total < 3 {
        return Err(String::from_str("Too few lines.  There must be at least 3."));
    }
    let rows = match read_camps(lines[0].as_str()) {
        Ok(rows) => rows,
        Err(e) => {
            return Err(e);
        },
    };
    let columns = match read_camps(lines[1].as_str()) {
        Ok(columns) => columns,
        Err(e) => {
            return Err(e);
        },
    };
    let ghost all = lines_of(lines@);
    let mut text = String::new();
    for i in 2..total
        invariant
            total == lines@.len(),
            all == lines_of(lines@),
            text@ == joined(all, 2, i as int),
    {
        if i != 2 {
            text.push('\n');
        }
        assert(all[i as int] == lines@[i as int]@);
        text.append(lines[i].as_str());
    }
    Board::new_parse(rows, columns, text.as_str())
}

} // verus!
