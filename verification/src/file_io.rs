//! The lines of the statistics file. A line holds fields separated by
//! commas. The first line holds the counts of the whole run; every other
//! line holds the label of a starting hand and then its counts.

use vstd::prelude::*;
use vstd::string::*;
use crate::stats::{HandStats, NUM_STATS, NUM_TOTAL_STATS, Tally};

verus! {

/// Whether a character is white space: the characters that Unicode gives the
/// property White_Space.
pub open spec fn is_space(c: char) -> bool {
    let code = c as u32;
    ||| 0x9 <= code <= 0xd
    ||| code == 0x20
    ||| code == 0x85
    ||| code == 0xa0
    ||| code == 0x1680
    ||| 0x2000 <= code <= 0x200a
    ||| code == 0x2028
    ||| code == 0x2029
    ||| code == 0x202f
    ||| code == 0x205f
    ||| code == 0x3000
}

/// Whether a character is one of the digits `0` to `9`.
pub open spec fn is_digit(c: char) -> bool {
    0x30 <= c as u32 <= 0x39
}

/// The text without the white space at its start.
pub open spec fn trim_start(text: Seq<char>) -> Seq<char>
    decreases text.len(),
{
    if text.len() > 0 && is_space(text.first()) {
        trim_start(text.drop_first())
    } else {
        text
    }
}

/// The text without the white space at its end.
pub open spec fn trim_end(text: Seq<char>) -> Seq<char>
    decreases text.len(),
{
    if text.len() > 0 && is_space(text.last()) {
        trim_end(text.drop_last())
    } else {
        text
    }
}

/// The text without the white space at its start and at its end.
pub open spec fn trimmed(text: Seq<char>) -> Seq<char> {
    trim_end(trim_start(text))
}

/// The fields of a line: the stretches between its commas. A line without a
/// comma is one field, and an empty line is one empty field.
pub open spec fn split_fields(line: Seq<char>) -> Seq<Seq<char>>
    decreases line.len(),
{
    if line.len() == 0 {
        seq![Seq::empty()]
    } else {
        let before = split_fields(line.drop_last());
        if line.last() == ',' {
            before.push(Seq::empty())
        } else {
            before.drop_last().push(before.last().push(line.last()))
        }
    }
}

/// The number that a row of digits writes in base ten.
pub open spec fn digits_value(digits: Seq<char>) -> nat
    decreases digits.len(),
{
    if digits.len() == 0 {
        0
    } else {
        digits_value(digits.drop_last()) * 10 + (digits.last() as u32 - 0x30) as nat
    }
}

/// Every character of the text is a digit.
pub open spec fn all_digits(text: Seq<char>) -> bool {
    forall|i: int| 0 <= i < text.len() ==> is_digit(#[trigger] text[i])
}

/// The number that a text writes: one digit or more, which may follow a plus
/// sign, and whose value a `u32` can hold. Any other text writes no number.
pub open spec fn number_of(text: Seq<char>) -> Option<u32> {
    let digits = if text.len() > 0 && text.first() == '+' {
        text.drop_first()
    } else {
        text
    };
    if digits.len() > 0 && all_digits(digits) && digits_value(digits) <= u32::MAX {
        Some(digits_value(digits) as u32)
    } else {
        None
    }
}

/// The numbers that the fields write, in order. A field is read without the
/// white space around it, and a field that writes no number is passed over.
pub open spec fn numbers_in(fields: Seq<Seq<char>>) -> Seq<u32>
    decreases fields.len(),
{
    if fields.len() == 0 {
        Seq::empty()
    } else {
        let before = numbers_in(fields.drop_last());
        match number_of(trimmed(fields.last())) {
            Some(number) => before.push(number),
            None => before,
        }
    }
}

/// What a list of strings is to the contracts.
pub open spec fn strings_view(strings: Seq<String>) -> Seq<Seq<char>> {
    Seq::new(strings.len(), |i: int| strings[i]@)
}

/// The counts of the whole run that a line holds: the first two numbers
/// among its fields. A line with fewer than two numbers holds none.
pub open spec fn total_data_of(line: Seq<char>) -> Option<(u32, u32)> {
    let numbers = numbers_in(split_fields(line));
    if numbers.len() >= 2 {
        Some((numbers[0], numbers[1]))
    } else {
        None
    }
}

/// What a line says of a starting hand: the label is the first field without
/// the white space around it, and the counts are the first two numbers among
/// the fields that follow. A line with fewer than two such numbers says
/// nothing.
pub open spec fn data_of(line: Seq<char>) -> Option<(Seq<char>, (u32, u32))> {
    let fields = split_fields(line);
    let numbers = numbers_in(fields.drop_first());
    if numbers.len() >= 2 {
        Some((trimmed(fields.first()), (numbers[0], numbers[1])))
    } else {
        None
    }
}

/// Why the records of a file could not be read.
#[derive(Clone, Copy, Debug, PartialEq, Eq, Structural)]
pub enum ReadError {
    /// There is no first record to hold the counts of the run.
    NoTotals,
    /// The first record does not hold two numbers.
    BadTotals,
    /// A later record does not hold a label and two numbers.
    BadRecord,
}

/// The tally that the lines give, each line a starting hand with its counts,
/// a later line replacing an earlier one with the same label. One line that
/// says nothing of a starting hand leaves no tally.
pub open spec fn tally_of_lines(lines: Seq<Seq<char>>) -> Option<Tally>
    decreases lines.len(),
{
    if lines.len() == 0 {
        Some(Map::empty())
    } else {
        match (tally_of_lines(lines.drop_last()), data_of(lines.last())) {
            (Some(tally), Some((label, counts))) => Some(tally.insert(label, counts)),
            _ => None,
        }
    }
}

/// What the records of a file hold: the counts of the run from the first
/// record, and the tally from the records that follow.
pub open spec fn records_hold(records: Seq<Seq<char>>) -> Result<(Tally, (u32, u32)), ReadError> {
    if records.len() == 0 {
        Err(ReadError::NoTotals)
    } else if total_data_of(records.first()) is None {
        Err(ReadError::BadTotals)
    } else if tally_of_lines(records.drop_first()) is None {
        Err(ReadError::BadRecord)
    } else {
        Ok((tally_of_lines(records.drop_first())->0, total_data_of(records.first())->0))
    }
}

/// The line of a starting hand: the label, a comma, and the counts with a
/// comma between them.
pub open spec fn line_of(hand: Seq<char>, counts: Seq<u32>) -> Seq<char> {
    hand + ","@ + joined_numbers(counts)
}

/// The digit character of a number below ten.
pub open spec fn digit_char(digit: nat) -> char {
    "0123456789"@[digit as int]
}

/// A number written in base ten, without leading zeros.
pub open spec fn decimal(number: nat) -> Seq<char>
    decreases number,
{
    if number < 10 {
        seq![digit_char(number)]
    } else {
        decimal(number / 10).push(digit_char(number % 10))
    }
}

/// The numbers written in base ten with a comma between neighbours.
pub open spec fn joined_numbers(numbers: Seq<u32>) -> Seq<char>
    decreases numbers.len(),
{
    if numbers.len() == 0 {
        Seq::empty()
    } else if numbers.len() == 1 {
        decimal(numbers[0] as nat)
    } else {
        joined_numbers(numbers.drop_last()) + ","@ + decimal(numbers.last() as nat)
    }
}

/// A field is never missing: a line has one field or more.
pub proof fn lemma_split_fields_len(line: Seq<char>)
    ensures
        split_fields(line).len() >= 1,
    decreases line.len(),
{
    if line.len() > 0 {
        lemma_split_fields_len(line.drop_last());
    }
}

/// More digits do not write a smaller number.
pub proof fn lemma_digits_value_grows(digits: Seq<char>, upto: int)
    requires
        0 <= upto <= digits.len(),
    ensures
        digits_value(digits.take(upto)) <= digits_value(digits),
    decreases digits.len() - upto,
{
    if upto < digits.len() {
        lemma_digits_value_grows(digits, upto + 1);
        assert(digits.take(upto + 1).drop_last() =~= digits.take(upto));
    } else {
        assert(digits.take(upto) =~= digits);
    }
}

/// The white-space test on a character.
fn is_space_char(c: char) -> (space: bool)
    ensures
        space == is_space(c),
{
    let code = c as u32;
    (0x9 <= code && code <= 0xd) || code == 0x20 || code == 0x85 || code == 0xa0 || code == 0x1680
        || (0x2000 <= code && code <= 0x200a) || code == 0x2028 || code == 0x2029 || code
        == 0x202f || code == 0x205f || code == 0x3000
}

/// The characters of a text.
fn chars_of(text: &str) -> (chars: Vec<char>)
    ensures
        chars@ == text@,
{
    let n = text.unicode_len();
    let mut chars: Vec<char> = Vec::new();
    let mut i: usize = 0;
    while i < n
        invariant
            i <= n == text@.len(),
            chars@ == text@.take(i as int),
        decreases n - i,
    {
        chars.push(text.get_char(i));
        assert(text@.take(i + 1) =~= text@.take(i as int).push(text@[i as int]));
        i += 1;
    }
    assert(text@.take(n as int) =~= text@);
    chars
}

/// The part of `chars` from `from` up to `to`, without the white space at
/// its two ends, as a range.
fn trim_range(chars: &Vec<char>, from: usize, to: usize) -> (range: (usize, usize))
    requires
        from <= to <= chars.len(),
    ensures
        from <= range.0 <= range.1 <= to,
        chars@.subrange(range.0 as int, range.1 as int) == trimmed(
            chars@.subrange(from as int, to as int),
        ),
{
    let mut start = from;
    while start < to && is_space_char(chars[start])
        invariant
            from <= start <= to <= chars.len(),
            trim_start(chars@.subrange(from as int, to as int)) == trim_start(
                chars@.subrange(start as int, to as int),
            ),
        decreases to - start,
    {
        assert(chars@.subrange(start as int, to as int).drop_first() =~= chars@.subrange(
            start + 1,
            to as int,
        ));
        start += 1;
    }
    let mut end = to;
    while end > start && is_space_char(chars[end - 1])
        invariant
            start <= end <= to <= chars.len(),
            trim_end(chars@.subrange(start as int, to as int)) == trim_end(
                chars@.subrange(start as int, end as int),
            ),
        decreases end,
    {
        assert(chars@.subrange(start as int, end as int).drop_last() =~= chars@.subrange(
            start as int,
            end - 1,
        ));
        end -= 1;
    }
    (start, end)
}

/// The number that the part of `chars` from `from` up to `to` writes.
fn number_in_range(chars: &Vec<char>, from: usize, to: usize) -> (number: Option<u32>)
    requires
        from <= to <= chars.len(),
    ensures
        number == number_of(chars@.subrange(from as int, to as int)),
{
    let ghost text = chars@.subrange(from as int, to as int);
    let first = if from < to && chars[from] == '+' {
        from + 1
    } else {
        from
    };
    let ghost digits = chars@.subrange(first as int, to as int);
    proof {
        if first == from + 1 {
            assert(text.drop_first() =~= digits);
        }
    }
    if first == to {
        return None;
    }
    assert(number_of(text) == if all_digits(digits) && digits_value(digits) <= u32::MAX {
        Some(digits_value(digits) as u32)
    } else {
        None
    });
    let mut value: u64 = 0;
    let mut i = first;
    assert(digits.take(0) =~= Seq::<char>::empty());
    while i < to
        invariant
            from <= first <= i <= to <= chars.len(),
            text == chars@.subrange(from as int, to as int),
            digits == chars@.subrange(first as int, to as int),
            number_of(text) == if all_digits(digits) && digits_value(digits) <= u32::MAX {
                Some(digits_value(digits) as u32)
            } else {
                None
            },
            all_digits(digits.take(i - first)),
            value == digits_value(digits.take(i - first)),
            value <= u32::MAX,
        decreases to - i,
    {
        let code = chars[i] as u32;
        proof {
            assert(digits.take(i + 1 - first).drop_last() =~= digits.take(i - first));
            assert(digits.take(i + 1 - first).last() == chars@[i as int]);
            assert(digits[i - first] == chars@[i as int]);
        }
        if code < 0x30 || code > 0x39 {
            assert(!is_digit(digits[i - first]));
            return None;
        }
        value = value * 10 + (code - 0x30) as u64;
        if value > u32::MAX as u64 {
            proof {
                lemma_digits_value_grows(digits, i + 1 - first);
            }
            return None;
        }
        proof {
            assert forall|k: int| 0 <= k < digits.take(i + 1 - first).len() implies is_digit(
                #[trigger] digits.take(i + 1 - first)[k],
            ) by {
                if k < i - first {
                    assert(digits.take(i - first)[k] == digits.take(i + 1 - first)[k]);
                }
            }
        }
        i += 1;
    }
    assert(digits.take(to - first) =~= digits);
    Some(value as u32)
}

/// The numbers among the fields of the part of `chars` from `from` on.
fn numbers_from(chars: &Vec<char>, from: usize) -> (numbers: Vec<u32>)
    requires
        from <= chars.len(),
    ensures
        numbers@ == numbers_in(split_fields(chars@.subrange(from as int, chars.len() as int))),
{
    let n = chars.len();
    let ghost line = chars@.subrange(from as int, n as int);
    let mut numbers: Vec<u32> = Vec::new();
    let mut start = from;
    let mut i = from;
    proof {
        assert(line.take(0) =~= Seq::<char>::empty());
        assert(chars@.subrange(from as int, from as int) =~= Seq::<char>::empty());
        assert(split_fields(line.take(0)).drop_last() =~= Seq::<Seq<char>>::empty());
    }
    while i < n
        invariant
            from <= start <= i <= n == chars.len(),
            line == chars@.subrange(from as int, n as int),
            split_fields(line.take(i - from)).len() >= 1,
            split_fields(line.take(i - from)).last() == chars@.subrange(start as int, i as int),
            numbers@ == numbers_in(split_fields(line.take(i - from)).drop_last()),
        decreases n - i,
    {
        let ghost before = split_fields(line.take(i - from));
        proof {
            assert(line.take(i + 1 - from).drop_last() =~= line.take(i - from));
            assert(line.take(i + 1 - from).last() == chars@[i as int]);
        }
        if chars[i] == ',' {
            let (a, b) = trim_range(chars, start, i);
            let number = number_in_range(chars, a, b);
            proof {
                assert(before.push(Seq::<char>::empty()).drop_last() =~= before);
                assert(before.drop_last().push(before.last()) =~= before);
                assert(chars@.subrange(i + 1, i + 1) =~= Seq::<char>::empty());
            }
            match number {
                Some(number) => {
                    numbers.push(number);
                },
                None => {},
            }
            start = i + 1;
        } else {
            proof {
                let after = before.drop_last().push(before.last().push(chars@[i as int]));
                assert(after.drop_last() =~= before.drop_last());
                assert(chars@.subrange(start as int, i as int).push(chars@[i as int])
                    =~= chars@.subrange(start as int, i + 1));
            }
        }
        i += 1;
    }
    let ghost fields = split_fields(line);
    proof {
        assert(line.take(n - from) =~= line);
        assert(fields.drop_last().push(fields.last()) =~= fields);
    }
    let (a, b) = trim_range(chars, start, n);
    match number_in_range(chars, a, b) {
        Some(number) => {
            numbers.push(number);
        },
        None => {},
    }
    numbers
}

/// The digit of a number below ten, as a text.
fn digit_text(digit: u32) -> (text: &'static str)
    requires
        digit < 10,
    ensures
        text@ == seq![digit_char(digit as nat)],
{
    proof {
        reveal_strlit("0123456789");
        reveal_strlit("0");
        reveal_strlit("1");
        reveal_strlit("2");
        reveal_strlit("3");
        reveal_strlit("4");
        reveal_strlit("5");
        reveal_strlit("6");
        reveal_strlit("7");
        reveal_strlit("8");
        reveal_strlit("9");
    }
    let text = match digit {
        0 => "0",
        1 => "1",
        2 => "2",
        3 => "3",
        4 => "4",
        5 => "5",
        6 => "6",
        7 => "7",
        8 => "8",
        _ => "9",
    };
    assert(text@ =~= seq![digit_char(digit as nat)]);
    text
}

/// A number written in base ten.
pub fn number_to_string(number: u32) -> (text: String)
    ensures
        text@ == decimal(number as nat),
    decreases number,
{
    if number < 10 {
        String::from_str(digit_text(number))
    } else {
        let mut text = number_to_string(number / 10);
        text.append(digit_text(number % 10));
        assert(text@ =~= decimal((number / 10) as nat).push(digit_char((number % 10) as nat)));
        text
    }
}

/// The file of a run's statistics, known by its path.
pub struct FileIO {
    file_path: String,
}

impl FileIO {
    /// The path of the file.
    pub closed spec fn path(&self) -> Seq<char> {
        self.file_path@
    }

    pub fn new(file_path: String) -> (file: Self)
        ensures
            file.path() == file_path@,
    {
        Self { file_path }
    }

    /// The path of the file.
    pub fn file_path(&self) -> (path: &String)
        ensures
            path@ == self.path(),
    {
        &self.file_path
    }

    /// Reads the counts of the whole run from the first line of the file.
    pub fn parse_total_data_from_str(line: &str) -> (total_stats: Option<[u32; 2]>)
        ensures
            total_stats is Some <==> total_data_of(line@) is Some,
            total_stats matches Some(counts) ==> total_data_of(line@) == Some(
                (counts[0], counts[1]),
            ),
    {
        let chars = chars_of(line);
        assert(chars@.subrange(0, chars.len() as int) =~= line@);
        let numbers = numbers_from(&chars, 0);
        if numbers.len() >= 2 {
            Some([numbers[0], numbers[1]])
        } else {
            None
        }
    }

    /// Reads the label and the counts of a starting hand from a line of the
    /// file.
    pub fn parse_data_from_str(line: &str) -> (data: Option<(String, [u32; 2])>)
        ensures
            data is Some <==> data_of(line@) is Some,
            data matches Some((hand, counts)) ==> data_of(line@) == Some(
                (hand@, (counts[0], counts[1])),
            ),
    {
        let chars = chars_of(line);
        let n = chars.len();
        let mut comma: usize = 0;
        while comma < n && chars[comma] != ','
            invariant
                comma <= n == chars.len(),
                forall|k: int| 0 <= k < comma ==> chars@[k] != ',',
            decreases n - comma,
        {
            comma += 1;
        }
        let rest = if comma < n {
            comma + 1
        } else {
            n
        };
        proof {
            lemma_first_field(chars@, comma as int);
        }
        let (a, b) = trim_range(&chars, 0, comma);
        let numbers = if comma < n {
            numbers_from(&chars, rest)
        } else {
            Vec::new()
        };
        if numbers.len() >= 2 {
            let hand = String::from_str(line.substring_char(a, b));
            Some((hand, [numbers[0], numbers[1]]))
        } else {
            None
        }
    }

    /// Reads the records of a file: the first holds the counts of the whole
    /// run, and each of the others a starting hand with its counts.
    pub fn read_records(
        records: &Vec<String>,
    ) -> (read: Result<(HandStats, [u32; NUM_TOTAL_STATS]), ReadError>)
        ensures
            read matches Err(error) ==> records_hold(strings_view(records@)) == Err::<
                (Tally, (u32, u32)),
                ReadError,
            >(error),
            read matches Ok((hand_stats, total_stats)) ==> hand_stats.wf() && records_hold(
                strings_view(records@),
            ) == Ok::<(Tally, (u32, u32)), ReadError>(
                (hand_stats@, (total_stats[0], total_stats[1])),
            ),
    {
        let ghost lines = strings_view(records@);
        if records.len() == 0 {
            return Err(ReadError::NoTotals);
        }
        assert(lines.first() == records[0]@);
        let total_stats = match FileIO::parse_total_data_from_str(records[0].as_str()) {
            Some(total_stats) => total_stats,
            None => {
                return Err(ReadError::BadTotals);
            },
        };
        let mut hand_stats = HandStats::new();
        let ghost rest = lines.drop_first();
        let mut i: usize = 1;
        assert(rest.take(0) =~= Seq::<Seq<char>>::empty());
        while i < records.len()
            invariant
                1 <= i <= records.len(),
                lines == strings_view(records@),
                rest == lines.drop_first(),
                total_data_of(lines.first()) == Some((total_stats[0], total_stats[1])),
                hand_stats.wf(),
                tally_of_lines(rest.take(i - 1)) == Some(hand_stats@),
            decreases records.len() - i,
        {
            proof {
                assert(rest.take(i as int).drop_last() =~= rest.take(i - 1));
                assert(rest.take(i as int).last() == records[i as int]@);
            }
            match FileIO::parse_data_from_str(records[i].as_str()) {
                Some((hand, counts)) => {
                    hand_stats.set(hand, counts);
                },
                None => {
                    proof {
                        assert(tally_of_lines(rest.take(i as int)) is None);
                        lemma_bad_line_spoils(rest, i as int);
                    }
                    return Err(ReadError::BadRecord);
                },
            }
            i += 1;
        }
        assert(rest.take(records.len() - 1) =~= rest);
        Ok((hand_stats, total_stats))
    }

    /// The line that holds a starting hand and its counts.
    pub fn record_line(hand: &str, counts: &[u32; NUM_STATS]) -> (line: String)
        ensures
            line@ == line_of(hand@, counts@),
    {
        let mut line = String::from_str(hand);
        line.append(",");
        let numbers = FileIO::array_to_string(counts.as_slice());
        line.append(numbers.as_str());
        line
    }

    /// Writes the numbers in base ten with a comma between neighbours.
    pub fn array_to_string(array: &[u32]) -> (text: String)
        ensures
            text@ == joined_numbers(array@),
    {
        let mut text = String::new();
        let mut i: usize = 0;
        while i < array.len()
            invariant
                i <= array.len(),
                text@ == joined_numbers(array@.take(i as int)),
            decreases array.len() - i,
        {
            proof {
                assert(array@.take(i + 1).drop_last() =~= array@.take(i as int));
                assert(array@.take(i + 1).last() == array@[i as int]);
            }
            if i > 0 {
                text.append(",");
            }
            let number = number_to_string(array[i]);
            text.append(number.as_str());
            i += 1;
        }
        assert(array@.take(array.len() as int) =~= array@);
        text
    }
}

/// Lines of which the first `upto` hold a line that says nothing give no
/// tally.
pub proof fn lemma_bad_line_spoils(lines: Seq<Seq<char>>, upto: int)
    requires
        0 <= upto <= lines.len(),
        tally_of_lines(lines.take(upto)) is None,
    ensures
        tally_of_lines(lines) is None,
    decreases lines.len() - upto,
{
    if upto < lines.len() {
        assert(lines.take(upto + 1).drop_last() =~= lines.take(upto));
        lemma_bad_line_spoils(lines, upto + 1);
    } else {
        assert(lines.take(upto) =~= lines);
    }
}

/// The first field of a line ends at its first comma, and the other fields
/// are the fields of what follows that comma.
pub proof fn lemma_first_field(line: Seq<char>, comma: int)
    requires
        0 <= comma <= line.len(),
        forall|k: int| 0 <= k < comma ==> line[k] != ',',
        comma < line.len() ==> line[comma] == ',',
    ensures
        split_fields(line).len() >= 1,
        split_fields(line).first() == line.subrange(0, comma),
        split_fields(line).drop_first() == if comma < line.len() {
            split_fields(line.subrange(comma + 1, line.len() as int))
        } else {
            Seq::<Seq<char>>::empty()
        },
    decreases line.len(),
{
    lemma_split_fields_len(line);
    if line.len() == 0 {
        assert(line.subrange(0, 0) =~= Seq::<char>::empty());
        assert(split_fields(line).drop_first() =~= Seq::<Seq<char>>::empty());
    } else {
        let shorter = line.drop_last();
        let before = split_fields(shorter);
        lemma_split_fields_len(shorter);
        if comma == line.len() {
            lemma_first_field(shorter, comma - 1);
            assert(shorter.subrange(0, comma - 1).push(line.last()) =~= line.subrange(0, comma));
            assert(before =~= seq![shorter.subrange(0, comma - 1)]) by {
                assert(before.drop_first().len() == 0);
            }
            assert(split_fields(line).drop_first() =~= Seq::<Seq<char>>::empty());
        } else if comma == line.len() - 1 {
            lemma_first_field(shorter, comma);
            assert(shorter.subrange(0, comma) =~= line.subrange(0, comma));
            assert(before.drop_first().len() == 0);
            assert(line.subrange(comma + 1, line.len() as int) =~= Seq::<char>::empty());
            assert(split_fields(line).drop_first() =~= seq![Seq::<char>::empty()]);
        } else {
            lemma_first_field(shorter, comma);
            assert(shorter.subrange(0, comma) =~= line.subrange(0, comma));
            let tail = line.subrange(comma + 1, line.len() as int);
            assert(tail.drop_last() =~= shorter.subrange(comma + 1, shorter.len() as int));
            assert(tail.last() == line.last());
            lemma_split_fields_len(tail.drop_last());
            if line.last() == ',' {
                assert(split_fields(line).drop_first() =~= before.drop_first().push(
                    Seq::<char>::empty(),
                ));
            } else {
                let rest = before.drop_first();
                assert(rest.len() >= 1);
                assert(split_fields(line).drop_first() =~= rest.drop_last().push(
                    rest.last().push(line.last()),
                ));
            }
        }
    }
}

} // verus!
