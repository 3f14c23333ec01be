//! Transaction records: one line of text per purchase.

use vstd::prelude::*;

verus! {

/// The fields of a line, which commas separate.
pub open spec fn split_fields(line: Seq<char>) -> Seq<Seq<char>>
    decreases line.len(),
{
    if line.len() == 0 {
        seq![Seq::<char>::empty()]
    } else {
        let before = split_fields(line.drop_last());
        if line.last() == ',' {
            before.push(Seq::<char>::empty())
        } else {
            before.update(before.len() - 1, before.last().push(line.last()))
        }
    }
}

/// `String::push`: the character is appended.
#[verifier::external_body]
fn push_char(text: &mut String, c: char)
    ensures
        final(text)@ == old(text)@.push(c),
{
    text.push(c);
}

/// The fields of `line`, which commas separate. A line without a comma has
/// one field, and so has the empty line.
pub fn fields_of(line: &str) -> (fields: Vec<String>)
    ensures
        fields.len() == split_fields(line@).len(),
        forall|k: int| 0 <= k < fields.len() ==> (#[trigger] fields[k])@ == split_fields(line@)[k],
{
    broadcast use vstd::string::group_string_axioms;

    let mut done: Vec<String> = Vec::new();
    let mut current = String::new();
    assert(line@.take(0) =~= Seq::<char>::empty());
    for c in it: line.chars()
        invariant
            it.seq() == line@,
            done.len() + 1 == split_fields(line@.take(it.index() as int)).len(),
            forall|k: int|
                0 <= k < done.len() ==> (#[trigger] done[k])@ == split_fields(
                    line@.take(it.index() as int),
                )[k],
            current@ == split_fields(line@.take(it.index() as int)).last(),
    {
        proof {
            let upto = line@.take(it.index() + 1);
            assert(upto.drop_last() =~= line@.take(it.index() as int));
            assert(upto.last() == c);
        }
        if c == ',' {
            done.push(current);
            current = String::new();
        } else {
            push_char(&mut current, c);
        }
    }
    assert(line@.take(line@.len() as int) =~= line@);
    done.push(current);
    done
}

/// One purchase: a user bought a product.
#[derive(Debug)]
pub struct Record {
    pub product_id: String,
    pub user_id: String,
    pub category: String,
    pub price: String,
    pub name: String,
}

/// The text of a [`Record`].
pub struct RecordView {
    pub product_id: Seq<char>,
    pub user_id: Seq<char>,
    pub category: Seq<char>,
    pub price: Seq<char>,
    pub name: Seq<char>,
}

impl View for Record {
    type V = RecordView;

    open spec fn view(&self) -> RecordView {
        RecordView {
            product_id: self.product_id@,
            user_id: self.user_id@,
            category: self.category@,
            price: self.price@,
            name: self.name@,
        }
    }
}

/// What keeps a line from holding a record.
#[derive(Debug, Clone, Copy, PartialEq, Eq, Structural)]
pub enum LineFault {
    /// The line has fewer than five fields.
    MissingField,
    /// The price field is no number.
    BadPrice,
}

/// Why the text could not be read as records: the fault of the first line
/// behind the header that holds no record, with the position of that line,
/// counted from zero with the header.
#[derive(Debug, Clone, Copy, PartialEq, Eq, Structural)]
pub enum RecordError {
    /// The line at this position has fewer than five fields.
    MissingField(usize),
    /// The price field of the line at this position is no number.
    BadPrice(usize),
}

/// Whether `c` is a decimal digit.
pub open spec fn is_digit(c: char) -> bool {
    '0' <= c && c <= '9'
}

/// Whether `c` is a sign.
pub open spec fn is_sign(c: char) -> bool {
    c == '+' || c == '-'
}

/// Where the run of digits that starts at `from` ends.
pub open spec fn digit_run(text: Seq<char>, from: int) -> int
    decreases text.len() - from,
{
    if 0 <= from < text.len() && is_digit(text[from]) {
        digit_run(text, from + 1)
    } else {
        from
    }
}

/// Whether `text` is `word`, whatever the case of its letters. `word` gives
/// the letters in lower case and `upper` in upper case.
pub open spec fn is_word(text: Seq<char>, word: Seq<char>, upper: Seq<char>) -> bool {
    text.len() == word.len() && forall|i: int|
        0 <= i < text.len() ==> (#[trigger] text[i]) == word[i] || text[i] == upper[i]
}

/// Whether `text`, behind position `start`, is one of the names of a number
/// that is not finite or not a number at all.
pub open spec fn is_named_value(text: Seq<char>, start: int) -> bool {
    let rest = text.skip(start);
    is_word(rest, "inf"@, "INF"@) || is_word(rest, "infinity"@, "INFINITY"@) || is_word(
        rest,
        "nan"@,
        "NAN"@,
    )
}

/// Whether `text` is a number as the prices of the table are written: an
/// optional sign, then either a name (`inf`, `infinity`, `nan`, in any case)
/// or digits with at most one point among them and at least one digit, and
/// after those an optional exponent (`e` or `E`, an optional sign, and at
/// least one digit). Nothing may stand before, between or behind.
pub open spec fn is_number(text: Seq<char>) -> bool {
    let start: int = if text.len() > 0 && is_sign(text[0]) {
        1
    } else {
        0
    };
    let whole = digit_run(text, start);
    let pointed = whole < text.len() && text[whole] == '.';
    let mantissa = if pointed {
        digit_run(text, whole + 1)
    } else {
        whole
    };
    let digits = if pointed {
        mantissa - start - 1
    } else {
        mantissa - start
    };
    let exponent: int = if mantissa + 1 < text.len() && is_sign(text[mantissa + 1]) {
        mantissa + 2
    } else {
        mantissa + 1
    };
    is_named_value(text, start) || (digits >= 1 && (mantissa == text.len() || ((text[mantissa]
        == 'e' || text[mantissa] == 'E') && exponent < text.len() && digit_run(text, exponent)
        == text.len())))
}

/// What keeps the line from holding a record, if anything does.
pub open spec fn fault_of(line: Seq<char>) -> Option<LineFault> {
    let fields = split_fields(line);
    if fields.len() < 5 {
        Some(LineFault::MissingField)
    } else if !is_number(fields[3]) {
        Some(LineFault::BadPrice)
    } else {
        None
    }
}

/// The record that a line holds: its first five fields are the product, the
/// user, the category, the price and the name; further fields are ignored. A
/// line with fewer than five fields holds no record, nor does a line whose
/// price is no number.
pub open spec fn record_of(line: Seq<char>) -> Option<RecordView> {
    let fields = split_fields(line);
    if fault_of(line) is None {
        Some(
            RecordView {
                product_id: fields[0],
                user_id: fields[1],
                category: fields[2],
                price: fields[3],
                name: fields[4],
            },
        )
    } else {
        None
    }
}

/// Whether the error names the first line behind the header that holds no
/// record, and the fault of that line.
pub open spec fn first_fault(lines: Seq<Seq<char>>, error: RecordError) -> bool {
    let at = match error {
        RecordError::MissingField(at) => at,
        RecordError::BadPrice(at) => at,
    };
    &&& 1 <= at < lines.len()
    &&& fault_of(lines[at as int]) == Some(
        match error {
            RecordError::MissingField(_) => LineFault::MissingField,
            RecordError::BadPrice(_) => LineFault::BadPrice,
        },
    )
    &&& forall|i: int| 1 <= i < at ==> record_of(#[trigger] lines[i]) is Some
}

/// The text of each line.
pub open spec fn line_texts(lines: Seq<String>) -> Seq<Seq<char>> {
    Seq::new(lines.len(), |k: int| lines[k]@)
}

/// The characters of a text.
fn chars_of(text: &str) -> (chars: Vec<char>)
    ensures
        chars@ == text@,
{
    broadcast use vstd::string::group_string_axioms;

    let mut chars: Vec<char> = Vec::new();
    assert(text@.take(0) =~= Seq::<char>::empty());
    for c in it: text.chars()
        invariant
            it.seq() == text@,
            chars@ == text@.take(it.index() as int),
    {
        chars.push(c);
        assert(chars@ =~= text@.take(it.index() + 1));
    }
    assert(text@.take(text@.len() as int) =~= text@);
    chars
}

/// Where the run of digits that starts at `from` ends.
fn end_of_digits(chars: &Vec<char>, from: usize) -> (end: usize)
    requires
        from <= chars.len(),
    ensures
        end == digit_run(chars@, from as int),
        from <= end <= chars.len(),
{
    let mut end: usize = from;
    while end < chars.len() && '0' <= chars[end] && chars[end] <= '9'
        invariant
            from <= end <= chars.len(),
            digit_run(chars@, end as int) == digit_run(chars@, from as int),
        decreases chars.len() - end,
    {
        end += 1;
    }
    end
}

/// Whether the characters behind position `start` spell `word`, whatever the
/// case of the letters.
fn spells(chars: &Vec<char>, start: usize, word: &str, upper: &str) -> (found: bool)
    requires
        start <= chars.len(),
        word@.len() == upper@.len(),
    ensures
        found == is_word(chars@.skip(start as int), word@, upper@),
{
    let n = word.unicode_len();
    if chars.len() - start != n {
        return false;
    }
    let mut i: usize = 0;
    while i < n
        invariant
            i <= n,
            n == word@.len(),
            n == upper@.len(),
            chars.len() - start == n,
            forall|k: int|
                0 <= k < i ==> (#[trigger] chars@.skip(start as int)[k]) == word@[k] || chars@.skip(
                    start as int,
                )[k] == upper@[k],
        decreases n - i,
    {
        let c = chars[start + i];
        assert(c == chars@.skip(start as int)[i as int]);
        if c != word.get_char(i) && c != upper.get_char(i) {
            return false;
        }
        i += 1;
    }
    true
}

/// Whether `text` is a number as the prices of the table are written.
pub fn is_number_text(text: &str) -> (found: bool)
    ensures
        found == is_number(text@),
{
    let chars = chars_of(text);
    let n = chars.len();
    let start: usize = if n > 0 && (chars[0] == '+' || chars[0] == '-') {
        1
    } else {
        0
    };
    proof {
        reveal_strlit("inf");
        reveal_strlit("INF");
        reveal_strlit("infinity");
        reveal_strlit("INFINITY");
        reveal_strlit("nan");
        reveal_strlit("NAN");
    }
    if spells(&chars, start, "inf", "INF") || spells(&chars, start, "infinity", "INFINITY")
        || spells(&chars, start, "nan", "NAN") {
        return true;
    }
    let whole = end_of_digits(&chars, start);
    let pointed = whole < n && chars[whole] == '.';
    let mantissa = if pointed {
        end_of_digits(&chars, whole + 1)
    } else {
        whole
    };
    let digits = if pointed {
        mantissa - start - 1
    } else {
        mantissa - start
    };
    if digits < 1 {
        return false;
    }
    if mantissa == n {
        return true;
    }
    if chars[mantissa] != 'e' && chars[mantissa] != 'E' {
        return false;
    }
    let exponent: usize = if mantissa + 1 < n && (chars[mantissa + 1] == '+' || chars[mantissa + 1]
        == '-') {
        mantissa + 2
    } else {
        mantissa + 1
    };
    exponent < n && end_of_digits(&chars, exponent) == n
}

/// Reads one line as a record.
pub fn parse_record(line: &str) -> (res: Result<Record, LineFault>)
    ensures
        match res {
            Ok(record) => record_of(line@) == Some(record@),
            Err(fault) => fault_of(line@) == Some(fault),
        },
{
    let fields = fields_of(line);
    if fields.len() < 5 {
        return Err(LineFault::MissingField);
    }
    if !is_number_text(fields[3].as_str()) {
        return Err(LineFault::BadPrice);
    }
    Ok(
        Record {
            product_id: fields[0].clone(),
            user_id: fields[1].clone(),
            category: fields[2].clone(),
            price: fields[3].clone(),
            name: fields[4].clone(),
        },
    )
}

/// Reads the lines of a table as records. The first line is the header and
/// is skipped; every other line has to hold a record, and the first one that
/// does not is reported with its fault.
pub fn parse_records(lines: &Vec<String>) -> (res: Result<Vec<Record>, RecordError>)
    ensures
        match res {
            Ok(records) => {
                &&& records.len() == (if lines.len() == 0 {
                    0
                } else {
                    lines.len() - 1
                })
                &&& forall|i: int|
                    0 <= i < records.len() ==> record_of(lines[i + 1]@) == Some(
                        (#[trigger] records[i])@,
                    )
            },
            Err(error) => first_fault(line_texts(lines@), error),
        },
{
    let mut records: Vec<Record> = Vec::new();
    let mut at: usize = 1;
    while at < lines.len()
        invariant
            1 <= at,
            lines.len() > 0 ==> at <= lines.len(),
            lines.len() == 0 ==> at == 1,
            records.len() == at - 1,
            forall|i: int|
                0 <= i < records.len() ==> record_of(lines[i + 1]@) == Some((#[trigger] records[i])@),
        decreases lines.len() - at,
    {
        match parse_record(lines[at].as_str()) {
            Ok(record) => {
                records.push(record);
            },
            Err(fault) => {
                assert forall|i: int| 1 <= i < at implies record_of(
                    #[trigger] line_texts(lines@)[i],
                ) is Some by {
                    assert(record_of(lines[(i - 1) + 1]@) == Some(records[i - 1]@));
                }
                assert(line_texts(lines@)[at as int] == lines[at as int]@);
                return Err(
                    match fault {
                        LineFault::MissingField => RecordError::MissingField(at),
                        LineFault::BadPrice => RecordError::BadPrice(at),
                    },
                );
            },
        }
        at += 1;
    }
    Ok(records)
}

} // verus!
