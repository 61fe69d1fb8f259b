//! The fields of a ballot record and what a voter wrote in a box.
//!
//! A record is a sequence of bytes. Commas part it into fields, one per box.
//! A box is blank, holds `*` or `/` for a first preference, or holds a number
//! in decimal digits, which may follow a `+`.
use vstd::prelude::*;
use vstd::slice::slice_subrange;

verus! {

/// The byte that parts the fields of a record: a comma.
pub const COMMA: u8 = 44;

/// A tick: the byte `*`.
pub const STAR: u8 = 42;

/// A cross: the byte `/`.
pub const SLASH: u8 = 47;

/// The sign that may stand before a number: the byte `+`.
pub const PLUS: u8 = 43;

/// The digit `0`.
pub const DIGIT_ZERO: u8 = 48;

/// The digit `9`.
pub const DIGIT_NINE: u8 = 57;

/// What a voter wrote in one box.
#[derive(PartialEq, Eq, Debug, Clone, Copy, Structural)]
pub enum Mark {
    /// Nothing.
    Blank,
    /// A preference number.
    Pref(u32),
    /// Something that is no preference.
    Invalid,
}

/// The number of bytes before the first comma, or the length where there is
/// no comma.
pub open spec fn first_comma(record: Seq<u8>) -> int
    decreases record.len(),
{
    if record.len() == 0 || record[0] == COMMA {
        0
    } else {
        1 + first_comma(record.drop_first())
    }
}

/// The fields of a record: what stands before its first comma, then the
/// fields of what follows that comma. A record without a comma is one field.
pub open spec fn fields_of(record: Seq<u8>) -> Seq<Seq<u8>>
    decreases record.len(),
{
    let n = first_comma(record);
    if 0 <= n < record.len() {
        seq![record.take(n)] + fields_of(record.skip(n + 1))
    } else {
        seq![record]
    }
}

/// The record that has the given fields: the fields with a comma between
/// each two.
pub open spec fn join_fields(fields: Seq<Seq<u8>>) -> Seq<u8>
    decreases fields.len(),
{
    if fields.len() == 0 {
        Seq::empty()
    } else if fields.len() == 1 {
        fields[0]
    } else {
        fields[0] + seq![COMMA] + join_fields(fields.drop_first())
    }
}

/// The first comma is where the spec function says: nothing before it is a
/// comma, and it is one, unless it is the end of the record.
pub proof fn lemma_first_comma(record: Seq<u8>)
    ensures
        0 <= first_comma(record) <= record.len(),
        forall|i: int| 0 <= i < first_comma(record) ==> record[i] != COMMA,
        first_comma(record) < record.len() ==> record[first_comma(record)] == COMMA,
    decreases record.len(),
{
    if record.len() == 0 || record[0] == COMMA {
    } else {
        let rest = record.drop_first();
        lemma_first_comma(rest);
        assert forall|i: int| 0 <= i < first_comma(record) implies record[i] != COMMA by {
            if i > 0 {
                assert(rest[i - 1] == record[i]);
            }
        }
    }
}

/// A position that no comma precedes, and that holds one or ends the record,
/// is the first comma.
pub proof fn lemma_first_comma_is(record: Seq<u8>, n: int)
    requires
        0 <= n <= record.len(),
        forall|i: int| 0 <= i < n ==> record[i] != COMMA,
        n < record.len() ==> record[n] == COMMA,
    ensures
        first_comma(record) == n,
{
    lemma_first_comma(record);
    let f = first_comma(record);
    if f < n {
        assert(record[f] != COMMA);
    } else if n < f {
        assert(record[n] != COMMA);
    }
}

/// Splitting loses nothing: no field holds a comma, there is one field more
/// than the record has commas between them, and the fields joined by commas
/// are the record.
pub proof fn lemma_fields_join(record: Seq<u8>)
    ensures
        fields_of(record).len() >= 1,
        forall|f: int, i: int|
            0 <= f < fields_of(record).len() && 0 <= i < fields_of(record)[f].len()
                ==> #[trigger] fields_of(record)[f][i] != COMMA,
        join_fields(fields_of(record)) == record,
    decreases record.len(),
{
    lemma_first_comma(record);
    let n = first_comma(record);
    if n < record.len() {
        let rest = record.skip(n + 1);
        lemma_fields_join(rest);
        let fields = fields_of(record);
        assert(fields.drop_first() =~= fields_of(rest));
        assert(fields[0] == record.take(n));
        assert forall|f: int, i: int|
            0 <= f < fields.len() && 0 <= i < fields[f].len() implies #[trigger] fields[f][i]
            != COMMA by {
            if f > 0 {
                assert(fields[f] == fields_of(rest)[f - 1]);
            }
        }
        assert(join_fields(fields) =~= record);
    } else {
        assert(join_fields(fields_of(record)) =~= record);
    }
}

/// The views of borrowed fields.
pub open spec fn field_views<'a>(fields: Seq<&'a [u8]>) -> Seq<Seq<u8>> {
    fields.map_values(|f: &[u8]| f@)
}

/// Parts a record into its fields.
pub fn split_fields<'a>(record: &'a [u8]) -> (fields: Vec<&'a [u8]>)
    ensures
        field_views(fields@) == fields_of(record@),
{
    let mut fields: Vec<&'a [u8]> = Vec::new();
    let mut start: usize = 0;
    let mut i: usize = 0;
    proof {
        assert(record@.skip(0) =~= record@);
        assert(field_views(fields@) + fields_of(record@) =~= fields_of(record@));
    }
    while i < record.len()
        invariant
            start <= i <= record@.len(),
            forall|j: int| start <= j < i ==> record@[j] != COMMA,
            fields_of(record@) == field_views(fields@) + fields_of(record@.skip(start as int)),
        decreases record@.len() - i,
    {
        if record[i] == COMMA {
            let field = slice_subrange(record, start, i);
            proof {
                let rest = record@.skip(start as int);
                assert forall|j: int| 0 <= j < i - start implies rest[j] != COMMA by {
                    assert(rest[j] == record@[start + j]);
                }
                lemma_first_comma_is(rest, i - start);
                assert(rest.take(i - start) =~= field@);
                assert(rest.skip(i - start + 1) =~= record@.skip(i + 1));
                assert(field_views(fields@.push(field)) =~= field_views(fields@) + seq![field@]);
            }
            fields.push(field);
            start = i + 1;
        }
        i += 1;
    }
    let last = slice_subrange(record, start, record.len());
    proof {
        let rest = record@.skip(start as int);
        assert forall|j: int| 0 <= j < rest.len() implies rest[j] != COMMA by {
            assert(rest[j] == record@[start + j]);
        }
        lemma_first_comma_is(rest, rest.len() as int);
        assert(rest =~= last@);
        assert(field_views(fields@.push(last)) =~= field_views(fields@) + seq![last@]);
    }
    fields.push(last);
    fields
}

/// Whether the byte is a decimal digit.
pub open spec fn is_digit(b: u8) -> bool {
    DIGIT_ZERO <= b <= DIGIT_NINE
}

/// What a byte counts for as a digit; a byte that is none counts for nothing.
pub open spec fn digit_value(b: u8) -> nat {
    if is_digit(b) {
        (b - DIGIT_ZERO) as nat
    } else {
        0
    }
}

/// The number that a run of decimal digits stands for.
pub open spec fn decimal_value(digits: Seq<u8>) -> nat
    decreases digits.len(),
{
    if digits.len() == 0 {
        0
    } else {
        10 * decimal_value(digits.drop_last()) + digit_value(digits.last())
    }
}

/// Whether every byte is a decimal digit.
pub open spec fn all_digits(digits: Seq<u8>) -> bool {
    forall|i: int| 0 <= i < digits.len() ==> is_digit(#[trigger] digits[i])
}

/// The digits of a field that may begin with a sign.
pub open spec fn unsigned_part(field: Seq<u8>) -> Seq<u8> {
    if field.len() > 0 && field[0] == PLUS {
        field.skip(1)
    } else {
        field
    }
}

/// The number in a box: at least one decimal digit, after a `+` or without
/// one, and a value that a `u32` holds. Anything else is no number.
pub open spec fn number_of(field: Seq<u8>) -> Option<u32> {
    let digits = unsigned_part(field);
    if digits.len() > 0 && all_digits(digits) && decimal_value(digits) <= u32::MAX {
        Some(decimal_value(digits) as u32)
    } else {
        None
    }
}

/// What a field says of its box.
pub open spec fn mark_of(field: Seq<u8>) -> Mark {
    if field.len() == 0 {
        Mark::Blank
    } else if field.len() == 1 && (field[0] == STAR || field[0] == SLASH) {
        Mark::Pref(1)
    } else {
        match number_of(field) {
            Some(n) => Mark::Pref(n),
            None => Mark::Invalid,
        }
    }
}

/// More digits never make a smaller number.
pub proof fn lemma_decimal_value_grows(digits: Seq<u8>, n: int)
    requires
        0 <= n <= digits.len(),
    ensures
        decimal_value(digits.take(n)) <= decimal_value(digits),
    decreases digits.len() - n,
{
    if n < digits.len() {
        lemma_decimal_value_grows(digits, n + 1);
        assert(digits.take(n + 1).drop_last() =~= digits.take(n));
    } else {
        assert(digits.take(n) =~= digits);
    }
}

/// Reads the number in a box.
pub fn read_number(field: &[u8]) -> (number: Option<u32>)
    ensures
        number == number_of(field@),
{
    let start: usize = if field.len() > 0 && field[0] == PLUS {
        1
    } else {
        0
    };
    let ghost digits = unsigned_part(field@);
    assert(digits =~= field@.skip(start as int));
    if start == field.len() {
        return None;
    }
    let mut value: u64 = 0;
    let mut i: usize = start;
    while i < field.len()
        invariant
            start <= i <= field@.len(),
            digits == field@.skip(start as int),
            digits == unsigned_part(field@),
            all_digits(digits.take(i - start)),
            value == decimal_value(digits.take(i - start)),
            value <= u32::MAX,
        decreases field@.len() - i,
    {
        let b = field[i];
        proof {
            let longer = digits.take(i - start + 1);
            assert(digits[i - start] == b);
            assert(longer.drop_last() =~= digits.take(i - start));
            assert(longer.last() == b);
            assert(decimal_value(longer) == 10 * value + digit_value(b));
            lemma_decimal_value_grows(digits, i - start + 1);
        }
        if b < DIGIT_ZERO || b > DIGIT_NINE {
            assert(!is_digit(digits[i - start]));
            return None;
        }
        let next: u64 = 10 * value + (b - DIGIT_ZERO) as u64;
        if next > u32::MAX as u64 {
            return None;
        }
        value = next;
        i += 1;
        proof {
            assert forall|j: int| 0 <= j < i - start implies is_digit(
                #[trigger] digits.take(i - start)[j],
            ) by {
                if j < i - start - 1 {
                    assert(digits.take(i - start - 1)[j] == digits.take(i - start)[j]);
                }
            }
        }
    }
    proof {
        assert(digits.take(i - start) =~= digits);
    }
    Some(value as u32)
}

/// Reads what a voter wrote in a box.
pub fn read_mark(field: &[u8]) -> (mark: Mark)
    ensures
        mark == mark_of(field@),
{
    if field.len() == 0 {
        return Mark::Blank;
    }
    if field.len() == 1 && (field[0] == STAR || field[0] == SLASH) {
        return Mark::Pref(1);
    }
    match read_number(field) {
        Some(n) => Mark::Pref(n),
        None => Mark::Invalid,
    }
}

} // verus!
