use crate::error::HuffmanError;
use std::collections::HashMap;
use vstd::prelude::*;

verus! {

broadcast use vstd::std_specs::hash::group_hash_axioms;

/// The byte `:` that stands between a byte value and its count.
pub const COLON: u8 = 58;

/// The byte `,` that ends an entry.
pub const COMMA: u8 = 44;

/// The byte `0`, the first of the ten decimal digits.
pub const ZERO: u8 = 48;

/// Whether `c` is one of the bytes `0` to `9`.
pub open spec fn is_digit(c: u8) -> bool {
    ZERO <= c <= ZERO + 9
}

/// Whether every byte of `s` is a decimal digit.
pub open spec fn all_digits(s: Seq<u8>) -> bool {
    forall|i: int| 0 <= i < s.len() ==> is_digit(#[trigger] s[i])
}

/// The number that the digit `c` stands for.
pub open spec fn digit_value(c: u8) -> nat {
    if is_digit(c) {
        (c - ZERO) as nat
    } else {
        0
    }
}

/// The decimal representation of `n`, without leading zeros.
pub open spec fn decimal(n: nat) -> Seq<u8>
    decreases n,
{
    if n < 10 {
        seq![(ZERO + n) as u8]
    } else {
        decimal(n / 10).push((ZERO + n % 10) as u8)
    }
}

/// The number that a sequence of decimal digits stands for.
pub open spec fn decimal_value(digits: Seq<u8>) -> nat
    decreases digits.len(),
{
    if digits.len() == 0 {
        0
    } else {
        10 * decimal_value(digits.drop_last()) + digit_value(digits.last())
    }
}

/// The number that `s` stands for: `s` is one or more decimal digits, and
/// their value is at most `max`.
pub open spec fn parse_number(s: Seq<u8>, max: nat) -> Option<nat> {
    if s.len() > 0 && all_digits(s) && decimal_value(s) <= max {
        Some(decimal_value(s))
    } else {
        None
    }
}

/// The index of the first `c` in `s`, or the length of `s` if there is none.
pub open spec fn index_of(s: Seq<u8>, c: u8) -> int
    decreases s.len(),
{
    if s.len() == 0 || s[0] == c {
        0
    } else {
        1 + index_of(s.skip(1), c)
    }
}

/// The entry that `s` stands for: a byte value from 0 to 255, a colon, and a
/// count that fits the machine's word.
pub open spec fn parse_pair(s: Seq<u8>) -> Option<(u8, usize)> {
    let colon = index_of(s, COLON);
    if colon >= s.len() {
        None
    } else {
        let byte = parse_number(s.take(colon), 255);
        let count = parse_number(s.skip(colon + 1), usize::MAX as nat);
        match (byte, count) {
            (Some(byte), Some(count)) => Some((byte as u8, count as usize)),
            _ => None,
        }
    }
}

/// `table` with the entries of `text` added in order, a later entry for a
/// byte value replacing an earlier one. Each entry ends with a comma; the
/// comma of the last may be missing. `None` where a piece between commas is
/// no entry.
pub open spec fn parse_entries(text: Seq<u8>, table: Map<u8, usize>) -> Option<Map<u8, usize>>
    decreases text.len(),
{
    if text.len() == 0 {
        Some(table)
    } else {
        let comma = index_of(text, COMMA);
        let rest = if comma < text.len() {
            text.skip(comma + 1)
        } else {
            Seq::empty()
        };
        match parse_pair(text.take(comma)) {
            Some((byte, count)) => {
                proof {
                    lemma_index_of_bounds(text, COMMA);
                }
                parse_entries(rest, table.insert(byte, count))
            },
            None => None,
        }
    }
}

/// The frequency table that the header `text` stands for, if it is well
/// formed.
pub open spec fn parse_header_text(text: Seq<u8>) -> Option<Map<u8, usize>> {
    parse_entries(text, Map::empty())
}

/// The text of one entry: the byte value, a colon, the count, a comma.
pub open spec fn entry_text(byte: u8, count: usize) -> Seq<u8> {
    decimal(byte as nat) + seq![COLON] + decimal(count as nat) + seq![COMMA]
}

/// The entries of `table` for the byte values from `from` on, in ascending
/// order.
pub open spec fn header_from(table: Map<u8, usize>, from: int) -> Seq<u8>
    decreases 256 - from,
{
    if from >= 256 || from < 0 {
        Seq::empty()
    } else if table.contains_key(from as u8) {
        entry_text(from as u8, table[from as u8]) + header_from(table, from + 1)
    } else {
        header_from(table, from + 1)
    }
}

/// The header text of `table`: its entries in ascending order of the byte
/// value.
pub open spec fn header_text(table: Map<u8, usize>) -> Seq<u8> {
    header_from(table, 0)
}

pub proof fn lemma_index_of_bounds(s: Seq<u8>, c: u8)
    ensures
        0 <= index_of(s, c) <= s.len(),
        index_of(s, c) < s.len() ==> s[index_of(s, c)] == c,
        forall|i: int| 0 <= i < index_of(s, c) ==> s[i] != c,
    decreases s.len(),
{
    if s.len() > 0 && s[0] != c {
        lemma_index_of_bounds(s.skip(1), c);
        assert forall|i: int| 0 <= i < index_of(s, c) implies s[i] != c by {
            if i > 0 {
                assert(s.skip(1)[i - 1] == s[i]);
            }
        }
    }
}

/// The first `c` is at the index `at` if it is there and not before.
pub proof fn lemma_index_of_found(s: Seq<u8>, c: u8, at: int)
    requires
        0 <= at <= s.len(),
        at < s.len() ==> s[at] == c,
        forall|i: int| 0 <= i < at ==> s[i] != c,
    ensures
        index_of(s, c) == at,
{
    lemma_index_of_bounds(s, c);
}

/// The decimal representation of a number is made of digits and stands for
/// the number.
pub proof fn lemma_decimal_value(n: nat)
    ensures
        decimal(n).len() > 0,
        all_digits(decimal(n)),
        decimal_value(decimal(n)) == n,
    decreases n,
{
    if n < 10 {
        assert(decimal(n).drop_last() =~= Seq::<u8>::empty());
        assert(decimal_value(decimal(n).drop_last()) == 0);
    } else {
        lemma_decimal_value(n / 10);
        assert(decimal(n).drop_last() =~= decimal(n / 10));
    }
}

/// A number in digits is no smaller than the number in fewer of them.
pub proof fn lemma_decimal_value_grows(digits: Seq<u8>, k: int)
    requires
        0 <= k <= digits.len(),
    ensures
        decimal_value(digits.take(k)) <= decimal_value(digits),
    decreases digits.len(),
{
    if k < digits.len() {
        lemma_decimal_value_grows(digits.drop_last(), k);
        assert(digits.drop_last().take(k) =~= digits.take(k));
    } else {
        assert(digits.take(k) =~= digits);
    }
}

/// An entry is read back as the byte value and the count it was written from.
pub proof fn lemma_parse_entry_text(byte: u8, count: usize)
    ensures
        index_of(entry_text(byte, count), COMMA) == entry_text(byte, count).len() - 1,
        parse_pair(entry_text(byte, count).drop_last()) == Some((byte, count)),
{
    let name = decimal(byte as nat);
    let number = decimal(count as nat);
    let pair = name + seq![COLON] + number;
    let entry = entry_text(byte, count);
    lemma_decimal_value(byte as nat);
    lemma_decimal_value(count as nat);
    assert(entry.drop_last() =~= pair);
    assert forall|i: int| 0 <= i < entry.len() - 1 implies entry[i] != COMMA by {
        if i < name.len() {
            assert(is_digit(name[i]));
        } else if i > name.len() {
            assert(is_digit(number[i - name.len() - 1]));
        }
    }
    lemma_index_of_found(entry, COMMA, entry.len() - 1);
    assert forall|i: int| 0 <= i < name.len() implies pair[i] != COLON by {
        assert(is_digit(name[i]));
    }
    lemma_index_of_found(pair, COLON, name.len() as int);
    assert(pair.take(name.len() as int) =~= name);
    assert(pair.skip(name.len() as int + 1) =~= number);
}

/// The table of `lo` restricted to the byte values from `from` on, over `base`.
pub open spec fn overlay_from(base: Map<u8, usize>, table: Map<u8, usize>, from: int) -> Map<
    u8,
    usize,
> {
    Map::new(
        |b: u8| (b >= from && table.contains_key(b)) || base.contains_key(b),
        |b: u8|
            if b >= from && table.contains_key(b) {
                table[b]
            } else {
                base[b]
            },
    )
}

proof fn lemma_parse_header_from(table: Map<u8, usize>, from: int, base: Map<u8, usize>)
    requires
        0 <= from <= 256,
    ensures
        parse_entries(header_from(table, from), base) == Some(overlay_from(base, table, from)),
    decreases 256 - from,
{
    if from >= 256 {
        assert(overlay_from(base, table, from) =~= base);
    } else if table.contains_key(from as u8) {
        let byte = from as u8;
        let count = table[byte];
        let entry = entry_text(byte, count);
        let rest = header_from(table, from + 1);
        let text = entry + rest;
        lemma_parse_entry_text(byte, count);
        lemma_index_of_bounds(entry, COMMA);
        assert forall|i: int| 0 <= i < entry.len() - 1 implies text[i] != COMMA by {
            assert(text[i] == entry[i]);
        }
        assert(text[entry.len() - 1] == entry[entry.len() - 1]);
        lemma_index_of_found(text, COMMA, entry.len() - 1);
        assert(text.take(entry.len() - 1) =~= entry.drop_last());
        assert(text.skip(entry.len() as int) =~= rest);
        lemma_parse_header_from(table, from + 1, base.insert(byte, count));
        assert(overlay_from(base.insert(byte, count), table, from + 1) =~= overlay_from(
            base,
            table,
            from,
        ));
    } else {
        lemma_parse_header_from(table, from + 1, base);
        assert(overlay_from(base, table, from + 1) =~= overlay_from(base, table, from));
    }
}

/// Reading the header text of a table gives the table back.
pub proof fn lemma_header_round_trip(table: Map<u8, usize>)
    ensures
        parse_header_text(header_text(table)) == Some(table),
{
    lemma_parse_header_from(table, 0, Map::empty());
    assert(overlay_from(Map::empty(), table, 0) =~= table);
}

/// Whether `c` can stand in header text: a digit, a colon or a comma.
pub open spec fn is_header_byte(c: u8) -> bool {
    is_digit(c) || c == COLON || c == COMMA
}

/// The header text holds digits, colons and commas only.
pub proof fn lemma_header_alphabet(table: Map<u8, usize>, from: int)
    requires
        0 <= from <= 256,
    ensures
        forall|i: int|
            0 <= i < header_from(table, from).len() ==> is_header_byte(
                #[trigger] header_from(table, from)[i],
            ),
    decreases 256 - from,
{
    if from < 256 {
        lemma_header_alphabet(table, from + 1);
        if table.contains_key(from as u8) {
            let byte = from as u8;
            let count = table[byte];
            let name = decimal(byte as nat);
            let number = decimal(count as nat);
            lemma_decimal_value(byte as nat);
            lemma_decimal_value(count as nat);
            let entry = entry_text(byte, count);
            let rest = header_from(table, from + 1);
            let text = header_from(table, from);
            assert(text == entry + rest);
            assert forall|i: int| 0 <= i < text.len() implies is_header_byte(
                #[trigger] text[i],
            ) by {
                if i < name.len() {
                    assert(text[i] == name[i]);
                    assert(is_digit(name[i]));
                } else if i == name.len() {
                    assert(text[i] == COLON);
                } else if i < name.len() + 1 + number.len() {
                    assert(text[i] == number[i - name.len() - 1]);
                    assert(is_digit(number[i - name.len() - 1]));
                } else if i < entry.len() {
                    assert(text[i] == COMMA);
                } else {
                    assert(text[i] == rest[i - entry.len()]);
                }
            }
        } else {
            assert(header_from(table, from) == header_from(table, from + 1));
        }
    } else {
        assert(header_from(table, from).len() == 0);
    }
}

/// Appends the decimal representation of `n` to `out`.
fn push_decimal(out: &mut Vec<u8>, n: usize)
    ensures
        final(out)@ == old(out)@ + decimal(n as nat),
    decreases n,
{
    if n >= 10 {
        push_decimal(out, n / 10);
    }
    let digit: u8 = ZERO + (n % 10) as u8;
    out.push(digit);
    proof {
        if n >= 10 {
            assert(final(out)@ =~= old(out)@ + decimal(n as nat));
        } else {
            assert(final(out)@ =~= old(out)@ + decimal(n as nat));
        }
    }
}

/// Writes a frequency table as header text: for each byte value that has an
/// entry, in ascending order, the value in decimal, a colon, the count in
/// decimal, and a comma. Reading the text gives the table back.
pub fn serialize_header(freq_map: &HashMap<u8, usize>) -> (text: Vec<u8>)
    ensures
        text@ == header_text(freq_map@),
        parse_header_text(text@) == Some(freq_map@),
{
    proof {
        lemma_header_round_trip(freq_map@);
    }
    let mut text: Vec<u8> = Vec::new();
    let mut b: u16 = 0;
    while b < 256
        invariant
            b <= 256,
            text@ + header_from(freq_map@, b as int) == header_text(freq_map@),
        decreases 256 - b,
    {
        let byte = b as u8;
        let ghost before = text@;
        match freq_map.get(&byte) {
            Some(count) => {
                push_decimal(&mut text, byte as usize);
                text.push(COLON);
                push_decimal(&mut text, *count);
                text.push(COMMA);
                proof {
                    assert(text@ =~= before + entry_text(byte, *count));
                    assert(before + header_from(freq_map@, b as int) =~= text@ + header_from(
                        freq_map@,
                        b + 1,
                    ));
                }
            },
            None => {},
        }
        b += 1;
    }
    proof {
        assert(text@ + Seq::<u8>::empty() =~= text@);
    }
    text
}

/// Finds the first `c` in `text` from `start` up to `end`, or gives `end`.
pub(crate) fn find_byte(text: &[u8], start: usize, end: usize, c: u8) -> (at: usize)
    requires
        start <= end <= text@.len(),
    ensures
        start <= at <= end,
        at - start == index_of(text@.subrange(start as int, end as int), c),
{
    let mut at: usize = start;
    while at < end && text[at] != c
        invariant
            start <= at <= end <= text@.len(),
            forall|i: int| start <= i < at ==> text@[i] != c,
        decreases end - at,
    {
        at += 1;
    }
    proof {
        let part = text@.subrange(start as int, end as int);
        lemma_index_of_found(part, c, at - start);
    }
    at
}

/// Reads the decimal number that stands in `text` from `start` up to `end`.
fn parse_decimal(text: &[u8], start: usize, end: usize, max: usize) -> (number: Option<usize>)
    requires
        start <= end <= text@.len(),
    ensures
        match parse_number(text@.subrange(start as int, end as int), max as nat) {
            Some(n) => number == Some(n as usize),
            None => number is None,
        },
{
    let ghost digits = text@.subrange(start as int, end as int);
    if start == end {
        return None;
    }
    let mut value: usize = 0;
    let mut at: usize = start;
    while at < end
        invariant
            start <= at <= end <= text@.len(),
            digits == text@.subrange(start as int, end as int),
            all_digits(digits.take(at - start)),
            value == decimal_value(digits.take(at - start)),
            value <= max,
        decreases end - at,
    {
        let c = text[at];
        proof {
            assert(digits.take(at - start + 1).drop_last() =~= digits.take(at - start));
            assert(digits.take(at - start + 1).last() == c);
            lemma_decimal_value_grows(digits, at - start + 1);
        }
        if c < ZERO || c > ZERO + 9 {
            proof {
                assert(!is_digit(digits[at - start]));
            }
            return None;
        }
        let digit = (c - ZERO) as usize;
        if value > max / 10 {
            return None;
        }
        let tens = value * 10;
        if digit > max - tens {
            return None;
        }
        value = tens + digit;
        at += 1;
    }
    proof {
        assert(digits.take(at - start) =~= digits);
    }
    Some(value)
}

/// Reads header text into a frequency table.
///
/// The text is a list of entries, each a byte value from 0 to 255 in decimal,
/// a colon, a count in decimal and a comma; the comma of the last entry may
/// be missing. Where a byte value has several entries, the last one counts.
/// Any other text is malformed: a byte value or count that is not a decimal
/// number or does not fit, a missing colon, an empty piece between commas.
pub fn parse_header(text: &[u8]) -> (table: Result<HashMap<u8, usize>, HuffmanError>)
    ensures
        match parse_header_text(text@) {
            Some(entries) => table matches Ok(t) && t@ == entries,
            None => table matches Err(e) && e == HuffmanError::MalformedHeader,
        },
{
    let mut table: HashMap<u8, usize> = HashMap::new();
    let mut pos: usize = 0;
    proof {
        assert(text@.skip(0) =~= text@);
    }
    while pos < text.len()
        invariant
            pos <= text@.len(),
            parse_entries(text@.skip(pos as int), table@) == parse_header_text(text@),
        decreases text@.len() - pos,
    {
        let ghost rest = text@.skip(pos as int);
        let comma = find_byte(text, pos, text.len(), COMMA);
        let colon = find_byte(text, pos, comma, COLON);
        proof {
            assert(text@.subrange(pos as int, text@.len() as int) =~= rest);
            assert(text@.subrange(pos as int, comma as int) =~= rest.take(comma - pos));
            lemma_index_of_bounds(rest, COMMA);
        }
        let ghost pair = rest.take(comma - pos);
        if colon >= comma {
            return Err(HuffmanError::MalformedHeader);
        }
        proof {
            assert(text@.subrange(pos as int, colon as int) =~= pair.take(colon - pos));
            assert(text@.subrange(colon + 1, comma as int) =~= pair.skip(colon - pos + 1));
        }
        let byte = parse_decimal(text, pos, colon, 255);
        let count = parse_decimal(text, colon + 1, comma, usize::MAX);
        match (byte, count) {
            (Some(byte), Some(count)) => {
                table.insert(byte as u8, count);
            },
            _ => {
                return Err(HuffmanError::MalformedHeader);
            },
        }
        proof {
            if comma < text@.len() {
                assert(rest.skip(comma - pos + 1) =~= text@.skip(comma + 1));
            } else {
                assert(text@.skip(text@.len() as int) =~= Seq::<u8>::empty());
            }
        }
        pos = if comma < text.len() {
            comma + 1
        } else {
            comma
        };
    }
    Ok(table)
}

} // verus!
