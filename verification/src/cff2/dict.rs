//! DICT data: entries made of operands and the operator that closes them.
use vstd::prelude::*;

use crate::bytes::{copy_range, u16_at, u32_at};
use crate::error::{Problem, SliceError};
use crate::text::{chars_of, decimal, decimal_of, join3, string_of};
use super::num::{
    dict_integer, malformed, malformed_table, signed16, signed32, write_dict_integer,
};

verus! {

/// One DICT operand. A real number is binary-coded decimal in the file, and is kept as
/// the text it spells: re-encoding it through a binary fraction would be lossy.
#[derive(Debug, PartialEq)]
pub enum DictNumber {
    Integer(i32),
    Real(String),
}

/// One entry of a DICT: its operands and the operator that closed them.
#[derive(Debug)]
pub struct DictEntry {
    /// 0 to 27 for a one-byte operator; `1200 + b1` for the two-byte `12 b1` form.
    pub operator: u16,
    pub operands: Vec<DictNumber>,
    /// The entry exactly as it appeared, operands and operator together, so an entry that
    /// is passed through can be copied rather than re-encoded.
    pub raw: Vec<u8>,
}

/// What a [`DictNumber`] holds.
pub enum DictValue {
    Integer(int),
    Real(Seq<char>),
}

/// What a [`DictEntry`] holds.
pub struct Entry {
    pub operator: int,
    pub operands: Seq<DictValue>,
    pub raw: Seq<u8>,
}

impl View for DictNumber {
    type V = DictValue;

    open spec fn view(&self) -> DictValue {
        match *self {
            DictNumber::Integer(v) => DictValue::Integer(v as int),
            DictNumber::Real(text) => DictValue::Real(text@),
        }
    }
}

pub open spec fn numbers(operands: Seq<DictNumber>) -> Seq<DictValue> {
    operands.map_values(|n: DictNumber| n@)
}

impl View for DictEntry {
    type V = Entry;

    open spec fn view(&self) -> Entry {
        Entry {
            operator: self.operator as int,
            operands: numbers(self.operands@),
            raw: self.raw@,
        }
    }
}

pub open spec fn entries_view(entries: Seq<DictEntry>) -> Seq<Entry> {
    entries.map_values(|e: DictEntry| e@)
}

impl DictNumber {
    pub fn duplicate(&self) -> (r: DictNumber)
        ensures
            r@ == self@,
    {
        match self {
            DictNumber::Integer(v) => DictNumber::Integer(*v),
            DictNumber::Real(text) => DictNumber::Real(text.clone()),
        }
    }
}

pub open spec fn is_digit(c: char) -> bool {
    '0' <= c && c <= '9'
}

/// The first position from `i` on that holds no digit.
pub open spec fn digits_end(s: Seq<char>, i: int) -> int
    decreases s.len() - i,
{
    if 0 <= i < s.len() && is_digit(s[i]) {
        digits_end(s, i + 1)
    } else {
        i
    }
}

pub open spec fn char_at(s: Seq<char>, i: int, c: char) -> bool {
    0 <= i < s.len() && s[i] == c
}

/// True for a decimal number: an optional minus sign, digits with at most one point among
/// them, and an optional exponent.
#[verifier::opaque]
pub open spec fn is_real(s: Seq<char>) -> bool {
    let first: int = if char_at(s, 0, '-') {
        1
    } else {
        0
    };
    let point = digits_end(s, first);
    let end = if char_at(s, point, '.') {
        digits_end(s, point + 1)
    } else {
        point
    };
    let digits = if char_at(s, point, '.') {
        end - first - 1
    } else {
        end - first
    };
    digits > 0 && (end == s.len() || (s[end] == 'E' && {
        let power = if char_at(s, end + 1, '-') {
            end + 2
        } else {
            end + 1
        };
        power < s.len() && digits_end(s, power) == s.len()
    }))
}

proof fn lemma_digits_end(s: Seq<char>, i: int)
    requires
        0 <= i <= s.len(),
    ensures
        i <= digits_end(s, i) <= s.len(),
    decreases s.len() - i,
{
    if i < s.len() && is_digit(s[i]) {
        lemma_digits_end(s, i + 1);
    }
}

fn skip_digits(s: &Vec<char>, from: usize) -> (end: usize)
    requires
        from <= s@.len(),
    ensures
        end == digits_end(s@, from as int),
        from <= end <= s@.len(),
{
    let mut i: usize = from;
    while i < s.len() && '0' <= s[i] && s[i] <= '9'
        invariant
            from <= i <= s@.len(),
            digits_end(s@, from as int) == digits_end(s@, i as int),
        decreases s@.len() - i,
    {
        i = i + 1;
    }
    i
}

fn spells_real(s: &Vec<char>) -> (r: bool)
    ensures
        r == is_real(s@),
{
    reveal(is_real);
    let first: usize = if s.len() > 0 && s[0] == '-' {
        1
    } else {
        0
    };
    let point: usize = skip_digits(s, first);
    let has_point: bool = point < s.len() && s[point] == '.';
    let end: usize = if has_point {
        skip_digits(s, point + 1)
    } else {
        point
    };
    let digits: usize = if has_point {
        end - first - 1
    } else {
        end - first
    };
    if digits == 0 {
        return false;
    }
    if end == s.len() {
        return true;
    }
    if s[end] != 'E' {
        return false;
    }
    let power: usize = if end + 1 < s.len() && s[end + 1] == '-' {
        end + 2
    } else {
        end + 1
    };
    power < s.len() && skip_digits(s, power) == s.len()
}

/// The characters that a nibble of a real number stands for.
pub open spec fn nibble_chars(nibble: int) -> Seq<char> {
    if 0 <= nibble <= 9 {
        seq![crate::text::digit(nibble)]
    } else if nibble == 0xa {
        seq!['.']
    } else if nibble == 0xb {
        seq!['E']
    } else if nibble == 0xc {
        seq!['E', '-']
    } else {
        seq!['-']
    }
}

/// The nibble with number `k` of the bytes from `at` on, high half first.
pub open spec fn nibble_at(data: Seq<u8>, at: int, k: int) -> int {
    if k % 2 == 0 {
        data[at + k / 2] as int / 16
    } else {
        data[at + k / 2] as int % 16
    }
}

/// The real number whose nibbles start at `at`, from nibble `k` on, when the nibbles
/// before spelled `text`: the whole text, and how many bytes it takes from `at`.
pub open spec fn real_from(data: Seq<u8>, at: int, k: int, text: Seq<char>) -> Result<
    (Seq<char>, int),
    Problem,
>
    decreases 2 * (data.len() - at) - k,
{
    if k < 0 || at + k / 2 >= data.len() {
        Err(malformed_table("truncated DICT real number"@))
    } else {
        let nibble = nibble_at(data, at, k);
        if nibble == 0xf {
            if is_real(text) {
                Ok((text, k / 2 + 1))
            } else {
                Err(malformed_table("\""@ + text + "\" is not a number"@))
            }
        } else if nibble == 0xd {
            Err(malformed_table("a DICT real used the reserved nibble 0xd"@))
        } else {
            real_from(data, at, k + 1, text + nibble_chars(nibble))
        }
    }
}

/// The DICT operand at `pos`: its value and its length.
pub open spec fn dict_operand(data: Seq<u8>, pos: int) -> Result<(DictValue, int), Problem> {
    let b0 = data[pos];
    if b0 == 30 {
        match real_from(data, pos + 1, 0, Seq::empty()) {
            Ok((text, len)) => Ok((DictValue::Real(text), len + 1)),
            Err(p) => Err(p),
        }
    } else if b0 == 28 {
        if pos + 3 > data.len() {
            Err(malformed_table("truncated DICT operand"@))
        } else {
            Ok((DictValue::Integer(signed16(u16_at(data, pos + 1))), 3))
        }
    } else if b0 == 29 {
        if pos + 5 > data.len() {
            Err(malformed_table("truncated DICT operand"@))
        } else {
            Ok((DictValue::Integer(signed32(u32_at(data, pos + 1))), 5))
        }
    } else if 32 <= b0 <= 246 {
        Ok((DictValue::Integer(b0 - 139), 1))
    } else if 247 <= b0 <= 254 {
        if pos + 2 > data.len() {
            Err(malformed_table("truncated DICT operand"@))
        } else if b0 <= 250 {
            Ok((DictValue::Integer((b0 - 247) * 256 + data[pos + 1] + 108), 2))
        } else {
            Ok((DictValue::Integer(-(b0 - 251) * 256 - data[pos + 1] - 108), 2))
        }
    } else {
        Err(malformed_table("byte "@ + decimal(b0 as nat) + " is not a DICT operand"@))
    }
}

pub proof fn lemma_real_len(data: Seq<u8>, at: int, k: int, text: Seq<char>)
    requires
        0 <= at <= data.len(),
        0 <= k,
    ensures
        real_from(data, at, k, text) matches Ok((_, len)) ==> 1 <= len && at + len <= data.len(),
    decreases 2 * (data.len() - at) - k,
{
    if at + k / 2 < data.len() {
        let nibble = nibble_at(data, at, k);
        lemma_real_len(data, at, k + 1, text + nibble_chars(nibble));
    }
}

/// The entries of `data` from `pos` on, after `out`, when `operands` have been read since
/// `start`.
pub open spec fn entries_from(
    data: Seq<u8>,
    start: int,
    pos: int,
    operands: Seq<DictValue>,
    out: Seq<Entry>,
) -> Result<Seq<Entry>, Problem>
    decreases data.len() - pos,
{
    if pos < 0 || pos >= data.len() {
        if operands.len() > 0 {
            Err(malformed_table("a DICT ended with operands and no operator"@))
        } else {
            Ok(out)
        }
    } else if data[pos] <= 27 {
        if data[pos] == 12 && pos + 1 >= data.len() {
            Err(malformed_table("truncated two-byte DICT operator"@))
        } else {
            let len: int = if data[pos] == 12 {
                2
            } else {
                1
            };
            let operator: int = if data[pos] == 12 {
                1200 + data[pos + 1]
            } else {
                data[pos] as int
            };
            entries_from(
                data,
                pos + len,
                pos + len,
                Seq::empty(),
                out.push(Entry { operator, operands, raw: data.subrange(start, pos + len) }),
            )
        }
    } else {
        proof {
            lemma_real_len(data, pos + 1, 0, Seq::empty());
        }
        match dict_operand(data, pos) {
            Ok((value, len)) => entries_from(data, start, pos + len, operands.push(value), out),
            Err(p) => Err(p),
        }
    }
}

/// The entries of a DICT.
pub open spec fn dict_entries(data: Seq<u8>) -> Result<Seq<Entry>, Problem> {
    entries_from(data, 0, 0, Seq::empty(), Seq::empty())
}

/// Read a binary-coded-decimal real whose nibbles start at `at`.
fn read_dict_real(data: &[u8], at: usize) -> (r: Result<(String, usize), SliceError>)
    requires
        0 < at <= data@.len(),
    ensures
        match r {
            Ok((text, len)) => real_from(data@, at as int, 0, Seq::empty()) == Ok::<
                (Seq<char>, int),
                Problem,
            >((text@, len as int)) && 1 <= len && at + len <= data@.len(),
            Err(e) => real_from(data@, at as int, 0, Seq::empty()) == Err::<
                (Seq<char>, int),
                Problem,
            >(e@),
        },
{
    let mut text: Vec<char> = Vec::new();
    let mut i: usize = at;
    let ghost outcome = real_from(data@, at as int, 0, Seq::empty());
    loop
        invariant
            0 < at <= i <= data@.len(),
            outcome == real_from(data@, at as int, 2 * (i - at), text@),
            outcome == real_from(data@, at as int, 0, Seq::empty()),
        decreases data@.len() - i,
    {
        if i >= data.len() {
            return Err(malformed("truncated DICT real number"));
        }
        let byte: u8 = data[i];
        i = i + 1;
        let mut half: usize = 0;
        while half < 2
            invariant
                half <= 2,
                0 < at < i <= data@.len(),
                byte == data@[i - 1],
                outcome == real_from(data@, at as int, 2 * (i - 1 - at) + half, text@),
                outcome == real_from(data@, at as int, 0, Seq::empty()),
            decreases 2 - half,
        {
            let nibble: u8 = if half == 0 {
                byte / 16
            } else {
                byte % 16
            };
            let ghost k = 2 * (i - 1 - at) + half;
            let ghost before = text@;
            assert(k / 2 == i - 1 - at);
            assert(nibble == nibble_at(data@, at as int, k));
            if nibble == 0xf {
                return if spells_real(&text) {
                    Ok((string_of(&text), i - at))
                } else {
                    Err(
                        malformed(
                            join3("\"", string_of(&text).as_str(), "\" is not a number").as_str(),
                        ),
                    )
                };
            }
            if nibble == 0xd {
                return Err(malformed("a DICT real used the reserved nibble 0xd"));
            }
            if nibble <= 9 {
                text.push((48 + nibble) as char);
            } else if nibble == 0xa {
                text.push('.');
            } else if nibble == 0xb {
                text.push('E');
            } else if nibble == 0xc {
                text.push('E');
                text.push('-');
            } else {
                text.push('-');
            }
            assert(text@ =~= before + nibble_chars(nibble as int));
            half = half + 1;
        }
    }
}

/// Read one DICT operand starting at `data[pos]`.
fn read_dict_number(data: &[u8], pos: usize) -> (r: Result<(DictNumber, usize), SliceError>)
    requires
        pos < data@.len(),
    ensures
        match r {
            Ok((value, len)) => dict_operand(data@, pos as int) == Ok::<(DictValue, int), Problem>(
                (value@, len as int),
            ) && 1 <= len && pos + len <= data@.len(),
            Err(e) => dict_operand(data@, pos as int) == Err::<(DictValue, int), Problem>(e@),
        },
{
    let b0: u8 = data[pos];
    let left: usize = data.len() - pos;
    if b0 == 30 {
        return match read_dict_real(data, pos + 1) {
            Ok((text, len)) => Ok((DictNumber::Real(text), len + 1)),
            Err(e) => Err(e),
        };
    }
    if b0 == 28 {
        if left < 3 {
            return Err(malformed("truncated DICT operand"));
        }
        let v: i32 = data[pos + 1] as i32 * 256 + data[pos + 2] as i32;
        let v: i32 = if v >= 0x8000 {
            v - 0x1_0000
        } else {
            v
        };
        Ok((DictNumber::Integer(v), 3))
    } else if b0 == 29 {
        if left < 5 {
            return Err(malformed("truncated DICT operand"));
        }
        let v: i64 = data[pos + 1] as i64 * 0x100_0000 + data[pos + 2] as i64 * 0x1_0000
            + data[pos + 3] as i64 * 256 + data[pos + 4] as i64;
        let v: i64 = if v >= 0x8000_0000 {
            v - 0x1_0000_0000
        } else {
            v
        };
        Ok((DictNumber::Integer(v as i32), 5))
    } else if 32 <= b0 && b0 <= 246 {
        Ok((DictNumber::Integer(b0 as i32 - 139), 1))
    } else if 247 <= b0 && b0 <= 254 {
        if left < 2 {
            return Err(malformed("truncated DICT operand"));
        }
        let b1: i32 = data[pos + 1] as i32;
        let v: i32 = if b0 <= 250 {
            (b0 as i32 - 247) * 256 + b1 + 108
        } else {
            -(b0 as i32 - 251) * 256 - b1 - 108
        };
        Ok((DictNumber::Integer(v), 2))
    } else {
        Err(
            malformed(
                join3("byte ", decimal_of(b0 as u64).as_str(), " is not a DICT operand").as_str(),
            ),
        )
    }
}

/// Split DICT data into entries.
///
/// Operators run from 0 to 27, not to 21 as CFF 1.0's table suggests: CFF2 put `vsindex`
/// at 22, `blend` at 23 and the Top DICT's `VariationStore` at 24.
pub fn parse_dict(data: &[u8]) -> (r: Result<Vec<DictEntry>, SliceError>)
    ensures
        match r {
            Ok(entries) => dict_entries(data@) == Ok::<Seq<Entry>, Problem>(
                entries_view(entries@),
            ),
            Err(e) => dict_entries(data@) == Err::<Seq<Entry>, Problem>(e@),
        },
{
    let mut out: Vec<DictEntry> = Vec::new();
    let mut operands: Vec<DictNumber> = Vec::new();
    let mut start: usize = 0;
    let mut pos: usize = 0;
    assert(numbers(operands@) =~= Seq::<DictValue>::empty());
    assert(entries_view(out@) =~= Seq::<Entry>::empty());
    while pos < data.len()
        invariant
            start <= pos <= data@.len(),
            dict_entries(data@) == entries_from(
                data@,
                start as int,
                pos as int,
                numbers(operands@),
                entries_view(out@),
            ),
        decreases data@.len() - pos,
    {
        let b0: u8 = data[pos];
        if b0 <= 27 {
            let len: usize = if b0 == 12 {
                2
            } else {
                1
            };
            if b0 == 12 && pos + 1 >= data.len() {
                return Err(malformed("truncated two-byte DICT operator"));
            }
            let operator: u16 = if b0 == 12 {
                1200 + data[pos + 1] as u16
            } else {
                b0 as u16
            };
            let ghost before = entries_view(out@);
            let entry: DictEntry = DictEntry {
                operator,
                operands,
                raw: copy_range(data, start, pos + len),
            };
            operands = Vec::new();
            out.push(entry);
            pos = pos + len;
            start = pos;
            assert(numbers(operands@) =~= Seq::<DictValue>::empty());
            assert(entries_view(out@) =~= before.push(entry@));
        } else {
            match read_dict_number(data, pos) {
                Ok((value, len)) => {
                    let ghost before = numbers(operands@);
                    operands.push(value);
                    pos = pos + len;
                    assert(numbers(operands@) =~= before.push(value@));
                },
                Err(e) => {
                    return Err(e);
                },
            }
        }
    }
    if operands.len() > 0 {
        return Err(malformed("a DICT ended with operands and no operator"));
    }
    Ok(out)
}

// ---------------------------------------------------------------------------- writing

/// The nibbles that spell `text` from position `i` on. An exponent's minus sign has a
/// nibble together with the `E`, a plus sign has none, and a character that a real number
/// cannot hold is left out.
pub open spec fn nibbles_from(text: Seq<char>, i: int) -> Seq<u8>
    decreases text.len() - i,
{
    if i < 0 || i >= text.len() {
        Seq::empty()
    } else if is_digit(text[i]) {
        seq![(text[i] as int - 48) as u8] + nibbles_from(text, i + 1)
    } else if text[i] == '.' {
        seq![0xau8] + nibbles_from(text, i + 1)
    } else if text[i] == '-' {
        seq![0xeu8] + nibbles_from(text, i + 1)
    } else if text[i] == 'e' || text[i] == 'E' {
        if char_at(text, i + 1, '-') {
            seq![0xcu8] + nibbles_from(text, i + 2)
        } else if char_at(text, i + 1, '+') {
            seq![0xbu8] + nibbles_from(text, i + 2)
        } else {
            seq![0xbu8] + nibbles_from(text, i + 1)
        }
    } else {
        nibbles_from(text, i + 1)
    }
}

/// `nibbles` ended by 0xf, and by a second one where that makes their number even.
pub open spec fn ended(nibbles: Seq<u8>) -> Seq<u8> {
    if nibbles.len() % 2 == 1 {
        nibbles.push(0xf)
    } else {
        nibbles.push(0xf).push(0xf)
    }
}

/// Nibbles put together two by two.
pub open spec fn packed(nibbles: Seq<u8>) -> Seq<u8> {
    Seq::new(nibbles.len() / 2, |i: int| (nibbles[2 * i] * 16 + nibbles[2 * i + 1]) as u8)
}

/// A DICT real that spells `text`.
pub open spec fn dict_real(text: Seq<char>) -> Seq<u8> {
    seq![30u8] + packed(ended(nibbles_from(text, 0)))
}

/// A DICT operand.
pub open spec fn dict_number(value: DictValue) -> Seq<u8> {
    match value {
        DictValue::Integer(v) => dict_integer(v),
        DictValue::Real(text) => dict_real(text),
    }
}

/// A DICT operator.
pub open spec fn dict_operator(operator: int) -> Seq<u8> {
    if operator >= 1200 {
        seq![12u8, (operator - 1200) as u8]
    } else {
        seq![operator as u8]
    }
}

/// Append the number that `text` spells as a binary-coded-decimal real.
pub fn write_dict_real(text: &str, out: &mut Vec<u8>)
    ensures
        final(out)@ == old(out)@ + dict_real(text@),
{
    let chars: Vec<char> = chars_of(text);
    let mut nibbles: Vec<u8> = Vec::new();
    let mut i: usize = 0;
    while i < chars.len()
        invariant
            i <= chars@.len(),
            chars@ == text@,
            forall|j: int| 0 <= j < nibbles@.len() ==> nibbles@[j] < 16,
            nibbles@ + nibbles_from(text@, i as int) == nibbles_from(text@, 0),
        decreases chars@.len() - i,
    {
        let ghost before = nibbles@;
        let ghost at = i as int;
        let c: char = chars[i];
        i = i + 1;
        if '0' <= c && c <= '9' {
            nibbles.push(c as u8 - 48);
        } else if c == '.' {
            nibbles.push(0xa);
        } else if c == '-' {
            nibbles.push(0xe);
        } else if c == 'e' || c == 'E' {
            if i < chars.len() && chars[i] == '-' {
                i = i + 1;
                nibbles.push(0xc);
            } else {
                if i < chars.len() && chars[i] == '+' {
                    i = i + 1;
                }
                nibbles.push(0xb);
            }
        }
        assert(nibbles@ + nibbles_from(text@, i as int) =~= before + nibbles_from(text@, at));
    }
    assert(nibbles@ =~= nibbles_from(text@, 0));
    let ghost spelled = nibbles@;
    nibbles.push(0xf);
    if nibbles.len() % 2 == 1 {
        nibbles.push(0xf);
    }
    assert(nibbles@ =~= ended(spelled));
    let ghost before = out@;
    out.push(30);
    let ghost all = packed(nibbles@);
    let mut k: usize = 0;
    while k < nibbles.len() / 2
        invariant
            k <= nibbles@.len() / 2,
            all == packed(nibbles@),
            forall|j: int| 0 <= j < nibbles@.len() ==> nibbles@[j] < 16,
            out@ == before + seq![30u8] + all.take(k as int),
        decreases nibbles@.len() / 2 - k,
    {
        out.push(nibbles[2 * k] * 16 + nibbles[2 * k + 1]);
        assert(all.take(k + 1) =~= all.take(k as int).push(all[k as int]));
        k = k + 1;
    }
    assert(all.take(k as int) =~= all);
    assert(out@ =~= before + dict_real(text@));
}

/// Append `value` to `out` in the shortest encoding that holds it exactly.
pub fn write_dict_number(value: &DictNumber, out: &mut Vec<u8>)
    ensures
        final(out)@ == old(out)@ + dict_number(value@),
{
    match value {
        DictNumber::Integer(v) => write_dict_integer(*v, out),
        DictNumber::Real(text) => write_dict_real(text.as_str(), out),
    }
}

/// Append `operator`.
pub fn write_dict_operator(operator: u16, out: &mut Vec<u8>)
    ensures
        final(out)@ == old(out)@ + dict_operator(operator as int),
{
    if operator >= 1200 {
        out.push(12);
        out.push((operator - 1200) as u8);
    } else {
        out.push(operator as u8);
    }
}

// ------------------------------------------------------------------------------- laws

/// Every integer is read back as it was written, whatever follows it.
pub proof fn dict_integers_round_trip(v: int, tail: Seq<u8>)
    requires
        i32::MIN <= v <= i32::MAX,
    ensures
        dict_operand(dict_integer(v) + tail, 0) == Ok::<(DictValue, int), Problem>(
            (DictValue::Integer(v), dict_integer(v).len() as int),
        ),
{
    let written = dict_integer(v);
    let b = written + tail;
    if -1131 <= v <= 1131 {
        assert(b[0] == written[0]);
        if !(-107 <= v <= 107) {
            assert(b[1] == written[1]);
        }
    } else if -32768 <= v <= 32767 {
        let t = crate::bytes::be16(v);
        assert(b[0] == 28 && b[1] == t[0] && b[2] == t[1]);
        assert(v / 256 % 256 == (if v >= 0 {
            v / 256
        } else {
            v / 256 + 256
        }));
    } else {
        let t = crate::bytes::be32(v);
        assert(b[0] == 29 && b[1] == t[0] && b[2] == t[1] && b[3] == t[2] && b[4] == t[3]);
        super::num::lemma_be32_value(v);
        assert(u32_at(b, 1) == u32_at(t, 0));
    }
}

spec fn spelled_by(nibbles: Seq<u8>) -> Seq<char>
    decreases nibbles.len(),
{
    if nibbles.len() == 0 {
        Seq::empty()
    } else {
        spelled_by(nibbles.drop_last()) + nibble_chars(nibbles.last() as int)
    }
}

spec fn real_char(c: char) -> bool {
    is_digit(c) || c == '.' || c == '-' || c == 'E'
}

spec fn spelling(nibble: u8) -> bool {
    nibble < 15 && nibble != 13
}

proof fn lemma_spelled_by_first(nibbles: Seq<u8>)
    requires
        nibbles.len() > 0,
    ensures
        spelled_by(nibbles) == nibble_chars(nibbles[0] as int) + spelled_by(nibbles.skip(1)),
    decreases nibbles.len(),
{
    if nibbles.len() == 1 {
        assert(spelled_by(nibbles.drop_last()) =~= Seq::<char>::empty());
        assert(spelled_by(nibbles.skip(1)) =~= Seq::<char>::empty());
        assert(spelled_by(nibbles) =~= nibble_chars(nibbles[0] as int) + spelled_by(
            nibbles.skip(1),
        ));
    } else {
        lemma_spelled_by_first(nibbles.drop_last());
        assert(nibbles.drop_last().skip(1) =~= nibbles.skip(1).drop_last());
        assert(spelled_by(nibbles) =~= nibble_chars(nibbles[0] as int) + spelled_by(
            nibbles.skip(1),
        ));
    }
}

proof fn lemma_nibbles_spell(text: Seq<char>, i: int)
    requires
        0 <= i <= text.len(),
        forall|j: int| 0 <= j < text.len() ==> real_char(text[j]),
    ensures
        spelled_by(nibbles_from(text, i)) == text.skip(i),
        forall|j: int|
            0 <= j < nibbles_from(text, i).len() ==> spelling(#[trigger] nibbles_from(text, i)[j]),
    decreases text.len() - i,
{
    let all = nibbles_from(text, i);
    if i == text.len() {
        assert(spelled_by(all) =~= text.skip(i));
    } else {
        assert(real_char(text[i]));
        let joined = text[i] == 'E' && char_at(text, i + 1, '-');
        let next = if joined {
            i + 2
        } else {
            i + 1
        };
        if i + 1 < text.len() {
            assert(real_char(text[i + 1]));
        }
        lemma_nibbles_spell(text, next);
        lemma_spelled_by_first(all);
        let rest = nibbles_from(text, next);
        assert(all.skip(1) =~= rest);
        assert(spelled_by(all) =~= text.skip(i));
        assert forall|j: int| 0 <= j < all.len() implies spelling(#[trigger] all[j]) by {
            if j > 0 {
                assert(all[j] == rest[j - 1]);
            }
        }
    }
}

proof fn lemma_digits_are_real(s: Seq<char>, i: int, j: int)
    requires
        0 <= i <= j < digits_end(s, i),
        i <= s.len(),
    ensures
        j < s.len() && is_digit(s[j]),
    decreases s.len() - i,
{
    if i < s.len() && is_digit(s[i]) && j > i {
        lemma_digits_are_real(s, i + 1, j);
    }
}

proof fn lemma_real_chars(s: Seq<char>)
    requires
        is_real(s),
    ensures
        forall|j: int| 0 <= j < s.len() ==> real_char(s[j]),
{
    reveal(is_real);
    let first: int = if char_at(s, 0, '-') {
        1
    } else {
        0
    };
    lemma_digits_end(s, first);
    let point = digits_end(s, first);
    if char_at(s, point, '.') {
        lemma_digits_end(s, point + 1);
    }
    let end = if char_at(s, point, '.') {
        digits_end(s, point + 1)
    } else {
        point
    };
    let power = if char_at(s, end + 1, '-') {
        end + 2
    } else {
        end + 1
    };
    assert forall|j: int| 0 <= j < s.len() implies real_char(s[j]) by {
        if first <= j < point {
            lemma_digits_are_real(s, first, j);
        } else if point < j < end {
            lemma_digits_are_real(s, point + 1, j);
        } else if power <= j {
            lemma_digits_are_real(s, power, j);
        }
    }
}

/// A packed nibble is found again.
proof fn lemma_packed_nibble(b: Seq<u8>, nibbles: Seq<u8>, j: int)
    requires
        nibbles.len() % 2 == 0,
        0 <= j < nibbles.len(),
        forall|i: int| 0 <= i < nibbles.len() ==> #[trigger] nibbles[i] < 16,
        1 + packed(nibbles).len() <= b.len(),
        b.subrange(1, 1 + packed(nibbles).len() as int) == packed(nibbles),
    ensures
        nibble_at(b, 1, j) == nibbles[j],
{
    let i = j / 2;
    assert(b.subrange(1, 1 + packed(nibbles).len() as int)[i] == b[1 + i]);
    let high = nibbles[2 * i];
    let low = nibbles[2 * i + 1];
    assert(high < 16 && low < 16);
    assert(b[1 + i] == high * 16 + low);
    assert(j == 2 * i || j == 2 * i + 1);
}

proof fn lemma_real_reads(b: Seq<u8>, nibbles: Seq<u8>, k: int)
    requires
        0 <= k <= nibbles.len(),
        1 + packed(ended(nibbles)).len() <= b.len(),
        b.subrange(1, 1 + packed(ended(nibbles)).len() as int) == packed(ended(nibbles)),
        forall|j: int| 0 <= j < nibbles.len() ==> spelling(#[trigger] nibbles[j]),
        is_real(spelled_by(nibbles)),
    ensures
        real_from(b, 1, k, spelled_by(nibbles.take(k))) == Ok::<(Seq<char>, int), Problem>(
            (spelled_by(nibbles), nibbles.len() as int / 2 + 1),
        ),
    decreases nibbles.len() - k,
{
    let all = ended(nibbles);
    assert forall|j: int| 0 <= j < all.len() implies #[trigger] all[j] < 16 by {
        if j < nibbles.len() {
            assert(spelling(nibbles[j]));
        }
    }
    lemma_packed_nibble(b, all, k);
    if k == nibbles.len() {
        assert(nibbles.take(k) =~= nibbles);
    } else {
        assert(nibbles.take(k + 1).drop_last() =~= nibbles.take(k));
        assert(spelling(nibbles[k]));
        lemma_real_reads(b, nibbles, k + 1);
    }
}

/// Every decimal number is read back as the very text that was written, whatever follows
/// it.
pub proof fn dict_reals_round_trip(text: Seq<char>, tail: Seq<u8>)
    requires
        is_real(text),
    ensures
        dict_operand(dict_real(text) + tail, 0) == Ok::<(DictValue, int), Problem>(
            (DictValue::Real(text), dict_real(text).len() as int),
        ),
{
    lemma_real_chars(text);
    lemma_nibbles_spell(text, 0);
    let nibbles = nibbles_from(text, 0);
    let b = dict_real(text) + tail;
    assert(text.skip(0) =~= text);
    assert(b.subrange(1, 1 + packed(ended(nibbles)).len() as int) =~= packed(ended(nibbles)));
    assert(spelled_by(nibbles.take(0)) =~= Seq::<char>::empty());
    lemma_real_reads(b, nibbles, 0);
}

proof fn lemma_real_extends(a: Seq<u8>, b: Seq<u8>, at: int, k: int, text: Seq<char>)
    requires
        0 <= at,
        0 <= k,
        real_from(a, at, k, text) is Ok,
    ensures
        real_from(a + b, at, k, text) == real_from(a, at, k, text),
    decreases 2 * (a.len() - at) - k,
{
    assert((a + b)[at + k / 2] == a[at + k / 2]);
    let nibble = nibble_at(a, at, k);
    if nibble != 0xf && nibble != 0xd {
        lemma_real_extends(a, b, at, k + 1, text + nibble_chars(nibble));
    }
}

proof fn lemma_operand_extends(a: Seq<u8>, b: Seq<u8>, pos: int)
    requires
        0 <= pos < a.len(),
        dict_operand(a, pos) is Ok,
    ensures
        dict_operand(a + b, pos) == dict_operand(a, pos),
        dict_operand(a, pos) matches Ok((_, len)) ==> 1 <= len && pos + len <= a.len(),
{
    let ab = a + b;
    assert(ab[pos] == a[pos]);
    if a[pos] == 30 {
        lemma_real_extends(a, b, pos + 1, 0, Seq::empty());
        lemma_real_len(a, pos + 1, 0, Seq::empty());
    } else if a[pos] == 28 {
        assert(ab[pos + 1] == a[pos + 1] && ab[pos + 2] == a[pos + 2]);
    } else if a[pos] == 29 {
        assert(ab[pos + 1] == a[pos + 1] && ab[pos + 2] == a[pos + 2] && ab[pos + 3] == a[pos + 3]
            && ab[pos + 4] == a[pos + 4]);
    } else if a[pos] >= 247 {
        assert(ab[pos + 1] == a[pos + 1]);
    }
}

/// A DICT that is followed by more data reads as its own entries, and then goes on behind
/// them.
pub proof fn lemma_entries_extend(
    a: Seq<u8>,
    b: Seq<u8>,
    start: int,
    pos: int,
    operands: Seq<DictValue>,
    out: Seq<Entry>,
)
    requires
        0 <= start <= pos <= a.len(),
        entries_from(a, start, pos, operands, out) is Ok,
        pos == a.len() ==> start == pos,
    ensures
        entries_from(a, start, pos, operands, out) matches Ok(es) && entries_from(
            a + b,
            start,
            pos,
            operands,
            out,
        ) == entries_from(a + b, a.len() as int, a.len() as int, Seq::empty(), es),
    decreases a.len() - pos,
{
    let ab = a + b;
    if pos == a.len() {
        assert(operands =~= Seq::<DictValue>::empty());
    } else {
        assert(ab[pos] == a[pos]);
        if a[pos] <= 27 {
            let len: int = if a[pos] == 12 {
                2
            } else {
                1
            };
            if a[pos] == 12 {
                assert(ab[pos + 1] == a[pos + 1]);
            }
            let operator: int = if a[pos] == 12 {
                1200 + a[pos + 1]
            } else {
                a[pos] as int
            };
            assert(ab.subrange(start, pos + len) =~= a.subrange(start, pos + len));
            lemma_entries_extend(
                a,
                b,
                pos + len,
                pos + len,
                Seq::empty(),
                out.push(Entry { operator, operands, raw: a.subrange(start, pos + len) }),
            );
        } else {
            lemma_operand_extends(a, b, pos);
            let (value, len) = dict_operand(a, pos)->Ok_0;
            if pos + len == a.len() {
                // Operands without an operator are refused.
                assert(operands.push(value).len() > 0);
                assert(entries_from(a, start, pos + len, operands.push(value), out) is Err);
            }
            lemma_entries_extend(a, b, start, pos + len, operands.push(value), out);
        }
    }
}

/// An offset operand and the operator behind it read as one entry.
pub proof fn lemma_offset_entry_reads(
    data: Seq<u8>,
    pos: int,
    at: int,
    operator: Seq<u8>,
    out: Seq<Entry>,
)
    requires
        0 <= pos,
        i32::MIN <= at <= i32::MAX,
        operator.len() == 1 && operator[0] <= 27 && operator[0] != 12 || operator.len() == 2
            && operator[0] == 12,
        pos + 5 + operator.len() <= data.len(),
        data.subrange(pos, pos + 5 + operator.len()) == super::num::dict_offset(at) + operator,
    ensures
        entries_from(data, pos, pos, Seq::empty(), out) == entries_from(
            data,
            pos + 5 + operator.len(),
            pos + 5 + operator.len(),
            Seq::empty(),
            out.push(
                Entry {
                    operator: if operator.len() == 2 {
                        1200 + operator[1]
                    } else {
                        operator[0] as int
                    },
                    operands: seq![DictValue::Integer(at)],
                    raw: super::num::dict_offset(at) + operator,
                },
            ),
        ),
{
    let written = super::num::dict_offset(at) + operator;
    let piece = data.subrange(pos, pos + 5 + operator.len());
    let t = crate::bytes::be32(at);
    assert(piece[0] == data[pos] && written[0] == 29);
    assert(piece[1] == data[pos + 1] && written[1] == t[0]);
    assert(piece[2] == data[pos + 2] && written[2] == t[1]);
    assert(piece[3] == data[pos + 3] && written[3] == t[2]);
    assert(piece[4] == data[pos + 4] && written[4] == t[3]);
    assert(piece[5] == data[pos + 5] && written[5] == operator[0]);
    if operator.len() == 2 {
        assert(piece[6] == data[pos + 6] && written[6] == operator[1]);
    }
    super::num::lemma_be32_value(at);
    assert(u32_at(data, pos + 1) == u32_at(t, 0));
    let operands = Seq::<DictValue>::empty().push(DictValue::Integer(at));
    assert(operands =~= seq![DictValue::Integer(at)]);
    assert(dict_operand(data, pos) == Ok::<(DictValue, int), Problem>(
        (DictValue::Integer(at), 5),
    ));
    assert(entries_from(data, pos, pos, Seq::empty(), out) == entries_from(
        data,
        pos,
        pos + 5,
        operands,
        out,
    ));
}

} // verus!
