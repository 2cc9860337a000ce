//! Text: characters, decimal numbers, and how bytes become text.
use vstd::prelude::*;
use vstd::string::*;

verus! {

/// What `String::from_utf8_lossy` makes of `bytes`.
pub uninterp spec fn lossy_text(bytes: Seq<u8>) -> Seq<char>;

/// The text of `bytes`: what they encode, where they are valid UTF-8, and otherwise what
/// the lossy reading gives.
pub open spec fn text_from(bytes: Seq<u8>) -> Seq<char> {
    if vstd::utf8::valid_utf8(bytes) {
        vstd::utf8::decode_utf8(bytes)
    } else {
        lossy_text(bytes)
    }
}

/// Calls `String::from_utf8_lossy`. Valid UTF-8 comes back as the text it encodes; what
/// stands in for an invalid sequence has a name and nothing more is said of it.
#[verifier::external_body]
pub(crate) fn lossy(bytes: &[u8]) -> (s: String)
    ensures
        s@ == lossy_text(bytes@),
        vstd::utf8::valid_utf8(bytes@) ==> s@ == vstd::utf8::decode_utf8(bytes@),
{
    String::from_utf8_lossy(bytes).into_owned()
}

/// Calls `String::from_iter`, which puts the characters one after another.
#[verifier::external_body]
pub(crate) fn string_of(chars: &[char]) -> (s: String)
    ensures
        s@ == chars@,
{
    String::from_iter(chars.iter())
}

/// The characters of `s`.
pub fn chars_of(s: &str) -> (out: Vec<char>)
    ensures
        out@ == s@,
{
    let mut out: Vec<char> = Vec::new();
    for c in it: s.chars()
        invariant
            it.seq() == s@,
            out@ == s@.take(it.index()),
    {
        proof {
            assert(s@.take(it.index() + 1) =~= s@.take(it.index()).push(c));
        }
        out.push(c);
    }
    assert(s@.take(s@.len() as int) =~= s@);
    out
}

/// The digit character for `d`.
pub open spec fn digit(d: int) -> char {
    (48 + d) as char
}

/// `n` in decimal, without leading zeros.
pub open spec fn decimal(n: nat) -> Seq<char>
    decreases n,
{
    if n < 10 {
        seq![digit(n as int)]
    } else {
        decimal(n / 10).push(digit((n % 10) as int))
    }
}

/// `n` in decimal, with a minus sign in front of a negative one.
pub open spec fn decimal_signed(n: int) -> Seq<char> {
    if n < 0 {
        seq!['-'] + decimal((-n) as nat)
    } else {
        decimal(n as nat)
    }
}

/// Append `n` in decimal.
pub fn push_decimal(out: &mut Vec<char>, n: u64)
    ensures
        final(out)@ == old(out)@ + decimal(n as nat),
    decreases n,
{
    if n >= 10 {
        push_decimal(out, n / 10);
    }
    out.push((48 + (n % 10) as u8) as char);
}

/// `n` in decimal.
pub fn decimal_of(n: u64) -> (s: String)
    ensures
        s@ == decimal(n as nat),
{
    let mut out: Vec<char> = Vec::new();
    push_decimal(&mut out, n);
    string_of(&out)
}

/// `n` in decimal, with its sign.
pub fn decimal_of_signed(n: i64) -> (s: String)
    ensures
        s@ == decimal_signed(n as int),
{
    let mut out: Vec<char> = Vec::new();
    if n < 0 {
        out.push('-');
        // The magnitude of the smallest value does not fit its own type.
        let magnitude: u64 = (-(n + 1)) as u64 + 1;
        push_decimal(&mut out, magnitude);
        assert(out@ =~= seq!['-'] + decimal(magnitude as nat));
    } else {
        push_decimal(&mut out, n as u64);
    }
    string_of(&out)
}

/// `a` followed by `b`.
pub fn join2(a: &str, b: &str) -> (s: String)
    ensures
        s@ == a@ + b@,
{
    a.to_owned().concat(b)
}

/// `a`, `b` and `c`, one after another.
pub fn join3(a: &str, b: &str, c: &str) -> (s: String)
    ensures
        s@ == a@ + b@ + c@,
{
    a.to_owned().concat(b).concat(c)
}

/// Where `c` first stands in `s` from `i` on; the length of `s` where it does not.
pub open spec fn find_from(s: Seq<char>, c: char, i: int) -> int
    decreases s.len() - i,
{
    if i < 0 || i >= s.len() {
        s.len() as int
    } else if s[i] == c {
        i
    } else {
        find_from(s, c, i + 1)
    }
}

/// Where `c` first stands in `s`; the length of `s` where it does not.
pub open spec fn find(s: Seq<char>, c: char) -> int {
    find_from(s, c, 0)
}

/// `s` cut at every `sep`.
pub open spec fn split_on(s: Seq<char>, sep: char) -> Seq<Seq<char>>
    decreases s.len(),
{
    let at = find(s, sep);
    if 0 <= at < s.len() {
        seq![s.take(at)] + split_on(s.skip(at + 1), sep)
    } else {
        seq![s]
    }
}

/// `parts` with `sep` between them.
pub open spec fn joined(parts: Seq<Seq<char>>, sep: Seq<char>) -> Seq<char>
    decreases parts.len(),
{
    if parts.len() == 0 {
        Seq::empty()
    } else if parts.len() == 1 {
        parts[0]
    } else {
        joined(parts.drop_last(), sep) + sep + parts.last()
    }
}

pub proof fn lemma_find_from(s: Seq<char>, c: char, i: int)
    requires
        0 <= i <= s.len(),
    ensures
        i <= find_from(s, c, i) <= s.len(),
        forall|j: int| i <= j < find_from(s, c, i) ==> s[j] != c,
        find_from(s, c, i) < s.len() ==> s[find_from(s, c, i)] == c,
    decreases s.len() - i,
{
    if i < s.len() && s[i] != c {
        lemma_find_from(s, c, i + 1);
    }
}

/// The first `c` is where nothing before it is a `c`.
pub proof fn lemma_find_is(s: Seq<char>, c: char, at: int)
    requires
        0 <= at <= s.len(),
        forall|j: int| 0 <= j < at ==> s[j] != c,
        at < s.len() ==> s[at] == c,
    ensures
        find(s, c) == at,
{
    lemma_find_from(s, c, 0);
}

/// True when `c` does not stand in `s`.
pub open spec fn lacks_char(s: Seq<char>, c: char) -> bool {
    forall|i: int| 0 <= i < s.len() ==> s[i] != c
}

/// Cutting what was joined gives the parts back, when no part holds the separator.
pub proof fn splitting_undoes_joining(parts: Seq<Seq<char>>, sep: char)
    requires
        parts.len() > 0,
        forall|i: int| 0 <= i < parts.len() ==> lacks_char(#[trigger] parts[i], sep),
    ensures
        split_on(joined(parts, seq![sep]), sep) == parts,
    decreases parts.len(),
{
    let all = joined(parts, seq![sep]);
    if parts.len() == 1 {
        lemma_find_is(parts[0], sep, parts[0].len() as int);
        assert(split_on(all, sep) =~= parts);
    } else {
        let rest = parts.skip(1);
        assert(lacks_char(parts[0], sep));
        lemma_joined_first(parts, seq![sep]);
        let tail = joined(rest, seq![sep]);
        let at = parts[0].len() as int;
        assert(all =~= parts[0] + seq![sep] + tail);
        lemma_find_is(all, sep, at);
        assert(all.take(at) =~= parts[0]);
        assert(all.skip(at + 1) =~= tail);
        assert forall|i: int| 0 <= i < rest.len() implies lacks_char(#[trigger] rest[i], sep) by {
            assert(rest[i] == parts[i + 1]);
        }
        splitting_undoes_joining(rest, sep);
        assert(split_on(all, sep) =~= parts);
    }
}

/// Joined parts start with the first one.
pub proof fn lemma_joined_first(parts: Seq<Seq<char>>, sep: Seq<char>)
    requires
        parts.len() > 1,
    ensures
        joined(parts, sep) == parts[0] + sep + joined(parts.skip(1), sep),
    decreases parts.len(),
{
    let rest = parts.skip(1);
    if parts.len() == 2 {
        assert(joined(parts.drop_last(), sep) == parts[0]);
        assert(joined(rest, sep) == parts[1]);
        assert(joined(parts, sep) =~= parts[0] + sep + joined(rest, sep));
    } else {
        let front = parts.drop_last();
        lemma_joined_first(front, sep);
        assert(front.skip(1) =~= rest.drop_last());
        assert(joined(parts, sep) =~= parts[0] + sep + joined(rest, sep));
    }
}

/// Where `c` first stands.
pub fn find_char(s: &[char], c: char) -> (at: usize)
    ensures
        at == find(s@, c),
        at <= s@.len(),
{
    let mut i: usize = 0;
    while i < s.len() && s[i] != c
        invariant
            i <= s@.len(),
            find(s@, c) == find_from(s@, c, i as int),
        decreases s@.len() - i,
    {
        i = i + 1;
    }
    i
}

/// A copy of `s[from..to]`.
pub fn copy_chars(s: &[char], from: usize, to: usize) -> (out: Vec<char>)
    requires
        from <= to <= s@.len(),
    ensures
        out@ == s@.subrange(from as int, to as int),
{
    let mut out: Vec<char> = Vec::new();
    for i in from..to
        invariant
            from <= to <= s@.len(),
            out@ == s@.subrange(from as int, i as int),
    {
        out.push(s[i]);
        assert(out@ =~= s@.subrange(from as int, i + 1));
    }
    out
}

pub open spec fn char_views(parts: Seq<Vec<char>>) -> Seq<Seq<char>> {
    parts.map_values(|p: Vec<char>| p@)
}

/// Cut `s` at every `sep`.
pub fn split_chars(s: &[char], sep: char) -> (parts: Vec<Vec<char>>)
    ensures
        char_views(parts@) == split_on(s@, sep),
{
    let mut parts: Vec<Vec<char>> = Vec::new();
    let mut from: usize = 0;
    assert(s@.skip(0) =~= s@);
    assert(char_views(parts@) =~= Seq::<Seq<char>>::empty());
    assert(char_views(parts@) + split_on(s@.skip(0), sep) =~= split_on(s@, sep));
    loop
        invariant
            from <= s@.len(),
            char_views(parts@) + split_on(s@.skip(from as int), sep) == split_on(s@, sep),
        decreases s@.len() - from,
    {
        let rest: &[char] = vstd::slice::slice_subrange(s, from, s.len());
        assert(rest@ =~= s@.skip(from as int));
        let at: usize = find_char(rest, sep);
        let ghost before = char_views(parts@);
        let part: Vec<char> = copy_chars(rest, 0, at);
        assert(part@ =~= rest@.take(at as int));
        parts.push(part);
        assert(char_views(parts@) =~= before.push(part@));
        if at < rest.len() {
            assert(rest@.skip(at + 1) =~= s@.skip(from + at + 1));
            assert(before + split_on(rest@, sep) =~= char_views(parts@) + split_on(
                s@.skip(from + at + 1),
                sep,
            ));
            from = from + at + 1;
        } else {
            assert(part@ =~= rest@);
            assert(before + split_on(rest@, sep) =~= char_views(parts@));
            return parts;
        }
    }
}

/// Append all of `tail`.
pub fn push_chars(out: &mut Vec<char>, tail: &[char])
    ensures
        final(out)@ == old(out)@ + tail@,
{
    let ghost before = out@;
    for i in 0..tail.len()
        invariant
            out@ == before + tail@.take(i as int),
    {
        out.push(tail[i]);
        assert(tail@.take(i + 1) =~= tail@.take(i as int).push(tail@[i as int]));
    }
    assert(tail@.take(tail@.len() as int) =~= tail@);
}

/// Append all of `tail`.
pub fn push_text(out: &mut Vec<char>, tail: &str)
    ensures
        final(out)@ == old(out)@ + tail@,
{
    let chars: Vec<char> = chars_of(tail);
    push_chars(out, chars.as_slice());
}

/// True when both hold the same characters.
pub fn same_chars(a: &[char], b: &[char]) -> (r: bool)
    ensures
        r == (a@ == b@),
{
    if a.len() != b.len() {
        return false;
    }
    for i in 0..a.len()
        invariant
            a@.len() == b@.len(),
            forall|j: int| 0 <= j < i ==> a@[j] == b@[j],
    {
        if a[i] != b[i] {
            return false;
        }
    }
    assert(a@ =~= b@);
    true
}

/// True when `a` holds exactly the characters of `b`.
pub fn chars_are(a: &[char], b: &str) -> (r: bool)
    ensures
        r == (a@ == b@),
{
    let other: Vec<char> = chars_of(b);
    same_chars(a, other.as_slice())
}

pub open spec fn is_decimal_digit(c: char) -> bool {
    '0' <= c && c <= '9'
}

/// The number that the digits spell.
pub open spec fn digits_value(s: Seq<char>) -> nat
    decreases s.len(),
{
    if s.len() == 0 {
        0
    } else {
        (digits_value(s.drop_last()) * 10 + (s.last() as int - 48)) as nat
    }
}

pub open spec fn all_digits(s: Seq<char>) -> bool {
    forall|i: int| 0 <= i < s.len() ==> is_decimal_digit(#[trigger] s[i])
}

/// The number that a text spells in the form that integers are parsed from: an optional
/// plus sign, and digits.
pub open spec fn parsed_number(s: Seq<char>) -> Option<nat> {
    let body = if s.len() > 0 && s[0] == '+' {
        s.skip(1)
    } else {
        s
    };
    if body.len() > 0 && all_digits(body) {
        Some(digits_value(body))
    } else {
        None
    }
}

/// The number that a text spells, if it is at most `limit`.
pub open spec fn parsed_within(s: Seq<char>, limit: nat) -> Option<nat> {
    match parsed_number(s) {
        Some(v) if v <= limit => Some(v),
        _ => None,
    }
}

/// Read a number that is at most `limit`.
pub fn parse_within(s: &[char], limit: u64) -> (r: Option<u64>)
    requires
        limit <= 0xffff_ffff,
    ensures
        match r {
            Some(v) => parsed_within(s@, limit as nat) == Some(v as nat),
            None => parsed_within(s@, limit as nat) is None,
        },
{
    let start: usize = if s.len() > 0 && s[0] == '+' {
        1
    } else {
        0
    };
    let ghost body = if s@.len() > 0 && s@[0] == '+' {
        s@.skip(1)
    } else {
        s@
    };
    assert(body =~= s@.skip(start as int));
    if start == s.len() {
        return None;
    }
    let mut value: u64 = 0;
    // Once the limit is passed the value no longer matters, only whether digits follow.
    let mut over: bool = false;
    for i in start..s.len()
        invariant
            start <= s@.len(),
            limit <= 0xffff_ffff,
            body == s@.skip(start as int),
            start == (if s@.len() > 0 && s@[0] == '+' {
                1int
            } else {
                0
            }),
            body == (if s@.len() > 0 && s@[0] == '+' {
                s@.skip(1)
            } else {
                s@
            }),
            all_digits(body.take(i - start)),
            !over ==> value == digits_value(body.take(i - start)) && value <= limit,
            over ==> digits_value(body.take(i - start)) > limit,
    {
        let c: char = s[i];
        assert(body[i - start] == c);
        assert(body.take(i + 1 - start).drop_last() =~= body.take(i - start));
        if !('0' <= c && c <= '9') {
            assert(!is_decimal_digit(body[i - start]));
            return None;
        }
        proof {
            let next = body.take(i + 1 - start);
            assert forall|k: int| 0 <= k < next.len() implies is_decimal_digit(
                #[trigger] next[k],
            ) by {
                if k < i - start {
                    assert(body.take(i - start)[k] == next[k]);
                }
            }
        }
        if !over {
            value = value * 10 + (c as u64 - 48);
            if value > limit {
                over = true;
                value = 0;
            }
        }
    }
    assert(body.take(body.len() as int) =~= body);
    if over {
        None
    } else {
        Some(value)
    }
}

proof fn lemma_decimal_digits(n: nat)
    ensures
        all_digits(decimal(n)),
        decimal(n).len() > 0,
        digits_value(decimal(n)) == n,
    decreases n,
{
    if n < 10 {
        let s = decimal(n);
        assert(s.drop_last() =~= Seq::<char>::empty());
        assert(digits_value(s.drop_last()) == 0);
        assert(s.last() as int == 48 + n);
    } else {
        lemma_decimal_digits(n / 10);
        let front = decimal(n / 10);
        let s = decimal(n);
        assert(s.drop_last() =~= front);
        assert forall|i: int| 0 <= i < s.len() implies is_decimal_digit(#[trigger] s[i]) by {
            if i < front.len() {
                assert(s[i] == front[i]);
            }
        }
        assert(s.last() as int == 48 + n % 10);
    }
}

/// A number written in decimal is read back as it was.
pub proof fn decimal_round_trips(n: nat)
    ensures
        parsed_number(decimal(n)) == Some(n),
        all_digits(decimal(n)),
        decimal(n).len() > 0,
{
    lemma_decimal_digits(n);
    assert(is_decimal_digit(decimal(n)[0]));
}

/// `c` in lower case, if it is an ASCII letter.
pub open spec fn ascii_lower(c: char) -> char {
    if 'A' <= c && c <= 'Z' {
        (c as int + 32) as char
    } else {
        c
    }
}

/// `s` with its ASCII letters in lower case.
pub open spec fn lowercased(s: Seq<char>) -> Seq<char> {
    s.map_values(|c: char| ascii_lower(c))
}

/// True when `s` ends with `tail`.
pub open spec fn has_suffix(s: Seq<char>, tail: Seq<char>) -> bool {
    s.len() >= tail.len() && s.skip(s.len() - tail.len()) == tail
}

/// `s` with its ASCII letters in lower case.
pub fn lowercase(s: &str) -> (out: Vec<char>)
    ensures
        out@ == lowercased(s@),
{
    let chars: Vec<char> = chars_of(s);
    let mut out: Vec<char> = Vec::new();
    for i in 0..chars.len()
        invariant
            chars@ == s@,
            out@ == lowercased(s@).take(i as int),
    {
        let c: char = chars[i];
        let low: char = if 'A' <= c && c <= 'Z' {
            (c as u8 + 32) as char
        } else {
            c
        };
        out.push(low);
        assert(out@ =~= lowercased(s@).take(i + 1));
    }
    assert(lowercased(s@).take(s@.len() as int) =~= lowercased(s@));
    out
}

/// True when `s` ends with `tail`.
pub fn ends_with(s: &[char], tail: &str) -> (r: bool)
    ensures
        r == has_suffix(s@, tail@),
{
    let tail: Vec<char> = chars_of(tail);
    if s.len() < tail.len() {
        return false;
    }
    let rest: &[char] = vstd::slice::slice_subrange(s, s.len() - tail.len(), s.len());
    assert(rest@ =~= s@.skip(s@.len() - tail@.len()));
    same_chars(rest, tail.as_slice())
}

/// The parts with `sep` between them.
pub fn join_chars(parts: &Vec<Vec<char>>, sep: char) -> (out: Vec<char>)
    ensures
        out@ == joined(char_views(parts@), seq![sep]),
{
    let ghost views = char_views(parts@);
    let mut out: Vec<char> = Vec::new();
    for i in 0..parts.len()
        invariant
            views == char_views(parts@),
            out@ == joined(views.take(i as int), seq![sep]),
    {
        let ghost before = out@;
        if i > 0 {
            out.push(sep);
        }
        push_chars(&mut out, parts[i].as_slice());
        proof {
            assert(views.take(i + 1).drop_last() =~= views.take(i as int));
            assert(views[i as int] == parts@[i as int]@);
            if i > 0 {
                assert(out@ =~= before + seq![sep] + views[i as int]);
            } else {
                assert(out@ =~= views[0]);
            }
        }
    }
    assert(views.take(views.len() as int) =~= views);
    out
}

/// True for the characters with the Unicode property `White_Space`.
pub open spec fn is_white(c: char) -> bool {
    let v = c as int;
    (9 <= v <= 13) || v == 0x20 || v == 0x85 || v == 0xa0 || v == 0x1680 || (0x2000 <= v <= 0x200a)
        || v == 0x2028 || v == 0x2029 || v == 0x202f || v == 0x205f || v == 0x3000
}

/// `s` without the white space it starts with.
pub open spec fn trimmed_start(s: Seq<char>) -> Seq<char>
    decreases s.len(),
{
    if s.len() > 0 && is_white(s[0]) {
        trimmed_start(s.skip(1))
    } else {
        s
    }
}

/// `s` without the white space it ends with.
pub open spec fn trimmed_end(s: Seq<char>) -> Seq<char>
    decreases s.len(),
{
    if s.len() > 0 && is_white(s.last()) {
        trimmed_end(s.drop_last())
    } else {
        s
    }
}

/// `s` without the white space around it.
pub open spec fn trimmed(s: Seq<char>) -> Seq<char> {
    trimmed_end(trimmed_start(s))
}

fn white(c: char) -> (r: bool)
    ensures
        r == is_white(c),
{
    let v: u32 = c as u32;
    (9 <= v && v <= 13) || v == 0x20 || v == 0x85 || v == 0xa0 || v == 0x1680 || (0x2000 <= v && v
        <= 0x200a) || v == 0x2028 || v == 0x2029 || v == 0x202f || v == 0x205f || v == 0x3000
}

/// `s` without the white space around it.
pub fn trim_chars(s: &[char]) -> (out: Vec<char>)
    ensures
        out@ == trimmed(s@),
{
    let mut from: usize = 0;
    assert(s@.skip(0) =~= s@);
    while from < s.len() && white(s[from])
        invariant
            from <= s@.len(),
            trimmed_start(s@.skip(from as int)) == trimmed_start(s@),
        decreases s@.len() - from,
    {
        assert(s@.skip(from as int)[0] == s@[from as int]);
        assert(s@.skip(from as int).skip(1) =~= s@.skip(from + 1));
        from = from + 1;
    }
    proof {
        if from < s@.len() {
            assert(s@.skip(from as int)[0] == s@[from as int]);
        }
        assert(trimmed_start(s@) == s@.skip(from as int));
    }
    let mut to: usize = s.len();
    assert(s@.subrange(from as int, to as int) =~= s@.skip(from as int));
    while to > from && white(s[to - 1])
        invariant
            from <= to <= s@.len(),
            trimmed_end(s@.subrange(from as int, to as int)) == trimmed(s@),
        decreases to,
    {
        assert(s@.subrange(from as int, to as int).last() == s@[to - 1]);
        assert(s@.subrange(from as int, to as int).drop_last() =~= s@.subrange(
            from as int,
            to - 1,
        ));
        to = to - 1;
    }
    proof {
        if to > from {
            assert(s@.subrange(from as int, to as int).last() == s@[to - 1]);
        }
    }
    copy_chars(s, from, to)
}

} // verus!
