//! Fonts the user has opened before, and what they last did to them.
//!
//! What is remembered is the font's bytes and the settings last used with it, so choosing a
//! font from the list is not "open this file again" but "carry on where I left off".
use vstd::prelude::*;

use crate::text::{decimal, digit, push_decimal, push_text, string_of};

verus! {

/// How long a cached copy may sit before the interface suggests checking upstream.
pub const STALE_AFTER_DAYS: u64 = 14;

/// The milliseconds of a day.
pub const DAY: u64 = 86_400_000;

/// One remembered font, without its bytes.
#[derive(Clone, Debug, PartialEq, Eq)]
pub struct RecentFont {
    pub id: String,
    /// The file name it was opened as.
    pub name: String,
    /// The family name out of the font, which is usually the more recognisable of the two.
    pub family: String,
    /// The `name` table's version string, nameID 5, as the font reports itself.
    pub version: String,
    /// The settings last used with it, as a query string.
    pub settings: String,
    /// Milliseconds since the epoch, when this copy of the font first arrived.
    pub added: u64,
    /// Its size in bytes.
    pub size: u64,
}

/// How many milliseconds ago something happened. What lies in the future is now.
pub open spec fn age(now: u64, then: u64) -> int {
    if now >= then {
        now - then
    } else {
        0
    }
}

/// `n / d`, rounded to the nearest integer, and to the even one of two.
pub open spec fn rounded(n: int, d: int) -> int {
    let q = n / d;
    let r = n % d;
    if 2 * r > d || (2 * r == d && q % 2 == 1) {
        q + 1
    } else {
        q
    }
}

fn round_ratio(n: u64, d: u64) -> (q: u64)
    requires
        0 < d <= 0x1_0000_0000,
    ensures
        q == rounded(n as int, d as int),
{
    let q: u64 = n / d;
    let r: u64 = n % d;
    if 2 * r > d || (2 * r == d && q % 2 == 1) {
        assert(q < u64::MAX) by {
            assert(d >= 2);
            assert(q <= n / 2) by (nonlinear_arith)
                requires
                    q == n / d,
                    d >= 2,
            ;
        }
        q + 1
    } else {
        q
    }
}

/// An age as it is shown.
pub open spec fn age_text(age: int) -> Seq<char> {
    if age < DAY {
        "today"@
    } else if age < 2 * DAY {
        "yesterday"@
    } else if age < 60 * DAY {
        decimal(rounded(age, DAY as int) as nat) + " days ago"@
    } else {
        decimal(rounded(age, 30 * DAY) as nat) + " months ago"@
    }
}

/// A size as it is shown: in kilobytes, or in megabytes with one decimal.
pub open spec fn size_text(size: int) -> Seq<char> {
    if size >= 1024 * 1024 {
        let tenths = rounded(10 * size, 0x10_0000);
        decimal((tenths / 10) as nat) + "."@ + seq![digit(tenths % 10)] + " MB"@
    } else {
        decimal(rounded(size, 1024) as nat) + " kB"@
    }
}

impl RecentFont {
    /// What to show in the list: the family, falling back to the file name.
    pub fn label(&self) -> (r: &str)
        ensures
            r@ == if self.family@.len() == 0 {
                self.name@
            } else {
                self.family@
            },
    {
        if self.family.as_str().is_empty() {
            self.name.as_str()
        } else {
            self.family.as_str()
        }
    }

    fn age(&self, now: u64) -> (r: u64)
        ensures
            r == age(now, self.added),
    {
        if now >= self.added {
            now - self.added
        } else {
            0
        }
    }

    /// Whether this copy arrived long enough before `now` to mention it.
    ///
    /// A cached font is a copy of a file that has a life of its own. After a fortnight it is
    /// worth a nudge: long enough not to nag about a font opened last Tuesday, short enough
    /// to catch a release.
    pub fn is_stale(&self, now: u64) -> (r: bool)
        ensures
            r == (age(now, self.added) >= STALE_AFTER_DAYS * DAY),
    {
        self.age(now) >= 14 * 86_400_000
    }

    /// "3 days ago", for the tooltip, where the exact stamp is already shown.
    pub fn age_label(&self, now: u64) -> (r: String)
        ensures
            r@ == age_text(age(now, self.added)),
    {
        let age: u64 = self.age(now);
        if age < DAY {
            return "today".to_owned();
        }
        if age < 2 * DAY {
            return "yesterday".to_owned();
        }
        let mut out: Vec<char> = Vec::new();
        if age < 60 * DAY {
            push_decimal(&mut out, round_ratio(age, DAY));
            push_text(&mut out, " days ago");
            assert(out@ =~= age_text(age as int));
        } else {
            push_decimal(&mut out, round_ratio(age, 30 * DAY));
            push_text(&mut out, " months ago");
            assert(out@ =~= age_text(age as int));
        }
        string_of(out.as_slice())
    }

    pub fn size_label(&self) -> (r: String)
        ensures
            r@ == size_text(self.size as int),
    {
        let mut out: Vec<char> = Vec::new();
        if self.size >= 1024 * 1024 {
            let whole: u64 = self.size / 0x10_0000;
            let part: u64 = 10 * (self.size % 0x10_0000);
            let tenths: u64 = 10 * whole + round_ratio(part, 0x10_0000);
            proof {
                let n = 10 * self.size as int;
                assert(n == 10 * whole * 0x10_0000 + part);
                assert(n / 0x10_0000 == 10 * whole + part as int / 0x10_0000);
                assert(n % 0x10_0000 == part as int % 0x10_0000);
                assert(tenths == rounded(n, 0x10_0000));
            }
            push_decimal(&mut out, tenths / 10);
            push_text(&mut out, ".");
            push_decimal(&mut out, tenths % 10);
            push_text(&mut out, " MB");
            assert(decimal((tenths % 10) as nat) == seq![digit((tenths % 10) as int)]);
            assert(out@ =~= size_text(self.size as int));
        } else {
            push_decimal(&mut out, round_ratio(self.size, 1024));
            push_text(&mut out, " kB");
            assert(out@ =~= size_text(self.size as int));
        }
        string_of(out.as_slice())
    }
}

/// The FNV-1a hash of some bytes.
pub open spec fn fnv(bytes: Seq<u8>) -> u64
    decreases bytes.len(),
{
    if bytes.len() == 0 {
        0xcbf2_9ce4_8422_2325
    } else {
        (((fnv(bytes.drop_last()) ^ (bytes.last() as u64)) * 0x100_0000_01b3)
            % 0x1_0000_0000_0000_0000) as u64
    }
}

/// The lower-case hexadecimal digit for `d`.
pub open spec fn hex_digit(d: int) -> char {
    if d < 10 {
        digit(d)
    } else {
        (0x57 + d) as char
    }
}

/// The last `n` hexadecimal digits of `v`.
pub open spec fn hex_digits(v: int, n: int) -> Seq<char>
    decreases n,
{
    if n <= 0 {
        Seq::empty()
    } else {
        hex_digits(v / 16, n - 1).push(hex_digit(v % 16))
    }
}

fn hex_char(d: u64) -> (c: char)
    requires
        d < 16,
    ensures
        c == hex_digit(d as int),
{
    if d < 10 {
        (0x30 + d as u8) as char
    } else {
        (0x57 + d as u8) as char
    }
}

fn push_hex(out: &mut Vec<char>, v: u64, n: usize)
    ensures
        final(out)@ == old(out)@ + hex_digits(v as int, n as int),
    decreases n,
{
    let ghost before = out@;
    if n > 0 {
        push_hex(out, v / 16, n - 1);
        out.push(hex_char(v % 16));
    }
    assert(out@ =~= before + hex_digits(v as int, n as int));
}

/// The identity a font is remembered under.
///
/// The file name alone is a poor key, since half the world's variable fonts are called
/// `font.ttf` at some point, and the bytes alone would list the same font twice under two
/// names. The pair is stable across reloads and distinguishes two versions of the same
/// family, which is exactly what someone comparing them would want.
pub fn identity(name: &str, family: &str, bytes: &[u8]) -> (id: String)
    ensures
        id@ == family@ + seq!['\u{1}'] + name@ + seq!['\u{1}'] + hex_digits(fnv(bytes@) as int, 16),
{
    let mut hash: u64 = 0xcbf2_9ce4_8422_2325;
    assert(bytes@.take(0) =~= Seq::<u8>::empty());
    for i in 0..bytes.len()
        invariant
            hash == fnv(bytes@.take(i as int)),
    {
        assert(bytes@.take(i + 1).drop_last() =~= bytes@.take(i as int));
        let mixed: u64 = hash ^ (bytes[i] as u64);
        let wide: u128 = mixed as u128 * 0x100_0000_01b3;
        hash = (wide % 0x1_0000_0000_0000_0000) as u64;
    }
    assert(bytes@.take(bytes@.len() as int) =~= bytes@);
    let mut out: Vec<char> = Vec::new();
    push_text(&mut out, family);
    out.push('\u{1}');
    push_text(&mut out, name);
    out.push('\u{1}');
    push_hex(&mut out, hash, 16);
    assert(out@ =~= family@ + seq!['\u{1}'] + name@ + seq!['\u{1}'] + hex_digits(
        fnv(bytes@) as int,
        16,
    ));
    string_of(out.as_slice())
}

proof fn lemma_hex_len(v: int, n: int)
    requires
        0 <= n,
    ensures
        hex_digits(v, n).len() == n,
    decreases n,
{
    if n > 0 {
        lemma_hex_len(v / 16, n - 1);
    }
}

/// Fonts of one name and family are told apart by the hash of their bytes, and it takes
/// sixteen digits at the end of the identity.
pub proof fn identities_end_in_the_hash(
    name: Seq<char>,
    family: Seq<char>,
    a: Seq<u8>,
    b: Seq<u8>,
)
    ensures
        hex_digits(fnv(a) as int, 16).len() == 16,
        family + seq!['\u{1}'] + name + seq!['\u{1}'] + hex_digits(fnv(a) as int, 16) == family
            + seq!['\u{1}'] + name + seq!['\u{1}'] + hex_digits(fnv(b) as int, 16) ==> fnv(a)
            == fnv(b),
{
    lemma_hex_len(fnv(a) as int, 16);
    lemma_hex_len(fnv(b) as int, 16);
    let head = family + seq!['\u{1}'] + name + seq!['\u{1}'];
    let x = hex_digits(fnv(a) as int, 16);
    let y = hex_digits(fnv(b) as int, 16);
    if head + x == head + y {
        assert((head + x).skip(head.len() as int) =~= x);
        assert((head + y).skip(head.len() as int) =~= y);
        lemma_hex_value(fnv(a) as int, fnv(b) as int, 16);
        assert(pow16(16) == 0x1_0000_0000_0000_0000) by {
            reveal_with_fuel(pow16, 17);
        }
    }
}

spec fn pow16(n: int) -> int
    decreases n,
{
    if n <= 0 {
        1
    } else {
        16 * pow16(n - 1)
    }
}

proof fn lemma_hex_value(a: int, b: int, n: int)
    requires
        0 <= n,
        0 <= a,
        0 <= b,
        hex_digits(a, n) == hex_digits(b, n),
    ensures
        a < pow16(n) && b < pow16(n) ==> a == b,
    decreases n,
{
    if n > 0 {
        lemma_hex_len(a / 16, n - 1);
        lemma_hex_len(b / 16, n - 1);
        let x = hex_digits(a, n);
        let y = hex_digits(b, n);
        assert(x.drop_last() =~= hex_digits(a / 16, n - 1));
        assert(y.drop_last() =~= hex_digits(b / 16, n - 1));
        assert(x.last() == y.last());
        assert(a % 16 == b % 16) by {
            lemma_hex_digit(a % 16, b % 16);
        }
        lemma_hex_value(a / 16, b / 16, n - 1);
    }
}

proof fn lemma_hex_digit(a: int, b: int)
    requires
        0 <= a < 16,
        0 <= b < 16,
        hex_digit(a) == hex_digit(b),
    ensures
        a == b,
{
    assert(hex_digit(a) as int == if a < 10 {
        0x30 + a
    } else {
        0x57 + a
    });
    assert(hex_digit(b) as int == if b < 10 {
        0x30 + b
    } else {
        0x57 + b
    });
}

} // verus!
