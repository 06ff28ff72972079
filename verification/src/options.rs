//! What the command line asks for, as plain values.

use crate::text::same_text;
use vstd::prelude::*;
use vstd::string::*;

verus! {

/// The table width when none is asked for, and when the terminal's is asked
/// for and cannot be had.
pub const DEFAULT_WIDTH: usize = 80;

/// How a walk treats ignore files and hidden files.
#[derive(Clone, Copy, Debug, PartialEq, Eq, Structural)]
pub struct WalkFlags {
    /// Whether ignore files are respected.
    pub use_ignore: bool,
    /// Whether hidden files are passed over.
    pub ignore_hidden: bool,
}

/// The flags for a number of `-u` on the command line: none respects ignore
/// files and passes over hidden files, one no longer respects ignore files,
/// two or more walk hidden files as well.
pub fn walk_flags(unrestricted: u64) -> (flags: WalkFlags)
    ensures
        flags.use_ignore == (unrestricted == 0),
        flags.ignore_hidden == (unrestricted <= 1),
{
    WalkFlags { use_ignore: unrestricted == 0, ignore_hidden: unrestricted <= 1 }
}

/// The targets to walk: those given, or the current directory when none is.
pub fn targets_or_default(targets: Option<Vec<String>>) -> (r: Vec<String>)
    ensures
        match targets {
            Some(given) => r == given,
            None => r.len() == 1 && r[0]@ == "."@,
        },
{
    match targets {
        Some(given) => given,
        None => {
            let mut r: Vec<String> = Vec::new();
            r.push(String::from_str("."));
            r
        },
    }
}

/// Whether `c` is one of the digits `0` to `9`.
pub open spec fn is_digit(c: char) -> bool {
    '0' <= c <= '9'
}

/// Whether `s` is made of digits only.
pub open spec fn all_digits(s: Seq<char>) -> bool {
    forall|i: int| 0 <= i < s.len() ==> is_digit(#[trigger] s[i])
}

/// The number that a string of digits writes in base ten.
pub open spec fn digits_value(s: Seq<char>) -> nat
    decreases s.len(),
{
    if s.len() == 0 {
        0
    } else {
        digits_value(s.drop_last()) * 10 + (s.last() as nat - 48) as nat
    }
}

/// The digits of a numeral, once an optional leading `+` is taken off.
pub open spec fn unsigned_part(text: Seq<char>) -> Seq<char> {
    if text.len() > 0 && text[0] == '+' {
        text.skip(1)
    } else {
        text
    }
}

/// The number that `text` writes, if it writes one that a `usize` holds: an
/// optional `+`, then one or more digits, nothing before or after.
pub open spec fn number_of(text: Seq<char>) -> Option<usize> {
    let digits = unsigned_part(text);
    if digits.len() > 0 && all_digits(digits) && digits_value(digits) <= usize::MAX {
        Some(digits_value(digits) as usize)
    } else {
        None
    }
}

/// A string of digits writes no less than any of its prefixes.
pub proof fn lemma_digits_value_grows(s: Seq<char>, k: int)
    requires
        0 <= k <= s.len(),
        all_digits(s),
    ensures
        digits_value(s.take(k)) <= digits_value(s),
    decreases s.len() - k,
{
    if k == s.len() {
        assert(s.take(k) =~= s);
    } else {
        lemma_digits_value_grows(s, k + 1);
        assert(s.take(k + 1).drop_last() =~= s.take(k));
        assert(is_digit(s.take(k + 1).last()));
    }
}

/// Reads a number as `usize` is read from text: an optional `+`, then one or
/// more digits; `None` for anything else and for a number too large.
pub fn parse_number(text: &str) -> (r: Option<usize>)
    ensures
        r == number_of(text@),
{
    if !text.is_ascii() {
        proof {
            let digits = unsigned_part(text@);
            if all_digits(digits) {
                assert forall|i: int| 0 <= i < text@.len() implies '\0' <= #[trigger] text@[i]
                    <= '\u{7f}' by {
                    if text@[0] == '+' {
                        if i > 0 {
                            assert(is_digit(digits[i - 1]));
                        }
                    } else {
                        assert(is_digit(digits[i]));
                    }
                }
                assert(false);
            }
        }
        return None;
    }
    let n = text.unicode_len();
    let start: usize = if n > 0 && text.get_ascii(0) == 43 {
        1
    } else {
        0
    };
    let ghost digits = unsigned_part(text@);
    proof {
        vstd::utf8::is_ascii_chars_nat_bound(text@);
        if n > 0 {
            assert((text@[0] as nat) < 128);
            assert(text@[0] == '+' <==> text@[0] as u8 == 43);
        }
        assert(digits =~= text@.skip(start as int));
    }
    if start == n {
        return None;
    }
    let mut value: usize = 0;
    let mut i: usize = start;
    assert(digits.take(0) =~= Seq::<char>::empty());
    while i < n
        invariant
            start <= i <= n,
            n == text@.len(),
            text.is_ascii(),
            digits == text@.skip(start as int),
            digits == unsigned_part(text@),
            all_digits(digits.take(i - start)),
            value == digits_value(digits.take(i - start)),
        decreases n - i,
    {
        let b = text.get_ascii(i);
        let ghost c = text@[i as int];
        let ghost seen = digits.take(i - start);
        let ghost next = digits.take(i - start + 1);
        proof {
            vstd::utf8::is_ascii_chars_nat_bound(text@);
            assert(c == digits[i - start]);
            assert((c as nat) < 128);
            assert(c as nat == b as nat);
            assert(is_digit(c) <==> 48 <= b <= 57);
            assert(next.drop_last() =~= seen);
            assert(next.last() == c);
        }
        if b < 48 || b > 57 {
            assert(!is_digit(digits[i - start]));
            return None;
        }
        proof {
            assert forall|k: int| 0 <= k < next.len() implies is_digit(#[trigger] next[k]) by {
                if k < seen.len() {
                    assert(next[k] == seen[k]);
                }
            }
        }
        let d = (b - 48) as usize;
        let grown = match value.checked_mul(10) {
            Some(v) => v.checked_add(d),
            None => None,
        };
        match grown {
            Some(v) => {
                value = v;
            },
            None => {
                proof {
                    if all_digits(digits) {
                        lemma_digits_value_grows(digits, i - start + 1);
                    }
                }
                return None;
            },
        }
        i = i + 1;
    }
    assert(digits.take(i - start) =~= digits);
    Some(value)
}

/// The table width for a `--width` argument, given the width of the
/// terminal if it could be had: 80 without an argument; for `full` the
/// terminal's width, or 80 where that could not be had; else the number
/// that the argument writes, and `None` when it writes none.
pub open spec fn width_for(arg: Option<Seq<char>>, columns: Option<u16>) -> Option<usize> {
    match arg {
        None => Some(DEFAULT_WIDTH),
        Some(text) => if text == "full"@ {
            match columns {
                Some(w) => Some(w as usize),
                None => Some(DEFAULT_WIDTH),
            }
        } else {
            number_of(text)
        },
    }
}

/// The text of an optional string.
pub open spec fn text_of(arg: Option<&str>) -> Option<Seq<char>> {
    match arg {
        Some(text) => Some(text@),
        None => None,
    }
}

/// The table width for a `--width` argument and a terminal width.
pub fn resolve_width(arg: Option<&str>, columns: Option<u16>) -> (r: Option<usize>)
    ensures
        r == width_for(text_of(arg), columns),
{
    match arg {
        None => Some(DEFAULT_WIDTH),
        Some(text) => {
            if same_text(text, "full") {
                match columns {
                    Some(w) => Some(w as usize),
                    None => Some(DEFAULT_WIDTH),
                }
            } else {
                parse_number(text)
            }
        },
    }
}

/// `terminal_size::terminal_size`: the width of the terminal in columns, if
/// one of the standard streams is a terminal. Nothing is claimed of it.
#[verifier::external_body]
fn terminal_columns() -> (r: Option<u16>) {
    match terminal_size::terminal_size() {
        Some((terminal_size::Width(w), _)) => Some(w),
        None => None,
    }
}

/// The table width for a `--width` argument. The terminal is asked for its
/// width only when the argument is `full`; whatever it answers, the width is
/// then that answer or 80.
pub fn table_width(arg: Option<&str>) -> (r: Option<usize>)
    ensures
        text_of(arg) != Some("full"@) ==> r == width_for(text_of(arg), None),
        text_of(arg) == Some("full"@) ==> exists|columns: Option<u16>|
            r == #[trigger] width_for(text_of(arg), columns),
{
    let full = match arg {
        Some(text) => same_text(text, "full"),
        None => false,
    };
    if full {
        let columns = terminal_columns();
        resolve_width(arg, columns)
    } else {
        resolve_width(arg, None)
    }
}

} // verus!
