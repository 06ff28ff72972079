//! Fixed-width text cells: repetition, truncation, padding and decimal
//! numerals, all over sequences of characters.

use vstd::prelude::*;
use vstd::string::*;

verus! {

/// The texts of a list of strings, in order.
pub open spec fn texts(strings: Seq<String>) -> Seq<Seq<char>> {
    strings.map_values(|s: String| s@)
}

/// `unit` written `n` times in a row.
pub open spec fn repeated(unit: Seq<char>, n: nat) -> Seq<char>
    decreases n,
{
    if n == 0 {
        Seq::empty()
    } else {
        repeated(unit, (n - 1) as nat) + unit
    }
}

/// `n` spaces.
pub open spec fn spaces(n: nat) -> Seq<char> {
    Seq::new(n, |i: int| ' ')
}

/// The last `n` characters of `s`, or all of `s` when it has no more than `n`.
pub open spec fn tail(s: Seq<char>, n: nat) -> Seq<char> {
    if s.len() <= n {
        s
    } else {
        s.subrange(s.len() - n, s.len() as int)
    }
}

/// `s` left-aligned in a cell of `width` characters; a longer `s` is kept whole.
pub open spec fn left_aligned(s: Seq<char>, width: nat) -> Seq<char> {
    if s.len() >= width {
        s
    } else {
        s + spaces((width - s.len()) as nat)
    }
}

/// `s` right-aligned in a cell of `width` characters; a longer `s` is kept whole.
pub open spec fn right_aligned(s: Seq<char>, width: nat) -> Seq<char> {
    if s.len() >= width {
        s
    } else {
        spaces((width - s.len()) as nat) + s
    }
}

/// The character of a decimal digit `d < 10`.
pub open spec fn digit_char(d: nat) -> char {
    if d == 0 {
        '0'
    } else if d == 1 {
        '1'
    } else if d == 2 {
        '2'
    } else if d == 3 {
        '3'
    } else if d == 4 {
        '4'
    } else if d == 5 {
        '5'
    } else if d == 6 {
        '6'
    } else if d == 7 {
        '7'
    } else if d == 8 {
        '8'
    } else {
        '9'
    }
}

/// The decimal numeral of `n`, without sign or leading zeros.
pub open spec fn numeral(n: nat) -> Seq<char>
    decreases n,
{
    if n < 10 {
        seq![digit_char(n)]
    } else {
        numeral(n / 10) + seq![digit_char(n % 10)]
    }
}

/// `spaces(n)` is `spaces(n - 1)` followed by one space.
pub proof fn lemma_spaces_step(n: nat)
    requires
        n > 0,
    ensures
        spaces(n) =~= spaces((n - 1) as nat) + seq![' '],
{
}

/// Whether two strings hold the same text.
pub fn same_text(a: &str, b: &str) -> (r: bool)
    ensures
        r == (a@ == b@),
{
    let x = String::from_str(a);
    let y = String::from_str(b);
    x == y
}

/// `n` spaces, as a string.
pub fn blank(n: usize) -> (r: String)
    ensures
        r@ == spaces(n as nat),
{
    let mut r = String::new();
    let mut i: usize = 0;
    assert(r@ =~= spaces(0));
    while i < n
        invariant
            i <= n,
            r@ == spaces(i as nat),
        decreases n - i,
    {
        proof {
            reveal_strlit(" ");
            lemma_spaces_step((i + 1) as nat);
            assert(" "@ =~= seq![' ']);
        }
        r.append(" ");
        i = i + 1;
    }
    r
}

/// `s` written `n` times in a row.
pub fn str_repeat(s: &str, n: usize) -> (r: String)
    ensures
        r@ == repeated(s@, n as nat),
{
    let mut r = String::new();
    let mut i: usize = 0;
    while i < n
        invariant
            i <= n,
            r@ == repeated(s@, i as nat),
        decreases n - i,
    {
        r.append(s);
        i = i + 1;
    }
    r
}

/// Keeps the trailing `n` characters of `s`; a string of at most `n`
/// characters comes back whole.
pub fn last_n_chars(s: &str, n: usize) -> (r: String)
    ensures
        r@ == tail(s@, n as nat),
        r@.is_suffix_of(s@),
        r@.len() <= n,
{
    let len = s.unicode_len();
    if len <= n {
        let r = String::from_str(s);
        assert(s@ =~= Seq::empty() + s@);
        r
    } else {
        let r = String::from_str(s.substring_char(len - n, len));
        assert(s@ =~= s@.subrange(0, len - n) + r@);
        r
    }
}

/// `s` followed by as many spaces as bring it to `width` characters.
pub fn pad_right(s: &str, width: usize) -> (r: String)
    ensures
        r@ == left_aligned(s@, width as nat),
{
    let len = s.unicode_len();
    let mut r = String::from_str(s);
    if len < width {
        let fill = blank(width - len);
        r.append(fill.as_str());
    }
    r
}

/// `s` preceded by as many spaces as bring it to `width` characters.
pub fn pad_left(s: &str, width: usize) -> (r: String)
    ensures
        r@ == right_aligned(s@, width as nat),
{
    let len = s.unicode_len();
    if len < width {
        let mut r = blank(width - len);
        r.append(s);
        r
    } else {
        String::from_str(s)
    }
}

/// The one-character string of the decimal digit `d`.
fn digit_str(d: u64) -> (r: &'static str)
    requires
        d < 10,
    ensures
        r@ == seq![digit_char(d as nat)],
{
    proof {
        reveal_strlit("0");
        reveal_strlit("1");
        reveal_strlit("2");
        reveal_strlit("3");
        reveal_strlit("4");
        reveal_strlit("5");
        reveal_strlit("6");
        reveal_strlit("7");
        reveal_strlit("8");
        reveal_strlit("9");
    }
    let r = if d == 0 {
        "0"
    } else if d == 1 {
        "1"
    } else if d == 2 {
        "2"
    } else if d == 3 {
        "3"
    } else if d == 4 {
        "4"
    } else if d == 5 {
        "5"
    } else if d == 6 {
        "6"
    } else if d == 7 {
        "7"
    } else if d == 8 {
        "8"
    } else {
        "9"
    };
    assert(r@ =~= seq![digit_char(d as nat)]);
    r
}

/// The decimal numeral of `n`.
pub fn decimal(n: u64) -> (r: String)
    ensures
        r@ == numeral(n as nat),
    decreases n,
{
    if n < 10 {
        String::from_str(digit_str(n))
    } else {
        let mut r = decimal(n / 10);
        r.append(digit_str(n % 10));
        r
    }
}

} // verus!
