//! Rendering of numbers as text, for wire keys, cache keys and messages.
use vstd::prelude::*;
use vstd::string::*;

verus! {

/// The character of a digit below sixteen, lower case.
pub open spec fn digit_char(d: int) -> char {
    if d < 10 {
        (('0' as int) + d) as char
    } else {
        (('a' as int) + (d - 10)) as char
    }
}

/// The decimal form of a number: no sign, no leading zeros.
pub open spec fn decimal(n: nat) -> Seq<char>
    decreases n,
{
    if n < 10 {
        seq![digit_char(n as int)]
    } else {
        decimal(n / 10).push(digit_char((n % 10) as int))
    }
}

/// The decimal form of a signed number.
pub open spec fn signed_decimal(v: int) -> Seq<char> {
    if v < 0 {
        seq!['-'] + decimal((-v) as nat)
    } else {
        decimal(v as nat)
    }
}

/// The low `width` hexadecimal digits of a number, zero-padded.
pub open spec fn hex(n: nat, width: nat) -> Seq<char>
    decreases width,
{
    if width == 0 {
        Seq::empty()
    } else {
        hex(n / 16, (width - 1) as nat).push(digit_char((n % 16) as int))
    }
}

/// One digit as text.
fn digit(d: u64) -> (s: &'static str)
    requires
        d < 16,
    ensures
        s@ == seq![digit_char(d as int)],
{
    proof {
        reveal_strlit("0");
        reveal_strlit("1");
        reveal_strlit("2");
        reveal_strlit("3");
        reveal_strlit("4");
        reveal_strlit("5");
        reveal_strlit("6");
        reveal_strlit("7");
        reveal_strlit("8");
        reveal_strlit("9");
        reveal_strlit("a");
        reveal_strlit("b");
        reveal_strlit("c");
        reveal_strlit("d");
        reveal_strlit("e");
        reveal_strlit("f");
    }
    let s: &'static str = if d == 0 {
        "0"
    } else if d == 1 {
        "1"
    } else if d == 2 {
        "2"
    } else if d == 3 {
        "3"
    } else if d == 4 {
        "4"
    } else if d == 5 {
        "5"
    } else if d == 6 {
        "6"
    } else if d == 7 {
        "7"
    } else if d == 8 {
        "8"
    } else if d == 9 {
        "9"
    } else if d == 10 {
        "a"
    } else if d == 11 {
        "b"
    } else if d == 12 {
        "c"
    } else if d == 13 {
        "d"
    } else if d == 14 {
        "e"
    } else {
        "f"
    };
    assert(s@ =~= seq![digit_char(d as int)]);
    s
}

/// Appends a number in decimal.
pub fn push_decimal(out: &mut String, n: u64)
    ensures
        final(out)@ == old(out)@ + decimal(n as nat),
    decreases n,
{
    let ghost before = out@;
    if n >= 10 {
        push_decimal(out, n / 10);
    }
    out.append(digit(n % 10));
    assert(out@ =~= before + decimal(n as nat));
}

/// Appends a signed number in decimal.
pub fn push_signed_decimal(out: &mut String, v: i64)
    ensures
        final(out)@ == old(out)@ + signed_decimal(v as int),
{
    let ghost before = out@;
    if v < 0 {
        proof {
            reveal_strlit("-");
        }
        out.append("-");
        let magnitude: u64 = if v == i64::MIN {
            0x8000_0000_0000_0000
        } else {
            (-v) as u64
        };
        push_decimal(out, magnitude);
        assert(out@ =~= before + signed_decimal(v as int));
    } else {
        push_decimal(out, v as u64);
    }
}

/// Appends the low `width` hexadecimal digits of a number.
pub fn push_hex(out: &mut String, n: u64, width: u32)
    ensures
        final(out)@ == old(out)@ + hex(n as nat, width as nat),
    decreases width,
{
    let ghost before = out@;
    if width > 0 {
        push_hex(out, n / 16, width - 1);
        out.append(digit(n % 16));
    }
    assert(out@ =~= before + hex(n as nat, width as nat));
}


/// The first place of a character in a text, from `k` on.
pub open spec fn place(s: Seq<char>, c: char, k: int) -> Option<int>
    decreases s.len() - k,
{
    if k >= s.len() {
        None
    } else if s[k] == c {
        Some(k)
    } else {
        place(s, c, k + 1)
    }
}

/// The place found is one where the character stands.
pub proof fn lemma_place(s: Seq<char>, c: char, k: int)
    requires
        0 <= k,
    ensures
        place(s, c, k) matches Some(p) ==> k <= p < s.len() && s[p] == c,
    decreases s.len() - k,
{
    if k < s.len() && s[k] != c {
        lemma_place(s, c, k + 1);
    }
}

/// Where a character first stands in a text.
pub fn find(s: &str, c: char) -> (r: Option<usize>)
    ensures
        match r {
            Some(p) => p < s@.len() && place(s@, c, 0) == Some(p as int),
            None => place(s@, c, 0) is None,
        },
{
    let n: usize = s.unicode_len();
    let mut k: usize = 0;
    while k < n
        invariant
            k <= n,
            n == s@.len(),
            place(s@, c, 0) == place(s@, c, k as int),
        decreases n - k,
    {
        if s.get_char(k) == c {
            return Some(k);
        }
        k = k + 1;
    }
    None
}

/// Whether two texts are the same.
pub fn same(a: &str, b: &str) -> (r: bool)
    ensures
        r == (a@ == b@),
{
    let n: usize = a.unicode_len();
    if n != b.unicode_len() {
        return false;
    }
    let mut k: usize = 0;
    while k < n
        invariant
            k <= n,
            n == a@.len(),
            n == b@.len(),
            forall|j: int| 0 <= j < k ==> a@[j] == b@[j],
        decreases n - k,
    {
        if a.get_char(k) != b.get_char(k) {
            return false;
        }
        k = k + 1;
    }
    assert(a@ =~= b@);
    true
}

/// The value of a decimal digit.
pub open spec fn digit_value(c: char) -> Option<nat> {
    if '0' <= c <= '9' {
        Some((c as int - '0' as int) as nat)
    } else {
        None
    }
}

/// The number that the first `k` characters write in decimal, if they all are
/// digits.
pub open spec fn digits_value(s: Seq<char>, k: nat) -> Option<nat>
    decreases k,
{
    if k == 0 {
        Some(0)
    } else {
        match (digits_value(s, (k - 1) as nat), digit_value(s[k - 1])) {
            (Some(n), Some(d)) => Some(10 * n + d),
            _ => None,
        }
    }
}

/// The number that a text writes in decimal: one digit or more, after a plus
/// sign or without.
pub open spec fn number(s: Seq<char>) -> Option<nat> {
    let digits = if s.len() > 0 && s[0] == '+' {
        s.skip(1)
    } else {
        s
    };
    if digits.len() == 0 {
        None
    } else {
        digits_value(digits, digits.len())
    }
}

proof fn lemma_digits_grow(s: Seq<char>, a: nat, b: nat)
    requires
        a <= b,
    ensures
        digits_value(s, b) matches Some(n) ==> digits_value(s, a) is Some && digits_value(
            s,
            a,
        )->Some_0 <= n,
    decreases b - a,
{
    if a < b {
        lemma_digits_grow(s, a, (b - 1) as nat);
    }
}

/// Reads a decimal number that fits.
pub fn read_number(s: &str) -> (r: Option<u64>)
    ensures
        r == (match number(s@) {
            Some(n) => if n <= u64::MAX {
                Some(n as u64)
            } else {
                None
            },
            None => None,
        }),
{
    let n: usize = s.unicode_len();
    if n > 0 && s.get_char(0) == '+' {
        let rest: &str = s.substring_char(1, n);
        assert(rest@ =~= s@.skip(1));
        read_digits(rest)
    } else {
        read_digits(s)
    }
}

fn read_digits(s: &str) -> (r: Option<u64>)
    ensures
        r == (if s@.len() == 0 {
            None
        } else {
            match digits_value(s@, s@.len()) {
                Some(n) => if n <= u64::MAX {
                    Some(n as u64)
                } else {
                    None
                },
                None => None,
            }
        }),
{
    let n: usize = s.unicode_len();
    if n == 0 {
        return None;
    }
    let mut value: u64 = 0;
    let mut k: usize = 0;
    while k < n
        invariant
            k <= n,
            n == s@.len(),
            n > 0,
            digits_value(s@, k as nat) == Some(value as nat),
        decreases n - k,
    {
        let c: char = s.get_char(k);
        proof {
            lemma_digits_grow(s@, (k + 1) as nat, n as nat);
        }
        if c < '0' || c > '9' {
            return None;
        }
        let d: u64 = c as u64 - '0' as u64;
        if value > (u64::MAX - d) / 10 {
            assert(10 * value + d > u64::MAX) by (nonlinear_arith)
                requires
                    value > (u64::MAX - d) / 10,
                    d <= 9,
            ;
            return None;
        }
        assert(10 * value + d <= u64::MAX) by (nonlinear_arith)
            requires
                value <= (u64::MAX - d) / 10,
                d <= 9,
        ;
        value = 10 * value + d;
        k = k + 1;
    }
    Some(value)
}

/// How a text is shown in quotes, with what cannot be shown as it is escaped.
pub uninterp spec fn quoted_text(s: Seq<char>) -> Seq<char>;

/// Formats a text with `{:?}`, that is with the `Debug` of `str` in std. The
/// result is a function of the text alone; which characters are escaped, and
/// how, is not stated.
#[verifier::external_body]
pub(crate) fn quoted(s: &str) -> (r: String)
    ensures
        r@ == quoted_text(s@),
{
    format!("{:?}", s)
}

/// Whether one text comes before another in dictionary order, looking from
/// `k` on.
pub open spec fn precedes_from(a: Seq<char>, b: Seq<char>, k: int) -> bool
    decreases b.len() - k,
{
    if k >= b.len() {
        false
    } else if k >= a.len() {
        true
    } else if a[k] == b[k] {
        precedes_from(a, b, k + 1)
    } else {
        a[k] < b[k]
    }
}

/// Whether one text comes before another in dictionary order.
pub open spec fn precedes(a: Seq<char>, b: Seq<char>) -> bool {
    precedes_from(a, b, 0)
}

/// Whether one text comes before another.
pub fn is_before(a: &str, b: &str) -> (r: bool)
    ensures
        r == precedes(a@, b@),
{
    let n: usize = a.unicode_len();
    let m: usize = b.unicode_len();
    let mut k: usize = 0;
    while k < m
        invariant
            k <= m,
            k <= n,
            n == a@.len(),
            m == b@.len(),
            precedes(a@, b@) == precedes_from(a@, b@, k as int),
        decreases m - k,
    {
        if k >= n {
            return true;
        }
        let x: char = a.get_char(k);
        let y: char = b.get_char(k);
        if x != y {
            return x < y;
        }
        k = k + 1;
    }
    false
}

proof fn lemma_order_from(a: Seq<char>, b: Seq<char>, k: int)
    requires
        0 <= k <= a.len(),
        k <= b.len(),
        a.take(k) == b.take(k),
    ensures
        !(precedes_from(a, b, k) && precedes_from(b, a, k)),
        !precedes_from(a, b, k) && !precedes_from(b, a, k) ==> a == b,
    decreases b.len() - k,
{
    if k < a.len() && k < b.len() && a[k] == b[k] {
        assert(a.take(k + 1) =~= b.take(k + 1)) by {
            assert forall|i: int| 0 <= i < k + 1 implies a[i] == b[i] by {
                if i < k {
                    assert(a[i] == a.take(k)[i]);
                    assert(b[i] == b.take(k)[i]);
                }
            }
        }
        lemma_order_from(a, b, k + 1);
    } else if k == a.len() && k == b.len() {
        assert(a.take(k) =~= a);
        assert(b.take(k) =~= b);
    }
}

/// Dictionary order is total.
pub proof fn lemma_order_is_total(a: Seq<char>, b: Seq<char>)
    ensures
        !(precedes(a, b) && precedes(b, a)),
        precedes(a, b) || precedes(b, a) || a == b,
{
    assert(a.take(0) =~= b.take(0));
    lemma_order_from(a, b, 0);
}

proof fn lemma_order_carries_from(a: Seq<char>, b: Seq<char>, c: Seq<char>, k: int)
    requires
        0 <= k,
        precedes_from(a, b, k),
        precedes_from(b, c, k),
    ensures
        precedes_from(a, c, k),
    decreases c.len() - k,
{
    if k < a.len() && k < b.len() && k < c.len() && a[k] == b[k] && b[k] == c[k] {
        lemma_order_carries_from(a, b, c, k + 1);
    }
}

/// Dictionary order carries over.
pub proof fn lemma_order_carries(a: Seq<char>, b: Seq<char>, c: Seq<char>)
    requires
        precedes(a, b),
        precedes(b, c),
    ensures
        precedes(a, c),
{
    lemma_order_carries_from(a, b, c, 0);
}

/// Whether a text begins with another.
pub open spec fn begins_with(s: Seq<char>, start: Seq<char>) -> bool {
    start.len() <= s.len() && s.take(start.len() as int) == start
}

/// Whether a text begins with another.
pub fn starts_with(s: &str, start: &str) -> (r: bool)
    ensures
        r == begins_with(s@, start@),
{
    let n: usize = start.unicode_len();
    if s.unicode_len() < n {
        return false;
    }
    let mut k: usize = 0;
    while k < n
        invariant
            k <= n,
            n == start@.len(),
            n <= s@.len(),
            forall|j: int| 0 <= j < k ==> s@[j] == start@[j],
        decreases n - k,
    {
        if s.get_char(k) != start.get_char(k) {
            assert(s@.take(n as int)[k as int] != start@[k as int]);
            return false;
        }
        k = k + 1;
    }
    assert(s@.take(n as int) =~= start@);
    true
}

/// A copy of a text.
pub fn copy(s: &String) -> (r: String)
    ensures
        r@ == s@,
{
    s.as_str().to_owned()
}

proof fn lemma_digit_tells(a: int, b: int)
    requires
        0 <= a < 10,
        0 <= b < 10,
        digit_char(a) == digit_char(b),
    ensures
        a == b,
{
    assert(digit_char(a) as int == 48 + a);
    assert(digit_char(b) as int == 48 + b);
}

/// Different numbers have different decimal forms, and no form is empty.
pub proof fn lemma_decimal_tells(a: nat, b: nat)
    requires
        decimal(a) == decimal(b),
    ensures
        a == b,
    decreases a,
{
    lemma_decimal_digits(a);
    lemma_decimal_digits(b);
    if a < 10 {
        if b >= 10 {
            lemma_decimal_digits(b / 10);
            assert(decimal(b).len() >= 2);
        } else {
            assert(decimal(a)[0] == digit_char(a as int));
            assert(decimal(b)[0] == digit_char(b as int));
            lemma_digit_tells(a as int, b as int);
        }
    } else {
        if b < 10 {
            lemma_decimal_digits(a / 10);
            assert(decimal(a).len() >= 2);
        } else {
            assert(decimal(a).drop_last() =~= decimal(a / 10));
            assert(decimal(b).drop_last() =~= decimal(b / 10));
            lemma_decimal_tells(a / 10, b / 10);
            assert(decimal(a).last() == digit_char((a % 10) as int));
            assert(decimal(b).last() == digit_char((b % 10) as int));
            lemma_digit_tells((a % 10) as int, (b % 10) as int);
        }
    }
}

/// A decimal form is one digit or more.
pub proof fn lemma_decimal_digits(n: nat)
    ensures
        decimal(n).len() >= 1,
        forall|i: int| 0 <= i < decimal(n).len() ==> '0' <= #[trigger] decimal(n)[i] <= '9',
    decreases n,
{
    if n >= 10 {
        lemma_decimal_digits(n / 10);
    }
}

/// Different numbers have different signed forms, made of digits and at most
/// a sign.
pub proof fn lemma_signed_tells(a: int, b: int)
    requires
        signed_decimal(a) == signed_decimal(b),
    ensures
        a == b,
{
    if a < 0 {
        lemma_decimal_digits((-a) as nat);
        assert(signed_decimal(a)[0] == '-');
        assert(signed_decimal(a).skip(1) =~= decimal((-a) as nat));
    } else {
        lemma_decimal_digits(a as nat);
        assert(signed_decimal(a)[0] != '-');
    }
    if b < 0 {
        lemma_decimal_digits((-b) as nat);
        assert(signed_decimal(b)[0] == '-');
        assert(signed_decimal(b).skip(1) =~= decimal((-b) as nat));
    } else {
        lemma_decimal_digits(b as nat);
        assert(signed_decimal(b)[0] != '-');
    }
    if a < 0 {
        lemma_decimal_tells((-a) as nat, (-b) as nat);
    } else {
        lemma_decimal_tells(a as nat, b as nat);
    }
}

/// What follows the last separator, and what stands before it, can be told.
pub proof fn lemma_split_at_last(
    a: Seq<char>,
    x: Seq<char>,
    b: Seq<char>,
    y: Seq<char>,
    sep: char,
)
    requires
        a + seq![sep] + x == b + seq![sep] + y,
        !x.contains(sep),
        !y.contains(sep),
    ensures
        a == b,
        x == y,
{
    let s = a + seq![sep] + x;
    assert(s.len() == a.len() + 1 + x.len());
    assert((b + seq![sep] + y).len() == b.len() + 1 + y.len());
    assert(s[a.len() as int] == sep);
    assert(s[b.len() as int] == sep);
    if a.len() < b.len() {
        let i = b.len() - a.len() - 1;
        assert(s[a.len() as int + 1 + i] == x[i]);
        assert(x.contains(sep));
    }
    if b.len() < a.len() {
        let i = a.len() - b.len() - 1;
        assert((b + seq![sep] + y)[b.len() as int + 1 + i] == y[i]);
        assert(y.contains(sep));
    }
    assert(a =~= s.take(a.len() as int));
    assert(b =~= s.take(b.len() as int));
    assert(x =~= s.skip(a.len() as int + 1));
    assert(y =~= s.skip(b.len() as int + 1));
}

/// A decimal form reads back as its number.
pub proof fn lemma_decimal_reads_back(n: nat)
    ensures
        number(decimal(n)) == Some(n),
{
    lemma_decimal_digits(n);
    lemma_digits_value(n);
    assert('0' <= decimal(n)[0] <= '9');
}

proof fn lemma_digits_value(n: nat)
    ensures
        digits_value(decimal(n), decimal(n).len()) == Some(n),
    decreases n,
{
    let s = decimal(n);
    if n < 10 {
        assert(digit_char(n as int) as int == 48 + n);
        assert(digits_value(s, 0) == Some(0nat));
    } else {
        lemma_digits_value(n / 10);
        let t = decimal(n / 10);
        assert(digit_char((n % 10) as int) as int == 48 + n % 10);
        lemma_value_of_prefix(t, s, t.len());
        assert(s.len() == t.len() + 1);
    }
}

proof fn lemma_value_of_prefix(t: Seq<char>, s: Seq<char>, k: nat)
    requires
        k <= t.len() <= s.len(),
        forall|i: int| 0 <= i < t.len() ==> t[i] == s[i],
    ensures
        digits_value(t, k) == digits_value(s, k),
    decreases k,
{
    if k > 0 {
        lemma_value_of_prefix(t, s, (k - 1) as nat);
    }
}
} // verus!
