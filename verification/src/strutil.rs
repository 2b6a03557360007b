//! Verified helpers for working with strings: trimming, searching,
//! slicing, and the decimal and hexadecimal renderings used by the
//! snapshot text format.

use vstd::prelude::*;
use vstd::string::*;

verus! {

/// The whitespace characters recognised by the snapshot text format.
pub open spec fn is_ws(c: char) -> bool {
    c == ' ' || c == '\t' || c == '\r' || c == '\n'
}

/// `s` without its leading whitespace.
pub open spec fn drop_leading_ws(s: Seq<char>) -> Seq<char>
    decreases s.len(),
{
    if s.len() > 0 && is_ws(s[0]) {
        drop_leading_ws(s.drop_first())
    } else {
        s
    }
}

/// `s` without its trailing whitespace.
pub open spec fn drop_trailing_ws(s: Seq<char>) -> Seq<char>
    decreases s.len(),
{
    if s.len() > 0 && is_ws(s.last()) {
        drop_trailing_ws(s.drop_last())
    } else {
        s
    }
}

/// `s` without leading and trailing whitespace.
pub open spec fn trim_spec(s: Seq<char>) -> Seq<char> {
    drop_trailing_ws(drop_leading_ws(s))
}

/// A string that trimming leaves unchanged.
pub open spec fn trim_stable(s: Seq<char>) -> bool {
    trim_spec(s) == s
}

/// Dropping leading whitespace is skipping up to the first non-blank.
pub proof fn lemma_drop_leading_ws_skip(s: Seq<char>, i: int)
    requires
        0 <= i <= s.len(),
        forall|j: int| 0 <= j < i ==> is_ws(s[j]),
        i == s.len() || !is_ws(s[i]),
    ensures
        drop_leading_ws(s) == s.skip(i),
    decreases i,
{
    if i == 0 {
        assert(s.skip(0) == s);
    } else {
        lemma_drop_leading_ws_skip(s.drop_first(), i - 1);
        assert(s.drop_first().skip(i - 1) == s.skip(i));
    }
}

proof fn lemma_drop_trailing_ws_take(s: Seq<char>, i: int)
    requires
        0 <= i <= s.len(),
        forall|j: int| i <= j < s.len() ==> is_ws(s[j]),
        i == 0 || !is_ws(s[i - 1]),
    ensures
        drop_trailing_ws(s) == s.take(i),
    decreases s.len() - i,
{
    if i == s.len() {
        assert(s.take(i) == s);
    } else {
        assert(s.drop_last() == s.take(s.len() - 1));
        lemma_drop_trailing_ws_take(s.drop_last(), i);
        assert(s.drop_last().take(i) == s.take(i));
    }
}

/// The number of leading whitespace characters.
pub open spec fn ws_count(s: Seq<char>) -> int
    decreases s.len(),
{
    if s.len() > 0 && is_ws(s[0]) {
        1 + ws_count(s.drop_first())
    } else {
        0
    }
}

/// `ws_count` is the length of the run of blanks at the front.
pub proof fn lemma_ws_count(s: Seq<char>, k: int)
    requires
        0 <= k <= s.len(),
        forall|j: int| 0 <= j < k ==> is_ws(s[j]),
        k == s.len() || !is_ws(s[k]),
    ensures
        ws_count(s) == k,
    decreases k,
{
    if s.len() == 0 {
    } else if k == 0 {
    } else {
        lemma_ws_count(s.drop_first(), k - 1);
    }
}

/// Trimming trims: the result carries no whitespace at either end, and a
/// trim-stable string is its own trimmed form.
pub proof fn lemma_trim_of_trim_stable(s: Seq<char>)
    requires
        s.len() > 0,
        !is_ws(s[0]),
        !is_ws(s.last()),
    ensures
        trim_spec(s) == s,
{
    lemma_drop_leading_ws_skip(s, 0);
    assert(s.skip(0) == s);
    lemma_drop_trailing_ws_take(s, s.len() as int);
    assert(s.take(s.len() as int) == s);
}

proof fn lemma_drop_leading_ws_len(s: Seq<char>)
    ensures
        drop_leading_ws(s).len() <= s.len(),
        s.len() > 0 && is_ws(s[0]) ==> drop_leading_ws(s).len() < s.len(),
    decreases s.len(),
{
    if s.len() > 0 && is_ws(s[0]) {
        lemma_drop_leading_ws_len(s.drop_first());
    }
}

proof fn lemma_drop_trailing_ws_len(s: Seq<char>)
    ensures
        drop_trailing_ws(s).len() <= s.len(),
        s.len() > 0 && is_ws(s.last()) ==> drop_trailing_ws(s).len() < s.len(),
    decreases s.len(),
{
    if s.len() > 0 && is_ws(s.last()) {
        lemma_drop_trailing_ws_len(s.drop_last());
    }
}

/// A non-empty trim-stable string begins and ends with a non-blank.
pub proof fn lemma_trim_stable_ends(s: Seq<char>)
    requires
        trim_spec(s) == s,
        s.len() > 0,
    ensures
        !is_ws(s[0]),
        !is_ws(s.last()),
{
    lemma_drop_leading_ws_len(s);
    lemma_drop_trailing_ws_len(drop_leading_ws(s));
    if is_ws(s[0]) {
        assert(trim_spec(s).len() < s.len());
    }
    assert(drop_leading_ws(s) == s);
    if is_ws(s.last()) {
        assert(trim_spec(s).len() < s.len());
    }
}

/// Trailing blanks fall to trimming.
pub proof fn lemma_trim_drop_trailing(s: Seq<char>, c: char)
    requires
        is_ws(c),
    ensures
        trim_spec(s.push(c)) == trim_spec(s),
    decreases s.len(),
{
    let t = s.push(c);
    if s.len() == 0 {
        assert(t.len() == 1 && is_ws(t[0]));
        assert(drop_leading_ws(t) == drop_leading_ws(t.drop_first()));
        assert(t.drop_first() =~= s);
        assert(drop_leading_ws(s) =~= s);
        assert(drop_trailing_ws(s) =~= s);
    } else if is_ws(s[0]) {
        assert(t[0] == s[0]);
        assert(drop_leading_ws(t) == drop_leading_ws(t.drop_first()));
        assert(t.drop_first() =~= s.drop_first().push(c));
        lemma_trim_drop_trailing(s.drop_first(), c);
        assert(drop_leading_ws(s) == drop_leading_ws(s.drop_first()));
    } else {
        assert(drop_leading_ws(t) == t);
        assert(drop_leading_ws(s) == s);
        assert(t.last() == c && is_ws(t.last()));
        assert(drop_trailing_ws(t) == drop_trailing_ws(t.drop_last()));
        assert(t.drop_last() =~= s);
    }
}

/// The whole trimmed form of a padded string: blanks on either side
/// fall away.
pub proof fn lemma_trim_pad_left(s: Seq<char>, c: char)
    requires
        is_ws(c),
    ensures
        trim_spec(seq![c] + s) == trim_spec(s),
{
    let t = seq![c] + s;
    assert(t.len() > 0 && is_ws(t[0]));
    assert(drop_leading_ws(t) == drop_leading_ws(t.drop_first()));
    assert(t.drop_first() =~= s);
}

/// Trims whitespace from both ends of a string.
pub fn trim(s: &str) -> (r: &str)
    ensures
        r@ == trim_spec(s@),
{
    let n = s.unicode_len();
    let mut a: usize = 0;
    while a < n && char_is_ws(s.get_char(a))
        invariant
            0 <= a <= n,
            n == s@.len(),
            forall|j: int| 0 <= j < a ==> is_ws(s@[j]),
        decreases n - a,
    {
        a = a + 1;
    }
    proof {
        lemma_drop_leading_ws_skip(s@, a as int);
    }
    let mut b: usize = n;
    while b > a && char_is_ws(s.get_char(b - 1))
        invariant
            a <= b <= n,
            n == s@.len(),
            forall|j: int| 0 <= j < a ==> is_ws(s@[j]),
            a == n || !is_ws(s@[a as int]),
            forall|j: int| b <= j < n ==> is_ws(s@[j]),
        decreases b,
    {
        b = b - 1;
    }
    let r = s.substring_char(a, b);
    proof {
        let t = s@.skip(a as int);
        if b == a {
            assert(forall|j: int| 0 <= j < t.len() ==> is_ws(t[j]));
            lemma_drop_trailing_ws_take(t, 0);
        } else {
            assert(t[b - a - 1] == s@[b - 1]);
            assert(forall|j: int| b - a <= j < t.len() ==> is_ws(t[j]));
            lemma_drop_trailing_ws_take(t, b - a);
        }
        assert(s@.skip(a as int).take(b - a) == s@.subrange(a as int, b as int));
    }
    r
}

/// Whether `c` is one of the whitespace characters of the format.
pub fn char_is_ws(c: char) -> (r: bool)
    ensures
        r == is_ws(c),
{
    c == ' ' || c == '\t' || c == '\r' || c == '\n'
}

/// Character-wise string equality.
pub fn str_eq(a: &str, b: &str) -> (r: bool)
    ensures
        r == (a@ == b@),
{
    let na = a.unicode_len();
    let nb = b.unicode_len();
    if na != nb {
        proof {
            assert(a@ != b@);
        }
        return false;
    }
    let mut i: usize = 0;
    while i < na
        invariant
            0 <= i <= na,
            na == a@.len(),
            na == b@.len(),
            forall|j: int| 0 <= j < i ==> a@[j] == b@[j],
        decreases na - i,
    {
        if a.get_char(i) != b.get_char(i) {
            proof {
                assert(a@[i as int] != b@[i as int]);
            }
            return false;
        }
        i = i + 1;
    }
    proof {
        assert(a@ =~= b@);
    }
    true
}

/// Lexicographic order on character sequences, by code point.
pub open spec fn seq_le(a: Seq<char>, b: Seq<char>) -> bool
    decreases a.len(),
{
    if a.len() == 0 {
        true
    } else if b.len() == 0 {
        false
    } else if a[0] != b[0] {
        a[0] < b[0]
    } else {
        seq_le(a.drop_first(), b.drop_first())
    }
}

/// The order is total.
pub proof fn lemma_seq_le_total(a: Seq<char>, b: Seq<char>)
    ensures
        seq_le(a, b) || seq_le(b, a),
    decreases a.len(),
{
    if a.len() > 0 && b.len() > 0 && a[0] == b[0] {
        lemma_seq_le_total(a.drop_first(), b.drop_first());
    }
}

/// The order is antisymmetric.
pub proof fn lemma_seq_le_antisym(a: Seq<char>, b: Seq<char>)
    requires
        seq_le(a, b),
        seq_le(b, a),
    ensures
        a == b,
    decreases a.len(),
{
    if a.len() == 0 {
        assert(b.len() == 0);
        assert(a =~= b);
    } else {
        assert(b.len() > 0);
        assert(a[0] == b[0]);
        lemma_seq_le_antisym(a.drop_first(), b.drop_first());
        assert(a =~= seq![a[0]] + a.drop_first());
        assert(b =~= seq![b[0]] + b.drop_first());
    }
}

/// The order is transitive.
pub proof fn lemma_seq_le_trans(a: Seq<char>, b: Seq<char>, c: Seq<char>)
    requires
        seq_le(a, b),
        seq_le(b, c),
    ensures
        seq_le(a, c),
    decreases a.len(),
{
    if a.len() > 0 && b.len() > 0 && c.len() > 0 && a[0] == b[0] && b[0] == c[0] {
        lemma_seq_le_trans(a.drop_first(), b.drop_first(), c.drop_first());
    }
}

/// Compares two strings in lexicographic order.
pub fn str_le(a: &str, b: &str) -> (r: bool)
    ensures
        r == seq_le(a@, b@),
{
    let na = a.unicode_len();
    let nb = b.unicode_len();
    let mut i: usize = 0;
    proof {
        assert(a@.skip(0) == a@);
        assert(b@.skip(0) == b@);
    }
    loop
        invariant
            0 <= i <= na,
            i <= nb,
            na == a@.len(),
            nb == b@.len(),
            seq_le(a@, b@) == seq_le(a@.skip(i as int), b@.skip(i as int)),
        decreases na - i,
    {
        proof {
            let sa = a@.skip(i as int);
            let sb = b@.skip(i as int);
            if i < na && i < nb {
                assert(sa[0] == a@[i as int]);
                assert(sb[0] == b@[i as int]);
                assert(sa.drop_first() =~= a@.skip(i + 1));
                assert(sb.drop_first() =~= b@.skip(i + 1));
            }
        }
        if i == na {
            return true;
        }
        if i == nb {
            return false;
        }
        let ca = a.get_char(i);
        let cb = b.get_char(i);
        if ca != cb {
            return ca < cb;
        }
        i = i + 1;
    }
}

/// First index at or after `from` where `c` occurs in `s`, if any.
pub fn find_char(s: &str, from: usize, c: char) -> (r: Option<usize>)
    requires
        from <= s@.len(),
    ensures
        match r {
            Some(i) => from <= i < s@.len() && s@[i as int] == c && forall|j: int|
                from <= j < i ==> s@[j] != c,
            None => forall|j: int| from <= j < s@.len() ==> s@[j] != c,
        },
{
    let n = s.unicode_len();
    let mut i: usize = from;
    while i < n
        invariant
            from <= i <= n,
            n == s@.len(),
            forall|j: int| from <= j < i ==> s@[j] != c,
        decreases n - i,
    {
        if s.get_char(i) == c {
            return Some(i);
        }
        i = i + 1;
    }
    None
}

/// An occurrence of the arrow token `->` at index `i` of `s`.
pub open spec fn arrow_at(s: Seq<char>, i: int) -> bool {
    0 <= i && i + 2 <= s.len() && s[i] == '-' && s[i + 1] == '>'
}

/// No occurrence of `->` at or after index `from`.
pub open spec fn arrow_free_from(s: Seq<char>, from: int) -> bool {
    forall|j: int| from <= j ==> !arrow_at(s, j)
}

/// No occurrence of `->` anywhere in `s`.
pub open spec fn arrow_free(s: Seq<char>) -> bool {
    arrow_free_from(s, 0)
}

/// First index at or after `from` where `->` occurs in `s`, if any.
pub fn find_arrow(s: &str, from: usize) -> (r: Option<usize>)
    requires
        from <= s@.len(),
    ensures
        match r {
            Some(i) => from <= i && arrow_at(s@, i as int) && forall|j: int|
                from <= j < i ==> !arrow_at(s@, j),
            None => arrow_free_from(s@, from as int),
        },
{
    let n = s.unicode_len();
    if n < 2 {
        proof {
            assert forall|j: int| from <= j implies !arrow_at(s@, j) by {}
        }
        return None;
    }
    let mut i: usize = from;
    while i < n - 1
        invariant
            from <= i,
            i <= n,
            n >= 2,
            n == s@.len(),
            forall|j: int| from <= j < i ==> !arrow_at(s@, j),
        decreases n - i,
    {
        if s.get_char(i) == '-' && s.get_char(i + 1) == '>' {
            return Some(i);
        }
        i = i + 1;
    }
    proof {
        assert forall|j: int| from <= j implies !arrow_at(s@, j) by {
            if j + 2 <= s@.len() {
                assert(j < i);
            }
        }
    }
    None
}

/// Copies the character range `[a, b)` of `s` into an owned string.
pub fn substring(s: &str, a: usize, b: usize) -> (r: String)
    requires
        a <= b <= s@.len(),
    ensures
        r@ == s@.subrange(a as int, b as int),
{
    String::from_str(s.substring_char(a, b))
}

/// Whether every character of `s` is a decimal digit, and there is at
/// least one.
pub open spec fn is_digits(s: Seq<char>) -> bool {
    s.len() > 0 && forall|j: int| 0 <= j < s.len() ==> '0' <= #[trigger] s[j] <= '9'
}

/// The numeric value of a digit character.
pub open spec fn digit_val(c: char) -> nat {
    (c as nat - '0' as nat) as nat
}

/// The value of a decimal digit string.
pub open spec fn dec_val(s: Seq<char>) -> nat
    decreases s.len(),
{
    if s.len() == 0 {
        0
    } else {
        dec_val(s.drop_last()) * 10 + digit_val(s.last())
    }
}

/// The digit character for a value below ten.
pub open spec fn digit_char(d: nat) -> char {
    if d == 0 {
        '0'
    } else if d == 1 {
        '1'
    } else if d == 2 {
        '2'
    } else if d == 3 {
        '3'
    } else if d == 4 {
        '4'
    } else if d == 5 {
        '5'
    } else if d == 6 {
        '6'
    } else if d == 7 {
        '7'
    } else if d == 8 {
        '8'
    } else {
        '9'
    }
}

/// The canonical decimal rendering of `n`: no sign, no leading zeros.
pub open spec fn dec_rep(n: nat) -> Seq<char>
    decreases n,
{
    if n < 10 {
        seq![digit_char(n)]
    } else {
        dec_rep(n / 10).push(digit_char(n % 10))
    }
}

fn digit_str(d: u64) -> (r: &'static str)
    requires
        d < 10,
    ensures
        r@ =~= seq![digit_char(d as nat)],
{
    proof {
        reveal_strlit("0");
        reveal_strlit("1");
        reveal_strlit("2");
        reveal_strlit("3");
        reveal_strlit("4");
        reveal_strlit("5");
        reveal_strlit("6");
        reveal_strlit("7");
        reveal_strlit("8");
        reveal_strlit("9");
    }
    if d == 0 {
        "0"
    } else if d == 1 {
        "1"
    } else if d == 2 {
        "2"
    } else if d == 3 {
        "3"
    } else if d == 4 {
        "4"
    } else if d == 5 {
        "5"
    } else if d == 6 {
        "6"
    } else if d == 7 {
        "7"
    } else if d == 8 {
        "8"
    } else {
        "9"
    }
}

/// Renders `n` in decimal.
pub fn u64_to_string(n: u64) -> (r: String)
    ensures
        r@ == dec_rep(n as nat),
    decreases n,
{
    if n < 10 {
        String::from_str(digit_str(n))
    } else {
        let high = u64_to_string(n / 10);
        let r = high.concat(digit_str(n % 10));
        proof {
            assert(r@ =~= dec_rep((n / 10) as nat).push(digit_char((n % 10) as nat)));
        }
        r
    }
}

/// Appending a digit multiplies the value by ten and adds the digit.
pub proof fn lemma_dec_val_push(s: Seq<char>, c: char)
    ensures
        dec_val(s.push(c)) == dec_val(s) * 10 + digit_val(c),
{
    assert(s.push(c).drop_last() == s);
    assert(s.push(c).last() == c);
}

/// The decimal rendering is made of digits and reads back to the same
/// value.
pub proof fn lemma_dec_rep_val(n: nat)
    ensures
        is_digits(dec_rep(n)),
        dec_val(dec_rep(n)) == n,
    decreases n,
{
    if n < 10 {
        let s = seq![digit_char(n)];
        assert(s.len() == 1);
        assert(s.last() == digit_char(n));
        assert(s.drop_last() =~= Seq::<char>::empty());
        assert(dec_val(Seq::<char>::empty()) == 0);
        assert(dec_val(s) == dec_val(s.drop_last()) * 10 + digit_val(s.last()));
        assert(digit_val(digit_char(n)) == n);
    } else {
        lemma_dec_rep_val(n / 10);
        lemma_dec_val_push(dec_rep(n / 10), digit_char(n % 10));
        assert(n / 10 * 10 + n % 10 == n) by (nonlinear_arith);
    }
}

/// Parses a decimal digit string as a 64-bit value; `None` when the
/// string is not all digits or the value does not fit.
pub fn parse_u64(s: &str) -> (r: Option<u64>)
    ensures
        match r {
            Some(v) => is_digits(s@) && dec_val(s@) == v,
            None => !is_digits(s@) || dec_val(s@) > u64::MAX,
        },
{
    let n = s.unicode_len();
    if n == 0 {
        return None;
    }
    let mut acc: u64 = 0;
    let mut i: usize = 0;
    while i < n
        invariant
            0 <= i <= n,
            n == s@.len(),
            n > 0,
            forall|j: int| 0 <= j < i ==> '0' <= #[trigger] s@[j] <= '9',
            acc == dec_val(s@.take(i as int)),
        decreases n - i,
    {
        let c = s.get_char(i);
        if !('0' <= c && c <= '9') {
            return None;
        }
        let d: u64 = (c as u32 as u64) - ('0' as u32 as u64);
        proof {
            assert(d == digit_val(c));
        }
        if acc > (u64::MAX - d) / 10 {
            proof {
                assert(s@.take(i as int).push(c) =~= s@.take(i + 1));
                lemma_dec_val_push(s@.take(i as int), c);
                assert(dec_val(s@.take(i + 1)) > u64::MAX) by (nonlinear_arith)
                    requires
                        dec_val(s@.take(i + 1)) == dec_val(s@.take(i as int)) * 10 + digit_val(c),
                        dec_val(s@.take(i as int)) == acc,
                        digit_val(c) == d,
                        d < 10,
                        acc > (u64::MAX - d) / 10,
                {}
                if forall|j: int| 0 <= j < s@.len() ==> '0' <= #[trigger] s@[j] <= '9' {
                    lemma_dec_val_prefix_le(s@, i + 1);
                }
            }
            return None;
        }
        proof {
            assert(acc * 10 + d <= u64::MAX) by (nonlinear_arith)
                requires
                    d < 10,
                    acc <= (u64::MAX - d) / 10,
            {}
            assert(s@.take(i as int).push(c) =~= s@.take(i + 1));
            lemma_dec_val_push(s@.take(i as int), c);
        }
        acc = acc * 10 + d;
        i = i + 1;
    }
    proof {
        assert(s@.take(n as int) == s@);
    }
    Some(acc)
}

/// The value of a digit string only grows as digits are appended.
proof fn lemma_dec_val_prefix_le(s: Seq<char>, i: int)
    requires
        0 <= i <= s.len(),
        forall|j: int| 0 <= j < s.len() ==> '0' <= #[trigger] s[j] <= '9',
    ensures
        dec_val(s.take(i)) <= dec_val(s),
    decreases s.len() - i,
{
    if i < s.len() {
        lemma_dec_val_prefix_le(s, i + 1);
        assert(s.take(i + 1).drop_last() =~= s.take(i));
        assert(dec_val(s.take(i + 1)) == dec_val(s.take(i)) * 10 + digit_val(s[i]));
        assert(dec_val(s.take(i)) <= dec_val(s.take(i)) * 10) by (nonlinear_arith);
    } else {
        assert(s.take(i) == s);
    }
}

/// The hexadecimal character for a value below sixteen.
pub open spec fn hex_char(d: nat) -> char {
    if d < 10 {
        digit_char(d)
    } else if d == 10 {
        'a'
    } else if d == 11 {
        'b'
    } else if d == 12 {
        'c'
    } else if d == 13 {
        'd'
    } else if d == 14 {
        'e'
    } else {
        'f'
    }
}

/// The lowercase hexadecimal rendering of a byte string, two characters
/// per byte.
pub open spec fn hex_rep(bytes: Seq<u8>) -> Seq<char> {
    Seq::new(bytes.len() * 2, |i: int| hex_char(
        if i % 2 == 0 {
            (bytes[i / 2] / 16) as nat
        } else {
            (bytes[i / 2] % 16) as nat
        },
    ))
}

proof fn lemma_hex_char_inj(x: nat, y: nat)
    requires
        x < 16,
        y < 16,
        hex_char(x) == hex_char(y),
    ensures
        x == y,
{
}

/// Equal hexadecimal renderings come from equal byte strings.
pub proof fn lemma_hex_rep_injective(a: Seq<u8>, b: Seq<u8>)
    requires
        hex_rep(a) == hex_rep(b),
    ensures
        a == b,
{
    assert(hex_rep(a).len() == a.len() * 2);
    assert(hex_rep(b).len() == b.len() * 2);
    assert(a.len() == b.len()) by (nonlinear_arith)
        requires
            a.len() * 2 == b.len() * 2,
    {}
    assert forall|i: int| 0 <= i < a.len() implies a[i] == b[i] by {
        assert((2 * i) % 2 == 0 && (2 * i) / 2 == i && (2 * i + 1) % 2 == 1 && (2 * i + 1) / 2
            == i) by (nonlinear_arith);
        assert(hex_rep(a)[2 * i] == hex_char((a[i] / 16) as nat));
        assert(hex_rep(b)[2 * i] == hex_char((b[i] / 16) as nat));
        assert(hex_rep(a)[2 * i + 1] == hex_char((a[i] % 16) as nat));
        assert(hex_rep(b)[2 * i + 1] == hex_char((b[i] % 16) as nat));
        lemma_hex_char_inj((a[i] / 16) as nat, (b[i] / 16) as nat);
        lemma_hex_char_inj((a[i] % 16) as nat, (b[i] % 16) as nat);
        assert(a[i] == (a[i] / 16) * 16 + (a[i] % 16)) by (nonlinear_arith);
        assert(b[i] == (b[i] / 16) * 16 + (b[i] % 16)) by (nonlinear_arith);
    }
    assert(a =~= b);
}

fn hex_digit_str(d: u8) -> (r: &'static str)
    requires
        d < 16,
    ensures
        r@ =~= seq![hex_char(d as nat)],
{
    if d < 10 {
        digit_str(d as u64)
    } else {
        proof {
            reveal_strlit("a");
            reveal_strlit("b");
            reveal_strlit("c");
            reveal_strlit("d");
            reveal_strlit("e");
            reveal_strlit("f");
        }
        if d == 10 {
            "a"
        } else if d == 11 {
            "b"
        } else if d == 12 {
            "c"
        } else if d == 13 {
            "d"
        } else if d == 14 {
            "e"
        } else {
            "f"
        }
    }
}

/// Renders a byte string as lowercase hexadecimal.
pub fn hex_lower(bytes: &[u8]) -> (r: String)
    ensures
        r@ == hex_rep(bytes@),
{
    let n = bytes.len();
    let mut r = String::new();
    let mut i: usize = 0;
    while i < n
        invariant
            0 <= i <= n,
            n == bytes@.len(),
            r@ =~= hex_rep(bytes@.take(i as int)),
        decreases n - i,
    {
        let b = bytes[i];
        r.append(hex_digit_str(b / 16));
        r.append(hex_digit_str(b % 16));
        proof {
            assert(r@ =~= hex_rep(bytes@.take(i + 1)));
        }
        i = i + 1;
    }
    proof {
        assert(bytes@.take(n as int) == bytes@);
    }
    r
}

} // verus!
