//! Byte classes of the HTTP/1.1 grammar and the scanning helpers built on them.

use vstd::prelude::*;
use vstd::slice::slice_subrange;

verus! {

/// Horizontal tab.
pub const HTAB: u8 = 9;

/// Line feed.
pub const LF: u8 = 10;

/// Carriage return.
pub const CR: u8 = 13;

/// Space.
pub const SP: u8 = 32;

/// `/`.
pub const SLASH: u8 = 47;

/// The digit `0`.
pub const ZERO: u8 = 48;

/// `:`.
pub const COLON: u8 = 58;

/// The sets of bytes that the grammar allows in its various places.
#[derive(Clone, Copy, Debug)]
pub enum ByteClass {
    /// `0` to `9`.
    Digit,
    /// A character of a token: letters, digits and ``!#$%&'*+-.^_`|~``.
    Token,
    /// A printable ASCII character other than space.
    Visible,
    /// What may stand in a header's value: tab, space, printable ASCII and
    /// bytes above 127.
    Field,
}

/// `0` to `9`.
pub open spec fn is_digit(b: u8) -> bool {
    48 <= b <= 57
}

/// An ASCII letter.
pub open spec fn is_alpha(b: u8) -> bool {
    65 <= b <= 90 || 97 <= b <= 122
}

/// A character of a token: a letter, a digit, or one of ``!#$%&'*+-.^_`|~``.
pub open spec fn is_token_byte(b: u8) -> bool {
    is_digit(b) || is_alpha(b) || b == 33 || (35 <= b <= 39) || b == 42 || b == 43 || b == 45
        || b == 46 || b == 94 || b == 95 || b == 96 || b == 124 || b == 126
}

/// A printable ASCII character other than space.
pub open spec fn is_visible(b: u8) -> bool {
    33 <= b <= 126
}

/// A byte that may stand in a header's value: anything but a control
/// character, and the tab.
pub open spec fn is_field_byte(b: u8) -> bool {
    b == HTAB || (32 <= b && b != 127)
}

/// Optional whitespace: space or horizontal tab.
pub open spec fn is_blank(b: u8) -> bool {
    b == SP || b == HTAB
}

/// `b` belongs to `class`.
pub open spec fn in_class(class: ByteClass, b: u8) -> bool {
    match class {
        ByteClass::Digit => is_digit(b),
        ByteClass::Token => is_token_byte(b),
        ByteClass::Visible => is_visible(b),
        ByteClass::Field => is_field_byte(b),
    }
}

/// Every byte of `s` belongs to `class`.
pub open spec fn all_in_class(class: ByteClass, s: Seq<u8>) -> bool {
    forall|i: int| 0 <= i < s.len() ==> in_class(class, #[trigger] s[i])
}

/// A token: one or more token characters.
pub open spec fn is_token(s: Seq<u8>) -> bool {
    s.len() > 0 && all_in_class(ByteClass::Token, s)
}

/// The ASCII lower-case form of a byte.
pub open spec fn lower(b: u8) -> u8 {
    if 65 <= b <= 90 {
        (b + 32) as u8
    } else {
        b
    }
}

/// Equality of byte strings up to the case of ASCII letters.
pub open spec fn eq_ignore_case(a: Seq<u8>, b: Seq<u8>) -> bool {
    a.len() == b.len() && forall|i: int| 0 <= i < a.len() ==> lower(#[trigger] a[i]) == lower(b[i])
}

/// The index of the first `b` in `s` at or after `from`.
pub open spec fn find_byte(s: Seq<u8>, b: u8, from: int) -> Option<int>
    decreases s.len() - from,
{
    if from < 0 || from >= s.len() {
        None
    } else if s[from] == b {
        Some(from)
    } else {
        find_byte(s, b, from + 1)
    }
}

/// A CR LF pair starts at index `i` of `s`.
pub open spec fn crlf_at(s: Seq<u8>, i: int) -> bool {
    0 <= i && i + 1 < s.len() && s[i] == CR && s[i + 1] == LF
}

/// The index of the first CR LF pair in `s` that starts at or after `from`.
pub open spec fn find_crlf(s: Seq<u8>, from: int) -> Option<int>
    decreases s.len() - from,
{
    if from < 0 || from + 1 >= s.len() {
        None
    } else if crlf_at(s, from) {
        Some(from)
    } else {
        find_crlf(s, from + 1)
    }
}

/// `s` without its leading blanks.
pub open spec fn trim_start(s: Seq<u8>) -> Seq<u8>
    decreases s.len(),
{
    if s.len() > 0 && is_blank(s[0]) {
        trim_start(s.drop_first())
    } else {
        s
    }
}

/// `s` without its trailing blanks.
pub open spec fn trim_end(s: Seq<u8>) -> Seq<u8>
    decreases s.len(),
{
    if s.len() > 0 && is_blank(s.last()) {
        trim_end(s.drop_last())
    } else {
        s
    }
}

/// `s` without the blanks at either end.
pub open spec fn trim(s: Seq<u8>) -> Seq<u8> {
    trim_end(trim_start(s))
}

/// `s` has no blank at either end.
pub open spec fn is_trimmed(s: Seq<u8>) -> bool {
    s.len() == 0 || (!is_blank(s[0]) && !is_blank(s.last()))
}

/// A decimal numeral: one or more digits.
pub open spec fn is_decimal(s: Seq<u8>) -> bool {
    s.len() > 0 && all_in_class(ByteClass::Digit, s)
}

/// The value of a digit; zero for any other byte.
pub open spec fn digit_value(b: u8) -> nat {
    if is_digit(b) {
        (b - ZERO) as nat
    } else {
        0
    }
}

/// The number that the digits of `s` denote, most significant first.
pub open spec fn decimal_value(s: Seq<u8>) -> nat
    decreases s.len(),
{
    if s.len() == 0 {
        0
    } else {
        10 * decimal_value(s.drop_last()) + digit_value(s.last())
    }
}

/// The decimal numeral of `n`, without leading zeros.
pub open spec fn decimal_digits(n: nat) -> Seq<u8>
    decreases n,
{
    if n < 10 {
        seq![(ZERO + n) as u8]
    } else {
        decimal_digits(n / 10).push((ZERO + n % 10) as u8)
    }
}

/// Whether `b` belongs to `class`.
pub fn byte_in_class(class: ByteClass, b: u8) -> (r: bool)
    ensures
        r == in_class(class, b),
{
    match class {
        ByteClass::Digit => 48 <= b && b <= 57,
        ByteClass::Token => (48 <= b && b <= 57) || (65 <= b && b <= 90) || (97 <= b && b <= 122)
            || b == 33 || (35 <= b && b <= 39) || b == 42 || b == 43 || b == 45 || b == 46
            || b == 94 || b == 95 || b == 96 || b == 124 || b == 126,
        ByteClass::Visible => 33 <= b && b <= 126,
        ByteClass::Field => b == HTAB || (32 <= b && b != 127),
    }
}

/// Whether every byte of `s` belongs to `class`.
pub fn bytes_in_class(class: ByteClass, s: &[u8]) -> (r: bool)
    ensures
        r == all_in_class(class, s@),
{
    let mut i: usize = 0;
    while i < s.len()
        invariant
            i <= s@.len(),
            forall|k: int| 0 <= k < i ==> in_class(class, #[trigger] s@[k]),
        decreases s@.len() - i,
    {
        if !byte_in_class(class, s[i]) {
            return false;
        }
        i += 1;
    }
    true
}

/// The ASCII lower-case form of `b`.
pub fn to_lower(b: u8) -> (r: u8)
    ensures
        r == lower(b),
{
    if 65 <= b && b <= 90 {
        b + 32
    } else {
        b
    }
}

/// Whether `a` and `b` hold the same bytes.
pub fn bytes_eq(a: &[u8], b: &[u8]) -> (r: bool)
    ensures
        r == (a@ == b@),
{
    if a.len() != b.len() {
        return false;
    }
    let mut i: usize = 0;
    while i < a.len()
        invariant
            i <= a@.len(),
            a@.len() == b@.len(),
            forall|k: int| 0 <= k < i ==> a@[k] == b@[k],
        decreases a@.len() - i,
    {
        if a[i] != b[i] {
            return false;
        }
        i += 1;
    }
    assert(a@ =~= b@);
    true
}

/// Whether `a` and `b` hold the same bytes up to the case of ASCII letters.
pub fn bytes_eq_ignore_case(a: &[u8], b: &[u8]) -> (r: bool)
    ensures
        r == eq_ignore_case(a@, b@),
{
    if a.len() != b.len() {
        return false;
    }
    let mut i: usize = 0;
    while i < a.len()
        invariant
            i <= a@.len(),
            a@.len() == b@.len(),
            forall|k: int| 0 <= k < i ==> lower(#[trigger] a@[k]) == lower(b@[k]),
        decreases a@.len() - i,
    {
        if to_lower(a[i]) != to_lower(b[i]) {
            return false;
        }
        i += 1;
    }
    true
}

/// The index of the first `b` in `s` at or after `from`.
pub fn position_of(s: &[u8], b: u8, from: usize) -> (r: Option<usize>)
    ensures
        match r {
            Some(i) => find_byte(s@, b, from as int) == Some(i as int) && from <= i < s@.len(),
            None => find_byte(s@, b, from as int) is None,
        },
{
    let mut i: usize = from;
    while i < s.len()
        invariant
            from <= i,
            find_byte(s@, b, from as int) == find_byte(s@, b, i as int),
        decreases s@.len() - i,
    {
        if s[i] == b {
            return Some(i);
        }
        i += 1;
    }
    None
}

/// The index of the first CR LF pair in `s` that starts at or after `from`.
pub fn position_of_crlf(s: &[u8], from: usize) -> (r: Option<usize>)
    ensures
        match r {
            Some(i) => find_crlf(s@, from as int) == Some(i as int) && from <= i < s@.len() - 1,
            None => find_crlf(s@, from as int) is None,
        },
{
    let mut i: usize = from;
    while i < s.len() && i + 1 < s.len()
        invariant
            from <= i,
            find_crlf(s@, from as int) == find_crlf(s@, i as int),
        decreases s@.len() - i,
    {
        if s[i] == CR && s[i + 1] == LF {
            return Some(i);
        }
        i += 1;
    }
    None
}

/// `s` without the blanks at either end.
pub fn trimmed(s: &[u8]) -> (r: &[u8])
    ensures
        r@ == trim(s@),
{
    let mut i: usize = 0;
    assert(s@.subrange(0, s@.len() as int) =~= s@);
    while i < s.len() && (s[i] == SP || s[i] == HTAB)
        invariant
            i <= s@.len(),
            trim_start(s@) == trim_start(s@.subrange(i as int, s@.len() as int)),
        decreases s@.len() - i,
    {
        proof {
            let rest = s@.subrange(i as int, s@.len() as int);
            assert(rest.drop_first() =~= s@.subrange(i + 1, s@.len() as int));
        }
        i += 1;
    }
    let ghost head = s@.subrange(i as int, s@.len() as int);
    assert(trim_start(s@) == head);
    let mut j: usize = s.len();
    while j > i && (s[j - 1] == SP || s[j - 1] == HTAB)
        invariant
            i <= j <= s@.len(),
            head == s@.subrange(i as int, s@.len() as int),
            trim_end(head) == trim_end(s@.subrange(i as int, j as int)),
        decreases j,
    {
        proof {
            let rest = s@.subrange(i as int, j as int);
            assert(rest.drop_last() =~= s@.subrange(i as int, j - 1));
        }
        j -= 1;
    }
    slice_subrange(s, i, j)
}

/// `find_crlf` gives the first place at or after `from` where a CR LF pair
/// starts, and nothing exactly where no pair starts later.
pub proof fn lemma_find_crlf(s: Seq<u8>, from: int)
    requires
        0 <= from,
    ensures
        match find_crlf(s, from) {
            Some(i) => from <= i && crlf_at(s, i) && forall|k: int|
                from <= k < i ==> !crlf_at(s, k),
            None => forall|k: int| from <= k ==> !crlf_at(s, k),
        },
    decreases s.len() - from,
{
    if from + 1 < s.len() && !crlf_at(s, from) {
        lemma_find_crlf(s, from + 1);
    }
}

/// The first `b` at or after `from` is found where it stands.
pub proof fn lemma_find_byte_at(s: Seq<u8>, b: u8, from: int, at: int)
    requires
        0 <= from <= at < s.len(),
        s[at] == b,
        forall|k: int| from <= k < at ==> s[k] != b,
    ensures
        find_byte(s, b, from) == Some(at),
    decreases at - from,
{
    if from < at {
        lemma_find_byte_at(s, b, from + 1, at);
    }
}

/// The first CR LF pair at or after `from` is found where it stands.
pub proof fn lemma_find_crlf_at(s: Seq<u8>, from: int, at: int)
    requires
        0 <= from <= at,
        crlf_at(s, at),
        forall|k: int| from <= k < at ==> !crlf_at(s, k),
    ensures
        find_crlf(s, from) == Some(at),
    decreases at - from,
{
    if from < at {
        lemma_find_crlf_at(s, from + 1, at);
    }
}

/// What is left when the leading blanks are gone is the end of `s`, and
/// starts with no blank.
pub proof fn lemma_trim_start(s: Seq<u8>)
    ensures
        trim_start(s).len() <= s.len(),
        trim_start(s) == s.skip(s.len() - trim_start(s).len()),
        trim_start(s).len() > 0 ==> !is_blank(trim_start(s)[0]),
    decreases s.len(),
{
    if s.len() > 0 && is_blank(s[0]) {
        lemma_trim_start(s.drop_first());
        let t = trim_start(s);
        assert(t =~= s.skip(s.len() - t.len()));
    } else {
        assert(s =~= s.skip(0));
    }
}

/// What is left when the trailing blanks are gone is the start of `s`, and
/// ends with no blank.
pub proof fn lemma_trim_end(s: Seq<u8>)
    ensures
        trim_end(s).len() <= s.len(),
        trim_end(s) == s.take(trim_end(s).len() as int),
        trim_end(s).len() > 0 ==> !is_blank(trim_end(s).last()),
    decreases s.len(),
{
    if s.len() > 0 && is_blank(s.last()) {
        lemma_trim_end(s.drop_last());
        let t = trim_end(s);
        assert(t =~= s.take(t.len() as int));
    } else {
        assert(s =~= s.take(s.len() as int));
    }
}

/// Trimming leaves no blank at either end.
pub proof fn lemma_trim_is_trimmed(s: Seq<u8>)
    ensures
        is_trimmed(trim(s)),
{
    lemma_trim_start(s);
    lemma_trim_end(trim_start(s));
}

/// The value of a numeral is at least the value of each of its prefixes.
pub proof fn lemma_decimal_prefix(s: Seq<u8>, k: int)
    requires
        0 <= k <= s.len(),
    ensures
        decimal_value(s.subrange(0, k)) <= decimal_value(s),
    decreases s.len() - k,
{
    if k == s.len() {
        assert(s.subrange(0, k) =~= s);
    } else {
        assert(s.drop_last().subrange(0, k) =~= s.subrange(0, k));
        lemma_decimal_prefix(s.drop_last(), k);
    }
}

/// Reading the numeral of `n` gives `n` back.
pub proof fn lemma_decimal_round_trip(n: nat)
    ensures
        is_decimal(decimal_digits(n)),
        decimal_value(decimal_digits(n)) == n,
    decreases n,
{
    if n < 10 {
        let s = decimal_digits(n);
        assert(s.drop_last() =~= Seq::<u8>::empty());
        assert(decimal_value(s.drop_last()) == 0);
    } else {
        lemma_decimal_round_trip(n / 10);
        let s = decimal_digits(n);
        assert(s.drop_last() =~= decimal_digits(n / 10));
    }
}

/// Reads a decimal numeral. The result is `None` where `s` is no numeral, and
/// where its value does not fit the machine word.
pub fn read_decimal(s: &[u8]) -> (r: Option<usize>)
    ensures
        r == if is_decimal(s@) && decimal_value(s@) <= usize::MAX {
            Some(decimal_value(s@) as usize)
        } else {
            None
        },
{
    if s.len() == 0 {
        return None;
    }
    let mut acc: usize = 0;
    let mut i: usize = 0;
    assert(s@.subrange(0, 0) =~= Seq::<u8>::empty());
    while i < s.len()
        invariant
            i <= s@.len(),
            s@.len() > 0,
            all_in_class(ByteClass::Digit, s@.subrange(0, i as int)),
            acc == decimal_value(s@.subrange(0, i as int)),
        decreases s@.len() - i,
    {
        let b = s[i];
        if !byte_in_class(ByteClass::Digit, b) {
            return None;
        }
        let ghost next = s@.subrange(0, i + 1);
        proof {
            assert(next.drop_last() =~= s@.subrange(0, i as int));
            assert(next.last() == b);
            assert forall|k: int| 0 <= k < next.len() implies in_class(
                ByteClass::Digit,
                #[trigger] next[k],
            ) by {
                if k < i {
                    assert(next[k] == s@.subrange(0, i as int)[k]);
                }
            }
            lemma_decimal_prefix(s@, i + 1);
        }
        let tens = match acc.checked_mul(10) {
            Some(t) => t,
            None => { return None; },
        };
        acc = match tens.checked_add((b - ZERO) as usize) {
            Some(v) => v,
            None => { return None; },
        };
        i += 1;
    }
    assert(s@.subrange(0, i as int) =~= s@);
    Some(acc)
}

/// Appends the decimal numeral of `n` to `out`.
pub fn push_decimal(out: &mut Vec<u8>, n: usize)
    ensures
        final(out)@ == old(out)@ + decimal_digits(n as nat),
    decreases n,
{
    if n >= 10 {
        push_decimal(out, n / 10);
    }
    out.push(ZERO + (n % 10) as u8);
    proof {
        if n < 10 {
            assert(old(out)@.push((ZERO + n) as u8) =~= old(out)@ + decimal_digits(n as nat));
        } else {
            assert((old(out)@ + decimal_digits((n / 10) as nat)).push((ZERO + n % 10) as u8)
                =~= old(out)@ + decimal_digits(n as nat));
        }
    }
}

} // verus!
