//! Characters and strings: digit runs, decimal numbers, searching and trimming.
//!
//! Text is modelled as `Seq<char>`.

use vstd::prelude::*;
use vstd::slice::slice_subrange;

verus! {

/// `String::push` appends one character to the end of the string.
pub assume_specification[ String::push ](s: &mut String, ch: char)
    ensures
        final(s)@ == old(s)@.push(ch),
;

/// What the `Debug` form of a string reads: the text in double quotes, with
/// escapes where it needs them.
pub uninterp spec fn debug_form(s: Seq<char>) -> Seq<char>;

/// `format!("{:?}")` of std on a string. Its result is a function of the text
/// alone; which characters it escapes is not stated.
#[verifier::external_body]
pub(crate) fn quoted(s: &str) -> (r: String)
    ensures
        r@ == debug_form(s@),
{
    format!("{:?}", s)
}

// ---------------------------------------------------------------------------
// Characters and strings
// ---------------------------------------------------------------------------

/// The characters of a string, in order.
pub fn chars_of(s: &str) -> (out: Vec<char>)
    ensures
        out@ == s@,
{
    let mut out: Vec<char> = Vec::new();
    for c in it: s.chars()
        invariant
            it.seq() == s@,
            out@ == s@.take(it.index() as int),
    {
        out.push(c);
        assert(out@ =~= s@.take(it.index() as int + 1));
    }
    assert(s@.take(s@.len() as int) =~= s@);
    out
}

/// The string made of the given characters.
pub fn string_of(chars: &[char]) -> (out: String)
    ensures
        out@ == chars@,
{
    let mut out = String::new();
    let mut i: usize = 0;
    while i < chars.len()
        invariant
            i <= chars.len(),
            out@ == chars@.take(i as int),
        decreases chars.len() - i,
    {
        out.push(chars[i]);
        i += 1;
        assert(out@ =~= chars@.take(i as int));
    }
    assert(chars@.take(chars@.len() as int) =~= chars@);
    out
}

/// The characters `from..to` of `chars` as a string.
pub fn string_between(chars: &[char], from: usize, to: usize) -> (out: String)
    requires
        from <= to <= chars.len(),
    ensures
        out@ == chars@.subrange(from as int, to as int),
{
    let mut out = String::new();
    let mut i: usize = from;
    while i < to
        invariant
            from <= i <= to <= chars.len(),
            out@ == chars@.subrange(from as int, i as int),
        decreases to - i,
    {
        out.push(chars[i]);
        i += 1;
        assert(out@ =~= chars@.subrange(from as int, i as int));
    }
    out
}

/// Whether two character slices hold the same text.
pub fn same_chars(a: &[char], b: &[char]) -> (r: bool)
    ensures
        r == (a@ == b@),
{
    if a.len() != b.len() {
        return false;
    }
    let mut i: usize = 0;
    while i < a.len()
        invariant
            i <= a.len(),
            a.len() == b.len(),
            a@.take(i as int) =~= b@.take(i as int),
        decreases a.len() - i,
    {
        if a[i] != b[i] {
            assert(a@[i as int] != b@[i as int]);
            return false;
        }
        i += 1;
        assert(a@.take(i as int) =~= a@.take(i - 1).push(a@[i - 1]));
        assert(b@.take(i as int) =~= b@.take(i - 1).push(b@[i - 1]));
    }
    assert(a@.take(a@.len() as int) =~= a@);
    assert(b@.take(b@.len() as int) =~= b@);
    true
}

/// Whether two strings hold the same text.
pub fn same_text(a: &str, b: &str) -> (r: bool)
    ensures
        r == (a@ == b@),
{
    let ca = chars_of(a);
    let cb = chars_of(b);
    same_chars(ca.as_slice(), cb.as_slice())
}

// ---------------------------------------------------------------------------
// Digits and numbers
// ---------------------------------------------------------------------------

pub open spec fn is_digit(c: char) -> bool {
    '0' <= c && c <= '9'
}

/// The value of an ASCII digit.
pub open spec fn digit_value(c: char) -> nat {
    (c as int - '0' as int) as nat
}

pub open spec fn all_digits(s: Seq<char>) -> bool {
    forall|i: int| 0 <= i < s.len() ==> is_digit(#[trigger] s[i])
}

/// The number that a run of decimal digits writes.
pub open spec fn number(s: Seq<char>) -> nat
    decreases s.len(),
{
    if s.len() == 0 {
        0
    } else {
        number(s.drop_last()) * 10 + digit_value(s.last())
    }
}

/// A run of digits read as a `u32`: nothing for the empty run, nor for a
/// number that does not fit.
pub open spec fn as_u32(s: Seq<char>) -> Option<u32> {
    if s.len() > 0 && all_digits(s) && number(s) <= u32::MAX {
        Some(number(s) as u32)
    } else {
        None
    }
}

/// The longest suffix made of digits.
pub open spec fn trailing_digits(s: Seq<char>) -> Seq<char>
    decreases s.len(),
{
    if s.len() == 0 || !is_digit(s.last()) {
        Seq::empty()
    } else {
        trailing_digits(s.drop_last()).push(s.last())
    }
}

/// The longest prefix made of digits.
pub open spec fn leading_digits(s: Seq<char>) -> Seq<char>
    decreases s.len(),
{
    if s.len() == 0 || !is_digit(s[0]) {
        Seq::empty()
    } else {
        seq![s[0]] + leading_digits(s.drop_first())
    }
}

pub fn is_ascii_digit(c: char) -> (r: bool)
    ensures
        r == is_digit(c),
{
    '0' <= c && c <= '9'
}

/// Appending digits never makes the number smaller.
pub proof fn lemma_number_grows(s: Seq<char>, k: int)
    requires
        0 <= k <= s.len(),
    ensures
        number(s.take(k)) <= number(s),
    decreases s.len(),
{
    if k == s.len() {
        assert(s.take(k) =~= s);
    } else {
        lemma_number_grows(s.drop_last(), k);
        assert(s.drop_last().take(k) =~= s.take(k));
    }
}

/// Reads `chars[from..to]` as a decimal number.
pub fn parse_u32(chars: &[char], from: usize, to: usize) -> (r: Option<u32>)
    requires
        from <= to <= chars.len(),
    ensures
        r == as_u32(chars@.subrange(from as int, to as int)),
{
    let ghost run = chars@.subrange(from as int, to as int);
    if from == to {
        return None;
    }
    let mut value: u32 = 0;
    let mut i: usize = from;
    while i < to
        invariant
            from <= i <= to <= chars.len(),
            run == chars@.subrange(from as int, to as int),
            all_digits(run.take(i - from)),
            value == number(run.take(i - from)),
        decreases to - i,
    {
        let c = chars[i];
        let ghost next = run.take(i - from + 1);
        assert(next.drop_last() =~= run.take(i - from));
        assert(next.last() == c);
        if !is_ascii_digit(c) {
            assert(!is_digit(run[i - from]));
            return None;
        }
        let d: u32 = c as u32 - '0' as u32;
        assert(d == digit_value(c));
        proof {
            lemma_number_grows(run, i - from + 1);
        }
        match value.checked_mul(10) {
            Some(tens) => {
                match tens.checked_add(d) {
                    Some(v) => {
                        value = v;
                    },
                    None => {
                        return None;
                    },
                }
            },
            None => {
                return None;
            },
        }
        assert forall|j: int| 0 <= j < next.len() implies is_digit(#[trigger] next[j]) by {
            if j < i - from {
                assert(next[j] == run.take(i - from)[j]);
            }
        }
        i += 1;
    }
    assert(run.take(run.len() as int) =~= run);
    Some(value)
}

/// How many digits end `chars`.
pub fn count_trailing_digits(chars: &[char]) -> (n: usize)
    ensures
        n <= chars.len(),
        trailing_digits(chars@) == chars@.skip(chars.len() - n),
{
    let mut n: usize = 0;
    while n < chars.len() && is_ascii_digit(chars[chars.len() - 1 - n])
        invariant
            n <= chars.len(),
            all_digits(chars@.skip(chars.len() - n)),
        decreases chars.len() - n,
    {
        n += 1;
        let ghost tail = chars@.skip(chars.len() - n);
        assert forall|j: int| 0 <= j < tail.len() implies is_digit(#[trigger] tail[j]) by {
            if j > 0 {
                assert(tail[j] == chars@.skip(chars.len() - n + 1)[j - 1]);
            }
        }
    }
    proof {
        lemma_trailing_split(chars@, n as int);
    }
    n
}

/// A suffix of digits that no digit precedes is the trailing run.
pub proof fn lemma_trailing_split(s: Seq<char>, n: int)
    requires
        0 <= n <= s.len(),
        all_digits(s.skip(s.len() - n)),
        n == s.len() || !is_digit(s[s.len() - 1 - n]),
    ensures
        trailing_digits(s) == s.skip(s.len() - n),
    decreases s.len(),
{
    if n == 0 {
        assert(s.skip(s.len() as int) =~= Seq::<char>::empty());
    } else {
        assert(s.last() == s.skip(s.len() - n)[n - 1]);
        let front = s.drop_last();
        assert(front.skip(front.len() - (n - 1)) =~= s.skip(s.len() - n).drop_last());
        lemma_trailing_split(front, n - 1);
        assert(s.skip(s.len() - n) =~= front.skip(front.len() - (n - 1)).push(s.last()));
    }
}

/// The number that ends a name, e.g. `cam007` -> 7, `capture_012` -> 12.
pub fn trailing_number(name: &str) -> (r: Option<u32>)
    ensures
        r == as_u32(trailing_digits(name@)),
{
    let chars = chars_of(name);
    let n: usize = count_trailing_digits(chars.as_slice());
    let total: usize = chars.len();
    assert(chars@.skip(total - n) =~= chars@.subrange(total - n, total as int));
    parse_u32(chars.as_slice(), total - n, total)
}

/// A prefix of digits that no digit follows is the leading run.
pub proof fn lemma_leading_split(s: Seq<char>, n: int)
    requires
        0 <= n <= s.len(),
        all_digits(s.take(n)),
        n == s.len() || !is_digit(s[n]),
    ensures
        leading_digits(s) == s.take(n),
    decreases s.len(),
{
    if n == 0 {
        assert(s.take(0) =~= Seq::<char>::empty());
    } else {
        assert(s[0] == s.take(n)[0]);
        let rest = s.drop_first();
        assert(rest.take(n - 1) =~= s.take(n).drop_first());
        assert forall|j: int| 0 <= j < n - 1 implies is_digit(#[trigger] rest.take(n - 1)[j]) by {
            assert(rest.take(n - 1)[j] == s.take(n)[j + 1]);
        }
        lemma_leading_split(rest, n - 1);
        assert(s.take(n) =~= seq![s[0]] + rest.take(n - 1));
    }
}

/// Reads the digits that start at `from`.
pub fn leading_number(chars: &[char], from: usize) -> (r: Option<u32>)
    requires
        from <= chars.len(),
    ensures
        r == as_u32(leading_digits(chars@.skip(from as int))),
{
    let ghost tail = chars@.skip(from as int);
    let mut to: usize = from;
    while to < chars.len() && is_ascii_digit(chars[to])
        invariant
            from <= to <= chars.len(),
            tail == chars@.skip(from as int),
            all_digits(tail.take(to - from)),
        decreases chars.len() - to,
    {
        to += 1;
        let ghost run = tail.take(to - from);
        assert forall|j: int| 0 <= j < run.len() implies is_digit(#[trigger] run[j]) by {
            if j < to - from - 1 {
                assert(run[j] == tail.take(to - from - 1)[j]);
            }
        }
    }
    proof {
        lemma_leading_split(tail, to - from);
    }
    assert(tail.take(to - from) =~= chars@.subrange(from as int, to as int));
    parse_u32(chars, from, to)
}

// ---------------------------------------------------------------------------
// Writing numbers
// ---------------------------------------------------------------------------

pub open spec fn digit_char(d: nat) -> char {
    ('0' as int + d) as char
}

/// A number in decimal, without leading zeros.
pub open spec fn decimal(n: nat) -> Seq<char>
    decreases n,
{
    if n < 10 {
        seq![digit_char(n)]
    } else {
        decimal(n / 10).push(digit_char(n % 10))
    }
}

pub open spec fn zeros(count: nat) -> Seq<char> {
    Seq::new(count, |i: int| '0')
}

/// A number in decimal, filled up with leading zeros to at least `width`
/// characters.
pub open spec fn padded(n: nat, width: nat) -> Seq<char> {
    let digits = decimal(n);
    if digits.len() >= width {
        digits
    } else {
        zeros((width - digits.len()) as nat) + digits
    }
}

/// Writing a number and reading it back gives the number.
pub proof fn decimal_reads_back(n: nat)
    ensures
        decimal(n).len() > 0,
        all_digits(decimal(n)),
        number(decimal(n)) == n,
    decreases n,
{
    if n < 10 {
        assert(decimal(n).drop_last() =~= Seq::<char>::empty());
        assert(number(decimal(n).drop_last()) == 0);
    } else {
        decimal_reads_back(n / 10);
        let front = decimal(n / 10);
        assert(decimal(n).drop_last() =~= front);
        assert forall|j: int| 0 <= j < decimal(n).len() implies is_digit(
            #[trigger] decimal(n)[j],
        ) by {
            if j < front.len() {
                assert(decimal(n)[j] == front[j]);
            }
        }
    }
}

/// Leading zeros change neither the number nor its being one.
pub proof fn lemma_leading_zeros(count: nat, s: Seq<char>)
    requires
        all_digits(s),
    ensures
        all_digits(zeros(count) + s),
        number(zeros(count) + s) == number(s),
    decreases s.len(), count,
{
    let whole = zeros(count) + s;
    assert forall|j: int| 0 <= j < whole.len() implies is_digit(#[trigger] whole[j]) by {
        if j >= count {
            assert(whole[j] == s[j - count]);
        }
    }
    if s.len() > 0 {
        assert(whole.drop_last() =~= zeros(count) + s.drop_last());
        lemma_leading_zeros(count, s.drop_last());
    } else if count > 0 {
        assert(whole =~= zeros(count));
        assert(whole.drop_last() =~= zeros((count - 1) as nat) + s);
        lemma_leading_zeros((count - 1) as nat, s);
    }
}

/// A padded number is read back too.
pub proof fn padded_reads_back(n: nat, width: nat)
    ensures
        padded(n, width).len() > 0,
        all_digits(padded(n, width)),
        number(padded(n, width)) == n,
{
    decimal_reads_back(n);
    if decimal(n).len() < width {
        lemma_leading_zeros((width - decimal(n).len()) as nat, decimal(n));
    }
}

/// The number at the end of a name that puts it behind a non-digit is read
/// back from the name.
pub proof fn trailing_number_of_padded(prefix: Seq<char>, n: u32, width: nat)
    requires
        prefix.len() > 0,
        !is_digit(prefix.last()),
    ensures
        as_u32(trailing_digits(prefix + padded(n as nat, width))) == Some(n),
{
    let digits = padded(n as nat, width);
    padded_reads_back(n as nat, width);
    let name = prefix + digits;
    assert(name.skip(name.len() - digits.len()) =~= digits);
    lemma_trailing_split(name, digits.len() as int);
}

fn write_digit(d: u64) -> (c: char)
    requires
        d < 10,
    ensures
        c == digit_char(d as nat),
{
    (48u8 + d as u8) as char
}

/// Writes `n` in decimal.
pub fn decimal_string(n: u64) -> (s: String)
    ensures
        s@ == decimal(n as nat),
    decreases n,
{
    if n < 10 {
        let mut s = String::new();
        s.push(write_digit(n));
        assert(s@ =~= decimal(n as nat));
        s
    } else {
        let mut s = decimal_string(n / 10);
        s.push(write_digit(n % 10));
        s
    }
}

/// Writes `n` in decimal with leading zeros up to `width` characters.
pub fn padded_string(n: u64, width: usize) -> (s: String)
    ensures
        s@ == padded(n as nat, width as nat),
{
    let digits = decimal_string(n);
    let len: usize = digits.as_str().unicode_len();
    if len >= width {
        return digits;
    }
    let mut s = String::new();
    let mut i: usize = 0;
    while i < width - len
        invariant
            len < width,
            i <= width - len,
            s@ == zeros(i as nat),
        decreases width - len - i,
    {
        s.push('0');
        i += 1;
        assert(s@ =~= zeros(i as nat));
    }
    s.append(digits.as_str());
    s
}

// ---------------------------------------------------------------------------
// Case
// ---------------------------------------------------------------------------

/// The ASCII lower-case form of a character; others stay as they are.
pub open spec fn lower(c: char) -> char {
    if 'A' <= c && c <= 'Z' {
        (c as int + 32) as char
    } else {
        c
    }
}

pub open spec fn lowercase(s: Seq<char>) -> Seq<char> {
    s.map_values(|c: char| lower(c))
}

pub fn lower_char(c: char) -> (r: char)
    ensures
        r == lower(c),
{
    if 'A' <= c && c <= 'Z' {
        (c as u8 + 32u8) as char
    } else {
        c
    }
}

pub fn lowercase_chars(chars: &[char]) -> (out: Vec<char>)
    ensures
        out@ == lowercase(chars@),
{
    let mut out: Vec<char> = Vec::new();
    let mut i: usize = 0;
    while i < chars.len()
        invariant
            i <= chars.len(),
            out@ == lowercase(chars@.take(i as int)),
        decreases chars.len() - i,
    {
        out.push(lower_char(chars[i]));
        i += 1;
        assert(out@ =~= lowercase(chars@.take(i as int)));
    }
    assert(chars@.take(chars@.len() as int) =~= chars@);
    out
}

/// Whether `chars` starts with `prefix`.
pub fn starts_with(chars: &[char], prefix: &[char]) -> (r: bool)
    ensures
        r == prefix@.is_prefix_of(chars@),
{
    if prefix.len() > chars.len() {
        return false;
    }
    let mut i: usize = 0;
    while i < prefix.len()
        invariant
            i <= prefix.len() <= chars.len(),
            forall|j: int| 0 <= j < i ==> prefix@[j] == chars@[j],
        decreases prefix.len() - i,
    {
        if prefix[i] != chars[i] {
            assert(prefix@[i as int] != chars@.subrange(0, prefix@.len() as int)[i as int]);
            return false;
        }
        i += 1;
    }
    assert(prefix@ =~= chars@.subrange(0, prefix@.len() as int));
    true
}

// ---------------------------------------------------------------------------
// Searching
// ---------------------------------------------------------------------------

/// The needle stands in the text at a place.
pub open spec fn stands_at(s: Seq<char>, needle: Seq<char>, at: int) -> bool {
    0 <= at && at + needle.len() <= s.len() && s.subrange(at, at + needle.len()) == needle
}

/// The needle occurs in the text.
pub open spec fn occurs(s: Seq<char>, needle: Seq<char>) -> bool {
    exists|at: int| stands_at(s, needle, at)
}

/// The first place at or after `from` where the needle stands.
pub open spec fn first_from(s: Seq<char>, needle: Seq<char>, from: int) -> Option<int>
    decreases s.len() + 1 - from,
{
    if from > s.len() {
        None
    } else if stands_at(s, needle, from) {
        Some(from)
    } else {
        first_from(s, needle, from + 1)
    }
}

/// The first place is one where the needle stands, and none before it is.
pub proof fn the_first_place_is_first(s: Seq<char>, needle: Seq<char>, from: int)
    requires
        0 <= from,
    ensures
        match first_from(s, needle, from) {
            Some(at) => from <= at && stands_at(s, needle, at) && forall|k: int|
                from <= k < at ==> !stands_at(s, needle, k),
            None => forall|k: int| from <= k ==> !stands_at(s, needle, k),
        },
    decreases s.len() + 1 - from,
{
    if from <= s.len() && !stands_at(s, needle, from) {
        the_first_place_is_first(s, needle, from + 1);
    }
}

/// The first place at or after `from` where the needle stands.
pub fn find_from(chars: &[char], needle: &[char], from: usize) -> (r: Option<usize>)
    requires
        from <= chars@.len(),
    ensures
        match r {
            Some(at) => from <= at && stands_at(chars@, needle@, at as int) && forall|k: int|
                from <= k < at ==> !stands_at(chars@, needle@, k),
            None => forall|k: int| from <= k ==> !stands_at(chars@, needle@, k),
        },
        match r {
            Some(at) => first_from(chars@, needle@, from as int) == Some(at as int),
            None => first_from(chars@, needle@, from as int) is None,
        },
{
    proof {
        the_first_place_is_first(chars@, needle@, from as int);
    }
    let n: usize = needle.len();
    let total: usize = chars.len();
    if n > total {
        return None;
    }
    let mut at: usize = from;
    while at <= total - n
        invariant
            n == needle@.len(),
            total == chars@.len(),
            from <= at <= total,
            n <= total,
            forall|k: int| from <= k < at ==> !stands_at(chars@, needle@, k),
        decreases total + 1 - at,
    {
        let mut k: usize = 0;
        let mut same = true;
        while k < n
            invariant
                k <= n,
                n == needle@.len(),
                total == chars@.len(),
                at + n <= total,
                same == (forall|j: int| 0 <= j < k ==> chars@[at + j] == needle@[j]),
            decreases n - k,
        {
            if chars[at + k] != needle[k] {
                same = false;
            }
            k += 1;
        }
        if same {
            assert(chars@.subrange(at as int, at + n) =~= needle@);
            assert(stands_at(chars@, needle@, at as int));
            proof {
                the_first_place_is_first(chars@, needle@, from as int);
            }
            return Some(at);
        }
        assert(!stands_at(chars@, needle@, at as int)) by {
            if stands_at(chars@, needle@, at as int) {
                let sub = chars@.subrange(at as int, at + n);
                assert forall|j: int| 0 <= j < n implies chars@[at + j] == needle@[j] by {
                    assert(sub[j] == needle@[j]);
                }
            }
        }
        if at == total {
            proof {
                the_first_place_is_first(chars@, needle@, from as int);
            }
            return None;
        }
        at += 1;
    }
    None
}

/// Whether the needle occurs in the text.
pub fn contains_text(s: &str, needle: &str) -> (r: bool)
    ensures
        r == occurs(s@, needle@),
{
    let chars = chars_of(s);
    let what = chars_of(needle);
    find_from(chars.as_slice(), what.as_slice(), 0).is_some()
}

// ---------------------------------------------------------------------------
// White space
// ---------------------------------------------------------------------------

/// The characters that Unicode counts as white space.
pub open spec fn is_white(c: char) -> bool {
    let n = c as u32;
    9 <= n <= 13 || n == 32 || n == 0x85 || n == 0xA0 || n == 0x1680 || 0x2000 <= n <= 0x200A || n
        == 0x2028 || n == 0x2029 || n == 0x202F || n == 0x205F || n == 0x3000
}

pub fn is_whitespace(c: char) -> (r: bool)
    ensures
        r == is_white(c),
{
    let n = c as u32;
    (n >= 9 && n <= 13) || n == 32 || n == 0x85 || n == 0xA0 || n == 0x1680 || (n >= 0x2000 && n
        <= 0x200A) || n == 0x2028 || n == 0x2029 || n == 0x202F || n == 0x205F || n == 0x3000
}

/// Nothing but white space.
pub open spec fn all_white(s: Seq<char>) -> bool {
    forall|i: int| 0 <= i < s.len() ==> is_white(#[trigger] s[i])
}

/// Whether there is nothing but white space.
pub fn is_blank(s: &str) -> (r: bool)
    ensures
        r == all_white(s@),
{
    let chars = chars_of(s);
    let mut i: usize = 0;
    while i < chars.len()
        invariant
            i <= chars@.len(),
            chars@ == s@,
            forall|k: int| 0 <= k < i ==> is_white(#[trigger] chars@[k]),
        decreases chars@.len() - i,
    {
        if !is_whitespace(chars[i]) {
            return false;
        }
        i += 1;
    }
    true
}

/// Without leading white space.
pub open spec fn trim_start(s: Seq<char>) -> Seq<char>
    decreases s.len(),
{
    if s.len() > 0 && is_white(s[0]) {
        trim_start(s.drop_first())
    } else {
        s
    }
}

/// Without trailing white space.
pub open spec fn trim_end(s: Seq<char>) -> Seq<char>
    decreases s.len(),
{
    if s.len() > 0 && is_white(s.last()) {
        trim_end(s.drop_last())
    } else {
        s
    }
}

/// Without white space at either end.
pub open spec fn trimmed(s: Seq<char>) -> Seq<char> {
    trim_end(trim_start(s))
}

/// Takes off the white space at either end.
pub fn trim(chars: &[char]) -> (out: &[char])
    ensures
        out@ == trimmed(chars@),
{
    let mut from: usize = 0;
    assert(chars@.skip(0) =~= chars@);
    while from < chars.len() && is_whitespace(chars[from])
        invariant
            from <= chars@.len(),
            trim_start(chars@) == trim_start(chars@.skip(from as int)),
        decreases chars@.len() - from,
    {
        assert(chars@.skip(from as int).drop_first() =~= chars@.skip(from + 1));
        from += 1;
    }
    let ghost started = chars@.skip(from as int);
    assert(trim_start(chars@) == started);
    let mut to: usize = chars.len();
    assert(started.take(to - from) =~= started);
    while to > from && is_whitespace(chars[to - 1])
        invariant
            from <= to <= chars@.len(),
            started == chars@.skip(from as int),
            trim_end(started) == trim_end(started.take(to - from)),
        decreases to,
    {
        assert(started.take(to - from).drop_last() =~= started.take(to - 1 - from));
        to -= 1;
    }
    assert(trim_end(started) == started.take(to - from));
    let kept = slice_subrange(chars, from, to);
    assert(kept@ =~= started.take(to - from));
    kept
}

/// The characters up to the first white space.
pub open spec fn until_white(s: Seq<char>) -> Seq<char>
    decreases s.len(),
{
    if s.len() == 0 || is_white(s[0]) {
        Seq::empty()
    } else {
        seq![s[0]] + until_white(s.drop_first())
    }
}

/// The first word of a text; nothing where there is only white space.
pub fn first_word(s: &str) -> (r: Option<String>)
    ensures
        match r {
            Some(w) => w@ == until_white(trim_start(s@)) && w@.len() > 0,
            None => until_white(trim_start(s@)).len() == 0,
        },
{
    let chars = chars_of(s);
    let mut from: usize = 0;
    assert(chars@.skip(0) =~= chars@);
    while from < chars.len() && is_whitespace(chars[from])
        invariant
            from <= chars@.len(),
            trim_start(chars@) == trim_start(chars@.skip(from as int)),
        decreases chars@.len() - from,
    {
        assert(chars@.skip(from as int).drop_first() =~= chars@.skip(from + 1));
        from += 1;
    }
    let ghost started = chars@.skip(from as int);
    assert(trim_start(chars@) == started);
    let mut to: usize = from;
    assert(started.skip(0) =~= started);
    assert(until_white(started) =~= started.take(0) + until_white(started.skip(0)));
    while to < chars.len() && !is_whitespace(chars[to])
        invariant
            from <= to <= chars@.len(),
            started == chars@.skip(from as int),
            until_white(started) == started.take(to - from) + until_white(started.skip(to - from)),
        decreases chars@.len() - to,
    {
        let ghost k = to - from;
        assert(started.skip(k).drop_first() =~= started.skip(k + 1));
        assert(started.skip(k)[0] == chars@[to as int]);
        assert(started.take(k + 1) =~= started.take(k).push(chars@[to as int]));
        assert(started.take(k) + until_white(started.skip(k)) =~= started.take(k + 1) + until_white(
            started.skip(k + 1),
        ));
        to += 1;
    }
    assert(until_white(started.skip(to - from)) =~= Seq::<char>::empty());
    assert(until_white(started) =~= started.take(to - from));
    if to == from {
        return None;
    }
    assert(chars@.subrange(from as int, to as int) =~= started.take(to - from));
    Some(string_between(chars.as_slice(), from, to))
}

/// A wide number in decimal.
pub fn wide_decimal(n: u128) -> (s: String)
    ensures
        s@ == decimal(n as nat),
    decreases n,
{
    if n < 10 {
        return decimal_string(n as u64);
    }
    let mut s = wide_decimal(n / 10);
    s.append(decimal_string((n % 10) as u64).as_str());
    assert(s@ =~= decimal(n as nat)) by {
        reveal_with_fuel(decimal, 2);
    }
    s
}

proof fn lemma_trim_start(front: Seq<char>, rest: Seq<char>)
    requires
        all_white(front),
        rest.len() > 0 ==> !is_white(rest[0]),
    ensures
        trim_start(front + rest) == rest,
    decreases front.len(),
{
    let s = front + rest;
    if front.len() == 0 {
        assert(s =~= rest);
    } else {
        assert(is_white(front[0]));
        assert(s.drop_first() =~= front.drop_first() + rest);
        assert forall|i: int| 0 <= i < front.drop_first().len() implies is_white(
            #[trigger] front.drop_first()[i],
        ) by {
            assert(is_white(front[i + 1]));
        }
        lemma_trim_start(front.drop_first(), rest);
    }
}

proof fn lemma_trim_end(rest: Seq<char>, back: Seq<char>)
    requires
        all_white(back),
        rest.len() > 0 ==> !is_white(rest.last()),
    ensures
        trim_end(rest + back) == rest,
    decreases back.len(),
{
    let s = rest + back;
    if back.len() == 0 {
        assert(s =~= rest);
    } else {
        assert(is_white(back.last()));
        assert(s.drop_last() =~= rest + back.drop_last());
        lemma_trim_end(rest, back.drop_last());
    }
}

/// Trimming gives back what stands between the white space at the two ends,
/// with whatever white space there is inside it.
pub proof fn trimming_leaves_what_white_space_surrounds(
    front: Seq<char>,
    core: Seq<char>,
    back: Seq<char>,
)
    requires
        all_white(front),
        all_white(back),
        core.len() > 0 ==> !is_white(core[0]) && !is_white(core.last()),
    ensures
        trimmed(front + core + back) == core,
{
    if core.len() == 0 {
        let s = front + core + back;
        assert(s =~= (front + back) + core);
        assert forall|i: int| 0 <= i < (front + back).len() implies is_white(
            #[trigger] (front + back)[i],
        ) by {
            if i >= front.len() {
                assert(is_white(back[i - front.len()]));
            }
        }
        lemma_trim_start(front + back, core);
    } else {
        assert(front + core + back =~= front + (core + back));
        lemma_trim_start(front, core + back);
        lemma_trim_end(core, back);
    }
}

proof fn lemma_until_white(word: Seq<char>, rest: Seq<char>)
    requires
        forall|i: int| 0 <= i < word.len() ==> !is_white(#[trigger] word[i]),
        rest.len() > 0 ==> is_white(rest[0]),
    ensures
        until_white(word + rest) == word,
    decreases word.len(),
{
    let s = word + rest;
    if word.len() == 0 {
        assert(s =~= rest);
        assert(until_white(s) =~= word);
    } else {
        assert(!is_white(word[0]));
        assert(s.drop_first() =~= word.drop_first() + rest);
        assert forall|i: int| 0 <= i < word.drop_first().len() implies !is_white(
            #[trigger] word.drop_first()[i],
        ) by {
            assert(!is_white(word[i + 1]));
        }
        lemma_until_white(word.drop_first(), rest);
        assert(until_white(s) =~= word);
    }
}

/// The first word is what stands between the leading white space and the next.
pub proof fn the_first_word_ends_at_white_space(
    front: Seq<char>,
    word: Seq<char>,
    rest: Seq<char>,
)
    requires
        all_white(front),
        word.len() > 0,
        forall|i: int| 0 <= i < word.len() ==> !is_white(#[trigger] word[i]),
        rest.len() > 0 ==> is_white(rest[0]),
    ensures
        until_white(trim_start(front + word + rest)) == word,
{
    assert(front + word + rest =~= front + (word + rest));
    assert(!is_white(word[0]));
    lemma_trim_start(front, word + rest);
    lemma_until_white(word, rest);
}

/// Lower case has no capital letters; a capital becomes the letter that stands
/// as far behind `a` as it stands behind `A`, and nothing else changes.
pub proof fn lower_case_changes_capitals_alone(s: Seq<char>, i: int)
    requires
        0 <= i < s.len(),
    ensures
        lowercase(s).len() == s.len(),
        'A' <= s[i] <= 'Z' ==> lowercase(s)[i] as int - 'a' as int == s[i] as int - 'A' as int,
        !('A' <= s[i] <= 'Z') ==> lowercase(s)[i] == s[i],
        lowercase(lowercase(s)) == lowercase(s),
{
    let low = lowercase(s);
    assert forall|k: int| 0 <= k < s.len() implies lower(#[trigger] low[k]) == low[k] by {
        assert(low[k] == lower(s[k]));
    }
    assert(lowercase(low) =~= low);
    assert(low[i] == lower(s[i]));
}

/// A number is written without leading zeros, and padding adds as many as its
/// width asks for.
pub proof fn numbers_are_padded_to_their_width(n: nat, width: nat)
    ensures
        decimal(n)[0] == '0' <==> n == 0,
        padded(n, width).len() == if decimal(n).len() < width {
            width
        } else {
            decimal(n).len()
        },
        padded(n, 0) == decimal(n),
    decreases n,
{
    if n >= 10 {
        numbers_are_padded_to_their_width(n / 10, width);
        decimal_reads_back(n / 10);
    }
}

/// Digits are read as the number they write, and as nothing where it does not
/// fit; what is empty or holds anything but digits is no number.
pub proof fn written_numbers_are_read(n: nat, width: nat, other: Seq<char>)
    requires
        other.len() == 0 || exists|i: int| 0 <= i < other.len() && !is_digit(#[trigger] other[i]),
    ensures
        as_u32(padded(n, width)) == if n <= u32::MAX {
            Some(n as u32)
        } else {
            None
        },
        as_u32(other) is None,
{
    padded_reads_back(n, width);
}

/// The digits are the ten characters from `0` on, each with its own value.
pub proof fn digits_are_the_ten_from_zero(c: char, d: nat)
    requires
        d < 10,
    ensures
        is_digit(c) <==> 48 <= c as int && c as int <= 57,
        is_digit(c) ==> digit_value(c) < 10 && digit_char(digit_value(c)) == c,
        is_digit(digit_char(d)) && digit_value(digit_char(d)) == d,
        digit_char(d) as int == 48 + d,
{
}

} // verus!
