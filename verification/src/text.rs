//! Building text: characters, decimal and hexadecimal numbers, and bytes read as text.

use vstd::prelude::*;

verus! {

/// What `String::from_utf8_lossy` makes of a byte sequence.
pub uninterp spec fn utf8_lossy(bytes: Seq<u8>) -> Seq<char>;

/// Every byte below 128.
pub open spec fn all_ascii(bytes: Seq<u8>) -> bool {
    forall|i: int| 0 <= i < bytes.len() ==> bytes[i] < 128
}

/// ASCII bytes read one character each.
pub open spec fn ascii_chars(bytes: Seq<u8>) -> Seq<char> {
    Seq::new(bytes.len(), |i: int| bytes[i] as char)
}

/// `bytes` decoded as UTF-8, each invalid sequence replaced by U+FFFD (`String::from_utf8_lossy`).
///
/// Stated: the result is the name `utf8_lossy` of the bytes, and ASCII bytes decode to the
/// characters with the same numbers (ASCII is valid UTF-8, which the function decodes unchanged).
/// The replacement rules for invalid sequences are left unsaid.
#[verifier::external_body]
pub fn lossy_text(bytes: &[u8]) -> (s: String)
    ensures
        s@ == utf8_lossy(bytes@),
        all_ascii(bytes@) ==> s@ == ascii_chars(bytes@),
{
    String::from_utf8_lossy(bytes).into_owned()
}

/// Append one character (`String::push`).
///
/// Stated: the string afterwards is the old one with `c` at the end.
#[verifier::external_body]
pub fn push_char(s: &mut String, c: char)
    ensures
        final(s)@ == old(s)@.push(c),
{
    s.push(c);
}

/// Append a string slice.
pub fn push_str(s: &mut String, t: &str)
    ensures
        final(s)@ == old(s)@ + t@,
{
    s.append(t);
}

/// The decimal digit for `d < 10`.
pub open spec fn digit(d: nat) -> char {
    (48 + d) as char
}

/// The decimal spelling of `n`, without leading zeros.
pub open spec fn decimal(n: nat) -> Seq<char>
    decreases n,
{
    if n < 10 {
        seq![digit(n)]
    } else {
        decimal(n / 10).push(digit(n % 10))
    }
}

/// `n` in decimal, zero-padded on the left to at least `width` characters.
pub open spec fn padded_decimal(n: nat, width: nat) -> Seq<char> {
    let d = decimal(n);
    if d.len() >= width {
        d
    } else {
        Seq::new((width - d.len()) as nat, |_i: int| '0') + d
    }
}

fn digit_char(d: u64) -> (c: char)
    requires
        d < 10,
    ensures
        c == digit(d as nat),
{
    let b: u8 = 48 + d as u8;
    b as char
}

/// Append `n` in decimal.
pub fn push_decimal(s: &mut String, n: u64)
    ensures
        final(s)@ == old(s)@ + decimal(n as nat),
    decreases n,
{
    if n >= 10 {
        push_decimal(s, n / 10);
    }
    push_char(s, digit_char(n % 10));
    assert(s@ =~= old(s)@ + decimal(n as nat));
}

pub proof fn lemma_decimal_len(n: nat)
    ensures
        decimal(n).len() >= 1,
        n < 10 ==> decimal(n).len() == 1,
        10 <= n < 100 ==> decimal(n).len() == 2,
        100 <= n < 1000 ==> decimal(n).len() == 3,
    decreases n,
{
    if n >= 10 {
        lemma_decimal_len(n / 10);
    }
}

/// Append `n` in decimal, zero-padded to `width` characters.
pub fn push_padded_decimal(s: &mut String, n: u64, width: usize)
    ensures
        final(s)@ == old(s)@ + padded_decimal(n as nat, width as nat),
{
    let mut digits = String::new();
    push_decimal(&mut digits, n);
    assert(digits@ =~= decimal(n as nat));
    let len = digits.unicode_len();
    let mut pad: usize = 0;
    if len < width {
        pad = width - len;
    }
    let mut i: usize = 0;
    while i < pad
        invariant
            i <= pad,
            s@ == old(s)@ + Seq::new(i as nat, |_i: int| '0'),
        decreases pad - i,
    {
        push_char(s, '0');
        i = i + 1;
        assert(s@ =~= old(s)@ + Seq::new(i as nat, |_i: int| '0'));
    }
    push_str(s, digits.as_str());
    assert(s@ =~= old(s)@ + padded_decimal(n as nat, width as nat));
}

/// The lowercase hexadecimal digit for `d < 16`.
pub open spec fn hex_digit(d: nat) -> char {
    if d < 10 {
        (48 + d) as char
    } else {
        (87 + d) as char
    }
}

/// A byte as two lowercase hexadecimal digits.
pub open spec fn hex2(b: u8) -> Seq<char> {
    seq![hex_digit((b / 16) as nat), hex_digit((b % 16) as nat)]
}

fn hex_char(d: u8) -> (c: char)
    requires
        d < 16,
    ensures
        c == hex_digit(d as nat),
{
    if d < 10 {
        (48 + d) as char
    } else {
        (87 + d) as char
    }
}

/// Append a byte as two lowercase hexadecimal digits.
pub fn push_hex2(s: &mut String, b: u8)
    ensures
        final(s)@ == old(s)@ + hex2(b),
{
    push_char(s, hex_char(b / 16));
    push_char(s, hex_char(b % 16));
    assert(s@ =~= old(s)@ + hex2(b));
}

/// `v` as eight lowercase hexadecimal digits.
pub open spec fn hex8(v: u32) -> Seq<char> {
    hex2((v / 16777216) as u8) + hex2(((v / 65536) % 256) as u8) + hex2(((v / 256) % 256) as u8)
        + hex2((v % 256) as u8)
}

/// Append `v` as eight lowercase hexadecimal digits.
pub fn push_hex8(s: &mut String, v: u32)
    ensures
        final(s)@ == old(s)@ + hex8(v),
{
    push_hex2(s, (v / 16777216) as u8);
    push_hex2(s, ((v / 65536) % 256) as u8);
    push_hex2(s, ((v / 256) % 256) as u8);
    push_hex2(s, (v % 256) as u8);
    assert(s@ =~= old(s)@ + hex8(v));
}

/// Whether a byte prints as itself: ASCII graphic characters and the space.
pub open spec fn is_printable(b: u8) -> bool {
    0x20 <= b <= 0x7e
}

/// A byte shown as text: itself when printable, `.` otherwise.
pub open spec fn shown(b: u8) -> char {
    if is_printable(b) {
        b as char
    } else {
        '.'
    }
}

pub fn shown_char(b: u8) -> (c: char)
    ensures
        c == shown(b),
{
    if 0x20 <= b && b <= 0x7e {
        b as char
    } else {
        '.'
    }
}

} // verus!

verus! {

/// Whether a byte is field padding: a space or a NUL.
pub open spec fn is_pad(b: u8) -> bool {
    b == 0x20 || b == 0
}

/// The length of `bytes` once trailing spaces and NULs are dropped.
pub open spec fn trimmed_len(bytes: Seq<u8>) -> nat
    decreases bytes.len(),
{
    if bytes.len() == 0 {
        0
    } else if is_pad(bytes.last()) {
        trimmed_len(bytes.drop_last())
    } else {
        bytes.len()
    }
}

pub proof fn lemma_trimmed_len_bound(bytes: Seq<u8>)
    ensures
        trimmed_len(bytes) <= bytes.len(),
    decreases bytes.len(),
{
    if bytes.len() > 0 && is_pad(bytes.last()) {
        lemma_trimmed_len_bound(bytes.drop_last());
    }
}

/// A fixed text field as it reads: the bytes up to the trailing padding, decoded.
pub open spec fn field_text(bytes: Seq<u8>) -> Seq<char> {
    utf8_lossy(bytes.subrange(0, trimmed_len(bytes) as int))
}

/// Trim a fixed ASCII byte field to a `String`, dropping trailing spaces and NULs.
pub fn ascii_trim(bytes: &[u8]) -> (s: String)
    ensures
        s@ == field_text(bytes@),
        all_ascii(bytes@) ==> s@ == ascii_chars(bytes@.subrange(0, trimmed_len(bytes@) as int)),
{
    let mut n = bytes.len();
    assert(bytes@.subrange(0, n as int) =~= bytes@);
    while n > 0 && (bytes[n - 1] == 0x20 || bytes[n - 1] == 0)
        invariant
            n <= bytes@.len(),
            trimmed_len(bytes@.subrange(0, n as int)) == trimmed_len(bytes@),
        decreases n,
    {
        assert(bytes@.subrange(0, n as int).drop_last() =~= bytes@.subrange(0, n - 1));
        n = n - 1;
    }
    proof {
        if n > 0 {
            assert(bytes@.subrange(0, n as int).last() == bytes@[n - 1]);
        }
        assert(trimmed_len(bytes@.subrange(0, n as int)) == n);
    }
    let part = vstd::slice::slice_subrange(bytes, 0, n);
    proof {
        if all_ascii(bytes@) {
            assert(all_ascii(part@));
        }
    }
    lossy_text(part)
}

} // verus!

verus! {

/// What `{:?}` makes of a string.
pub uninterp spec fn debug_str(text: Seq<char>) -> Seq<char>;

/// A character that `{:?}` leaves as it is inside a quoted string: printable ASCII other than
/// the quote marks and the backslash.
pub open spec fn plain_in_quotes(c: char) -> bool {
    ' ' <= c <= '~' && c != '"' && c != '\'' && c != '\\'
}

/// A string as `{:?}` prints it (the `Debug` impl of `str`).
///
/// Stated: the result is the name `debug_str` of the text, and text made only of characters that
/// need no escape comes back between double quotes, unchanged (`char::escape_debug` leaves
/// printable ASCII other than quotes and backslash alone). How other characters are escaped is
/// left unsaid.
#[verifier::external_body]
fn debug_text(t: &str) -> (s: String)
    ensures
        s@ == debug_str(t@),
        (forall|i: int| 0 <= i < t@.len() ==> plain_in_quotes(#[trigger] t@[i])) ==> s@ == seq![
            '"',
        ] + t@ + seq!['"'],
{
    format!("{:?}", t)
}

/// Append `s` quoted and escaped, as `{:?}` shows a string.
pub fn push_debug_str(out: &mut String, s: &str)
    ensures
        final(out)@ == old(out)@ + debug_str(s@),
        (forall|i: int| 0 <= i < s@.len() ==> plain_in_quotes(#[trigger] s@[i])) ==> final(out)@
            == old(out)@ + seq!['"'] + s@ + seq!['"'],
{
    let q = debug_text(s);
    push_str(out, q.as_str());
    assert(seq!['"'] + s@ + seq!['"'] == seq!['"'] + s@ + seq!['"']);
}

} // verus!

verus! {

/// Whether Rust's `char::is_whitespace` holds of `c` (the Unicode `White_Space` property).
pub uninterp spec fn char_is_whitespace(c: char) -> bool;

/// The ASCII characters Rust counts as whitespace: tab, line feed, vertical tab, form feed,
/// carriage return and space.
pub open spec fn ascii_whitespace(c: char) -> bool {
    c == ' ' || (9 <= c as u32 <= 13)
}

/// Whether `c` is whitespace (`char::is_whitespace`).
///
/// Stated: the answer is the name `char_is_whitespace` of `c`, and for ASCII characters it is
/// exactly tab through carriage return and space, as the documentation lists. Which non-ASCII
/// characters count is left to the Unicode tables.
#[verifier::external_body]
pub fn is_whitespace(c: char) -> (r: bool)
    ensures
        r == char_is_whitespace(c),
        (c as u32) < 128 ==> (r <==> ascii_whitespace(c)),
{
    c.is_whitespace()
}

/// The length of `s` once trailing whitespace is dropped.
pub open spec fn trim_end_len(s: Seq<char>) -> nat
    decreases s.len(),
{
    if s.len() == 0 {
        0
    } else if char_is_whitespace(s.last()) {
        trim_end_len(s.drop_last())
    } else {
        s.len()
    }
}

/// The index of the first character that is not whitespace, at or after `i`.
pub open spec fn trim_start_at(s: Seq<char>, i: int) -> int
    decreases s.len() - i,
{
    if i >= s.len() || i < 0 {
        s.len() as int
    } else if char_is_whitespace(s[i]) {
        trim_start_at(s, i + 1)
    } else {
        i
    }
}

/// `s` without trailing whitespace (`str::trim_end`).
pub open spec fn trim_end(s: Seq<char>) -> Seq<char> {
    s.subrange(0, trim_end_len(s) as int)
}

/// `s` without leading or trailing whitespace (`str::trim`).
pub open spec fn trim(s: Seq<char>) -> Seq<char> {
    let t = trim_end(s);
    t.subrange(trim_start_at(t, 0), t.len() as int)
}

pub proof fn lemma_trim_end_len(s: Seq<char>)
    ensures
        trim_end_len(s) <= s.len(),
    decreases s.len(),
{
    if s.len() > 0 && char_is_whitespace(s.last()) {
        lemma_trim_end_len(s.drop_last());
    }
}

pub proof fn lemma_trim_start_at(s: Seq<char>, i: int)
    requires
        0 <= i,
    ensures
        i <= trim_start_at(s, i) <= s.len() || (i > s.len() && trim_start_at(s, i) == s.len()),
    decreases s.len() - i,
{
    if i < s.len() && char_is_whitespace(s[i]) {
        lemma_trim_start_at(s, i + 1);
    }
}

/// The trimmed-end slice of `s`.
pub fn str_trim_end(s: &str) -> (t: &str)
    ensures
        t@ == trim_end(s@),
{
    let mut n = s.unicode_len();
    assert(s@.subrange(0, n as int) =~= s@);
    while n > 0 && is_whitespace(s.get_char(n - 1))
        invariant
            n <= s@.len(),
            trim_end_len(s@.subrange(0, n as int)) == trim_end_len(s@),
        decreases n,
    {
        assert(s@.subrange(0, n as int).drop_last() =~= s@.subrange(0, n - 1));
        n = n - 1;
    }
    proof {
        if n > 0 {
            assert(s@.subrange(0, n as int).last() == s@[n - 1]);
        }
    }
    s.substring_char(0, n)
}

/// The trimmed slice of `s`.
pub fn str_trim(s: &str) -> (t: &str)
    ensures
        t@ == trim(s@),
{
    let e = str_trim_end(s);
    proof {
        lemma_trim_end_len(s@);
    }
    let n = e.unicode_len();
    let mut i: usize = 0;
    while i < n && is_whitespace(e.get_char(i))
        invariant
            n == e@.len(),
            i <= n,
            trim_start_at(e@, i as int) == trim_start_at(e@, 0),
        decreases n - i,
    {
        i = i + 1;
    }
    e.substring_char(i, n)
}

/// An ASCII uppercase letter lowered; any other character unchanged (`char::to_ascii_lowercase`).
pub open spec fn ascii_lower(c: char) -> char {
    if 'A' <= c <= 'Z' {
        ((c as u32) + 32) as char
    } else {
        c
    }
}

pub fn to_ascii_lower(c: char) -> (r: char)
    ensures
        r == ascii_lower(c),
{
    if 'A' <= c && c <= 'Z' {
        ((c as u8) + 32) as char
    } else {
        c
    }
}

/// Whether every character of `s` is printable ASCII, space through tilde.
pub open spec fn printable_ascii(s: Seq<char>) -> bool {
    forall|i: int| 0 <= i < s.len() ==> ' ' <= #[trigger] s[i] <= '~'
}

} // verus!
