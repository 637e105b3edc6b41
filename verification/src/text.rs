//! Character-level helpers: whitespace trimming, hexadecimal offsets,
//! CP932-safe punctuation, file extensions and path file names.
use vstd::prelude::*;

verus! {

/// The characters of `s`, in order.
pub fn chars_of(s: &str) -> (v: Vec<char>)
    ensures
        v@ == s@,
{
    let mut v: Vec<char> = Vec::new();
    for c in it: s.chars()
        invariant
            v@ == it.seq().take(it.index() as int),
    {
        v.push(c);
    }
    v
}

/// `s` followed by `t`, as a new string.
pub fn concat(s: &str, t: &str) -> (r: String)
    ensures
        r@ == s@ + t@,
{
    let mut r = String::from_str(s);
    r.append(t);
    r
}

/// `a`, `b` and `c` joined into a new string.
pub fn concat3(a: &str, b: &str, c: &str) -> (r: String)
    ensures
        r@ == a@ + b@ + c@,
{
    let mut r = String::from_str(a);
    r.append(b);
    r.append(c);
    r
}

// ---------------------------------------------------------------------------
// Quoting texts in messages
// ---------------------------------------------------------------------------
/// Names the text that `format!("{:?}", s)` writes for a string `s`: `s` between double quotes,
/// each character escaped as the `Debug` implementation of `str` does.
pub uninterp spec fn debug_quoted(s: Seq<char>) -> Seq<char>;

/// The `Debug` escape of an ordinary ASCII character: a backslash before `"` and `\`, `\t`,
/// `\n` and `\r` for tab, line feed and carriage return, the character itself otherwise.
pub open spec fn ascii_debug_escape(c: char) -> Seq<char> {
    if c == '"' {
        seq!['\\', '"']
    } else if c == '\\' {
        seq!['\\', '\\']
    } else if c == '\t' {
        seq!['\\', 't']
    } else if c == '\n' {
        seq!['\\', 'n']
    } else if c == '\r' {
        seq!['\\', 'r']
    } else {
        seq![c]
    }
}

/// Whether every character of `s` is printable ASCII, a tab, a line feed or a carriage return.
pub open spec fn plain_ascii(s: Seq<char>) -> bool {
    forall|i: int|
        0 <= i < s.len() ==> (0x20 <= (#[trigger] s[i]) as u32 <= 0x7e || s[i] == '\t' || s[i] == '\n' || s[i]
            == '\r')
}

/// The characters of `s`, each escaped by [`ascii_debug_escape`].
pub open spec fn ascii_debug_escaped(s: Seq<char>) -> Seq<char>
    decreases s.len(),
{
    if s.len() == 0 {
        Seq::empty()
    } else {
        ascii_debug_escaped(s.drop_last()) + ascii_debug_escape(s.last())
    }
}

/// Formats `s` with `{:?}`, as `format!` does. The result is named [`debug_quoted`]; for a text
/// of printable ASCII, tabs, line feeds and carriage returns the documented escapes give it
/// exactly: double quotes around the characters, with `"` and `\` preceded by a backslash and
/// tab, line feed and carriage return written `\t`, `\n`, `\r`.
#[verifier::external_body]
pub(crate) fn debug_quote(s: &str) -> (r: String)
    ensures
        r@ == debug_quoted(s@),
        plain_ascii(s@) ==> r@ == seq!['"'] + ascii_debug_escaped(s@) + seq!['"'],
{
    format!("{:?}", s)
}

// ---------------------------------------------------------------------------
// Whitespace
// ---------------------------------------------------------------------------
/// The Unicode `White_Space` property, which `char::is_whitespace` tests.
pub open spec fn is_white_space(c: char) -> bool {
    let u = c as u32;
    (0x9 <= u <= 0xd) || u == 0x20 || u == 0x85 || u == 0xa0 || u == 0x1680 || (0x2000 <= u
        <= 0x200a) || u == 0x2028 || u == 0x2029 || u == 0x202f || u == 0x205f || u == 0x3000
}

/// Whether `c` is white space.
pub fn is_space(c: char) -> (b: bool)
    ensures
        b == is_white_space(c),
{
    let u = c as u32;
    (0x9 <= u && u <= 0xd) || u == 0x20 || u == 0x85 || u == 0xa0 || u == 0x1680 || (0x2000 <= u
        && u <= 0x200a) || u == 0x2028 || u == 0x2029 || u == 0x202f || u == 0x205f || u == 0x3000
}

/// `s` without its leading white space.
pub open spec fn trim_start(s: Seq<char>) -> Seq<char>
    decreases s.len(),
{
    if s.len() > 0 && is_white_space(s[0]) {
        trim_start(s.drop_first())
    } else {
        s
    }
}

/// `s` without its trailing white space.
pub open spec fn trim_end(s: Seq<char>) -> Seq<char>
    decreases s.len(),
{
    if s.len() > 0 && is_white_space(s.last()) {
        trim_end(s.drop_last())
    } else {
        s
    }
}

/// `s` without leading and trailing white space, as `str::trim` gives it.
pub open spec fn spec_trim(s: Seq<char>) -> Seq<char> {
    trim_end(trim_start(s))
}

/// Returns `s` with leading and trailing white space removed.
pub fn trim(s: &str) -> (r: &str)
    ensures
        r@ == spec_trim(s@),
{
    let v = chars_of(s);
    let n = v.len();
    let mut a: usize = 0;
    assert(s@.skip(0) =~= s@);
    while a < n && is_space(v[a])
        invariant
            a <= n,
            n == s@.len(),
            v@ == s@,
            trim_start(s@) == trim_start(s@.skip(a as int)),
        decreases n - a,
    {
        assert(s@.skip(a as int).drop_first() =~= s@.skip(a + 1));
        a = a + 1;
    }
    assert(trim_start(s@.skip(a as int)) == s@.skip(a as int));
    let mut b: usize = n;
    while b > a && is_space(v[b - 1])
        invariant
            a <= b <= n,
            n == s@.len(),
            v@ == s@,
            trim_end(s@.skip(a as int)) == trim_end(s@.subrange(a as int, b as int)),
        decreases b,
    {
        assert(s@.subrange(a as int, b as int).drop_last() =~= s@.subrange(a as int, b - 1));
        b = b - 1;
    }
    assert(s@.skip(a as int) =~= s@.subrange(a as int, n as int));
    assert(trim_end(s@.subrange(a as int, b as int)) == s@.subrange(a as int, b as int));
    s.substring_char(a, b)
}

// ---------------------------------------------------------------------------
// Hexadecimal offsets
// ---------------------------------------------------------------------------
/// The lowercase hexadecimal digit for `d < 16`.
pub open spec fn hex_char(d: int) -> char {
    if d == 0 {
        '0'
    } else if d == 1 {
        '1'
    } else if d == 2 {
        '2'
    } else if d == 3 {
        '3'
    } else if d == 4 {
        '4'
    } else if d == 5 {
        '5'
    } else if d == 6 {
        '6'
    } else if d == 7 {
        '7'
    } else if d == 8 {
        '8'
    } else if d == 9 {
        '9'
    } else if d == 10 {
        'a'
    } else if d == 11 {
        'b'
    } else if d == 12 {
        'c'
    } else if d == 13 {
        'd'
    } else if d == 14 {
        'e'
    } else {
        'f'
    }
}

/// The lowercase hexadecimal digits of `n`, most significant first, without leading zeros.
pub open spec fn hex_digits(n: nat) -> Seq<char>
    decreases n,
{
    if n < 16 {
        seq![hex_char(n as int)]
    } else {
        hex_digits(n / 16).push(hex_char((n % 16) as int))
    }
}

/// The text `{:#x}` formats `n` to: `0x` and its lowercase hexadecimal digits.
pub open spec fn spec_format_offset(n: nat) -> Seq<char> {
    seq!['0', 'x'] + hex_digits(n)
}

/// The decimal digits of `n`, most significant first, without leading zeros.
pub open spec fn dec_digits(n: nat) -> Seq<char>
    decreases n,
{
    if n < 10 {
        seq![hex_char(n as int)]
    } else {
        dec_digits(n / 10).push(hex_char((n % 10) as int))
    }
}

/// The value of a hexadecimal digit of either case.
pub open spec fn hex_value_of(c: char) -> Option<nat> {
    let u = c as u32;
    if 0x30 <= u <= 0x39 {
        Some((u - 0x30) as nat)
    } else if 0x61 <= u <= 0x66 {
        Some((u - 0x61 + 10) as nat)
    } else if 0x41 <= u <= 0x46 {
        Some((u - 0x41 + 10) as nat)
    } else {
        None
    }
}

/// The value of a run of hexadecimal digits, or `None` if one is not a digit.
pub open spec fn hex_run_value(d: Seq<char>) -> Option<nat>
    decreases d.len(),
{
    if d.len() == 0 {
        Some(0)
    } else {
        match (hex_run_value(d.drop_last()), hex_value_of(d.last())) {
            (Some(v), Some(x)) => Some(16 * v + x),
            _ => None,
        }
    }
}

/// `t` without a leading `0x` or `0X`.
pub open spec fn strip_hex_prefix(t: Seq<char>) -> Seq<char> {
    if t.len() >= 2 && t[0] == '0' && (t[1] == 'x' || t[1] == 'X') {
        t.skip(2)
    } else {
        t
    }
}

/// What `usize::from_str_radix(h, 16)` reads, as a number not yet bounded: at least one digit,
/// after an optional `+`.
pub open spec fn radix16_value(h: Seq<char>) -> Option<nat> {
    if h.len() == 0 {
        None
    } else if h.len() == 1 && (h[0] == '+' || h[0] == '-') {
        None
    } else if h[0] == '+' {
        hex_run_value(h.drop_first())
    } else {
        hex_run_value(h)
    }
}

/// The offset a text such as `0x18f` denotes: trimmed, with an optional `0x`/`0X` prefix,
/// in hexadecimal.
pub open spec fn spec_parse_offset(s: Seq<char>) -> Option<nat> {
    radix16_value(strip_hex_prefix(spec_trim(s)))
}

/// The text of digit `d`.
fn hex_digit_str(d: u8) -> (s: &'static str)
    requires
        d < 16,
    ensures
        s@ == seq![hex_char(d as int)],
{
    proof {
        reveal_strlit("0");
        reveal_strlit("1");
        reveal_strlit("2");
        reveal_strlit("3");
        reveal_strlit("4");
        reveal_strlit("5");
        reveal_strlit("6");
        reveal_strlit("7");
        reveal_strlit("8");
        reveal_strlit("9");
        reveal_strlit("a");
        reveal_strlit("b");
        reveal_strlit("c");
        reveal_strlit("d");
        reveal_strlit("e");
        reveal_strlit("f");
    }
    match d {
        0 => "0",
        1 => "1",
        2 => "2",
        3 => "3",
        4 => "4",
        5 => "5",
        6 => "6",
        7 => "7",
        8 => "8",
        9 => "9",
        10 => "a",
        11 => "b",
        12 => "c",
        13 => "d",
        14 => "e",
        _ => "f",
    }
}

/// Appends the hexadecimal digits of `n` to `out`.
fn push_hex_digits(out: &mut String, n: usize)
    ensures
        final(out)@ == old(out)@ + hex_digits(n as nat),
    decreases n,
{
    if n >= 16 {
        push_hex_digits(out, n / 16);
    }
    let d = hex_digit_str((n % 16) as u8);
    out.append(d);
    assert(final(out)@ =~= old(out)@ + hex_digits(n as nat));
}

/// Appends the decimal digits of `n` to `out`.
fn push_dec_digits(out: &mut String, n: usize)
    ensures
        final(out)@ == old(out)@ + dec_digits(n as nat),
    decreases n,
{
    if n >= 10 {
        push_dec_digits(out, n / 10);
    }
    let d = hex_digit_str((n % 10) as u8);
    out.append(d);
    assert(final(out)@ =~= old(out)@ + dec_digits(n as nat));
}

/// Formats a count in decimal, as `{}` does.
pub fn format_decimal(n: usize) -> (r: String)
    ensures
        r@ == dec_digits(n as nat),
{
    let mut r = String::new();
    push_dec_digits(&mut r, n);
    assert(r@ =~= dec_digits(n as nat));
    r
}

/// Formats a record offset as `0x` followed by lowercase hexadecimal digits.
pub fn format_offset(n: usize) -> (r: String)
    ensures
        r@ == spec_format_offset(n as nat),
{
    proof {
        reveal_strlit("0x");
    }
    let mut r = String::from_str("0x");
    push_hex_digits(&mut r, n);
    assert(r@ =~= spec_format_offset(n as nat));
    r
}

/// The value of the hexadecimal digit `c`, if it is one.
fn hex_digit_value(c: char) -> (r: Option<usize>)
    ensures
        r matches Some(v) ==> hex_value_of(c) == Some(v as nat),
        r is None ==> hex_value_of(c) is None,
{
    let u = c as u32;
    if 0x30 <= u && u <= 0x39 {
        Some((u - 0x30) as usize)
    } else if 0x61 <= u && u <= 0x66 {
        Some((u - 0x61 + 10) as usize)
    } else if 0x41 <= u && u <= 0x46 {
        Some((u - 0x41 + 10) as usize)
    } else {
        None
    }
}

/// A run of digits is at least worth any of its prefixes.
proof fn lemma_hex_run_prefix(d: Seq<char>, k: int)
    requires
        0 <= k <= d.len(),
        hex_run_value(d) is Some,
    ensures
        hex_run_value(d.take(k)) is Some,
        hex_run_value(d.take(k)).unwrap() <= hex_run_value(d).unwrap(),
    decreases d.len(),
{
    if k < d.len() {
        assert(d.drop_last().take(k) =~= d.take(k));
        lemma_hex_run_prefix(d.drop_last(), k);
    } else {
        assert(d.take(k) =~= d);
    }
}

/// The message of the error for an offset text that does not parse: `bad offset` and the text
/// as `{:?}` writes it.
pub open spec fn bad_offset_refusal(s: Seq<char>) -> Seq<char> {
    "bad offset "@ + debug_quoted(s)
}

/// The message for an offset text that does not parse.
fn bad_offset_message(s: &str) -> (r: String)
    ensures
        r@ == bad_offset_refusal(s@),
{
    let q = debug_quote(s);
    concat("bad offset ", q.as_str())
}

/// Parses a hexadecimal record offset such as `0x18f`.
pub fn parse_offset(s: &str) -> (r: Result<usize, crate::error::PatchError>)
    ensures
        r matches Ok(v) ==> spec_parse_offset(s@) == Some(v as nat),
        r is Err ==> (r->Err_0 is Format && (spec_parse_offset(s@) is None
            || spec_parse_offset(s@).unwrap() > usize::MAX)),
        r matches Err(e) ==> e.message() == bad_offset_refusal(s@),
{
    let t = trim(s);
    let v = chars_of(t);
    let n = v.len();
    let ghost h = strip_hex_prefix(t@);
    let mut start: usize = 0;
    if n >= 2 && v[0] == '0' && (v[1] == 'x' || v[1] == 'X') {
        start = 2;
    }
    assert(h =~= t@.skip(start as int));
    if start == n {
        return Err(crate::error::PatchError::Format(bad_offset_message(s)));
    }
    if start + 1 == n && (v[start] == '+' || v[start] == '-') {
        return Err(crate::error::PatchError::Format(bad_offset_message(s)));
    }
    if v[start] == '+' {
        start = start + 1;
    }
    let ghost digits = t@.skip(start as int);
    assert(radix16_value(h) == hex_run_value(digits)) by {
        if h[0] == '+' {
            assert(h.drop_first() =~= digits);
        } else {
            assert(h =~= digits);
        }
    }
    let mut acc: usize = 0;
    let mut i: usize = start;
    while i < n
        invariant
            start <= i <= n,
            n == t@.len(),
            v@ == t@,
            digits == t@.skip(start as int),
            spec_parse_offset(s@) == hex_run_value(digits),
            hex_run_value(digits.take(i - start)) == Some(acc as nat),
        decreases n - i,
    {
        assert(digits.take(i + 1 - start).drop_last() =~= digits.take(i - start));
        assert(digits.take(i + 1 - start).last() == v@[i as int]);
        match hex_digit_value(v[i]) {
            None => {
                assert(hex_run_value(digits.take(i + 1 - start)) is None);
                proof {
                    if hex_run_value(digits) is Some {
                        lemma_hex_run_prefix(digits, i + 1 - start);
                    }
                }
                return Err(crate::error::PatchError::Format(bad_offset_message(s)));
            },
            Some(d) => {
                assert(hex_run_value(digits.take(i + 1 - start)) == Some(16 * (acc as nat) + (d as nat)));
                if acc > (usize::MAX - d) / 16 {
                    assert(16 * (acc as nat) + d > usize::MAX) by (nonlinear_arith)
                        requires
                            acc > (usize::MAX - d) / 16,
                            d < 16,
                    ;
                    proof {
                        if hex_run_value(digits) is Some {
                            lemma_hex_run_prefix(digits, i + 1 - start);
                        }
                    }
                    return Err(crate::error::PatchError::Format(bad_offset_message(s)));
                }
                acc = acc * 16 + d;
                i = i + 1;
            },
        }
    }
    assert(digits.take(n - start) =~= digits);
    Ok(acc)
}

proof fn lemma_hex_char_value(d: int)
    requires
        0 <= d < 16,
    ensures
        hex_value_of(hex_char(d)) == Some(d as nat),
{
}

proof fn lemma_hex_digits_value(n: nat)
    ensures
        hex_run_value(hex_digits(n)) == Some(n),
        hex_digits(n).len() >= 1,
        hex_value_of(hex_digits(n)[0]) is Some,
        !is_white_space(hex_digits(n).last()),
    decreases n,
{
    if n < 16 {
        lemma_hex_char_value(n as int);
        assert(seq![hex_char(n as int)].drop_last() =~= Seq::<char>::empty());
        assert(hex_run_value(Seq::<char>::empty()) == Some(0nat));
    } else {
        lemma_hex_digits_value(n / 16);
        lemma_hex_char_value((n % 16) as int);
        assert(hex_digits(n).drop_last() =~= hex_digits(n / 16));
    }
}

/// Parsing a formatted offset gives the offset back.
pub proof fn lemma_offset_roundtrip(n: nat)
    ensures
        spec_parse_offset(spec_format_offset(n)) == Some(n),
{
    let f = spec_format_offset(n);
    lemma_hex_digits_value(n);
    assert(trim_start(f) == f);
    assert(trim_end(f) == f);
    assert(f.skip(2) =~= hex_digits(n));
}

// ---------------------------------------------------------------------------
// CP932-safe punctuation
// ---------------------------------------------------------------------------
/// What a character becomes before CP932 encoding: typographic quotes, dashes, the ellipsis and
/// the no-break space are mapped to forms CP932 can hold; every other character is kept.
pub open spec fn sanitized_char(c: char) -> Seq<char> {
    let u = c as u32;
    if u == 0x2018 || u == 0x2019 {
        seq!['\'']
    } else if u == 0x201c || u == 0x201d {
        seq!['"']
    } else if u == 0x2013 {
        seq!['-']
    } else if u == 0x2014 {
        seq!['\u{2015}']
    } else if u == 0x2026 {
        seq!['.', '.', '.']
    } else if u == 0xa0 {
        seq![' ']
    } else {
        seq![c]
    }
}

/// `s` with each character mapped by [`sanitized_char`].
pub open spec fn spec_sanitize(s: Seq<char>) -> Seq<char>
    decreases s.len(),
{
    if s.len() == 0 {
        Seq::empty()
    } else {
        spec_sanitize(s.drop_last()) + sanitized_char(s.last())
    }
}

/// The replacement text for a character that needs one.
fn replacement(c: char) -> (r: Option<&'static str>)
    ensures
        r matches Some(t) ==> t@ == sanitized_char(c),
        r is None ==> sanitized_char(c) == seq![c],
{
    proof {
        reveal_strlit("'");
        reveal_strlit("\"");
        reveal_strlit("-");
        reveal_strlit("\u{2015}");
        reveal_strlit("...");
        reveal_strlit(" ");
    }
    let u = c as u32;
    if u == 0x2018 || u == 0x2019 {
        Some("'")
    } else if u == 0x201c || u == 0x201d {
        Some("\"")
    } else if u == 0x2013 {
        Some("-")
    } else if u == 0x2014 {
        Some("\u{2015}")
    } else if u == 0x2026 {
        Some("...")
    } else if u == 0xa0 {
        Some(" ")
    } else {
        None
    }
}

/// Maps punctuation that CP932 cannot encode to forms it can.
pub fn sanitize(text: &str) -> (r: String)
    ensures
        r@ == spec_sanitize(text@),
{
    let v = chars_of(text);
    let n = v.len();
    let mut out = String::new();
    let mut run: usize = 0;
    let mut i: usize = 0;
    while i < n
        invariant
            run <= i <= n,
            n == text@.len(),
            v@ == text@,
            out@ + text@.subrange(run as int, i as int) == spec_sanitize(text@.take(i as int)),
        decreases n - i,
    {
        assert(text@.take(i + 1).drop_last() =~= text@.take(i as int));
        assert(text@.take(i + 1).last() == text@[i as int]);
        match replacement(v[i]) {
            Some(t) => {
                let piece = text.substring_char(run, i);
                out.append(piece);
                out.append(t);
                run = i + 1;
                assert(text@.subrange(run as int, (i + 1) as int) =~= Seq::<char>::empty());
                assert(out@ =~= spec_sanitize(text@.take(i + 1)));
            },
            None => {
                assert(text@.subrange(run as int, i + 1) =~= text@.subrange(run as int, i as int)
                    + seq![text@[i as int]]);
            },
        }
        i = i + 1;
    }
    let tail = text.substring_char(run, n);
    out.append(tail);
    assert(text@.take(n as int) =~= text@);
    out
}

// ---------------------------------------------------------------------------
// File names
// ---------------------------------------------------------------------------
/// Whether the last four characters of `s` spell `.asb` in any letter case; this is what
/// `s.to_lowercase().ends_with(".asb")` tests, since no character other than `A`, `S`, `B`
/// lowercases to a text ending in `a`, `s` or `b`.
pub open spec fn spec_has_asb_extension(s: Seq<char>) -> bool {
    let n = s.len() as int;
    &&& n >= 4
    &&& s[n - 4] == '.'
    &&& (s[n - 3] == 'a' || s[n - 3] == 'A')
    &&& (s[n - 2] == 's' || s[n - 2] == 'S')
    &&& (s[n - 1] == 'b' || s[n - 1] == 'B')
}

/// Whether `name` ends in `.asb`, ignoring letter case.
pub fn has_asb_extension(name: &str) -> (b: bool)
    ensures
        b == spec_has_asb_extension(name@),
{
    let v = chars_of(name);
    let n = v.len();
    n >= 4 && v[n - 4] == '.' && (v[n - 3] == 'a' || v[n - 3] == 'A') && (v[n - 2] == 's' || v[n
        - 2] == 'S') && (v[n - 1] == 'b' || v[n - 1] == 'B')
}

} // verus!
