//! ASB bytecode records: parsing a decrypted script into records, reading and
//! replacing the CP932 strings of text records, and reassembling a script with
//! its jump targets relocated.
//!
//! A record is laid out as
//! `+0 u32 opcode`, `+4 u32 record length (header included)`, `+8 arguments`.
//! A script ends with a terminator record (opcode 0, length `0xFFFFFFFF`) that
//! owns every byte after it. Text records (title `0x04`, speaker `0x29`,
//! dialogue `0x2a`, choice `0x0d`) hold NUL-terminated CP932 strings after a
//! 16-byte argument prefix; a choice holds as many as its option count at
//! argument offset 4. Jumps (`0x0a`, `0x0b`, `0x0c`) hold an absolute byte
//! offset into the script at argument offset 0.
use vstd::prelude::*;

use crate::bytes::{le_bytes, spec_u32_le, u32_at};
use crate::error::{ErrorKind, PatchError};
use crate::text::{concat, concat3, format_offset, spec_format_offset};

verus! {

broadcast use vstd::std_specs::hash::group_hash_axioms;

// ---------------------------------------------------------------------------
// CP932 (Shift_JIS) through encoding_rs
// ---------------------------------------------------------------------------
/// Names the result of `encoding_rs::SHIFT_JIS.encode` on a text: the bytes it produces, and
/// whether some character had no Shift_JIS form (such characters are written as decimal numeric
/// character references).
pub uninterp spec fn shift_jis_encoding(s: Seq<char>) -> (Seq<u8>, bool);

/// Names the text `encoding_rs::SHIFT_JIS.decode` produces from bytes (malformed sequences become
/// U+FFFD; a leading byte-order mark selects the encoding it marks).
pub uninterp spec fn shift_jis_decoding(b: Seq<u8>) -> Seq<char>;

/// Whether every character of `s` is ASCII.
pub open spec fn ascii_chars(s: Seq<char>) -> bool {
    forall|i: int| 0 <= i < s.len() ==> (#[trigger] s[i] as u32) < 128
}

/// Whether every byte of `b` is ASCII.
pub open spec fn ascii_bytes(b: Seq<u8>) -> bool {
    forall|i: int| 0 <= i < b.len() ==> #[trigger] b[i] < 128
}

/// The bytes of an ASCII text.
pub open spec fn ascii_encoding(s: Seq<char>) -> Seq<u8> {
    Seq::new(s.len(), |i: int| s[i] as u8)
}

/// The characters of ASCII bytes.
pub open spec fn ascii_decoding(b: Seq<u8>) -> Seq<char> {
    Seq::new(b.len(), |i: int| b[i] as char)
}

/// The longest text, in characters, that [`cp932_encode`] hands to the encoder; encoding_rs
/// panics when the size of its output buffer overflows `usize`.
pub open spec fn encode_limit() -> nat {
    (usize::MAX / 32) as nat
}

/// Whether `s` can be written in CP932.
pub open spec fn cp932_encodable(s: Seq<char>) -> bool {
    s.len() <= encode_limit() && !shift_jis_encoding(s).1
}

/// The CP932 bytes of `s`.
pub open spec fn cp932_bytes(s: Seq<char>) -> Seq<u8> {
    shift_jis_encoding(s).0
}

/// The message of the encoding error for a text that CP932 cannot hold, the text written as
/// `{:?}` writes it.
pub open spec fn encode_refusal(s: Seq<char>) -> Seq<char> {
    "cannot encode "@ + crate::text::debug_quoted(s) + " as cp932"@
}

/// Whether no character of `s` is U+0000.
pub open spec fn no_nul_chars(s: Seq<char>) -> bool {
    forall|i: int| 0 <= i < s.len() ==> (#[trigger] s[i]) != '\0'
}

/// Whether no byte of `b` is zero.
pub open spec fn no_zero_bytes(b: Seq<u8>) -> bool {
    forall|i: int| 0 <= i < b.len() ==> (#[trigger] b[i]) != 0
}

/// Calls `encoding_rs::SHIFT_JIS.encode(s)`. Its result is named [`shift_jis_encoding`]; the
/// encoder's documentation adds that an ASCII text is returned as its own bytes, without error.
/// The encoder writes ASCII characters as themselves, a few others as one non-zero byte, the
/// rest as two bytes with a lead byte of at least 0x81 and a trail byte of at least 0x40, and
/// unmappable characters as ASCII numeric character references, so a zero byte comes only from
/// U+0000.
#[verifier::external_body]
fn shift_jis_encode(s: &str) -> (r: (Vec<u8>, bool))
    requires
        s@.len() <= encode_limit(),
    ensures
        r.0@ == shift_jis_encoding(s@).0,
        r.1 == shift_jis_encoding(s@).1,
        ascii_chars(s@) ==> r.0@ == ascii_encoding(s@) && !r.1,
        no_nul_chars(s@) ==> no_zero_bytes(r.0@),
{
    let (bytes, _, had_errors) = encoding_rs::SHIFT_JIS.encode(s);
    (bytes.into_owned(), had_errors)
}

/// Calls `encoding_rs::SHIFT_JIS.decode(b)`. Its result is named [`shift_jis_decoding`]; the
/// decoder's documentation adds that ASCII bytes are read as the same characters.
#[verifier::external_body]
fn shift_jis_decode(b: &[u8]) -> (r: String)
    requires
        b@.len() <= usize::MAX / 8,
    ensures
        r@ == shift_jis_decoding(b@),
        ascii_bytes(b@) ==> r@ == ascii_decoding(b@),
{
    let (text, _, _) = encoding_rs::SHIFT_JIS.decode(b);
    text.into_owned()
}

/// Encodes a string as CP932 (the Shift_JIS superset the engine reads); fails with an
/// encoding error when a character has no CP932 form.
pub fn cp932_encode(s: &str) -> (r: Result<Vec<u8>, PatchError>)
    ensures
        r is Ok <==> cp932_encodable(s@),
        r matches Ok(b) ==> b@ == cp932_bytes(s@),
        r matches Err(e) ==> e is Encoding && e.message() == encode_refusal(s@),
        ascii_chars(s@) && s@.len() <= encode_limit() ==> (r matches Ok(b) && b@ == ascii_encoding(s@)),
        r is Ok && no_nul_chars(s@) ==> no_zero_bytes(cp932_bytes(s@)),
{
    if s.unicode_len() > usize::MAX / 32 {
        let q = crate::text::debug_quote(s);
        return Err(PatchError::Encoding(concat3("cannot encode ", q.as_str(), " as cp932")));
    }
    let (bytes, had_errors) = shift_jis_encode(s);
    if had_errors {
        let q = crate::text::debug_quote(s);
        return Err(PatchError::Encoding(concat3("cannot encode ", q.as_str(), " as cp932")));
    }
    Ok(bytes)
}

/// Decodes CP932 bytes (invalid sequences become U+FFFD).
pub fn cp932_decode(bytes: &[u8]) -> (r: String)
    requires
        bytes@.len() <= usize::MAX / 8,
    ensures
        r@ == shift_jis_decoding(bytes@),
        ascii_bytes(bytes@) ==> r@ == ascii_decoding(bytes@),
{
    shift_jis_decode(bytes)
}

// ---------------------------------------------------------------------------
// Records
// ---------------------------------------------------------------------------
/// The length field that marks the terminator record (whose opcode is 0).
pub const TERMINATOR_LEN: u32 = 0xFFFF_FFFF;

/// One record of a script.
pub struct Instr {
    /// Byte offset of the record in the script it was parsed from.
    pub start: usize,
    /// The opcode.
    pub op: u32,
    /// The full record bytes, header included.
    pub raw: Vec<u8>,
}

/// A record as a mathematical value.
pub struct InstrView {
    pub start: usize,
    pub op: u32,
    pub raw: Seq<u8>,
}

impl View for Instr {
    type V = InstrView;

    open spec fn view(&self) -> InstrView {
        InstrView { start: self.start, op: self.op, raw: self.raw@ }
    }
}

/// The views of a list of records.
pub open spec fn instr_views(v: Seq<Instr>) -> Seq<InstrView> {
    v.map_values(|i: Instr| i@)
}

impl Instr {
    /// The argument bytes: everything after the 8-byte header.
    pub fn args(&self) -> (r: &[u8])
        requires
            self.raw@.len() >= 8,
        ensures
            r@ == self.raw@.skip(8),
    {
        let n = self.raw.len();
        let s = self.raw.as_slice();
        &s[8..n]
    }
}

/// The kind of a text-bearing opcode, or `None` for other opcodes.
pub open spec fn text_kind(op: u32) -> Option<Seq<char>> {
    if op == 0x04 {
        Some("title"@)
    } else if op == 0x29 {
        Some("speaker"@)
    } else if op == 0x2a {
        Some("text"@)
    } else if op == 0x0d {
        Some("choice"@)
    } else {
        None
    }
}

/// The length of the argument prefix before the first string of every text record.
pub open spec fn text_prefix_len() -> nat {
    16
}

/// The kind and string prefix length of a text-bearing opcode.
fn text_op(op: u32) -> (r: Option<(&'static str, usize)>)
    ensures
        r is None <==> text_kind(op) is None,
        r matches Some((k, p)) ==> text_kind(op) == Some(k@) && p == text_prefix_len(),
{
    if op == 0x04 {
        Some(("title", 16))
    } else if op == 0x29 {
        Some(("speaker", 16))
    } else if op == 0x2a {
        Some(("text", 16))
    } else if op == 0x0d {
        Some(("choice", 16))
    } else {
        None
    }
}

// ---------------------------------------------------------------------------
// Parsing
// ---------------------------------------------------------------------------
/// The outcome of reading the records of a script from some offset on.
pub enum ScriptParse {
    /// The records up to and including the terminator.
    Parsed(Seq<InstrView>),
    /// A record whose length is below 8 or runs past the end.
    BadRecord,
    /// The records end without a terminator.
    Unterminated,
    /// A record starts less than 8 bytes before the end, so its header cannot be read.
    CutHeader,
}

/// `prefix` put in front of the records of `r`, if it holds records.
pub open spec fn prepend_records(prefix: Seq<InstrView>, r: ScriptParse) -> ScriptParse {
    match r {
        ScriptParse::Parsed(rest) => ScriptParse::Parsed(prefix + rest),
        other => other,
    }
}

/// Reads the records of `raw` from offset `pos` on.
pub open spec fn parse_records(raw: Seq<u8>, pos: nat) -> ScriptParse
    decreases raw.len() - pos,
{
    if pos >= raw.len() {
        ScriptParse::Unterminated
    } else if pos + 8 > raw.len() {
        ScriptParse::CutHeader
    } else {
        let op = spec_u32_le(raw, pos as int);
        let ln = spec_u32_le(raw, pos as int + 4);
        if op == 0 && ln == TERMINATOR_LEN {
            ScriptParse::Parsed(
                seq![InstrView { start: pos as usize, op, raw: raw.subrange(pos as int, raw.len() as int) }],
            )
        } else if ln < 8 || pos + ln > raw.len() {
            ScriptParse::BadRecord
        } else {
            prepend_records(
                seq![InstrView { start: pos as usize, op, raw: raw.subrange(pos as int, pos + ln) }],
                parse_records(raw, (pos + ln) as nat),
            )
        }
    }
}

/// The records of a whole script.
pub open spec fn spec_parse_script(raw: Seq<u8>) -> ScriptParse {
    parse_records(raw, 0)
}

/// The message of the format error met when reading the records of `raw` from `pos` on: the
/// offset, opcode and length of a record whose length is below 8 or runs past the end, or a
/// missing terminator.
pub open spec fn parse_refusal_from(raw: Seq<u8>, pos: nat) -> Seq<char>
    decreases raw.len() - pos,
{
    if pos + 8 > raw.len() {
        "script has no terminator record"@
    } else {
        let op = spec_u32_le(raw, pos as int);
        let ln = spec_u32_le(raw, pos as int + 4);
        if op == 0 && ln == TERMINATOR_LEN {
            Seq::empty()
        } else if ln < 8 || pos + ln > raw.len() {
            "bad record at "@ + spec_format_offset(pos) + ": op="@ + spec_format_offset(op as nat) + " len="@
                + spec_format_offset(ln as nat)
        } else {
            parse_refusal_from(raw, (pos + ln) as nat)
        }
    }
}

/// Whether reading the records of `raw` never meets a header cut off by the end of the data.
pub open spec fn script_headers_fit(raw: Seq<u8>) -> bool {
    !(spec_parse_script(raw) is CutHeader)
}

/// Whether every record header of a script lies inside the script.
pub fn headers_fit(raw: &[u8]) -> (b: bool)
    ensures
        b == script_headers_fit(raw@),
{
    let n = raw.len();
    let mut pos: usize = 0;
    while pos < n
        invariant
            pos <= n,
            n == raw@.len(),
            (spec_parse_script(raw@) is CutHeader) == (parse_records(raw@, pos as nat) is CutHeader),
        decreases n - pos,
    {
        if n - pos < 8 {
            return false;
        }
        let op = u32_at(raw, pos);
        let ln = u32_at(raw, pos + 4);
        if op == 0 && ln == TERMINATOR_LEN {
            return true;
        }
        if ln < 8 || (ln as usize) > n - pos {
            return true;
        }
        pos = pos + ln as usize;
    }
    true
}

/// Parses a decrypted script into its records, the terminator last.
pub fn parse_script(raw: &[u8]) -> (r: Result<Vec<Instr>, PatchError>)
    requires
        script_headers_fit(raw@),
    ensures
        match spec_parse_script(raw@) {
            ScriptParse::Parsed(v) => r matches Ok(instrs) && instr_views(instrs@) == v,
            _ => r matches Err(e) && e is Format && e.message() == parse_refusal_from(raw@, 0),
        },
{
    let n = raw.len();
    let mut instrs: Vec<Instr> = Vec::new();
    let mut pos: usize = 0;
    while pos < n
        invariant
            pos <= n,
            n == raw@.len(),
            spec_parse_script(raw@) == prepend_records(instr_views(instrs@), parse_records(raw@, pos as nat)),
            script_headers_fit(raw@),
            parse_refusal_from(raw@, 0) == parse_refusal_from(raw@, pos as nat),
        decreases n - pos,
    {
        let op = u32_at(raw, pos);
        let ln = u32_at(raw, pos + 4);
        if op == 0 && ln == TERMINATOR_LEN {
            let rec = vstd::slice::slice_to_vec(&raw[pos..n]);
            let ghost old_views = instr_views(instrs@);
            instrs.push(Instr { start: pos, op, raw: rec });
            assert(instr_views(instrs@) =~= old_views + seq![instrs@.last()@]);
            return Ok(instrs);
        }
        if ln < 8 || (ln as usize) > n - pos {
            let m = concat3("bad record at ", format_offset(pos).as_str(), ": op=");
            let m = concat3(m.as_str(), format_offset(op as usize).as_str(), " len=");
            return Err(PatchError::Format(concat(m.as_str(), format_offset(ln as usize).as_str())));
        }
        let end = pos + ln as usize;
        let rec = vstd::slice::slice_to_vec(&raw[pos..end]);
        let ghost old_views = instr_views(instrs@);
        instrs.push(Instr { start: pos, op, raw: rec });
        assert(instr_views(instrs@) =~= old_views + seq![instrs@.last()@]);
        assert(old_views + (seq![instrs@.last()@]) =~= instr_views(instrs@));
        proof {
            match parse_records(raw@, end as nat) {
                ScriptParse::Parsed(rest) => {
                    assert(old_views + (seq![instrs@.last()@] + rest) =~= instr_views(instrs@)
                        + rest);
                },
                _ => {},
            }
        }
        pos = end;
    }
    Err(PatchError::Format(String::from_str("script has no terminator record")))
}

// ---------------------------------------------------------------------------
// Strings of text records
// ---------------------------------------------------------------------------
/// The index of the first zero byte of `s` at or after `from`.
pub open spec fn first_zero_from(s: Seq<u8>, from: int) -> Option<int>
    decreases s.len() - from,
{
    if from < 0 || from >= s.len() {
        None
    } else if s[from] == 0 {
        Some(from)
    } else {
        first_zero_from(s, from + 1)
    }
}

/// Where the first zero byte is found.
pub proof fn lemma_first_zero_bounds(s: Seq<u8>, from: int)
    ensures
        first_zero_from(s, from) matches Some(i) ==> from <= i < s.len() && s[i] == 0,
    decreases s.len() - from,
{
    if 0 <= from < s.len() && s[from] != 0 {
        lemma_first_zero_bounds(s, from + 1);
    }
}

/// The `count` consecutive NUL-terminated byte strings of `args` that start at `pos`, without
/// their terminators; `None` if one of them has no terminator.
pub open spec fn nul_strings(args: Seq<u8>, pos: int, count: nat) -> Option<Seq<Seq<u8>>>
    decreases count,
{
    if count == 0 {
        Some(Seq::empty())
    } else {
        match first_zero_from(args, pos) {
            None => None,
            Some(end) => match nul_strings(args, end + 1, (count - 1) as nat) {
                Some(rest) => Some(seq![args.subrange(pos, end)] + rest),
                None => None,
            },
        }
    }
}

/// Reading `count` strings gives `count` strings.
pub proof fn lemma_nul_strings_len(args: Seq<u8>, pos: int, count: nat)
    ensures
        nul_strings(args, pos, count) matches Some(r) ==> r.len() == count,
    decreases count,
{
    if count > 0 {
        match first_zero_from(args, pos) {
            Some(end) => lemma_nul_strings_len(args, end + 1, (count - 1) as nat),
            None => {},
        }
    }
}

/// The number of strings a text record holds: the option count of a choice, one otherwise.
pub open spec fn string_count(v: InstrView) -> nat {
    if v.op == 0x0d {
        spec_u32_le(v.raw.skip(8), 4) as nat
    } else {
        1
    }
}

/// The raw CP932 strings of a text record; `None` for a record that is not a text record, for a
/// speaker record without a name, and when a string lacks its terminator.
pub open spec fn text_segments(v: InstrView) -> Option<Seq<Seq<u8>>> {
    if text_kind(v.op) is None {
        None
    } else if v.op == 0x29 && v.raw.len() <= 24 {
        None
    } else {
        nul_strings(v.raw.skip(8), text_prefix_len() as int, string_count(v))
    }
}

/// Whether reading the strings of `v` stays inside the record: a text record has its header; a
/// title or dialogue record has its whole 16-byte argument prefix, and so has a choice record
/// with options, while a choice without options needs only its option count. Records of other
/// opcodes are not read.
pub open spec fn text_fits(v: InstrView) -> bool {
    &&& text_kind(v.op) is Some ==> {
        &&& v.raw.len() >= 8
        &&& (v.op == 0x29 || v.raw.len() >= 24 || (v.op == 0x0d && v.raw.len() >= 16 && string_count(v) == 0))
    }
    &&& v.raw.len() <= usize::MAX / 8
}

/// Whether a text record can also be rebuilt with as many texts as it holds: [`text_fits`], and
/// a choice record has its whole 16-byte argument prefix even without options.
pub open spec fn text_whole(v: InstrView) -> bool {
    text_fits(v) && !(v.op == 0x0d && v.raw.len() < 24)
}

/// Whether [`read_strings`] can read `instr` without indexing past its bytes.
pub fn text_record_fits(instr: &Instr) -> (b: bool)
    ensures
        b == text_fits(instr@),
{
    let n = instr.raw.len();
    let is_text = instr.op == 0x04 || instr.op == 0x2a || instr.op == 0x0d || instr.op == 0x29;
    if n > usize::MAX / 8 {
        false
    } else if !is_text {
        true
    } else if n < 8 {
        false
    } else if instr.op == 0x29 || n >= 24 {
        true
    } else if instr.op == 0x0d && n >= 16 {
        let c = u32_at(instr.raw.as_slice(), 12);
        assert(spec_u32_le(instr@.raw.skip(8), 4) == c) by {
            let a = instr@.raw.skip(8);
            assert(a[4] == instr@.raw[12] && a[5] == instr@.raw[13] && a[6] == instr@.raw[14] && a[7]
                == instr@.raw[15]);
        }
        c == 0
    } else {
        false
    }
}

/// Whether a record can be read and rebuilt (see [`text_whole`]).
pub fn text_record_whole(instr: &Instr) -> (b: bool)
    ensures
        b == text_whole(instr@),
{
    text_record_fits(instr) && !(instr.op == 0x0d && instr.raw.len() < 24)
}

/// The texts of the strings of a record.
pub open spec fn decoded_strings(segs: Seq<Seq<u8>>) -> Seq<Seq<char>> {
    segs.map_values(|b: Seq<u8>| shift_jis_decoding(b))
}

/// The texts of a list of strings.
pub open spec fn string_views(v: Seq<String>) -> Seq<Seq<char>> {
    v.map_values(|s: String| s@)
}

/// The index of the first zero byte of `args` at or after `from`.
pub(crate) fn find_zero(args: &[u8], from: usize) -> (r: Option<usize>)
    ensures
        r matches Some(i) ==> first_zero_from(args@, from as int) == Some(i as int) && from <= i
            < args@.len(),
        r is None ==> first_zero_from(args@, from as int) is None,
{
    proof {
        lemma_first_zero_bounds(args@, from as int);
    }
    let n = args.len();
    let mut i = from;
    while i < n && args[i] != 0
        invariant
            from <= i,
            n == args@.len(),
            first_zero_from(args@, from as int) == first_zero_from(args@, i as int),
        decreases n - i,
    {
        i = i + 1;
    }
    if i < n {
        Some(i)
    } else {
        None
    }
}

/// `prefix` put in front of the strings of `r`, if it holds strings.
pub open spec fn prepend_strings(prefix: Seq<Seq<u8>>, r: Option<Seq<Seq<u8>>>) -> Option<Seq<Seq<u8>>> {
    match r {
        Some(rest) => Some(prefix + rest),
        None => None,
    }
}

/// The kind, prefix length and strings of a text record, or `None` (see [`text_segments`]).
pub fn read_strings(instr: &Instr) -> (r: Option<(&'static str, usize, Vec<String>)>)
    requires
        text_fits(instr@),
    ensures
        r is Some <==> text_segments(instr@) is Some,
        r matches Some((k, p, strings)) ==> {
            &&& text_kind(instr.op) == Some(k@)
            &&& p == text_prefix_len()
            &&& string_views(strings@) == decoded_strings(text_segments(instr@).unwrap())
        },
{
    let (kind, plen) = match text_op(instr.op) {
        Some(t) => t,
        None => return None,
    };
    let args = instr.args();
    if instr.op == 0x29 && args.len() <= 0x10 {
        return None;
    }
    let count: usize = if instr.op == 0x0d {
        u32_at(args, 4) as usize
    } else {
        1
    };
    if count == 0 {
        assert(text_segments(instr@) == Some(Seq::<Seq<u8>>::empty()));
        let none: Vec<String> = Vec::new();
        assert(string_views(none@) =~= decoded_strings(Seq::<Seq<u8>>::empty()));
        return Some((kind, plen, none));
    }
    let ghost full = nul_strings(args@, plen as int, count as nat);
    let ghost mut segs: Seq<Seq<u8>> = Seq::empty();
    let mut strings: Vec<String> = Vec::new();
    let mut pos = plen;
    let mut i: usize = 0;
    assert(full == text_segments(instr@));
    assert(prepend_strings(segs, full) == full) by {
        if full is Some {
            assert(segs + full.unwrap() =~= full.unwrap());
        }
    }
    while i < count
        invariant
            i <= count,
            pos <= args@.len(),
            args@ == instr.raw@.skip(8),
            args@.len() <= usize::MAX / 8,
            full == nul_strings(args@, plen as int, count as nat),
            full == text_segments(instr@),
            full == prepend_strings(segs, nul_strings(args@, pos as int, (count - i) as nat)),
            string_views(strings@) == decoded_strings(segs),
        decreases count - i,
    {
        let end = match find_zero(args, pos) {
            Some(e) => e,
            None => {
                assert(nul_strings(args@, pos as int, (count - i) as nat) is None);
                return None;
            },
        };
        let piece = &args[pos..end];
        let s = cp932_decode(piece);
        proof {
            let seg = args@.subrange(pos as int, end as int);
            assert(piece@ == seg);
            match nul_strings(args@, end + 1, (count - i - 1) as nat) {
                Some(rest) => {
                    assert(segs + (seq![seg] + rest) =~= segs.push(seg) + rest);
                },
                None => {},
            }
            assert(s@ == shift_jis_decoding(seg));
            assert(string_views(strings@.push(s)) =~= string_views(strings@).push(s@));
            assert(decoded_strings(segs.push(seg)) =~= decoded_strings(segs).push(
                shift_jis_decoding(seg),
            ));
            segs = segs.push(seg);
        }
        strings.push(s);
        pos = end + 1;
        i = i + 1;
    }
    assert(segs + Seq::<Seq<u8>>::empty() =~= segs);
    Some((kind, plen, strings))
}

// ---------------------------------------------------------------------------
// Rebuilding a text record
// ---------------------------------------------------------------------------
/// Byte strings, each followed by a NUL.
pub open spec fn nul_join(segs: Seq<Seq<u8>>) -> Seq<u8>
    decreases segs.len(),
{
    if segs.len() == 0 {
        Seq::empty()
    } else {
        nul_join(segs.drop_last()) + segs.last() + seq![0u8]
    }
}

/// The bytes of a text record with opcode `op`, argument prefix `prefix` and strings `segs`:
/// the header with the new record length (kept to its low 32 bits), the prefix, and the strings,
/// each NUL-terminated.
pub open spec fn text_record_bytes(op: u32, prefix: Seq<u8>, segs: Seq<Seq<u8>>) -> Seq<u8> {
    let body = prefix + nul_join(segs);
    le_bytes(op) + le_bytes(((8 + body.len()) % 0x1_0000_0000) as u32) + body
}

/// Whether every text of `strs` can be written in CP932.
pub open spec fn all_encodable(strs: Seq<Seq<char>>) -> bool {
    forall|i: int| 0 <= i < strs.len() ==> cp932_encodable(#[trigger] strs[i])
}

/// The CP932 bytes of each text of `strs`.
pub open spec fn encoded_strings(strs: Seq<Seq<char>>) -> Seq<Seq<u8>> {
    strs.map_values(|s: Seq<char>| cp932_bytes(s))
}

/// What [`rebuild_instr`] makes of a record and replacement texts: a format error when the
/// record is not a text record, a mismatch when the number of texts differs from the number of
/// strings, an encoding error when a text has no CP932 form, and otherwise the record with its
/// strings replaced (start and opcode kept).
pub open spec fn spec_rebuild_instr(v: InstrView, strs: Seq<Seq<char>>) -> Result<InstrView, ErrorKind> {
    match text_segments(v) {
        None => Err(ErrorKind::Format),
        Some(segs) => if segs.len() != strs.len() {
            Err(ErrorKind::Mismatch)
        } else if !all_encodable(strs) {
            Err(ErrorKind::Encoding)
        } else {
            Ok(
                InstrView {
                    start: v.start,
                    op: v.op,
                    raw: text_record_bytes(v.op, v.raw.subrange(8, 24), encoded_strings(strs)),
                },
            )
        },
    }
}

/// The index of the first text of `strs`, from `i` on, that CP932 cannot hold (`strs.len()` if
/// there is none).
pub open spec fn first_unencodable_from(strs: Seq<Seq<char>>, i: int) -> int
    decreases strs.len() - i,
{
    if i < 0 || i >= strs.len() {
        strs.len() as int
    } else if !cp932_encodable(strs[i]) {
        i
    } else {
        first_unencodable_from(strs, i + 1)
    }
}

/// The first unencodable text is the one after a run of encodable ones.
pub proof fn lemma_first_unencodable(strs: Seq<Seq<char>>, k: int, i: int)
    requires
        0 <= k <= i < strs.len(),
        forall|j: int| k <= j < i ==> cp932_encodable(#[trigger] strs[j]),
        !cp932_encodable(strs[i]),
    ensures
        first_unencodable_from(strs, k) == i,
    decreases i - k,
{
    if k < i {
        lemma_first_unencodable(strs, k + 1, i);
    }
}

/// The message of the error [`rebuild_instr`] gives for a record and replacement texts: the
/// record is not a text record, the counts differ (new count, then old), or the first text
/// that CP932 cannot hold.
pub open spec fn rebuild_refusal(v: InstrView, strs: Seq<Seq<char>>) -> Seq<char> {
    match text_segments(v) {
        None => "not a text record at "@ + crate::text::spec_format_offset(v.start as nat),
        Some(segs) => if segs.len() != strs.len() {
            "string count mismatch at "@ + crate::text::spec_format_offset(v.start as nat) + ": "@
                + crate::text::dec_digits(strs.len()) + " != "@ + crate::text::dec_digits(segs.len())
        } else {
            encode_refusal(strs[first_unencodable_from(strs, 0)])
        },
    }
}

/// The strings joined by [`nul_join`], read from the front: the first, its NUL, then the rest.
proof fn lemma_nul_join_front(segs: Seq<Seq<u8>>)
    requires
        segs.len() > 0,
    ensures
        nul_join(segs) == segs[0] + seq![0u8] + nul_join(segs.drop_first()),
    decreases segs.len(),
{
    if segs.len() == 1 {
        assert(segs.drop_last() =~= Seq::<Seq<u8>>::empty());
        assert(segs.drop_first() =~= Seq::<Seq<u8>>::empty());
        assert(nul_join(segs.drop_last()) == Seq::<u8>::empty());
        assert(segs.last() == segs[0]);
        assert(nul_join(segs) =~= Seq::<u8>::empty() + segs[0] + seq![0u8]);
        assert(nul_join(segs) =~= segs[0] + seq![0u8]);
        assert(segs[0] + seq![0u8] + Seq::<u8>::empty() =~= segs[0] + seq![0u8]);
    } else {
        lemma_nul_join_front(segs.drop_last());
        assert(segs.drop_last()[0] == segs[0]);
        assert(segs.drop_last().drop_first() =~= segs.drop_first().drop_last());
        assert(segs.drop_first().last() == segs.last());
        assert(nul_join(segs) =~= segs[0] + seq![0u8] + nul_join(segs.drop_first()));
    }
}

/// A run of non-zero bytes followed by a zero: the first zero is at its end.
proof fn lemma_first_zero_run(args: Seq<u8>, pos: int, k: int)
    requires
        0 <= pos,
        0 <= k,
        pos + k < args.len(),
        forall|j: int| pos <= j < pos + k ==> args[j] != 0,
        args[pos + k] == 0,
    ensures
        first_zero_from(args, pos) == Some(pos + k),
    decreases k,
{
    if k > 0 {
        lemma_first_zero_run(args, pos + 1, k - 1);
    }
}

/// Reading NUL-terminated strings back from their join gives them back, when none holds a
/// zero byte.
proof fn lemma_nul_strings_join(args: Seq<u8>, pos: int, segs: Seq<Seq<u8>>)
    requires
        0 <= pos,
        pos + nul_join(segs).len() <= args.len(),
        args.subrange(pos, pos + nul_join(segs).len()) == nul_join(segs),
        forall|i: int| 0 <= i < segs.len() ==> no_zero_bytes(#[trigger] segs[i]),
    ensures
        nul_strings(args, pos, segs.len()) == Some(segs),
    decreases segs.len(),
{
    if segs.len() > 0 {
        lemma_nul_join_front(segs);
        let first = segs[0];
        let rest = segs.drop_first();
        let k = first.len() as int;
        let j = nul_join(segs);
        assert(j[k] == 0);
        assert forall|m: int| pos <= m < pos + k implies args[m] != 0 by {
            assert(args[m] == j[m - pos]);
            assert(j[m - pos] == first[m - pos]);
            assert(no_zero_bytes(segs[0]));
        }
        assert(args[pos + k] == j[k]);
        lemma_first_zero_run(args, pos, k);
        assert(args.subrange(pos + k + 1, pos + k + 1 + nul_join(rest).len()) =~= nul_join(rest)) by {
            assert forall|m: int| 0 <= m < nul_join(rest).len() implies args.subrange(
                pos + k + 1,
                pos + k + 1 + nul_join(rest).len(),
            )[m] == nul_join(rest)[m] by {
                assert(args[pos + k + 1 + m] == j[k + 1 + m]);
            }
        }
        assert forall|i: int| 0 <= i < rest.len() implies no_zero_bytes(#[trigger] rest[i]) by {
            assert(rest[i] == segs[i + 1]);
        }
        lemma_nul_strings_join(args, pos + k + 1, rest);
        assert(args.subrange(pos, pos + k) =~= first) by {
            assert forall|m: int| 0 <= m < k implies args.subrange(pos, pos + k)[m] == first[m] by {
                assert(args[pos + m] == j[m]);
            }
        }
        assert((seq![first] + rest) =~= segs);
    } else {
        assert(segs =~= Seq::<Seq<u8>>::empty());
    }
}

proof fn lemma_nul_join_len(segs: Seq<Seq<u8>>)
    ensures
        nul_join(segs).len() >= segs.len(),
    decreases segs.len(),
{
    if segs.len() > 0 {
        lemma_nul_join_len(segs.drop_last());
    }
}

/// Reading a rebuilt text record gives back the CP932 bytes of the texts it was rebuilt with,
/// and so the texts themselves when each reads back from its bytes, when the texts hold no
/// U+0000, so that their bytes hold no zero (the fact [`cp932_encode`] states for each text).
pub proof fn lemma_rebuilt_reads_back(v: InstrView, strs: Seq<Seq<char>>)
    requires
        v.raw.len() >= 24,
        text_segments(v) matches Some(segs) && segs.len() == strs.len(),
        all_encodable(strs),
        forall|i: int| 0 <= i < strs.len() ==> no_zero_bytes(cp932_bytes(#[trigger] strs[i])),
    ensures
        spec_rebuild_instr(v, strs) matches Ok(nv) && text_segments(nv) == Some(encoded_strings(strs)),
        (forall|i: int| 0 <= i < strs.len() ==> shift_jis_decoding(cp932_bytes(#[trigger] strs[i])) == strs[i])
            ==> decoded_strings(encoded_strings(strs)) == strs,
{
    let segs = text_segments(v).unwrap();
    let enc = encoded_strings(strs);
    let prefix = v.raw.subrange(8, 24);
    let body = prefix + nul_join(enc);
    let nv = spec_rebuild_instr(v, strs)->Ok_0;
    assert(nv.raw == text_record_bytes(v.op, prefix, enc));
    assert(nv.raw.skip(8) =~= body);
    lemma_text_segments_len(v);
    lemma_nul_join_len(enc);
    assert(spec_u32_le(body, 4) == spec_u32_le(v.raw.skip(8), 4)) by {
        assert(body[4] == v.raw.skip(8)[4]);
        assert(body[5] == v.raw.skip(8)[5]);
        assert(body[6] == v.raw.skip(8)[6]);
        assert(body[7] == v.raw.skip(8)[7]);
    }
    assert(string_count(nv) == string_count(v));
    assert forall|i: int| 0 <= i < enc.len() implies no_zero_bytes(#[trigger] enc[i]) by {
        assert(enc[i] == cp932_bytes(strs[i]));
    }
    assert(body.subrange(16, 16 + nul_join(enc).len() as int) =~= nul_join(enc));
    lemma_nul_strings_join(body, 16, enc);
    assert(text_segments(nv) == Some(enc));
    assert(decoded_strings(enc).len() == strs.len());
}

/// A rebuilt text record keeps the start, the opcode and the whole 16-byte argument prefix
/// (bytes 8..24) of the record it was rebuilt from; its header holds its opcode and its new
/// length (kept to 32 bits), and the CP932 strings follow the prefix, each NUL-terminated.
pub proof fn lemma_rebuilt_record_layout(v: InstrView, strs: Seq<Seq<char>>)
    requires
        v.raw.len() >= 24,
        spec_rebuild_instr(v, strs) is Ok,
    ensures
        ({
            let nv = spec_rebuild_instr(v, strs)->Ok_0;
            &&& nv.start == v.start
            &&& nv.op == v.op
            &&& nv.raw.len() >= 24
            &&& nv.raw.subrange(8, 24) == v.raw.subrange(8, 24)
            &&& spec_u32_le(nv.raw, 0) == v.op
            &&& spec_u32_le(nv.raw, 4) == nv.raw.len() % 0x1_0000_0000
            &&& nv.raw.skip(24) == nul_join(encoded_strings(strs))
        }),
{
    let nv = spec_rebuild_instr(v, strs)->Ok_0;
    let prefix = v.raw.subrange(8, 24);
    let body = prefix + nul_join(encoded_strings(strs));
    let lf = ((8 + body.len()) % 0x1_0000_0000) as u32;
    assert(nv.raw == le_bytes(v.op) + le_bytes(lf) + body);
    assert(nv.raw.subrange(0, 4) =~= le_bytes(v.op));
    assert(nv.raw.subrange(4, 8) =~= le_bytes(lf));
    crate::bytes::lemma_read_le_bytes(nv.raw, 0, v.op);
    crate::bytes::lemma_read_le_bytes(nv.raw, 4, lf);
    assert(nv.raw.subrange(8, 24) =~= prefix);
    assert(nv.raw.skip(24) =~= nul_join(encoded_strings(strs)));
}

/// Replaces the strings of a text record, resizing it.
pub fn rebuild_instr(instr: &Instr, new_strings: &[String]) -> (r: Result<Instr, PatchError>)
    requires
        text_fits(instr@),
        instr@.op == 0x0d && instr@.raw.len() < 24 ==> new_strings@.len() != 0,
    ensures
        match spec_rebuild_instr(instr@, string_views(new_strings@)) {
            Ok(v) => r matches Ok(ni) && ni@ == v,
            Err(k) => r matches Err(e) && e.kind() == k && e.message() == rebuild_refusal(
                instr@,
                string_views(new_strings@),
            ),
        },
        r matches Ok(ni) ==> ((forall|i: int| 0 <= i < new_strings@.len() ==> no_nul_chars(#[trigger] new_strings@[i]@))
            ==> text_segments(ni@) == Some(encoded_strings(string_views(new_strings@)))),
        r matches Ok(ni) ==> ((forall|i: int|
            0 <= i < new_strings@.len() ==> no_nul_chars(#[trigger] new_strings@[i]@) && shift_jis_decoding(
                cp932_bytes(new_strings@[i]@),
            ) == new_strings@[i]@) ==> decoded_strings(text_segments(ni@).unwrap()) == string_views(new_strings@)),
{
    let (_, plen, old) = match read_strings(instr) {
        Some(t) => t,
        None => {
            let at = crate::text::format_offset(instr.start);
            return Err(PatchError::Format(concat("not a text record at ", at.as_str())));
        },
    };
    let ghost strs = string_views(new_strings@);
    let ghost segs = text_segments(instr@).unwrap();
    assert(old@.len() == segs.len()) by {
        assert(string_views(old@).len() == old@.len());
    }
    if new_strings.len() != old.len() {
        let at = crate::text::format_offset(instr.start);
        let m = concat3("string count mismatch at ", at.as_str(), ": ");
        let m = concat3(m.as_str(), crate::text::format_decimal(new_strings.len()).as_str(), " != ");
        return Err(PatchError::Mismatch(concat(m.as_str(), crate::text::format_decimal(old.len()).as_str())));
    }
    let raw_slice = instr.raw.as_slice();
    let mut body: Vec<u8> = vstd::slice::slice_to_vec(&raw_slice[8..8 + plen]);
    let ghost prefix = instr.raw@.subrange(8, 24);
    assert(body@ == prefix + nul_join(encoded_strings(strs.take(0)))) by {
        assert(encoded_strings(strs.take(0)) =~= Seq::<Seq<u8>>::empty());
        assert(prefix + Seq::<u8>::empty() =~= prefix);
    }
    let n = new_strings.len();
    let mut i: usize = 0;
    while i < n
        invariant
            i <= n,
            n == new_strings@.len(),
            strs == string_views(new_strings@),
            text_segments(instr@) == Some(segs),
            segs.len() == strs.len(),
            body@ == prefix + nul_join(encoded_strings(strs.take(i as int))),
            all_encodable(strs.take(i as int)),
            forall|j: int| 0 <= j < i && no_nul_chars(#[trigger] strs[j]) ==> no_zero_bytes(cp932_bytes(strs[j])),
        decreases n - i,
    {
        let enc = match cp932_encode(new_strings[i].as_str()) {
            Ok(b) => b,
            Err(e) => {
                assert(!cp932_encodable(strs[i as int]));
                assert(!all_encodable(strs));
                proof {
                    assert forall|j: int| 0 <= j < i implies cp932_encodable(#[trigger] strs[j]) by {
                        assert(strs.take(i as int)[j] == strs[j]);
                    }
                    lemma_first_unencodable(strs, 0, i as int);
                }
                return Err(e);
            },
        };
        body.extend_from_slice(enc.as_slice());
        body.push(0);
        proof {
            let t = strs.take(i + 1);
            assert(t.drop_last() =~= strs.take(i as int));
            assert(encoded_strings(t).drop_last() =~= encoded_strings(strs.take(i as int)));
            assert(encoded_strings(t).last() == cp932_bytes(strs[i as int]));
            assert(body@ =~= prefix + nul_join(encoded_strings(t)));
            assert forall|j: int| 0 <= j < t.len() implies cp932_encodable(#[trigger] t[j]) by {
                if j < i {
                    assert(t[j] == strs.take(i as int)[j]);
                }
            }
        }
        i = i + 1;
    }
    assert(strs.take(n as int) =~= strs);
    proof {
        if forall|j: int| 0 <= j < new_strings@.len() ==> no_nul_chars(#[trigger] new_strings@[j]@) {
            assert forall|j: int| 0 <= j < strs.len() implies no_zero_bytes(cp932_bytes(#[trigger] strs[j])) by {
                assert(strs[j] == new_strings@[j]@);
            }
            lemma_rebuilt_reads_back(instr@, strs);
            if forall|j: int|
                0 <= j < new_strings@.len() ==> no_nul_chars(#[trigger] new_strings@[j]@) && shift_jis_decoding(
                    cp932_bytes(new_strings@[j]@),
                ) == new_strings@[j]@ {
                assert forall|j: int| 0 <= j < strs.len() implies shift_jis_decoding(cp932_bytes(#[trigger] strs[j]))
                    == strs[j] by {
                    assert(strs[j] == new_strings@[j]@);
                }
            }
        }
    }
    let bl = body.len() as u64;
    let len_field: u32 = ((bl % 0x1_0000_0000 + 8) % 0x1_0000_0000) as u32;
    proof {
        vstd::arithmetic::div_mod::lemma_add_mod_noop(bl as int, 8, 0x1_0000_0000);
    }
    let mut raw: Vec<u8> = Vec::new();
    crate::bytes::push_u32_le(&mut raw, instr.op);
    crate::bytes::push_u32_le(&mut raw, len_field);
    raw.extend_from_slice(body.as_slice());
    assert(raw@ =~= text_record_bytes(instr.op, prefix, encoded_strings(strs)));
    Ok(Instr { start: instr.start, op: instr.op, raw })
}

// ---------------------------------------------------------------------------
// Reassembling a script
// ---------------------------------------------------------------------------
/// Whether `op` is a jump whose first argument is an absolute offset into the script.
pub open spec fn is_jump(op: u32) -> bool {
    op == 0x0a || op == 0x0b || op == 0x0c
}

/// The total length of the first `n` records.
pub open spec fn records_len(instrs: Seq<InstrView>, n: int) -> nat
    decreases n,
{
    if n <= 0 {
        0
    } else {
        records_len(instrs, n - 1) + instrs[n - 1].raw.len()
    }
}

/// Where each original record start lands when the first `n` records are laid end to end;
/// of records sharing a start, the later one counts.
pub open spec fn relocation(instrs: Seq<InstrView>, n: int) -> Map<usize, usize>
    decreases n,
{
    if n <= 0 {
        Map::empty()
    } else {
        relocation(instrs, n - 1).insert(instrs[n - 1].start, records_len(instrs, n - 1) as usize)
    }
}

/// The offset a jump record targets.
pub open spec fn jump_target(v: InstrView) -> usize {
    spec_u32_le(v.raw, 8) as usize
}

/// A record as it is written back: a jump gets the new start of its target as its first
/// argument (`None` when the target is no record start); other records are unchanged.
pub open spec fn relocated_record(v: InstrView, reloc: Map<usize, usize>) -> Option<Seq<u8>> {
    if is_jump(v.op) {
        if reloc.contains_key(jump_target(v)) {
            Some(
                v.raw.subrange(0, 8) + le_bytes(reloc[jump_target(v)] as u32) + v.raw.subrange(
                    12,
                    v.raw.len() as int,
                ),
            )
        } else {
            None
        }
    } else {
        Some(v.raw)
    }
}

/// The first `n` records written back one after another.
pub open spec fn relocated_records(instrs: Seq<InstrView>, reloc: Map<usize, usize>, n: int) -> Option<Seq<u8>>
    decreases n,
{
    if n <= 0 {
        Some(Seq::empty())
    } else {
        match (relocated_records(instrs, reloc, n - 1), relocated_record(instrs[n - 1], reloc)) {
            (Some(a), Some(b)) => Some(a + b),
            _ => None,
        }
    }
}

/// The script made of `instrs`, with every jump relocated; `None` when a jump targets an offset
/// at which no record started.
pub open spec fn spec_rebuild_script(instrs: Seq<InstrView>) -> Option<Seq<u8>> {
    relocated_records(instrs, relocation(instrs, instrs.len() as int), instrs.len() as int)
}

/// The index of the first record, from `i` on, that is a jump to an offset at which no record
/// started (`instrs.len()` if there is none).
pub open spec fn first_stray_jump(instrs: Seq<InstrView>, reloc: Map<usize, usize>, i: int) -> int
    decreases instrs.len() - i,
{
    if i < 0 || i >= instrs.len() {
        instrs.len() as int
    } else if relocated_record(instrs[i], reloc) is None {
        i
    } else {
        first_stray_jump(instrs, reloc, i + 1)
    }
}

proof fn lemma_first_stray_jump(instrs: Seq<InstrView>, reloc: Map<usize, usize>, k: int, i: int)
    requires
        0 <= k <= i < instrs.len(),
        forall|j: int| k <= j < i ==> relocated_record(#[trigger] instrs[j], reloc) is Some,
        relocated_record(instrs[i], reloc) is None,
    ensures
        first_stray_jump(instrs, reloc, k) == i,
    decreases i - k,
{
    if k < i {
        lemma_first_stray_jump(instrs, reloc, k + 1, i);
    }
}

/// The message of the mismatch [`rebuild_script`] reports: the original offset of the first jump
/// whose target is no record start, and that target.
pub open spec fn rebuild_script_refusal(instrs: Seq<InstrView>) -> Seq<char> {
    let k = first_stray_jump(instrs, relocation(instrs, instrs.len() as int), 0);
    "jump at "@ + spec_format_offset(instrs[k].start as nat) + " targets "@ + spec_format_offset(
        jump_target(instrs[k]) as nat,
    ) + ", which is not an instruction start"@
}

/// Whether record `j` is a jump that holds its target argument and targets an offset at which no
/// record started.
pub open spec fn stray_jump(instrs: Seq<InstrView>, j: int) -> bool {
    &&& is_jump(instrs[j].op)
    &&& instrs[j].raw.len() >= 12
    &&& !relocation(instrs, instrs.len() as int).contains_key(jump_target(instrs[j]))
}

/// Whether `instrs` can be reassembled without indexing past a record or overflowing an offset:
/// their total length fits in `usize`, and every jump read before reassembly stops at the first
/// stray jump holds its target argument.
pub open spec fn rebuild_fits(instrs: Seq<InstrView>) -> bool {
    &&& records_len(instrs, instrs.len() as int) <= usize::MAX
    &&& forall|i: int|
        0 <= i < instrs.len() && is_jump(#[trigger] instrs[i].op) && instrs[i].raw.len() < 12 ==> exists|j: int|
            0 <= j < i && #[trigger] stray_jump(instrs, j)
}

proof fn lemma_records_len_mono(instrs: Seq<InstrView>, i: int, n: int)
    requires
        0 <= i <= n <= instrs.len(),
    ensures
        records_len(instrs, i) <= records_len(instrs, n),
    decreases n - i,
{
    if i < n {
        lemma_records_len_mono(instrs, i, n - 1);
    }
}

proof fn lemma_relocated_none_stays(instrs: Seq<InstrView>, reloc: Map<usize, usize>, i: int, n: int)
    requires
        0 <= i < n <= instrs.len(),
        relocated_records(instrs, reloc, i + 1) is None,
    ensures
        relocated_records(instrs, reloc, n) is None,
    decreases n - i,
{
    if i + 1 < n {
        lemma_relocated_none_stays(instrs, reloc, i, n - 1);
    }
}

/// Whether the records can be reassembled (see [`rebuild_fits`]).
pub fn records_fit_rebuild(instrs: &[Instr]) -> (b: bool)
    ensures
        b == rebuild_fits(instr_views(instrs@)),
{
    let ghost views = instr_views(instrs@);
    let n = instrs.len();
    let mut total: usize = 0;
    let mut i: usize = 0;
    while i < n
        invariant
            i <= n,
            n == instrs@.len(),
            views == instr_views(instrs@),
            total == records_len(views, i as int),
        decreases n - i,
    {
        let ins = &instrs[i];
        assert(views[i as int] == ins@);
        if ins.raw.len() > usize::MAX - total {
            proof {
                lemma_records_len_mono(views, i + 1, n as int);
            }
            return false;
        }
        total = total + ins.raw.len();
        i = i + 1;
    }
    let mut reloc: std::collections::HashMap<usize, usize> = std::collections::HashMap::new();
    let mut pos: usize = 0;
    let mut i: usize = 0;
    while i < n
        invariant
            i <= n,
            n == instrs@.len(),
            views == instr_views(instrs@),
            records_len(views, n as int) <= usize::MAX,
            reloc@ == relocation(views, i as int),
            pos == records_len(views, i as int),
        decreases n - i,
    {
        let ins = &instrs[i];
        assert(views[i as int] == ins@);
        proof {
            lemma_records_len_mono(views, i + 1, n as int);
        }
        reloc.insert(ins.start, pos);
        pos = pos + ins.raw.len();
        i = i + 1;
    }
    let mut seen = false;
    let mut i: usize = 0;
    while i < n
        invariant
            i <= n,
            n == instrs@.len(),
            views == instr_views(instrs@),
            reloc@ == relocation(views, n as int),
            seen <==> exists|j: int| 0 <= j < i && #[trigger] stray_jump(views, j),
            forall|k: int|
                0 <= k < i && is_jump(#[trigger] views[k].op) && views[k].raw.len() < 12 ==> exists|j: int|
                    0 <= j < k && #[trigger] stray_jump(views, j),
        decreases n - i,
    {
        let ins = &instrs[i];
        assert(views[i as int] == ins@);
        if ins.op == 0x0a || ins.op == 0x0b || ins.op == 0x0c {
            if ins.raw.len() < 12 {
                if !seen {
                    assert(is_jump(views[i as int].op) && views[i as int].raw.len() < 12);
                    return false;
                }
            } else {
                let target = u32_at(ins.raw.as_slice(), 8) as usize;
                if !reloc.contains_key(&target) {
                    assert(stray_jump(views, i as int));
                    seen = true;
                }
            }
        }
        proof {
            if !seen {
                assert(!stray_jump(views, i as int));
            }
        }
        i = i + 1;
    }
    true
}

/// Reassembles records into script bytes, relocating jump targets. The records keep the starts
/// they had in the original script; their new starts are computed here.
pub fn rebuild_script(instrs: &[Instr]) -> (r: Result<Vec<u8>, PatchError>)
    requires
        rebuild_fits(instr_views(instrs@)),
    ensures
        match spec_rebuild_script(instr_views(instrs@)) {
            Some(b) => r matches Ok(out) && out@ == b,
            None => r matches Err(e) && e is Mismatch && e.message() == rebuild_script_refusal(
                instr_views(instrs@),
            ),
        },
{
    let ghost views = instr_views(instrs@);
    let n = instrs.len();
    let mut reloc: std::collections::HashMap<usize, usize> = std::collections::HashMap::new();
    let mut pos: usize = 0;
    let mut i: usize = 0;
    while i < n
        invariant
            i <= n,
            n == instrs@.len(),
            views == instr_views(instrs@),
            rebuild_fits(views),
            reloc@ == relocation(views, i as int),
            pos == records_len(views, i as int),
        decreases n - i,
    {
        let ins = &instrs[i];
        assert(views[i as int] == ins@);
        proof {
            lemma_records_len_mono(views, i + 1, n as int);
        }
        reloc.insert(ins.start, pos);
        pos = pos + ins.raw.len();
        i = i + 1;
    }
    let ghost full = relocation(views, n as int);
    let mut out: Vec<u8> = Vec::new();
    let mut i: usize = 0;
    while i < n
        invariant
            i <= n,
            n == instrs@.len(),
            views == instr_views(instrs@),
            rebuild_fits(views),
            reloc@ == full,
            full == relocation(views, n as int),
            relocated_records(views, full, i as int) == Some(out@),
            forall|j: int| 0 <= j < i ==> relocated_record(#[trigger] views[j], full) is Some,
        decreases n - i,
    {
        let ins = &instrs[i];
        assert(views[i as int] == ins@);
        if ins.op == 0x0a || ins.op == 0x0b || ins.op == 0x0c {
            assert(is_jump(views[i as int].op));
            proof {
                if ins.raw.len() < 12 {
                    let j = choose|j: int| 0 <= j < i && #[trigger] stray_jump(views, j);
                    assert(relocated_record(views[j], full) is None);
                }
            }
            let target = u32_at(ins.raw.as_slice(), 8) as usize;
            match reloc.get(&target) {
                None => {
                    proof {
                        lemma_relocated_none_stays(views, full, i as int, n as int);
                        lemma_first_stray_jump(views, full, 0, i as int);
                    }
                    let at = crate::text::format_offset(ins.start);
                    let to = crate::text::format_offset(target);
                    let m = concat3("jump at ", at.as_str(), " targets ");
                    return Err(
                        PatchError::Mismatch(concat3(m.as_str(), to.as_str(), ", which is not an instruction start")),
                    );
                },
                Some(nt) => {
                    let new_target = *nt;
                    if new_target != target {
                        let mut raw = vstd::slice::slice_to_vec(ins.raw.as_slice());
                        crate::bytes::put_u32_le(&mut raw, 8, new_target as u32);
                        out.extend_from_slice(raw.as_slice());
                        i = i + 1;
                        continue;
                    } else {
                        proof {
                            crate::bytes::lemma_le_read_write(ins.raw@, 8);
                            assert(ins.raw@ =~= ins.raw@.subrange(0, 8) + ins.raw@.subrange(8, 12)
                                + ins.raw@.subrange(12, ins.raw@.len() as int));
                        }
                    }
                },
            }
        }
        out.extend_from_slice(ins.raw.as_slice());
        i = i + 1;
    }
    Ok(out)
}

// ---------------------------------------------------------------------------
// Rebuilding an unchanged script
// ---------------------------------------------------------------------------
/// The bytes of the first `n` records, one after another.
pub open spec fn records_bytes(instrs: Seq<InstrView>, n: int) -> Seq<u8>
    decreases n,
{
    if n <= 0 {
        Seq::empty()
    } else {
        records_bytes(instrs, n - 1) + instrs[n - 1].raw
    }
}

/// Whether every jump of `instrs` targets the start of one of them.
pub open spec fn jumps_land(instrs: Seq<InstrView>) -> bool {
    forall|i: int|
        0 <= i < instrs.len() && is_jump(#[trigger] instrs[i].op) ==> exists|j: int|
            0 <= j < instrs.len() && instrs[j].start == jump_target(instrs[i])
}

/// Records laid end to end from `pos`: each starts where the previous ones end.
pub open spec fn laid_from(instrs: Seq<InstrView>, pos: nat) -> bool {
    forall|i: int| 0 <= i < instrs.len() ==> #[trigger] instrs[i].start == pos + records_len(instrs, i)
}

proof fn lemma_prepend_lengths(h: InstrView, rest: Seq<InstrView>, i: int)
    requires
        0 <= i <= rest.len(),
    ensures
        records_len(seq![h] + rest, i + 1) == h.raw.len() + records_len(rest, i),
        records_bytes(seq![h] + rest, i + 1) == h.raw + records_bytes(rest, i),
    decreases i,
{
    let v = seq![h] + rest;
    if i == 0 {
        assert(v[0] == h);
        assert(records_len(v, 0) == 0);
        assert(records_len(rest, 0) == 0);
        assert(records_bytes(v, 0) == Seq::<u8>::empty());
        assert(records_bytes(v, 1) =~= h.raw);
    } else {
        lemma_prepend_lengths(h, rest, i - 1);
        assert(v[i] == rest[i - 1]);
        assert(records_bytes(v, i + 1) =~= h.raw + records_bytes(rest, i));
    }
}

/// What parsing from `pos` produces: records laid end to end from `pos` that make up the rest
/// of the data.
proof fn lemma_parsed_layout(raw: Seq<u8>, pos: nat)
    requires
        parse_records(raw, pos) is Parsed,
        raw.len() <= usize::MAX,
    ensures
        ({
            let v = parse_records(raw, pos)->Parsed_0;
            &&& laid_from(v, pos)
            &&& records_bytes(v, v.len() as int) == raw.subrange(pos as int, raw.len() as int)
        }),
    decreases raw.len() - pos,
{
    let op = spec_u32_le(raw, pos as int);
    let ln = spec_u32_le(raw, pos as int + 4);
    let v = parse_records(raw, pos)->Parsed_0;
    if op == 0 && ln == TERMINATOR_LEN {
        assert(records_len(v, 0) == 0);
        assert(v[0].raw == raw.subrange(pos as int, raw.len() as int));
        assert(records_bytes(v, 0) == Seq::<u8>::empty());
        assert(records_bytes(v, 1) =~= raw.subrange(pos as int, raw.len() as int));
    } else {
        let h = InstrView { start: pos as usize, op, raw: raw.subrange(pos as int, pos + ln) };
        let rest = parse_records(raw, (pos + ln) as nat)->Parsed_0;
        lemma_parsed_layout(raw, (pos + ln) as nat);
        assert(v == seq![h] + rest);
        assert forall|i: int| 0 <= i < v.len() implies #[trigger] v[i].start == pos + records_len(v, i) by {
            if i == 0 {
                assert(records_len(v, 0) == 0);
            } else {
                lemma_prepend_lengths(h, rest, i - 1);
                assert(v[i] == rest[i - 1]);
                assert(rest[i - 1].start == pos + ln + records_len(rest, i - 1));
            }
        }
        lemma_prepend_lengths(h, rest, rest.len() as int);
        assert(records_bytes(v, v.len() as int) =~= raw.subrange(pos as int, raw.len() as int));
    }
}

/// Records laid from offset 0 are relocated to where they already are.
proof fn lemma_relocation_identity(v: Seq<InstrView>, n: int)
    requires
        0 <= n <= v.len(),
        laid_from(v, 0),
        records_len(v, v.len() as int) <= usize::MAX,
    ensures
        forall|k: usize| #[trigger] relocation(v, n).contains_key(k) ==> relocation(v, n)[k] == k,
        forall|j: int| 0 <= j < n ==> relocation(v, n).contains_key(#[trigger] v[j].start),
    decreases n,
{
    if n > 0 {
        lemma_relocation_identity(v, n - 1);
        lemma_records_len_mono(v, n - 1, v.len() as int);
        assert(v[n - 1].start == records_len(v, n - 1));
        let prev = relocation(v, n - 1);
        let cur = relocation(v, n);
        assert(cur == prev.insert(v[n - 1].start, records_len(v, n - 1) as usize));
        assert forall|k: usize| #[trigger] cur.contains_key(k) implies cur[k] == k by {
            if k != v[n - 1].start {
                assert(prev.contains_key(k));
            }
        }
    }
}

proof fn lemma_relocated_unchanged(v: Seq<InstrView>, reloc: Map<usize, usize>, n: int)
    requires
        0 <= n <= v.len(),
        forall|i: int| 0 <= i < v.len() ==> relocated_record(#[trigger] v[i], reloc) == Some(v[i].raw),
    ensures
        relocated_records(v, reloc, n) == Some(records_bytes(v, n)),
    decreases n,
{
    if n > 0 {
        lemma_relocated_unchanged(v, reloc, n - 1);
        assert(relocated_record(v[n - 1], reloc) == Some(v[n - 1].raw));
    }
}

/// Reassembling the records of a script whose jumps all target record starts, without changing
/// any record, gives the script back byte for byte.
pub proof fn lemma_rebuild_unchanged_script(raw: Seq<u8>)
    requires
        raw.len() <= usize::MAX,
        spec_parse_script(raw) is Parsed,
        rebuild_fits(spec_parse_script(raw)->Parsed_0),
        jumps_land(spec_parse_script(raw)->Parsed_0),
    ensures
        spec_rebuild_script(spec_parse_script(raw)->Parsed_0) == Some(raw),
{
    let v = spec_parse_script(raw)->Parsed_0;
    let n = v.len() as int;
    lemma_parsed_layout(raw, 0);
    assert(records_len(v, n) == raw.len()) by {
        lemma_records_bytes_len(v, n);
        assert(raw.subrange(0, raw.len() as int) =~= raw);
    }
    lemma_relocation_identity(v, n);
    let reloc = relocation(v, n);
    assert forall|i: int| 0 <= i < v.len() implies !stray_jump(v, i) by {
        if is_jump(v[i].op) && v[i].raw.len() >= 12 {
            let j = choose|j: int| 0 <= j < v.len() && v[j].start == jump_target(v[i]);
            assert(reloc.contains_key(v[j].start));
        }
    }
    assert forall|i: int| 0 <= i < v.len() implies relocated_record(#[trigger] v[i], reloc) == Some(v[i].raw) by {
        if is_jump(v[i].op) {
            if v[i].raw.len() < 12 {
                let j = choose|j: int| 0 <= j < i && #[trigger] stray_jump(v, j);
                assert(!stray_jump(v, j));
            }
            let j = choose|j: int| 0 <= j < v.len() && v[j].start == jump_target(v[i]);
            assert(reloc.contains_key(v[j].start));
            let t = jump_target(v[i]);
            assert(reloc[t] == t);
            crate::bytes::lemma_le_read_write(v[i].raw, 8);
            assert(v[i].raw =~= v[i].raw.subrange(0, 8) + le_bytes(reloc[t] as u32) + v[i].raw.subrange(
                12,
                v[i].raw.len() as int,
            ));
        }
    }
    lemma_relocated_unchanged(v, reloc, n);
    assert(raw.subrange(0, raw.len() as int) =~= raw);
}

// ---------------------------------------------------------------------------
// Reassembled scripts read back
// ---------------------------------------------------------------------------
/// Whether `recs` are records as a script lays them out: each starts with its opcode, every
/// record but the last holds its own length and is no terminator, and the last is a terminator.
pub open spec fn laid_records(recs: Seq<InstrView>) -> bool {
    &&& recs.len() > 0
    &&& forall|i: int| 0 <= i < recs.len() ==> (#[trigger] recs[i]).raw.len() >= 8 && spec_u32_le(recs[i].raw, 0) == recs[i].op
    &&& forall|i: int|
        0 <= i < recs.len() - 1 ==> spec_u32_le((#[trigger] recs[i]).raw, 4) == recs[i].raw.len() && !(recs[i].op == 0
            && recs[i].raw.len() == TERMINATOR_LEN)
    &&& recs.last().op == 0
    &&& spec_u32_le(recs.last().raw, 4) == TERMINATOR_LEN
}

proof fn lemma_u32_le_shift(b: Seq<u8>, p: int, r: Seq<u8>, k: int)
    requires
        0 <= p,
        0 <= k,
        k + 4 <= r.len(),
        p + r.len() <= b.len(),
        b.subrange(p, p + r.len()) == r,
    ensures
        spec_u32_le(b, p + k) == spec_u32_le(r, k),
{
    assert(b[p + k] == r[k]);
    assert(b[p + k + 1] == r[k + 1]);
    assert(b[p + k + 2] == r[k + 2]);
    assert(b[p + k + 3] == r[k + 3]);
}

/// The records a script is parsed into are laid out as [`laid_records`] says.
pub proof fn lemma_parsed_laid(raw: Seq<u8>, pos: nat)
    requires
        parse_records(raw, pos) is Parsed,
    ensures
        laid_records(parse_records(raw, pos)->Parsed_0),
    decreases raw.len() - pos,
{
    let op = spec_u32_le(raw, pos as int);
    let ln = spec_u32_le(raw, pos as int + 4);
    let v = parse_records(raw, pos)->Parsed_0;
    if op == 0 && ln == TERMINATOR_LEN {
        let r = raw.subrange(pos as int, raw.len() as int);
        lemma_u32_le_shift(raw, pos as int, r, 0);
        lemma_u32_le_shift(raw, pos as int, r, 4);
    } else {
        let r = raw.subrange(pos as int, pos + ln);
        let h = InstrView { start: pos as usize, op, raw: r };
        let rest = parse_records(raw, (pos + ln) as nat)->Parsed_0;
        lemma_parsed_laid(raw, (pos + ln) as nat);
        lemma_u32_le_shift(raw, pos as int, r, 0);
        lemma_u32_le_shift(raw, pos as int, r, 4);
        assert(v == seq![h] + rest);
        assert forall|i: int| 0 <= i < v.len() implies (#[trigger] v[i]).raw.len() >= 8 && spec_u32_le(v[i].raw, 0)
            == v[i].op by {
            if i > 0 {
                assert(v[i] == rest[i - 1]);
            }
        }
        assert forall|i: int| 0 <= i < v.len() - 1 implies spec_u32_le((#[trigger] v[i]).raw, 4) == v[i].raw.len()
            && !(v[i].op == 0 && v[i].raw.len() == TERMINATOR_LEN) by {
            if i > 0 {
                assert(v[i] == rest[i - 1]);
            }
        }
        assert(v.last() == rest.last());
    }
}

/// Bytes that hold laid-out records from `p` to their end are read back as those records.
proof fn lemma_parse_laid(b: Seq<u8>, p: nat, recs: Seq<InstrView>)
    requires
        laid_records(recs),
        b.len() == p + records_len(recs, recs.len() as int),
        b.subrange(p as int, b.len() as int) == records_bytes(recs, recs.len() as int),
    ensures
        parse_records(b, p) matches ScriptParse::Parsed(v) && v.len() == recs.len() && forall|i: int|
            0 <= i < recs.len() ==> (#[trigger] v[i]).raw == recs[i].raw && v[i].op == recs[i].op && v[i].start == (p
                + records_len(recs, i)) as usize,
    decreases recs.len(),
{
    let h = recs[0];
    let rest = recs.drop_first();
    assert(recs == seq![h] + rest);
    lemma_prepend_lengths(h, rest, rest.len() as int);
    lemma_records_bytes_len(rest, rest.len() as int);
    let whole = b.subrange(p as int, b.len() as int);
    assert(whole.subrange(0, h.raw.len() as int) =~= h.raw);
    assert(b.subrange(p as int, (p + h.raw.len()) as int) =~= h.raw);
    lemma_u32_le_shift(b, p as int, h.raw, 0);
    lemma_u32_le_shift(b, p as int, h.raw, 4);
    if recs.len() == 1 {
        assert(rest =~= Seq::<InstrView>::empty());
        assert(records_bytes(rest, 0) == Seq::<u8>::empty());
        assert(h == recs.last());
        assert(whole =~= h.raw);
        let v = parse_records(b, p)->Parsed_0;
        assert(v[0].raw == h.raw);
        assert(records_len(recs, 0) == 0);
    } else {
        assert(h.raw.len() >= 8 && spec_u32_le(h.raw, 0) == h.op);
        assert(spec_u32_le(h.raw, 4) == h.raw.len());
        assert(laid_records(rest)) by {
            assert forall|i: int| 0 <= i < rest.len() implies (#[trigger] rest[i]).raw.len() >= 8 && spec_u32_le(
                rest[i].raw,
                0,
            ) == rest[i].op by {
                assert(rest[i] == recs[i + 1]);
            }
            assert forall|i: int| 0 <= i < rest.len() - 1 implies spec_u32_le((#[trigger] rest[i]).raw, 4)
                == rest[i].raw.len() && !(rest[i].op == 0 && rest[i].raw.len() == TERMINATOR_LEN) by {
                assert(rest[i] == recs[i + 1]);
            }
            assert(rest.last() == recs.last());
        }
        let p2 = (p + h.raw.len()) as nat;
        assert(b.subrange(p2 as int, b.len() as int) =~= records_bytes(rest, rest.len() as int)) by {
            assert forall|k: int| 0 <= k < b.len() - p2 implies b.subrange(p2 as int, b.len() as int)[k]
                == records_bytes(rest, rest.len() as int)[k] by {
                assert(b[p2 + k] == whole[h.raw.len() + k]);
            }
        }
        lemma_parse_laid(b, p2, rest);
        let rv = parse_records(b, p2)->Parsed_0;
        let v = parse_records(b, p)->Parsed_0;
        assert forall|i: int| 0 <= i < recs.len() implies (#[trigger] v[i]).raw == recs[i].raw && v[i].op
            == recs[i].op && v[i].start == (p + records_len(recs, i)) as usize by {
            if i > 0 {
                assert(v[i] == rv[i - 1]);
                assert(recs[i] == rest[i - 1]);
                lemma_prepend_lengths(h, rest, i - 1);
            } else {
                assert(records_len(recs, 0) == 0);
            }
        }
    }
}

/// The records as [`rebuild_script`] writes them back, each with its relocated bytes.
pub open spec fn relocated_views(instrs: Seq<InstrView>, reloc: Map<usize, usize>) -> Seq<InstrView> {
    Seq::new(
        instrs.len(),
        |i: int| InstrView { raw: relocated_record(instrs[i], reloc).unwrap(), ..instrs[i] },
    )
}

/// Reassembled records are the relocated records laid end to end.
proof fn lemma_relocated_concat(instrs: Seq<InstrView>, reloc: Map<usize, usize>, n: int)
    requires
        0 <= n <= instrs.len(),
        relocated_records(instrs, reloc, n) is Some,
    ensures
        relocated_records(instrs, reloc, n) == Some(records_bytes(relocated_views(instrs, reloc), n)),
        forall|i: int| 0 <= i < n ==> relocated_record(#[trigger] instrs[i], reloc) is Some,
    decreases n,
{
    if n > 0 {
        lemma_relocated_concat(instrs, reloc, n - 1);
    }
}

/// Relocating a jump keeps its header and its length.
proof fn lemma_relocated_header(v: InstrView, reloc: Map<usize, usize>)
    requires
        v.raw.len() >= 8,
        relocated_record(v, reloc) is Some,
        is_jump(v.op) ==> v.raw.len() >= 12,
    ensures
        relocated_record(v, reloc).unwrap().len() == v.raw.len(),
        relocated_record(v, reloc).unwrap().subrange(0, 8) == v.raw.subrange(0, 8),
        spec_u32_le(relocated_record(v, reloc).unwrap(), 0) == spec_u32_le(v.raw, 0),
        spec_u32_le(relocated_record(v, reloc).unwrap(), 4) == spec_u32_le(v.raw, 4),
{
    let r = relocated_record(v, reloc).unwrap();
    if is_jump(v.op) {
        assert(r.subrange(0, 8) =~= v.raw.subrange(0, 8));
        assert(r[0] == v.raw[0] && r[1] == v.raw[1] && r[2] == v.raw[2] && r[3] == v.raw[3]);
        assert(r[4] == v.raw[4] && r[5] == v.raw[5] && r[6] == v.raw[6] && r[7] == v.raw[7]);
    }
}

/// A reassembled script is as long as its records, so each record is no longer than it.
pub proof fn lemma_rebuilt_len(instrs: Seq<InstrView>)
    requires
        rebuild_fits(instrs),
        spec_rebuild_script(instrs) is Some,
    ensures
        spec_rebuild_script(instrs).unwrap().len() == records_len(instrs, instrs.len() as int),
        forall|i: int| 0 <= i < instrs.len() ==> (#[trigger] instrs[i]).raw.len() <= spec_rebuild_script(instrs).unwrap().len(),
{
    let n = instrs.len() as int;
    let reloc = relocation(instrs, n);
    let rv = relocated_views(instrs, reloc);
    lemma_relocated_concat(instrs, reloc, n);
    assert forall|i: int| 0 <= i < n implies (#[trigger] rv[i]).raw.len() == instrs[i].raw.len() by {
        if is_jump(instrs[i].op) && instrs[i].raw.len() < 12 {
            let j = choose|j: int| 0 <= j < i && #[trigger] stray_jump(instrs, j);
            assert(relocated_record(instrs[j], reloc) is Some);
        }
        if is_jump(instrs[i].op) {
            assert(relocated_record(instrs[i], reloc).unwrap().len() == instrs[i].raw.len());
        }
    }
    lemma_records_bytes_len(rv, n);
    lemma_records_len_same(rv, instrs, n);
    assert forall|i: int| 0 <= i < n implies (#[trigger] instrs[i]).raw.len() <= spec_rebuild_script(instrs).unwrap().len() by {
        lemma_records_len_mono(instrs, i + 1, n);
    }
}

proof fn lemma_records_len_same(a: Seq<InstrView>, b: Seq<InstrView>, n: int)
    requires
        0 <= n <= a.len(),
        a.len() == b.len(),
        forall|i: int| 0 <= i < a.len() ==> (#[trigger] a[i]).raw.len() == b[i].raw.len(),
    ensures
        records_len(a, n) == records_len(b, n),
    decreases n,
{
    if n > 0 {
        lemma_records_len_same(a, b, n - 1);
    }
}

/// A relocated record is no longer than the reassembled script.
pub proof fn lemma_rebuilt_reads_len(instrs: Seq<InstrView>, i: int)
    requires
        0 <= i < instrs.len(),
        rebuild_fits(instrs),
        spec_rebuild_script(instrs) is Some,
    ensures
        relocated_views(instrs, relocation(instrs, instrs.len() as int))[i].raw.len() == instrs[i].raw.len(),
{
    let n = instrs.len() as int;
    let reloc = relocation(instrs, n);
    lemma_relocated_concat(instrs, reloc, n);
    if is_jump(instrs[i].op) && instrs[i].raw.len() < 12 {
        let j = choose|j: int| 0 <= j < i && #[trigger] stray_jump(instrs, j);
        assert(relocated_record(instrs[j], reloc) is Some);
    }
}

/// Reassembling laid-out records whose jumps land gives a script that reads back as the
/// relocated records.
pub proof fn lemma_rebuilt_script_parses(instrs: Seq<InstrView>)
    requires
        laid_records(instrs),
        rebuild_fits(instrs),
        spec_rebuild_script(instrs) is Some,
    ensures
        spec_parse_script(spec_rebuild_script(instrs).unwrap()) matches ScriptParse::Parsed(v) && v.len() == instrs.len()
            && forall|i: int|
            0 <= i < instrs.len() ==> (#[trigger] v[i]).op == instrs[i].op && v[i].raw == relocated_views(
                instrs,
                relocation(instrs, instrs.len() as int),
            )[i].raw && v[i].start == records_len(instrs, i) as usize,
{
    let n = instrs.len() as int;
    let reloc = relocation(instrs, n);
    let rv = relocated_views(instrs, reloc);
    lemma_relocated_concat(instrs, reloc, n);
    assert forall|i: int| 0 <= i < n implies !(is_jump((#[trigger] instrs[i]).op) && instrs[i].raw.len() < 12) by {
        if is_jump(instrs[i].op) && instrs[i].raw.len() < 12 {
            let j = choose|j: int| 0 <= j < i && #[trigger] stray_jump(instrs, j);
            assert(relocated_record(instrs[j], reloc) is Some);
        }
    }
    assert forall|i: int| 0 <= i < n implies (#[trigger] rv[i]).raw.len() == instrs[i].raw.len() && spec_u32_le(
        rv[i].raw,
        0,
    ) == spec_u32_le(instrs[i].raw, 0) && spec_u32_le(rv[i].raw, 4) == spec_u32_le(instrs[i].raw, 4) by {
        lemma_relocated_header(instrs[i], reloc);
    }
    assert(laid_records(rv)) by {
        assert(rv.last() == rv[n - 1]);
        assert(instrs.last() == instrs[n - 1]);
        assert forall|i: int| 0 <= i < n - 1 implies spec_u32_le((#[trigger] rv[i]).raw, 4) == rv[i].raw.len() && !(
        rv[i].op == 0 && rv[i].raw.len() == TERMINATOR_LEN) by {
            assert(rv[i].raw.len() == instrs[i].raw.len());
        }
    }
    let b = records_bytes(rv, n);
    lemma_records_bytes_len(rv, n);
    assert(b.subrange(0, b.len() as int) =~= b);
    lemma_parse_laid(b, 0, rv);
    assert forall|i: int| 0 <= i < n implies records_len(rv, i) == records_len(instrs, i) by {
        lemma_records_len_same(rv, instrs, i);
    }
}

/// Where the relocation of records with distinct starts sends the start of record `j`: to the
/// total length of the records before it.
proof fn lemma_relocation_at(instrs: Seq<InstrView>, n: int, j: int)
    requires
        0 <= j < n <= instrs.len(),
        forall|a: int, b: int| 0 <= a < b < instrs.len() ==> (#[trigger] instrs[a]).start != (#[trigger] instrs[b]).start,
    ensures
        relocation(instrs, n).contains_key(instrs[j].start),
        relocation(instrs, n)[instrs[j].start] == records_len(instrs, j) as usize,
    decreases n,
{
    if j < n - 1 {
        lemma_relocation_at(instrs, n - 1, j);
        assert(instrs[j].start != instrs[n - 1].start);
    }
}

/// After reassembly, every jump points at the record it pointed at before, forward or backward:
/// the reassembled script reads back as the same records, in order, starting where the records
/// before them end, non-jump records unchanged, and each jump's target argument the new start of
/// the record that started at its old target; when the records' starts are distinct and the
/// script fits 32 bits.
pub proof fn lemma_jumps_follow_records(instrs: Seq<InstrView>)
    requires
        laid_records(instrs),
        rebuild_fits(instrs),
        spec_rebuild_script(instrs) is Some,
        spec_rebuild_script(instrs).unwrap().len() <= u32::MAX,
        forall|a: int, b: int| 0 <= a < b < instrs.len() ==> (#[trigger] instrs[a]).start != (#[trigger] instrs[b]).start,
    ensures
        spec_parse_script(spec_rebuild_script(instrs).unwrap()) is Parsed,
        ({
            let w = spec_parse_script(spec_rebuild_script(instrs).unwrap())->Parsed_0;
            &&& w.len() == instrs.len()
            &&& forall|i: int|
                0 <= i < w.len() ==> (#[trigger] w[i]).op == instrs[i].op && w[i].start == records_len(instrs, i)
                    && (!is_jump(instrs[i].op) ==> w[i].raw == instrs[i].raw)
            &&& forall|i: int, j: int|
                0 <= i < w.len() && 0 <= j < w.len() && is_jump(instrs[i].op) && (#[trigger] instrs[j]).start
                    == jump_target(#[trigger] instrs[i]) ==> jump_target(w[i]) == w[j].start
        }),
{
    let n = instrs.len() as int;
    let reloc = relocation(instrs, n);
    let rv = relocated_views(instrs, reloc);
    let out = spec_rebuild_script(instrs).unwrap();
    lemma_rebuilt_script_parses(instrs);
    lemma_rebuilt_len(instrs);
    lemma_relocated_concat(instrs, reloc, n);
    let w = spec_parse_script(out)->Parsed_0;
    assert forall|i: int| 0 <= i < n implies records_len(instrs, i) <= out.len() by {
        lemma_records_len_mono(instrs, i, n);
    }
    assert forall|i: int, j: int|
        0 <= i < w.len() && 0 <= j < w.len() && is_jump(instrs[i].op) && (#[trigger] instrs[j]).start == jump_target(
            #[trigger] instrs[i],
        ) implies jump_target(w[i]) == w[j].start by {
        lemma_relocation_at(instrs, n, j);
        if instrs[i].raw.len() < 12 {
            let m = choose|m: int| 0 <= m < i && #[trigger] stray_jump(instrs, m);
            assert(relocated_record(instrs[m], reloc) is Some);
        }
        let t = jump_target(instrs[i]);
        let nt = reloc[t];
        assert(nt == records_len(instrs, j) as usize);
        let r = relocated_record(instrs[i], reloc).unwrap();
        assert(r == instrs[i].raw.subrange(0, 8) + le_bytes(nt as u32) + instrs[i].raw.subrange(
            12,
            instrs[i].raw.len() as int,
        ));
        assert(r.subrange(8, 12) =~= le_bytes(nt as u32));
        crate::bytes::lemma_read_le_bytes(r, 8, nt as u32);
        assert(w[i].raw == r);
        assert(nt as u32 as usize == nt);
    }
}

/// A text record holds as many strings as its kind says: its option count for a choice, one
/// otherwise.
pub proof fn lemma_text_segments_len(v: InstrView)
    ensures
        text_segments(v) matches Some(segs) ==> segs.len() == string_count(v),
{
    if text_segments(v) is Some {
        lemma_nul_strings_len(v.raw.skip(8), text_prefix_len() as int, string_count(v));
    }
}

/// Every record read from a script holds at least its 8-byte header.
proof fn lemma_parsed_headers(raw: Seq<u8>, pos: nat)
    requires
        parse_records(raw, pos) is Parsed,
    ensures
        forall|i: int|
            0 <= i < parse_records(raw, pos)->Parsed_0.len() ==> (#[trigger] parse_records(raw, pos)->Parsed_0[i]).raw.len()
                >= 8,
    decreases raw.len() - pos,
{
    let op = spec_u32_le(raw, pos as int);
    let ln = spec_u32_le(raw, pos as int + 4);
    let v = parse_records(raw, pos)->Parsed_0;
    if !(op == 0 && ln == TERMINATOR_LEN) {
        let h = InstrView { start: pos as usize, op, raw: raw.subrange(pos as int, pos + ln) };
        let rest = parse_records(raw, (pos + ln) as nat)->Parsed_0;
        lemma_parsed_headers(raw, (pos + ln) as nat);
        assert(v == seq![h] + rest);
        assert forall|i: int| 0 <= i < v.len() implies (#[trigger] v[i]).raw.len() >= 8 by {
            if i > 0 {
                assert(v[i] == rest[i - 1]);
            }
        }
    }
}

/// Records of at least one byte each: the first `n` take at least `n` bytes.
proof fn lemma_records_len_lower(v: Seq<InstrView>, n: int)
    requires
        0 <= n <= v.len(),
        forall|i: int| 0 <= i < v.len() ==> (#[trigger] v[i]).raw.len() >= 8,
    ensures
        records_len(v, n) >= n,
    decreases n,
{
    if n > 0 {
        lemma_records_len_lower(v, n - 1);
        assert(v[n - 1].raw.len() >= 8);
    }
}

/// The records of a script start at strictly increasing offsets.
pub proof fn lemma_parsed_starts_increase(raw: Seq<u8>)
    requires
        raw.len() <= usize::MAX,
        spec_parse_script(raw) is Parsed,
    ensures
        forall|i: int, j: int|
            0 <= i < j < spec_parse_script(raw)->Parsed_0.len() ==> (#[trigger] spec_parse_script(raw)->Parsed_0[i]).start
                < (#[trigger] spec_parse_script(raw)->Parsed_0[j]).start,
        forall|i: int|
            0 <= i < spec_parse_script(raw)->Parsed_0.len() ==> (#[trigger] spec_parse_script(raw)->Parsed_0[i]).start >= i,
{
    let v = spec_parse_script(raw)->Parsed_0;
    lemma_parsed_layout(raw, 0);
    lemma_parsed_headers(raw, 0);
    assert forall|i: int| 0 <= i < v.len() implies (#[trigger] v[i]).start >= i by {
        lemma_records_len_lower(v, i);
    }
    assert forall|i: int, j: int| 0 <= i < j < v.len() implies (#[trigger] v[i]).start < (#[trigger] v[j]).start by {
        lemma_records_len_mono(v, i + 1, j);
        assert(v[i].raw.len() >= 8);
    }
}

proof fn lemma_records_bytes_len(v: Seq<InstrView>, n: int)
    requires
        0 <= n <= v.len(),
    ensures
        records_bytes(v, n).len() == records_len(v, n),
    decreases n,
{
    if n > 0 {
        lemma_records_bytes_len(v, n - 1);
    }
}

} // verus!
