//! Patch documents: extracting the translatable text of an archive into units,
//! and applying translated units back to an archive.
//!
//! A unit names a text record by its byte offset in the original decrypted
//! script (`0x18f`), its kind, its Japanese text (`jp`) and its translation
//! (`en`); choice units hold one text per option. An empty translation keeps
//! the Japanese text.
use vstd::prelude::*;

use crate::asb::{
    cp932_encodable, decoded_strings, headers_fit, parse_script, read_strings, rebuild_instr,
    rebuild_script, records_fit_rebuild, spec_parse_script, spec_rebuild_instr, spec_rebuild_script,
    string_views, text_fits, text_record_fits, text_segments, Instr, InstrView, ScriptParse,
    instr_views, rebuild_fits, script_headers_fit,
};
use crate::azsys::{
    arc_entries, arc_loadable, asb_fits, asb_payload_fits, decrypt_asb, encrypt_asb, entry_views,
    spec_decrypt_asb, spec_encrypt_asb, spec_save, Arc, ArcEntry, ArcEntryView, TRIPTYCH_KEY,
};
use crate::bytes::{le_bytes, spec_u32_le};
use crate::error::{ErrorKind, PatchError};
use crate::text::{concat, concat3, parse_offset, sanitize, spec_parse_offset, spec_sanitize, spec_trim, trim};

verus! {

broadcast use vstd::std_specs::hash::group_hash_axioms;

// ---------------------------------------------------------------------------
// Documents
// ---------------------------------------------------------------------------
/// A single text or a list of texts: text records use one, choice records a list with one
/// entry per option.
pub enum StrOrList {
    Many(Vec<String>),
    One(String),
}

/// A [`StrOrList`] as a mathematical value.
pub enum TextsView {
    Many(Seq<Seq<char>>),
    One(Seq<char>),
}

impl View for StrOrList {
    type V = TextsView;

    open spec fn view(&self) -> TextsView {
        match self {
            StrOrList::Many(v) => TextsView::Many(string_views(v@)),
            StrOrList::One(s) => TextsView::One(s@),
        }
    }
}

/// The texts held, as a list.
pub open spec fn texts_list(t: TextsView) -> Seq<Seq<char>> {
    match t {
        TextsView::Many(v) => v,
        TextsView::One(s) => seq![s],
    }
}

/// Copies a list of strings.
fn copy_strings(v: &Vec<String>) -> (r: Vec<String>)
    ensures
        string_views(r@) == string_views(v@),
{
    let mut r: Vec<String> = Vec::new();
    let mut i: usize = 0;
    while i < v.len()
        invariant
            i <= v@.len(),
            string_views(r@) == string_views(v@).take(i as int),
        decreases v@.len() - i,
    {
        let s = v[i].clone();
        let ghost before = r@;
        r.push(s);
        assert(string_views(r@) =~= string_views(v@).take(i + 1)) by {
            assert(string_views(before.push(s)) =~= string_views(before).push(s@));
        }
        i = i + 1;
    }
    assert(string_views(v@).take(v@.len() as int) =~= string_views(v@));
    r
}

impl StrOrList {
    /// The texts held, as a list.
    pub fn to_vec(&self) -> (r: Vec<String>)
        ensures
            string_views(r@) == texts_list(self@),
    {
        match self {
            StrOrList::One(s) => {
                let mut r: Vec<String> = Vec::new();
                r.push(s.clone());
                assert(string_views(r@) =~= seq![s@]);
                r
            },
            StrOrList::Many(v) => copy_strings(v),
        }
    }
}

/// One translatable text record of a script.
pub struct Unit {
    /// The record's offset in the original decrypted script, as `0x…`; the anchor the patch is
    /// applied by.
    pub offset: String,
    /// `title`, `speaker`, `text` or `choice`.
    pub kind: String,
    /// The original text.
    pub jp: StrOrList,
    /// The translation; an empty text keeps the original.
    pub en: Option<StrOrList>,
}

/// A [`Unit`] as a mathematical value.
pub struct UnitView {
    pub offset: Seq<char>,
    pub kind: Seq<char>,
    pub jp: TextsView,
    pub en: Option<TextsView>,
}

impl View for Unit {
    type V = UnitView;

    open spec fn view(&self) -> UnitView {
        UnitView {
            offset: self.offset@,
            kind: self.kind@,
            jp: self.jp@,
            en: match &self.en {
                Some(e) => Some(e@),
                None => None,
            },
        }
    }
}

/// The views of a list of units.
pub open spec fn unit_views(v: Seq<Unit>) -> Seq<UnitView> {
    v.map_values(|u: Unit| u@)
}

/// Document metadata.
pub struct Meta {
    pub game: String,
    /// The archive the patch targets, such as `script.arc`.
    pub source: String,
    pub note: String,
}

/// The units of one script of a document. A list that did not read as units keeps the reason,
/// which is reported only if the archive holds that script.
pub struct FileUnits {
    pub name: String,
    pub units: Result<Vec<Unit>, String>,
}

/// A patch document: metadata and, per script name, its units, in document order. A document
/// read from JSON (an object) or made by [`extract`] names each script once (see
/// [`names_unique`]); where a name repeats, the first file with it is the one used.
pub struct Document {
    pub meta: Meta,
    pub files: Vec<FileUnits>,
}

/// Statistics of an extraction.
pub struct ExtractStats {
    pub total_units: usize,
    pub file_count: usize,
    pub warnings: Vec<String>,
}

/// Statistics of a build.
pub struct BuildStats {
    pub translated_units: usize,
    pub scripts_modified: usize,
}

// ---------------------------------------------------------------------------
// Choosing the texts to write
// ---------------------------------------------------------------------------
/// The text written for option `i`: the sanitized translation when there is a non-empty one,
/// the original otherwise.
pub open spec fn chosen_text(jp: Seq<Seq<char>>, en: Seq<Seq<char>>, i: int) -> Seq<char> {
    if i < en.len() && en[i].len() > 0 {
        spec_sanitize(en[i])
    } else {
        jp[i]
    }
}

/// The translations of a unit, as a list (empty without any).
pub open spec fn unit_en(u: UnitView) -> Seq<Seq<char>> {
    match u.en {
        Some(e) => texts_list(e),
        None => Seq::empty(),
    }
}

/// The texts chosen for a unit, one per original text.
pub open spec fn picked_texts(u: UnitView) -> Seq<Seq<char>> {
    let jp = texts_list(u.jp);
    let en = unit_en(u);
    Seq::new(jp.len(), |i: int| chosen_text(jp, en, i))
}

/// The message of the encoding error for a unit one of whose chosen texts CP932 cannot hold:
/// the unit's offset and the first such text, as `{:?}` writes it.
pub open spec fn pick_refusal(u: UnitView) -> Seq<char> {
    let texts = picked_texts(u);
    "offset "@ + u.offset + ": cannot encode "@ + crate::text::debug_quoted(
        texts[crate::asb::first_unencodable_from(texts, 0)],
    ) + " as cp932"@
}

/// The texts to write for a unit, one per original text, or `Err` when one cannot be encoded in
/// CP932.
pub open spec fn spec_pick(u: UnitView) -> Result<Seq<Seq<char>>, ()> {
    let texts = picked_texts(u);
    if forall|i: int| 0 <= i < texts.len() ==> cp932_encodable(#[trigger] texts[i]) {
        Ok(texts)
    } else {
        Err(())
    }
}

/// Resolves the texts to write for a unit (translation or original), checking that each can
/// be encoded in CP932.
fn pick(unit: &Unit) -> (r: Result<Vec<String>, PatchError>)
    ensures
        match spec_pick(unit@) {
            Ok(texts) => r matches Ok(v) && string_views(v@) == texts,
            Err(_) => r matches Err(e) && e is Encoding && e.message() == pick_refusal(unit@),
        },
{
    let jp = unit.jp.to_vec();
    let en = match &unit.en {
        Some(e) => e.to_vec(),
        None => Vec::new(),
    };
    let ghost jps = string_views(jp@);
    let ghost ens = string_views(en@);
    assert(jps == texts_list(unit@.jp));
    assert(ens == unit_en(unit@)) by {
        if unit.en is None {
            assert(string_views(en@) =~= Seq::<Seq<char>>::empty());
        }
    }
    let ghost texts = Seq::new(jps.len(), |i: int| chosen_text(jps, ens, i));
    let mut out: Vec<String> = Vec::new();
    let mut i: usize = 0;
    while i < jp.len()
        invariant
            i <= jp@.len(),
            jps == string_views(jp@),
            ens == string_views(en@),
            jps == texts_list(unit@.jp),
            ens == unit_en(unit@),
            texts == Seq::new(jps.len(), |i: int| chosen_text(jps, ens, i)),
            string_views(out@) == texts.take(i as int),
            forall|j: int| 0 <= j < i ==> cp932_encodable(#[trigger] texts[j]),
        decreases jp@.len() - i,
    {
        let s = if i < en.len() && en[i].unicode_len() > 0 {
            sanitize(en[i].as_str())
        } else {
            jp[i].clone()
        };
        assert(s@ == texts[i as int]);
        match crate::asb::cp932_encode(s.as_str()) {
            Ok(_) => {},
            Err(_) => {
                assert(!cp932_encodable(texts[i as int]));
                assert(spec_pick(unit@) is Err);
                proof {
                    crate::asb::lemma_first_unencodable(texts, 0, i as int);
                }
                let q = crate::text::debug_quote(s.as_str());
                let msg = concat3("offset ", unit.offset.as_str(), ": cannot encode ");
                let msg = concat3(msg.as_str(), q.as_str(), " as cp932");
                return Err(PatchError::Encoding(msg));
            },
        }
        let ghost before = out@;
        out.push(s);
        assert(string_views(out@) =~= texts.take(i + 1)) by {
            assert(string_views(before.push(s)) =~= string_views(before).push(s@));
        }
        i = i + 1;
    }
    assert(texts.take(jp@.len() as int) =~= texts);
    Ok(out)
}

/// Whether one of the texts is non-empty.
pub open spec fn has_nonempty(v: Seq<Seq<char>>) -> bool {
    exists|i: int| 0 <= i < v.len() && (#[trigger] v[i]).len() > 0
}

/// Whether a unit carries a non-empty translation.
pub open spec fn unit_translated(u: UnitView) -> bool {
    match u.en {
        Some(TextsView::One(s)) => s.len() > 0,
        Some(TextsView::Many(v)) => has_nonempty(v),
        None => false,
    }
}

/// The number of the first `n` units that carry a non-empty translation.
pub open spec fn translated_count(units: Seq<UnitView>, n: int) -> nat
    decreases n,
{
    if n <= 0 {
        0
    } else {
        translated_count(units, n - 1) + if unit_translated(units[n - 1]) {
            1nat
        } else {
            0
        }
    }
}

/// Whether a unit carries a non-empty translation.
fn is_translated(u: &Unit) -> (b: bool)
    ensures
        b == unit_translated(u@),
{
    match &u.en {
        Some(StrOrList::One(s)) => s.unicode_len() > 0,
        Some(StrOrList::Many(v)) => {
            assert(u@.en == Some(TextsView::Many(string_views(v@))));
            let mut i: usize = 0;
            while i < v.len()
                invariant
                    i <= v@.len(),
                    u@.en == Some(TextsView::Many(string_views(v@))),
                    forall|j: int| 0 <= j < i ==> v@[j]@.len() == 0,
                decreases v@.len() - i,
            {
                if v[i].unicode_len() > 0 {
                    assert(u@.en == Some(TextsView::Many(string_views(v@))));
                    let ghost w = string_views(v@);
                    assert(w.len() == v@.len());
                    assert(w[i as int].len() > 0);
                    assert(0 <= i < w.len() && (w[i as int]).len() > 0);
                    assert(has_nonempty(w));
                    return true;
                }
                i = i + 1;
            }
            assert(forall|j: int| 0 <= j < v@.len() ==> (#[trigger] string_views(v@)[j]).len() == 0);
            false
        },
        None => false,
    }
}

/// Counts the units carrying a non-empty translation.
fn count_translated(units: &[Unit]) -> (r: usize)
    ensures
        r == translated_count(unit_views(units@), units@.len() as int),
{
    let mut count: usize = 0;
    let mut i: usize = 0;
    while i < units.len()
        invariant
            i <= units@.len(),
            count == translated_count(unit_views(units@), i as int),
            count <= i,
        decreases units@.len() - i,
    {
        assert(unit_views(units@)[i as int] == units@[i as int]@);
        if is_translated(&units[i]) {
            count = count + 1;
        }
        i = i + 1;
    }
    count
}

// ---------------------------------------------------------------------------
// The archive a document targets
// ---------------------------------------------------------------------------
/// `s` with backslashes turned into slashes.
pub open spec fn normalize_separators(s: Seq<char>) -> Seq<char> {
    s.map_values(|c: char| if c == '\\' { '/' } else { c })
}

/// The index of the last `/` of `s` before index `i`, or -1.
pub open spec fn last_slash(s: Seq<char>, i: int) -> int
    decreases i,
{
    if i <= 0 {
        -1
    } else if s[i - 1] == '/' {
        i - 1
    } else {
        last_slash(s, i - 1)
    }
}

/// The final component of a `/`-separated path, as `Path::file_name` gives it: empty and `.`
/// components are skipped, and a path ending in `..` or holding no component has none.
pub open spec fn path_file_name(s: Seq<char>) -> Option<Seq<char>>
    decreases s.len(),
{
    if s.len() == 0 {
        None
    } else {
        proof {
            lemma_last_slash_bounds(s, s.len() as int);
        }
        let k = last_slash(s, s.len() as int);
        let seg = s.subrange(k + 1, s.len() as int);
        if seg.len() == 0 || seg == seq!['.'] {
            if k < 0 {
                None
            } else {
                path_file_name(s.take(k))
            }
        } else if seg == seq!['.', '.'] {
            None
        } else {
            Some(seg)
        }
    }
}

/// The name used when the metadata names no archive.
pub open spec fn default_source() -> Seq<char> {
    "script.arc"@
}

/// The bare file name of the archive a document targets: the trimmed `source` of its metadata
/// (`script.arc` when empty), with backslashes read as separators, reduced to its final
/// component (`script.arc` when it has none).
pub open spec fn spec_source_name(source: Seq<char>) -> Seq<char> {
    let t = spec_trim(source);
    let raw = if t.len() == 0 {
        default_source()
    } else {
        t
    };
    match path_file_name(normalize_separators(raw)) {
        Some(f) => f,
        None => default_source(),
    }
}

/// Where the last slash is.
pub proof fn lemma_last_slash_bounds(s: Seq<char>, i: int)
    requires
        0 <= i <= s.len(),
    ensures
        -1 <= last_slash(s, i) < i,
        last_slash(s, i) >= 0 ==> s[last_slash(s, i)] == '/',
        forall|j: int| last_slash(s, i) < j < i ==> s[j] != '/',
    decreases i,
{
    if i > 0 && s[i - 1] != '/' {
        lemma_last_slash_bounds(s, i - 1);
    }
}

/// The file name of the archive a document targets (see [`spec_source_name`]).
pub fn source_name(meta: &Meta) -> (r: String)
    ensures
        r@ == spec_source_name(meta.source@),
{
    proof {
        reveal_strlit("script.arc");
    }
    let t = trim(meta.source.as_str());
    if t.unicode_len() == 0 {
        let d = "script.arc";
        proof {
            let norm = normalize_separators(default_source());
            assert(norm =~= default_source());
            let k = last_slash(norm, norm.len() as int);
            lemma_last_slash_bounds(norm, norm.len() as int);
            assert(k == -1);
            assert(norm.subrange(k + 1, norm.len() as int) =~= default_source());
        }
        return String::from_str(d);
    }
    let v = crate::text::chars_of(t);
    let ghost norm = normalize_separators(t@);
    let mut end: usize = v.len();
    assert(norm.take(end as int) =~= norm);
    loop
        invariant
            end <= v@.len(),
            v@ == t@,
            t@ == spec_trim(meta.source@),
            t@.len() > 0,
            norm == normalize_separators(t@),
            path_file_name(norm) == path_file_name(norm.take(end as int)),
        decreases end,
    {
        let ghost s = norm.take(end as int);
        if end == 0 {
            return String::from_str("script.arc");
        }
        let mut k: usize = end;
        while k > 0 && v[k - 1] != '/' && v[k - 1] != '\\'
            invariant
                k <= end <= v@.len(),
                v@ == t@,
                norm == normalize_separators(t@),
                s == norm.take(end as int),
                last_slash(s, end as int) == last_slash(s, k as int),
            decreases k,
        {
            assert(s[k - 1] == norm[k - 1]);
            k = k - 1;
        }
        proof {
            lemma_last_slash_bounds(s, end as int);
            if k > 0 {
                assert(s[k - 1] == '/');
            }
        }
        let ghost kk = last_slash(s, end as int);
        assert(kk == k - 1);
        let seg_len = end - k;
        let ghost seg = s.subrange(kk + 1, end as int);
        assert forall|j: int| 0 <= j < seg.len() implies seg[j] == t@[k + j] by {
            assert(s[k + j] == norm[k + j]);
            assert(norm[k + j] != '/');
        }
        let is_dot = seg_len == 1 && v[k] == '.';
        let is_dotdot = seg_len == 2 && v[k] == '.' && v[k + 1] == '.';
        assert(seg.len() == seg_len);
        if seg_len >= 1 {
            assert(seg[0] == t@[k as int]);
        }
        if seg_len >= 2 {
            assert(seg[1] == t@[k + 1]);
        }
        assert(is_dot == (seg =~= seq!['.']));
        assert(is_dotdot == (seg =~= seq!['.', '.']));
        if seg_len == 0 || is_dot {
            if k == 0 {
                return String::from_str("script.arc");
            }
            proof {
                assert(s.take(kk) =~= norm.take(kk));
            }
            end = k - 1;
        } else if is_dotdot {
            return String::from_str("script.arc");
        } else {
            let f = t.substring_char(k, end);
            assert(f@ =~= seg);
            return String::from_str(f);
        }
    }
}

// ---------------------------------------------------------------------------
// Patching one script
// ---------------------------------------------------------------------------
/// The index of the record starting at each offset, among the first `n` records (of records
/// sharing a start, the later one).
pub open spec fn start_index(v: Seq<InstrView>, n: int) -> Map<usize, usize>
    decreases n,
{
    if n <= 0 {
        Map::empty()
    } else {
        start_index(v, n - 1).insert(v[n - 1].start, (n - 1) as usize)
    }
}

/// Applies one unit to the records `cur` of a script: the unit's offset must parse, name the
/// start of a record, its texts must encode, and the record must be a text record; the record is
/// rebuilt when the texts differ from its strings.
pub open spec fn unit_step(cur: Seq<InstrView>, starts: Map<usize, usize>, u: UnitView) -> Result<Seq<InstrView>, ErrorKind> {
    match spec_parse_offset(u.offset) {
        None => Err(ErrorKind::Format),
        Some(off) => if off > usize::MAX {
            Err(ErrorKind::Format)
        } else if !starts.contains_key(off as usize) {
            Err(ErrorKind::Mismatch)
        } else {
            let idx = starts[off as usize] as int;
            match spec_pick(u) {
                Err(_) => Err(ErrorKind::Encoding),
                Ok(texts) => if !text_fits(cur[idx]) {
                    Err(ErrorKind::Format)
                } else {
                    match text_segments(cur[idx]) {
                        None => Err(ErrorKind::Mismatch),
                        Some(segs) => if texts == decoded_strings(segs) {
                            Ok(cur)
                        } else {
                            match spec_rebuild_instr(cur[idx], texts) {
                                Ok(nv) => Ok(cur.update(idx, nv)),
                                Err(k) => Err(k),
                            }
                        },
                    }
                },
            }
        },
    }
}

/// Applies the first `n` units in order, stopping at the first error.
pub open spec fn apply_units(v0: Seq<InstrView>, starts: Map<usize, usize>, units: Seq<UnitView>, n: int) -> Result<Seq<InstrView>, ErrorKind>
    decreases n,
{
    if n <= 0 {
        Ok(v0)
    } else {
        match apply_units(v0, starts, units, n - 1) {
            Ok(cur) => unit_step(cur, starts, units[n - 1]),
            Err(k) => Err(k),
        }
    }
}

/// The script bytes a list of units makes of a decrypted script, or the kind of error met: the
/// script is parsed, the units are applied in order, and the records are reassembled with their
/// jumps relocated. Where the records do not have the layout the engine's readers need (a header
/// cut off, a text record shorter than its prefix, a jump without its target), a format error.
pub open spec fn spec_patch_script(raw: Seq<u8>, units: Seq<UnitView>) -> Result<Seq<u8>, ErrorKind> {
    if !script_headers_fit(raw) {
        Err(ErrorKind::Format)
    } else {
        match spec_parse_script(raw) {
            ScriptParse::Parsed(v) => match apply_units(v, start_index(v, v.len() as int), units, units.len() as int) {
                Ok(fin) => if !rebuild_fits(fin) {
                    Err(ErrorKind::Format)
                } else {
                    match spec_rebuild_script(fin) {
                        Some(b) => Ok(b),
                        None => Err(ErrorKind::Mismatch),
                    }
                },
                Err(k) => Err(k),
            },
            _ => Err(ErrorKind::Format),
        }
    }
}

/// The message of the error met when applying unit `u` of script `name` to the records `cur`
/// (see [`unit_step`]).
pub open spec fn unit_refusal(name: Seq<char>, cur: Seq<InstrView>, starts: Map<usize, usize>, u: UnitView) -> Seq<char> {
    match spec_parse_offset(u.offset) {
        None => crate::text::bad_offset_refusal(u.offset),
        Some(off) => if off > usize::MAX {
            crate::text::bad_offset_refusal(u.offset)
        } else if !starts.contains_key(off as usize) {
            name + ": no instruction at "@ + u.offset + " - patch does not match this script.arc"@
        } else {
            let idx = starts[off as usize] as int;
            match spec_pick(u) {
                Err(_) => pick_refusal(u),
                Ok(texts) => if !text_fits(cur[idx]) {
                    name + ": "@ + "a text record is shorter than its argument prefix"@
                } else if text_segments(cur[idx]) is None {
                    name + " "@ + u.offset + ": not a text record"@
                } else {
                    crate::asb::rebuild_refusal(cur[idx], texts)
                },
            }
        },
    }
}

/// The message of the error met when applying the first `n` units: that of the first unit
/// that fails.
pub open spec fn apply_refusal(
    name: Seq<char>,
    v0: Seq<InstrView>,
    starts: Map<usize, usize>,
    units: Seq<UnitView>,
    n: int,
) -> Seq<char>
    decreases n,
{
    if n <= 0 {
        Seq::empty()
    } else {
        match apply_units(v0, starts, units, n - 1) {
            Err(_) => apply_refusal(name, v0, starts, units, n - 1),
            Ok(cur) => unit_refusal(name, cur, starts, units[n - 1]),
        }
    }
}

/// The message of the error [`patch_script`] gives for script `name` (see
/// [`spec_patch_script`]).
pub open spec fn patch_refusal(name: Seq<char>, raw: Seq<u8>, units: Seq<UnitView>) -> Seq<char> {
    if !script_headers_fit(raw) {
        name + ": "@ + "a record header runs past the end of the script"@
    } else {
        match spec_parse_script(raw) {
            ScriptParse::Parsed(v) => match apply_units(v, start_index(v, v.len() as int), units, units.len() as int) {
                Ok(fin) => if !rebuild_fits(fin) {
                    name + ": "@ + "a jump record has no target argument"@
                } else {
                    crate::asb::rebuild_script_refusal(fin)
                },
                Err(_) => apply_refusal(name, v, start_index(v, v.len() as int), units, units.len() as int),
            },
            _ => crate::asb::parse_refusal_from(raw, 0),
        }
    }
}

proof fn lemma_apply_refusal_stays(
    name: Seq<char>,
    v0: Seq<InstrView>,
    starts: Map<usize, usize>,
    units: Seq<UnitView>,
    j: int,
    n: int,
)
    requires
        0 <= j <= n,
        apply_units(v0, starts, units, j) is Err,
    ensures
        apply_refusal(name, v0, starts, units, n) == apply_refusal(name, v0, starts, units, j),
    decreases n - j,
{
    if j < n {
        lemma_apply_err_stays(v0, starts, units, j, n - 1);
        lemma_apply_refusal_stays(name, v0, starts, units, j, n - 1);
    }
}

proof fn lemma_start_index_range(v: Seq<InstrView>, n: int)
    requires
        0 <= n <= v.len(),
    ensures
        forall|k: usize| #[trigger] start_index(v, n).contains_key(k) ==> start_index(v, n)[k] < n,
    decreases n,
{
    if n > 0 {
        lemma_start_index_range(v, n - 1);
        let prev = start_index(v, n - 1);
        let cur = start_index(v, n);
        assert forall|k: usize| #[trigger] cur.contains_key(k) implies cur[k] < n by {
            if k != v[n - 1].start {
                assert(prev.contains_key(k));
            }
        }
    }
}

proof fn lemma_apply_err_stays(
    v0: Seq<InstrView>,
    starts: Map<usize, usize>,
    units: Seq<UnitView>,
    j: int,
    n: int,
)
    requires
        0 <= j <= n,
        apply_units(v0, starts, units, j) is Err,
    ensures
        apply_units(v0, starts, units, n) == apply_units(v0, starts, units, j),
    decreases n - j,
{
    if j < n {
        lemma_apply_err_stays(v0, starts, units, j, n - 1);
    }
}

/// A choice record too short to be rebuilt holds no option, so texts that differ from its own
/// are not empty.
proof fn lemma_short_choice_rebuild(v: InstrView, old: Seq<Seq<char>>, new: Seq<Seq<char>>)
    requires
        text_fits(v),
        text_segments(v) is Some,
        old == decoded_strings(text_segments(v).unwrap()),
        new != old,
    ensures
        v.op == 0x0d && v.raw.len() < 24 ==> new.len() != 0,
{
    crate::asb::lemma_text_segments_len(v);
    if v.op == 0x0d && v.raw.len() < 24 && new.len() == 0 {
        assert(new =~= old);
    }
}

/// Whether two lists of strings hold the same texts.
fn same_strings(a: &Vec<String>, b: &Vec<String>) -> (r: bool)
    ensures
        r == (string_views(a@) == string_views(b@)),
{
    if a.len() != b.len() {
        assert(string_views(a@).len() != string_views(b@).len());
        return false;
    }
    let mut i: usize = 0;
    while i < a.len()
        invariant
            i <= a@.len(),
            a@.len() == b@.len(),
            forall|j: int| 0 <= j < i ==> a@[j]@ == b@[j]@,
        decreases a@.len() - i,
    {
        if a[i] != b[i] {
            assert(string_views(a@)[i as int] != string_views(b@)[i as int]);
            return false;
        }
        i = i + 1;
    }
    assert(string_views(a@) =~= string_views(b@));
    true
}

/// The error for a malformed script: a format error whose message is the script's name, a
/// colon and what is wrong.
fn script_error(name: &str, what: &str) -> (r: PatchError)
    ensures
        r is Format,
        r.message() == name@ + ": "@ + what@,
{
    PatchError::Format(concat3(name, ": ", what))
}

/// Patches one decrypted script with its units and returns the new script bytes.
#[verifier::spinoff_prover]
pub fn patch_script(name: &str, raw: &[u8], units: &[Unit]) -> (r: Result<Vec<u8>, PatchError>)
    ensures
        match spec_patch_script(raw@, unit_views(units@)) {
            Ok(b) => r matches Ok(out) && out@ == b,
            Err(k) => r matches Err(e) && e.kind() == k && e.message() == patch_refusal(
                name@,
                raw@,
                unit_views(units@),
            ),
        },
{
    if !headers_fit(raw) {
        return Err(script_error(name, "a record header runs past the end of the script"));
    }
    let mut instrs = match parse_script(raw) {
        Ok(v) => v,
        Err(e) => return Err(e),
    };
    let ghost v0 = instr_views(instrs@);
    let n = instrs.len();
    let mut by_start: std::collections::HashMap<usize, usize> = std::collections::HashMap::new();
    let mut i: usize = 0;
    while i < n
        invariant
            i <= n,
            n == instrs@.len(),
            v0 == instr_views(instrs@),
            by_start@ == start_index(v0, i as int),
        decreases n - i,
    {
        assert(v0[i as int] == instrs@[i as int]@);
        by_start.insert(instrs[i].start, i);
        i = i + 1;
    }
    proof {
        lemma_start_index_range(v0, n as int);
    }
    let ghost starts = start_index(v0, n as int);
    let ghost uv = unit_views(units@);
    let mut j: usize = 0;
    while j < units.len()
        invariant
            j <= units@.len(),
            n == instrs@.len(),
            by_start@ == starts,
            uv == unit_views(units@),
            forall|k: usize| #[trigger] starts.contains_key(k) ==> starts[k] < n,
            apply_units(v0, starts, uv, j as int) == Ok::<Seq<InstrView>, ErrorKind>(instr_views(instrs@)),
            script_headers_fit(raw@),
            spec_parse_script(raw@) == ScriptParse::Parsed(v0),
            v0.len() == n,
            starts == start_index(v0, n as int),
        decreases units@.len() - j,
    {
        let unit = &units[j];
        assert(uv[j as int] == unit@);
        let ghost cur = instr_views(instrs@);
        let start = match parse_offset(unit.offset.as_str()) {
            Ok(s) => s,
            Err(e) => {
                proof {
                    lemma_apply_err_stays(v0, starts, uv, j + 1, uv.len() as int);
                    lemma_apply_refusal_stays(name@, v0, starts, uv, j + 1, uv.len() as int);
                }
                return Err(e);
            },
        };
        let idx = match by_start.get(&start) {
            Some(x) => *x,
            None => {
                proof {
                    lemma_apply_err_stays(v0, starts, uv, j + 1, uv.len() as int);
                    lemma_apply_refusal_stays(name@, v0, starts, uv, j + 1, uv.len() as int);
                }
                let m = concat3(name, ": no instruction at ", unit.offset.as_str());
                return Err(PatchError::Mismatch(concat(m.as_str(), " - patch does not match this script.arc")));
            },
        };
        assert(cur[idx as int] == instrs@[idx as int]@);
        let strings = match pick(unit) {
            Ok(s) => s,
            Err(e) => {
                proof {
                    lemma_apply_err_stays(v0, starts, uv, j + 1, uv.len() as int);
                    lemma_apply_refusal_stays(name@, v0, starts, uv, j + 1, uv.len() as int);
                }
                return Err(e);
            },
        };
        if !text_record_fits(&instrs[idx]) {
            proof {
                lemma_apply_err_stays(v0, starts, uv, j + 1, uv.len() as int);
                lemma_apply_refusal_stays(name@, v0, starts, uv, j + 1, uv.len() as int);
            }
            return Err(script_error(name, "a text record is shorter than its argument prefix"));
        }
        let old_strings = match read_strings(&instrs[idx]) {
            Some((_, _, s)) => s,
            None => {
                proof {
                    lemma_apply_err_stays(v0, starts, uv, j + 1, uv.len() as int);
                    lemma_apply_refusal_stays(name@, v0, starts, uv, j + 1, uv.len() as int);
                }
                let m = concat3(name, " ", unit.offset.as_str());
                return Err(PatchError::Mismatch(concat(m.as_str(), ": not a text record")));
            },
        };
        if !same_strings(&strings, &old_strings) {
            proof {
                lemma_short_choice_rebuild(instrs@[idx as int]@, string_views(old_strings@), string_views(strings@));
            }
            let ni = match rebuild_instr(&instrs[idx], strings.as_slice()) {
                Ok(x) => x,
                Err(e) => {
                proof {
                    lemma_apply_err_stays(v0, starts, uv, j + 1, uv.len() as int);
                    lemma_apply_refusal_stays(name@, v0, starts, uv, j + 1, uv.len() as int);
                }
                return Err(e);
            },
            };
            instrs.set(idx, ni);
            assert(instr_views(instrs@) =~= cur.update(idx as int, ni@));
        }
        j = j + 1;
    }
    assert(uv.len() == units@.len());
    if !records_fit_rebuild(instrs.as_slice()) {
        return Err(script_error(name, "a jump record has no target argument"));
    }
    rebuild_script(instrs.as_slice())
}

// ---------------------------------------------------------------------------
// Extracting one script
// ---------------------------------------------------------------------------
/// `n` empty texts.
pub open spec fn empty_texts(n: nat) -> Seq<Seq<char>> {
    Seq::new(n, |i: int| Seq::<char>::empty())
}

/// The unit extracted from a text record: its offset in `0x…` form, its kind, its texts as the
/// original, and empty translations of the same shape (a list for a choice, one text otherwise).
pub open spec fn record_unit(v: InstrView) -> UnitView {
    let texts = decoded_strings(text_segments(v).unwrap());
    UnitView {
        offset: crate::text::spec_format_offset(v.start as nat),
        kind: crate::asb::text_kind(v.op).unwrap(),
        jp: if v.op == 0x0d {
            TextsView::Many(texts)
        } else {
            TextsView::One(texts[0])
        },
        en: Some(
            if v.op == 0x0d {
                TextsView::Many(empty_texts(texts.len()))
            } else {
                TextsView::One(Seq::empty())
            },
        ),
    }
}

/// Whether a text record is reproduced byte for byte when rebuilt with its own texts; records
/// that are not are left out of the extraction, with a warning.
pub open spec fn record_roundtrips(v: InstrView) -> bool {
    spec_rebuild_instr(v, decoded_strings(text_segments(v).unwrap())) matches Ok(nv) && nv.raw == v.raw
}

/// The units of the first `n` records.
pub open spec fn extracted_units(v: Seq<InstrView>, n: int) -> Seq<UnitView>
    decreases n,
{
    if n <= 0 {
        Seq::empty()
    } else if text_segments(v[n - 1]) is Some && record_roundtrips(v[n - 1]) {
        extracted_units(v, n - 1).push(record_unit(v[n - 1]))
    } else {
        extracted_units(v, n - 1)
    }
}

/// The warning for a text record of script `name` that does not round-trip: the name, `@`, the
/// record's offset, and its opcode, both as `0x…`.
pub open spec fn roundtrip_warning(name: Seq<char>, v: InstrView) -> Seq<char> {
    name + "@"@ + crate::text::spec_format_offset(v.start as nat) + " (op "@ + crate::text::spec_format_offset(
        v.op as nat,
    ) + ") does not round-trip; skipped"@
}

/// The warnings for the text records among the first `n` that do not round-trip, in order.
pub open spec fn skipped_warnings(name: Seq<char>, v: Seq<InstrView>, n: int) -> Seq<Seq<char>>
    decreases n,
{
    if n <= 0 {
        Seq::empty()
    } else if text_segments(v[n - 1]) is Some && !record_roundtrips(v[n - 1]) {
        skipped_warnings(name, v, n - 1).push(roundtrip_warning(name, v[n - 1]))
    } else {
        skipped_warnings(name, v, n - 1)
    }
}

/// Whether every record can be read as a text record without leaving it.
pub open spec fn all_text_fit(v: Seq<InstrView>) -> bool {
    forall|i: int| 0 <= i < v.len() ==> text_fits(#[trigger] v[i])
}

/// Whether every record can be read and rebuilt as a text record without leaving it.
pub open spec fn all_text_whole(v: Seq<InstrView>) -> bool {
    forall|i: int| 0 <= i < v.len() ==> crate::asb::text_whole(#[trigger] v[i])
}

/// Checks that every record can be read and rebuilt as a text record without leaving it.
fn records_text_whole(instrs: &Vec<Instr>) -> (b: bool)
    ensures
        b == all_text_whole(instr_views(instrs@)),
{
    let mut i: usize = 0;
    while i < instrs.len()
        invariant
            i <= instrs@.len(),
            forall|j: int| 0 <= j < i ==> crate::asb::text_whole(#[trigger] instr_views(instrs@)[j]),
        decreases instrs@.len() - i,
    {
        assert(instr_views(instrs@)[i as int] == instrs@[i as int]@);
        if !crate::asb::text_record_whole(&instrs[i]) {
            return false;
        }
        i = i + 1;
    }
    true
}

/// The units of decrypted script `name` and the warnings for the records skipped, or the kind
/// of error.
pub open spec fn spec_extract_file(name: Seq<char>, raw: Seq<u8>) -> Result<(Seq<UnitView>, Seq<Seq<char>>), ErrorKind> {
    if !script_headers_fit(raw) {
        Err(ErrorKind::Format)
    } else {
        match spec_parse_script(raw) {
            ScriptParse::Parsed(v) => if !all_text_whole(v) {
                Err(ErrorKind::Format)
            } else {
                Ok((extracted_units(v, v.len() as int), skipped_warnings(name, v, v.len() as int)))
            },
            _ => Err(ErrorKind::Format),
        }
    }
}

/// The message of the error [`extract_file`] gives for script `name` (see
/// [`spec_extract_file`]).
pub open spec fn extract_file_refusal(name: Seq<char>, raw: Seq<u8>) -> Seq<char> {
    if !script_headers_fit(raw) {
        name + ": "@ + "a record header runs past the end of the script"@
    } else if spec_parse_script(raw) is Parsed {
        name + ": "@ + "a text record is shorter than its argument prefix"@
    } else {
        crate::asb::parse_refusal_from(raw, 0)
    }
}

/// Whether two byte strings are equal.
fn bytes_equal(a: &[u8], b: &[u8]) -> (r: bool)
    ensures
        r == (a@ == b@),
{
    if a.len() != b.len() {
        return false;
    }
    let mut i: usize = 0;
    while i < a.len()
        invariant
            i <= a@.len(),
            a@.len() == b@.len(),
            forall|j: int| 0 <= j < i ==> a@[j] == b@[j],
        decreases a@.len() - i,
    {
        if a[i] != b[i] {
            return false;
        }
        i = i + 1;
    }
    assert(a@ =~= b@);
    true
}

/// `n` empty strings.
fn empty_strings(n: usize) -> (r: Vec<String>)
    ensures
        string_views(r@) == empty_texts(n as nat),
{
    let mut r: Vec<String> = Vec::new();
    let mut i: usize = 0;
    while i < n
        invariant
            i <= n,
            string_views(r@) == empty_texts(i as nat),
        decreases n - i,
    {
        let ghost before = r@;
        let e = String::new();
        r.push(e);
        assert(string_views(r@) =~= empty_texts((i + 1) as nat)) by {
            assert(string_views(before.push(e)) =~= string_views(before).push(Seq::<char>::empty()));
        }
        i = i + 1;
    }
    r
}

/// Checks that every record can be read as a text record without leaving it.
fn records_text_fit(instrs: &Vec<Instr>) -> (b: bool)
    ensures
        b == all_text_fit(instr_views(instrs@)),
{
    let mut i: usize = 0;
    while i < instrs.len()
        invariant
            i <= instrs@.len(),
            forall|j: int| 0 <= j < i ==> text_fits(#[trigger] instr_views(instrs@)[j]),
        decreases instrs@.len() - i,
    {
        assert(instr_views(instrs@)[i as int] == instrs@[i as int]@);
        if !text_record_fits(&instrs[i]) {
            return false;
        }
        i = i + 1;
    }
    true
}

/// Builds the unit list for a single decrypted script. A text record that does not rebuild
/// byte for byte from its own texts is skipped, and a warning is added.
pub fn extract_file(name: &str, raw: &[u8], warnings: &mut Vec<String>) -> (r: Result<Vec<Unit>, PatchError>)
    ensures
        match spec_extract_file(name@, raw@) {
            Ok((units, added)) => r matches Ok(us) && unit_views(us@) == units
                && string_views(final(warnings)@) == string_views(old(warnings)@) + added,
            Err(k) => r matches Err(e) && e.kind() == k && e.message() == extract_file_refusal(name@, raw@)
                && final(warnings)@ == old(warnings)@,
        },
{
    if !headers_fit(raw) {
        return Err(script_error(name, "a record header runs past the end of the script"));
    }
    let instrs = match parse_script(raw) {
        Ok(v) => v,
        Err(e) => return Err(e),
    };
    let ghost v = instr_views(instrs@);
    if !records_text_whole(&instrs) {
        return Err(script_error(name, "a text record is shorter than its argument prefix"));
    }
    let ghost w0 = warnings@;
    let mut units: Vec<Unit> = Vec::new();
    let mut i: usize = 0;
    while i < instrs.len()
        invariant
            i <= instrs@.len(),
            v == instr_views(instrs@),
            all_text_whole(v),
            unit_views(units@) == extracted_units(v, i as int),
            string_views(warnings@) == string_views(w0) + skipped_warnings(name@, v, i as int),
        decreases instrs@.len() - i,
    {
        let ins = &instrs[i];
        assert(v[i as int] == ins@);
        assert(text_fits(v[i as int]));
        let (kind, _, strings) = match read_strings(ins) {
            Some(x) => x,
            None => {
                i = i + 1;
                continue;
            },
        };
        let ghost segs = text_segments(ins@).unwrap();
        let same = match rebuild_instr(ins, strings.as_slice()) {
            Ok(rebuilt) => bytes_equal(rebuilt.raw.as_slice(), ins.raw.as_slice()),
            Err(_) => false,
        };
        if !same {
            let at = crate::text::format_offset(ins.start);
            let op = crate::text::format_offset(ins.op as usize);
            let m = concat3(name, "@", at.as_str());
            let m = concat3(m.as_str(), " (op ", op.as_str());
            let ghost before = warnings@;
            let w = concat(m.as_str(), ") does not round-trip; skipped");
            warnings.push(w);
            proof {
                assert(w@ == roundtrip_warning(name@, v[i as int]));
                assert(string_views(before.push(w)) =~= string_views(before).push(w@));
                assert(string_views(warnings@) =~= string_views(w0) + skipped_warnings(name@, v, i + 1));
            }
            i = i + 1;
            continue;
        }
        proof {
            let args = ins@.raw.skip(8);
            crate::asb::lemma_nul_strings_len(args, 16, crate::asb::string_count(ins@));
        }
        let offset = crate::text::format_offset(ins.start);
        let kind_text = String::from_str(kind);
        let unit = if ins.op == 0x0d {
            let n = strings.len();
            let en = empty_strings(n);
            Unit {
                offset,
                kind: kind_text,
                jp: StrOrList::Many(strings),
                en: Some(StrOrList::Many(en)),
            }
        } else {
            let first = strings[0].clone();
            Unit {
                offset,
                kind: kind_text,
                jp: StrOrList::One(first),
                en: Some(StrOrList::One(String::new())),
            }
        };
        assert(unit@ == record_unit(v[i as int]));
        let ghost before = units@;
        units.push(unit);
        assert(unit_views(units@) =~= unit_views(before).push(unit@));
        i = i + 1;
    }
    Ok(units)
}

// ---------------------------------------------------------------------------
// Whole archives
// ---------------------------------------------------------------------------
/// `n`, or `usize::MAX` when it does not fit.
pub open spec fn capped(n: nat) -> usize {
    if n > usize::MAX {
        usize::MAX
    } else {
        n as usize
    }
}

// ---------------------------------------------------------------------------
// Untranslated documents change nothing
// ---------------------------------------------------------------------------
/// In the start index of records with increasing starts, each record's start names it.
proof fn lemma_start_index_finds(v: Seq<InstrView>, n: int, i: int)
    requires
        0 <= i < n <= v.len(),
        forall|a: int, b: int| 0 <= a < b < v.len() ==> (#[trigger] v[a]).start < (#[trigger] v[b]).start,
        forall|a: int| 0 <= a < v.len() ==> (#[trigger] v[a]).start >= a,
    ensures
        start_index(v, n).contains_key(v[i].start),
        start_index(v, n)[v[i].start] == i,
    decreases n,
{
    assert(v[n - 1].start >= n - 1);
    if i < n - 1 {
        lemma_start_index_finds(v, n - 1, i);
        assert(v[i].start < v[n - 1].start);
    }
}

/// The untranslated unit of a record leaves the records as they are.
proof fn lemma_record_unit_step(v: Seq<InstrView>, starts: Map<usize, usize>, i: int)
    requires
        0 <= i < v.len(),
        starts.contains_key(v[i].start),
        starts[v[i].start] == i,
        text_fits(v[i]),
        text_segments(v[i]) is Some,
        record_roundtrips(v[i]),
    ensures
        unit_step(v, starts, record_unit(v[i])) == Ok::<Seq<InstrView>, ErrorKind>(v),
{
    let r = v[i];
    let u = record_unit(r);
    let texts = decoded_strings(text_segments(r).unwrap());
    crate::text::lemma_offset_roundtrip(r.start as nat);
    crate::asb::lemma_text_segments_len(r);
    if r.op != 0x0d {
        assert(texts_list(u.jp) =~= texts);
    }
    let jp = texts_list(u.jp);
    let en = unit_en(u);
    assert(jp == texts);
    assert(forall|k: int| 0 <= k < en.len() ==> (#[trigger] en[k]).len() == 0);
    let picked = Seq::new(jp.len(), |k: int| chosen_text(jp, en, k));
    assert(picked =~= texts);
    assert(crate::asb::all_encodable(texts));
    assert(spec_pick(u) == Ok::<Seq<Seq<char>>, ()>(texts));
}

/// Applying units only reads as many of them as it applies.
proof fn lemma_apply_units_push(v0: Seq<InstrView>, starts: Map<usize, usize>, units: Seq<UnitView>, u: UnitView, k: int)
    requires
        0 <= k <= units.len(),
    ensures
        apply_units(v0, starts, units.push(u), k) == apply_units(v0, starts, units, k),
    decreases k,
{
    if k > 0 {
        lemma_apply_units_push(v0, starts, units, u, k - 1);
        assert(units.push(u)[k - 1] == units[k - 1]);
    }
}

/// Applying the untranslated units of the first `n` records leaves the records as they are.
proof fn lemma_apply_extracted(v: Seq<InstrView>, n: int)
    requires
        0 <= n <= v.len(),
        all_text_fit(v),
        forall|i: int| 0 <= i < v.len() ==> start_index(v, v.len() as int).contains_key(#[trigger] v[i].start)
            && start_index(v, v.len() as int)[v[i].start] == i,
    ensures
        apply_units(v, start_index(v, v.len() as int), extracted_units(v, n), extracted_units(v, n).len() as int)
            == Ok::<Seq<InstrView>, ErrorKind>(v),
    decreases n,
{
    if n > 0 {
        lemma_apply_extracted(v, n - 1);
        let starts = start_index(v, v.len() as int);
        let prev = extracted_units(v, n - 1);
        if text_segments(v[n - 1]) is Some && record_roundtrips(v[n - 1]) {
            let u = record_unit(v[n - 1]);
            lemma_apply_units_push(v, starts, prev, u, prev.len() as int);
            assert(prev.push(u)[prev.len() as int] == u);
            assert(text_fits(v[n - 1]));
            lemma_record_unit_step(v, starts, n - 1);
        }
    }
}

/// Patching a script with the units extracted from it, left untranslated, gives the script back
/// byte for byte, when each of its jumps carries a target that is the start of a record.
pub proof fn lemma_untranslated_patch(name: Seq<char>, raw: Seq<u8>)
    requires
        raw.len() <= usize::MAX,
        spec_extract_file(name, raw) is Ok,
        rebuild_fits(spec_parse_script(raw)->Parsed_0),
        crate::asb::jumps_land(spec_parse_script(raw)->Parsed_0),
    ensures
        spec_patch_script(raw, spec_extract_file(name, raw)->Ok_0.0) == Ok::<Seq<u8>, ErrorKind>(raw),
{
    let v = spec_parse_script(raw)->Parsed_0;
    crate::asb::lemma_parsed_starts_increase(raw);
    assert forall|i: int| 0 <= i < v.len() implies start_index(v, v.len() as int).contains_key(#[trigger] v[i].start)
        && start_index(v, v.len() as int)[v[i].start] == i by {
        lemma_start_index_finds(v, v.len() as int, i);
    }
    lemma_apply_extracted(v, v.len() as int);
    crate::asb::lemma_rebuild_unchanged_script(raw);
}

/// The files of a document: each name with its units, or the reason they did not read.
pub open spec fn doc_files(files: Seq<FileUnits>) -> Seq<(Seq<char>, Result<Seq<UnitView>, Seq<char>>)> {
    files.map_values(
        |f: FileUnits|
            (
                f.name@,
                match &f.units {
                    Ok(us) => Ok(unit_views(us@)),
                    Err(m) => Err(m@),
                },
            ),
    )
}

/// The index of the first file named `name`.
pub open spec fn find_file<T>(files: Seq<(Seq<char>, T)>, name: Seq<char>) -> Option<int>
    decreases files.len(),
{
    if files.len() == 0 {
        None
    } else {
        match find_file(files.drop_last(), name) {
            Some(i) => Some(i),
            None => if files.last().0 == name {
                Some(files.len() - 1)
            } else {
                None
            },
        }
    }
}

/// Whether an entry passes the self check: it is not a script, or it decrypts and its records
/// parse and can be read.
pub open spec fn entry_verifies(e: ArcEntryView) -> bool {
    !crate::text::spec_has_asb_extension(e.name) || {
        &&& asb_fits(e.data)
        &&& spec_decrypt_asb(e.data, TRIPTYCH_KEY) matches Ok(raw) && {
            &&& script_headers_fit(raw)
            &&& spec_parse_script(raw) matches ScriptParse::Parsed(v) && all_text_fit(v)
        }
    }
}

/// Whether an archive passes the self check.
pub open spec fn archive_verifies(blob: Seq<u8>) -> bool {
    &&& blob.len() >= 0x30
    &&& arc_loadable(blob)
    &&& forall|i: int| 0 <= i < arc_entries(blob).len() ==> entry_verifies(#[trigger] arc_entries(blob)[i])
}

/// The message of the error for an archive that cannot be loaded.
pub open spec fn archive_refusal(blob: Seq<u8>) -> Seq<char> {
    if blob.len() < 0x30 {
        "ARC file too small"@
    } else {
        "inconsistent ARC layout"@
    }
}

/// The message of the error for a script entry whose container cannot be read.
pub open spec fn container_refusal(e: ArcEntryView) -> Seq<char> {
    if !asb_fits(e.data) {
        e.name + ": "@ + "ASB payload runs past the entry"@
    } else {
        crate::azsys::decrypt_refusal(e.data, TRIPTYCH_KEY)
    }
}

/// Whether an archive can be loaded, refusing what [`Arc::load`] does not accept.
fn load_archive(blob: &[u8]) -> (r: Result<Arc, PatchError>)
    ensures
        blob@.len() >= 0x30 && arc_loadable(blob@) ==> (r matches Ok(arc) && entry_views(arc.entries@)
            == arc_entries(blob@) && arc.header@ == blob@.take(0x30)),
        !(blob@.len() >= 0x30 && arc_loadable(blob@)) ==> (r matches Err(e) && e is Format && e.message()
            == archive_refusal(blob@)),
{
    Arc::load_checked(blob)
}

/// The number of scripts (entries whose names end in `.asb`) among the first `n` entries.
pub open spec fn script_count(entries: Seq<ArcEntryView>, n: int) -> nat
    decreases n,
{
    if n <= 0 {
        0
    } else {
        script_count(entries, n - 1) + if crate::text::spec_has_asb_extension(entries[n - 1].name) {
            1nat
        } else {
            0
        }
    }
}

/// Entries with the same names hold as many scripts.
proof fn lemma_script_count_names(a: Seq<ArcEntryView>, b: Seq<ArcEntryView>, n: int)
    requires
        0 <= n <= a.len(),
        a.len() == b.len(),
        forall|i: int| 0 <= i < a.len() ==> (#[trigger] a[i]).name == b[i].name,
    ensures
        script_count(a, n) == script_count(b, n),
    decreases n,
{
    if n > 0 {
        lemma_script_count_names(a, b, n - 1);
    }
}

/// Whether the first `n` entries pass the self check.
pub open spec fn entries_verify(entries: Seq<ArcEntryView>, n: int) -> bool {
    forall|j: int| 0 <= j < n ==> entry_verifies(#[trigger] entries[j])
}

/// The message of the error met when checking the first `n` entries: that of the first entry
/// that fails, which is the message extracting it would give.
pub open spec fn verify_entries_refusal(entries: Seq<ArcEntryView>, n: int) -> Seq<char>
    decreases n,
{
    if n <= 0 {
        Seq::empty()
    } else if !entries_verify(entries, n - 1) {
        verify_entries_refusal(entries, n - 1)
    } else {
        extract_entry_refusal(entries[n - 1])
    }
}

/// The message of the error [`verify`] gives for an archive.
pub open spec fn verify_refusal(blob: Seq<u8>) -> Seq<char> {
    if !(blob.len() >= 0x30 && arc_loadable(blob)) {
        archive_refusal(blob)
    } else {
        verify_entries_refusal(arc_entries(blob), arc_entries(blob).len() as int)
    }
}

proof fn lemma_verify_refusal_stays(entries: Seq<ArcEntryView>, i: int, n: int)
    requires
        0 <= i < n <= entries.len(),
        entries_verify(entries, i),
        !entry_verifies(entries[i]),
    ensures
        verify_entries_refusal(entries, n) == extract_entry_refusal(entries[i]),
    decreases n - i,
{
    if n > i + 1 {
        assert(!entries_verify(entries, n - 1));
        lemma_verify_refusal_stays(entries, i, n - 1);
    }
}

/// Decrypts and re-parses every script of an archive, returning the number of scripts checked;
/// used as a self check after a build.
pub fn verify(arc_bytes: &[u8]) -> (r: Result<usize, PatchError>)
    ensures
        r is Ok <==> archive_verifies(arc_bytes@),
        r matches Ok(n) ==> n == script_count(arc_entries(arc_bytes@), arc_entries(arc_bytes@).len() as int),
        r matches Err(e) ==> e is Format && e.message() == verify_refusal(arc_bytes@),
{
    let arc = match load_archive(arc_bytes) {
        Ok(a) => a,
        Err(e) => return Err(e),
    };
    let ghost ev = entry_views(arc.entries@);
    let n = arc.entries.len();
    let mut scripts: usize = 0;
    let mut i: usize = 0;
    while i < n
        invariant
            i <= n,
            n == arc.entries@.len(),
            ev == entry_views(arc.entries@),
            ev == arc_entries(arc_bytes@),
            arc_bytes@.len() >= 0x30,
            arc_loadable(arc_bytes@),
            forall|j: int| 0 <= j < i ==> entry_verifies(#[trigger] ev[j]),
            verify_refusal(arc_bytes@) == verify_entries_refusal(ev, n as int),
            scripts == script_count(ev, i as int),
            scripts <= i,
        decreases n - i,
    {
        let e = &arc.entries[i];
        assert(ev[i as int] == e@);
        if !crate::text::has_asb_extension(e.name.as_str()) {
            i = i + 1;
            continue;
        }
        proof {
            assert(entries_verify(ev, i as int));
            if !entry_verifies(ev[i as int]) {
                lemma_verify_refusal_stays(ev, i as int, n as int);
            }
        }
        if !asb_payload_fits(e.data.as_slice()) {
            return Err(PatchError::Format(concat3(e.name.as_str(), ": ", "ASB payload runs past the entry")));
        }
        let raw = match decrypt_asb(e.data.as_slice(), TRIPTYCH_KEY) {
            Ok(r) => r,
            Err(err) => return Err(err),
        };
        if !headers_fit(raw.as_slice()) {
            return Err(script_error(e.name.as_str(), "a record header runs past the end of the script"));
        }
        let instrs = match parse_script(raw.as_slice()) {
            Ok(v) => v,
            Err(err) => return Err(err),
        };
        if !records_text_fit(&instrs) {
            return Err(script_error(e.name.as_str(), "a text record is shorter than its argument prefix"));
        }
        let mut k: usize = 0;
        while k < instrs.len()
            invariant
                k <= instrs@.len(),
                all_text_fit(instr_views(instrs@)),
            decreases instrs@.len() - k,
        {
            assert(instr_views(instrs@)[k as int] == instrs@[k as int]@);
            let _ = read_strings(&instrs[k]);
            k = k + 1;
        }
        scripts = scripts + 1;
        i = i + 1;
    }
    Ok(scripts)
}

// ---------------------------------------------------------------------------
// Extracting an archive
// ---------------------------------------------------------------------------
/// The text extracted so far: the files with units, in first-seen order, the number of units,
/// and the warnings for the records skipped.
pub struct ExtractAcc {
    pub files: Seq<(Seq<char>, Seq<UnitView>)>,
    pub total: nat,
    pub warnings: Seq<Seq<char>>,
}

/// `files` with `name` set to `units`: in place when the name is already there, at the end
/// otherwise.
pub open spec fn insert_file(files: Seq<(Seq<char>, Seq<UnitView>)>, name: Seq<char>, units: Seq<UnitView>) -> Seq<(Seq<char>, Seq<UnitView>)> {
    match find_file(files, name) {
        Some(i) => files.update(i, (name, units)),
        None => files.push((name, units)),
    }
}

/// Extracts one archive entry: scripts (names ending in `.asb`) are decrypted and their units
/// added when there are any.
pub open spec fn extract_entry(acc: ExtractAcc, e: ArcEntryView) -> Result<ExtractAcc, ErrorKind> {
    if !crate::text::spec_has_asb_extension(e.name) {
        Ok(acc)
    } else if !asb_fits(e.data) {
        Err(ErrorKind::Format)
    } else {
        match spec_decrypt_asb(e.data, TRIPTYCH_KEY) {
            Err(_) => Err(ErrorKind::Format),
            Ok(raw) => match spec_extract_file(e.name, raw) {
                Err(k) => Err(k),
                Ok((units, added)) => Ok(
                    ExtractAcc {
                        files: if units.len() == 0 {
                            acc.files
                        } else {
                            insert_file(acc.files, e.name, units)
                        },
                        total: acc.total + units.len(),
                        warnings: acc.warnings + added,
                    },
                ),
            },
        }
    }
}

/// Extracts the first `n` entries in order.
pub open spec fn extract_entries(entries: Seq<ArcEntryView>, n: int) -> Result<ExtractAcc, ErrorKind>
    decreases n,
{
    if n <= 0 {
        Ok(ExtractAcc { files: Seq::empty(), total: 0, warnings: Seq::empty() })
    } else {
        match extract_entries(entries, n - 1) {
            Ok(acc) => extract_entry(acc, entries[n - 1]),
            Err(k) => Err(k),
        }
    }
}

/// The message of the error met when extracting entry `e` (see [`extract_entry`]).
pub open spec fn extract_entry_refusal(e: ArcEntryView) -> Seq<char> {
    match spec_decrypt_asb(e.data, TRIPTYCH_KEY) {
        Ok(raw) => if asb_fits(e.data) {
            extract_file_refusal(e.name, raw)
        } else {
            container_refusal(e)
        },
        Err(_) => container_refusal(e),
    }
}

/// The message of the error met when extracting the first `n` entries: that of the first
/// entry that fails.
pub open spec fn extract_entries_refusal(entries: Seq<ArcEntryView>, n: int) -> Seq<char>
    decreases n,
{
    if n <= 0 {
        Seq::empty()
    } else {
        match extract_entries(entries, n - 1) {
            Ok(_) => extract_entry_refusal(entries[n - 1]),
            Err(_) => extract_entries_refusal(entries, n - 1),
        }
    }
}

/// The message of the error [`extract`] gives for an archive.
pub open spec fn extract_refusal(blob: Seq<u8>) -> Seq<char> {
    if !(blob.len() >= 0x30 && arc_loadable(blob)) {
        archive_refusal(blob)
    } else {
        extract_entries_refusal(arc_entries(blob), arc_entries(blob).len() as int)
    }
}

proof fn lemma_extract_refusal_stays(entries: Seq<ArcEntryView>, j: int, n: int)
    requires
        0 <= j <= n,
        extract_entries(entries, j) is Err,
    ensures
        extract_entries_refusal(entries, n) == extract_entries_refusal(entries, j),
    decreases n - j,
{
    if j < n {
        lemma_extract_err_stays(entries, j, n - 1);
        lemma_extract_refusal_stays(entries, j, n - 1);
    }
}

/// What extracting an archive gives, or the kind of error.
pub open spec fn spec_extract(blob: Seq<u8>) -> Result<ExtractAcc, ErrorKind> {
    if !(blob.len() >= 0x30 && arc_loadable(blob)) {
        Err(ErrorKind::Format)
    } else {
        extract_entries(arc_entries(blob), arc_entries(blob).len() as int)
    }
}

/// The files of an extracted document: every unit list read.
pub open spec fn extracted_files(files: Seq<(Seq<char>, Seq<UnitView>)>) -> Seq<(Seq<char>, Result<Seq<UnitView>, Seq<char>>)> {
    files.map_values(|f: (Seq<char>, Seq<UnitView>)| (f.0, Ok(f.1)))
}

proof fn lemma_extract_err_stays(entries: Seq<ArcEntryView>, j: int, n: int)
    requires
        0 <= j <= n,
        extract_entries(entries, j) is Err,
    ensures
        extract_entries(entries, n) == extract_entries(entries, j),
    decreases n - j,
{
    if j < n {
        lemma_extract_err_stays(entries, j, n - 1);
    }
}

/// The index of the first file named `name`.
fn find_file_exec(files: &Vec<FileUnits>, name: &String) -> (r: Option<usize>)
    ensures
        r matches Some(i) ==> find_file(doc_files(files@), name@) == Some(i as int),
        r is None ==> find_file(doc_files(files@), name@) is None,
{
    let ghost d = doc_files(files@);
    let mut i: usize = 0;
    while i < files.len()
        invariant
            i <= files@.len(),
            d == doc_files(files@),
            find_file(d.take(i as int), name@) is None,
        decreases files@.len() - i,
    {
        assert(d.take(i + 1).drop_last() =~= d.take(i as int));
        assert(d.take(i + 1).last() == d[i as int]);
        if files[i].name == *name {
            proof {
                assert(d[i as int].0 == name@);
                assert(find_file(d.take(i + 1), name@) == Some(i as int));
                lemma_find_file_prefix_name(d, i + 1, d.len() as int, name@);
                assert(d.take(d.len() as int) =~= d);
            }
            return Some(i);
        }
        i = i + 1;
    }
    assert(d.take(files@.len() as int) =~= d);
    None
}

/// Looking up a name in a prefix that has it gives the same answer as in a longer prefix.
proof fn lemma_find_file_prefix_name<T>(files: Seq<(Seq<char>, T)>, k: int, m: int, name: Seq<char>)
    requires
        0 <= k <= m <= files.len(),
        find_file(files.take(k), name) is Some,
    ensures
        find_file(files.take(m), name) == find_file(files.take(k), name),
    decreases m - k,
{
    if k < m {
        lemma_find_file_prefix_name(files, k, m - 1, name);
        assert(files.take(m).drop_last() =~= files.take(m - 1));
    }
}

proof fn lemma_find_file_bounds<T>(files: Seq<(Seq<char>, T)>, name: Seq<char>)
    ensures
        find_file(files, name) matches Some(i) ==> 0 <= i < files.len() && files[i].0 == name,
    decreases files.len(),
{
    if files.len() > 0 {
        lemma_find_file_bounds(files.drop_last(), name);
    }
}

proof fn lemma_find_file_names<A, B>(a: Seq<(Seq<char>, A)>, b: Seq<(Seq<char>, B)>, name: Seq<char>)
    requires
        a.len() == b.len(),
        forall|i: int| 0 <= i < a.len() ==> (#[trigger] a[i]).0 == b[i].0,
    ensures
        find_file(a, name) == find_file(b, name),
    decreases a.len(),
{
    if a.len() > 0 {
        lemma_find_file_names(a.drop_last(), b.drop_last(), name);
        assert(a.last().0 == b[b.len() - 1].0);
    }
}

/// Whether no two files share a name.
pub open spec fn names_unique<T>(files: Seq<(Seq<char>, T)>) -> bool {
    forall|i: int, j: int| 0 <= i < j < files.len() ==> (#[trigger] files[i]).0 != (#[trigger] files[j]).0
}

proof fn lemma_find_file_none<T>(files: Seq<(Seq<char>, T)>, name: Seq<char>)
    ensures
        find_file(files, name) is None ==> forall|k: int| 0 <= k < files.len() ==> (#[trigger] files[k]).0 != name,
    decreases files.len(),
{
    if files.len() > 0 {
        lemma_find_file_none(files.drop_last(), name);
        if find_file(files, name) is None {
            assert forall|k: int| 0 <= k < files.len() implies (#[trigger] files[k]).0 != name by {
                if k < files.len() - 1 {
                    assert(files.drop_last()[k] == files[k]);
                }
            }
        }
    }
}

/// Setting the units of a name keeps the names of the files distinct.
proof fn lemma_insert_file_unique(files: Seq<(Seq<char>, Seq<UnitView>)>, name: Seq<char>, units: Seq<UnitView>)
    requires
        names_unique(files),
    ensures
        names_unique(insert_file(files, name, units)),
{
    lemma_find_file_bounds(files, name);
    lemma_find_file_none(files, name);
    let nf = insert_file(files, name, units);
    assert forall|i: int, j: int| 0 <= i < j < nf.len() implies (#[trigger] nf[i]).0 != (#[trigger] nf[j]).0 by {
        if find_file(files, name) is None {
            if j < files.len() {
                assert(nf[i] == files[i] && nf[j] == files[j]);
            } else {
                assert(nf[i] == files[i]);
            }
        } else {
            let k = find_file(files, name).unwrap();
            assert(nf[i].0 == files[i].0);
            assert(nf[j].0 == files[j].0);
        }
    }
}

/// Sets the units of `name` in `files`: in place when the name is there, at the end otherwise.
fn put_file(
    files: &mut Vec<FileUnits>,
    name: &String,
    units: Vec<Unit>,
    Ghost(af): Ghost<Seq<(Seq<char>, Seq<UnitView>)>>,
)
    requires
        doc_files(old(files)@) == extracted_files(af),
    ensures
        doc_files(final(files)@) == extracted_files(insert_file(af, name@, unit_views(units@))),
{
    proof {
        lemma_find_file_names(doc_files(files@), af, name@);
        lemma_find_file_bounds(doc_files(files@), name@);
    }
    let ghost uv = unit_views(units@);
    let ghost before = files@;
    let f = FileUnits { name: name.clone(), units: Ok(units) };
    assert(doc_files(seq![f])[0] == (name@, Ok::<Seq<UnitView>, Seq<char>>(uv)));
    match find_file_exec(files, name) {
        Some(j) => {
            files.set(j, f);
            assert(files@ == before.update(j as int, f));
            assert(doc_files(files@) =~= doc_files(before).update(j as int, (name@, Ok(uv))));
            assert(extracted_files(af.update(j as int, (name@, uv))) =~= extracted_files(af).update(
                j as int,
                (name@, Ok(uv)),
            ));
        },
        None => {
            files.push(f);
            assert(doc_files(files@) =~= doc_files(before).push((name@, Ok(uv))));
            assert(extracted_files(af.push((name@, uv))) =~= extracted_files(af).push((name@, Ok(uv))));
        },
    }
}

/// The text recorded as the game of an extracted document.
pub open spec fn game_title() -> Seq<char> {
    "Triptych (2014 Download Edition)"@
}

/// The note recorded in an extracted document.
pub open spec fn translator_note() -> Seq<char> {
    "Fill \"en\" to translate; empty keeps Japanese. For \"choice\" units, \"en\" is a list matching \"jp\"."@
}

/// Extracts every translatable text unit of an archive into a document, whose metadata records
/// `source_label` as the archive's name. Scripts are taken in archive order; a script without
/// units is left out, and a script name seen again replaces the units of the first in place.
#[verifier::spinoff_prover]
#[verifier::rlimit(50)]
pub fn extract(arc_bytes: &[u8], source_label: &str) -> (r: Result<(Document, ExtractStats), PatchError>)
    ensures
        match spec_extract(arc_bytes@) {
            Ok(acc) => r matches Ok((doc, stats)) && {
                &&& doc_files(doc.files@) == extracted_files(acc.files)
                &&& doc.meta.source@ == source_label@
                &&& doc.meta.game@ == game_title()
                &&& doc.meta.note@ == translator_note()
                &&& stats.total_units == capped(acc.total)
                &&& stats.file_count == acc.files.len()
                &&& string_views(stats.warnings@) == acc.warnings
                &&& names_unique(doc_files(doc.files@))
            },
            Err(k) => r matches Err(e) && e.kind() == k && e.message() == extract_refusal(arc_bytes@),
        },
{
    let arc = match load_archive(arc_bytes) {
        Ok(a) => a,
        Err(e) => return Err(e),
    };
    let ghost ev = entry_views(arc.entries@);
    let n = arc.entries.len();
    let mut warnings: Vec<String> = Vec::new();
    let mut files: Vec<FileUnits> = Vec::new();
    let mut total: usize = 0;
    let ghost mut acc = ExtractAcc { files: Seq::empty(), total: 0, warnings: Seq::empty() };
    assert(doc_files(files@) =~= extracted_files(acc.files));
    let mut i: usize = 0;
    while i < n
        invariant
            i <= n,
            n == arc.entries@.len(),
            ev == entry_views(arc.entries@),
            ev == arc_entries(arc_bytes@),
            spec_extract(arc_bytes@) == extract_entries(ev, n as int),
            extract_refusal(arc_bytes@) == extract_entries_refusal(ev, n as int),
            extract_entries(ev, i as int) == Ok::<ExtractAcc, ErrorKind>(acc),
            names_unique(acc.files),
            doc_files(files@) == extracted_files(acc.files),
            total == capped(acc.total),
            string_views(warnings@) == acc.warnings,
        decreases n - i,
    {
        let e = &arc.entries[i];
        assert(ev[i as int] == e@);
        if !crate::text::has_asb_extension(e.name.as_str()) {
            i = i + 1;
            continue;
        }
        if !asb_payload_fits(e.data.as_slice()) {
            proof {
                lemma_extract_err_stays(ev, i + 1, n as int);
                lemma_extract_refusal_stays(ev, i + 1, n as int);
            }
            return Err(PatchError::Format(concat3(e.name.as_str(), ": ", "ASB payload runs past the entry")));
        }
        let raw = match decrypt_asb(e.data.as_slice(), TRIPTYCH_KEY) {
            Ok(r) => r,
            Err(err) => {
                proof {
                    lemma_extract_err_stays(ev, i + 1, n as int);
                    lemma_extract_refusal_stays(ev, i + 1, n as int);
                }
                return Err(err);
            },
        };
        let ghost w_before = warnings@;
        let units = match extract_file(e.name.as_str(), raw.as_slice(), &mut warnings) {
            Ok(u) => u,
            Err(err) => {
                proof {
                    lemma_extract_err_stays(ev, i + 1, n as int);
                    lemma_extract_refusal_stays(ev, i + 1, n as int);
                }
                return Err(err);
            },
        };
        let ghost uv = unit_views(units@);
        let count = units.len();
        if count != 0 {
            put_file(&mut files, &e.name, units, Ghost(acc.files));
        }
        total = total.saturating_add(count);
        proof {
            assert(extract_entry(acc, ev[i as int]) == Ok::<ExtractAcc, ErrorKind>(ExtractAcc {
                files: if uv.len() == 0 {
                    acc.files
                } else {
                    insert_file(acc.files, e@.name, uv)
                },
                total: acc.total + uv.len(),
                warnings: string_views(warnings@),
            }));
            if uv.len() != 0 {
                lemma_insert_file_unique(acc.files, e@.name, uv);
            }
            acc = ExtractAcc {
                files: if uv.len() == 0 {
                    acc.files
                } else {
                    insert_file(acc.files, e@.name, uv)
                },
                total: acc.total + uv.len(),
                warnings: string_views(warnings@),
            };
        }
        i = i + 1;
    }
    let file_count = files.len();
    let doc = Document {
        meta: Meta {
            game: String::from_str("Triptych (2014 Download Edition)"),
            source: String::from_str(source_label),
            note: String::from_str(
                "Fill \"en\" to translate; empty keeps Japanese. For \"choice\" units, \"en\" is a list matching \"jp\".",
            ),
        },
        files,
    };
    assert(doc_files(doc.files@).len() == file_count);
    assert forall|a: int, b: int| 0 <= a < b < doc_files(doc.files@).len() implies (#[trigger] doc_files(
        doc.files@,
    )[a]).0 != (#[trigger] doc_files(doc.files@)[b]).0 by {
        assert(doc_files(doc.files@)[a] == extracted_files(acc.files)[a]);
        assert(doc_files(doc.files@)[b] == extracted_files(acc.files)[b]);
        assert(acc.files[a].0 != acc.files[b].0);
    }
    Ok((doc, ExtractStats { total_units: total, file_count, warnings }))
}

// ---------------------------------------------------------------------------
// Building an archive
// ---------------------------------------------------------------------------
/// What a document makes of one archive entry: its new data, the number of its units that carry
/// a translation, and whether it changed. An entry the document does not name is kept; a named
/// entry is decrypted, patched, and encrypted again when its script changed.
pub open spec fn build_entry(files: Seq<(Seq<char>, Result<Seq<UnitView>, Seq<char>>)>, e: ArcEntryView) -> Result<(Seq<u8>, nat, bool), ErrorKind> {
    match find_file(files, e.name) {
        None => Ok((e.data, 0, false)),
        Some(i) => match files[i].1 {
            Err(_) => Err(ErrorKind::Format),
            Ok(units) => if !asb_fits(e.data) {
                Err(ErrorKind::Format)
            } else {
                match spec_decrypt_asb(e.data, TRIPTYCH_KEY) {
                    Err(_) => Err(ErrorKind::Format),
                    Ok(raw) => match spec_patch_script(raw, units) {
                        Err(k) => Err(k),
                        Ok(new_raw) => if new_raw == raw {
                            Ok((e.data, translated_count(units, units.len() as int), false))
                        } else {
                            Ok(
                                (
                                    spec_encrypt_asb(new_raw, TRIPTYCH_KEY),
                                    translated_count(units, units.len() as int),
                                    true,
                                ),
                            )
                        },
                    },
                }
            },
        },
    }
}

/// The entries built so far, the number of translated units and of changed scripts.
pub struct BuildAcc {
    pub entries: Seq<ArcEntryView>,
    pub translated: nat,
    pub patched: nat,
}

/// Builds the first `n` entries in order.
pub open spec fn build_entries(files: Seq<(Seq<char>, Result<Seq<UnitView>, Seq<char>>)>, entries: Seq<ArcEntryView>, n: int) -> Result<BuildAcc, ErrorKind>
    decreases n,
{
    if n <= 0 {
        Ok(BuildAcc { entries: Seq::empty(), translated: 0, patched: 0 })
    } else {
        match build_entries(files, entries, n - 1) {
            Err(k) => Err(k),
            Ok(acc) => match build_entry(files, entries[n - 1]) {
                Err(k) => Err(k),
                Ok((data, t, changed)) => Ok(
                    BuildAcc {
                        entries: acc.entries.push(ArcEntryView { data, ..entries[n - 1] }),
                        translated: acc.translated + t,
                        patched: acc.patched + if changed {
                            1nat
                        } else {
                            0
                        },
                    },
                ),
            },
        }
    }
}

/// The message of the error met when building entry `e` (see [`build_entry`]).
pub open spec fn build_entry_refusal(files: Seq<(Seq<char>, Result<Seq<UnitView>, Seq<char>>)>, e: ArcEntryView) -> Seq<char> {
    match find_file(files, e.name) {
        None => Seq::empty(),
        Some(i) => match files[i].1 {
            Err(m) => "bad units for "@ + e.name + ": "@ + m,
            Ok(units) => match spec_decrypt_asb(e.data, TRIPTYCH_KEY) {
                Ok(raw) => if asb_fits(e.data) {
                    patch_refusal(e.name, raw, units)
                } else {
                    container_refusal(e)
                },
                Err(_) => container_refusal(e),
            },
        },
    }
}

/// The message of the error met when building the first `n` entries: that of the first entry
/// that fails.
pub open spec fn build_entries_refusal(
    files: Seq<(Seq<char>, Result<Seq<UnitView>, Seq<char>>)>,
    entries: Seq<ArcEntryView>,
    n: int,
) -> Seq<char>
    decreases n,
{
    if n <= 0 {
        Seq::empty()
    } else {
        match build_entries(files, entries, n - 1) {
            Ok(_) => build_entry_refusal(files, entries[n - 1]),
            Err(_) => build_entries_refusal(files, entries, n - 1),
        }
    }
}

/// The message of the error [`build`] gives for a document and source archive bytes.
pub open spec fn build_refusal(files: Seq<(Seq<char>, Result<Seq<UnitView>, Seq<char>>)>, blob: Seq<u8>) -> Seq<char> {
    if !(blob.len() >= 0x30 && arc_loadable(blob)) {
        archive_refusal(blob)
    } else {
        build_entries_refusal(files, arc_entries(blob), arc_entries(blob).len() as int)
    }
}

proof fn lemma_build_refusal_stays(
    files: Seq<(Seq<char>, Result<Seq<UnitView>, Seq<char>>)>,
    entries: Seq<ArcEntryView>,
    j: int,
    n: int,
)
    requires
        0 <= j <= n,
        build_entries(files, entries, j) is Err,
    ensures
        build_entries_refusal(files, entries, n) == build_entries_refusal(files, entries, j),
    decreases n - j,
{
    if j < n {
        lemma_build_err_stays(files, entries, j, n - 1);
        lemma_build_refusal_stays(files, entries, j, n - 1);
    }
}

/// The archive a document makes of source archive bytes, with the number of translated units
/// and of changed scripts, or the kind of error.
pub open spec fn spec_build(files: Seq<(Seq<char>, Result<Seq<UnitView>, Seq<char>>)>, blob: Seq<u8>) -> Result<(Seq<u8>, nat, nat), ErrorKind> {
    if !(blob.len() >= 0x30 && arc_loadable(blob)) {
        Err(ErrorKind::Format)
    } else {
        match build_entries(files, arc_entries(blob), arc_entries(blob).len() as int) {
            Ok(acc) => Ok((spec_save(blob.take(0x30), acc.entries), acc.translated, acc.patched)),
            Err(k) => Err(k),
        }
    }
}

proof fn lemma_build_err_stays(
    files: Seq<(Seq<char>, Result<Seq<UnitView>, Seq<char>>)>,
    entries: Seq<ArcEntryView>,
    j: int,
    n: int,
)
    requires
        0 <= j <= n,
        build_entries(files, entries, j) is Err,
    ensures
        build_entries(files, entries, n) == build_entries(files, entries, j),
    decreases n - j,
{
    if j < n {
        lemma_build_err_stays(files, entries, j, n - 1);
    }
}

/// What a document makes of one entry, as new data, the translated count and whether it changed.
fn build_entry_exec(doc: &Document, e: &ArcEntry) -> (r: Result<(Vec<u8>, usize, bool), PatchError>)
    ensures
        match build_entry(doc_files(doc.files@), e@) {
            Ok((d, t, c)) => r matches Ok((rd, rt, rc)) && rd@ == d && rt == t && rc == c,
            Err(k) => r matches Err(err) && err.kind() == k && err.message() == build_entry_refusal(
                doc_files(doc.files@),
                e@,
            ),
        },
        rewrite_decrypts(doc_files(doc.files@), e@),
{
    let ghost files = doc_files(doc.files@);
    proof {
        lemma_find_file_bounds(files, e@.name);
    }
    let fi = match find_file_exec(&doc.files, &e.name) {
        None => return Ok((vstd::slice::slice_to_vec(e.data.as_slice()), 0, false)),
        Some(i) => i,
    };
    assert(files[fi as int] == (doc.files@[fi as int].name@, match &doc.files@[fi as int].units {
        Ok(us) => Ok(unit_views(us@)),
        Err(m) => Err(m@),
    }));
    let units = match &doc.files[fi].units {
        Ok(u) => u,
        Err(msg) => {
            let m = concat3("bad units for ", e.name.as_str(), ": ");
            return Err(PatchError::Format(concat(m.as_str(), msg.as_str())));
        },
    };
    if !asb_payload_fits(e.data.as_slice()) {
        return Err(PatchError::Format(concat3(e.name.as_str(), ": ", "ASB payload runs past the entry")));
    }
    let raw = match decrypt_asb(e.data.as_slice(), TRIPTYCH_KEY) {
        Ok(r) => r,
        Err(err) => return Err(err),
    };
    let new_raw = match patch_script(e.name.as_str(), raw.as_slice(), units.as_slice()) {
        Ok(b) => b,
        Err(err) => return Err(err),
    };
    let t = count_translated(units.as_slice());
    if bytes_equal(new_raw.as_slice(), raw.as_slice()) {
        Ok((vstd::slice::slice_to_vec(e.data.as_slice()), t, false))
    } else {
        match encrypt_asb(new_raw.as_slice(), TRIPTYCH_KEY) {
            Ok(enc) => Ok((enc, t, true)),
            Err(err) => Err(err),
        }
    }
}

/// Applies a patch document to source archive bytes, returning the rebuilt archive bytes and
/// statistics. Entries the document does not name are kept as they are.
#[verifier::spinoff_prover]
#[verifier::rlimit(50)]
pub fn build(doc: &Document, source_arc: &[u8]) -> (r: Result<(Vec<u8>, BuildStats), PatchError>)
    ensures
        match spec_build(doc_files(doc.files@), source_arc@) {
            Ok((b, t, p)) => r matches Ok((out, stats)) && out@ == b && stats.translated_units == capped(t)
                && stats.scripts_modified == capped(p),
            Err(k) => r matches Err(e) && e.kind() == k && e.message() == build_refusal(
                doc_files(doc.files@),
                source_arc@,
            ),
        },
        r matches Ok((out, _)) ==> (archive_verifies(source_arc@) && build_within_limits(doc_files(doc.files@), source_arc@)
            ==> archive_verifies(out@)),
        r matches Ok((out, _)) ==> (build_within_limits(doc_files(doc.files@), source_arc@) ==> script_count(
            arc_entries(out@),
            arc_entries(out@).len() as int,
        ) == script_count(arc_entries(source_arc@), arc_entries(source_arc@).len() as int)),
{
    let arc = match load_archive(source_arc) {
        Ok(a) => a,
        Err(e) => return Err(e),
    };
    let ghost files = doc_files(doc.files@);
    let ghost ev = entry_views(arc.entries@);
    proof {
        crate::azsys::lemma_arc_entry_records(source_arc@);
    }
    let n = arc.entries.len();
    let mut entries: Vec<ArcEntry> = Vec::new();
    let mut translated: usize = 0;
    let mut patched: usize = 0;
    let ghost mut acc = BuildAcc { entries: Seq::empty(), translated: 0, patched: 0 };
    let mut i: usize = 0;
    while i < n
        invariant
            i <= n,
            n == arc.entries@.len(),
            files == doc_files(doc.files@),
            ev == entry_views(arc.entries@),
            ev == arc_entries(source_arc@),
            source_arc@.len() >= 0x30,
            arc_loadable(source_arc@),
            arc.header@ == source_arc@.take(0x30),
            forall|j: int| 0 <= j < ev.len() ==> (#[trigger] ev[j]).raw_index.len() == 0x40,
            build_entries(files, ev, i as int) == Ok::<BuildAcc, ErrorKind>(acc),
            build_refusal(files, source_arc@) == build_entries_refusal(files, ev, n as int),
            forall|j: int| 0 <= j < i ==> rewrite_decrypts(files, #[trigger] ev[j]),
            entry_views(entries@) == acc.entries,
            acc.entries.len() == i,
            forall|j: int| 0 <= j < i ==> (#[trigger] acc.entries[j]).raw_index == ev[j].raw_index,
            translated == capped(acc.translated),
            patched == capped(acc.patched),
        decreases n - i,
    {
        let e = &arc.entries[i];
        assert(ev[i as int] == e@);
        let (data, t, changed) = match build_entry_exec(doc, e) {
            Ok(x) => x,
            Err(err) => {
                proof {
                    if build_entry(files, e@) is Err {
                        lemma_build_err_stays(files, ev, i + 1, n as int);
                        lemma_build_refusal_stays(files, ev, i + 1, n as int);
                    }
                }
                return Err(err);
            },
        };
        let ne = ArcEntry {
            name: e.name.clone(),
            data,
            raw_index: vstd::slice::slice_to_vec(e.raw_index.as_slice()),
        };
        let ghost before = entries@;
        entries.push(ne);
        proof {
            acc = BuildAcc {
                entries: acc.entries.push(ArcEntryView { data: ne@.data, ..ev[i as int] }),
                translated: acc.translated + t as nat,
                patched: acc.patched + if changed {
                    1nat
                } else {
                    0
                },
            };
            assert(entry_views(entries@) =~= acc.entries);
        }
        translated = translated.saturating_add(t);
        if changed {
            patched = patched.saturating_add(1);
        }
        i = i + 1;
    }
    let new_arc = Arc { entries, header: arc.header };
    assert(crate::azsys::arc_savable(new_arc.header@, entry_views(new_arc.entries@)));
    let out = new_arc.save();
    proof {
        if n == ev.len() {
            assert(spec_build(files, source_arc@) == Ok::<(Seq<u8>, nat, nat), ErrorKind>(
                (spec_save(source_arc@.take(0x30), acc.entries), acc.translated, acc.patched),
            ));
        }
        if archive_verifies(source_arc@) && build_within_limits(files, source_arc@) {
            lemma_built_archive_verifies(files, source_arc@);
        }
        if build_within_limits(files, source_arc@) {
            lemma_build_reloads(files, source_arc@);
            let o = arc_entries(out@);
            lemma_script_count_names(o, ev, o.len() as int);
        }
    }
    Ok((out, BuildStats { translated_units: translated, scripts_modified: patched }))
}

// ---------------------------------------------------------------------------
// Building an archive with its own untranslated text
// ---------------------------------------------------------------------------
/// The decrypted script of an archive entry (meaningful for an entry that decrypts).
pub open spec fn entry_script(e: ArcEntryView) -> Seq<u8> {
    spec_decrypt_asb(e.data, TRIPTYCH_KEY)->Ok_0
}

/// The units extracted from an archive entry: none for an entry that is not a script.
pub open spec fn entry_units(e: ArcEntryView) -> Seq<UnitView> {
    if crate::text::spec_has_asb_extension(e.name) {
        spec_extract_file(e.name, entry_script(e))->Ok_0.0
    } else {
        Seq::empty()
    }
}

/// Whether no two entries share a name.
pub open spec fn names_distinct(entries: Seq<ArcEntryView>) -> bool {
    forall|i: int, j: int| 0 <= i < j < entries.len() ==> (#[trigger] entries[i]).name != (#[trigger] entries[j]).name
}

/// Whether every jump of every script carries a target that is the start of a record.
pub open spec fn scripts_relocatable(entries: Seq<ArcEntryView>) -> bool {
    forall|i: int|
        0 <= i < entries.len() && crate::text::spec_has_asb_extension(#[trigger] entries[i].name) ==> {
            let v = spec_parse_script(entry_script(entries[i]))->Parsed_0;
            rebuild_fits(v) && crate::asb::jumps_land(v)
        }
}

/// What extracting the first `n` entries of an archive with distinct names collects: a file for
/// each script with units, holding that script's units, and for every other entry no file.
#[verifier::spinoff_prover]
#[verifier::rlimit(40)]
proof fn lemma_extract_files(entries: Seq<ArcEntryView>, n: int)
    requires
        0 <= n <= entries.len(),
        extract_entries(entries, n) is Ok,
        names_distinct(entries),
    ensures
        ({
            let files = extract_entries(entries, n)->Ok_0.files;
            &&& forall|k: int| 0 <= k < files.len() ==> exists|j: int| 0 <= j < n && (#[trigger] files[k]).0
                == entries[j].name && files[k].1 == entry_units(entries[j])
            &&& forall|j: int| 0 <= j < n && (#[trigger] entry_units(entries[j])).len() > 0 ==> (find_file(files, entries[j].name)
                matches Some(k) && files[k].1 == entry_units(entries[j]))
            &&& forall|j: int| 0 <= j < n && (#[trigger] entry_units(entries[j])).len() == 0 ==> find_file(files, entries[j].name)
                is None
            &&& forall|j: int|
                0 <= j < n && crate::text::spec_has_asb_extension(#[trigger] entries[j].name) ==> {
                    &&& asb_fits(entries[j].data)
                    &&& spec_decrypt_asb(entries[j].data, TRIPTYCH_KEY) is Ok
                    &&& spec_extract_file(entries[j].name, entry_script(entries[j])) is Ok
                }
        }),
    decreases n,
{
    if n > 0 {
        let e = entries[n - 1];
        assert(extract_entries(entries, n - 1) is Ok);
        lemma_extract_files(entries, n - 1);
        let acc = extract_entries(entries, n - 1)->Ok_0;
        let files = acc.files;
        let nf = extract_entries(entries, n)->Ok_0.files;
        // no earlier file carries this entry's name
        lemma_find_file_bounds(files, e.name);
        if find_file(files, e.name) is Some {
            let k = find_file(files, e.name).unwrap();
            let j = choose|j: int| 0 <= j < n - 1 && (#[trigger] files[k]).0 == entries[j].name && files[k].1
                == entry_units(entries[j]);
            assert(entries[j].name != entries[n - 1].name);
        }
        if entry_units(e).len() > 0 {
            assert(nf == files.push((e.name, entry_units(e))));
            assert(nf.drop_last() =~= files);
            assert forall|k: int| 0 <= k < nf.len() implies exists|j: int| 0 <= j < n && (#[trigger] nf[k]).0
                == entries[j].name && nf[k].1 == entry_units(entries[j]) by {
                if k < files.len() {
                    assert(nf[k] == files[k]);
                } else {
                    assert(nf[k].0 == entries[n - 1].name);
                }
            }
            assert forall|j: int| 0 <= j < n && (#[trigger] entry_units(entries[j])).len() > 0 implies (find_file(nf, entries[j].name)
                matches Some(k) && nf[k].1 == entry_units(entries[j])) by {
                if j < n - 1 {
                    let k = find_file(files, entries[j].name).unwrap();
                    lemma_find_file_bounds(files, entries[j].name);
                    assert(nf[k] == files[k]);
                }
            }
            assert forall|j: int| 0 <= j < n && (#[trigger] entry_units(entries[j])).len() == 0 implies find_file(nf, entries[j].name)
                is None by {
                assert(j < n - 1);
                assert(entries[j].name != entries[n - 1].name);
            }
        } else {
            assert(nf == files);
        }
    }
}

/// The units extracted from a script carry no translation.
proof fn lemma_extracted_untranslated(v: Seq<InstrView>, n: int)
    requires
        0 <= n <= v.len(),
    ensures
        translated_count(extracted_units(v, n), extracted_units(v, n).len() as int) == 0,
    decreases n,
{
    if n > 0 {
        lemma_extracted_untranslated(v, n - 1);
        let prev = extracted_units(v, n - 1);
        if text_segments(v[n - 1]) is Some && record_roundtrips(v[n - 1]) {
            let u = record_unit(v[n - 1]);
            let cur = prev.push(u);
            assert(!unit_translated(u)) by {
                if v[n - 1].op == 0x0d {
                    let t = decoded_strings(text_segments(v[n - 1]).unwrap());
                    assert(!has_nonempty(empty_texts(t.len())));
                }
            }
            lemma_translated_count_push(prev, u, prev.len() as int);
        }
    }
}

/// Counting translated units only reads as many of them as it counts.
proof fn lemma_translated_count_push(units: Seq<UnitView>, u: UnitView, k: int)
    requires
        0 <= k <= units.len(),
    ensures
        translated_count(units.push(u), k) == translated_count(units, k),
    decreases k,
{
    if k > 0 {
        lemma_translated_count_push(units, u, k - 1);
        assert(units.push(u)[k - 1] == units[k - 1]);
    }
}

/// Every entry of an archive with distinct names and relocatable scripts is kept as it is by
/// the document extracted from the archive.
proof fn lemma_build_entry_untranslated(entries: Seq<ArcEntryView>, j: int)
    requires
        0 <= j < entries.len(),
        extract_entries(entries, entries.len() as int) is Ok,
        names_distinct(entries),
        scripts_relocatable(entries),
    ensures
        build_entry(extracted_files(extract_entries(entries, entries.len() as int)->Ok_0.files), entries[j])
            == Ok::<(Seq<u8>, nat, bool), ErrorKind>((entries[j].data, 0, false)),
{
    let n = entries.len() as int;
    let e = entries[j];
    let files = extract_entries(entries, n)->Ok_0.files;
    let xf = extracted_files(files);
    lemma_extract_files(entries, n);
    lemma_find_file_names(xf, files, e.name);
    if entry_units(e).len() > 0 {
        let k = find_file(files, e.name).unwrap();
        lemma_find_file_bounds(files, e.name);
        assert(xf[k].1 == Ok::<Seq<UnitView>, Seq<char>>(entry_units(e)));
        assert(crate::text::spec_has_asb_extension(e.name));
        let raw = entry_script(e);
        assert(raw.len() <= usize::MAX);
        lemma_untranslated_patch(e.name, raw);
        let v = spec_parse_script(raw)->Parsed_0;
        lemma_extracted_untranslated(v, v.len() as int);
    }
}

/// Builds of the first `n` entries with a document that keeps each of them as it is keep them.
proof fn lemma_build_entries_kept(
    files: Seq<(Seq<char>, Result<Seq<UnitView>, Seq<char>>)>,
    entries: Seq<ArcEntryView>,
    n: int,
)
    requires
        0 <= n <= entries.len(),
        forall|j: int| 0 <= j < entries.len() ==> #[trigger] build_entry(files, entries[j])
            == Ok::<(Seq<u8>, nat, bool), ErrorKind>((entries[j].data, 0, false)),
    ensures
        build_entries(files, entries, n) == Ok::<BuildAcc, ErrorKind>(
            BuildAcc { entries: entries.take(n), translated: 0, patched: 0 },
        ),
    decreases n,
{
    if n > 0 {
        lemma_build_entries_kept(files, entries, n - 1);
        let e = entries[n - 1];
        assert(build_entry(files, e) == Ok::<(Seq<u8>, nat, bool), ErrorKind>((e.data, 0, false)));
        assert(ArcEntryView { data: e.data, ..e } == e);
        assert(entries.take(n - 1).push(e) =~= entries.take(n));
    } else {
        assert(entries.take(0) =~= Seq::<ArcEntryView>::empty());
    }
}

/// Building an archive with the document extracted from it, left untranslated, keeps every
/// entry as it is, counts no translated unit and modifies no script, when the entries have
/// distinct names and every jump of every script carries a target that is the start of a record.
pub proof fn lemma_untranslated_build(blob: Seq<u8>)
    requires
        spec_extract(blob) is Ok,
        names_distinct(arc_entries(blob)),
        scripts_relocatable(arc_entries(blob)),
    ensures
        spec_build(extracted_files(spec_extract(blob)->Ok_0.files), blob) == Ok::<(Seq<u8>, nat, nat), ErrorKind>(
            (spec_save(blob.take(0x30), arc_entries(blob)), 0, 0),
        ),
{
    let entries = arc_entries(blob);
    let xf = extracted_files(spec_extract(blob)->Ok_0.files);
    assert forall|j: int| 0 <= j < entries.len() implies #[trigger] build_entry(xf, entries[j])
        == Ok::<(Seq<u8>, nat, bool), ErrorKind>((entries[j].data, 0, false)) by {
        lemma_build_entry_untranslated(entries, j);
    }
    lemma_build_entries_kept(xf, entries, entries.len() as int);
    assert(entries.take(entries.len() as int) =~= entries);
}

// ---------------------------------------------------------------------------
// What a built archive loads back as
// ---------------------------------------------------------------------------
/// The entries of a build, in order: each source entry with the data the document makes of it.
pub open spec fn built_entries(
    files: Seq<(Seq<char>, Result<Seq<UnitView>, Seq<char>>)>,
    entries: Seq<ArcEntryView>,
) -> Seq<ArcEntryView> {
    Seq::new(entries.len(), |i: int| ArcEntryView { data: build_entry(files, entries[i])->Ok_0.0, ..entries[i] })
}

/// Building the first `n` entries, when it succeeds, builds each of them.
proof fn lemma_build_entries_shape(
    files: Seq<(Seq<char>, Result<Seq<UnitView>, Seq<char>>)>,
    entries: Seq<ArcEntryView>,
    n: int,
)
    requires
        0 <= n <= entries.len(),
        build_entries(files, entries, n) is Ok,
    ensures
        build_entries(files, entries, n)->Ok_0.entries == built_entries(files, entries).take(n),
        forall|i: int| 0 <= i < n ==> build_entry(files, #[trigger] entries[i]) is Ok,
    decreases n,
{
    if n > 0 {
        lemma_build_entries_shape(files, entries, n - 1);
        let prev = build_entries(files, entries, n - 1)->Ok_0.entries;
        let cur = build_entries(files, entries, n)->Ok_0.entries;
        assert(cur =~= built_entries(files, entries).take(n)) by {
            assert(cur == prev.push(ArcEntryView { data: build_entry(files, entries[n - 1])->Ok_0.0, ..entries[n - 1] }));
        }
    } else {
        assert(build_entries(files, entries, 0)->Ok_0.entries =~= built_entries(files, entries).take(0));
    }
}

/// A saved archive whose size fits 32 bits loads back (see [`crate::azsys::lemma_save_load`]).
proof fn lemma_saved_reloads(header: Seq<u8>, entries: Seq<ArcEntryView>)
    requires
        header.len() == 0x30,
        forall|i: int| 0 <= i < entries.len() ==> (#[trigger] entries[i]).raw_index.len() == 0x40,
        entries.len() <= u32::MAX,
        spec_save(header, entries).len() <= u32::MAX,
    ensures
        spec_save(header, entries).len() >= 0x30,
        arc_loadable(spec_save(header, entries)),
        arc_entries(spec_save(header, entries)) == Seq::new(
            entries.len(),
            |i: int| crate::azsys::loaded_entry(entries, i),
        ),
{
    let n = entries.len() as int;
    let packed = crate::lzss::spec_pack_index(crate::azsys::saved_index(entries, n));
    let body = crate::azsys::saved_body(entries, n);
    assert(spec_save(header, entries).len() == 0x30 + packed.len() + body.len());
    crate::azsys::lemma_save_load(header, entries);
}

/// Saving entries that differ from `src` only in their data gives, when its size fits 32 bits,
/// an archive that loads back with the names and index records of `src` and the new data.
#[verifier::spinoff_prover]
#[verifier::rlimit(60)]
proof fn lemma_rewritten_reloads(header: Seq<u8>, built: Seq<ArcEntryView>, src: Seq<ArcEntryView>)
    requires
        header.len() == 0x30,
        built.len() == src.len(),
        forall|i: int| 0 <= i < src.len() ==> (#[trigger] src[i]).raw_index.len() == 0x40,
        forall|i: int| 0 <= i < src.len() ==> (#[trigger] built[i]).name == src[i].name && built[i].raw_index
            == src[i].raw_index,
        forall|i: int|
            0 <= i < src.len() ==> (#[trigger] src[i]).name == crate::text::spec_trim(
                crate::asb::shift_jis_decoding(crate::azsys::record_name_bytes(src[i].raw_index)),
            ),
        src.len() <= u32::MAX,
        spec_save(header, built).len() <= u32::MAX,
    ensures
        ({
            let out = spec_save(header, built);
            &&& out.len() >= 0x30
            &&& arc_loadable(out)
            &&& arc_entries(out).len() == src.len()
            &&& forall|i: int|
                0 <= i < src.len() ==> {
                    &&& (#[trigger] arc_entries(out)[i]).name == src[i].name
                    &&& arc_entries(out)[i].raw_index.skip(8) == src[i].raw_index.skip(8)
                    &&& arc_entries(out)[i].data == built[i].data
                }
        }),
{
    assert forall|i: int| 0 <= i < built.len() implies (#[trigger] built[i]).raw_index.len() == 0x40 by {
        assert(built[i].raw_index == src[i].raw_index);
    }
    lemma_saved_reloads(header, built);
    let out = spec_save(header, built);
    let ents = arc_entries(out);
    assert(ents == Seq::new(built.len(), |i: int| crate::azsys::loaded_entry(built, i)));
    assert forall|i: int| 0 <= i < src.len() implies {
        &&& (#[trigger] ents[i]).name == src[i].name
        &&& ents[i].raw_index.skip(8) == src[i].raw_index.skip(8)
        &&& ents[i].data == built[i].data
    } by {
        let l = crate::azsys::loaded_entry(built, i);
        assert(ents[i] == l);
        assert(built[i].raw_index == src[i].raw_index);
        lemma_saved_record_tail(built[i], crate::azsys::saved_body(built, i).len());
    }
}

proof fn lemma_saved_record_tail(e: ArcEntryView, off: nat)
    ensures
        crate::azsys::saved_record(e, off).skip(8) == e.raw_index.skip(8),
{
    assert(crate::azsys::saved_record(e, off).skip(8) =~= e.raw_index.skip(8));
}

/// A successful build saves the built entries under the source header.
proof fn lemma_build_output(files: Seq<(Seq<char>, Result<Seq<UnitView>, Seq<char>>)>, blob: Seq<u8>)
    requires
        spec_build(files, blob) is Ok,
    ensures
        blob.len() >= 0x30,
        arc_loadable(blob),
        spec_build(files, blob)->Ok_0.0 == spec_save(blob.take(0x30), built_entries(files, arc_entries(blob))),
{
    let src = arc_entries(blob);
    let n = src.len() as int;
    lemma_build_entries_shape(files, src, n);
    assert(built_entries(files, src).take(n) =~= built_entries(files, src));
}

/// An archive built from a document loads back with as many entries as its source, in the same
/// order, each with the source entry's name and index record (but for the offset and size that
/// the build writes) and with the data the document makes of it, when the number of entries and
/// the size of the built archive fit their 32-bit fields.
#[verifier::spinoff_prover]
pub proof fn lemma_build_reloads(files: Seq<(Seq<char>, Result<Seq<UnitView>, Seq<char>>)>, blob: Seq<u8>)
    requires
        spec_build(files, blob) is Ok,
        arc_entries(blob).len() <= u32::MAX,
        spec_build(files, blob)->Ok_0.0.len() <= u32::MAX,
    ensures
        ({
            let out = spec_build(files, blob)->Ok_0.0;
            let src = arc_entries(blob);
            &&& out.len() >= 0x30
            &&& arc_loadable(out)
            &&& arc_entries(out).len() == src.len()
            &&& forall|i: int|
                0 <= i < src.len() ==> {
                    &&& (#[trigger] arc_entries(out)[i]).name == src[i].name
                    &&& arc_entries(out)[i].raw_index.skip(8) == src[i].raw_index.skip(8)
                    &&& arc_entries(out)[i].data == build_entry(files, src[i])->Ok_0.0
                }
        }),
{
    let src = arc_entries(blob);
    let built = built_entries(files, src);
    lemma_build_output(files, blob);
    crate::azsys::lemma_arc_entry_records(blob);
    assert forall|i: int| 0 <= i < src.len() implies (#[trigger] src[i]).name == crate::text::spec_trim(
        crate::asb::shift_jis_decoding(crate::azsys::record_name_bytes(src[i].raw_index)),
    ) by {}
    lemma_rewritten_reloads(blob.take(0x30), built, src);
    assert forall|i: int| 0 <= i < src.len() implies built[i].data == build_entry(files, src[i])->Ok_0.0 by {}
}

// ---------------------------------------------------------------------------
// Patched scripts pass the self check
// ---------------------------------------------------------------------------
/// Whether `r` is a text record as [`spec_rebuild_instr`] writes it: a text opcode, its header
/// with its length kept to 32 bits, and its whole argument prefix.
pub open spec fn rewritten_record(r: InstrView) -> bool {
    &&& crate::asb::text_kind(r.op) is Some
    &&& r.raw.len() >= 24
    &&& spec_u32_le(r.raw, 0) == r.op
    &&& spec_u32_le(r.raw, 4) == r.raw.len() % 0x1_0000_0000
}

/// A record rebuilt with texts other than its own is a rewritten text record.
proof fn lemma_rewritten_shape(v: InstrView, texts: Seq<Seq<char>>)
    requires
        text_fits(v),
        text_segments(v) is Some,
        texts != decoded_strings(text_segments(v).unwrap()),
        spec_rebuild_instr(v, texts) is Ok,
    ensures
        rewritten_record(spec_rebuild_instr(v, texts)->Ok_0),
{
    crate::asb::lemma_text_segments_len(v);
    let segs = text_segments(v).unwrap();
    if v.raw.len() < 24 {
        assert(segs.len() == 0);
        assert(texts =~= decoded_strings(segs));
    }
    let nv = spec_rebuild_instr(v, texts)->Ok_0;
    let body = v.raw.subrange(8, 24) + crate::asb::nul_join(crate::asb::encoded_strings(texts));
    let lf = ((8 + body.len()) % 0x1_0000_0000) as u32;
    assert(nv.raw == le_bytes(v.op) + le_bytes(lf) + body);
    assert(nv.raw.subrange(0, 4) =~= le_bytes(v.op));
    assert(nv.raw.subrange(4, 8) =~= le_bytes(lf));
    crate::bytes::lemma_read_le_bytes(nv.raw, 0, v.op);
    crate::bytes::lemma_read_le_bytes(nv.raw, 4, lf);
}

/// Applying units keeps the number of records and the terminator, and each record is either the
/// original or a rewritten text record.
proof fn lemma_apply_shape(v0: Seq<InstrView>, starts: Map<usize, usize>, units: Seq<UnitView>, n: int)
    requires
        0 <= n <= units.len(),
        apply_units(v0, starts, units, n) is Ok,
        v0.len() > 0,
        v0.last().op == 0,
        forall|k: usize| #[trigger] starts.contains_key(k) ==> starts[k] < v0.len(),
    ensures
        ({
            let cur = apply_units(v0, starts, units, n)->Ok_0;
            &&& cur.len() == v0.len()
            &&& cur.last() == v0.last()
            &&& forall|i: int| 0 <= i < cur.len() ==> (#[trigger] cur[i]) == v0[i] || rewritten_record(cur[i])
        }),
    decreases n,
{
    if n > 0 {
        lemma_apply_shape(v0, starts, units, n - 1);
        let cur = apply_units(v0, starts, units, n - 1)->Ok_0;
        let u = units[n - 1];
        let nxt = apply_units(v0, starts, units, n)->Ok_0;
        if nxt != cur {
            let off = spec_parse_offset(u.offset).unwrap();
            let idx = starts[off as usize] as int;
            let texts = spec_pick(u)->Ok_0;
            let nv = spec_rebuild_instr(cur[idx], texts)->Ok_0;
            assert(nxt == cur.update(idx, nv));
            assert(cur.last() == cur[cur.len() - 1]);
            assert(idx != cur.len() - 1);
            lemma_rewritten_shape(cur[idx], texts);
            assert forall|i: int| 0 <= i < nxt.len() implies (#[trigger] nxt[i]) == v0[i] || rewritten_record(nxt[i]) by {
                if i != idx {
                    assert(nxt[i] == cur[i]);
                }
            }
            assert(nxt.last() == cur.last());
        }
    }
}

/// A patched script passes the self check whenever the script it was patched from does: it
/// reads back as records and every text record among them can be read, when the patched script's
/// size fits 32 bits and an eighth of the address space.
pub proof fn lemma_patched_script_checks(raw: Seq<u8>, units: Seq<UnitView>)
    requires
        raw.len() <= usize::MAX,
        spec_parse_script(raw) is Parsed,
        all_text_fit(spec_parse_script(raw)->Parsed_0),
        spec_patch_script(raw, units) is Ok,
        spec_patch_script(raw, units)->Ok_0.len() <= u32::MAX,
        spec_patch_script(raw, units)->Ok_0.len() <= usize::MAX / 8,
    ensures
        script_headers_fit(spec_patch_script(raw, units)->Ok_0),
        spec_parse_script(spec_patch_script(raw, units)->Ok_0) is Parsed,
        all_text_fit(spec_parse_script(spec_patch_script(raw, units)->Ok_0)->Parsed_0),
{
    let v0 = spec_parse_script(raw)->Parsed_0;
    let n = v0.len() as int;
    let starts = start_index(v0, n);
    crate::asb::lemma_parsed_laid(raw, 0);
    lemma_start_index_range(v0, n);
    lemma_apply_shape(v0, starts, units, units.len() as int);
    let fin = apply_units(v0, starts, units, units.len() as int)->Ok_0;
    let out = spec_patch_script(raw, units)->Ok_0;
    assert(out == spec_rebuild_script(fin).unwrap());
    crate::asb::lemma_rebuilt_len(fin);
    assert(fin.last() == fin[n - 1]);
    assert(v0.last() == v0[n - 1]);
    assert(crate::asb::laid_records(fin)) by {
        assert forall|i: int| 0 <= i < fin.len() implies (#[trigger] fin[i]).raw.len() >= 8 && spec_u32_le(fin[i].raw, 0)
            == fin[i].op by {
            if fin[i] == v0[i] {
                assert(v0[i].raw.len() >= 8);
            }
        }
        assert forall|i: int| 0 <= i < fin.len() - 1 implies spec_u32_le((#[trigger] fin[i]).raw, 4) == fin[i].raw.len()
            && !(fin[i].op == 0 && fin[i].raw.len() == crate::asb::TERMINATOR_LEN) by {
            if fin[i] != v0[i] {
                assert(fin[i].raw.len() <= out.len());
                assert(fin[i].raw.len() % 0x1_0000_0000 == fin[i].raw.len());
            }
        }
    }
    crate::asb::lemma_rebuilt_script_parses(fin);
    let w = spec_parse_script(out)->Parsed_0;
    let reloc = crate::asb::relocation(fin, n);
    let rv = crate::asb::relocated_views(fin, reloc);
    assert forall|i: int| 0 <= i < w.len() implies text_fits(#[trigger] w[i]) by {
        assert(w[i].op == fin[i].op);
        assert(w[i].raw == rv[i].raw);
        assert(fin[i].raw.len() <= out.len());
        if crate::asb::is_jump(fin[i].op) {
            assert(rv[i].raw.len() <= out.len()) by {
                crate::asb::lemma_rebuilt_reads_len(fin, i);
            }
        } else {
            assert(rv[i].raw == fin[i].raw);
            if fin[i] == v0[i] {
                assert(text_fits(v0[i]));
            }
        }
    }
}

// ---------------------------------------------------------------------------
// Built archives pass the self check
// ---------------------------------------------------------------------------
/// The units a document gives an entry (meaningful for an entry it names with units).
pub open spec fn entry_doc_units(files: Seq<(Seq<char>, Result<Seq<UnitView>, Seq<char>>)>, e: ArcEntryView) -> Seq<UnitView> {
    files[find_file(files, e.name).unwrap()].1->Ok_0
}

/// The script a document makes of an entry's script (meaningful for an entry it changes).
pub open spec fn patched_script(files: Seq<(Seq<char>, Result<Seq<UnitView>, Seq<char>>)>, e: ArcEntryView) -> Seq<u8> {
    spec_patch_script(entry_script(e), entry_doc_units(files, e))->Ok_0
}

/// Whether building an entry changes its script.
pub open spec fn entry_changed(files: Seq<(Seq<char>, Result<Seq<UnitView>, Seq<char>>)>, e: ArcEntryView) -> bool {
    build_entry(files, e) matches Ok((_, _, c)) && c
}

/// Whether the new data of a changed entry decrypts to its patched script, when the script and
/// the data fit the 32-bit size fields of the container.
pub open spec fn rewrite_decrypts(files: Seq<(Seq<char>, Result<Seq<UnitView>, Seq<char>>)>, e: ArcEntryView) -> bool {
    entry_changed(files, e) && patched_script(files, e).len() <= u32::MAX && build_entry(files, e)->Ok_0.0.len()
        <= u32::MAX + 12 ==> asb_fits(build_entry(files, e)->Ok_0.0) && spec_decrypt_asb(
        build_entry(files, e)->Ok_0.0,
        TRIPTYCH_KEY,
    ) == Ok::<Seq<u8>, ()>(patched_script(files, e))
}

/// Whether a build stays within the machine's sizes: the entry count and the built archive fit
/// 32 bits, and each patched script fits 32 bits and an eighth of the address space.
pub open spec fn build_within_limits(files: Seq<(Seq<char>, Result<Seq<UnitView>, Seq<char>>)>, blob: Seq<u8>) -> bool {
    &&& arc_entries(blob).len() <= u32::MAX
    &&& spec_build(files, blob)->Ok_0.0.len() <= u32::MAX
    &&& forall|i: int|
        0 <= i < arc_entries(blob).len() && entry_changed(files, #[trigger] arc_entries(blob)[i]) ==> patched_script(
            files,
            arc_entries(blob)[i],
        ).len() <= u32::MAX && patched_script(files, arc_entries(blob)[i]).len() <= usize::MAX / 8
}

/// An archive built from one that passes the self check passes it too, given that each
/// changed entry's new data decrypts to its patched script (which [`build`] ensures) and that the
/// build stays within the machine's sizes.
pub proof fn lemma_built_archive_verifies(files: Seq<(Seq<char>, Result<Seq<UnitView>, Seq<char>>)>, blob: Seq<u8>)
    requires
        spec_build(files, blob) is Ok,
        archive_verifies(blob),
        build_within_limits(files, blob),
        forall|i: int| 0 <= i < arc_entries(blob).len() ==> rewrite_decrypts(files, #[trigger] arc_entries(blob)[i]),
    ensures
        archive_verifies(spec_build(files, blob)->Ok_0.0),
{
    let out = spec_build(files, blob)->Ok_0.0;
    let src = arc_entries(blob);
    lemma_build_reloads(files, blob);
    lemma_build_output(files, blob);
    lemma_build_entries_shape(files, src, src.len() as int);
    assert forall|i: int| 0 <= i < arc_entries(out).len() implies entry_verifies(#[trigger] arc_entries(out)[i]) by {
        let o = arc_entries(out)[i];
        let e = src[i];
        assert(o.name == e.name);
        assert(build_entry(files, e) is Ok);
        assert(o.data == build_entry(files, e)->Ok_0.0);
        assert(entry_verifies(e));
        if crate::text::spec_has_asb_extension(o.name) {
            if entry_changed(files, e) {
                crate::azsys::lemma_entry_data_len(out, i);
                assert(rewrite_decrypts(files, e));
                let raw = entry_script(e);
                assert(raw.len() <= usize::MAX);
                lemma_patched_script_checks(raw, entry_doc_units(files, e));
            } else {
                assert(o.data == e.data);
            }
        }
    }
}

// ---------------------------------------------------------------------------
// Extraction lists every text record
// ---------------------------------------------------------------------------
/// Whether `u` is the untranslated unit of text record `r`: its offset is the record's start in
/// `0x…` form, its kind `title`, `speaker`, `text` or `choice` for opcode 0x04, 0x29, 0x2a or
/// 0x0d, its original texts the record's decoded strings (a list
/// exactly for a choice), and its translation as many empty texts.
pub open spec fn unit_of_record(u: UnitView, r: InstrView) -> bool {
    &&& u.offset == crate::text::spec_format_offset(r.start as nat)
    &&& (r.op == 0x04 && u.kind == "title"@ || r.op == 0x29 && u.kind == "speaker"@ || r.op == 0x2a && u.kind
        == "text"@ || r.op == 0x0d && u.kind == "choice"@)
    &&& texts_list(u.jp) == decoded_strings(text_segments(r).unwrap())
    &&& (u.jp is Many <==> r.op == 0x0d)
    &&& u.en matches Some(e) && texts_list(e).len() == texts_list(u.jp).len() && forall|k: int|
        0 <= k < texts_list(e).len() ==> (#[trigger] texts_list(e)[k]).len() == 0
}

/// The indices of the records among the first `n` that extraction turns into units.
spec fn unit_record_indices(v: Seq<InstrView>, n: int) -> Seq<int>
    decreases n,
{
    if n <= 0 {
        Seq::empty()
    } else if text_segments(v[n - 1]) is Some && record_roundtrips(v[n - 1]) {
        unit_record_indices(v, n - 1).push(n - 1)
    } else {
        unit_record_indices(v, n - 1)
    }
}

proof fn lemma_record_unit_is_unit(r: InstrView)
    requires
        text_segments(r) is Some,
    ensures
        unit_of_record(record_unit(r), r),
{
    crate::asb::lemma_text_segments_len(r);
    let u = record_unit(r);
    let t = decoded_strings(text_segments(r).unwrap());
    if r.op != 0x0d {
        assert(texts_list(u.jp) =~= t);
    }
}

proof fn lemma_extracted_indices(v: Seq<InstrView>, n: int)
    requires
        0 <= n <= v.len(),
    ensures
        ({
            let units = extracted_units(v, n);
            let idx = unit_record_indices(v, n);
            &&& idx.len() == units.len()
            &&& forall|k: int| 0 <= k < idx.len() ==> 0 <= #[trigger] idx[k] < n && unit_of_record(units[k], v[idx[k]])
            &&& forall|a: int, b: int| 0 <= a < b < idx.len() ==> #[trigger] idx[a] < #[trigger] idx[b]
            &&& forall|i: int|
                0 <= i < n && text_segments(#[trigger] v[i]) is Some && record_roundtrips(v[i]) ==> exists|k: int|
                    0 <= k < idx.len() && idx[k] == i
        }),
    decreases n,
{
    if n > 0 {
        lemma_extracted_indices(v, n - 1);
        let units = extracted_units(v, n);
        let idx = unit_record_indices(v, n);
        let pu = extracted_units(v, n - 1);
        let pi = unit_record_indices(v, n - 1);
        if text_segments(v[n - 1]) is Some && record_roundtrips(v[n - 1]) {
            lemma_record_unit_is_unit(v[n - 1]);
            assert forall|k: int| 0 <= k < idx.len() implies 0 <= #[trigger] idx[k] < n && unit_of_record(
                units[k],
                v[idx[k]],
            ) by {
                if k < pi.len() {
                    assert(idx[k] == pi[k]);
                    assert(units[k] == pu[k]);
                }
            }
            assert forall|i: int|
                0 <= i < n && text_segments(#[trigger] v[i]) is Some && record_roundtrips(v[i]) implies exists|k: int|
                0 <= k < idx.len() && idx[k] == i by {
                if i < n - 1 {
                    let k = choose|k: int| 0 <= k < pi.len() && pi[k] == i;
                    assert(idx[k] == i);
                } else {
                    assert(idx[pi.len() as int] == i);
                }
            }
        }
    }
}

/// Extraction lists every text record of a script that round-trips, and nothing else: the units
/// are, in order, the untranslated units (see [`unit_of_record`]) of exactly the records whose
/// strings can be read and that rebuild byte for byte, of every kind (title, speaker, dialogue,
/// choice).
pub proof fn lemma_extract_lists_text_records(name: Seq<char>, raw: Seq<u8>)
    requires
        spec_extract_file(name, raw) is Ok,
    ensures
        ({
            let v = spec_parse_script(raw)->Parsed_0;
            let units = spec_extract_file(name, raw)->Ok_0.0;
            exists|idx: Seq<int>|
                {
                    &&& idx.len() == units.len()
                    &&& forall|k: int| 0 <= k < idx.len() ==> 0 <= #[trigger] idx[k] < v.len() && unit_of_record(units[k], v[idx[k]])
                    &&& forall|a: int, b: int| 0 <= a < b < idx.len() ==> #[trigger] idx[a] < #[trigger] idx[b]
                    &&& forall|k: int|
                        0 <= k < idx.len() ==> text_segments(v[#[trigger] idx[k]]) is Some && record_roundtrips(v[idx[k]])
                    &&& forall|i: int|
                        0 <= i < v.len() && text_segments(#[trigger] v[i]) is Some && record_roundtrips(v[i]) ==> exists|k: int|
                            0 <= k < idx.len() && idx[k] == i
                }
        }),
{
    let v = spec_parse_script(raw)->Parsed_0;
    let n = v.len() as int;
    lemma_extracted_indices(v, n);
    lemma_indices_qualify(v, n);
    let idx = unit_record_indices(v, n);
    assert(unit_record_indices(v, n) == idx);
}

proof fn lemma_indices_qualify(v: Seq<InstrView>, n: int)
    requires
        0 <= n <= v.len(),
    ensures
        forall|k: int|
            0 <= k < unit_record_indices(v, n).len() ==> text_segments(v[#[trigger] unit_record_indices(v, n)[k]]) is Some
                && record_roundtrips(v[unit_record_indices(v, n)[k]]),
    decreases n,
{
    if n > 0 {
        lemma_indices_qualify(v, n - 1);
        let pi = unit_record_indices(v, n - 1);
        let idx = unit_record_indices(v, n);
        assert forall|k: int| 0 <= k < idx.len() implies text_segments(v[#[trigger] idx[k]]) is Some && record_roundtrips(
            v[idx[k]],
        ) by {
            if k < pi.len() {
                assert(idx[k] == pi[k]);
            }
        }
    }
}

} // verus!
