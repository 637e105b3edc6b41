use tripatch::asb::{headers_fit, parse_script, read_strings};
use tripatch::azsys::{decrypt_asb, encrypt_asb, Arc, ArcEntry, TRIPTYCH_KEY};
use tripatch::error::PatchError;
use tripatch::patch::{
    build, extract, extract_file, patch_script, source_name, verify, Document, FileUnits, Meta, StrOrList, Unit,
};
use tripatch::text::{format_offset, has_asb_extension, parse_offset, sanitize};

fn record(op: u32, args: &[u8]) -> Vec<u8> {
    let mut r = Vec::new();
    r.extend_from_slice(&op.to_le_bytes());
    r.extend_from_slice(&((8 + args.len()) as u32).to_le_bytes());
    r.extend_from_slice(args);
    r
}

fn text_args(strings: &[&[u8]], prefix4: u32) -> Vec<u8> {
    let mut a = vec![0u8; 16];
    a[4..8].copy_from_slice(&prefix4.to_le_bytes());
    for s in strings {
        a.extend_from_slice(s);
        a.push(0);
    }
    a
}

fn terminator() -> Vec<u8> {
    let mut r = Vec::new();
    r.extend_from_slice(&0u32.to_le_bytes());
    r.extend_from_slice(&0xFFFF_FFFFu32.to_le_bytes());
    r.extend_from_slice(&[0xFF, 0xFF, 0xFF, 0xFF, 0, 0, 0, 0]);
    r
}

// jump 0x00 -> 0x55, dialogue at 0x0c, choice at 0x2a, plain record at 0x49, terminator at 0x55
fn sample_script() -> Vec<u8> {
    let mut s = Vec::new();
    s.extend(record(0x0a, &0x55u32.to_le_bytes()));
    s.extend(record(0x2a, &text_args(&[b"Hello"], 0)));
    s.extend(record(0x0d, &text_args(&[b"Yes", b"No"], 2)));
    s.extend(record(0x30, &[1, 2, 3, 4]));
    s.extend(terminator());
    s
}

// A title, and a dialogue with bytes after its string, which does not round-trip.
fn odd_script() -> Vec<u8> {
    let mut s = Vec::new();
    s.extend(record(0x04, &text_args(&[b"Prologue"], 0)));
    let mut args = text_args(&[b"Hi"], 0);
    args.extend_from_slice(b"junk");
    s.extend(record(0x2a, &args));
    s.extend(terminator());
    s
}

fn index_record(name: &str) -> Vec<u8> {
    let mut r = vec![0u8; 0x40];
    r[0x10..0x10 + name.len()].copy_from_slice(name.as_bytes());
    r
}

fn archive(scripts: &[(&str, Vec<u8>)]) -> Vec<u8> {
    let mut entries = Vec::new();
    for (name, data) in scripts {
        entries.push(ArcEntry { name: name.to_string(), data: data.clone(), raw_index: index_record(name) });
    }
    let mut header = vec![0u8; 0x30];
    header[0..4].copy_from_slice(b"ARC\x1a");
    Arc { entries, header }.save()
}

fn sample_archive() -> Vec<u8> {
    let asb = encrypt_asb(&sample_script(), TRIPTYCH_KEY).expect("compresses");
    archive(&[("kar_c1.asb", asb), ("readme.txt", b"not a script".to_vec())])
}

fn meta() -> Meta {
    Meta { game: String::new(), source: "script.arc".to_string(), note: String::new() }
}

fn one(s: &str) -> StrOrList {
    StrOrList::One(s.to_string())
}

fn many(v: &[&str]) -> StrOrList {
    StrOrList::Many(v.iter().map(|s| s.to_string()).collect())
}

fn unit(offset: &str, kind: &str, jp: StrOrList, en: Option<StrOrList>) -> Unit {
    Unit { offset: offset.to_string(), kind: kind.to_string(), jp, en }
}

fn doc_with(units: Vec<Unit>) -> Document {
    Document { meta: meta(), files: vec![FileUnits { name: "kar_c1.asb".to_string(), units: Ok(units) }] }
}

fn script_of(blob: &[u8], name: &str) -> Vec<u8> {
    let arc = Arc::load_checked(blob).expect("loads");
    let e = arc.entries.iter().find(|e| e.name == name).expect("entry");
    decrypt_asb(&e.data, TRIPTYCH_KEY).expect("decrypts")
}

fn strings_at(raw: &[u8], start: usize) -> Vec<String> {
    assert!(headers_fit(raw));
    let instrs = parse_script(raw).expect("parses");
    let ins = instrs.iter().find(|i| i.start == start).expect("record");
    read_strings(ins).expect("text record").2
}

fn texts(t: &StrOrList) -> Vec<String> {
    t.to_vec()
}

#[test]
fn extract_lists_text_units() {
    let blob = sample_archive();
    let (doc, stats) = extract(&blob, "script.arc").expect("extracts");
    assert_eq!(doc.meta.source, "script.arc");
    assert_eq!(doc.meta.game, "Triptych (2014 Download Edition)");
    assert_eq!(doc.files.len(), 1);
    assert_eq!(doc.files[0].name, "kar_c1.asb");
    let units = doc.files[0].units.as_ref().expect("units");
    assert_eq!(units.len(), 2);
    assert_eq!(units[0].offset, "0xc");
    assert_eq!(units[0].kind, "text");
    assert_eq!(texts(&units[0].jp), vec!["Hello".to_string()]);
    assert!(matches!(&units[0].jp, StrOrList::One(_)));
    assert_eq!(texts(units[0].en.as_ref().expect("en")), vec![String::new()]);
    assert_eq!(units[1].offset, "0x2a");
    assert_eq!(units[1].kind, "choice");
    assert!(matches!(&units[1].jp, StrOrList::Many(_)));
    assert_eq!(texts(&units[1].jp), vec!["Yes".to_string(), "No".to_string()]);
    assert_eq!(texts(units[1].en.as_ref().expect("en")), vec![String::new(), String::new()]);
    assert_eq!(stats.total_units, 2);
    assert_eq!(stats.file_count, 1);
    assert!(stats.warnings.is_empty());
}

#[test]
fn extract_skips_records_that_do_not_round_trip() {
    let a = encrypt_asb(&odd_script(), TRIPTYCH_KEY).expect("compresses");
    let b = encrypt_asb(&sample_script(), TRIPTYCH_KEY).expect("compresses");
    let blob = archive(&[("A.ASB", a), ("b.asb", b)]);
    let (doc, stats) = extract(&blob, "x.arc").expect("extracts");
    assert_eq!(doc.files.len(), 2);
    assert_eq!(doc.files[0].name, "A.ASB");
    let units = doc.files[0].units.as_ref().expect("units");
    assert_eq!(units.len(), 1);
    assert_eq!(units[0].kind, "title");
    assert_eq!(texts(&units[0].jp), vec!["Prologue".to_string()]);
    assert_eq!(stats.total_units, 3);
    assert_eq!(stats.file_count, 2);
    assert_eq!(stats.warnings, vec!["A.ASB@0x21 (op 0x2a) does not round-trip; skipped".to_string()]);
}

#[test]
fn extract_without_scripts_is_empty() {
    let blob = archive(&[("readme.txt", b"hello".to_vec())]);
    let (doc, stats) = extract(&blob, "script.arc").expect("extracts");
    assert!(doc.files.is_empty());
    assert_eq!(stats.total_units, 0);
    assert_eq!(stats.file_count, 0);
}

#[test]
fn extract_bad_archive() {
    assert!(matches!(extract(&[0u8; 10], "script.arc"), Err(PatchError::Format(_))));
    let blob = archive(&[("broken.asb", b"ASB\x1a garbage here".to_vec())]);
    match extract(&blob, "script.arc") {
        Err(PatchError::Format(m)) => assert_eq!(m, "broken.asb: ASB payload runs past the entry"),
        other => panic!("unexpected {:?}", other.err()),
    }
}

#[test]
fn build_applies_translation() {
    let blob = sample_archive();
    let doc = doc_with(vec![
        unit("0xc", "text", one("Hello"), Some(one("Good morning"))),
        unit("0x2a", "choice", many(&["Yes", "No"]), Some(many(&["Sure\u{2026}", ""]))),
    ]);
    let (out, stats) = build(&doc, &blob).expect("builds");
    assert_eq!(stats.translated_units, 2);
    assert_eq!(stats.scripts_modified, 1);
    let raw = script_of(&out, "kar_c1.asb");
    assert_eq!(strings_at(&raw, 0x0c), vec!["Good morning".to_string()]);
    // the dialogue grew by 7 bytes and the choice by 4
    assert_eq!(strings_at(&raw, 0x31), vec!["Sure...".to_string(), "No".to_string()]);
    assert_eq!(&raw[8..12], &(0x55u32 + 11).to_le_bytes());
    let arc = Arc::load_checked(&out).expect("loads");
    let src = Arc::load_checked(&blob).expect("loads");
    assert_eq!(arc.entries.len(), src.entries.len());
    for (a, b) in arc.entries.iter().zip(src.entries.iter()) {
        assert_eq!(a.name, b.name);
        assert_eq!(a.raw_index[8..], b.raw_index[8..]);
    }
    assert_eq!(arc.entries[1].name, "readme.txt");
    assert_eq!(arc.entries[1].data, b"not a script".to_vec());
    assert_eq!(verify(&out).expect("verifies"), 1);
}

#[test]
fn build_without_translation_keeps_archive() {
    let blob = sample_archive();
    let doc = doc_with(vec![unit("0xc", "text", one("Hello"), Some(one("")))]);
    let (out, stats) = build(&doc, &blob).expect("builds");
    assert_eq!(stats.translated_units, 0);
    assert_eq!(stats.scripts_modified, 0);
    assert_eq!(out, blob);
}

#[test]
fn build_same_text_counts_but_does_not_modify() {
    let blob = sample_archive();
    let doc = doc_with(vec![unit("0xc", "text", one("Hello"), Some(one("Hello")))]);
    let (out, stats) = build(&doc, &blob).expect("builds");
    assert_eq!(stats.translated_units, 1);
    assert_eq!(stats.scripts_modified, 0);
    assert_eq!(out, blob);
}

#[test]
fn build_ignores_files_not_in_archive() {
    let blob = sample_archive();
    let doc = Document {
        meta: meta(),
        files: vec![FileUnits { name: "other.asb".to_string(), units: Err("not a list".to_string()) }],
    };
    let (out, stats) = build(&doc, &blob).expect("builds");
    assert_eq!(out, blob);
    assert_eq!(stats.translated_units, 0);
}

#[test]
fn build_bad_units_for_present_file() {
    let blob = sample_archive();
    let doc = Document {
        meta: meta(),
        files: vec![FileUnits { name: "kar_c1.asb".to_string(), units: Err("not a list".to_string()) }],
    };
    match build(&doc, &blob).map(|_| ()) {
        Err(PatchError::Format(m)) => assert_eq!(m, "bad units for kar_c1.asb: not a list"),
        other => panic!("unexpected {other:?}"),
    }
}

#[test]
fn build_unknown_offset_is_mismatch() {
    let blob = sample_archive();
    let doc = doc_with(vec![unit("0x5", "text", one("?"), Some(one("x")))]);
    match build(&doc, &blob).map(|_| ()) {
        Err(PatchError::Mismatch(m)) => {
            assert_eq!(m, "kar_c1.asb: no instruction at 0x5 - patch does not match this script.arc")
        }
        other => panic!("unexpected {other:?}"),
    }
}

#[test]
fn build_non_text_record_is_mismatch() {
    let blob = sample_archive();
    let doc = doc_with(vec![unit("0x49", "text", one("?"), Some(one("x")))]);
    match build(&doc, &blob).map(|_| ()) {
        Err(PatchError::Mismatch(m)) => assert_eq!(m, "kar_c1.asb 0x49: not a text record"),
        other => panic!("unexpected {other:?}"),
    }
}

#[test]
fn build_bad_offset_text_is_format() {
    let blob = sample_archive();
    let doc = doc_with(vec![unit("zz", "text", one("Hello"), Some(one("x")))]);
    match build(&doc, &blob).map(|_| ()) {
        Err(PatchError::Format(m)) => assert_eq!(m, "bad offset \"zz\""),
        other => panic!("unexpected {other:?}"),
    }
}

#[test]
fn build_unencodable_translation() {
    let blob = sample_archive();
    let doc = doc_with(vec![unit("0xc", "text", one("Hello"), Some(one("\u{1F600}")))]);
    match build(&doc, &blob).map(|_| ()) {
        Err(PatchError::Encoding(m)) => assert_eq!(m, "offset 0xc: cannot encode \"\u{1F600}\" as cp932"),
        other => panic!("unexpected {other:?}"),
    }
}

#[test]
fn build_choice_count_mismatch() {
    let blob = sample_archive();
    let doc = doc_with(vec![unit("0x2a", "choice", many(&["Yes"]), Some(many(&["Y"])))]);
    match build(&doc, &blob).map(|_| ()) {
        Err(PatchError::Mismatch(m)) => assert_eq!(m, "string count mismatch at 0x2a: 1 != 2"),
        other => panic!("unexpected {other:?}"),
    }
}

#[test]
fn build_bad_archive() {
    let doc = doc_with(Vec::new());
    match build(&doc, &[1u8; 20]).map(|_| ()) {
        Err(PatchError::Format(m)) => assert_eq!(m, "ARC file too small"),
        other => panic!("unexpected {other:?}"),
    }
}

#[test]
fn verify_counts_scripts() {
    assert_eq!(verify(&sample_archive()).expect("verifies"), 1);
    let bad = archive(&[("x.asb", b"ASB\x1a\x04\x00\x00\x00\x00\x00\x00\x00zzzz".to_vec())]);
    match verify(&bad) {
        Err(PatchError::Format(m)) => assert_eq!(m, "ASB CRC mismatch after decrypt"),
        other => panic!("unexpected {other:?}"),
    }
    assert!(matches!(verify(&[0u8; 4]), Err(PatchError::Format(_))));
    let only_data = archive(&[("data.bin", b"ASB\x1a".to_vec())]);
    assert_eq!(verify(&only_data).expect("verifies"), 0);
    let a = encrypt_asb(&odd_script(), TRIPTYCH_KEY).expect("compresses");
    let b = encrypt_asb(&sample_script(), TRIPTYCH_KEY).expect("compresses");
    let two = archive(&[("a.asb", a), ("n.txt", b"x".to_vec()), ("B.ASB", b)]);
    assert_eq!(verify(&two).expect("verifies"), 2);
}

#[test]
fn source_name_cases() {
    let with = |s: &str| source_name(&Meta { game: String::new(), source: s.to_string(), note: String::new() });
    assert_eq!(with(""), "script.arc");
    assert_eq!(with("   "), "script.arc");
    assert_eq!(with("script.arc"), "script.arc");
    assert_eq!(with(" backup\\script.arc "), "script.arc");
    assert_eq!(with("backup/other.arc"), "other.arc");
    assert_eq!(with("dir/"), "dir");
    assert_eq!(with("x/."), "x");
    assert_eq!(with("a/.."), "script.arc");
    assert_eq!(with("/"), "script.arc");
}

#[test]
fn offsets_format_and_parse() {
    assert_eq!(format_offset(0x18f), "0x18f");
    assert_eq!(format_offset(0), "0x0");
    assert_eq!(format_offset(0xc341), "0xc341");
    assert_eq!(parse_offset("0x18f").expect("parses"), 0x18f);
    assert_eq!(parse_offset(" 0XC341 ").expect("parses"), 0xc341);
    assert_eq!(parse_offset("ff").expect("parses"), 255);
    assert_eq!(parse_offset("+1f").expect("parses"), 31);
    for n in [0usize, 1, 15, 16, 0x1234_5678, usize::MAX] {
        assert_eq!(parse_offset(&format_offset(n)).expect("parses"), n);
    }
    for bad in ["", "0x", "zz", "0x-1", "+", "0x 1", "1g"] {
        assert!(matches!(parse_offset(bad), Err(PatchError::Format(_))), "{bad}");
    }
    assert!(matches!(parse_offset("0x1ffffffffffffffff"), Err(PatchError::Format(_))));
}

#[test]
fn sanitize_maps_punctuation() {
    let s = sanitize("\u{2018}a\u{2019} \u{201c}b\u{201d} c\u{2013}d\u{2014}e\u{2026}\u{a0}f");
    assert_eq!(s, "'a' \"b\" c-d\u{2015}e... f");
    assert_eq!(sanitize("plain"), "plain");
}

#[test]
fn asb_extension() {
    assert!(has_asb_extension("a.asb"));
    assert!(has_asb_extension("B.AsB"));
    assert!(!has_asb_extension("asb"));
    assert!(!has_asb_extension("a.asbx"));
}

#[test]
fn error_descriptions() {
    assert_eq!(PatchError::Format("x".to_string()).describe(), "format error: x");
    assert_eq!(PatchError::Mismatch("y".to_string()).describe(), "patch mismatch: y");
    assert_eq!(PatchError::Encoding("z".to_string()).describe(), "encoding error: z");
    assert_eq!(PatchError::Io("w".to_string()).describe(), "io error: w");
}

#[test]
fn extract_then_build_untranslated_keeps_archive() {
    let a = encrypt_asb(&odd_script(), TRIPTYCH_KEY).expect("compresses");
    let b = encrypt_asb(&sample_script(), TRIPTYCH_KEY).expect("compresses");
    let blob = archive(&[("a.asb", a), ("notes.txt", b"x".to_vec()), ("b.asb", b)]);
    let (doc, _) = extract(&blob, "script.arc").expect("extracts");
    let (out, stats) = build(&doc, &blob).expect("builds");
    assert_eq!(stats.translated_units, 0);
    assert_eq!(stats.scripts_modified, 0);
    assert_eq!(out, blob);
}

#[test]
fn decimal_counts() {
    assert_eq!(tripatch::text::format_decimal(0), "0");
    assert_eq!(tripatch::text::format_decimal(10), "10");
    assert_eq!(tripatch::text::format_decimal(4096), "4096");
}

#[test]
fn extract_names_each_script_once() {
    let a = encrypt_asb(&sample_script(), TRIPTYCH_KEY).expect("compresses");
    let blob = archive(&[("a.asb", a.clone()), ("a.asb", a)]);
    let (doc, stats) = extract(&blob, "script.arc").expect("extracts");
    assert_eq!(doc.files.len(), 1);
    assert_eq!(stats.total_units, 4);
}

#[test]
fn messages_quote_texts_as_debug_does() {
    let text = "a\"b\\c\td";
    match parse_offset(text) {
        Err(PatchError::Format(m)) => assert_eq!(m, format!("bad offset {:?}", text)),
        other => panic!("unexpected {other:?}"),
    }
    let bad = "say \"\u{1F600}\"\n";
    match tripatch::asb::cp932_encode(bad) {
        Err(PatchError::Encoding(m)) => assert_eq!(m, format!("cannot encode {:?} as cp932", bad)),
        other => panic!("unexpected {other:?}"),
    }
    let blob = sample_archive();
    let doc = doc_with(vec![unit("0xc", "text", one("Hello"), Some(one("\u{1F600}\\")))]);
    match build(&doc, &blob).map(|_| ()) {
        Err(PatchError::Encoding(m)) => {
            assert_eq!(m, format!("offset 0xc: cannot encode {:?} as cp932", "\u{1F600}\\"))
        }
        other => panic!("unexpected {other:?}"),
    }
}

#[test]
fn patch_with_own_units_gives_script_back() {
    for raw in [sample_script(), odd_script()] {
        let mut warnings = Vec::new();
        let units = extract_file("s.asb", &raw, &mut warnings).expect("extracts");
        assert_eq!(patch_script("s.asb", &raw, &units).expect("patches"), raw);
    }
}

#[test]
fn choice_without_options_verifies_and_patches() {
    let mut s = Vec::new();
    s.extend(record(0x2a, &text_args(&[b"Hello"], 0)));
    s.extend(record(0x0d, &[0u8; 8]));
    s.extend(terminator());
    let asb = encrypt_asb(&s, TRIPTYCH_KEY).expect("compresses");
    let blob = archive(&[("c.asb", asb)]);
    assert_eq!(verify(&blob).expect("verifies"), 1);
    let doc = Document {
        meta: meta(),
        files: vec![FileUnits {
            name: "c.asb".to_string(),
            units: Ok(vec![unit("0x0", "text", one("Hello"), Some(one("Hi")))]),
        }],
    };
    let (out, stats) = build(&doc, &blob).expect("builds");
    assert_eq!(stats.scripts_modified, 1);
    let raw = script_of(&out, "c.asb");
    assert_eq!(strings_at(&raw, 0), vec!["Hi".to_string()]);
    // extracting would rebuild the option-less choice, which has no room for its prefix
    assert!(matches!(extract(&blob, "script.arc"), Err(PatchError::Format(_))));
}
