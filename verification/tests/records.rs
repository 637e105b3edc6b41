use tripatch::asb::{
    cp932_decode, cp932_encode, headers_fit, parse_script, read_strings, rebuild_instr,
    rebuild_script, records_fit_rebuild, text_record_fits, Instr,
};
use tripatch::error::PatchError;

fn record(op: u32, args: &[u8]) -> Vec<u8> {
    let mut r = Vec::new();
    r.extend_from_slice(&op.to_le_bytes());
    r.extend_from_slice(&((8 + args.len()) as u32).to_le_bytes());
    r.extend_from_slice(args);
    r
}

fn text_args(strings: &[&[u8]], prefix4: u32) -> Vec<u8> {
    let mut a = vec![0u8; 16];
    a[4..8].copy_from_slice(&prefix4.to_le_bytes());
    for s in strings {
        a.extend_from_slice(s);
        a.push(0);
    }
    a
}

fn terminator() -> Vec<u8> {
    let mut r = Vec::new();
    r.extend_from_slice(&0u32.to_le_bytes());
    r.extend_from_slice(&0xFFFF_FFFFu32.to_le_bytes());
    r.extend_from_slice(&[0xFF, 0xFF, 0xFF, 0xFF, 0, 0, 0, 0]);
    r
}

// A script: a jump to the terminator, a dialogue line, a choice, a plain record and the terminator.
// Offsets: jump 0x00 (12 bytes), text 0x0c (30 bytes), choice 0x2a (31 bytes), op 0x30 at 0x49
// (12 bytes), terminator at 0x55.
fn sample_script() -> Vec<u8> {
    let mut s = Vec::new();
    s.extend(record(0x0a, &0x55u32.to_le_bytes()));
    s.extend(record(0x2a, &text_args(&[b"Hello"], 0)));
    s.extend(record(0x0d, &text_args(&[b"Yes", b"No"], 2)));
    s.extend(record(0x30, &[1, 2, 3, 4]));
    s.extend(terminator());
    s
}

fn parsed(raw: &[u8]) -> Vec<Instr> {
    assert!(headers_fit(raw));
    parse_script(raw).expect("script parses")
}

#[test]
fn parse_script_splits_records() {
    let raw = sample_script();
    let instrs = parsed(&raw);
    let starts: Vec<usize> = instrs.iter().map(|i| i.start).collect();
    let ops: Vec<u32> = instrs.iter().map(|i| i.op).collect();
    assert_eq!(starts, vec![0x00, 0x0c, 0x2a, 0x49, 0x55]);
    assert_eq!(ops, vec![0x0a, 0x2a, 0x0d, 0x30, 0x00]);
    assert_eq!(instrs[4].raw.len(), 16);
    assert_eq!(instrs[3].args(), &[1, 2, 3, 4]);
}

#[test]
fn parse_script_without_terminator_fails() {
    let raw = record(0x2a, &text_args(&[b"Hi"], 0));
    assert!(headers_fit(&raw));
    match parse_script(&raw) {
        Err(PatchError::Format(m)) => assert_eq!(m, "script has no terminator record"),
        other => panic!("unexpected {:?}", other.err()),
    }
}

#[test]
fn parse_script_rejects_short_record() {
    let mut raw = Vec::new();
    raw.extend_from_slice(&5u32.to_le_bytes());
    raw.extend_from_slice(&4u32.to_le_bytes());
    raw.extend(terminator());
    assert!(headers_fit(&raw));
    match parse_script(&raw) {
        Err(PatchError::Format(m)) => assert_eq!(m, "bad record at 0x0: op=0x5 len=0x4"),
        other => panic!("unexpected {:?}", other.err()),
    }
}

#[test]
fn parse_script_rejects_record_past_end() {
    let mut raw = Vec::new();
    raw.extend_from_slice(&5u32.to_le_bytes());
    raw.extend_from_slice(&100u32.to_le_bytes());
    raw.extend_from_slice(&[0u8; 8]);
    assert!(headers_fit(&raw));
    assert!(matches!(parse_script(&raw), Err(PatchError::Format(_))));
}

#[test]
fn headers_fit_detects_cut_header() {
    let mut raw = record(0x30, &[]);
    raw.extend_from_slice(&[1, 2, 3]);
    assert!(!headers_fit(&raw));
    assert!(headers_fit(&sample_script()));
    assert!(headers_fit(&[]));
}

#[test]
fn read_strings_of_text_and_choice() {
    let instrs = parsed(&sample_script());
    for i in &instrs {
        assert!(text_record_fits(i));
    }
    let (kind, plen, strings) = read_strings(&instrs[1]).expect("text record");
    assert_eq!(kind, "text");
    assert_eq!(plen, 16);
    assert_eq!(strings, vec!["Hello".to_string()]);
    let (kind, _, strings) = read_strings(&instrs[2]).expect("choice record");
    assert_eq!(kind, "choice");
    assert_eq!(strings, vec!["Yes".to_string(), "No".to_string()]);
    assert!(read_strings(&instrs[0]).is_none());
    assert!(read_strings(&instrs[3]).is_none());
}

#[test]
fn read_strings_speaker_without_name_is_none() {
    let raw = record(0x29, &[0u8; 16]);
    let ins = Instr { start: 0, op: 0x29, raw };
    assert!(text_record_fits(&ins));
    assert!(read_strings(&ins).is_none());
    let named = Instr { start: 0, op: 0x29, raw: record(0x29, &text_args(&[b"Rei"], 0)) };
    let (kind, _, strings) = read_strings(&named).expect("named speaker");
    assert_eq!(kind, "speaker");
    assert_eq!(strings, vec!["Rei".to_string()]);
}

#[test]
fn read_strings_unterminated_is_none() {
    let mut args = vec![0u8; 16];
    args.extend_from_slice(b"abc");
    let ins = Instr { start: 0, op: 0x04, raw: record(0x04, &args) };
    assert!(text_record_fits(&ins));
    assert!(read_strings(&ins).is_none());
}

#[test]
fn read_strings_decodes_cp932() {
    let ins = Instr { start: 0, op: 0x2a, raw: record(0x2a, &text_args(&[&[0x82, 0xa0]], 0)) };
    let (_, _, strings) = read_strings(&ins).expect("text record");
    assert_eq!(strings, vec!["\u{3042}".to_string()]);
}

#[test]
fn rebuild_instr_replaces_strings() {
    let instrs = parsed(&sample_script());
    let new = rebuild_instr(&instrs[1], &["Good morning".to_string()]).expect("rebuilds");
    assert_eq!(new.start, 0x0c);
    assert_eq!(new.op, 0x2a);
    assert_eq!(new.raw, record(0x2a, &text_args(&[b"Good morning"], 0)));
    let same = rebuild_instr(&instrs[2], &["Yes".to_string(), "No".to_string()]).expect("rebuilds");
    assert_eq!(same.raw, instrs[2].raw);
}

#[test]
fn rebuild_instr_count_mismatch() {
    let instrs = parsed(&sample_script());
    let r = rebuild_instr(&instrs[2], &["Only one".to_string()]);
    match r {
        Err(PatchError::Mismatch(m)) => assert_eq!(m, "string count mismatch at 0x2a: 1 != 2"),
        other => panic!("unexpected {:?}", other.err()),
    }
}

#[test]
fn rebuild_instr_not_text() {
    let instrs = parsed(&sample_script());
    let r = rebuild_instr(&instrs[3], &["x".to_string()]);
    match r {
        Err(PatchError::Format(m)) => assert_eq!(m, "not a text record at 0x49"),
        other => panic!("unexpected {:?}", other.err()),
    }
}

#[test]
fn rebuild_instr_unencodable() {
    let instrs = parsed(&sample_script());
    let r = rebuild_instr(&instrs[1], &["\u{1F600}".to_string()]);
    match r {
        Err(PatchError::Encoding(m)) => assert_eq!(m, "cannot encode \"\u{1F600}\" as cp932"),
        other => panic!("unexpected {:?}", other.err()),
    }
}

#[test]
fn rebuild_script_unchanged_gives_script_back() {
    let raw = sample_script();
    let instrs = parsed(&raw);
    assert!(records_fit_rebuild(&instrs));
    assert_eq!(rebuild_script(&instrs).expect("rebuilds"), raw);
}

#[test]
fn rebuild_script_relocates_jumps() {
    let raw = sample_script();
    let mut instrs = parsed(&raw);
    instrs[1] = rebuild_instr(&instrs[1], &["Hello there".to_string()]).expect("rebuilds");
    assert!(records_fit_rebuild(&instrs));
    let out = rebuild_script(&instrs).expect("rebuilds");
    // The dialogue grew by 6 bytes, so the terminator moved from 0x55 to 0x5b.
    assert_eq!(out.len(), raw.len() + 6);
    assert_eq!(&out[0..4], &0x0au32.to_le_bytes());
    assert_eq!(&out[8..12], &0x5bu32.to_le_bytes());
    assert_eq!(&out[0x5b..], &terminator()[..]);
    let again = parsed(&out);
    assert_eq!(again.len(), 5);
    assert_eq!(again[4].start, 0x5b);
}

#[test]
fn rebuild_script_jump_to_middle_fails() {
    let mut raw = Vec::new();
    raw.extend(record(0x0b, &0x05u32.to_le_bytes()));
    raw.extend(terminator());
    let instrs = parsed(&raw);
    assert!(records_fit_rebuild(&instrs));
    match rebuild_script(&instrs) {
        Err(PatchError::Mismatch(m)) => {
            assert_eq!(m, "jump at 0x0 targets 0x5, which is not an instruction start")
        }
        other => panic!("unexpected {:?}", other.err()),
    }
}

#[test]
fn records_fit_rebuild_needs_jump_target() {
    let ins = Instr { start: 0, op: 0x0c, raw: record(0x0c, &[]) };
    assert!(!records_fit_rebuild(&[ins]));
}

#[test]
fn cp932_round_trip() {
    assert_eq!(cp932_encode("abc").expect("ascii"), b"abc".to_vec());
    assert_eq!(cp932_encode("\u{3042}").expect("hiragana"), vec![0x82, 0xa0]);
    assert_eq!(cp932_decode(&[0x82, 0xa0, b'!']), "\u{3042}!");
    assert!(matches!(cp932_encode("\u{1F600}"), Err(PatchError::Encoding(_))));
    assert_eq!(cp932_encode("Plain English, 100%!").expect("ascii"), b"Plain English, 100%!".to_vec());
}

#[test]
fn choice_without_options_reads_empty() {
    let ins = Instr { start: 0, op: 0x0d, raw: record(0x0d, &[0u8; 8]) };
    assert!(text_record_fits(&ins));
    let (kind, _, strings) = read_strings(&ins).expect("choice record");
    assert_eq!(kind, "choice");
    assert!(strings.is_empty());
    // with an option count but no room for the prefix the record cannot be read
    let mut args = vec![0u8; 8];
    args[4] = 1;
    let short = Instr { start: 0, op: 0x0d, raw: record(0x0d, &args) };
    assert!(!text_record_fits(&short));
    // a record of another opcode is never read
    let other = Instr { start: 0, op: 0x30, raw: vec![1, 2] };
    assert!(text_record_fits(&other));
    assert!(read_strings(&other).is_none());
}

#[test]
fn rebuilt_record_reads_back() {
    let instrs = parsed(&sample_script());
    let new = vec!["Sure \"yes\"".to_string(), "\u{3042}\u{3044}".to_string()];
    let rebuilt = rebuild_instr(&instrs[2], &new).expect("rebuilds");
    assert!(text_record_fits(&rebuilt));
    let (_, _, back) = read_strings(&rebuilt).expect("text record");
    assert_eq!(back, new);
}

#[test]
fn short_jump_after_stray_jump_is_mismatch() {
    let mut raw = Vec::new();
    raw.extend(record(0x0b, &0x05u32.to_le_bytes()));
    raw.extend(record(0x0c, &[]));
    raw.extend(terminator());
    let instrs = parsed(&raw);
    assert!(records_fit_rebuild(&instrs));
    match rebuild_script(&instrs) {
        Err(PatchError::Mismatch(m)) => {
            assert_eq!(m, "jump at 0x0 targets 0x5, which is not an instruction start")
        }
        other => panic!("unexpected {:?}", other.err()),
    }
    let mut first_short = Vec::new();
    first_short.extend(record(0x0c, &[]));
    first_short.extend(record(0x0b, &0x05u32.to_le_bytes()));
    first_short.extend(terminator());
    assert!(!records_fit_rebuild(&parsed(&first_short)));
}
