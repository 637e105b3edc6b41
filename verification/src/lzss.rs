//! The LZSS variant that packs the ARC index: a control bit stream, a stream of
//! back references and a stream of literal runs.
//!
//! Packed layout:
//! `+0x00 u32 CRC32 of packed[0x14..]`, `+0x04 u32 control stream length`,
//! `+0x08 u32 back-reference stream length`, `+0x0C u32 literal stream length`,
//! `+0x10 u32 unpacked length`, `+0x14 streams: control | back references | literals`.
//! Each control bit, most significant first, selects a back reference (1: a
//! `u16` holding a count minus 3 in its top 3 bits and a distance minus 1 in its
//! low 13 bits) or a literal run (0: a byte holding the run length minus 1,
//! followed by the run).
use vstd::prelude::*;

use crate::bytes::{lemma_read_le_bytes, le_bytes, push_u32_le, spec_u16_le, spec_u32_le, u16_at, u32_at};
use crate::zlib::{crc32, crc32_of};

verus! {

/// Where the unpacker stands: the cursors into the control, back-reference and literal
/// streams, the control bit being read, and the output so far.
pub struct UnpackState {
    pub control: nat,
    pub refs: nat,
    pub lits: nat,
    pub mask: u8,
    pub out: Seq<u8>,
}

/// `w` extended by `count` bytes, each copied from `distance` bytes before it.
pub open spec fn copy_back(w: Seq<u8>, distance: nat, count: nat) -> Seq<u8>
    decreases count,
{
    if count == 0 {
        w
    } else {
        copy_back(w.push(w[w.len() - distance]), distance, (count - 1) as nat)
    }
}

/// Copying `count` bytes back lengthens the output by `count`.
pub proof fn lemma_copy_back_len(w: Seq<u8>, distance: nat, count: nat)
    ensures
        copy_back(w, distance, count).len() == w.len() + count,
    decreases count,
{
    if count > 0 {
        lemma_copy_back_len(w.push(w[w.len() - distance]), distance, (count - 1) as nat);
    }
}

/// The state with the control bit advanced: the next lower bit, or the top bit of the next
/// control byte.
pub open spec fn next_bit(st: UnpackState) -> UnpackState {
    if st.mask >> 1u8 == 0 {
        UnpackState { control: st.control + 1, mask: 0x80, ..st }
    } else {
        UnpackState { mask: st.mask >> 1u8, ..st }
    }
}

/// Runs the unpacker from `st` until `out_len` bytes are out; `None` when it would read past
/// the packed data, copy from before the start, or write past `out_len`.
pub open spec fn unpack_steps(packed: Seq<u8>, out_len: nat, st: UnpackState) -> Option<Seq<u8>>
    decreases out_len - st.out.len(),
{
    if st.out.len() >= out_len {
        Some(st.out)
    } else if st.control >= packed.len() {
        None
    } else if packed[st.control as int] & st.mask != 0 {
        if st.refs + 2 > packed.len() {
            None
        } else {
            let raw = spec_u16_le(packed, st.refs as int);
            let count = ((raw >> 13u16) + 3) as nat;
            let distance = ((raw & 0x1FFFu16) + 1) as nat;
            if distance > st.out.len() || st.out.len() + count > out_len {
                None
            } else {
                proof {
                    lemma_copy_back_len(st.out, distance, count);
                }
                unpack_steps(
                    packed,
                    out_len,
                    next_bit(
                        UnpackState {
                            refs: st.refs + 2,
                            out: copy_back(st.out, distance, count),
                            ..st
                        },
                    ),
                )
            }
        }
    } else {
        if st.lits >= packed.len() {
            None
        } else {
            let count = packed[st.lits as int] + 1;
            if st.lits + 1 + count > packed.len() || st.out.len() + count > out_len {
                None
            } else {
                unpack_steps(
                    packed,
                    out_len,
                    next_bit(
                        UnpackState {
                            lits: (st.lits + 1 + count) as nat,
                            out: st.out + packed.subrange(st.lits as int + 1, st.lits + 1 + count),
                            ..st
                        },
                    ),
                )
            }
        }
    }
}

/// Whether `o` is `w` followed by bytes each equal to the byte `distance` places before it.
pub open spec fn repeats_back(w: Seq<u8>, o: Seq<u8>, distance: nat) -> bool {
    &&& o.len() >= w.len()
    &&& o.take(w.len() as int) == w
    &&& forall|k: int| w.len() <= k < o.len() ==> #[trigger] o[k] == o[k - distance]
}

proof fn lemma_copy_back_repeats(w: Seq<u8>, distance: nat, count: nat)
    requires
        1 <= distance <= w.len(),
    ensures
        copy_back(w, distance, count).len() == w.len() + count,
        repeats_back(w, copy_back(w, distance, count), distance),
    decreases count,
{
    lemma_copy_back_len(w, distance, count);
    if count == 0 {
        assert(w.take(w.len() as int) =~= w);
    } else {
        let w2 = w.push(w[w.len() - distance]);
        lemma_copy_back_repeats(w2, distance, (count - 1) as nat);
        let r = copy_back(w, distance, count);
        assert(r == copy_back(w2, distance, (count - 1) as nat));
        assert(r.take(w2.len() as int) == w2);
        assert(r.take(w.len() as int) =~= w) by {
            assert forall|k: int| 0 <= k < w.len() implies r.take(w.len() as int)[k] == w[k] by {
                assert(r[k] == r.take(w2.len() as int)[k]);
            }
        }
        assert forall|k: int| w.len() <= k < r.len() implies #[trigger] r[k] == r[k - distance] by {
            if k == w.len() {
                assert(r[k] == r.take(w2.len() as int)[k]);
                assert(r[k - distance] == r.take(w2.len() as int)[k - distance]);
            }
        }
    }
}

proof fn lemma_repeats_unique(w: Seq<u8>, a: Seq<u8>, b: Seq<u8>, distance: nat, k: int)
    requires
        1 <= distance <= w.len(),
        repeats_back(w, a, distance),
        repeats_back(w, b, distance),
        a.len() == b.len(),
        0 <= k < a.len(),
    ensures
        a[k] == b[k],
    decreases k,
{
    if k < w.len() {
        assert(a[k] == a.take(w.len() as int)[k]);
        assert(b[k] == b.take(w.len() as int)[k]);
    } else {
        lemma_repeats_unique(w, a, b, distance, k - distance);
        assert(a[k] == a[k - distance]);
        assert(b[k] == b[k - distance]);
    }
}

/// A back reference: when the control bit is set, the little-endian word `r` at the reference
/// cursor makes the unpacker append `r / 8192 + 3` bytes (its top 3 bits, plus 3), each equal
/// to the byte `r % 8192 + 1` places before it (its low 13 bits, plus 1), then go on with the
/// next reference and the next control bit.
pub proof fn lemma_unpack_back_reference(packed: Seq<u8>, out_len: nat, st: UnpackState, o: Seq<u8>)
    requires
        st.out.len() < out_len,
        st.control < packed.len(),
        packed[st.control as int] & st.mask != 0,
        st.refs + 2 <= packed.len(),
        ({
            let r = packed[st.refs as int] + 256 * packed[st.refs as int + 1];
            &&& r % 8192 + 1 <= st.out.len()
            &&& st.out.len() + r / 8192 + 3 <= out_len
            &&& o.len() == st.out.len() + r / 8192 + 3
            &&& repeats_back(st.out, o, (r % 8192 + 1) as nat)
        }),
    ensures
        unpack_steps(packed, out_len, st) == unpack_steps(
            packed,
            out_len,
            next_bit(UnpackState { refs: st.refs + 2, out: o, ..st }),
        ),
{
    let r = packed[st.refs as int] + 256 * packed[st.refs as int + 1];
    let raw = spec_u16_le(packed, st.refs as int);
    assert(raw == r);
    assert(raw >> 13u16 == raw / 8192 && raw & 0x1FFFu16 == raw % 8192) by (bit_vector);
    let count = ((raw >> 13u16) + 3) as nat;
    let distance = ((raw & 0x1FFFu16) + 1) as nat;
    lemma_copy_back_repeats(st.out, distance, count);
    let c = copy_back(st.out, distance, count);
    assert forall|k: int| 0 <= k < o.len() implies o[k] == c[k] by {
        lemma_repeats_unique(st.out, o, c, distance, k);
    }
    assert(o =~= c);
}

/// The index packed in `packed`, or `None` when its header is cut off or unpacking it would
/// leave the data (see [`unpack_steps`]).
pub open spec fn spec_unpack_index(packed: Seq<u8>) -> Option<Seq<u8>> {
    if packed.len() < 0x14 {
        None
    } else {
        let control_len = spec_u32_le(packed, 4) as nat;
        let refs_len = spec_u32_le(packed, 8) as nat;
        let out_len = spec_u32_le(packed, 0x10) as nat;
        unpack_steps(
            packed,
            out_len,
            UnpackState {
                control: 0x14,
                refs: 0x14 + control_len,
                lits: 0x14 + control_len + refs_len,
                mask: 0x80,
                out: Seq::empty(),
            },
        )
    }
}

/// Unpacks the index, or returns `None` where the packed data is inconsistent (see
/// [`spec_unpack_index`]).
pub fn try_unpack_index(packed: &[u8]) -> (r: Option<Vec<u8>>)
    ensures
        r matches Some(v) ==> spec_unpack_index(packed@) == Some(v@),
        r is None ==> spec_unpack_index(packed@) is None,
{
    let n = packed.len();
    if n < 0x14 {
        return None;
    }
    let control_len = u32_at(packed, 4) as u64;
    let refs_len = u32_at(packed, 8) as u64;
    let out_len = u32_at(packed, 0x10) as usize;
    let ghost start = UnpackState {
        control: 0x14,
        refs: (0x14 + control_len) as nat,
        lits: (0x14 + control_len + refs_len) as nat,
        mask: 0x80,
        out: Seq::empty(),
    };
    let mut control: u64 = 0x14;
    let mut refs: u64 = 0x14 + control_len;
    let mut lits: u64 = 0x14 + control_len + refs_len;
    let mut mask: u8 = 0x80;
    let mut out: Vec<u8> = Vec::new();
    assert(spec_unpack_index(packed@) == unpack_steps(packed@, out_len as nat, start));
    while out.len() < out_len
        invariant
            n == packed@.len(),
            out@.len() <= out_len,
            out_len <= u32::MAX,
            0x14 <= n,
            control <= n,
            refs <= 0x1_0000_0014 || refs <= n,
            lits <= 0x2_0000_0014 || lits <= n,
            spec_unpack_index(packed@) == unpack_steps(
                packed@,
                out_len as nat,
                UnpackState {
                    control: control as nat,
                    refs: refs as nat,
                    lits: lits as nat,
                    mask,
                    out: out@,
                },
            ),
        decreases out_len - out@.len(),
    {
        let ghost st = UnpackState {
            control: control as nat,
            refs: refs as nat,
            lits: lits as nat,
            mask,
            out: out@,
        };
        if control >= n as u64 {
            return None;
        }
        if packed[control as usize] & mask != 0 {
            if refs > n as u64 - 2 {
                return None;
            }
            let raw = u16_at(packed, refs as usize);
            assert(raw >> 13u16 <= 7) by (bit_vector);
            assert(raw & 0x1FFFu16 <= 0x1FFF) by (bit_vector);
            let count = ((raw >> 13u16) + 3) as usize;
            let distance = ((raw & 0x1FFFu16) + 1) as usize;
            if distance > out.len() || count > out_len - out.len() {
                return None;
            }
            let ghost w0 = out@;
            let mut k: usize = 0;
            while k < count
                invariant
                    k <= count,
                    1 <= distance <= w0.len(),
                    out@.len() == w0.len() + k,
                    copy_back(w0, distance as nat, count as nat) == copy_back(
                        out@,
                        distance as nat,
                        (count - k) as nat,
                    ),
                decreases count - k,
            {
                let b = out[out.len() - distance];
                out.push(b);
                k = k + 1;
            }
            proof {
                lemma_copy_back_len(w0, distance as nat, count as nat);
            }
            assert(out@ == copy_back(w0, distance as nat, count as nat));
            refs = refs + 2;
        } else {
            if lits >= n as u64 {
                return None;
            }
            let count = packed[lits as usize] as usize + 1;
            if count as u64 > n as u64 - lits - 1 || count > out_len - out.len() {
                return None;
            }
            let from = (lits + 1) as usize;
            let ghost w0 = out@;
            out.extend_from_slice(&packed[from..from + count]);
            assert(out@ == w0 + packed@.subrange(lits as int + 1, lits + 1 + count));
            lits = lits + 1 + count as u64;
        }
        let ghost mid = UnpackState {
            control: control as nat,
            refs: refs as nat,
            lits: lits as nat,
            mask,
            out: out@,
        };
        assert(unpack_steps(packed@, out_len as nat, st) == unpack_steps(
            packed@,
            out_len as nat,
            next_bit(mid),
        ));
        if mask >> 1u8 == 0 {
            control = control + 1;
            mask = 0x80;
        } else {
            mask = mask >> 1u8;
        }
    }
    Some(out)
}

/// Unpacks the LZSS-packed ARC index.
pub fn unpack_index(packed: &[u8]) -> (r: Vec<u8>)
    requires
        spec_unpack_index(packed@) is Some,
    ensures
        r@ == spec_unpack_index(packed@).unwrap(),
{
    match try_unpack_index(packed) {
        Some(v) => v,
        None => Vec::new(),
    }
}

// ---------------------------------------------------------------------------
// Packing
// ---------------------------------------------------------------------------
/// The length of the next literal run over `n` remaining bytes: all of them, at most 256.
pub open spec fn run_len(n: nat) -> nat {
    if n < 256 {
        n
    } else {
        256
    }
}

/// `data` as consecutive literal runs of at most 256 bytes, each after a byte holding its
/// length minus one.
pub open spec fn literal_runs(data: Seq<u8>) -> Seq<u8>
    decreases data.len(),
{
    if data.len() == 0 {
        Seq::empty()
    } else {
        let c = run_len(data.len());
        seq![(c - 1) as u8] + data.take(c as int) + literal_runs(data.skip(c as int))
    }
}

/// The number of literal runs for `n` bytes.
pub open spec fn run_count(n: nat) -> nat {
    (n + 255) / 256
}

/// The number of control bytes for `n` bytes: one bit per run.
pub open spec fn control_len(n: nat) -> nat {
    (run_count(n) + 7) / 8
}

/// `n` zero bytes.
pub open spec fn zeros(n: nat) -> Seq<u8> {
    Seq::new(n, |i: int| 0u8)
}

/// The streams of a packed index holding only literal runs: all-zero control bits, then the runs.
pub open spec fn pack_streams(data: Seq<u8>) -> Seq<u8> {
    zeros(control_len(data.len())) + literal_runs(data)
}

/// The packed form of `data` that [`pack_index`] writes: the CRC-32 of the streams, the stream
/// and output lengths (kept to their low 32 bits), and the streams.
pub open spec fn spec_pack_index(data: Seq<u8>) -> Seq<u8> {
    let streams = pack_streams(data);
    le_bytes(crc32_of(streams)) + le_bytes(control_len(data.len()) as u32) + le_bytes(0) + le_bytes(
        literal_runs(data).len() as u32,
    ) + le_bytes(data.len() as u32) + streams
}

proof fn lemma_literal_runs_step(d: Seq<u8>)
    requires
        d.len() > 0,
    ensures
        ({
            let c = run_len(d.len());
            &&& 1 <= c <= 256
            &&& literal_runs(d) == seq![(c - 1) as u8] + d.take(c as int) + literal_runs(d.skip(c as int))
            &&& run_count(d.skip(c as int).len()) + 1 == run_count(d.len())
        }),
{
    let c = run_len(d.len());
    let n = d.len();
    assert(run_count((n - c) as nat) + 1 == run_count(n)) by (nonlinear_arith)
        requires
            c == (if n < 256 { n } else { 256 }),
            n > 0,
    ;
}

pub proof fn lemma_literal_runs_len(d: Seq<u8>)
    ensures
        literal_runs(d).len() == d.len() + run_count(d.len()),
    decreases d.len(),
{
    if d.len() > 0 {
        lemma_literal_runs_step(d);
        lemma_literal_runs_len(d.skip(run_len(d.len()) as int));
    } else {
        assert(run_count(0) == 0);
    }
}

/// Unpacking literal runs read from all-zero control bits reproduces the bytes of the runs.
proof fn lemma_unpack_literal_runs(
    packed: Seq<u8>,
    out_len: nat,
    st: UnpackState,
    s: Seq<u8>,
    cend: nat,
    b: u8,
)
    requires
        st.out.len() + s.len() == out_len,
        st.lits + literal_runs(s).len() <= packed.len(),
        packed.subrange(st.lits as int, (st.lits + literal_runs(s).len()) as int) == literal_runs(s),
        b < 8,
        st.mask == 0x80u8 >> b,
        st.control <= cend <= packed.len(),
        forall|i: int| st.control <= i < cend ==> packed[i] == 0,
        (cend - st.control) * 8 - b >= run_count(s.len()),
    ensures
        unpack_steps(packed, out_len, st) == Some(st.out + s),
    decreases s.len(),
{
    if s.len() == 0 {
        assert(st.out + s =~= st.out);
    } else {
        lemma_literal_runs_step(s);
        let c = run_len(s.len());
        let runs = literal_runs(s);
        let rest = literal_runs(s.skip(c as int));
        assert(st.control < cend);
        let z = packed[st.control as int];
        assert(z == 0);
        let m = st.mask;
        assert(z == 0 ==> z & m == 0) by (bit_vector);
        assert(packed[st.lits as int] == runs[0]);
        assert(runs[0] == (c - 1) as u8);
        assert(packed[st.lits as int] + 1 == c);
        lemma_literal_runs_len(s);
        lemma_literal_runs_len(s.skip(c as int));
        assert(packed.subrange(st.lits as int + 1, (st.lits + 1 + c) as int) =~= s.take(c as int)) by {
            assert forall|i: int| 0 <= i < c implies packed.subrange(st.lits as int + 1, (st.lits + 1 + c) as int)[i]
                == s.take(c as int)[i] by {
                assert(packed[st.lits + 1 + i] == runs[1 + i]);
            }
        }
        let lits2 = ((st.lits + 1 + c) as int) as nat;
        assert(packed.subrange(lits2 as int, (lits2 + rest.len()) as int) =~= rest) by {
            assert forall|i: int| 0 <= i < rest.len() implies packed.subrange(lits2 as int, (lits2 + rest.len()) as int)[i]
                == rest[i] by {
                assert(packed[lits2 + i] == runs[1 + c + i]);
            }
        }
        let mid = UnpackState { lits: lits2, out: st.out + s.take(c as int), ..st };
        let nxt = next_bit(mid);
        if b < 7 {
            assert((0x80u8 >> b) >> 1u8 == 0x80u8 >> ((b + 1) as u8) && 0x80u8 >> ((b + 1) as u8) != 0)
                by (bit_vector)
                requires
                    b < 7,
            ;
            lemma_unpack_literal_runs(packed, out_len, nxt, s.skip(c as int), cend, (b + 1) as u8);
        } else {
            assert(b == 7 ==> (0x80u8 >> b) >> 1u8 == 0 && 0x80u8 >> 0u8 == 0x80u8) by (bit_vector);
            lemma_unpack_literal_runs(packed, out_len, nxt, s.skip(c as int), cend, 0u8);
        }
        assert(st.out + s.take(c as int) + s.skip(c as int) =~= st.out + s);
    }
}

/// Unpacking the packed form of `data` gives `data` back.
pub proof fn lemma_pack_unpack(data: Seq<u8>)
    requires
        data.len() <= u32::MAX,
    ensures
        spec_unpack_index(spec_pack_index(data)) == Some(data),
{
    let packed = spec_pack_index(data);
    let n = data.len();
    let cl = control_len(n);
    let runs = literal_runs(data);
    let streams = pack_streams(data);
    assert(cl <= 0x0200_0000) by (nonlinear_arith)
        requires
            cl == ((n + 255) / 256 + 7) / 8,
            n <= u32::MAX,
    ;
    assert(packed.subrange(4, 8) =~= le_bytes(cl as u32));
    assert(packed.subrange(8, 12) =~= le_bytes(0));
    assert(packed.subrange(16, 20) =~= le_bytes(n as u32));
    lemma_read_le_bytes(packed, 4, cl as u32);
    lemma_read_le_bytes(packed, 8, 0);
    lemma_read_le_bytes(packed, 16, n as u32);
    lemma_literal_runs_len(data);
    let st = UnpackState {
        control: 0x14,
        refs: 0x14 + cl,
        lits: 0x14 + cl,
        mask: 0x80,
        out: Seq::empty(),
    };
    assert(packed.subrange(st.lits as int, (st.lits + runs.len()) as int) =~= runs) by {
        assert forall|i: int| 0 <= i < runs.len() implies packed.subrange(st.lits as int, (st.lits + runs.len()) as int)[i]
            == runs[i] by {
            assert(packed[0x14 + cl + i] == streams[cl + i]);
        }
    }
    assert forall|i: int| 0x14 <= i < 0x14 + cl implies packed[i] == 0 by {
        assert(packed[i] == streams[i - 0x14]);
    }
    assert((cl * 8) as int >= run_count(n)) by (nonlinear_arith)
        requires
            cl == (run_count(n) + 7) / 8,
    ;
    assert(0x80u8 >> 0u8 == 0x80u8) by (bit_vector);
    lemma_unpack_literal_runs(packed, n, st, data, (0x14 + cl) as nat, 0);
    assert(Seq::<u8>::empty() + data =~= data);
}

/// The control stream (all bits 0) and the literal runs that encode `data`.
#[verifier::spinoff_prover]
fn literal_streams(data: &[u8]) -> (r: (Vec<u8>, Vec<u8>))
    ensures
        r.0@ == zeros(control_len(data@.len())),
        r.1@ == literal_runs(data@),
{
    let n = data.len();
    let mut control: Vec<u8> = Vec::new();
    let mut runs: Vec<u8> = Vec::new();
    let mut pos: usize = 0;
    let mut bit_count: u32 = 0;
    let mut cur_byte: u8 = 0;
    let ghost mut k: nat = 0;
    assert(data@.skip(0) =~= data@);
    while pos < n
        invariant
            pos <= n,
            n == data@.len(),
            cur_byte == 0,
            bit_count < 8,
            bit_count == k % 8,
            control@ == zeros(k / 8),
            k == run_count(pos as nat),
            pos < n ==> pos == 256 * k,
            literal_runs(data@) == runs@ + literal_runs(data@.skip(pos as int)),
        decreases n - pos,
    {
        let chunk = if n - pos < 256 {
            n - pos
        } else {
            256
        };
        proof {
            lemma_literal_runs_step(data@.skip(pos as int));
            assert(data@.skip(pos as int).skip(chunk as int) =~= data@.skip((pos + chunk) as int));
            assert(data@.skip(pos as int).take(chunk as int) =~= data@.subrange(
                pos as int,
                (pos + chunk) as int,
            ));
        }
        let ghost old_runs = runs@;
        runs.push((chunk - 1) as u8);
        runs.extend_from_slice(&data[pos..pos + chunk]);
        assert(literal_runs(data@) =~= runs@ + literal_runs(data@.skip((pos + chunk) as int)));
        proof {
            assert(run_count((pos + chunk) as nat) == k + 1) by (nonlinear_arith)
                requires
                    pos == 256 * k,
                    chunk == (if n - pos < 256 { n - pos } else { 256 }),
                    k == run_count(pos as nat),
                    pos < n,
            ;
        }
        pos = pos + chunk;
        assert(0u8 << 1u8 == 0u8) by (bit_vector);
        cur_byte = cur_byte << 1u8;
        bit_count = bit_count + 1;
        proof {
            k = k + 1;
        }
        if bit_count == 8 {
            control.push(cur_byte);
            cur_byte = 0;
            bit_count = 0;
            assert(control@ =~= zeros(k / 8));
        } else {
            assert(k / 8 == (k - 1) / 8);
        }
        assert(pos < n ==> pos == 256 * k) by (nonlinear_arith)
            requires
                pos < n ==> chunk == 256,
                pos == 256 * (k - 1) + chunk || pos == n,
                pos < n ==> pos == 256 * (k - 1) + chunk,
        ;
    }
    if bit_count != 0 {
        let sh = (8 - bit_count) as u8;
        assert(0u8 << sh == 0u8) by (bit_vector);
        cur_byte = cur_byte << sh;
        control.push(cur_byte);
    }
    assert(control@ =~= zeros(control_len(n as nat))) by {
        assert(control@.len() == control_len(n as nat)) by (nonlinear_arith)
            requires
                control@.len() == k / 8 + (if k % 8 != 0 { 1int } else { 0 }),
                k == run_count(n as nat),
        ;
    }
    assert(data@.skip(n as int) =~= Seq::<u8>::empty());
    assert(runs@ =~= literal_runs(data@));
    (control, runs)
}

/// Packs data in the ARC index format, using literal runs only (every control bit 0). That is
/// a valid encoding of the format: it unpacks to `data`, and its CRC covers the streams.
#[verifier::spinoff_prover]
pub fn pack_index(data: &[u8]) -> (r: Vec<u8>)
    ensures
        r@ == spec_pack_index(data@),
        data@.len() <= u32::MAX ==> spec_unpack_index(r@) == Some(data@),
        spec_u32_le(r@, 0) == crc32_of(r@.skip(0x14)),
{
    let n = data.len();
    let (control, runs) = literal_streams(data);
    proof {
        lemma_literal_runs_len(data@);
    }
    let control_count = control.len();
    let runs_count = runs.len();
    let mut streams = control;
    streams.extend_from_slice(runs.as_slice());
    assert(streams@ =~= pack_streams(data@));
    assert(control_count == control_len(n as nat));
    assert(runs_count == literal_runs(data@).len());
    let crc = crc32(streams.as_slice());
    let mut packed: Vec<u8> = Vec::new();
    push_u32_le(&mut packed, crc);
    push_u32_le(&mut packed, control_count as u32);
    push_u32_le(&mut packed, 0);
    push_u32_le(&mut packed, runs_count as u32);
    push_u32_le(&mut packed, n as u32);
    packed.extend_from_slice(streams.as_slice());
    assert(packed@ =~= spec_pack_index(data@));
    assert(packed@.skip(0x14) =~= streams@);
    assert(packed@.subrange(0, 4) =~= le_bytes(crc));
    proof {
        lemma_read_le_bytes(packed@, 0, crc);
        if n <= u32::MAX {
            lemma_pack_unpack(data@);
        }
    }
    packed
}

} // verus!
