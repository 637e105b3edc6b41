//! The AZSys containers: ASB script encryption (zlib, CRC-32 and an additive
//! key) and the ARC archive (a header, an LZSS-packed index and the entry data).
use vstd::prelude::*;

use crate::bytes::{lemma_le_read_write, lemma_read_le_bytes, le_bytes, push_u32_le, spec_u32_le, u32_at};
use crate::error::PatchError;
use crate::text::{concat, concat3};
use crate::zlib::{crc32, crc32_of, zlib_compress, zlib_decompress, zlib_deflated, zlib_error_text, zlib_inflated};

verus! {

/// The key of the game's scripts.
pub const TRIPTYCH_KEY: u32 = 501685433;

// ---------------------------------------------------------------------------
// ASB encryption
// ---------------------------------------------------------------------------
/// The per-script additive key derived from the game key and the unpacked size.
pub open spec fn spec_derive_key(key: u32, unpacked_size: u32) -> u32 {
    let k = (key ^ unpacked_size) as u64;
    let k2 = k ^ (((k << 12u64) | k) << 11u64);
    (k2 & 0xFFFF_FFFFu64) as u32
}

/// The per-script key is, with `k` the game key XOR the unpacked size, `k` XOR `k` shifted left
/// by 11 and by 23 bits (kept to 32 bits): the low 32 bits of `k ^ (((k << 12) | k) << 11)`.
pub proof fn lemma_derive_key_formula(key: u32, unpacked_size: u32)
    ensures
        spec_derive_key(key, unpacked_size) == (key ^ unpacked_size) ^ (((key ^ unpacked_size) << 11u32) | ((
        key ^ unpacked_size) << 23u32)),
{
    let k = key ^ unpacked_size;
    assert(spec_derive_key(key, unpacked_size) == k ^ ((k << 11u32) | (k << 23u32))) by (bit_vector)
        requires
            k == key ^ unpacked_size,
    ;
}

/// Masking adds the key to every whole little-endian word, modulo 2^32, and keeps a trailing
/// partial word as it is.
pub proof fn lemma_masked_words(b: Seq<u8>, k: u32)
    ensures
        masked(b, k).len() == b.len(),
        forall|i: int|
            0 <= i && 4 * i + 4 <= b.len() ==> #[trigger] spec_u32_le(masked(b, k), 4 * i) == (spec_u32_le(b, 4 * i)
                + k) % 0x1_0000_0000,
        forall|j: int| 4 * (b.len() / 4) <= j < b.len() ==> #[trigger] masked(b, k)[j] == b[j],
    decreases b.len(),
{
    lemma_masked_len(b, k);
    if b.len() >= 4 {
        let rest = b.skip(4);
        let w = vstd::wrapping::u32_specs::wrapping_add(spec_u32_le(b, 0), k);
        let m = masked(b, k);
        lemma_masked_words(rest, k);
        assert(m == le_bytes(w) + masked(rest, k));
        assert(w == (spec_u32_le(b, 0) + k) % 0x1_0000_0000);
        assert forall|i: int| 0 <= i && 4 * i + 4 <= b.len() implies #[trigger] spec_u32_le(m, 4 * i) == (
        spec_u32_le(b, 4 * i) + k) % 0x1_0000_0000 by {
            if i == 0 {
                assert(m.subrange(0, 4) =~= le_bytes(w));
                lemma_read_le_bytes(m, 0, w);
            } else {
                let mr = masked(rest, k);
                assert(spec_u32_le(mr, 4 * (i - 1)) == (spec_u32_le(rest, 4 * (i - 1)) + k) % 0x1_0000_0000);
                assert(m[4 * i] == mr[4 * (i - 1)]);
                assert(m[4 * i + 1] == mr[4 * (i - 1) + 1]);
                assert(m[4 * i + 2] == mr[4 * (i - 1) + 2]);
                assert(m[4 * i + 3] == mr[4 * (i - 1) + 3]);
                assert(rest[4 * (i - 1)] == b[4 * i]);
                assert(rest[4 * (i - 1) + 1] == b[4 * i + 1]);
                assert(rest[4 * (i - 1) + 2] == b[4 * i + 2]);
                assert(rest[4 * (i - 1) + 3] == b[4 * i + 3]);
            }
        }
        assert forall|j: int| 4 * (b.len() / 4) <= j < b.len() implies #[trigger] m[j] == b[j] by {
            assert(4 * (rest.len() / 4) == 4 * (b.len() / 4) - 4);
            assert(m[j] == masked(rest, k)[j - 4]);
            assert(rest[j - 4] == b[j]);
        }
    }
}

/// Derives the per-script additive key from the game key and the unpacked size.
fn derive_key(key: u32, unpacked_size: u32) -> (r: u32)
    ensures
        r == spec_derive_key(key, unpacked_size),
{
    let mut k = (key ^ unpacked_size) as u64;
    k = k ^ (((k << 12u64) | k) << 11u64);
    (k & 0xFFFF_FFFFu64) as u32
}

/// `b` with the key added to each whole little-endian `u32` word, modulo 2^32; a trailing
/// partial word is kept as it is.
pub open spec fn masked(b: Seq<u8>, k: u32) -> Seq<u8>
    decreases b.len(),
{
    if b.len() < 4 {
        b
    } else {
        le_bytes(vstd::wrapping::u32_specs::wrapping_add(spec_u32_le(b, 0), k)) + masked(b.skip(4), k)
    }
}

/// `b` with the key subtracted from each whole little-endian `u32` word, modulo 2^32; a trailing
/// partial word is kept as it is.
pub open spec fn unmasked(b: Seq<u8>, k: u32) -> Seq<u8>
    decreases b.len(),
{
    if b.len() < 4 {
        b
    } else {
        le_bytes(vstd::wrapping::u32_specs::wrapping_sub(spec_u32_le(b, 0), k)) + unmasked(b.skip(4), k)
    }
}

/// Adds (`add`) or subtracts the key word by word.
fn apply_key(data: &[u8], k: u32, add: bool) -> (r: Vec<u8>)
    ensures
        add ==> r@ == masked(data@, k),
        !add ==> r@ == unmasked(data@, k),
{
    let n = data.len();
    let mut out: Vec<u8> = Vec::new();
    let mut i: usize = 0;
    assert(data@.skip(0) =~= data@);
    while n - i >= 4
        invariant
            i <= n,
            n == data@.len(),
            add ==> masked(data@, k) == out@ + masked(data@.skip(i as int), k),
            !add ==> unmasked(data@, k) == out@ + unmasked(data@.skip(i as int), k),
        decreases n - i,
    {
        let v = u32_at(data, i);
        let w = if add {
            v.wrapping_add(k)
        } else {
            v.wrapping_sub(k)
        };
        push_u32_le(&mut out, w);
        proof {
            let rest = data@.skip(i as int);
            assert(spec_u32_le(rest, 0) == v);
            assert(rest.skip(4) =~= data@.skip(i + 4));
        }
        i = i + 4;
    }
    let tail = &data[i..n];
    out.extend_from_slice(tail);
    assert(tail@ =~= data@.skip(i as int));
    out
}

proof fn lemma_masked_len(b: Seq<u8>, k: u32)
    ensures
        masked(b, k).len() == b.len(),
    decreases b.len(),
{
    if b.len() >= 4 {
        lemma_masked_len(b.skip(4), k);
    }
}

/// Removing the key after adding it gives the bytes back.
pub proof fn lemma_unmask_masked(b: Seq<u8>, k: u32)
    ensures
        unmasked(masked(b, k), k) == b,
    decreases b.len(),
{
    if b.len() >= 4 {
        let m = masked(b, k);
        let w = vstd::wrapping::u32_specs::wrapping_add(spec_u32_le(b, 0), k);
        lemma_unmask_masked(b.skip(4), k);
        crate::bytes::lemma_le_bytes_roundtrip(w);
        lemma_masked_len(b.skip(4), k);
        assert(m.subrange(0, 4) =~= le_bytes(w));
        lemma_read_le_bytes(m, 0, w);
        assert(m.skip(4) =~= masked(b.skip(4), k));
        lemma_le_read_write(b, 0);
        assert(b =~= b.subrange(0, 4) + b.skip(4));
        assert(unmasked(m, k) =~= b);
    }
}

/// The signature of an ASB container: `ASB` and 0x1A.
pub open spec fn asb_signature() -> Seq<u8> {
    seq![0x41u8, 0x53u8, 0x42u8, 0x1au8]
}

/// Whether decrypting `asb` stays inside it: a container that passes the signature check
/// holds the whole encrypted payload its header announces, and that payload holds the CRC.
pub open spec fn asb_fits(asb: Seq<u8>) -> bool {
    asb.len() < 12 || asb.take(4) != asb_signature() || (4 <= spec_u32_le(asb, 4) && 12
        + spec_u32_le(asb, 4) <= asb.len())
}

/// Whether [`decrypt_asb`] can read `asb` (see [`asb_fits`]).
pub fn asb_payload_fits(asb: &[u8]) -> (b: bool)
    ensures
        b == asb_fits(asb@),
{
    if asb.len() < 12 || !has_asb_signature(asb) {
        return true;
    }
    let packed_size = u32_at(asb, 4) as usize;
    4 <= packed_size && packed_size <= asb.len() - 12
}

fn has_asb_signature(asb: &[u8]) -> (b: bool)
    requires
        asb@.len() >= 4,
    ensures
        b == (asb@.take(4) == asb_signature()),
{
    let b = asb[0] == 0x41 && asb[1] == 0x53 && asb[2] == 0x42 && asb[3] == 0x1a;
    assert(b ==> asb@.take(4) =~= asb_signature());
    assert(asb@.take(4) == asb_signature() ==> asb@.take(4)[0] == 0x41 && asb@.take(4)[1] == 0x53
        && asb@.take(4)[2] == 0x42 && asb@.take(4)[3] == 0x1a);
    b
}

/// The script held in an ASB container, or `Err` for a bad signature, a CRC mismatch, a
/// malformed zlib stream or a size mismatch.
pub open spec fn spec_decrypt_asb(asb: Seq<u8>, key: u32) -> Result<Seq<u8>, ()> {
    if asb.len() < 12 || asb.take(4) != asb_signature() {
        Err(())
    } else {
        let packed_size = spec_u32_le(asb, 4);
        let unpacked_size = spec_u32_le(asb, 8);
        let dec = unmasked(asb.subrange(12, 12 + packed_size), spec_derive_key(key, unpacked_size));
        let payload = dec.skip(4);
        if crc32_of(payload) != spec_u32_le(dec, 0) {
            Err(())
        } else {
            match zlib_inflated(payload) {
                None => Err(()),
                Some(out) => if out.len() != unpacked_size {
                    Err(())
                } else {
                    Ok(out)
                },
            }
        }
    }
}

/// The unmasked payload of an ASB container that passes the signature check: the CRC word and
/// the zlib stream.
pub open spec fn asb_unmasked(asb: Seq<u8>, key: u32) -> Seq<u8> {
    unmasked(asb.subrange(12, 12 + spec_u32_le(asb, 4)), spec_derive_key(key, spec_u32_le(asb, 8)))
}

/// Why [`decrypt_asb`] refuses a container, as the message of its format error: a bad
/// signature, a CRC mismatch, a zlib stream that does not decompress (with the decoder's own
/// words), or a size mismatch.
pub open spec fn decrypt_refusal(asb: Seq<u8>, key: u32) -> Seq<char> {
    if asb.len() < 12 || asb.take(4) != asb_signature() {
        "bad ASB signature"@
    } else if crc32_of(asb_unmasked(asb, key).skip(4)) != spec_u32_le(asb_unmasked(asb, key), 0) {
        "ASB CRC mismatch after decrypt"@
    } else if zlib_inflated(asb_unmasked(asb, key).skip(4)) is None {
        "zlib decompress failed: "@ + zlib_error_text(asb_unmasked(asb, key).skip(4))
    } else {
        "ASB size mismatch"@
    }
}

/// Decrypts an ASB container (`ASB\x1a`, packed size, unpacked size, masked payload) into the
/// decompressed script bytes.
pub fn decrypt_asb(asb: &[u8], key: u32) -> (r: Result<Vec<u8>, PatchError>)
    requires
        asb_fits(asb@),
    ensures
        match spec_decrypt_asb(asb@, key) {
            Ok(out) => r matches Ok(v) && v@ == out,
            Err(_) => r matches Err(e) && e is Format && e.message() == decrypt_refusal(asb@, key),
        },
{
    if asb.len() < 12 || !has_asb_signature(asb) {
        return Err(PatchError::Format(String::from_str("bad ASB signature")));
    }
    let packed_size = u32_at(asb, 4) as usize;
    let unpacked_size = u32_at(asb, 8);
    let k = derive_key(key, unpacked_size);
    let enc = &asb[12..12 + packed_size];
    let dec = apply_key(enc, k, false);
    proof {
        lemma_masked_len(enc@, k);
        lemma_unmasked_len(enc@, k);
    }
    let crc = u32_at(dec.as_slice(), 0);
    let n = dec.len();
    let payload = &dec.as_slice()[4..n];
    assert(payload@ =~= dec@.skip(4));
    if crc32(payload) != crc {
        return Err(PatchError::Format(String::from_str("ASB CRC mismatch after decrypt")));
    }
    let out = match zlib_decompress(payload) {
        Ok(o) => o,
        Err(msg) => {
            return Err(PatchError::Format(concat("zlib decompress failed: ", msg.as_str())));
        },
    };
    if out.len() as u64 != unpacked_size as u64 {
        return Err(PatchError::Format(String::from_str("ASB size mismatch")));
    }
    Ok(out)
}

proof fn lemma_unmasked_len(b: Seq<u8>, k: u32)
    ensures
        unmasked(b, k).len() == b.len(),
    decreases b.len(),
{
    if b.len() >= 4 {
        lemma_unmasked_len(b.skip(4), k);
    }
}

/// The ASB container [`encrypt_asb`] writes for `script`: the signature, the payload size, the
/// script size (both kept to their low 32 bits) and the masked payload, which is the CRC-32 of
/// the zlib stream followed by the stream.
pub open spec fn spec_encrypt_asb(script: Seq<u8>, key: u32) -> Seq<u8> {
    let compressed = zlib_deflated(script);
    let plain = le_bytes(crc32_of(compressed)) + compressed;
    let enc = masked(plain, spec_derive_key(key, script.len() as u32));
    asb_signature() + le_bytes(enc.len() as u32) + le_bytes(script.len() as u32) + enc
}

/// Compresses and encrypts script bytes into an ASB container.
#[verifier::spinoff_prover]
#[verifier::rlimit(40)]
pub fn encrypt_asb(script: &[u8], key: u32) -> (r: Result<Vec<u8>, PatchError>)
    ensures
        r matches Ok(b) && b@ == spec_encrypt_asb(script@, key),
        r matches Ok(b) ==> (script@.len() <= u32::MAX && b@.len() <= u32::MAX + 12 ==> asb_fits(b@)
            && spec_decrypt_asb(b@, key) == Ok::<Seq<u8>, ()>(script@)),
{
    let compressed = match zlib_compress(script) {
        Ok(c) => c,
        Err(msg) => {
            return Err(PatchError::Format(concat3("zlib compress failed: ", msg.as_str(), "")));
        },
    };
    let crc = crc32(compressed.as_slice());
    let mut plain: Vec<u8> = Vec::new();
    push_u32_le(&mut plain, crc);
    plain.extend_from_slice(compressed.as_slice());
    let k = derive_key(key, script.len() as u32);
    let enc = apply_key(plain.as_slice(), k, true);
    proof {
        lemma_masked_len(plain@, k);
    }
    assert(plain@ =~= le_bytes(crc32_of(zlib_deflated(script@))) + zlib_deflated(script@));
    let mut out: Vec<u8> = Vec::new();
    out.push(0x41);
    out.push(0x53);
    out.push(0x42);
    out.push(0x1a);
    push_u32_le(&mut out, enc.len() as u32);
    push_u32_le(&mut out, script.len() as u32);
    out.extend_from_slice(enc.as_slice());
    assert(out@ =~= asb_signature() + le_bytes(enc@.len() as u32) + le_bytes(script@.len() as u32)
        + enc@);
    proof {
        if script@.len() <= u32::MAX && out@.len() <= u32::MAX + 12 {
            lemma_asb_roundtrip(script@, key);
        }
    }
    Ok(out)
}

/// Decrypting the container that encryption makes of a script gives the script back, when the
/// sizes fit their 32-bit fields and the compressed stream decompresses to the script.
proof fn lemma_asb_roundtrip(script: Seq<u8>, key: u32)
    requires
        script.len() <= u32::MAX,
        spec_encrypt_asb(script, key).len() <= u32::MAX + 12,
        zlib_inflated(zlib_deflated(script)) == Some(script),
    ensures
        asb_fits(spec_encrypt_asb(script, key)),
        spec_decrypt_asb(spec_encrypt_asb(script, key), key) == Ok::<Seq<u8>, ()>(script),
{
    let blob = spec_encrypt_asb(script, key);
    let compressed = zlib_deflated(script);
    let plain = le_bytes(crc32_of(compressed)) + compressed;
    let k = spec_derive_key(key, script.len() as u32);
    let enc = masked(plain, k);
    lemma_masked_len(plain, k);
    assert(blob.take(4) =~= asb_signature());
    assert(blob.subrange(4, 8) =~= le_bytes(enc.len() as u32));
    assert(blob.subrange(8, 12) =~= le_bytes(script.len() as u32));
    lemma_read_le_bytes(blob, 4, enc.len() as u32);
    lemma_read_le_bytes(blob, 8, script.len() as u32);
    assert(blob.subrange(12, 12 + enc.len() as int) =~= enc);
    lemma_unmask_masked(plain, k);
    assert(plain.subrange(0, 4) =~= le_bytes(crc32_of(compressed)));
    lemma_read_le_bytes(plain, 0, crc32_of(compressed));
    assert(plain.skip(4) =~= compressed);
}

/// A container holding a zlib stream of a script, with the CRC-32 of the stream in front, masked
/// with the key `k ^ ((k << 11) | (k << 23))` for `k` the game key XOR the script's size,
/// decrypts to that script, when the sizes fit their 32-bit fields.
pub proof fn lemma_decrypt_masked(key: u32, script: Seq<u8>, stream: Seq<u8>)
    requires
        zlib_inflated(stream) == Some(script),
        script.len() <= u32::MAX,
        4 + stream.len() <= u32::MAX,
    ensures
        ({
            let size = script.len() as u32;
            let k = (key ^ size) ^ (((key ^ size) << 11u32) | ((key ^ size) << 23u32));
            let plain = le_bytes(crc32_of(stream)) + stream;
            let blob = asb_signature() + le_bytes(plain.len() as u32) + le_bytes(size) + masked(plain, k);
            asb_fits(blob) && spec_decrypt_asb(blob, key) == Ok::<Seq<u8>, ()>(script)
        }),
{
    let size = script.len() as u32;
    lemma_derive_key_formula(key, size);
    let k = spec_derive_key(key, size);
    let plain = le_bytes(crc32_of(stream)) + stream;
    let enc = masked(plain, k);
    let blob = asb_signature() + le_bytes(plain.len() as u32) + le_bytes(size) + enc;
    lemma_masked_len(plain, k);
    assert(blob.take(4) =~= asb_signature());
    assert(blob.subrange(4, 8) =~= le_bytes(enc.len() as u32));
    assert(blob.subrange(8, 12) =~= le_bytes(size));
    lemma_read_le_bytes(blob, 4, enc.len() as u32);
    lemma_read_le_bytes(blob, 8, size);
    assert(blob.subrange(12, 12 + enc.len() as int) =~= enc);
    lemma_unmask_masked(plain, k);
    assert(plain.subrange(0, 4) =~= le_bytes(crc32_of(stream)));
    lemma_read_le_bytes(plain, 0, crc32_of(stream));
    assert(plain.skip(4) =~= stream);
}

// ---------------------------------------------------------------------------
// ARC container
// ---------------------------------------------------------------------------
/// One file of an archive.
pub struct ArcEntry {
    /// The file name, decoded from CP932 and trimmed.
    pub name: String,
    /// The file contents.
    pub data: Vec<u8>,
    /// The 0x40-byte index record of the file. Its offset and size fields (bytes 0 to 8) are
    /// rewritten on save; the rest, unknown fields included, is kept.
    pub raw_index: Vec<u8>,
}

/// An archive entry as a mathematical value.
pub struct ArcEntryView {
    pub name: Seq<char>,
    pub data: Seq<u8>,
    pub raw_index: Seq<u8>,
}

impl View for ArcEntry {
    type V = ArcEntryView;

    open spec fn view(&self) -> ArcEntryView {
        ArcEntryView { name: self.name@, data: self.data@, raw_index: self.raw_index@ }
    }
}

/// The views of a list of entries.
pub open spec fn entry_views(v: Seq<ArcEntry>) -> Seq<ArcEntryView> {
    v.map_values(|e: ArcEntry| e@)
}

/// An AZSys `ARC\x1a` archive.
pub struct Arc {
    /// The files, in index order.
    pub entries: Vec<ArcEntry>,
    /// The 0x30-byte header the archive was read with; its count and index length fields are
    /// rewritten on save.
    pub header: Vec<u8>,
}

/// The number of entries an archive header announces.
pub open spec fn arc_count(blob: Seq<u8>) -> nat {
    spec_u32_le(blob, 8) as nat
}

/// The length of the packed index an archive header announces.
pub open spec fn arc_index_len(blob: Seq<u8>) -> nat {
    spec_u32_le(blob, 12) as nat
}

/// Where the entry data of an archive starts: after the 0x30-byte header and the packed index.
pub open spec fn arc_base(blob: Seq<u8>) -> nat {
    0x30 + arc_index_len(blob)
}

/// The packed index of an archive.
pub open spec fn arc_packed_index(blob: Seq<u8>) -> Seq<u8> {
    blob.subrange(0x30, arc_base(blob) as int)
}

/// The 0x40-byte index record `i`.
pub open spec fn index_record(index: Seq<u8>, i: int) -> Seq<u8> {
    index.subrange(0x40 * i, 0x40 * i + 0x40)
}

/// The name bytes of an index record: from offset 0x10 up to the first NUL, or to its end.
pub open spec fn record_name_bytes(rec: Seq<u8>) -> Seq<u8> {
    match crate::asb::first_zero_from(rec, 0x10) {
        Some(z) => rec.subrange(0x10, z),
        None => rec.subrange(0x10, 0x40),
    }
}

/// The entry an index record describes: the trimmed CP932 name, the `size` bytes at `offset`
/// after the index, and the record itself.
pub open spec fn entry_of_record(blob: Seq<u8>, rec: Seq<u8>) -> ArcEntryView {
    let start = arc_base(blob) + spec_u32_le(rec, 0);
    ArcEntryView {
        name: crate::text::spec_trim(crate::asb::shift_jis_decoding(record_name_bytes(rec))),
        data: blob.subrange(start as int, start + spec_u32_le(rec, 4)),
        raw_index: rec,
    }
}

/// Whether the layout of an archive of at least 0x30 bytes is consistent: the packed index lies
/// inside the file and unpacks, the index holds every announced record, and every entry's data
/// lies inside the file.
pub open spec fn arc_layout_ok(blob: Seq<u8>) -> bool {
    &&& arc_base(blob) <= blob.len()
    &&& spec_unpack_index(arc_packed_index(blob)) matches Some(index) && {
        &&& 0x40 * arc_count(blob) <= index.len()
        &&& forall|i: int|
            0 <= i < arc_count(blob) ==> arc_base(blob) + spec_u32_le(#[trigger] index_record(index, i), 0)
                + spec_u32_le(index_record(index, i), 4) <= blob.len()
    }
}

/// Whether [`Arc::load`] can read `blob` without leaving it: a file too small to be an archive
/// is refused with an error, a larger one must have a consistent layout.
pub open spec fn arc_loadable(blob: Seq<u8>) -> bool {
    blob.len() < 0x30 || arc_layout_ok(blob)
}

/// The entries of an archive with a consistent layout.
pub open spec fn arc_entries(blob: Seq<u8>) -> Seq<ArcEntryView> {
    let index = spec_unpack_index(arc_packed_index(blob)).unwrap();
    Seq::new(arc_count(blob), |i: int| entry_of_record(blob, index_record(index, i)))
}

/// The data of every entry of a loadable archive lies inside the archive.
pub proof fn lemma_entry_data_len(blob: Seq<u8>, i: int)
    requires
        blob.len() >= 0x30,
        arc_loadable(blob),
        0 <= i < arc_entries(blob).len(),
    ensures
        arc_entries(blob)[i].data.len() <= blob.len(),
{
    let index = spec_unpack_index(arc_packed_index(blob)).unwrap();
    assert(arc_base(blob) + spec_u32_le(index_record(index, i), 0) + spec_u32_le(index_record(index, i), 4)
        <= blob.len());
}

/// Every entry of a loadable archive keeps a 0x40-byte index record.
pub proof fn lemma_arc_entry_records(blob: Seq<u8>)
    requires
        blob.len() >= 0x30,
        arc_loadable(blob),
    ensures
        forall|i: int| 0 <= i < arc_entries(blob).len() ==> (#[trigger] arc_entries(blob)[i]).raw_index.len() == 0x40,
{
    let index = spec_unpack_index(arc_packed_index(blob)).unwrap();
    assert forall|i: int| 0 <= i < arc_entries(blob).len() implies (#[trigger] arc_entries(blob)[i]).raw_index.len() == 0x40 by {
        assert(0x40 * i + 0x40 <= 0x40 * arc_count(blob)) by (nonlinear_arith)
            requires
                i < arc_count(blob),
        ;
    }
}

use crate::lzss::{spec_unpack_index, try_unpack_index, pack_index, spec_pack_index};

impl Arc {
    /// Reads an archive, or returns `None` where its layout is inconsistent.
    fn read(blob: &[u8]) -> (r: Option<Result<Arc, PatchError>>)
        ensures
            r is Some <==> arc_loadable(blob@),
            r matches Some(res) ==> (blob@.len() < 0x30 ==> (res matches Err(e) && e is Format && e.message()
                == "ARC file too small"@)),
            r matches Some(res) ==> (blob@.len() >= 0x30 ==> (res matches Ok(arc) && arc.header@
                == blob@.take(0x30) && entry_views(arc.entries@) == arc_entries(blob@))),
    {
        let n = blob.len();
        if n < 0x30 {
            return Some(Err(PatchError::Format(String::from_str("ARC file too small"))));
        }
        let header = vstd::slice::slice_to_vec(&blob[0..0x30]);
        let count = u32_at(blob, 8) as u64;
        let idx_len = u32_at(blob, 12) as u64;
        if idx_len > (n - 0x30) as u64 {
            return None;
        }
        let base = 0x30 + idx_len as usize;
        let packed_idx = &blob[0x30..base];
        assert(packed_idx@ == arc_packed_index(blob@));
        let index = match try_unpack_index(packed_idx) {
            Some(v) => v,
            None => return None,
        };
        let ghost idx = index@;
        let mut entries: Vec<ArcEntry> = Vec::new();
        let mut i: u64 = 0;
        while i < count
            invariant
                i <= count,
                n == blob@.len(),
                count == arc_count(blob@),
                base == arc_base(blob@),
                base <= n,
                idx == index@,
                spec_unpack_index(arc_packed_index(blob@)) == Some(idx),
                0x40 * i <= idx.len(),
                forall|j: int|
                    0 <= j < i ==> base + spec_u32_le(#[trigger] index_record(idx, j), 0)
                        + spec_u32_le(index_record(idx, j), 4) <= n,
                entry_views(entries@) == Seq::new(i as nat, |j: int| entry_of_record(blob@, index_record(idx, j))),
            decreases count - i,
        {
            if index.len() as u64 / 0x40 <= i {
                proof {
                    assert(0x40 * arc_count(blob@) > idx.len()) by (nonlinear_arith)
                        requires
                            idx.len() / 0x40 <= i,
                            i < arc_count(blob@),
                    ;
                }
                return None;
            }
            let r0 = (i * 0x40) as usize;
            let rec = &index.as_slice()[r0..r0 + 0x40];
            assert(rec@ == index_record(idx, i as int));
            let offset = u32_at(rec, 0) as u64;
            let size = u32_at(rec, 4) as u64;
            if offset + size > (n - base) as u64 {
                return None;
            }
            let name_end = match crate::asb::find_zero(rec, 0x10) {
                Some(z) => z,
                None => 0x40,
            };
            let name_bytes = &rec[0x10..name_end];
            assert(name_bytes@ == record_name_bytes(rec@));
            let decoded = crate::asb::cp932_decode(name_bytes);
            let name = String::from_str(crate::text::trim(decoded.as_str()));
            let start = base + offset as usize;
            let data = vstd::slice::slice_to_vec(&blob[start..start + size as usize]);
            let raw_index = vstd::slice::slice_to_vec(rec);
            let ghost old = entry_views(entries@);
            let e = ArcEntry { name, data, raw_index };
            assert(e@.name == entry_of_record(blob@, rec@).name);
            assert(e@.data =~= entry_of_record(blob@, rec@).data);
            assert(e@ == entry_of_record(blob@, rec@));
            entries.push(e);
            assert(entry_views(entries@) =~= old.push(e@));
            assert(entry_views(entries@) =~= Seq::new((i + 1) as nat, |j: int| entry_of_record(blob@, index_record(idx, j))));
            i = i + 1;
        }
        assert(entry_views(entries@) =~= arc_entries(blob@));
        Some(Ok(Arc { entries, header }))
    }

    /// Parses an archive from raw file bytes.
    pub fn load(blob: &[u8]) -> (r: Result<Arc, PatchError>)
        requires
            arc_loadable(blob@),
        ensures
            blob@.len() < 0x30 ==> (r matches Err(e) && e is Format && e.message() == "ARC file too small"@),
            blob@.len() >= 0x30 ==> (r matches Ok(arc) && arc.header@ == blob@.take(0x30)
                && entry_views(arc.entries@) == arc_entries(blob@)),
    {
        Arc::load_checked(blob)
    }

    /// Parses an archive from raw file bytes, refusing with a format error an archive whose
    /// layout is inconsistent (see [`arc_layout_ok`]), which [`Arc::load`] does not accept.
    pub fn load_checked(blob: &[u8]) -> (r: Result<Arc, PatchError>)
        ensures
            blob@.len() < 0x30 ==> (r matches Err(e) && e is Format && e.message() == "ARC file too small"@),
            !arc_loadable(blob@) ==> (r matches Err(e) && e is Format && e.message()
                == "inconsistent ARC layout"@),
            arc_loadable(blob@) && blob@.len() >= 0x30 ==> (r matches Ok(arc) && arc.header@
                == blob@.take(0x30) && entry_views(arc.entries@) == arc_entries(blob@)),
    {
        match Arc::read(blob) {
            Some(res) => res,
            None => Err(PatchError::Format(String::from_str("inconsistent ARC layout"))),
        }
    }
}

/// The bytes of the data of entries `0..n`, one after another.
pub open spec fn saved_body(entries: Seq<ArcEntryView>, n: int) -> Seq<u8>
    decreases n,
{
    if n <= 0 {
        Seq::empty()
    } else {
        saved_body(entries, n - 1) + entries[n - 1].data
    }
}

/// The index record written for an entry whose data starts `offset` bytes into the body: its
/// offset and size fields (kept to their low 32 bits) replace the first 8 bytes of its record.
pub open spec fn saved_record(e: ArcEntryView, offset: nat) -> Seq<u8> {
    le_bytes(offset as u32) + le_bytes(e.data.len() as u32) + e.raw_index.skip(8)
}

/// The unpacked index written for entries `0..n`.
pub open spec fn saved_index(entries: Seq<ArcEntryView>, n: int) -> Seq<u8>
    decreases n,
{
    if n <= 0 {
        Seq::empty()
    } else {
        saved_index(entries, n - 1) + saved_record(entries[n - 1], saved_body(entries, n - 1).len())
    }
}

/// The archive file [`Arc::save`] writes: the header with the entry count and packed index
/// length rewritten (low 32 bits), the packed index, and the data of every entry.
pub open spec fn spec_save(header: Seq<u8>, entries: Seq<ArcEntryView>) -> Seq<u8> {
    let packed = spec_pack_index(saved_index(entries, entries.len() as int));
    header.take(8) + le_bytes(entries.len() as u32) + le_bytes(packed.len() as u32) + header.skip(16)
        + packed + saved_body(entries, entries.len() as int)
}

/// Whether an archive can be saved without indexing past its header or an index record.
pub open spec fn arc_savable(header: Seq<u8>, entries: Seq<ArcEntryView>) -> bool {
    &&& header.len() >= 16
    &&& forall|i: int| 0 <= i < entries.len() ==> (#[trigger] entries[i]).raw_index.len() >= 8
}

impl Arc {
    /// Serializes the archive back to raw file bytes.
    #[verifier::spinoff_prover]
    #[verifier::rlimit(40)]
    pub fn save(&self) -> (r: Vec<u8>)
        requires
            arc_savable(self.header@, entry_views(self.entries@)),
        ensures
            r@ == spec_save(self.header@, entry_views(self.entries@)),
    {
        let ghost ev = entry_views(self.entries@);
        let n = self.entries.len();
        let mut index: Vec<u8> = Vec::new();
        let mut body: Vec<u8> = Vec::new();
        let mut i: usize = 0;
        while i < n
            invariant
                i <= n,
                n == self.entries@.len(),
                ev == entry_views(self.entries@),
                arc_savable(self.header@, ev),
                index@ == saved_index(ev, i as int),
                body@ == saved_body(ev, i as int),
            decreases n - i,
        {
            let e = &self.entries[i];
            assert(ev[i as int] == e@);
            assert(e.raw_index@.len() >= 8);
            let mut rec = vstd::slice::slice_to_vec(e.raw_index.as_slice());
            crate::bytes::put_u32_le(&mut rec, 0, body.len() as u32);
            crate::bytes::put_u32_le(&mut rec, 4, e.data.len() as u32);
            assert(rec@ =~= saved_record(e@, body@.len()));
            index.extend_from_slice(rec.as_slice());
            body.extend_from_slice(e.data.as_slice());
            i = i + 1;
        }
        let packed_idx = pack_index(index.as_slice());
        let mut header = vstd::slice::slice_to_vec(self.header.as_slice());
        crate::bytes::put_u32_le(&mut header, 8, n as u32);
        crate::bytes::put_u32_le(&mut header, 12, packed_idx.len() as u32);
        let mut out: Vec<u8> = Vec::new();
        out.extend_from_slice(header.as_slice());
        out.extend_from_slice(packed_idx.as_slice());
        out.extend_from_slice(body.as_slice());
        assert(out@ =~= spec_save(self.header@, ev));
        out
    }
}

// ---------------------------------------------------------------------------
// Saving then loading
// ---------------------------------------------------------------------------
proof fn lemma_saved_body_len_mono(entries: Seq<ArcEntryView>, i: int, n: int)
    requires
        0 <= i <= n <= entries.len(),
    ensures
        saved_body(entries, i).len() + entries[i].data.len() <= saved_body(entries, n).len() || i == n,
        saved_body(entries, i).len() <= saved_body(entries, n).len(),
        saved_body(entries, n).subrange(0, saved_body(entries, i).len() as int) == saved_body(entries, i),
    decreases n - i,
{
    if i < n {
        lemma_saved_body_len_mono(entries, i, n - 1);
        let a = saved_body(entries, n - 1);
        let b = saved_body(entries, n);
        assert(b.subrange(0, saved_body(entries, i).len() as int) =~= a.subrange(
            0,
            saved_body(entries, i).len() as int,
        ));
        if i == n - 1 {
            assert(b.subrange(0, a.len() as int) =~= a);
        }
    } else {
        assert(saved_body(entries, n).subrange(0, saved_body(entries, n).len() as int) =~= saved_body(
            entries,
            n,
        ));
    }
}

/// Entry `i` sits in the saved body right after entries `0..i`.
proof fn lemma_saved_body_slice(entries: Seq<ArcEntryView>, i: int, n: int)
    requires
        0 <= i < n <= entries.len(),
    ensures
        saved_body(entries, i).len() + entries[i].data.len() <= saved_body(entries, n).len(),
        saved_body(entries, n).subrange(
            saved_body(entries, i).len() as int,
            (saved_body(entries, i).len() + entries[i].data.len()) as int,
        ) == entries[i].data,
{
    lemma_saved_body_len_mono(entries, i + 1, n);
    let c = saved_body(entries, i + 1);
    let off = saved_body(entries, i).len() as int;
    let bn = saved_body(entries, n);
    assert(bn.subrange(off, off + entries[i].data.len()) =~= c.subrange(off, off + entries[i].data.len()));
    assert(c.subrange(off, off + entries[i].data.len()) =~= entries[i].data);
}

/// The saved index is the saved records, 0x40 bytes each.
proof fn lemma_saved_index_records(entries: Seq<ArcEntryView>, n: int)
    requires
        0 <= n <= entries.len(),
        forall|i: int| 0 <= i < entries.len() ==> (#[trigger] entries[i]).raw_index.len() == 0x40,
    ensures
        saved_index(entries, n).len() == 0x40 * n,
        forall|i: int| 0 <= i < n ==> #[trigger] index_record(saved_index(entries, n), i) == saved_record(
            entries[i],
            saved_body(entries, i).len(),
        ),
    decreases n,
{
    if n > 0 {
        lemma_saved_index_records(entries, n - 1);
        let prev = saved_index(entries, n - 1);
        let cur = saved_index(entries, n);
        assert(entries[n - 1].raw_index.len() == 0x40);
        assert forall|i: int| 0 <= i < n implies #[trigger] index_record(cur, i) == saved_record(
            entries[i],
            saved_body(entries, i).len(),
        ) by {
            if i < n - 1 {
                assert(index_record(cur, i) =~= index_record(prev, i));
            } else {
                assert(index_record(cur, i) =~= saved_record(entries[i], saved_body(entries, i).len()));
            }
        }
    }
}

proof fn lemma_first_zero_same_tail(a: Seq<u8>, b: Seq<u8>, from: int)
    requires
        a.len() == b.len(),
        0 <= from,
        forall|j: int| from <= j < a.len() ==> a[j] == b[j],
    ensures
        crate::asb::first_zero_from(a, from) == crate::asb::first_zero_from(b, from),
    decreases a.len() - from,
{
    if from < a.len() && a[from] != 0 {
        lemma_first_zero_same_tail(a, b, from + 1);
    }
}

/// What loading a saved archive gives for entry `i`.
pub open spec fn loaded_entry(entries: Seq<ArcEntryView>, i: int) -> ArcEntryView {
    ArcEntryView {
        name: crate::text::spec_trim(crate::asb::shift_jis_decoding(record_name_bytes(entries[i].raw_index))),
        data: entries[i].data,
        raw_index: saved_record(entries[i], saved_body(entries, i).len()),
    }
}

proof fn lemma_saved_entry(blob: Seq<u8>, entries: Seq<ArcEntryView>, i: int)
    requires
        0 <= i < entries.len(),
        forall|j: int| 0 <= j < entries.len() ==> (#[trigger] entries[j]).raw_index.len() == 0x40,
        forall|j: int| 0 <= j < entries.len() ==> #[trigger] index_record(saved_index(entries, entries.len() as int), j)
            == saved_record(entries[j], saved_body(entries, j).len()),
        saved_body(entries, entries.len() as int).len() <= u32::MAX,
        blob.len() == arc_base(blob) + saved_body(entries, entries.len() as int).len(),
        blob.subrange(arc_base(blob) as int, blob.len() as int) == saved_body(entries, entries.len() as int),
    ensures
        arc_base(blob) + spec_u32_le(index_record(saved_index(entries, entries.len() as int), i), 0)
            + spec_u32_le(index_record(saved_index(entries, entries.len() as int), i), 4) <= blob.len(),
        entry_of_record(blob, index_record(saved_index(entries, entries.len() as int), i)) == loaded_entry(entries, i),
{
    let n = entries.len() as int;
    let idx = saved_index(entries, n);
    let body = saved_body(entries, n);
    let base = arc_base(blob);
    let e = entries[i];
    let off = saved_body(entries, i).len();
    let rec = saved_record(e, off);
    lemma_saved_body_slice(entries, i, n);
    assert(index_record(idx, i) == rec);
    assert(rec.subrange(0, 4) =~= le_bytes(off as u32));
    assert(rec.subrange(4, 8) =~= le_bytes(e.data.len() as u32));
    lemma_read_le_bytes(rec, 0, off as u32);
    lemma_read_le_bytes(rec, 4, e.data.len() as u32);
    assert(blob.subrange((base + off) as int, (base + off + e.data.len()) as int) =~= body.subrange(
        off as int,
        (off + e.data.len()) as int,
    ));
    assert forall|j: int| 0x10 <= j < rec.len() implies rec[j] == e.raw_index[j] by {
        assert(rec[j] == e.raw_index.skip(8)[j - 8]);
    }
    lemma_first_zero_same_tail(rec, e.raw_index, 0x10);
    crate::asb::lemma_first_zero_bounds(rec, 0x10);
    assert(record_name_bytes(rec) =~= record_name_bytes(e.raw_index));
}

/// Loading a saved archive gives back every entry's data, its index record with the new offset
/// and size, and the name that record holds, when the header is 0x30 bytes, every index record
/// 0x40 bytes, and the counts and lengths fit their 32-bit fields.
#[verifier::spinoff_prover]
#[verifier::rlimit(40)]
pub proof fn lemma_save_load(header: Seq<u8>, entries: Seq<ArcEntryView>)
    requires
        header.len() == 0x30,
        forall|i: int| 0 <= i < entries.len() ==> (#[trigger] entries[i]).raw_index.len() == 0x40,
        entries.len() <= u32::MAX,
        saved_body(entries, entries.len() as int).len() <= u32::MAX,
        spec_pack_index(saved_index(entries, entries.len() as int)).len() <= u32::MAX,
    ensures
        ({
            let blob = spec_save(header, entries);
            &&& blob.len() >= 0x30
            &&& arc_loadable(blob)
            &&& arc_entries(blob) == Seq::new(entries.len(), |i: int| loaded_entry(entries, i))
        }),
{
    let n = entries.len() as int;
    let blob = spec_save(header, entries);
    let idx = saved_index(entries, n);
    let packed = spec_pack_index(idx);
    let body = saved_body(entries, n);
    let h2 = header.take(8) + le_bytes(n as u32) + le_bytes(packed.len() as u32) + header.skip(16);
    assert(blob == h2 + packed + body);
    assert(blob.subrange(8, 12) =~= le_bytes(n as u32));
    assert(blob.subrange(12, 16) =~= le_bytes(packed.len() as u32));
    lemma_read_le_bytes(blob, 8, n as u32);
    lemma_read_le_bytes(blob, 12, packed.len() as u32);
    assert(arc_count(blob) == n);
    assert(arc_index_len(blob) == packed.len());
    assert(arc_packed_index(blob) =~= packed);
    lemma_saved_index_records(entries, n);
    crate::lzss::lemma_literal_runs_len(idx);
    crate::lzss::lemma_pack_unpack(idx);
    assert(spec_unpack_index(arc_packed_index(blob)) == Some(idx));
    let base = arc_base(blob);
    assert(blob.subrange(base as int, blob.len() as int) =~= body);
    assert forall|i: int| 0 <= i < n implies {
        &&& base + spec_u32_le(#[trigger] index_record(idx, i), 0) + spec_u32_le(index_record(idx, i), 4)
            <= blob.len()
        &&& entry_of_record(blob, index_record(idx, i)) == loaded_entry(entries, i)
    } by {
        lemma_saved_entry(blob, entries, i);
    }
    assert(arc_entries(blob) =~= Seq::new(entries.len(), |i: int| loaded_entry(entries, i)));
}

} // verus!
