//! Verified codec for the store's on-disk format.
//!
//! A store file holds one BSON document with a single array field
//! `projects`; each array entry is a sub-document with the fields `id`
//! (64-bit integer), `name` (string), `created_at` / `updated_at` (ISO 8601
//! strings with a six-digit signed year, nine fractional-second digits and a
//! trailing `Z`), `is_active` (boolean) and `archived_at` (string or null).
//!
//! [`enc`] pins the byte sequence for a given record sequence; the encoder
//! produces exactly those bytes, and the decoder accepts exactly them, so
//! that a written document always reads back equal.

use vstd::arithmetic::div_mod::lemma_fundamental_div_mod;
use vstd::arithmetic::div_mod::lemma_fundamental_div_mod_converse;
use vstd::prelude::*;
use vstd::seq_lib::*;
use vstd::slice::slice_index_get;
use vstd::utf8::encode_utf8;

use crate::models::Project;
use crate::models::ProjectV;
use crate::models::Timestamp;
use crate::result::Error;

verus! {

/// Largest value a BSON int32 length field may carry.
pub open spec fn max_doc_len() -> int {
    0x7fff_ffff
}

/// Largest record identifier the format can carry (BSON stores it as a
/// signed 64-bit integer).
pub open spec fn max_id() -> int {
    0x7fff_ffff_ffff_ffff
}

// ---------------------------------------------------------------------------
// Little-endian integers
// ---------------------------------------------------------------------------

/// The four little-endian bytes of `n` (modulo 2^32).
pub open spec fn le32_of(n: int) -> Seq<u8> {
    seq![
        (n % 256) as u8,
        ((n / 256) % 256) as u8,
        ((n / 65536) % 256) as u8,
        ((n / 16777216) % 256) as u8,
    ]
}

/// The eight little-endian bytes of `n` (for `0 <= n < 2^64`).
pub open spec fn le64_of(n: int) -> Seq<u8> {
    seq![
        (n % 256) as u8,
        ((n / 256) % 256) as u8,
        ((n / 65536) % 256) as u8,
        ((n / 16777216) % 256) as u8,
        ((n / 4294967296) % 256) as u8,
        ((n / 1099511627776) % 256) as u8,
        ((n / 281474976710656) % 256) as u8,
        ((n / 72057594037927936) % 256) as u8,
    ]
}

// ---------------------------------------------------------------------------
// Decimal digits
// ---------------------------------------------------------------------------

/// The ASCII digit for `n % 10`-style components (meaningful for `0..=9`).
pub open spec fn dig(n: int) -> u8 {
    (48 + n) as u8
}

/// Two zero-padded ASCII digits of `n` (meaningful below 100).
pub open spec fn two_dig(n: int) -> Seq<u8> {
    seq![dig((n / 10) % 10), dig(n % 10)]
}

/// Six zero-padded ASCII digits of `n` (meaningful below 1 000 000).
pub open spec fn six_dig(n: int) -> Seq<u8> {
    seq![
        dig((n / 100000) % 10),
        dig((n / 10000) % 10),
        dig((n / 1000) % 10),
        dig((n / 100) % 10),
        dig((n / 10) % 10),
        dig(n % 10),
    ]
}

/// Nine zero-padded ASCII digits of `n` (meaningful below 1 000 000 000).
pub open spec fn nine_dig(n: int) -> Seq<u8> {
    seq![
        dig((n / 100000000) % 10),
        dig((n / 10000000) % 10),
        dig((n / 1000000) % 10),
        dig((n / 100000) % 10),
        dig((n / 10000) % 10),
        dig((n / 1000) % 10),
        dig((n / 100) % 10),
        dig((n / 10) % 10),
        dig(n % 10),
    ]
}

/// The shortest decimal form of `n`, no leading zeroes; used for the keys of
/// BSON array entries.
pub open spec fn dec_str(n: int) -> Seq<u8>
    decreases n,
{
    if n < 0 {
        Seq::empty()
    } else if n < 10 {
        seq![dig(n)]
    } else {
        dec_str(n / 10) + seq![dig(n % 10)]
    }
}

// ---------------------------------------------------------------------------
// Timestamps
// ---------------------------------------------------------------------------

/// The 33 bytes of a timestamp in the store's ISO 8601 shape, for example
/// `+002019-01-02T12:34:56.123000000Z`.
#[verifier::opaque]
pub open spec fn ts_bytes(t: Timestamp) -> Seq<u8> {
    seq![if t.year >= 0 { 43u8 } else { 45u8 }] + six_dig(
        if t.year >= 0 {
            t.year as int
        } else {
            -(t.year as int)
        },
    ) + seq![45u8] + two_dig(t.month as int) + seq![45u8] + two_dig(t.day as int) + seq![84u8]
        + two_dig(t.hour as int) + seq![58u8] + two_dig(t.minute as int) + seq![58u8] + two_dig(
        t.second as int,
    ) + seq![46u8] + nine_dig(t.nanosecond as int) + seq![90u8]
}

// ---------------------------------------------------------------------------
// Element keys
// ---------------------------------------------------------------------------

pub open spec fn key_id() -> Seq<u8> {
    encode_utf8("id"@)
}

pub open spec fn key_name() -> Seq<u8> {
    encode_utf8("name"@)
}

pub open spec fn key_created_at() -> Seq<u8> {
    encode_utf8("created_at"@)
}

pub open spec fn key_updated_at() -> Seq<u8> {
    encode_utf8("updated_at"@)
}

pub open spec fn key_is_active() -> Seq<u8> {
    encode_utf8("is_active"@)
}

pub open spec fn key_archived_at() -> Seq<u8> {
    encode_utf8("archived_at"@)
}

pub open spec fn key_projects() -> Seq<u8> {
    encode_utf8("projects"@)
}

/// The lengths of the element keys, needed wherever positions are computed.
pub proof fn lemma_key_lens()
    ensures
        key_id().len() == 2,
        key_name().len() == 4,
        key_created_at().len() == 10,
        key_updated_at().len() == 10,
        key_is_active().len() == 9,
        key_archived_at().len() == 11,
        key_projects().len() == 8,
{
    reveal_strlit("id");
    reveal_strlit("name");
    reveal_strlit("created_at");
    reveal_strlit("updated_at");
    reveal_strlit("is_active");
    reveal_strlit("archived_at");
    reveal_strlit("projects");
    vstd::utf8::is_ascii_chars_encode_utf8("id"@);
    vstd::utf8::is_ascii_chars_encode_utf8("name"@);
    vstd::utf8::is_ascii_chars_encode_utf8("created_at"@);
    vstd::utf8::is_ascii_chars_encode_utf8("updated_at"@);
    vstd::utf8::is_ascii_chars_encode_utf8("is_active"@);
    vstd::utf8::is_ascii_chars_encode_utf8("archived_at"@);
    vstd::utf8::is_ascii_chars_encode_utf8("projects"@);
}

// ---------------------------------------------------------------------------
// Document structure
// ---------------------------------------------------------------------------

/// A BSON string element: tag `0x02`, key, NUL, payload length (including
/// the trailing NUL) and the NUL-terminated payload.
pub open spec fn str_elem(key: Seq<u8>, payload: Seq<u8>) -> Seq<u8> {
    seq![2u8] + key + seq![0u8] + le32_of(payload.len() as int + 1) + payload + seq![0u8]
}

/// The `archived_at` element: a string element when set, a null element
/// (tag `0x0A`) when unset.
pub open spec fn arch_bytes(a: Option<Timestamp>) -> Seq<u8> {
    match a {
        Option::Some(t) => str_elem(key_archived_at(), ts_bytes(t)),
        Option::None => seq![10u8] + key_archived_at() + seq![0u8],
    }
}

/// The element list of one record's sub-document.
#[verifier::opaque]
pub open spec fn project_body(p: ProjectV) -> Seq<u8> {
    seq![18u8] + key_id() + seq![0u8] + le64_of(p.id as int) + str_elem(
        key_name(),
        encode_utf8(p.name),
    ) + str_elem(key_created_at(), ts_bytes(p.created_at)) + str_elem(
        key_updated_at(),
        ts_bytes(p.updated_at),
    ) + seq![8u8] + key_is_active() + seq![0u8] + seq![if p.is_active { 1u8 } else { 0u8 }]
        + arch_bytes(p.archived_at)
}

/// One record's sub-document: length header, element list, terminator.
pub open spec fn project_doc(p: ProjectV) -> Seq<u8> {
    le32_of(project_body(p).len() as int + 5) + project_body(p) + seq![0u8]
}

/// One entry of the `projects` array: tag `0x03`, the decimal index as key,
/// and the record's sub-document.
pub open spec fn arr_entry(i: int, p: ProjectV) -> Seq<u8> {
    seq![3u8] + dec_str(i) + seq![0u8] + project_doc(p)
}

/// The concatenated array entries from index `i` on.
pub open spec fn arr_elems(ps: Seq<ProjectV>, i: int) -> Seq<u8>
    decreases ps.len() - i,
{
    if i < 0 || i >= ps.len() {
        Seq::empty()
    } else {
        arr_entry(i, ps[i]) + arr_elems(ps, i + 1)
    }
}

/// The `projects` array as a BSON document.
#[verifier::opaque]
pub open spec fn arr_doc(ps: Seq<ProjectV>) -> Seq<u8> {
    le32_of(arr_elems(ps, 0).len() as int + 5) + arr_elems(ps, 0) + seq![0u8]
}

/// The element list of the top-level document.
#[verifier::opaque]
pub open spec fn top_body(ps: Seq<ProjectV>) -> Seq<u8> {
    seq![4u8] + key_projects() + seq![0u8] + arr_doc(ps)
}

/// The complete encoded store document for the record sequence `ps`.
#[verifier::opaque]
pub open spec fn enc(ps: Seq<ProjectV>) -> Seq<u8> {
    le32_of(top_body(ps).len() as int + 5) + top_body(ps) + seq![0u8]
}

// ---------------------------------------------------------------------------
// Encodability
// ---------------------------------------------------------------------------

/// Whether every identifier fits the signed 64-bit slot of the format.
pub open spec fn ids_ok(ps: Seq<ProjectV>) -> bool {
    forall|i: int| 0 <= i < ps.len() ==> (#[trigger] ps[i]).id <= max_id()
}

/// A record whose encoding reads back as itself: identifier within the
/// signed 64-bit range and well-formed timestamps.
pub open spec fn project_sane(p: ProjectV) -> bool {
    &&& p.id <= max_id()
    &&& p.created_at.wf()
    &&& p.updated_at.wf()
    &&& match p.archived_at {
        Option::Some(t) => t.wf(),
        Option::None => true,
    }
}

/// A document whose records are all sane.
pub open spec fn doc_sane(ps: Seq<ProjectV>) -> bool {
    forall|i: int| 0 <= i < ps.len() ==> project_sane(#[trigger] ps[i])
}

/// Whether the document's encoding fits the format's 32-bit signed length
/// fields.
pub open spec fn enc_fits(ps: Seq<ProjectV>) -> bool {
    enc(ps).len() <= max_doc_len()
}

/// The views of a sequence of records.
pub open spec fn views_of(ps: Seq<Project>) -> Seq<ProjectV> {
    ps.map_values(|p: Project| p@)
}

// ---------------------------------------------------------------------------
// Length facts
// ---------------------------------------------------------------------------

/// A timestamp always encodes to 33 bytes.
pub proof fn lemma_ts_bytes_len(t: Timestamp)
    ensures
        ts_bytes(t).len() == 33,
{
    reveal(ts_bytes);
    assert(ts_bytes(t).len() == 33);
}

/// The array element list is at least as long as any single entry in it.
proof fn lemma_arr_elems_len_lower(ps: Seq<ProjectV>, i: int, j: int)
    requires
        0 <= i <= j < ps.len(),
    ensures
        arr_elems(ps, i).len() >= arr_entry(j, ps[j]).len(),
    decreases j - i,
{
    if i == j {
    } else {
        lemma_arr_elems_len_lower(ps, i + 1, j);
    }
}

/// The whole encoding is longer than any one record's element list.
proof fn lemma_enc_len_lower(ps: Seq<ProjectV>, j: int)
    requires
        0 <= j < ps.len(),
    ensures
        enc(ps).len() >= project_body(ps[j]).len() + 5,
{
    reveal(enc);
    reveal(top_body);
    reveal(arr_doc);
    lemma_arr_elems_len_lower(ps, 0, j);
}

// ---------------------------------------------------------------------------
// Byte writers
// ---------------------------------------------------------------------------

fn push_byte(out: &mut Vec<u8>, b: u8)
    ensures
        final(out)@ == old(out)@ + seq![b],
{
    out.push(b);
    proof {
        assert(out@ =~= old(out)@ + seq![b]);
    }
}

fn push_bytes(out: &mut Vec<u8>, s: &[u8])
    ensures
        final(out)@ == old(out)@ + s@,
{
    let mut i: usize = 0;
    while i < s.len()
        invariant
            i <= s@.len(),
            out@ == old(out)@ + s@.subrange(0, i as int),
        decreases s@.len() - i,
    {
        let b: u8 = *slice_index_get(s, i);
        out.push(b);
        i = i + 1;
        proof {
            assert(out@ =~= old(out)@ + s@.subrange(0, i as int));
        }
    }
    proof {
        assert(out@ =~= old(out)@ + s@);
    }
}

fn push_le32(out: &mut Vec<u8>, n: u32)
    ensures
        final(out)@ == old(out)@ + le32_of(n as int),
{
    push_byte(out, (n % 256) as u8);
    push_byte(out, ((n / 256) % 256) as u8);
    push_byte(out, ((n / 65536) % 256) as u8);
    push_byte(out, ((n / 16777216) % 256) as u8);
    proof {
        assert(out@ =~= old(out)@ + le32_of(n as int));
    }
}

fn push_len32(out: &mut Vec<u8>, n: usize)
    requires
        n <= 0x7fff_ffff,
    ensures
        final(out)@ == old(out)@ + le32_of(n as int),
{
    push_le32(out, n as u32);
}

fn push_le64(out: &mut Vec<u8>, n: u64)
    ensures
        final(out)@ == old(out)@ + le64_of(n as int),
{
    push_byte(out, (n % 256) as u8);
    push_byte(out, ((n / 256) % 256) as u8);
    push_byte(out, ((n / 65536) % 256) as u8);
    push_byte(out, ((n / 16777216) % 256) as u8);
    push_byte(out, ((n / 4294967296) % 256) as u8);
    push_byte(out, ((n / 1099511627776) % 256) as u8);
    push_byte(out, ((n / 281474976710656) % 256) as u8);
    push_byte(out, ((n / 72057594037927936) % 256) as u8);
    proof {
        assert(out@ =~= old(out)@ + le64_of(n as int));
    }
}

fn push_two_dig(out: &mut Vec<u8>, n: u8)
    ensures
        final(out)@ == old(out)@ + two_dig(n as int),
{
    push_byte(out, 48 + (n / 10) % 10);
    push_byte(out, 48 + n % 10);
    proof {
        assert(out@ =~= old(out)@ + two_dig(n as int));
    }
}

fn push_six_dig(out: &mut Vec<u8>, n: u32)
    ensures
        final(out)@ == old(out)@ + six_dig(n as int),
{
    push_byte(out, 48 + ((n / 100000) % 10) as u8);
    push_byte(out, 48 + ((n / 10000) % 10) as u8);
    push_byte(out, 48 + ((n / 1000) % 10) as u8);
    push_byte(out, 48 + ((n / 100) % 10) as u8);
    push_byte(out, 48 + ((n / 10) % 10) as u8);
    push_byte(out, 48 + (n % 10) as u8);
    proof {
        assert(out@ =~= old(out)@ + six_dig(n as int));
    }
}

fn push_nine_dig(out: &mut Vec<u8>, n: u32)
    ensures
        final(out)@ == old(out)@ + nine_dig(n as int),
{
    push_byte(out, 48 + ((n / 100000000) % 10) as u8);
    push_byte(out, 48 + ((n / 10000000) % 10) as u8);
    push_byte(out, 48 + ((n / 1000000) % 10) as u8);
    push_byte(out, 48 + ((n / 100000) % 10) as u8);
    push_byte(out, 48 + ((n / 10000) % 10) as u8);
    push_byte(out, 48 + ((n / 1000) % 10) as u8);
    push_byte(out, 48 + ((n / 100) % 10) as u8);
    push_byte(out, 48 + ((n / 10) % 10) as u8);
    push_byte(out, 48 + (n % 10) as u8);
    proof {
        assert(out@ =~= old(out)@ + nine_dig(n as int));
    }
}

/// Writes the 33-byte ISO 8601 form of `t`.
fn push_ts(out: &mut Vec<u8>, t: &Timestamp)
    ensures
        final(out)@ == old(out)@ + ts_bytes(*t),
{
    let sign: u8 = if t.year >= 0 {
        43
    } else {
        45
    };
    let m: i64 = t.year as i64;
    let y: u32 = if m >= 0 {
        m as u32
    } else {
        (-m) as u32
    };
    push_byte(out, sign);
    push_six_dig(out, y);
    push_byte(out, 45);
    push_two_dig(out, t.month);
    push_byte(out, 45);
    push_two_dig(out, t.day);
    push_byte(out, 84);
    push_two_dig(out, t.hour);
    push_byte(out, 58);
    push_two_dig(out, t.minute);
    push_byte(out, 58);
    push_two_dig(out, t.second);
    push_byte(out, 46);
    push_nine_dig(out, t.nanosecond);
    push_byte(out, 90);
    proof {
        reveal(ts_bytes);
        assert(out@ =~= old(out)@ + ts_bytes(*t));
    }
}

/// Writes the decimal form of `i`, as used for array-entry keys.
fn push_index(out: &mut Vec<u8>, i: u64)
    ensures
        final(out)@ == old(out)@ + dec_str(i as int),
{
    let mut rev: Vec<u8> = Vec::new();
    let mut m: u64 = i;
    proof {
        assert(dec_str(i as int) =~= dec_str(m as int) + rev@.reverse());
    }
    while m >= 10
        invariant
            dec_str(i as int) == dec_str(m as int) + rev@.reverse(),
        decreases m,
    {
        let ghost rev0 = rev@;
        let d: u8 = (m % 10) as u8 + 48;
        rev.push(d);
        proof {
            assert(rev@.reverse() =~= seq![d] + rev0.reverse());
            assert(dec_str(m as int) == dec_str(m as int / 10) + seq![dig(m as int % 10)]);
            assert(dec_str(i as int) =~= dec_str((m / 10) as int) + rev@.reverse());
        }
        m = m / 10;
    }
    push_byte(out, m as u8 + 48);
    proof {
        assert(dec_str(m as int) == seq![dig(m as int)]);
        assert(out@ =~= old(out)@ + dec_str(m as int) + rev@.reverse().take(0));
    }
    let mut k: usize = 0;
    while k < rev.len()
        invariant
            k <= rev@.len(),
            out@ == old(out)@ + dec_str(m as int) + rev@.reverse().take(k as int),
            dec_str(i as int) == dec_str(m as int) + rev@.reverse(),
            m < 10,
        decreases rev@.len() - k,
    {
        let b: u8 = *slice_index_get(rev.as_slice(), rev.len() - 1 - k);
        out.push(b);
        k = k + 1;
        proof {
            assert(out@ =~= old(out)@ + dec_str(m as int) + rev@.reverse().take(k as int));
        }
    }
    proof {
        assert(rev@.reverse().take(rev@.len() as int) =~= rev@.reverse());
        assert(out@ =~= old(out)@ + dec_str(i as int));
    }
}

/// Writes one BSON string element.
fn push_str_elem(out: &mut Vec<u8>, key: &[u8], payload: &[u8])
    requires
        payload@.len() <= 0x7fff_fffe,
    ensures
        final(out)@ == old(out)@ + str_elem(key@, payload@),
{
    push_byte(out, 2);
    push_bytes(out, key);
    push_byte(out, 0);
    push_len32(out, payload.len() + 1);
    push_bytes(out, payload);
    push_byte(out, 0);
    proof {
        assert(out@ =~= old(out)@ + str_elem(key@, payload@));
    }
}

// ---------------------------------------------------------------------------
// The encoder
// ---------------------------------------------------------------------------

/// Encodes the record sequence as the store's one-document file format.
///
/// Succeeds exactly when every identifier fits the signed 64-bit slot and
/// the whole encoding fits the 32-bit signed length fields; the bytes are
/// then exactly [`enc`] of the records.
/// Builds the element list of one record's sub-document; fails only when the
/// record's name is too long for a 32-bit signed length field.
fn build_project_body(p: &Project) -> (r: Result<Vec<u8>, Error>)
    ensures
        r is Ok <==> encode_utf8(p@.name).len() <= 0x7fff_fffd,
        r is Ok ==> r->Ok_0@ == project_body(p@),
        r is Err ==> r->Err_0 is Unknown,
{
    let mut pb: Vec<u8> = Vec::new();
    push_byte(&mut pb, 18);
    push_bytes(&mut pb, "id".as_bytes());
    push_byte(&mut pb, 0);
    push_le64(&mut pb, p.id);
    let nb: &[u8] = p.name.as_str().as_bytes();
    if nb.len() > 0x7fff_fffd {
        return Err(Error::unknown("encoded document exceeds the maximum size"));
    }
    push_str_elem(&mut pb, "name".as_bytes(), nb);
    let mut ts_created: Vec<u8> = Vec::new();
    push_ts(&mut ts_created, &p.created_at);
    proof {
        lemma_ts_bytes_len(p.created_at);
    }
    push_str_elem(&mut pb, "created_at".as_bytes(), ts_created.as_slice());
    let mut ts_updated: Vec<u8> = Vec::new();
    push_ts(&mut ts_updated, &p.updated_at);
    proof {
        lemma_ts_bytes_len(p.updated_at);
    }
    push_str_elem(&mut pb, "updated_at".as_bytes(), ts_updated.as_slice());
    push_byte(&mut pb, 8);
    push_bytes(&mut pb, "is_active".as_bytes());
    push_byte(&mut pb, 0);
    push_byte(
        &mut pb,
        if p.is_active {
            1
        } else {
            0
        },
    );
    match &p.archived_at {
        Option::Some(t) => {
            let mut ts_arch: Vec<u8> = Vec::new();
            push_ts(&mut ts_arch, t);
            proof {
                lemma_ts_bytes_len(*t);
            }
            push_str_elem(&mut pb, "archived_at".as_bytes(), ts_arch.as_slice());
        },
        Option::None => {
            push_byte(&mut pb, 10);
            push_bytes(&mut pb, "archived_at".as_bytes());
            push_byte(&mut pb, 0);
        },
    }
    proof {
        reveal(project_body);
        assert(pb@ =~= project_body(p@));
    }
    Ok(pb)
}

#[verifier::rlimit(100)]
#[verifier::spinoff_prover]
/// A record whose name alone exceeds the format's length fields makes the
/// whole document too large.
proof fn lemma_too_long_name(d: Seq<ProjectV>, j: int)
    requires
        0 <= j < d.len(),
        encode_utf8(d[j].name).len() > 0x7fff_fffd,
    ensures
        !enc_fits(d),
{
    lemma_enc_len_lower(d, j);
    lemma_project_doc_split(d[j]);
}

/// A record whose element list exceeds the format's length fields makes the
/// whole document too large.
proof fn lemma_too_long_body(d: Seq<ProjectV>, j: int)
    requires
        0 <= j < d.len(),
        project_body(d[j]).len() > 0x7fff_fffa,
    ensures
        !enc_fits(d),
{
    lemma_enc_len_lower(d, j);
}

/// Appending one encoded entry extends the array element list by one
/// record.
proof fn lemma_encode_append(
    ab0: Seq<u8>,
    ab1: Seq<u8>,
    pb: Seq<u8>,
    i: int,
    d: Seq<ProjectV>,
)
    requires
        0 <= i < d.len(),
        pb == project_body(d[i]),
        ab1 == ab0 + seq![3u8] + dec_str(i) + seq![0u8] + le32_of(pb.len() as int + 5) + pb
            + seq![0u8],
        ab0 + arr_elems(d, i) == arr_elems(d, 0),
    ensures
        ab1 + arr_elems(d, i + 1) == arr_elems(d, 0),
{
    assert(ab1 =~= ab0 + arr_entry(i, d[i]));
    assert(arr_elems(d, i) == arr_entry(i, d[i]) + arr_elems(d, i + 1));
    assert(ab1 + arr_elems(d, i + 1) =~= arr_elems(d, 0));
}

pub fn encode_projects(projects: &Vec<Project>) -> (r: Result<Vec<u8>, Error>)
    ensures
        r is Ok <==> ids_ok(views_of(projects@)) && enc_fits(views_of(projects@)),
        r is Ok ==> r->Ok_0@ == enc(views_of(projects@)),
        r is Err ==> r->Err_0 is Unknown,
{
    let ghost d: Seq<ProjectV> = views_of(projects@);
    proof {
        lemma_key_lens();
    }
    let mut arr_body: Vec<u8> = Vec::new();
    let mut i: usize = 0;
    proof {
        assert(arr_body@ + arr_elems(d, 0) =~= arr_elems(d, 0));
    }
    while i < projects.len()
        invariant
            i <= projects@.len(),
            d == views_of(projects@),
            arr_body@ + arr_elems(d, i as int) == arr_elems(d, 0),
            forall|k: int| 0 <= k < i ==> (#[trigger] d[k]).id <= max_id(),
        decreases projects@.len() - i,
    {
        let ghost ab0 = arr_body@;
        let p: &Project = slice_index_get(projects.as_slice(), i);
        proof {
            assert(d[i as int] == p@);
        }
        if p.id > 0x7fff_ffff_ffff_ffff {
            return Err(Error::unknown("identifier exceeds the signed 64-bit integer range"));
        }
        let pb: Vec<u8> = match build_project_body(p) {
            Ok(v) => v,
            Err(e) => {
                proof {
                    lemma_too_long_name(d, i as int);
                }
                return Err(e);
            },
        };
        if pb.len() > 0x7fff_fffa {
            proof {
                lemma_too_long_body(d, i as int);
            }
            return Err(Error::unknown("encoded document exceeds the maximum size"));
        }
        push_byte(&mut arr_body, 3);
        push_index(&mut arr_body, i as u64);
        push_byte(&mut arr_body, 0);
        push_len32(&mut arr_body, pb.len() + 5);
        push_bytes(&mut arr_body, pb.as_slice());
        push_byte(&mut arr_body, 0);
        proof {
            lemma_encode_append(ab0, arr_body@, pb@, i as int, d);
        }
        i = i + 1;
    }
    proof {
        assert(arr_elems(d, i as int) == Seq::<u8>::empty());
        assert(arr_body@ =~= arr_elems(d, 0));
    }
    if arr_body.len() > 0x7fff_fffa {
        proof {
            reveal(enc);
            reveal(top_body);
            reveal(arr_doc);
        }
        return Err(Error::unknown("encoded document exceeds the maximum size"));
    }
    let kp: &[u8] = "projects".as_bytes();
    let body_len: usize = arr_body.len() + 7 + kp.len();
    if body_len > 0x7fff_fffa {
        proof {
            reveal(enc);
            reveal(top_body);
            reveal(arr_doc);
        }
        return Err(Error::unknown("encoded document exceeds the maximum size"));
    }
    let mut out: Vec<u8> = Vec::new();
    push_len32(&mut out, body_len + 5);
    push_byte(&mut out, 4);
    push_bytes(&mut out, kp);
    push_byte(&mut out, 0);
    push_len32(&mut out, arr_body.len() + 5);
    push_bytes(&mut out, arr_body.as_slice());
    push_byte(&mut out, 0);
    push_byte(&mut out, 0);
    proof {
        reveal(enc);
        reveal(top_body);
        reveal(arr_doc);
        assert(body_len == top_body(d).len());
        assert(out@ =~= enc(d));
    }
    Ok(out)
}

// ---------------------------------------------------------------------------
// Byte readers
// ---------------------------------------------------------------------------

/// Whether `s` occurs in `b` starting at position `pos`.
pub open spec fn prefix_at(b: Seq<u8>, pos: int, s: Seq<u8>) -> bool {
    &&& 0 <= pos
    &&& pos + s.len() <= b.len()
    &&& b.subrange(pos, pos + s.len()) == s
}

/// Relies on `String::from_utf8`: it succeeds exactly on valid UTF-8 input
/// and returns the string whose byte representation is that input.
#[verifier::external_body]
fn string_from_utf8(bytes: Vec<u8>) -> (r: Option<String>)
    ensures
        vstd::utf8::valid_utf8(bytes@) ==> r is Some && r->0@ == vstd::utf8::decode_utf8(bytes@),
        !vstd::utf8::valid_utf8(bytes@) ==> r is None,
{
    String::from_utf8(bytes).ok()
}

fn read_le32(bytes: &[u8], pos: usize) -> (n: u32)
    requires
        pos + 4 <= bytes@.len(),
    ensures
        bytes@.subrange(pos as int, pos as int + 4) == le32_of(n as int),
{
    let blen: usize = bytes.len();
    proof {
        assert(pos + 4 <= blen);
    }
    let b0: u32 = *slice_index_get(bytes, pos) as u32;
    let b1: u32 = *slice_index_get(bytes, pos + 1) as u32;
    let b2: u32 = *slice_index_get(bytes, pos + 2) as u32;
    let b3: u32 = *slice_index_get(bytes, pos + 3) as u32;
    let n: u32 = b0 + 256 * b1 + 65536 * b2 + 16777216 * b3;
    proof {
        assert(n as int % 256 == b0 && (n as int / 256) % 256 == b1 && (n as int / 65536) % 256
            == b2 && (n as int / 16777216) % 256 == b3) by {
            lemma_fundamental_div_mod_converse(
                n as int,
                256,
                b1 + 256 * b2 + 65536 * b3,
                b0 as int,
            );
            lemma_fundamental_div_mod_converse(
                n as int,
                65536,
                b2 + 256 * b3,
                b0 + 256 * b1,
            );
            lemma_fundamental_div_mod_converse(
                n as int,
                16777216,
                b3 as int,
                b0 + 256 * b1 + 65536 * b2,
            );
            lemma_fundamental_div_mod_converse(b1 + 256 * b2 + 65536 * b3, 256, b2 + 256 * b3, b1 as int);
            lemma_fundamental_div_mod_converse(b2 + 256 * b3, 256, b3 as int, b2 as int);
            lemma_fundamental_div_mod_converse(b3 as int, 256, 0, b3 as int);
        };
        assert(bytes@.subrange(pos as int, pos as int + 4) =~= le32_of(n as int));
    }
    n
}

/// Two different 32-bit values never share their little-endian bytes.
proof fn lemma_le32_inj(a: int, b: int)
    requires
        0 <= a < 0x1_0000_0000,
        0 <= b < 0x1_0000_0000,
        le32_of(a) == le32_of(b),
    ensures
        a == b,
{
    let a32 = a as u32;
    let b32 = b as u32;
    assert(le32_of(a)[0] == le32_of(b)[0]);
    assert(le32_of(a)[1] == le32_of(b)[1]);
    assert(le32_of(a)[2] == le32_of(b)[2]);
    assert(le32_of(a)[3] == le32_of(b)[3]);
    assert(a32 == b32) by (bit_vector)
        requires
            a32 % 256 == b32 % 256,
            (a32 / 256) % 256 == (b32 / 256) % 256,
            (a32 / 65536) % 256 == (b32 / 65536) % 256,
            (a32 / 16777216) % 256 == (b32 / 16777216) % 256,
    ;
}

fn read_le64(bytes: &[u8], pos: usize) -> (n: u64)
    requires
        pos + 8 <= bytes@.len(),
    ensures
        bytes@.subrange(pos as int, pos as int + 8) == le64_of(n as int),
{
    let blen: usize = bytes.len();
    proof {
        assert(pos + 8 <= blen);
    }
    let b0: u64 = *slice_index_get(bytes, pos) as u64;
    let b1: u64 = *slice_index_get(bytes, pos + 1) as u64;
    let b2: u64 = *slice_index_get(bytes, pos + 2) as u64;
    let b3: u64 = *slice_index_get(bytes, pos + 3) as u64;
    let b4: u64 = *slice_index_get(bytes, pos + 4) as u64;
    let b5: u64 = *slice_index_get(bytes, pos + 5) as u64;
    let b6: u64 = *slice_index_get(bytes, pos + 6) as u64;
    let b7: u64 = *slice_index_get(bytes, pos + 7) as u64;
    let n: u64 = b0 + 256 * b1 + 65536 * b2 + 16777216 * b3 + 4294967296 * b4 + 1099511627776 * b5
        + 281474976710656 * b6 + 72057594037927936 * b7;
    proof {
        assert(n % 256 == b0 && (n / 256) % 256 == b1 && (n / 65536) % 256 == b2 && (n
            / 16777216) % 256 == b3 && (n / 4294967296) % 256 == b4 && (n / 1099511627776) % 256
            == b5 && (n / 281474976710656) % 256 == b6 && (n / 72057594037927936) % 256 == b7)
            by (bit_vector)
            requires
                n == b0 + 256 * b1 + 65536 * b2 + 16777216 * b3 + 4294967296 * b4
                    + 1099511627776 * b5 + 281474976710656 * b6 + 72057594037927936 * b7,
                b0 < 256 && b1 < 256 && b2 < 256 && b3 < 256 && b4 < 256 && b5 < 256 && b6 < 256
                    && b7 < 256,
        ;
        assert(bytes@.subrange(pos as int, pos as int + 8) =~= le64_of(n as int));
    }
    n
}

/// Two different 64-bit values never share their little-endian bytes.
proof fn lemma_le64_inj(a: u64, b: u64)
    requires
        le64_of(a as int) == le64_of(b as int),
    ensures
        a == b,
{
    assert(le64_of(a as int)[0] == le64_of(b as int)[0]);
    assert(le64_of(a as int)[1] == le64_of(b as int)[1]);
    assert(le64_of(a as int)[2] == le64_of(b as int)[2]);
    assert(le64_of(a as int)[3] == le64_of(b as int)[3]);
    assert(le64_of(a as int)[4] == le64_of(b as int)[4]);
    assert(le64_of(a as int)[5] == le64_of(b as int)[5]);
    assert(le64_of(a as int)[6] == le64_of(b as int)[6]);
    assert(le64_of(a as int)[7] == le64_of(b as int)[7]);
    assert(a == b) by (bit_vector)
        requires
            a % 256 == b % 256,
            (a / 256) % 256 == (b / 256) % 256,
            (a / 65536) % 256 == (b / 65536) % 256,
            (a / 16777216) % 256 == (b / 16777216) % 256,
            (a / 4294967296) % 256 == (b / 4294967296) % 256,
            (a / 1099511627776) % 256 == (b / 1099511627776) % 256,
            (a / 281474976710656) % 256 == (b / 281474976710656) % 256,
            (a / 72057594037927936) % 256 == (b / 72057594037927936) % 256,
    ;
}

/// Whether `expect` occurs in `bytes` at position `pos`.
fn slice_eq_at(bytes: &[u8], pos: usize, expect: &[u8]) -> (r: bool)
    requires
        pos <= bytes@.len(),
    ensures
        r == prefix_at(bytes@, pos as int, expect@),
{
    let blen: usize = bytes.len();
    if expect.len() > blen - pos {
        return false;
    }
    let mut i: usize = 0;
    while i < expect.len()
        invariant
            pos + expect@.len() <= bytes@.len(),
            blen == bytes@.len(),
            i <= expect@.len(),
            forall|k: int| 0 <= k < i ==> bytes@[pos + k] == expect@[k],
        decreases expect@.len() - i,
    {
        if *slice_index_get(bytes, pos + i) != *slice_index_get(expect, i) {
            proof {
                assert(bytes@.subrange(pos as int, pos as int + expect@.len())[i as int]
                    == bytes@[pos + i]);
            }
            return false;
        }
        i = i + 1;
    }
    proof {
        assert(bytes@.subrange(pos as int, pos as int + expect@.len()) =~= expect@);
    }
    true
}

fn expect_byte(bytes: &[u8], pos: usize, b: u8) -> (r: bool)
    requires
        pos < bytes@.len(),
    ensures
        r == (bytes@[pos as int] == b),
{
    *slice_index_get(bytes, pos) == b
}

/// The value of an ASCII digit, or `10` for any other byte.
fn digit_value(b: u8) -> (r: u8)
    ensures
        r <= 10,
        r < 10 ==> b == dig(r as int),
        r == 10 ==> !(48 <= b <= 57),
{
    if 48 <= b && b <= 57 {
        b - 48
    } else {
        10
    }
}

// ---------------------------------------------------------------------------
// Decimal digit decomposition
// ---------------------------------------------------------------------------

/// Any value below 100 is the weighted sum of its two decimal digits.
proof fn lemma_two_dig_decompose(y: int)
    requires
        0 <= y < 100,
    ensures
        y == (y / 10 % 10) * 10 + y % 10,
{
    lemma_fundamental_div_mod(y, 10);
    vstd::arithmetic::div_mod::lemma_small_mod((y / 10) as nat, 10);
}

/// Any value below 1 000 000 is the weighted sum of its six decimal digits.
proof fn lemma_six_dig_decompose(y: int)
    requires
        0 <= y < 1000000,
    ensures
        y == (y / 100000 % 10) * 100000 + (y / 10000 % 10) * 10000 + (y / 1000 % 10) * 1000 + (y
            / 100 % 10) * 100 + (y / 10 % 10) * 10 + y % 10,
{
    lemma_fundamental_div_mod(y, 10);
    vstd::arithmetic::div_mod::lemma_div_denominator(y, 10, 10);
    lemma_fundamental_div_mod(y / 10, 10);
    vstd::arithmetic::div_mod::lemma_div_denominator(y, 100, 10);
    lemma_fundamental_div_mod(y / 100, 10);
    vstd::arithmetic::div_mod::lemma_div_denominator(y, 1000, 10);
    lemma_fundamental_div_mod(y / 1000, 10);
    vstd::arithmetic::div_mod::lemma_div_denominator(y, 10000, 10);
    lemma_fundamental_div_mod(y / 10000, 10);
    vstd::arithmetic::div_mod::lemma_small_mod((y / 100000) as nat, 10);
}

/// Any value below 1 000 000 000 is the weighted sum of its nine decimal
/// digits.
proof fn lemma_nine_dig_decompose(y: int)
    requires
        0 <= y < 1000000000,
    ensures
        y == (y / 100000000 % 10) * 100000000 + (y / 10000000 % 10) * 10000000 + (y / 1000000 % 10)
            * 1000000 + (y / 100000 % 10) * 100000 + (y / 10000 % 10) * 10000 + (y / 1000 % 10)
            * 1000 + (y / 100 % 10) * 100 + (y / 10 % 10) * 10 + y % 10,
{
    lemma_fundamental_div_mod(y, 10);
    vstd::arithmetic::div_mod::lemma_div_denominator(y, 10, 10);
    lemma_fundamental_div_mod(y / 10, 10);
    vstd::arithmetic::div_mod::lemma_div_denominator(y, 100, 10);
    lemma_fundamental_div_mod(y / 100, 10);
    vstd::arithmetic::div_mod::lemma_div_denominator(y, 1000, 10);
    lemma_fundamental_div_mod(y / 1000, 10);
    vstd::arithmetic::div_mod::lemma_div_denominator(y, 10000, 10);
    lemma_fundamental_div_mod(y / 10000, 10);
    vstd::arithmetic::div_mod::lemma_div_denominator(y, 100000, 10);
    lemma_fundamental_div_mod(y / 100000, 10);
    vstd::arithmetic::div_mod::lemma_div_denominator(y, 1000000, 10);
    lemma_fundamental_div_mod(y / 1000000, 10);
    vstd::arithmetic::div_mod::lemma_div_denominator(y, 10000000, 10);
    lemma_fundamental_div_mod(y / 10000000, 10);
    vstd::arithmetic::div_mod::lemma_small_mod((y / 100000000) as nat, 10);
}

/// How the 33 timestamp bytes split into sign, digit groups and separators.
proof fn lemma_ts_bytes_split(t: Timestamp)
    ensures
        ts_bytes(t).len() == 33,
        ts_bytes(t)[0] == (if t.year >= 0 {
            43u8
        } else {
            45u8
        }),
        ts_bytes(t).subrange(1, 7) == six_dig(
            if t.year >= 0 {
                t.year as int
            } else {
                -(t.year as int)
            },
        ),
        ts_bytes(t)[7] == 45u8,
        ts_bytes(t).subrange(8, 10) == two_dig(t.month as int),
        ts_bytes(t)[10] == 45u8,
        ts_bytes(t).subrange(11, 13) == two_dig(t.day as int),
        ts_bytes(t)[13] == 84u8,
        ts_bytes(t).subrange(14, 16) == two_dig(t.hour as int),
        ts_bytes(t)[16] == 58u8,
        ts_bytes(t).subrange(17, 19) == two_dig(t.minute as int),
        ts_bytes(t)[19] == 58u8,
        ts_bytes(t).subrange(20, 22) == two_dig(t.second as int),
        ts_bytes(t)[22] == 46u8,
        ts_bytes(t).subrange(23, 32) == nine_dig(t.nanosecond as int),
        ts_bytes(t)[32] == 90u8,
{
    reveal(ts_bytes);
    let yy: int = if t.year >= 0 {
        t.year as int
    } else {
        -(t.year as int)
    };
    assert(ts_bytes(t).subrange(1, 7) =~= six_dig(yy));
    assert(ts_bytes(t).subrange(8, 10) =~= two_dig(t.month as int));
    assert(ts_bytes(t).subrange(11, 13) =~= two_dig(t.day as int));
    assert(ts_bytes(t).subrange(14, 16) =~= two_dig(t.hour as int));
    assert(ts_bytes(t).subrange(17, 19) =~= two_dig(t.minute as int));
    assert(ts_bytes(t).subrange(20, 22) =~= two_dig(t.second as int));
    assert(ts_bytes(t).subrange(23, 32) =~= nine_dig(t.nanosecond as int));
}

/// A well-formed timestamp is pinned down by its 33 bytes.
#[verifier::rlimit(100)]
#[verifier::spinoff_prover]
proof fn lemma_ts_bytes_digits(t: Timestamp)
    requires
        t.wf(),
    ensures
        ({
            let s = ts_bytes(t);
            let yy: int = if t.year >= 0 {
                t.year as int
            } else {
                -(t.year as int)
            };
            &&& s.len() == 33
            &&& s[0] == (if t.year >= 0 {
                43u8
            } else {
                45u8
            })
            &&& s[1] == dig(yy / 100000 % 10) && s[2] == dig(yy / 10000 % 10) && s[3] == dig(
                yy / 1000 % 10,
            ) && s[4] == dig(yy / 100 % 10) && s[5] == dig(yy / 10 % 10) && s[6] == dig(yy % 10)
            &&& yy == (yy / 100000 % 10) * 100000 + (yy / 10000 % 10) * 10000 + (yy / 1000 % 10)
                * 1000 + (yy / 100 % 10) * 100 + (yy / 10 % 10) * 10 + yy % 10
            &&& s[7] == 45u8
            &&& s[8] == dig(t.month as int / 10 % 10) && s[9] == dig(t.month as int % 10)
            &&& t.month as int == (t.month as int / 10 % 10) * 10 + t.month as int % 10
            &&& s[10] == 45u8
            &&& s[11] == dig(t.day as int / 10 % 10) && s[12] == dig(t.day as int % 10)
            &&& t.day as int == (t.day as int / 10 % 10) * 10 + t.day as int % 10
            &&& s[13] == 84u8
            &&& s[14] == dig(t.hour as int / 10 % 10) && s[15] == dig(t.hour as int % 10)
            &&& t.hour as int == (t.hour as int / 10 % 10) * 10 + t.hour as int % 10
            &&& s[16] == 58u8
            &&& s[17] == dig(t.minute as int / 10 % 10) && s[18] == dig(t.minute as int % 10)
            &&& t.minute as int == (t.minute as int / 10 % 10) * 10 + t.minute as int % 10
            &&& s[19] == 58u8
            &&& s[20] == dig(t.second as int / 10 % 10) && s[21] == dig(t.second as int % 10)
            &&& t.second as int == (t.second as int / 10 % 10) * 10 + t.second as int % 10
            &&& s[22] == 46u8
            &&& s[23] == dig(t.nanosecond as int / 100000000 % 10) && s[24] == dig(
                t.nanosecond as int / 10000000 % 10,
            ) && s[25] == dig(t.nanosecond as int / 1000000 % 10) && s[26] == dig(
                t.nanosecond as int / 100000 % 10,
            ) && s[27] == dig(t.nanosecond as int / 10000 % 10) && s[28] == dig(
                t.nanosecond as int / 1000 % 10,
            ) && s[29] == dig(t.nanosecond as int / 100 % 10) && s[30] == dig(
                t.nanosecond as int / 10 % 10,
            ) && s[31] == dig(t.nanosecond as int % 10)
            &&& t.nanosecond as int == (t.nanosecond as int / 100000000 % 10) * 100000000 + (
            t.nanosecond as int / 10000000 % 10) * 10000000 + (t.nanosecond as int / 1000000 % 10)
                * 1000000 + (t.nanosecond as int / 100000 % 10) * 100000 + (t.nanosecond as int
                / 10000 % 10) * 10000 + (t.nanosecond as int / 1000 % 10) * 1000 + (
            t.nanosecond as int / 100 % 10) * 100 + (t.nanosecond as int / 10 % 10) * 10
                + t.nanosecond as int % 10
            &&& s[32] == 90u8
        }),
{
    let yy: int = if t.year >= 0 {
        t.year as int
    } else {
        -(t.year as int)
    };
    lemma_ts_bytes_split(t);
    lemma_six_dig_decompose(yy);
    lemma_two_dig_decompose(t.month as int);
    lemma_two_dig_decompose(t.day as int);
    lemma_two_dig_decompose(t.hour as int);
    lemma_two_dig_decompose(t.minute as int);
    lemma_two_dig_decompose(t.second as int);
    lemma_nine_dig_decompose(t.nanosecond as int);
}

/// Two well-formed timestamps with the same bytes are the same timestamp.
proof fn lemma_ts_bytes_inj(t: Timestamp, u: Timestamp)
    requires
        t.wf(),
        u.wf(),
        ts_bytes(t) == ts_bytes(u),
    ensures
        t == u,
{
    lemma_ts_bytes_digits(t);
    lemma_ts_bytes_digits(u);
    let yt: int = if t.year >= 0 {
        t.year as int
    } else {
        -(t.year as int)
    };
    let yu: int = if u.year >= 0 {
        u.year as int
    } else {
        -(u.year as int)
    };
    assert(yt == yu);
    assert(t.year == u.year);
    assert(t.month == u.month && t.day == u.day && t.hour == u.hour && t.minute == u.minute
        && t.second == u.second && t.nanosecond == u.nanosecond);
}

/// Thirty-three bytes that carry a timestamp's digit groups and separators
/// are exactly that timestamp's encoding.
#[verifier::rlimit(100)]
#[verifier::spinoff_prover]
proof fn lemma_ts_bytes_build(t: Timestamp, s: Seq<u8>)
    requires
        ({
            let yy: int = if t.year >= 0 {
                t.year as int
            } else {
                -(t.year as int)
            };
            &&& s.len() == 33
            &&& s[0] == (if t.year >= 0 {
                43u8
            } else {
                45u8
            })
            &&& s[1] == dig(yy / 100000 % 10) && s[2] == dig(yy / 10000 % 10) && s[3] == dig(
                yy / 1000 % 10,
            ) && s[4] == dig(yy / 100 % 10) && s[5] == dig(yy / 10 % 10) && s[6] == dig(yy % 10)
            &&& s[7] == 45u8
            &&& s[8] == dig(t.month as int / 10 % 10) && s[9] == dig(t.month as int % 10)
            &&& s[10] == 45u8
            &&& s[11] == dig(t.day as int / 10 % 10) && s[12] == dig(t.day as int % 10)
            &&& s[13] == 84u8
            &&& s[14] == dig(t.hour as int / 10 % 10) && s[15] == dig(t.hour as int % 10)
            &&& s[16] == 58u8
            &&& s[17] == dig(t.minute as int / 10 % 10) && s[18] == dig(t.minute as int % 10)
            &&& s[19] == 58u8
            &&& s[20] == dig(t.second as int / 10 % 10) && s[21] == dig(t.second as int % 10)
            &&& s[22] == 46u8
            &&& s[23] == dig(t.nanosecond as int / 100000000 % 10) && s[24] == dig(
                t.nanosecond as int / 10000000 % 10,
            ) && s[25] == dig(t.nanosecond as int / 1000000 % 10) && s[26] == dig(
                t.nanosecond as int / 100000 % 10,
            ) && s[27] == dig(t.nanosecond as int / 10000 % 10) && s[28] == dig(
                t.nanosecond as int / 1000 % 10,
            ) && s[29] == dig(t.nanosecond as int / 100 % 10) && s[30] == dig(
                t.nanosecond as int / 10 % 10,
            ) && s[31] == dig(t.nanosecond as int % 10)
            &&& s[32] == 90u8
        }),
    ensures
        s == ts_bytes(t),
{
    lemma_ts_bytes_split(t);
    assert(s =~= ts_bytes(t));
}

// ---------------------------------------------------------------------------
// Record sub-documents
// ---------------------------------------------------------------------------

/// The length of one record's element list: fixed-size elements plus the
/// record's UTF-8 name.
pub open spec fn project_body_len(p: ProjectV) -> int {
    148 + encode_utf8(p.name).len() + (match p.archived_at {
        Option::Some(_) => 38int,
        Option::None => 0int,
    })
}

/// How a record's sub-document splits into its six elements.
#[verifier::rlimit(100)]
#[verifier::spinoff_prover]
proof fn lemma_project_doc_split(p: ProjectV)
    ensures
        ({
            let nl = encode_utf8(p.name).len() as int;
            let s = project_doc(p);
            &&& project_body(p).len() == project_body_len(p)
            &&& s.len() == project_body_len(p) + 5
            &&& s.subrange(0, 4) == le32_of(project_body_len(p) + 5)
            &&& s[4] == 18u8
            &&& s.subrange(5, 7) == key_id()
            &&& s[7] == 0u8
            &&& s.subrange(8, 16) == le64_of(p.id as int)
            &&& s[16] == 2u8
            &&& s.subrange(17, 21) == key_name()
            &&& s[21] == 0u8
            &&& s.subrange(22, 26) == le32_of(nl + 1)
            &&& s.subrange(26, 26 + nl) == encode_utf8(p.name)
            &&& s[26 + nl] == 0u8
            &&& s[27 + nl] == 2u8
            &&& s.subrange(28 + nl, 38 + nl) == key_created_at()
            &&& s[38 + nl] == 0u8
            &&& s.subrange(39 + nl, 43 + nl) == le32_of(34)
            &&& s.subrange(43 + nl, 76 + nl) == ts_bytes(p.created_at)
            &&& s[76 + nl] == 0u8
            &&& s[77 + nl] == 2u8
            &&& s.subrange(78 + nl, 88 + nl) == key_updated_at()
            &&& s[88 + nl] == 0u8
            &&& s.subrange(89 + nl, 93 + nl) == le32_of(34)
            &&& s.subrange(93 + nl, 126 + nl) == ts_bytes(p.updated_at)
            &&& s[126 + nl] == 0u8
            &&& s[127 + nl] == 8u8
            &&& s.subrange(128 + nl, 137 + nl) == key_is_active()
            &&& s[137 + nl] == 0u8
            &&& s[138 + nl] == (if p.is_active {
                1u8
            } else {
                0u8
            })
            &&& match p.archived_at {
                Option::None => {
                    &&& s[139 + nl] == 10u8
                    &&& s.subrange(140 + nl, 151 + nl) == key_archived_at()
                    &&& s[151 + nl] == 0u8
                    &&& s[152 + nl] == 0u8
                },
                Option::Some(t) => {
                    &&& s[139 + nl] == 2u8
                    &&& s.subrange(140 + nl, 151 + nl) == key_archived_at()
                    &&& s[151 + nl] == 0u8
                    &&& s.subrange(152 + nl, 156 + nl) == le32_of(34)
                    &&& s.subrange(156 + nl, 189 + nl) == ts_bytes(t)
                    &&& s[189 + nl] == 0u8
                    &&& s[190 + nl] == 0u8
                },
            }
        }),
{
    reveal(project_body);
    lemma_key_lens();
    lemma_ts_bytes_len(p.created_at);
    lemma_ts_bytes_len(p.updated_at);
    let nl = encode_utf8(p.name).len() as int;
    let s = project_doc(p);
    match p.archived_at {
        Option::Some(t) => {
            lemma_ts_bytes_len(t);
            assert(project_body(p).len() == project_body_len(p));
            assert(s.subrange(0, 4) =~= le32_of(project_body_len(p) + 5));
            assert(s.subrange(5, 7) =~= key_id());
            assert(s.subrange(8, 16) =~= le64_of(p.id as int));
            assert(s.subrange(17, 21) =~= key_name());
            assert(s.subrange(22, 26) =~= le32_of(nl + 1));
            assert(s.subrange(26, 26 + nl) =~= encode_utf8(p.name));
            assert(s.subrange(28 + nl, 38 + nl) =~= key_created_at());
            assert(s.subrange(39 + nl, 43 + nl) =~= le32_of(34));
            assert(s.subrange(43 + nl, 76 + nl) =~= ts_bytes(p.created_at));
            assert(s.subrange(78 + nl, 88 + nl) =~= key_updated_at());
            assert(s.subrange(89 + nl, 93 + nl) =~= le32_of(34));
            assert(s.subrange(93 + nl, 126 + nl) =~= ts_bytes(p.updated_at));
            assert(s.subrange(128 + nl, 137 + nl) =~= key_is_active());
            assert(s.subrange(140 + nl, 151 + nl) =~= key_archived_at());
            assert(s.subrange(152 + nl, 156 + nl) =~= le32_of(34));
            assert(s.subrange(156 + nl, 189 + nl) =~= ts_bytes(t));
        },
        Option::None => {
            assert(project_body(p).len() == project_body_len(p));
            assert(s.subrange(0, 4) =~= le32_of(project_body_len(p) + 5));
            assert(s.subrange(5, 7) =~= key_id());
            assert(s.subrange(8, 16) =~= le64_of(p.id as int));
            assert(s.subrange(17, 21) =~= key_name());
            assert(s.subrange(22, 26) =~= le32_of(nl + 1));
            assert(s.subrange(26, 26 + nl) =~= encode_utf8(p.name));
            assert(s.subrange(28 + nl, 38 + nl) =~= key_created_at());
            assert(s.subrange(39 + nl, 43 + nl) =~= le32_of(34));
            assert(s.subrange(43 + nl, 76 + nl) =~= ts_bytes(p.created_at));
            assert(s.subrange(78 + nl, 88 + nl) =~= key_updated_at());
            assert(s.subrange(89 + nl, 93 + nl) =~= le32_of(34));
            assert(s.subrange(93 + nl, 126 + nl) =~= ts_bytes(p.updated_at));
            assert(s.subrange(128 + nl, 137 + nl) =~= key_is_active());
            assert(s.subrange(140 + nl, 151 + nl) =~= key_archived_at());
        },
    }
}

/// Two sane records with the same sub-document bytes are the same record.
proof fn lemma_project_doc_inj(p1: ProjectV, p2: ProjectV)
    requires
        project_sane(p1),
        project_sane(p2),
        project_doc(p1).len() <= max_doc_len(),
        project_doc(p1) == project_doc(p2),
    ensures
        p1 == p2,
{
    lemma_project_doc_split(p1);
    lemma_project_doc_split(p2);
    let nl1 = encode_utf8(p1.name).len() as int;
    let nl2 = encode_utf8(p2.name).len() as int;
    assert(le32_of(nl1 + 1) == le32_of(nl2 + 1));
    lemma_le32_inj(nl1 + 1, nl2 + 1);
    assert(nl1 == nl2);
    assert(le64_of(p1.id as int) == le64_of(p2.id as int));
    lemma_le64_inj(p1.id, p2.id);
    assert(encode_utf8(p1.name) == encode_utf8(p2.name));
    assert(p1.name == p2.name) by {
        vstd::utf8::encode_utf8_decode_utf8(p1.name);
        vstd::utf8::encode_utf8_decode_utf8(p2.name);
    };
    assert(ts_bytes(p1.created_at) == ts_bytes(p2.created_at));
    lemma_ts_bytes_inj(p1.created_at, p2.created_at);
    assert(ts_bytes(p1.updated_at) == ts_bytes(p2.updated_at));
    lemma_ts_bytes_inj(p1.updated_at, p2.updated_at);
    assert(p1.is_active == p2.is_active);
    match (p1.archived_at, p2.archived_at) {
        (Option::Some(t1), Option::Some(t2)) => {
            assert(ts_bytes(t1) == ts_bytes(t2));
            lemma_ts_bytes_inj(t1, t2);
        },
        (Option::None, Option::None) => {},
        _ => {
            assert(false);
        },
    }
}

/// Whether the length header and the `id` and `name` elements of a record
/// sit at position `pos` of `b`.
spec fn head_elems_at(b: Seq<u8>, pos: int, id: u64, name: Seq<char>) -> bool {
    ({
        let nl = encode_utf8(name).len() as int;
        &&& b[pos + 4] == 18u8
        &&& b.subrange(pos + 5, pos + 7) == key_id()
        &&& b[pos + 7] == 0u8
        &&& b.subrange(pos + 8, pos + 16) == le64_of(id as int)
        &&& b[pos + 16] == 2u8
        &&& b.subrange(pos + 17, pos + 21) == key_name()
        &&& b[pos + 21] == 0u8
        &&& b.subrange(pos + 22, pos + 26) == le32_of(nl + 1)
        &&& b.subrange(pos + 26, pos + 26 + nl) == encode_utf8(name)
        &&& b[pos + 26 + nl] == 0u8
    })
}

/// Whether the four remaining elements of a record sit at position `c` of
/// `b` (the timestamps, the active flag and the archive mark).
spec fn tail_elems_at(
    b: Seq<u8>,
    c: int,
    created_at: Timestamp,
    updated_at: Timestamp,
    is_active: bool,
    archived_at: Option<Timestamp>,
) -> bool {
    &&& b[c] == 2u8
    &&& b.subrange(c + 1, c + 11) == key_created_at()
    &&& b[c + 11] == 0u8
    &&& b.subrange(c + 12, c + 16) == le32_of(34)
    &&& b.subrange(c + 16, c + 49) == ts_bytes(created_at)
    &&& b[c + 49] == 0u8
    &&& b[c + 50] == 2u8
    &&& b.subrange(c + 51, c + 61) == key_updated_at()
    &&& b[c + 61] == 0u8
    &&& b.subrange(c + 62, c + 66) == le32_of(34)
    &&& b.subrange(c + 66, c + 99) == ts_bytes(updated_at)
    &&& b[c + 99] == 0u8
    &&& b[c + 100] == 8u8
    &&& b.subrange(c + 101, c + 110) == key_is_active()
    &&& b[c + 110] == 0u8
    &&& b[c + 111] == (if is_active {
        1u8
    } else {
        0u8
    })
    &&& match archived_at {
        Option::None => {
            &&& b[c + 112] == 10u8
            &&& b.subrange(c + 113, c + 124) == key_archived_at()
            &&& b[c + 124] == 0u8
            &&& b[c + 125] == 0u8
        },
        Option::Some(t) => {
            &&& b[c + 112] == 2u8
            &&& b.subrange(c + 113, c + 124) == key_archived_at()
            &&& b[c + 124] == 0u8
            &&& b.subrange(c + 125, c + 129) == le32_of(34)
            &&& b.subrange(c + 129, c + 162) == ts_bytes(t)
            &&& b[c + 162] == 0u8
            &&& b[c + 163] == 0u8
        },
    }
}

/// Whether the six elements of record `p`, with the length header, sit at
/// position `pos` of `b`.
spec fn elements_at(b: Seq<u8>, pos: int, p: ProjectV) -> bool {
    &&& b.subrange(pos, pos + 4) == le32_of(project_body_len(p) + 5)
    &&& head_elems_at(b, pos, p.id, p.name)
    &&& tail_elems_at(
        b,
        pos + 27 + encode_utf8(p.name).len(),
        p.created_at,
        p.updated_at,
        p.is_active,
        p.archived_at,
    )
}

/// Bytes that carry a record's six elements at `pos` are exactly that
/// record's sub-document.
#[verifier::rlimit(100)]
#[verifier::spinoff_prover]
proof fn lemma_project_doc_build(p: ProjectV, b: Seq<u8>, pos: int, end: int)
    requires
        0 <= pos,
        pos + project_body_len(p) + 5 == end <= b.len(),
        elements_at(b, pos, p),
    ensures
        b.subrange(pos, end) == project_doc(p),
{
    let nl = encode_utf8(p.name).len() as int;
    let d = project_doc(p);
    lemma_project_doc_split(p);
    let s = b.subrange(pos, end);
    assert forall|j: int| 0 <= j < d.len() implies s[j] == d[j] by {
        assert(s[j] == b[pos + j]);
        if j < 4 {
            assert(d[j] == d.subrange(0, 4)[j]);
            assert(b[pos + j] == b.subrange(pos, pos + 4)[j]);
        } else if j < 5 {
        } else if j < 7 {
            assert(d[j] == d.subrange(5, 7)[j - 5]);
            assert(b[pos + j] == b.subrange(pos + 5, pos + 7)[j - 5]);
        } else if j < 8 {
        } else if j < 16 {
            assert(d[j] == d.subrange(8, 16)[j - 8]);
            assert(b[pos + j] == b.subrange(pos + 8, pos + 16)[j - 8]);
        } else if j < 17 {
        } else if j < 21 {
            assert(d[j] == d.subrange(17, 21)[j - 17]);
            assert(b[pos + j] == b.subrange(pos + 17, pos + 21)[j - 17]);
        } else if j < 22 {
        } else if j < 26 {
            assert(d[j] == d.subrange(22, 26)[j - 22]);
            assert(b[pos + j] == b.subrange(pos + 22, pos + 26)[j - 22]);
        } else if j < 26 + nl {
            assert(d[j] == d.subrange(26, 26 + nl)[j - 26]);
            assert(b[pos + j] == b.subrange(pos + 26, pos + 26 + nl)[j - 26]);
        } else if j < 28 + nl {
        } else if j < 38 + nl {
            assert(d[j] == d.subrange(28 + nl, 38 + nl)[j - 28 - nl]);
            assert(b[pos + j] == b.subrange(pos + 28 + nl, pos + 38 + nl)[j - 28 - nl]);
        } else if j < 39 + nl {
        } else if j < 43 + nl {
            assert(d[j] == d.subrange(39 + nl, 43 + nl)[j - 39 - nl]);
            assert(b[pos + j] == b.subrange(pos + 39 + nl, pos + 43 + nl)[j - 39 - nl]);
        } else if j < 76 + nl {
            assert(d[j] == d.subrange(43 + nl, 76 + nl)[j - 43 - nl]);
            assert(b[pos + j] == b.subrange(pos + 43 + nl, pos + 76 + nl)[j - 43 - nl]);
        } else if j < 78 + nl {
        } else if j < 88 + nl {
            assert(d[j] == d.subrange(78 + nl, 88 + nl)[j - 78 - nl]);
            assert(b[pos + j] == b.subrange(pos + 78 + nl, pos + 88 + nl)[j - 78 - nl]);
        } else if j < 89 + nl {
        } else if j < 93 + nl {
            assert(d[j] == d.subrange(89 + nl, 93 + nl)[j - 89 - nl]);
            assert(b[pos + j] == b.subrange(pos + 89 + nl, pos + 93 + nl)[j - 89 - nl]);
        } else if j < 126 + nl {
            assert(d[j] == d.subrange(93 + nl, 126 + nl)[j - 93 - nl]);
            assert(b[pos + j] == b.subrange(pos + 93 + nl, pos + 126 + nl)[j - 93 - nl]);
        } else if j < 128 + nl {
        } else if j < 137 + nl {
            assert(d[j] == d.subrange(128 + nl, 137 + nl)[j - 128 - nl]);
            assert(b[pos + j] == b.subrange(pos + 128 + nl, pos + 137 + nl)[j - 128 - nl]);
        } else if j < 139 + nl {
        } else {
            match p.archived_at {
                Option::None => {
                    if 140 + nl <= j < 151 + nl {
                        assert(d[j] == d.subrange(140 + nl, 151 + nl)[j - 140 - nl]);
                        assert(b[pos + j] == b.subrange(pos + 140 + nl, pos + 151 + nl)[j - 140
                            - nl]);
                    }
                },
                Option::Some(_t) => {
                    if 140 + nl <= j < 151 + nl {
                        assert(d[j] == d.subrange(140 + nl, 151 + nl)[j - 140 - nl]);
                        assert(b[pos + j] == b.subrange(pos + 140 + nl, pos + 151 + nl)[j - 140
                            - nl]);
                    } else if 152 + nl <= j < 156 + nl {
                        assert(d[j] == d.subrange(152 + nl, 156 + nl)[j - 152 - nl]);
                        assert(b[pos + j] == b.subrange(pos + 152 + nl, pos + 156 + nl)[j - 152
                            - nl]);
                    } else if 156 + nl <= j < 189 + nl {
                        assert(d[j] == d.subrange(156 + nl, 189 + nl)[j - 156 - nl]);
                        assert(b[pos + j] == b.subrange(pos + 156 + nl, pos + 189 + nl)[j - 156
                            - nl]);
                    }
                },
            }
        }
    }
    assert(s =~= d);
}


/// A record sub-document sitting at `pos` puts each of its elements at its
/// fixed offset.
#[verifier::rlimit(100)]
#[verifier::spinoff_prover]
proof fn lemma_doc_at_elements(b: Seq<u8>, pos: int, pv: ProjectV)
    requires
        doc_at(b, pos, pv),
    ensures
        elements_at(b, pos, pv),
        project_doc(pv).len() == project_body_len(pv) + 5,
        pos + project_body_len(pv) + 5 <= b.len(),
{
    lemma_project_doc_split(pv);
    let d = project_doc(pv);
    let gl = d.len() as int;
    let nl = encode_utf8(pv.name).len() as int;
    assert(b.subrange(pos, pos + gl) == d);
    assert(b.subrange(pos, pos + 4) =~= b.subrange(pos, pos + gl).subrange(0, 4));
    assert(b.subrange(pos + 5, pos + 7) =~= b.subrange(pos, pos + gl).subrange(5, 7));
    assert(b.subrange(pos + 8, pos + 16) =~= b.subrange(pos, pos + gl).subrange(8, 16));
    assert(b.subrange(pos + 17, pos + 21) =~= b.subrange(pos, pos + gl).subrange(17, 21));
    assert(b.subrange(pos + 22, pos + 26) =~= b.subrange(pos, pos + gl).subrange(22, 26));
    assert(b.subrange(pos + 26, pos + 26 + nl) =~= b.subrange(pos, pos + gl).subrange(
        26,
        26 + nl,
    ));
    assert(b.subrange(pos + 28 + nl, pos + 38 + nl) =~= b.subrange(pos, pos + gl).subrange(
        28 + nl,
        38 + nl,
    ));
    assert(b.subrange(pos + 39 + nl, pos + 43 + nl) =~= b.subrange(pos, pos + gl).subrange(
        39 + nl,
        43 + nl,
    ));
    assert(b.subrange(pos + 43 + nl, pos + 76 + nl) =~= b.subrange(pos, pos + gl).subrange(
        43 + nl,
        76 + nl,
    ));
    assert(b.subrange(pos + 78 + nl, pos + 88 + nl) =~= b.subrange(pos, pos + gl).subrange(
        78 + nl,
        88 + nl,
    ));
    assert(b.subrange(pos + 89 + nl, pos + 93 + nl) =~= b.subrange(pos, pos + gl).subrange(
        89 + nl,
        93 + nl,
    ));
    assert(b.subrange(pos + 93 + nl, pos + 126 + nl) =~= b.subrange(pos, pos + gl).subrange(
        93 + nl,
        126 + nl,
    ));
    assert(b.subrange(pos + 128 + nl, pos + 137 + nl) =~= b.subrange(pos, pos + gl).subrange(
        128 + nl,
        137 + nl,
    ));
    assert(b.subrange(pos + 140 + nl, pos + 151 + nl) =~= b.subrange(pos, pos + gl).subrange(
        140 + nl,
        151 + nl,
    ));
    match pv.archived_at {
        Option::Some(_t) => {
            assert(b.subrange(pos + 152 + nl, pos + 156 + nl) =~= b.subrange(
                pos,
                pos + gl,
            ).subrange(152 + nl, 156 + nl));
            assert(b.subrange(pos + 156 + nl, pos + 189 + nl) =~= b.subrange(
                pos,
                pos + gl,
            ).subrange(156 + nl, 189 + nl));
        },
        Option::None => {
        },
    }
}

// ---------------------------------------------------------------------------
// The timestamp parser
// ---------------------------------------------------------------------------

/// Parses the 33-byte ISO 8601 timestamp form, accepting exactly the
/// encodings of well-formed timestamps.
#[verifier::rlimit(100)]
#[verifier::spinoff_prover]
fn parse_ts(bytes: &[u8], pos: usize) -> (r: Option<Timestamp>)
    requires
        pos + 33 <= bytes@.len(),
    ensures
        r is Some ==> bytes@.subrange(pos as int, pos as int + 33) == ts_bytes(r->0) && r->0.wf(),
        r is None ==> forall|t: Timestamp|
            t.wf() ==> bytes@.subrange(pos as int, pos as int + 33) != ts_bytes(t),
{
    let blen: usize = bytes.len();
    proof {
        assert(pos + 33 <= blen);
    }
    let ghost s = bytes@.subrange(pos as int, pos as int + 33);
    let sign: u8 = *slice_index_get(bytes, pos);
    let y0: u8 = digit_value(*slice_index_get(bytes, pos + 1));
    let y1: u8 = digit_value(*slice_index_get(bytes, pos + 2));
    let y2: u8 = digit_value(*slice_index_get(bytes, pos + 3));
    let y3: u8 = digit_value(*slice_index_get(bytes, pos + 4));
    let y4: u8 = digit_value(*slice_index_get(bytes, pos + 5));
    let y5: u8 = digit_value(*slice_index_get(bytes, pos + 6));
    let sep1: u8 = *slice_index_get(bytes, pos + 7);
    let m0: u8 = digit_value(*slice_index_get(bytes, pos + 8));
    let m1: u8 = digit_value(*slice_index_get(bytes, pos + 9));
    let sep2: u8 = *slice_index_get(bytes, pos + 10);
    let d0: u8 = digit_value(*slice_index_get(bytes, pos + 11));
    let d1: u8 = digit_value(*slice_index_get(bytes, pos + 12));
    let sep3: u8 = *slice_index_get(bytes, pos + 13);
    let h0: u8 = digit_value(*slice_index_get(bytes, pos + 14));
    let h1: u8 = digit_value(*slice_index_get(bytes, pos + 15));
    let sep4: u8 = *slice_index_get(bytes, pos + 16);
    let mi0: u8 = digit_value(*slice_index_get(bytes, pos + 17));
    let mi1: u8 = digit_value(*slice_index_get(bytes, pos + 18));
    let sep5: u8 = *slice_index_get(bytes, pos + 19);
    let s0: u8 = digit_value(*slice_index_get(bytes, pos + 20));
    let s1: u8 = digit_value(*slice_index_get(bytes, pos + 21));
    let sep6: u8 = *slice_index_get(bytes, pos + 22);
    let n0: u8 = digit_value(*slice_index_get(bytes, pos + 23));
    let n1: u8 = digit_value(*slice_index_get(bytes, pos + 24));
    let n2: u8 = digit_value(*slice_index_get(bytes, pos + 25));
    let n3: u8 = digit_value(*slice_index_get(bytes, pos + 26));
    let n4: u8 = digit_value(*slice_index_get(bytes, pos + 27));
    let n5: u8 = digit_value(*slice_index_get(bytes, pos + 28));
    let n6: u8 = digit_value(*slice_index_get(bytes, pos + 29));
    let n7: u8 = digit_value(*slice_index_get(bytes, pos + 30));
    let n8: u8 = digit_value(*slice_index_get(bytes, pos + 31));
    let sep7: u8 = *slice_index_get(bytes, pos + 32);
    let y: u32 = y0 as u32 * 100000 + y1 as u32 * 10000 + y2 as u32 * 1000 + y3 as u32 * 100
        + y4 as u32 * 10 + y5 as u32;
    let month: u8 = m0 * 10 + m1;
    let day: u8 = d0 * 10 + d1;
    let hour: u8 = h0 * 10 + h1;
    let minute: u8 = mi0 * 10 + mi1;
    let second: u8 = s0 * 10 + s1;
    let nanos: u32 = n0 as u32 * 100000000 + n1 as u32 * 10000000 + n2 as u32 * 1000000
        + n3 as u32 * 100000 + n4 as u32 * 10000 + n5 as u32 * 1000 + n6 as u32 * 100 + n7 as u32
        * 10 + n8 as u32;
    let digits_ok: bool = y0 < 10 && y1 < 10 && y2 < 10 && y3 < 10 && y4 < 10 && y5 < 10 && m0
        < 10 && m1 < 10 && d0 < 10 && d1 < 10 && h0 < 10 && h1 < 10 && mi0 < 10 && mi1 < 10 && s0
        < 10 && s1 < 10 && n0 < 10 && n1 < 10 && n2 < 10 && n3 < 10 && n4 < 10 && n5 < 10 && n6
        < 10 && n7 < 10 && n8 < 10;
    let seps_ok: bool = (sign == 43 || sign == 45) && sep1 == 45 && sep2 == 45 && sep3 == 84
        && sep4 == 58 && sep5 == 58 && sep6 == 46 && sep7 == 90;
    let year: i32 = if sign == 43 {
        y as i32
    } else {
        -(y as i32)
    };
    let ranges_ok: bool = y <= 9999 && (sign == 43 || y > 0) && 1 <= month && month <= 12 && 1
        <= day && day <= crate::models::days_in_month(year, month) && hour <= 23 && minute <= 59
        && second <= 59;
    proof {
        assert(forall|k: int| 0 <= k < 33 ==> s[k] == bytes@[pos + k]);
    }
    if !(digits_ok && seps_ok && ranges_ok) {
        proof {
            assert forall|t: Timestamp| t.wf() && s == ts_bytes(t) implies false by {
                lemma_ts_bytes_digits(t);
                let yy: int = if t.year >= 0 {
                    t.year as int
                } else {
                    -(t.year as int)
                };
                assert(digits_ok);
                assert(seps_ok);
                assert(y as int == yy);
                assert(month as int == t.month as int && day as int == t.day as int
                    && hour as int == t.hour as int && minute as int == t.minute as int
                    && second as int == t.second as int);
                assert(year as int == t.year as int);
                assert(ranges_ok);
            }
        }
        return None;
    }
    let t: Timestamp = Timestamp { year, month, day, hour, minute, second, nanosecond: nanos };
    proof {
        assert(t.wf());
        lemma_ts_bytes_digits(t);
        assert(y0 as int == y as int / 100000 % 10 && y1 as int == y as int / 10000 % 10
            && y2 as int == y as int / 1000 % 10 && y3 as int == y as int / 100 % 10
            && y4 as int == y as int / 10 % 10 && y5 as int == y as int % 10) by {
            lemma_six_dig_decompose(y as int);
        };
        assert(m0 as int == month as int / 10 % 10 && m1 as int == month as int % 10) by {
            lemma_two_dig_decompose(month as int);
        };
        assert(d0 as int == day as int / 10 % 10 && d1 as int == day as int % 10) by {
            lemma_two_dig_decompose(day as int);
        };
        assert(h0 as int == hour as int / 10 % 10 && h1 as int == hour as int % 10) by {
            lemma_two_dig_decompose(hour as int);
        };
        assert(mi0 as int == minute as int / 10 % 10 && mi1 as int == minute as int % 10) by {
            lemma_two_dig_decompose(minute as int);
        };
        assert(s0 as int == second as int / 10 % 10 && s1 as int == second as int % 10) by {
            lemma_two_dig_decompose(second as int);
        };
        assert(n0 as int == nanos as int / 100000000 % 10 && n1 as int == nanos as int / 10000000
            % 10 && n2 as int == nanos as int / 1000000 % 10 && n3 as int == nanos as int / 100000
            % 10 && n4 as int == nanos as int / 10000 % 10 && n5 as int == nanos as int / 1000
            % 10 && n6 as int == nanos as int / 100 % 10 && n7 as int == nanos as int / 10 % 10
            && n8 as int == nanos as int % 10) by {
            lemma_nine_dig_decompose(nanos as int);
        };
        lemma_ts_bytes_build(t, s);
    }
    Some(t)
}

// ---------------------------------------------------------------------------
// The record parser
// ---------------------------------------------------------------------------

/// Whether a sane record's sub-document, small enough for the format's
/// length fields, sits at position `pos` of `b`.
pub open spec fn doc_at(b: Seq<u8>, pos: int, pv: ProjectV) -> bool {
    &&& project_sane(pv)
    &&& project_doc(pv).len() <= max_doc_len()
    &&& prefix_at(b, pos, project_doc(pv))
}

/// Parses and checks the sub-document's length header.
#[verifier::rlimit(100)]
#[verifier::spinoff_prover]
fn parse_len(bytes: &[u8], pos: usize) -> (r: Option<usize>)
    requires
        pos <= bytes@.len(),
    ensures
        r is Some ==> ({
            let lu = r->0;
            &&& 153 <= lu <= max_doc_len()
            &&& pos + lu <= bytes@.len()
            &&& bytes@.subrange(pos as int, pos as int + 4) == le32_of(lu as int)
        }),
        r is Some ==> (forall|pv: ProjectV|
            doc_at(bytes@, pos as int, pv) ==> r->0 == project_doc(pv).len()),
        r is None ==> forall|pv: ProjectV| !doc_at(bytes@, pos as int, pv),
{
    let blen: usize = bytes.len();
    if blen - pos < 5 {
        proof {
            assert forall|pv: ProjectV| doc_at(bytes@, pos as int, pv) implies false by {
                lemma_doc_at_elements(bytes@, pos as int, pv);
            }
        }
        return None;
    }
    let l: u32 = read_le32(bytes, pos);
    let lu: usize = l as usize;
    if lu < 153 || lu > blen - pos || lu > 0x7fff_ffff {
        proof {
            assert forall|pv: ProjectV| doc_at(bytes@, pos as int, pv) implies false by {
                lemma_doc_at_elements(bytes@, pos as int, pv);
                lemma_le32_inj(l as int, project_body_len(pv) + 5);
            }
        }
        return None;
    }
    proof {
        assert forall|pv: ProjectV| doc_at(bytes@, pos as int, pv) implies lu == project_doc(
            pv,
        ).len() by {
            lemma_doc_at_elements(bytes@, pos as int, pv);
            lemma_le32_inj(l as int, project_body_len(pv) + 5);
        }
    }
    Some(lu)
}

/// Parses and checks the `id` element.
#[verifier::rlimit(100)]
#[verifier::spinoff_prover]
fn parse_id_elem(bytes: &[u8], pos: usize) -> (r: Option<u64>)
    requires
        pos + 16 <= bytes@.len(),
    ensures
        r is Some ==> ({
            let id = r->0;
            &&& id <= max_id()
            &&& bytes@[pos + 4] == 18u8
            &&& bytes@.subrange(pos as int + 5, pos as int + 7) == key_id()
            &&& bytes@[pos + 7] == 0u8
            &&& bytes@.subrange(pos as int + 8, pos as int + 16) == le64_of(id as int)
        }),
        r is Some ==> (forall|pv: ProjectV|
            doc_at(bytes@, pos as int, pv) ==> r->0 == pv.id),
        r is None ==> forall|pv: ProjectV| !doc_at(bytes@, pos as int, pv),
{
    let blen: usize = bytes.len();
    proof {
        assert(pos + 16 <= blen);
    }
    let q: usize = pos + 4;
    if !(expect_byte(bytes, q, 18) && slice_eq_at(bytes, q + 1, "id".as_bytes()) && expect_byte(
        bytes,
        q + 3,
        0,
    )) {
        proof {
            assert forall|pv: ProjectV| doc_at(bytes@, pos as int, pv) implies false by {
                lemma_doc_at_elements(bytes@, pos as int, pv);
                lemma_key_lens();
            }
        }
        return None;
    }
    let id: u64 = read_le64(bytes, q + 4);
    if id > 0x7fff_ffff_ffff_ffff {
        proof {
            assert forall|pv: ProjectV| doc_at(bytes@, pos as int, pv) implies false by {
                lemma_doc_at_elements(bytes@, pos as int, pv);
                lemma_le64_inj(id, pv.id);
            }
        }
        return None;
    }
    proof {
        lemma_key_lens();
        assert forall|pv: ProjectV| doc_at(bytes@, pos as int, pv) implies id == pv.id by {
            lemma_doc_at_elements(bytes@, pos as int, pv);
            lemma_le64_inj(id, pv.id);
        }
    }
    Some(id)
}

/// Parses and checks the header of the `name` element; returns the length
/// of its payload including the trailing NUL.
#[verifier::rlimit(100)]
#[verifier::spinoff_prover]
fn parse_name_hdr(bytes: &[u8], pos: usize, end: usize) -> (r: Option<usize>)
    requires
        pos + 153 <= end <= bytes@.len(),
        forall|pv: ProjectV|
            doc_at(bytes@, pos as int, pv) ==> end == pos + project_doc(pv).len(),
    ensures
        r is Some ==> ({
            let slu = r->0;
            &&& 1 <= slu
            &&& pos + 26 + slu <= end
            &&& bytes@[pos + 16] == 2u8
            &&& bytes@.subrange(pos as int + 17, pos as int + 21) == key_name()
            &&& bytes@[pos + 21] == 0u8
            &&& bytes@.subrange(pos as int + 22, pos as int + 26) == le32_of(slu as int)
        }),
        r is Some ==> (forall|pv: ProjectV|
            doc_at(bytes@, pos as int, pv) ==> r->0 == encode_utf8(pv.name).len() + 1),
        r is None ==> forall|pv: ProjectV| !doc_at(bytes@, pos as int, pv),
{
    let blen: usize = bytes.len();
    proof {
        assert(pos + 153 <= blen);
    }
    let w: usize = pos + 16;
    if !(expect_byte(bytes, w, 2) && slice_eq_at(bytes, w + 1, "name".as_bytes()) && expect_byte(
        bytes,
        w + 5,
        0,
    )) {
        proof {
            assert forall|pv: ProjectV| doc_at(bytes@, pos as int, pv) implies false by {
                lemma_doc_at_elements(bytes@, pos as int, pv);
                lemma_key_lens();
            }
        }
        return None;
    }
    let sl: u32 = read_le32(bytes, w + 6);
    let slu: usize = sl as usize;
    if slu < 1 || slu > end - (w + 10) {
        proof {
            assert forall|pv: ProjectV| doc_at(bytes@, pos as int, pv) implies false by {
                lemma_doc_at_elements(bytes@, pos as int, pv);
                lemma_le32_inj(sl as int, encode_utf8(pv.name).len() as int + 1);
            }
        }
        return None;
    }
    proof {
        lemma_key_lens();
        assert forall|pv: ProjectV| doc_at(bytes@, pos as int, pv) implies slu == encode_utf8(
            pv.name,
        ).len() + 1 by {
            lemma_doc_at_elements(bytes@, pos as int, pv);
            lemma_le32_inj(sl as int, encode_utf8(pv.name).len() as int + 1);
        }
    }
    Some(slu)
}

/// Parses the NUL-terminated payload of the `name` element.
#[verifier::rlimit(100)]
#[verifier::spinoff_prover]
fn parse_name_payload(bytes: &[u8], pos: usize, end: usize, slu: usize) -> (r: Option<String>)
    requires
        pos + 26 + slu <= end <= bytes@.len(),
        1 <= slu,
        forall|pv: ProjectV|
            doc_at(bytes@, pos as int, pv) ==> slu == encode_utf8(pv.name).len() + 1,
    ensures
        r is Some ==> ({
            let name = r->0;
            let nl = encode_utf8(name@).len() as int;
            &&& slu == nl + 1
            &&& bytes@.subrange(pos as int + 26, pos as int + 26 + nl) == encode_utf8(name@)
            &&& bytes@[pos + 26 + nl] == 0u8
        }),
        r is Some ==> (forall|pv: ProjectV|
            doc_at(bytes@, pos as int, pv) ==> ({
                let name = r->0;
                name@ == pv.name
            })),
        r is None ==> forall|pv: ProjectV| !doc_at(bytes@, pos as int, pv),
{
    let blen: usize = bytes.len();
    proof {
        assert(pos + 26 + slu <= blen);
    }
    let w: usize = pos + 16;
    if !expect_byte(bytes, w + 10 + slu - 1, 0) {
        proof {
            assert forall|pv: ProjectV| doc_at(bytes@, pos as int, pv) implies false by {
                lemma_doc_at_elements(bytes@, pos as int, pv);
            }
        }
        return None;
    }
    let payload: &[u8] = vstd::slice::slice_subrange(bytes, w + 10, w + 10 + slu - 1);
    let payload_vec: Vec<u8> = vstd::slice::slice_to_vec(payload);
    let name: String = match string_from_utf8(payload_vec) {
        Option::Some(s) => s,
        Option::None => {
            proof {
                assert forall|pv: ProjectV| doc_at(bytes@, pos as int, pv) implies false by {
                    lemma_doc_at_elements(bytes@, pos as int, pv);
                    vstd::utf8::encode_utf8_valid_utf8(pv.name);
                }
            }
            return None;
        },
    };
    proof {
        vstd::utf8::decode_utf8_encode_utf8(payload@);
        assert(encode_utf8(name@) == payload@);
        assert(encode_utf8(name@).len() == slu - 1);
        assert forall|pv: ProjectV| doc_at(bytes@, pos as int, pv) implies name@ == pv.name by {
            lemma_doc_at_elements(bytes@, pos as int, pv);
            assert(encode_utf8(name@) == encode_utf8(pv.name));
            vstd::utf8::encode_utf8_decode_utf8(name@);
            vstd::utf8::encode_utf8_decode_utf8(pv.name);
        }
    }
    Some(name)
}

/// Parses the length header and the `id` and `name` elements of one record
/// sub-document at `pos`.
#[verifier::rlimit(100)]
#[verifier::spinoff_prover]
fn parse_head(bytes: &[u8], pos: usize) -> (r: Option<(u64, String, usize)>)
    requires
        pos <= bytes@.len(),
    ensures
        r is Some ==> ({
            let (id, name, end) = r->0;
            &&& pos < end <= bytes@.len()
            &&& 153 <= end - pos <= max_doc_len()
            &&& bytes@.subrange(pos as int, pos as int + 4) == le32_of((end - pos) as int)
            &&& id <= max_id()
            &&& head_elems_at(bytes@, pos as int, id, name@)
            &&& pos + 27 + encode_utf8(name@).len() <= end
        }),
        r is Some ==> (forall|pv: ProjectV|
            doc_at(bytes@, pos as int, pv) ==> ({
                let (id, name, end) = r->0;
                id == pv.id && name@ == pv.name && end == pos + project_doc(pv).len()
            })),
        r is None ==> forall|pv: ProjectV| !doc_at(bytes@, pos as int, pv),
{
    let blen: usize = bytes.len();
    let lu: usize = match parse_len(bytes, pos) {
        Option::Some(x) => x,
        Option::None => {
            return None;
        },
    };
    proof {
        assert(pos + lu <= blen);
    }
    let end: usize = pos + lu;
    let id: u64 = match parse_id_elem(bytes, pos) {
        Option::Some(x) => x,
        Option::None => {
            return None;
        },
    };
    let slu: usize = match parse_name_hdr(bytes, pos, end) {
        Option::Some(x) => x,
        Option::None => {
            return None;
        },
    };
    let name: String = match parse_name_payload(bytes, pos, end, slu) {
        Option::Some(x) => x,
        Option::None => {
            return None;
        },
    };
    proof {
        assert(head_elems_at(bytes@, pos as int, id, name@));
    }
    Some((id, name, end))
}

/// Parses one record sub-document at `pos`, accepting exactly the
/// sub-documents of sane records.
#[verifier::rlimit(100)]
#[verifier::spinoff_prover]
fn parse_project(bytes: &[u8], pos: usize) -> (r: Option<(Project, usize)>)
    requires
        pos <= bytes@.len(),
    ensures
        r is Some ==> ({
            let (p, np) = r->0;
            &&& pos < np <= bytes@.len()
            &&& bytes@.subrange(pos as int, np as int) == project_doc(p@)
            &&& project_doc(p@).len() <= max_doc_len()
            &&& project_sane(p@)
        }),
        r is None ==> forall|pv: ProjectV| !doc_at(bytes@, pos as int, pv),
{
    let (id, name, end) = match parse_head(bytes, pos) {
        Option::Some(x) => x,
        Option::None => {
            return None;
        },
    };
    let nl_e: usize = name.as_str().len();
    let c: usize = pos + 27 + nl_e;
    if end - c < 126 {
        proof {
            assert forall|pv: ProjectV| doc_at(bytes@, pos as int, pv) implies false by {
                lemma_doc_at_elements(bytes@, pos as int, pv);
            }
        }
        return None;
    }
    if !(expect_byte(bytes, c, 2) && slice_eq_at(bytes, c + 1, "created_at".as_bytes())
        && expect_byte(bytes, c + 11, 0)) {
        proof {
            assert forall|pv: ProjectV| doc_at(bytes@, pos as int, pv) implies false by {
                lemma_doc_at_elements(bytes@, pos as int, pv);
                lemma_key_lens();
            }
        }
        return None;
    }
    let cl: u32 = read_le32(bytes, c + 12);
    if cl != 34 {
        proof {
            assert forall|pv: ProjectV| doc_at(bytes@, pos as int, pv) implies false by {
                lemma_doc_at_elements(bytes@, pos as int, pv);
                lemma_le32_inj(cl as int, 34);
            }
        }
        return None;
    }
    let ts_created: Timestamp = match parse_ts(bytes, c + 16) {
        Option::Some(t) => t,
        Option::None => {
            proof {
                assert forall|pv: ProjectV| doc_at(bytes@, pos as int, pv) implies false by {
                    lemma_doc_at_elements(bytes@, pos as int, pv);
                }
            }
            return None;
        },
    };
    if !expect_byte(bytes, c + 49, 0) {
        proof {
            assert forall|pv: ProjectV| doc_at(bytes@, pos as int, pv) implies false by {
                lemma_doc_at_elements(bytes@, pos as int, pv);
            }
        }
        return None;
    }
    let u: usize = c + 50;
    if !(expect_byte(bytes, u, 2) && slice_eq_at(bytes, u + 1, "updated_at".as_bytes())
        && expect_byte(bytes, u + 11, 0)) {
        proof {
            assert forall|pv: ProjectV| doc_at(bytes@, pos as int, pv) implies false by {
                lemma_doc_at_elements(bytes@, pos as int, pv);
                lemma_key_lens();
            }
        }
        return None;
    }
    let ul: u32 = read_le32(bytes, u + 12);
    if ul != 34 {
        proof {
            assert forall|pv: ProjectV| doc_at(bytes@, pos as int, pv) implies false by {
                lemma_doc_at_elements(bytes@, pos as int, pv);
                lemma_le32_inj(ul as int, 34);
            }
        }
        return None;
    }
    let ts_updated: Timestamp = match parse_ts(bytes, u + 16) {
        Option::Some(t) => t,
        Option::None => {
            proof {
                assert forall|pv: ProjectV| doc_at(bytes@, pos as int, pv) implies false by {
                    lemma_doc_at_elements(bytes@, pos as int, pv);
                }
            }
            return None;
        },
    };
    if !expect_byte(bytes, u + 49, 0) {
        proof {
            assert forall|pv: ProjectV| doc_at(bytes@, pos as int, pv) implies false by {
                lemma_doc_at_elements(bytes@, pos as int, pv);
            }
        }
        return None;
    }
    let a: usize = u + 50;
    if !(expect_byte(bytes, a, 8) && slice_eq_at(bytes, a + 1, "is_active".as_bytes())
        && expect_byte(bytes, a + 10, 0)) {
        proof {
            assert forall|pv: ProjectV| doc_at(bytes@, pos as int, pv) implies false by {
                lemma_doc_at_elements(bytes@, pos as int, pv);
                lemma_key_lens();
            }
        }
        return None;
    }
    let ab: u8 = *slice_index_get(bytes, a + 11);
    if ab > 1 {
        proof {
            assert forall|pv: ProjectV| doc_at(bytes@, pos as int, pv) implies false by {
                lemma_doc_at_elements(bytes@, pos as int, pv);
            }
        }
        return None;
    }
    let is_active: bool = ab == 1;
    let z: usize = a + 12;
    let tag: u8 = *slice_index_get(bytes, z);
    let archived_at: Option<Timestamp>;
    let zend: usize;
    if tag == 10 {
        if !(slice_eq_at(bytes, z + 1, "archived_at".as_bytes()) && expect_byte(bytes, z + 12, 0))
        {
            proof {
                assert forall|pv: ProjectV| doc_at(bytes@, pos as int, pv) implies false by {
                    lemma_doc_at_elements(bytes@, pos as int, pv);
                    lemma_key_lens();
                }
            }
            return None;
        }
        archived_at = Option::None;
        zend = z + 13;
    } else if tag == 2 {
        if end - z < 52 {
            proof {
                assert forall|pv: ProjectV| doc_at(bytes@, pos as int, pv) implies false by {
                    lemma_doc_at_elements(bytes@, pos as int, pv);
                }
            }
            return None;
        }
        if !(slice_eq_at(bytes, z + 1, "archived_at".as_bytes()) && expect_byte(bytes, z + 12, 0))
        {
            proof {
                assert forall|pv: ProjectV| doc_at(bytes@, pos as int, pv) implies false by {
                    lemma_doc_at_elements(bytes@, pos as int, pv);
                    lemma_key_lens();
                }
            }
            return None;
        }
        let al: u32 = read_le32(bytes, z + 13);
        if al != 34 {
            proof {
                assert forall|pv: ProjectV| doc_at(bytes@, pos as int, pv) implies false by {
                    lemma_doc_at_elements(bytes@, pos as int, pv);
                    lemma_le32_inj(al as int, 34);
                }
            }
            return None;
        }
        let ts_arch: Timestamp = match parse_ts(bytes, z + 17) {
            Option::Some(t) => t,
            Option::None => {
                proof {
                    assert forall|pv: ProjectV| doc_at(bytes@, pos as int, pv) implies false by {
                        lemma_doc_at_elements(bytes@, pos as int, pv);
                    }
                }
                return None;
            },
        };
        if !expect_byte(bytes, z + 50, 0) {
            proof {
                assert forall|pv: ProjectV| doc_at(bytes@, pos as int, pv) implies false by {
                    lemma_doc_at_elements(bytes@, pos as int, pv);
                }
            }
            return None;
        }
        archived_at = Option::Some(ts_arch);
        zend = z + 51;
    } else {
        proof {
            assert forall|pv: ProjectV| doc_at(bytes@, pos as int, pv) implies false by {
                lemma_doc_at_elements(bytes@, pos as int, pv);
            }
        }
        return None;
    }
    if zend != end - 1 || !expect_byte(bytes, zend, 0) {
        proof {
            assert forall|pv: ProjectV| doc_at(bytes@, pos as int, pv) implies false by {
                lemma_doc_at_elements(bytes@, pos as int, pv);
            }
        }
        return None;
    }
    let p: Project = Project {
        id,
        name,
        created_at: ts_created,
        updated_at: ts_updated,
        is_active,
        archived_at,
    };
    proof {
        assert(project_sane(p@));
        assert(end - pos == project_body_len(p@) + 5);
        assert(head_elems_at(bytes@, pos as int, p@.id, p@.name));
        assert(tail_elems_at(
            bytes@,
            pos as int + 27 + encode_utf8(p@.name).len(),
            p@.created_at,
            p@.updated_at,
            p@.is_active,
            p@.archived_at,
        )) by {
            lemma_key_lens();
        };
        assert(elements_at(bytes@, pos as int, p@));
        lemma_project_doc_build(p@, bytes@, pos as int, end as int);
    }
    Some((p, end))
}

// ---------------------------------------------------------------------------
// The document decoder
// ---------------------------------------------------------------------------

/// Whether `b` is exactly the encoding of the sane, small-enough document
/// `d`.
pub open spec fn enc_at(b: Seq<u8>, d: Seq<ProjectV>) -> bool {
    &&& doc_sane(d)
    &&& enc(d).len() <= max_doc_len()
    &&& b == enc(d)
}

/// How the top-level document splits around its `projects` array.
proof fn lemma_enc_split(d: Seq<ProjectV>)
    ensures
        ({
            let al = arr_elems(d, 0).len() as int;
            let s = enc(d);
            &&& s.len() == al + 20
            &&& s.subrange(0, 4) == le32_of(al + 20)
            &&& s[4] == 4u8
            &&& s.subrange(5, 13) == key_projects()
            &&& s[13] == 0u8
            &&& s.subrange(14, 18) == le32_of(al + 5)
            &&& s.subrange(18, 18 + al) == arr_elems(d, 0)
            &&& s[18 + al] == 0u8
            &&& s[19 + al] == 0u8
        }),
{
    reveal(enc);
    reveal(top_body);
    reveal(arr_doc);
    lemma_key_lens();
    let al = arr_elems(d, 0).len() as int;
    let s = enc(d);
    assert(s.subrange(0, 4) =~= le32_of(al + 20));
    assert(s.subrange(5, 13) =~= key_projects());
    assert(s.subrange(14, 18) =~= le32_of(al + 5));
    assert(s.subrange(18, 18 + al) =~= arr_elems(d, 0));
}

/// The array elements from `j` on are those of the first `i` records from
/// `j` on, followed by the elements from `i` on.
proof fn lemma_arr_elems_split(d: Seq<ProjectV>, i: int, j: int)
    requires
        0 <= j <= i <= d.len(),
    ensures
        arr_elems(d, j) == arr_elems(d.take(i), j) + arr_elems(d, i),
    decreases i - j,
{
    if j == i {
        assert(arr_elems(d.take(i), i) == Seq::<u8>::empty());
        assert(arr_elems(d, j) =~= arr_elems(d.take(i), j) + arr_elems(d, i));
    } else {
        lemma_arr_elems_split(d, i, j + 1);
        assert(d.take(i)[j] == d[j]);
        assert(arr_elems(d, j) =~= arr_elems(d.take(i), j) + arr_elems(d, i));
    }
}

/// Where one array entry sits, its pieces sit at their offsets.
#[verifier::rlimit(100)]
#[verifier::spinoff_prover]
proof fn lemma_entry_at(b: Seq<u8>, pos: int, i: int, d: Seq<ProjectV>)
    requires
        0 <= i < d.len(),
        doc_sane(d),
        0 <= pos,
        pos + arr_elems(d, i).len() <= b.len(),
        pos + arr_elems(d, i).len() <= max_doc_len() + 2,
        b.subrange(pos, pos + arr_elems(d, i).len()) == arr_elems(d, i),
    ensures
        ({
            let kl = dec_str(i).len() as int;
            &&& arr_elems(d, i).len() == 2 + kl + project_doc(d[i]).len() + arr_elems(
                d,
                i + 1,
            ).len()
            &&& project_doc(d[i]).len() <= max_doc_len()
            &&& b[pos] == 3u8
            &&& b.subrange(pos + 1, pos + 1 + kl) == dec_str(i)
            &&& b[pos + 1 + kl] == 0u8
            &&& doc_at(b, pos + 2 + kl, d[i])
            &&& b.subrange(
                pos + 2 + kl + project_doc(d[i]).len(),
                pos + arr_elems(d, i).len() as int,
            ) == arr_elems(d, i + 1)
        }),
{
    let kl = dec_str(i).len() as int;
    let e = arr_elems(d, i);
    let el = e.len() as int;
    let dl = project_doc(d[i]).len() as int;
    assert(e == arr_entry(i, d[i]) + arr_elems(d, i + 1));
    assert(e.subrange(1, 1 + kl) =~= dec_str(i));
    assert(e.subrange(2 + kl, 2 + kl + dl) =~= project_doc(d[i]));
    assert(e.subrange(2 + kl + dl, el) =~= arr_elems(d, i + 1));
    assert(b.subrange(pos + 1, pos + 1 + kl) =~= b.subrange(pos, pos + el).subrange(1, 1 + kl));
    assert(b.subrange(pos + 2 + kl, pos + 2 + kl + dl) =~= b.subrange(pos, pos + el).subrange(
        2 + kl,
        2 + kl + dl,
    ));
    assert(b.subrange(pos + 2 + kl + dl, pos + el) =~= b.subrange(pos, pos + el).subrange(
        2 + kl + dl,
        el,
    ));
    assert(b[pos] == b.subrange(pos, pos + el)[0]);
    assert(b[pos + 1 + kl] == b.subrange(pos, pos + el)[1 + kl]);
}

/// A sub-document parsed at `q` is the one record whose sub-document sits
/// there.
proof fn lemma_doc_pin(b: Seq<u8>, q: int, p: ProjectV, pv: ProjectV)
    requires
        0 <= q,
        q + project_doc(p).len() <= b.len(),
        b.subrange(q, q + project_doc(p).len()) == project_doc(p),
        project_sane(p),
        project_doc(p).len() <= max_doc_len(),
        doc_at(b, q, pv),
    ensures
        p == pv,
{
    lemma_project_doc_split(p);
    lemma_project_doc_split(pv);
    assert(project_doc(p).subrange(0, 4) =~= b.subrange(q, q + 4));
    assert(project_doc(pv).subrange(0, 4) =~= b.subrange(q, q + 4));
    lemma_le32_inj(project_body_len(p) + 5, project_body_len(pv) + 5);
    assert(project_doc(p) == project_doc(pv));
    lemma_project_doc_inj(p, pv);
}

/// Appending one entry to the consumed range extends the decoded element
/// list by one record.
proof fn lemma_append_entry(b: Seq<u8>, pos: int, np: int, i: int, rv0: Seq<ProjectV>, p: ProjectV)
    requires
        18 <= pos <= np,
        np <= b.len(),
        b.subrange(18, pos) == arr_elems(rv0, 0),
        i == rv0.len(),
        b.subrange(pos, np) == arr_entry(i, p),
    ensures
        b.subrange(18, np) == arr_elems(rv0.push(p), 0),
{
    assert(b.subrange(18, np) =~= b.subrange(18, pos) + b.subrange(pos, np));
    lemma_arr_elems_split(rv0.push(p), i, 0);
    assert(rv0.push(p).take(i) =~= rv0);
    assert(arr_elems(rv0.push(p), i) =~= arr_entry(i, p) + arr_elems(rv0.push(p), i + 1));
    assert(arr_elems(rv0.push(p), i + 1) == Seq::<u8>::empty());
    assert(arr_entry(i, p) + Seq::<u8>::empty() =~= arr_entry(i, p));
    assert(b.subrange(18, np) =~= arr_elems(rv0.push(p), 0));
}

/// One decoding step: reading one well-shaped entry extends the decoded
/// records by one and moves the residue forward.
#[verifier::rlimit(100)]
#[verifier::spinoff_prover]
proof fn lemma_iter_step(
    b: Seq<u8>,
    pos: int,
    np: int,
    i: int,
    rv0: Seq<ProjectV>,
    p: ProjectV,
    kl: int,
    arr_term: int,
)
    requires
        18 <= pos,
        pos + 2 + kl <= np <= arr_term <= b.len(),
        arr_term <= max_doc_len() + 2,
        kl == dec_str(i).len(),
        b[pos] == 3u8,
        b.subrange(pos + 1, pos + 1 + kl) == dec_str(i),
        b[pos + 1 + kl] == 0u8,
        b.subrange(pos + 2 + kl, np) == project_doc(p),
        project_sane(p),
        project_doc(p).len() <= max_doc_len(),
        b.subrange(18, pos) == arr_elems(rv0, 0),
        0 <= i == rv0.len(),
    ensures
        b.subrange(18, np) == arr_elems(rv0.push(p), 0),
{
    assert(b.subrange(pos, np) =~= seq![3u8] + dec_str(i) + seq![0u8] + b.subrange(
        pos + 2 + kl,
        np,
    ));
    assert(b.subrange(pos, np) == arr_entry(i, p));
    lemma_append_entry(b, pos, np, i, rv0, p);
}

/// The invariant tying the undecoded residue to the document's remaining
/// entries.
spec fn rest_at(b: Seq<u8>, pos: int, i: int, d: Seq<ProjectV>, arr_term: int) -> bool {
    &&& doc_sane(d)
    &&& 0 <= i <= d.len()
    &&& 18 <= pos
    &&& pos + arr_elems(d, i).len() == arr_term
    &&& arr_term <= b.len()
    &&& arr_term <= max_doc_len() + 2
    &&& b.subrange(pos, arr_term) == arr_elems(d, i)
}

/// Inside the array, each undecoded position starts a well-shaped entry.
proof fn lemma_entry_shape(b: Seq<u8>, pos: int, i: int, d: Seq<ProjectV>, arr_term: int)
    requires
        rest_at(b, pos, i, d, arr_term),
        pos < arr_term,
    ensures
        ({
            let kl = dec_str(i).len() as int;
            &&& i < d.len()
            &&& b[pos] == 3u8
            &&& prefix_at(b, pos + 1, dec_str(i))
            &&& kl + 2 <= arr_term - pos
            &&& b[pos + 1 + kl] == 0u8
            &&& doc_at(b, pos + 2 + kl, d[i])
            &&& pos + 2 + kl + project_doc(d[i]).len() + arr_elems(d, i + 1).len() == arr_term
        }),
{
    if i == d.len() {
        assert(arr_elems(d, i).len() == 0);
    } else {
        lemma_entry_at(b, pos, i, d);
    }
}

/// A record parsed inside the array is the document's record at that index,
/// and the residue moves to just after it.
proof fn lemma_entry_pin(
    b: Seq<u8>,
    pos: int,
    np: int,
    i: int,
    d: Seq<ProjectV>,
    arr_term: int,
    kl: int,
    p: ProjectV,
)
    requires
        rest_at(b, pos, i, d, arr_term),
        pos < arr_term,
        kl == dec_str(i).len(),
        pos + 2 + kl <= np <= b.len(),
        b.subrange(pos + 2 + kl, np) == project_doc(p),
        project_sane(p),
        project_doc(p).len() <= max_doc_len(),
    ensures
        i < d.len(),
        p == d[i],
        np == pos + 2 + kl + project_doc(d[i]).len(),
        np + arr_elems(d, i + 1).len() == arr_term,
        b.subrange(np, arr_term) == arr_elems(d, i + 1),
        d.take(i).push(p) == d.take(i + 1),
{
    lemma_entry_shape(b, pos, i, d, arr_term);
    lemma_entry_at(b, pos, i, d);
    lemma_doc_pin(b, pos + 2 + kl, p, d[i]);
    assert(d.take(i + 1) =~= d.take(i).push(d[i]));
}

/// The decimal key of an array entry.
fn fmt_index(i: u64) -> (r: Vec<u8>)
    ensures
        r@ == dec_str(i as int),
{
    let mut v: Vec<u8> = Vec::new();
    push_index(&mut v, i);
    proof {
        assert(v@ =~= dec_str(i as int));
    }
    v
}

/// The element list is at least one byte per record.
proof fn lemma_arr_elems_count(d: Seq<ProjectV>, i: int)
    requires
        0 <= i <= d.len(),
    ensures
        arr_elems(d, i).len() >= d.len() - i,
    decreases d.len() - i,
{
    if i < d.len() {
        lemma_arr_elems_count(d, i + 1);
    }
}

/// A document's encoding is at least as long as its record count.
pub proof fn lemma_enc_count(d: Seq<ProjectV>)
    ensures
        enc(d).len() >= d.len(),
{
    lemma_enc_split(d);
    lemma_arr_elems_count(d, 0);
}

/// Equal array element lists of sane documents carry equal records.
proof fn lemma_arr_inj(d1: Seq<ProjectV>, d2: Seq<ProjectV>, i: int)
    requires
        doc_sane(d1),
        doc_sane(d2),
        0 <= i <= d1.len(),
        i <= d2.len(),
        arr_elems(d1, i) == arr_elems(d2, i),
        arr_elems(d1, i).len() <= max_doc_len(),
    ensures
        d1.len() == d2.len(),
        forall|k: int| i <= k < d1.len() ==> d1[k] == d2[k],
    decreases d1.len() - i,
{
    let b = arr_elems(d1, i);
    if i == d1.len() {
        if i < d2.len() {
            assert(arr_elems(d2, i).len() >= arr_entry(i, d2[i]).len());
        }
    } else {
        if i == d2.len() {
            assert(arr_elems(d1, i).len() >= arr_entry(i, d1[i]).len());
            assert(false);
        }
        let kl = dec_str(i).len() as int;
        assert(b.subrange(0, b.len() as int) =~= b);
        lemma_entry_at(b, 0, i, d1);
        lemma_entry_at(b, 0, i, d2);
        lemma_doc_pin(b, 2 + kl, d1[i], d2[i]);
        assert(arr_elems(d1, i + 1) == arr_elems(d2, i + 1));
        lemma_arr_inj(d1, d2, i + 1);
        assert forall|k: int| i <= k < d1.len() implies d1[k] == d2[k] by {
            if k > i {
            }
        }
    }
}

/// A sane document that fits the format is pinned down by its encoding.
pub proof fn lemma_enc_inj(d1: Seq<ProjectV>, d2: Seq<ProjectV>)
    requires
        doc_sane(d1),
        doc_sane(d2),
        enc(d1) == enc(d2),
        enc(d1).len() <= max_doc_len(),
    ensures
        d1 == d2,
{
    lemma_enc_split(d1);
    lemma_enc_split(d2);
    assert(arr_elems(d1, 0) == arr_elems(d2, 0));
    lemma_arr_inj(d1, d2, 0);
    assert(d1 =~= d2);
}

/// Decodes a non-empty store document, accepting exactly the encodings of
/// sane record sequences that fit the format's length fields.
///
/// The decoder is strict: it accepts exactly the canonical bytes this
/// engine writes.  A semantically equivalent BSON document with reordered
/// fields, other integer widths or non-canonical timestamp text is rejected
/// as malformed; only the engine itself ever writes the store file.
#[verifier::rlimit(100)]
#[verifier::spinoff_prover]
pub fn decode_projects(bytes: &[u8]) -> (r: Result<Vec<Project>, Error>)
    ensures
        r is Ok ==> bytes@ == enc(views_of(r->Ok_0@)) && doc_sane(views_of(r->Ok_0@))
            && bytes@.len() <= max_doc_len(),
        r is Err ==> forall|d: Seq<ProjectV>| !enc_at(bytes@, d),
        r is Err ==> r->Err_0 is Unknown,
{
    let blen: usize = bytes.len();
    if blen < 20 || blen > 0x7fff_ffff {
        proof {
            assert forall|d: Seq<ProjectV>| enc_at(bytes@, d) implies false by {
                lemma_enc_split(d);
            }
        }
        return Err(Error::unknown("malformed store document"));
    }
    let lt: u32 = read_le32(bytes, 0);
    if lt as usize != blen {
        proof {
            assert forall|d: Seq<ProjectV>| enc_at(bytes@, d) implies false by {
                lemma_enc_split(d);
                lemma_le32_inj(lt as int, arr_elems(d, 0).len() as int + 20);
            }
        }
        return Err(Error::unknown("malformed store document"));
    }
    if !(expect_byte(bytes, 4, 4) && slice_eq_at(bytes, 5, "projects".as_bytes()) && expect_byte(
        bytes,
        13,
        0,
    )) {
        proof {
            assert forall|d: Seq<ProjectV>| enc_at(bytes@, d) implies false by {
                lemma_enc_split(d);
                lemma_key_lens();
            }
        }
        return Err(Error::unknown("malformed store document"));
    }
    let la: u32 = read_le32(bytes, 14);
    if la as usize != blen - 15 {
        proof {
            assert forall|d: Seq<ProjectV>| enc_at(bytes@, d) implies false by {
                lemma_enc_split(d);
                lemma_le32_inj(la as int, arr_elems(d, 0).len() as int + 5);
            }
        }
        return Err(Error::unknown("malformed store document"));
    }
    let arr_term: usize = blen - 2;
    let mut result: Vec<Project> = Vec::new();
    let mut pos: usize = 18;
    let mut i: usize = 0;
    proof {
        assert(views_of(result@) =~= Seq::<ProjectV>::empty());
        assert(bytes@.subrange(18, 18) =~= arr_elems(views_of(result@), 0));
        assert forall|d: Seq<ProjectV>| enc_at(bytes@, d) implies 0 <= d.len() && views_of(
            result@,
        ) == d.take(0) && 18 + arr_elems(d, 0).len() == arr_term && bytes@.subrange(
            18,
            arr_term as int,
        ) == arr_elems(d, 0) by {
            lemma_enc_split(d);
            assert(views_of(result@) =~= d.take(0));
            assert(bytes@.subrange(18, arr_term as int) == enc(d).subrange(
                18,
                18 + arr_elems(d, 0).len() as int,
            ));
        }
    }
    while pos < arr_term
        invariant
            bytes@.len() == blen,
            20 <= blen <= 0x7fff_ffff,
            arr_term == blen - 2,
            18 <= pos <= arr_term,
            i == result@.len(),
            bytes@.subrange(18, pos as int) == arr_elems(views_of(result@), 0),
            doc_sane(views_of(result@)),
            forall|k: int|
                0 <= k < i ==> project_doc(#[trigger] views_of(result@)[k]).len()
                    <= max_doc_len(),
            forall|d: Seq<ProjectV>| #![trigger enc_at(bytes@, d)]
                enc_at(bytes@, d) ==> i <= d.len() && views_of(result@) == d.take(i as int)
                    && pos + arr_elems(d, i as int).len() == arr_term && bytes@.subrange(
                    pos as int,
                    arr_term as int,
                ) == arr_elems(d, i as int),
        decreases arr_term - pos,
    {
        let ghost rv0 = views_of(result@);
        if !expect_byte(bytes, pos, 3) {
            proof {
                assert forall|d: Seq<ProjectV>| enc_at(bytes@, d) implies false by {
                    lemma_entry_shape(bytes@, pos as int, i as int, d, arr_term as int);
                }
            }
            return Err(Error::unknown("malformed store document"));
        }
        let idx: Vec<u8> = fmt_index(i as u64);
        let kl: usize = idx.len();
        if kl >= arr_term - pos || !slice_eq_at(bytes, pos + 1, idx.as_slice()) || !expect_byte(
            bytes,
            pos + 1 + kl,
            0,
        ) {
            proof {
                assert forall|d: Seq<ProjectV>| enc_at(bytes@, d) implies false by {
                    lemma_entry_shape(bytes@, pos as int, i as int, d, arr_term as int);
                }
            }
            return Err(Error::unknown("malformed store document"));
        }
        let (p, np) = match parse_project(bytes, pos + 2 + kl) {
            Option::Some(x) => x,
            Option::None => {
                proof {
                    assert forall|d: Seq<ProjectV>| enc_at(bytes@, d) implies false by {
                        lemma_entry_shape(bytes@, pos as int, i as int, d, arr_term as int);
                    }
                }
                return Err(Error::unknown("malformed store document"));
            },
        };
        if np > arr_term {
            proof {
                assert forall|d: Seq<ProjectV>| enc_at(bytes@, d) implies false by {
                    lemma_entry_pin(
                        bytes@,
                        pos as int,
                        np as int,
                        i as int,
                        d,
                        arr_term as int,
                        kl as int,
                        p@,
                    );
                }
            }
            return Err(Error::unknown("malformed store document"));
        }
        result.push(p);
        proof {
            assert(views_of(result@) =~= rv0.push(p@));
            lemma_iter_step(
                bytes@,
                pos as int,
                np as int,
                i as int,
                rv0,
                p@,
                kl as int,
                arr_term as int,
            );
            assert forall|d: Seq<ProjectV>| enc_at(bytes@, d) implies i + 1 <= d.len()
                && views_of(result@) == d.take(i as int + 1) && np + arr_elems(
                d,
                i as int + 1,
            ).len() == arr_term && bytes@.subrange(np as int, arr_term as int) == arr_elems(
                d,
                i as int + 1,
            ) by {
                lemma_entry_pin(
                    bytes@,
                    pos as int,
                    np as int,
                    i as int,
                    d,
                    arr_term as int,
                    kl as int,
                    p@,
                );
            }
        }
        pos = np;
        i = result.len();
    }
    if !(expect_byte(bytes, arr_term, 0) && expect_byte(bytes, arr_term + 1, 0)) {
        proof {
            assert forall|d: Seq<ProjectV>| enc_at(bytes@, d) implies false by {
                lemma_enc_split(d);
            }
        }
        return Err(Error::unknown("malformed store document"));
    }
    proof {
        reveal(enc);
        reveal(top_body);
        reveal(arr_doc);
        let rv = views_of(result@);
        lemma_enc_split(rv);
        assert(bytes@ =~= enc(rv));
    }
    Ok(result)
}

} // verus!
