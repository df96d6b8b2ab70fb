//! The day-view binary format, byte-exact and little-endian:
//!
//! | offset | size      | meaning                             |
//! |--------|-----------|-------------------------------------|
//! | 0      | 4 bytes   | ASCII `VIEW`                        |
//! | 4      | 4 bytes   | version, u32 LE, currently 1        |
//! | 8      | 8 bytes   | count, u64 LE                       |
//! | 16     | count * 4 | views, u32 LE, one per article dense id |
//!
//! Reading the file from disk is the caller's business; this module turns
//! bytes into the vector of per-article view counts and back.

use vstd::bytes::spec_u32_from_le_bytes;
use vstd::bytes::spec_u64_from_le_bytes;
use vstd::bytes::u32_from_le_bytes;
use vstd::bytes::u32_to_le_bytes;
use vstd::bytes::u64_from_le_bytes;
use vstd::bytes::u64_to_le_bytes;
use vstd::bytes::lemma_auto_spec_u32_to_from_le_bytes;
use vstd::bytes::lemma_auto_spec_u64_to_from_le_bytes;
use vstd::prelude::*;
use vstd::slice::slice_subrange;

verus! {

/// Why a byte buffer is not a day-view file.
#[derive(Clone, Copy, PartialEq, Eq, Structural, Debug)]
pub enum ViewFileError {
    /// Shorter than the 16-byte header.
    TooShort,
    /// The first four bytes are not ASCII `VIEW`.
    BadMagic,
    /// The version field is not 1.
    BadVersion,
    /// The body is not exactly `count` four-byte entries.
    WrongLength,
}

/// The first four bytes spell ASCII `VIEW`.
pub open spec fn magic_ok(bytes: Seq<u8>) -> bool {
    &&& bytes.len() >= 4
    &&& bytes[0] == 0x56u8
    &&& bytes[1] == 0x49u8
    &&& bytes[2] == 0x45u8
    &&& bytes[3] == 0x57u8
}

pub open spec fn file_version(bytes: Seq<u8>) -> u32 {
    spec_u32_from_le_bytes(bytes.subrange(4, 8))
}

pub open spec fn file_count(bytes: Seq<u8>) -> u64 {
    spec_u64_from_le_bytes(bytes.subrange(8, 16))
}

/// The `k`-th view count of the body.
pub open spec fn body_entry(bytes: Seq<u8>, k: int) -> u32 {
    spec_u32_from_le_bytes(bytes.subrange(16 + 4 * k, 20 + 4 * k))
}

/// A byte-exact day-view file: header intact and a body of exactly `count`
/// entries.
pub open spec fn well_formed_view_file(bytes: Seq<u8>) -> bool {
    &&& bytes.len() >= 16
    &&& magic_ok(bytes)
    &&& file_version(bytes) == 1
    &&& (bytes.len() - 16) % 4 == 0
    &&& file_count(bytes) == (bytes.len() - 16) / 4
}

/// Decodes a day-view file.  Returns the per-article counts in file order,
/// or says precisely what is wrong with the bytes; corrupt data never yields
/// a vector.
pub fn parse_view_file(bytes: &[u8]) -> (r: Result<Vec<u32>, ViewFileError>)
    ensures
        r is Ok <==> well_formed_view_file(bytes@),
        match r {
            Ok(v) => {
                &&& v@.len() == (bytes@.len() - 16) / 4
                &&& forall|k: int| 0 <= k < v@.len() ==> v@[k] == body_entry(bytes@, k)
            },
            Err(e) => {
                &&& (e == ViewFileError::TooShort <==> bytes@.len() < 16)
                &&& (e == ViewFileError::BadMagic <==> bytes@.len() >= 16 && !magic_ok(bytes@))
                &&& (e == ViewFileError::BadVersion <==> bytes@.len() >= 16 && magic_ok(bytes@)
                    && file_version(bytes@) != 1)
                &&& (e == ViewFileError::WrongLength <==> bytes@.len() >= 16 && magic_ok(bytes@)
                    && file_version(bytes@) == 1 && !((bytes@.len() - 16) % 4 == 0 && file_count(
                    bytes@,
                ) == (bytes@.len() - 16) / 4))
            },
        },
{
    let n_bytes = bytes.len();
    if n_bytes < 16 {
        return Err(ViewFileError::TooShort);
    }
    if !(bytes[0] == 0x56 && bytes[1] == 0x49 && bytes[2] == 0x45 && bytes[3] == 0x57) {
        return Err(ViewFileError::BadMagic);
    }
    let version = u32_from_le_bytes(slice_subrange(bytes, 4, 8));
    if version != 1 {
        return Err(ViewFileError::BadVersion);
    }
    let count = u64_from_le_bytes(slice_subrange(bytes, 8, 16));
    let body_len = n_bytes - 16;
    if body_len % 4 != 0 {
        return Err(ViewFileError::WrongLength);
    }
    let n_entries = body_len / 4;
    if count != n_entries as u64 {
        return Err(ViewFileError::WrongLength);
    }
    let mut v: Vec<u32> = Vec::new();
    let mut k: usize = 0;
    while k < n_entries
        invariant
            n_bytes == bytes@.len(),
            n_bytes >= 16,
            n_entries == (n_bytes - 16) / 4,
            (n_bytes - 16) % 4 == 0,
            k <= n_entries,
            v@.len() == k,
            forall|j: int| 0 <= j < k ==> v@[j] == body_entry(bytes@, j),
        decreases n_entries - k,
    {
        proof {
            assert(16 + 4 * (k + 1) <= n_bytes);
        }
        let entry = u32_from_le_bytes(slice_subrange(bytes, 16 + 4 * k, 20 + 4 * k));
        v.push(entry);
        k = k + 1;
    }
    Ok(v)
}

/// Encodes per-article view counts as a day-view file; the exact inverse of
/// [`parse_view_file`].
pub fn encode_view_file(views: &[u32]) -> (r: Vec<u8>)
    requires
        16 + 4 * views@.len() <= usize::MAX,
    ensures
        r@.len() == 16 + 4 * views@.len(),
        well_formed_view_file(r@),
        forall|k: int| 0 <= k < views@.len() ==> body_entry(r@, k) == views@[k],
{
    proof {
        lemma_auto_spec_u32_to_from_le_bytes();
        lemma_auto_spec_u64_to_from_le_bytes();
    }
    let n_views = views.len();
    let mut out: Vec<u8> = Vec::new();
    out.push(0x56);
    out.push(0x49);
    out.push(0x45);
    out.push(0x57);
    let mut version_bytes = u32_to_le_bytes(1);
    out.append(&mut version_bytes);
    let mut count_bytes = u64_to_le_bytes(n_views as u64);
    out.append(&mut count_bytes);
    proof {
        assert(out@.len() == 16);
        assert(out@.subrange(4, 8) =~= vstd::bytes::spec_u32_to_le_bytes(1u32));
        assert(out@.subrange(8, 16) =~= vstd::bytes::spec_u64_to_le_bytes(n_views as u64));
    }
    let ghost header = out@;
    let mut k: usize = 0;
    while k < n_views
        invariant
            n_views == views@.len(),
            16 + 4 * n_views <= usize::MAX,
            k <= n_views,
            out@.len() == 16 + 4 * k,
            out@.subrange(0, 16) =~= header,
            header.len() == 16,
            header.subrange(4, 8) =~= vstd::bytes::spec_u32_to_le_bytes(1u32),
            header.subrange(8, 16) =~= vstd::bytes::spec_u64_to_le_bytes(n_views as u64),
            header[0] == 0x56u8 && header[1] == 0x49u8 && header[2] == 0x45u8 && header[3]
                == 0x57u8,
            forall|j: int|
                0 <= j < k ==> out@.subrange(16 + 4 * j, 20 + 4 * j)
                    =~= vstd::bytes::spec_u32_to_le_bytes(views@[j]),
        decreases n_views - k,
    {
        let ghost before = out@;
        let mut entry_bytes = u32_to_le_bytes(views[k]);
        out.append(&mut entry_bytes);
        proof {
            assert(out@.subrange(0, before.len() as int) =~= before);
            assert(out@.subrange(0, 16) =~= before.subrange(0, 16));
            assert forall|j: int| 0 <= j < k + 1 implies out@.subrange(16 + 4 * j, 20 + 4 * j)
                =~= vstd::bytes::spec_u32_to_le_bytes(views@[j]) by {
                if j < k {
                    assert(out@.subrange(16 + 4 * j, 20 + 4 * j) =~= before.subrange(
                        16 + 4 * j,
                        20 + 4 * j,
                    ));
                } else {
                    assert(out@.subrange(16 + 4 * j, 20 + 4 * j) =~= vstd::bytes::spec_u32_to_le_bytes(
                        views@[j],
                    ));
                }
            }
        }
        k = k + 1;
    }
    proof {
        lemma_auto_spec_u32_to_from_le_bytes();
        lemma_auto_spec_u64_to_from_le_bytes();
        assert(out@.subrange(4, 8) =~= out@.subrange(0, 16).subrange(4, 8));
        assert(out@.subrange(8, 16) =~= out@.subrange(0, 16).subrange(8, 16));
        assert(out@[0] == 0x56u8 && out@[1] == 0x49u8 && out@[2] == 0x45u8 && out@[3] == 0x57u8);
        assert(file_version(out@) == 1);
        assert(file_count(out@) == n_views as u64);
        assert forall|j: int| 0 <= j < n_views implies body_entry(out@, j) == views@[j] by {
            assert(out@.subrange(16 + 4 * j, 20 + 4 * j) =~= vstd::bytes::spec_u32_to_le_bytes(
                views@[j],
            ));
        }
    }
    out
}

} // verus!

verus! {

/// The dense day vector that a sequence of `(page id, views)` rows builds:
/// each row whose page id translates through both maps lands at its article's
/// dense index, later rows overwriting earlier ones.
pub open spec fn day_vector_spec(
    rows: Seq<(u32, u32)>,
    id_to_qid: Map<u32, u32>,
    qid_to_dense: Map<u32, u32>,
    n_articles: nat,
) -> Seq<u32>
    decreases rows.len(),
{
    if rows.len() == 0 {
        Seq::new(n_articles, |i: int| 0u32)
    } else {
        let prev = day_vector_spec(rows.drop_last(), id_to_qid, qid_to_dense, n_articles);
        let row = rows.last();
        if id_to_qid.contains_key(row.0) && qid_to_dense.contains_key(id_to_qid[row.0])
            && qid_to_dense[id_to_qid[row.0]] < n_articles {
            prev.update(qid_to_dense[id_to_qid[row.0]] as int, row.1)
        } else {
            prev
        }
    }
}

/// Scatters per-page daily view rows into a dense per-article vector:
/// page id -> QID -> dense article id.  Rows naming pages or articles the
/// maps do not know are dropped; rows repeating a page overwrite.
pub fn build_day_vector(
    rows: &Vec<(u32, u32)>,
    id_to_qid: &crate::direct_map::DirectMap,
    qid_to_dense: &crate::direct_map::DirectMap,
    n_articles: usize,
) -> (r: Vec<u32>)
    ensures
        r@ == day_vector_spec(rows@, id_to_qid@, qid_to_dense@, n_articles as nat),
{
    let mut r: Vec<u32> = Vec::new();
    let mut i: usize = 0;
    while i < n_articles
        invariant
            i <= n_articles,
            r@.len() == i,
            forall|j: int| 0 <= j < i ==> r@[j] == 0,
        decreases n_articles - i,
    {
        r.push(0);
        i = i + 1;
    }
    proof {
        assert(r@ =~= day_vector_spec(
            rows@.take(0),
            id_to_qid@,
            qid_to_dense@,
            n_articles as nat,
        ));
    }
    let n_rows = rows.len();
    let mut k: usize = 0;
    while k < n_rows
        invariant
            n_rows == rows@.len(),
            k <= n_rows,
            r@.len() == n_articles,
            r@ == day_vector_spec(rows@.take(k as int), id_to_qid@, qid_to_dense@, n_articles as nat),
        decreases n_rows - k,
    {
        let (page_id, views) = rows[k];
        proof {
            assert(rows@.take(k as int + 1).drop_last() =~= rows@.take(k as int));
            assert(rows@.take(k as int + 1).last() == rows@[k as int]);
        }
        if let Some(qid) = id_to_qid.get(page_id) {
            if let Some(dense) = qid_to_dense.get(qid) {
                if (dense as usize) < n_articles {
                    r[dense as usize] = views;
                }
            }
        }
        k = k + 1;
    }
    proof {
        assert(rows@.take(n_rows as int) =~= rows@);
    }
    r
}

} // verus!
