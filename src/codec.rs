//! The cache file body: the catalog's entries as rows of plain values,
//! written and read by bincode with its standard configuration.
use vstd::prelude::*;
use crate::version::Version;
use crate::catalog::{Catalog, SearchablePackage, VersionRecord, EntryView, VersionRecordView, entry_views, unique_keys};

verus! {

#[verifier::external_type_specification]
#[verifier::external_body]
pub struct ExEncodeError(bincode::error::EncodeError);

#[verifier::external_type_specification]
#[verifier::external_body]
pub struct ExDecodeError(bincode::error::DecodeError);

/// A version record as stored: identifier, major, minor, patch, description,
/// dependencies.
pub type VersionRow = (String, u64, u64, u64, String, Vec<String>);

/// A package entry as stored: namespace, name, categories, total downloads,
/// rating, version rows.
pub type EntryRow = (String, String, Vec<String>, u64, u64, Vec<VersionRow>);

pub open spec fn version_row_view(r: VersionRow) -> VersionRecordView {
    VersionRecordView {
        ident: r.0@,
        version: Version { major: r.1, minor: r.2, patch: r.3 },
        description: r.4@,
        dependencies: r.5.deep_view(),
    }
}

pub open spec fn version_rows_view(s: Seq<VersionRow>) -> Seq<VersionRecordView> {
    s.map_values(|v: VersionRow| version_row_view(v))
}

pub open spec fn entry_row_view(r: EntryRow) -> EntryView {
    EntryView {
        namespace: r.0@,
        name: r.1@,
        categories: r.2.deep_view(),
        total_downloads: r.3,
        rating_score: r.4,
        versions: version_rows_view(r.5@),
    }
}

pub open spec fn rows_view(s: Seq<EntryRow>) -> Seq<EntryView> {
    s.map_values(|r: EntryRow| entry_row_view(r))
}

/// The bytes that `bincode::encode_to_vec` writes, with
/// `bincode::config::standard()`, for the rows of these entries.
pub uninterp spec fn bincode_image(entries: Seq<EntryView>) -> Seq<u8>;

/// Relies on `bincode::encode_to_vec` with the standard configuration. For
/// these types only the writer can fail, and the vector writer never does.
#[verifier::external_body]
fn bincode_encode(rows: &Vec<EntryRow>) -> (r: Result<Vec<u8>, bincode::error::EncodeError>)
    ensures
        r is Ok,
        r matches Ok(b) ==> b@ == bincode_image(rows_view(rows@)),
{
    bincode::encode_to_vec(rows, bincode::config::standard())
}

/// Bound, in bytes, on what the decoder may claim while reading a cache
/// body. Each container claims its length times its element size before it
/// allocates, so a corrupt length fails against this bound.
pub const DECODE_LIMIT: usize = 1073741824;

/// What `bincode::decode_from_slice`, with the standard configuration and
/// the limit [`DECODE_LIMIT`], makes of these bytes: the entries of the rows
/// it reads, or `None` when it fails.
pub uninterp spec fn bincode_decoded(bytes: Seq<u8>) -> Option<Seq<EntryView>>;

/// Relies on `bincode::decode_from_slice` with the standard configuration
/// and a byte limit. Bytes that bincode wrote for some rows decode to those
/// rows; they decode at all when the limit is at least 144 times their
/// length, since no byte of them makes the decoder claim more than 144
/// bytes (a length prefix claims 8, a row element at most 112).
#[verifier::external_body]
fn bincode_decode(bytes: &[u8]) -> (r: Result<(Vec<EntryRow>, usize), bincode::error::DecodeError>)
    ensures
        r is Err <==> bincode_decoded(bytes@) is None,
        r matches Ok(p) ==> bincode_decoded(bytes@) == Some(rows_view(p.0@)),
        r matches Ok(p) ==> forall|v: Seq<EntryView>| bytes@ == #[trigger] bincode_image(v)
            ==> rows_view(p.0@) == v,
        r is Err ==> forall|v: Seq<EntryView>|
            !(bytes@ == #[trigger] bincode_image(v) && 144 * bytes@.len() <= DECODE_LIMIT),
{
    bincode::decode_from_slice(bytes, bincode::config::standard().with_limit::<DECODE_LIMIT>())
}

fn version_to_row(v: &VersionRecord) -> (r: VersionRow)
    ensures
        version_row_view(r) == v@,
{
    broadcast use vstd::std_specs::vec::group_vec_axioms;
    (
        v.ident.clone(),
        v.version.major,
        v.version.minor,
        v.version.patch,
        v.description.clone(),
        v.dependencies.clone(),
    )
}

fn entry_to_row(e: &SearchablePackage) -> (r: EntryRow)
    ensures
        entry_row_view(r) == e@,
{
    broadcast use vstd::std_specs::vec::group_vec_axioms;
    let mut versions: Vec<VersionRow> = Vec::new();
    let mut i: usize = 0;
    while i < e.versions.len()
        invariant
            i <= e.versions.len(),
            versions@.len() == i,
            e@.versions.len() == e.versions@.len(),
            version_rows_view(versions@) == e@.versions.subrange(0, i as int),
        decreases e.versions.len() - i,
    {
        let row = version_to_row(&e.versions[i]);
        let ghost before = versions@;
        versions.push(row);
        assert(versions@ == before.push(row));
        assert(e@.versions[i as int] == e.versions@[i as int]@);
        assert forall|k: int| 0 <= k < i + 1 implies #[trigger] version_rows_view(versions@)[k]
            == e@.versions.subrange(0, i + 1)[k] by {
            if k < i {
                assert(versions@[k] == before[k]);
                assert(version_rows_view(before)[k] == e@.versions.subrange(0, i as int)[k]);
            } else {
                assert(versions@[k] == row);
                assert(version_rows_view(versions@)[k] == version_row_view(row));
            }
        }
        assert(version_rows_view(versions@) =~= e@.versions.subrange(0, i + 1));
        i = i + 1;
    }
    assert(e@.versions.subrange(0, i as int) =~= e@.versions);
    (e.namespace.clone(), e.name.clone(), e.categories.clone(), e.total_downloads, e.rating_score, versions)
}

fn row_to_version(r: VersionRow) -> (v: VersionRecord)
    ensures
        v@ == version_row_view(r),
{
    let (ident, major, minor, patch, description, dependencies) = r;
    VersionRecord { ident, version: Version { major, minor, patch }, description, dependencies }
}

fn row_to_entry(r: EntryRow) -> (e: SearchablePackage)
    ensures
        e@ == entry_row_view(r),
{
    let (namespace, name, categories, total_downloads, rating_score, rows) = r;
    let ghost all = version_rows_view(rows@);
    let mut rest = rows;
    let mut versions: Vec<VersionRecord> = Vec::new();
    while rest.len() > 0
        invariant
            versions@.len() + rest@.len() == all.len(),
            versions@.map_values(|v: VersionRecord| v@) == all.subrange(0, versions@.len() as int),
            version_rows_view(rest@) == all.subrange(versions@.len() as int, all.len() as int),
        decreases rest.len(),
    {
        let ghost n = versions@.len() as int;
        let ghost old_rest = rest@;
        let row = rest.remove(0);
        assert(version_rows_view(old_rest)[0] == version_row_view(row));
        versions.push(row_to_version(row));
        assert(versions@.map_values(|v: VersionRecord| v@) =~= all.subrange(0, n + 1));
        assert forall|k: int| 0 <= k < rest@.len() implies #[trigger] version_rows_view(rest@)[k]
            == all.subrange(n + 1, all.len() as int)[k] by {
            assert(rest@[k] == old_rest[k + 1]);
            assert(version_rows_view(old_rest)[k + 1] == all.subrange(n, all.len() as int)[k + 1]);
        }
        assert(version_rows_view(rest@) =~= all.subrange(n + 1, all.len() as int));
    }
    assert(all.subrange(0, all.len() as int) =~= all);
    SearchablePackage { namespace, name, categories, total_downloads, rating_score, versions }
}

/// The cache file body for a catalog: its entries, in the catalog's order.
pub fn encode_catalog(catalog: &Catalog) -> (r: Vec<u8>)
    ensures
        r@ == bincode_image(catalog@),
        unique_keys(catalog@),
{
    let entries = catalog.entries();
    let mut rows: Vec<EntryRow> = Vec::new();
    let mut i: usize = 0;
    while i < entries.len()
        invariant
            i <= entries.len(),
            entry_views(entries@) == catalog@,
            rows@.len() == i,
            catalog@.len() == entries@.len(),
            rows_view(rows@) == catalog@.subrange(0, i as int),
        decreases entries.len() - i,
    {
        let row = entry_to_row(&entries[i]);
        let ghost before = rows@;
        rows.push(row);
        assert(rows@ == before.push(row));
        assert(catalog@[i as int] == entries@[i as int]@);
        assert forall|k: int| 0 <= k < i + 1 implies #[trigger] rows_view(rows@)[k]
            == catalog@.subrange(0, i + 1)[k] by {
            if k < i {
                assert(rows@[k] == before[k]);
                assert(rows_view(before)[k] == catalog@.subrange(0, i as int)[k]);
            } else {
                assert(rows@[k] == row);
                assert(rows_view(rows@)[k] == entry_row_view(row));
            }
        }
        assert(rows_view(rows@) =~= catalog@.subrange(0, i + 1));
        i = i + 1;
    }
    assert(catalog@.subrange(0, i as int) =~= catalog@);
    bincode_encode(&rows).unwrap()
}

/// Reads the entries back from a cache file body. `None` when the bytes do
/// not decode. Bytes written for some entries, no longer than a 144th of
/// [`DECODE_LIMIT`], give exactly those entries, in their order.
pub fn decode_entries(bytes: &[u8]) -> (r: Option<Vec<SearchablePackage>>)
    ensures
        r is None <==> bincode_decoded(bytes@) is None,
        r matches Some(es) ==> bincode_decoded(bytes@) == Some(entry_views(es@)),
        forall|v: Seq<EntryView>|
            bytes@ == #[trigger] bincode_image(v) && 144 * bytes@.len() <= DECODE_LIMIT ==> (r matches Some(es)
            && entry_views(es@) == v),
{
    let rows = match bincode_decode(bytes) {
        Ok((rows, _)) => rows,
        Err(_) => return None,
    };
    let ghost all = rows_view(rows@);
    let mut rest = rows;
    let mut out: Vec<SearchablePackage> = Vec::new();
    while rest.len() > 0
        invariant
            out@.len() + rest@.len() == all.len(),
            entry_views(out@) == all.subrange(0, out@.len() as int),
            rows_view(rest@) == all.subrange(out@.len() as int, all.len() as int),
        decreases rest.len(),
    {
        let ghost n = out@.len() as int;
        let ghost old_rest = rest@;
        let row = rest.remove(0);
        assert(rows_view(old_rest)[0] == entry_row_view(row));
        out.push(row_to_entry(row));
        assert(entry_views(out@) =~= all.subrange(0, n + 1));
        assert forall|k: int| 0 <= k < rest@.len() implies #[trigger] rows_view(rest@)[k]
            == all.subrange(n + 1, all.len() as int)[k] by {
            assert(rest@[k] == old_rest[k + 1]);
            assert(rows_view(old_rest)[k + 1] == all.subrange(n, all.len() as int)[k + 1]);
        }
        assert(rows_view(rest@) =~= all.subrange(n + 1, all.len() as int));
    }
    assert(all.subrange(0, all.len() as int) =~= all);
    Some(out)
}

} // verus!
