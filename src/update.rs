//! Update planning for installed packages: which installed package has a
//! newer admitted version, and the order to show them in.
use vstd::prelude::*;
use crate::cache_file::{find_first, first_index};
use crate::catalog::{Catalog, VersionRecord};
use crate::package_key::NamespacedPackage;
use crate::requirements::{Requirements, resolved};
use crate::version::{Version, version_lt};

verus! {

/// The version that installed package `package`, now at `installed`, should
/// be updated to: the newest version that its requirement admits, when that
/// is strictly newer than `installed`.
pub fn update_target<'a>(
    requirements: &Requirements,
    catalog: &'a Catalog,
    package: &NamespacedPackage,
    installed: &Version,
) -> (r: Option<&'a VersionRecord>)
    ensures
        r is None <==> !(resolved(catalog@, requirements@, package@) matches Some(l) && version_lt(
            *installed,
            l.version,
        )),
        r matches Some(v) ==> resolved(catalog@, requirements@, package@) == Some(v@) && version_lt(
            *installed,
            v.version,
        ),
{
    match requirements.get_latest_version(catalog, package) {
        None => None,
        Some(latest) => {
            if installed.is_older_than(&latest.version) {
                Some(latest)
            } else {
                None
            }
        },
    }
}

/// Indices `i` of `flags` with `flags[i] == b`, in increasing order.
pub open spec fn indices_where(flags: Seq<bool>, b: bool) -> Seq<int>
    decreases flags.len(),
{
    if flags.len() == 0 {
        Seq::empty()
    } else if flags.last() == b {
        indices_where(flags.drop_last(), b).push(flags.len() - 1)
    } else {
        indices_where(flags.drop_last(), b)
    }
}

fn collect_indices(flags: &Vec<bool>, b: bool, out: &mut Vec<usize>)
    ensures
        final(out)@.map_values(|i: usize| i as int) == old(out)@.map_values(|i: usize| i as int)
            + indices_where(flags@, b),
{
    let ghost start = old(out)@.map_values(|i: usize| i as int);
    let mut i: usize = 0;
    while i < flags.len()
        invariant
            i <= flags.len(),
            out@.map_values(|i: usize| i as int) == start + indices_where(
                flags@.subrange(0, i as int),
                b,
            ),
        decreases flags.len() - i,
    {
        let ghost before = out@;
        assert(flags@.subrange(0, i + 1).drop_last() =~= flags@.subrange(0, i as int));
        if flags[i] == b {
            out.push(i);
            assert(out@.map_values(|i: usize| i as int) =~= before.map_values(|i: usize| i as int).push(
                i as int,
            ));
        }
        i = i + 1;
    }
    assert(flags@.subrange(0, i as int) =~= flags@);
}

/// Display order for installed packages, given for each whether it can be
/// updated: first those that cannot, then those that can, each group in its
/// given order.
pub fn display_order(updatable: &Vec<bool>) -> (r: Vec<usize>)
    ensures
        r@.map_values(|i: usize| i as int) == indices_where(updatable@, false) + indices_where(
            updatable@,
            true,
        ),
{
    let mut r: Vec<usize> = Vec::new();
    assert(r@.map_values(|i: usize| i as int) =~= Seq::<int>::empty());
    collect_indices(updatable, false, &mut r);
    assert(Seq::<int>::empty() + indices_where(updatable@, false) =~= indices_where(updatable@, false));
    collect_indices(updatable, true, &mut r);
    r
}

/// The package that an install folder is for. A folder is named
/// `namespace-name` or `namespace-name-version`: the namespace is the text
/// before the first `-`, the name the text after it up to the next `-`.
/// `None` when the folder name has no `-`.
pub fn key_from_folder_name(folder: &str) -> (r: Option<NamespacedPackage>)
    ensures
        r is None <==> first_index(folder@, '-') == folder@.len(),
        r matches Some(k) ==> ({
            let i = first_index(folder@, '-');
            let rest = folder@.subrange(i + 1, folder@.len() as int);
            k@ == (folder@.subrange(0, i), rest.subrange(0, first_index(rest, '-')))
        }),
{
    let len = folder.unicode_len();
    let i = find_first(folder, '-');
    if i == len {
        return None;
    }
    let namespace = folder.substring_char(0, i);
    let rest = folder.substring_char(i + 1, len);
    let j = find_first(rest, '-');
    let name = rest.substring_char(0, j);
    Some(NamespacedPackage::new(namespace, name))
}

} // verus!
