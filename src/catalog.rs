//! Cached registry metadata: one entry per package, with its version records.
use vstd::prelude::*;
use crate::package_key::NamespacedPackage;
use crate::version::{Version, version_lt};

verus! {

/// One published version of a package.
#[derive(Clone, Debug)]
pub struct VersionRecord {
    /// Full identifier of the version, `namespace-name-version`.
    pub ident: String,
    /// The version number.
    pub version: Version,
    pub description: String,
    /// Full identifiers of the versions this one depends on.
    pub dependencies: Vec<String>,
}

/// Mathematical value of a [`VersionRecord`].
pub struct VersionRecordView {
    pub ident: Seq<char>,
    pub version: Version,
    pub description: Seq<char>,
    pub dependencies: Seq<Seq<char>>,
}

impl View for VersionRecord {
    type V = VersionRecordView;

    open spec fn view(&self) -> VersionRecordView {
        VersionRecordView {
            ident: self.ident@,
            version: self.version,
            description: self.description@,
            dependencies: self.dependencies.deep_view(),
        }
    }
}

/// Metadata of one package of the registry.
#[derive(Clone, Debug)]
pub struct SearchablePackage {
    pub namespace: String,
    pub name: String,
    /// Category tags.
    pub categories: Vec<String>,
    pub total_downloads: u64,
    pub rating_score: u64,
    pub versions: Vec<VersionRecord>,
}

/// Mathematical value of a [`SearchablePackage`].
pub struct EntryView {
    pub namespace: Seq<char>,
    pub name: Seq<char>,
    pub categories: Seq<Seq<char>>,
    pub total_downloads: u64,
    pub rating_score: u64,
    pub versions: Seq<VersionRecordView>,
}

impl View for SearchablePackage {
    type V = EntryView;

    open spec fn view(&self) -> EntryView {
        EntryView {
            namespace: self.namespace@,
            name: self.name@,
            categories: self.categories.deep_view(),
            total_downloads: self.total_downloads,
            rating_score: self.rating_score,
            versions: self.versions@.map_values(|v: VersionRecord| v@),
        }
    }
}

/// Record `i` has the greatest version of `recs`, and every record after
/// it has a smaller one.
pub open spec fn is_newest(recs: Seq<VersionRecordView>, i: int) -> bool {
    &&& 0 <= i < recs.len()
    &&& forall|j: int|
        0 <= j < recs.len() ==> !version_lt(recs[i].version, #[trigger] recs[j].version) && (j > i
            ==> version_lt(recs[j].version, recs[i].version))
}

/// The package identity of an entry.
pub open spec fn key_of(e: EntryView) -> (Seq<char>, Seq<char>) {
    (e.namespace, e.name)
}

/// Views of a sequence of entries.
pub open spec fn entry_views(s: Seq<SearchablePackage>) -> Seq<EntryView> {
    s.map_values(|e: SearchablePackage| e@)
}

/// The first entry of `s` with identity `k`.
pub open spec fn lookup(s: Seq<EntryView>, k: (Seq<char>, Seq<char>)) -> Option<EntryView>
    decreases s.len(),
{
    if s.len() == 0 {
        None
    } else if key_of(s[0]) == k {
        Some(s[0])
    } else {
        lookup(s.drop_first(), k)
    }
}

/// The last entry of `s` with identity `k`.
pub open spec fn last_with_key(s: Seq<EntryView>, k: (Seq<char>, Seq<char>)) -> Option<EntryView>
    decreases s.len(),
{
    if s.len() == 0 {
        None
    } else if key_of(s.last()) == k {
        Some(s.last())
    } else {
        last_with_key(s.drop_last(), k)
    }
}

/// No two entries of `s` share an identity.
pub open spec fn unique_keys(s: Seq<EntryView>) -> bool {
    forall|i: int, j: int| 0 <= i < j < s.len() ==> key_of(s[i]) != key_of(s[j])
}

proof fn lemma_lookup_push(s: Seq<EntryView>, e: EntryView, k: (Seq<char>, Seq<char>))
    ensures
        lookup(s.push(e), k) == (if lookup(s, k) is Some {
            lookup(s, k)
        } else if key_of(e) == k {
            Some(e)
        } else {
            None
        }),
    decreases s.len(),
{
    if s.len() > 0 {
        assert(s.push(e)[0] == s[0]);
        assert(s.push(e).drop_first() == s.drop_first().push(e));
        lemma_lookup_push(s.drop_first(), e, k);
    } else {
        assert(s.push(e)[0] == e);
        assert(s.push(e).drop_first() == Seq::<EntryView>::empty());
        assert(lookup(Seq::<EntryView>::empty(), k) is None);
    }
}

proof fn lemma_lookup_found(s: Seq<EntryView>, i: int)
    requires
        0 <= i < s.len(),
        forall|j: int| 0 <= j < i ==> key_of(s[j]) != key_of(s[i]),
    ensures
        lookup(s, key_of(s[i])) == Some(s[i]),
    decreases i,
{
    if i > 0 {
        assert forall|j: int| 0 <= j < i - 1 implies key_of(#[trigger] s.drop_first()[j]) != key_of(
            s.drop_first()[i - 1],
        ) by {
            assert(s.drop_first()[j] == s[j + 1]);
        }
        lemma_lookup_found(s.drop_first(), i - 1);
    }
}

proof fn lemma_lookup_absent(s: Seq<EntryView>, k: (Seq<char>, Seq<char>))
    requires
        forall|j: int| 0 <= j < s.len() ==> key_of(s[j]) != k,
    ensures
        lookup(s, k) is None,
    decreases s.len(),
{
    if s.len() > 0 {
        assert forall|j: int| 0 <= j < s.len() - 1 implies key_of(#[trigger] s.drop_first()[j]) != k by {
            assert(s.drop_first()[j] == s[j + 1]);
        }
        lemma_lookup_absent(s.drop_first(), k);
    }
}

proof fn lemma_last_with_key_prepend(s: Seq<EntryView>, i: int, k: (Seq<char>, Seq<char>))
    requires
        0 <= i < s.len(),
    ensures
        last_with_key(s.subrange(i, s.len() as int), k) == (if last_with_key(
            s.subrange(i + 1, s.len() as int),
            k,
        ) is Some {
            last_with_key(s.subrange(i + 1, s.len() as int), k)
        } else if key_of(s[i]) == k {
            Some(s[i])
        } else {
            None
        }),
    decreases s.len(),
{
    if i + 1 == s.len() {
        assert(s.subrange(i, s.len() as int).drop_last() == Seq::<EntryView>::empty());
        assert(s.subrange(i + 1, s.len() as int) == Seq::<EntryView>::empty());
    } else {
        lemma_last_with_key_prepend(s.drop_last(), i, k);
        assert(s.subrange(i, s.len() as int).drop_last() == s.drop_last().subrange(
            i,
            s.drop_last().len() as int,
        ));
        assert(s.subrange(i + 1, s.len() as int).drop_last() == s.drop_last().subrange(
            i + 1,
            s.drop_last().len() as int,
        ));
    }
}

/// In a sequence without repeated identities, the last entry for an
/// identity is its only one, so it is the first one too.
pub proof fn lemma_unique_last_is_first(s: Seq<EntryView>, k: (Seq<char>, Seq<char>))
    requires
        unique_keys(s),
    ensures
        last_with_key(s, k) == lookup(s, k),
    decreases s.len(),
{
    if s.len() > 0 {
        let init = s.drop_last();
        assert(s == init.push(s.last()));
        assert(unique_keys(init)) by {
            assert forall|i: int, j: int| 0 <= i < j < init.len() implies key_of(init[i]) != key_of(
                init[j],
            ) by {
                assert(init[i] == s[i] && init[j] == s[j]);
            }
        }
        lemma_lookup_push(init, s.last(), k);
        if key_of(s.last()) == k {
            assert forall|j: int| 0 <= j < init.len() implies key_of(#[trigger] init[j]) != k by {
                assert(init[j] == s[j]);
            }
            lemma_lookup_absent(init, k);
        } else {
            lemma_unique_last_is_first(init, k);
        }
    }
}

/// The packages of a registry listing, at most one entry per package identity.
pub struct Catalog {
    entries: Vec<SearchablePackage>,
}

impl Catalog {
    /// No two entries share a package identity.
    #[verifier::type_invariant]
    spec fn keys_unique(self) -> bool {
        unique_keys(entry_views(self.entries@))
    }
}

impl View for Catalog {
    type V = Seq<EntryView>;

    closed spec fn view(&self) -> Seq<EntryView> {
        entry_views(self.entries@)
    }
}

impl VersionRecord {
    /// A record from the text of its version number. `None` when that text
    /// is not a release version `major.minor.patch`.
    pub fn from_text(ident: String, version_text: &str, description: String, dependencies: Vec<
        String,
    >) -> (r: Option<VersionRecord>)
        ensures
            r is None <==> forall|v: Version| !crate::version::parses_as_release(version_text@, v),
            r matches Some(rec) ==> crate::version::parses_as_release(version_text@, rec.version)
                && rec.ident == ident && rec.description == description && rec.dependencies
                == dependencies,
    {
        match Version::parse(version_text) {
            Some(version) => Some(VersionRecord { ident, version, description, dependencies }),
            None => None,
        }
    }
}

impl SearchablePackage {
    /// The record with the newest version; of records with equal versions,
    /// the last. `None` when the package lists no version.
    pub fn latest_version(&self) -> (r: Option<&VersionRecord>)
        ensures
            r is None <==> self@.versions.len() == 0,
            r matches Some(v) ==> exists|i: int| is_newest(self@.versions, i) && v@ == #[trigger] self@.versions[i],
    {
        let ghost recs = self@.versions;
        if self.versions.len() == 0 {
            return None;
        }
        let mut best: usize = 0;
        let mut i: usize = 1;
        assert(recs[0] == self.versions@[0]@);
        while i < self.versions.len()
            invariant
                1 <= i <= self.versions.len(),
                best < i,
                recs == self@.versions,
                recs.len() == self.versions.len(),
                forall|m: int| 0 <= m < recs.len() ==> #[trigger] recs[m] == self.versions@[m]@,
                forall|j: int|
                    0 <= j < i ==> !version_lt(recs[best as int].version, #[trigger] recs[j].version)
                        && (j > best ==> version_lt(recs[j].version, recs[best as int].version)),
            decreases self.versions.len() - i,
        {
            assert(recs[i as int] == self.versions@[i as int]@);
            assert(recs[best as int] == self.versions@[best as int]@);
            if !self.versions[i].version.is_older_than(&self.versions[best].version) {
                best = i;
            }
            i = i + 1;
        }
        assert(is_newest(recs, best as int));
        Some(&self.versions[best])
    }

    /// The identity of this package.
    pub fn key(&self) -> (r: NamespacedPackage)
        ensures
            r@ == key_of(self@),
    {
        NamespacedPackage::new(self.namespace.as_str(), self.name.as_str())
    }

    /// The package is tagged as running on the server side.
    pub fn is_server_mod(&self) -> (r: bool)
        ensures
            r == self@.categories.contains("Server-side"@),
    {
        let tag = String::from_str("Server-side");
        let mut i: usize = 0;
        while i < self.categories.len()
            invariant
                i <= self.categories.len(),
                tag@ == "Server-side"@,
                forall|j: int| 0 <= j < i ==> self@.categories[j] != tag@,
            decreases self.categories.len() - i,
        {
            assert(self@.categories[i as int] == self.categories@[i as int]@);
            if self.categories[i] == tag {
                return true;
            }
            i = i + 1;
        }
        proof {
            if self@.categories.contains(tag@) {
                let j = choose|j: int| 0 <= j < self@.categories.len() && self@.categories[j] == tag@;
                assert(false);
            }
        }
        false
    }
}

impl Default for Catalog {
    fn default() -> (r: Catalog)
        ensures
            r@ == Seq::<EntryView>::empty(),
    {
        Catalog::new()
    }
}

impl Catalog {
    /// A catalog with no packages.
    pub fn new() -> (r: Catalog)
        ensures
            r@ == Seq::<EntryView>::empty(),
    {
        let r = Catalog { entries: Vec::new() };
        assert(r@ =~= Seq::<EntryView>::empty());
        r
    }

    /// Indexes a listing by package identity. Where two entries share an
    /// identity, the later one stands.
    pub fn from_entries(entries: Vec<SearchablePackage>) -> (r: Catalog)
        ensures
            unique_keys(r@),
            forall|k: (Seq<char>, Seq<char>)| #[trigger]
                lookup(r@, k) == last_with_key(entry_views(entries@), k),
    {
        let ghost orig = entry_views(entries@);
        let mut rest = entries;
        let mut out: Vec<SearchablePackage> = Vec::new();
        assert(entry_views(out@) =~= Seq::<EntryView>::empty());
        while rest.len() > 0
            invariant
                rest.len() <= orig.len(),
                entry_views(rest@) == orig.subrange(0, rest.len() as int),
                unique_keys(entry_views(out@)),
                forall|k: (Seq<char>, Seq<char>)| #[trigger]
                    lookup(entry_views(out@), k) == last_with_key(
                        orig.subrange(rest.len() as int, orig.len() as int),
                        k,
                    ),
            decreases rest.len(),
        {
            let ghost n = rest.len();
            let ghost old_rest = rest@;
            let e = rest.pop().unwrap();
            assert(entry_views(old_rest)[n - 1] == old_rest[n - 1]@);
            assert(entry_views(rest@) =~= orig.subrange(0, n - 1));
            assert(e@ == orig[n - 1]);
            let ghost before = entry_views(out@);
            let mut found = false;
            let mut j: usize = 0;
            while j < out.len() && !found
                invariant
                    j <= out.len(),
                    entry_views(out@) == before,
                    !found ==> forall|m: int| 0 <= m < j ==> key_of(before[m]) != key_of(e@),
                    found ==> lookup(before, key_of(e@)) is Some,
                decreases out.len() - j + if found { 0int } else { 1int },
            {
                assert(before[j as int] == out@[j as int]@);
                if out[j].namespace == e.namespace && out[j].name == e.name {
                    proof {
                        assert(key_of(before[j as int]) == key_of(e@));
                        lemma_lookup_found(before, j as int);
                    }
                    found = true;
                } else {
                    j = j + 1;
                }
            }
            proof {
                lemma_last_with_key_prepend(orig, n - 1, key_of(e@));
                assert forall|k: (Seq<char>, Seq<char>)|
                    k != key_of(e@) implies last_with_key(orig.subrange(n - 1, orig.len() as int), k)
                    == last_with_key(orig.subrange(n as int, orig.len() as int), k) by {
                    lemma_last_with_key_prepend(orig, n - 1, k);
                }
                if !found {
                    lemma_lookup_absent(before, key_of(e@));
                }
            }
            if !found {
                out.push(e);
                proof {
                    assert(entry_views(out@) =~= before.push(e@));
                    assert forall|k: (Seq<char>, Seq<char>)| #[trigger]
                        lookup(entry_views(out@), k) == last_with_key(
                            orig.subrange(n - 1, orig.len() as int),
                            k,
                        ) by {
                        lemma_lookup_push(before, e@, k);
                        lemma_last_with_key_prepend(orig, n - 1, k);
                    }
                }
            } else {
                proof {
                    assert forall|k: (Seq<char>, Seq<char>)| #[trigger]
                        lookup(entry_views(out@), k) == last_with_key(
                            orig.subrange(n - 1, orig.len() as int),
                            k,
                        ) by {
                        lemma_last_with_key_prepend(orig, n - 1, k);
                    }
                }
            }
        }
        assert(orig.subrange(0, orig.len() as int) == orig);
        Catalog { entries: out }
    }

    /// The entry for `key`, if the catalog has one.
    pub fn get(&self, key: &NamespacedPackage) -> (r: Option<&SearchablePackage>)
        ensures
            r is None <==> lookup(self@, key@) is None,
            r matches Some(e) ==> lookup(self@, key@) == Some(e@),
    {
        let mut i: usize = 0;
        while i < self.entries.len()
            invariant
                i <= self.entries.len(),
                forall|m: int| 0 <= m < i ==> key_of(self@[m]) != key@,
            decreases self.entries.len() - i,
        {
            if key.matches_parts(&self.entries[i].namespace, &self.entries[i].name) {
                proof {
                    assert(self@[i as int] == self.entries@[i as int]@);
                    lemma_lookup_found(self@, i as int);
                }
                return Some(&self.entries[i]);
            }
            assert(self@[i as int] == self.entries@[i as int]@);
            i = i + 1;
        }
        proof {
            lemma_lookup_absent(self@, key@);
        }
        None
    }

    /// The entries, in the catalog's order.
    pub fn entries(&self) -> (r: &Vec<SearchablePackage>)
        ensures
            entry_views(r@) == self@,
            unique_keys(self@),
    {
        proof {
            use_type_invariant(self);
        }
        &self.entries
    }

    /// Number of packages.
    pub fn len(&self) -> (r: usize)
        ensures
            r == self@.len(),
            unique_keys(self@),
    {
        proof {
            use_type_invariant(self);
        }
        self.entries.len()
    }

    /// The catalog has no package.
    pub fn is_empty(&self) -> (r: bool)
        ensures
            r == (self@.len() == 0),
    {
        self.entries.len() == 0
    }
}

} // verus!
