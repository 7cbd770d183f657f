//! Declared version requirements per package, and resolution of the newest
//! admitted version against a catalog.
use vstd::prelude::*;
use crate::package_key::{NamespacedPackage, is_key_text, key_namespace, key_name};
use crate::version::{Version, admits, version_lt, requirement_valid, requirement_admits, requirement_is_valid};
use crate::catalog::{Catalog, VersionRecord, VersionRecordView, EntryView, lookup};

verus! {

/// A package identity with the requirement text declared for it.
pub type RequirementView = ((Seq<char>, Seq<char>), Seq<char>);

/// The requirement of the first declaration in `s` for package `k`.
pub open spec fn req_lookup(s: Seq<RequirementView>, k: (Seq<char>, Seq<char>)) -> Option<Seq<char>>
    decreases s.len(),
{
    if s.len() == 0 {
        None
    } else if s[0].0 == k {
        Some(s[0].1)
    } else {
        req_lookup(s.drop_first(), k)
    }
}

/// The package identity that a key text names.
pub open spec fn text_key(t: Seq<char>) -> (Seq<char>, Seq<char>) {
    (key_namespace(t), key_name(t))
}

/// The requirement of the last pair of `s` whose key text names `k`.
pub open spec fn last_req(s: Seq<(Seq<char>, Seq<char>)>, k: (Seq<char>, Seq<char>)) -> Option<Seq<char>>
    decreases s.len(),
{
    if s.len() == 0 {
        None
    } else if text_key(s.last().0) == k {
        Some(s.last().1)
    } else {
        last_req(s.drop_last(), k)
    }
}

/// Every key text names a package and every requirement text parses.
pub open spec fn well_formed_document(s: Seq<(Seq<char>, Seq<char>)>) -> bool {
    forall|i: int| 0 <= i < s.len() ==> is_key_text(#[trigger] s[i].0) && requirement_valid(s[i].1)
}

/// Views of (key text, requirement text) pairs.
pub open spec fn pair_views(s: Seq<(String, String)>) -> Seq<(Seq<char>, Seq<char>)> {
    s.map_values(|p: (String, String)| (p.0@, p.1@))
}

/// Views of declarations.
pub open spec fn decl_views(s: Seq<(NamespacedPackage, String)>) -> Seq<RequirementView> {
    s.map_values(|p: (NamespacedPackage, String)| (p.0@, p.1@))
}

/// No two declarations are for the same package.
pub open spec fn unique_decls(s: Seq<RequirementView>) -> bool {
    forall|i: int, j: int| 0 <= i < j < s.len() ==> s[i].0 != s[j].0
}

/// No version record of `recs` is admitted by `req`.
pub open spec fn none_admitted(recs: Seq<VersionRecordView>, req: Seq<char>) -> bool {
    forall|j: int| 0 <= j < recs.len() ==> !admits(req, #[trigger] recs[j].version)
}

/// Record `i` is admitted by `req`, no admitted record is newer, and every
/// admitted record after it is older.
pub open spec fn is_latest_admitted(recs: Seq<VersionRecordView>, req: Seq<char>, i: int) -> bool {
    &&& 0 <= i < recs.len()
    &&& admits(req, recs[i].version)
    &&& forall|j: int|
        0 <= j < recs.len() && admits(req, #[trigger] recs[j].version) ==> !version_lt(
            recs[i].version,
            recs[j].version,
        ) && (j > i ==> version_lt(recs[j].version, recs[i].version))
}

/// The newest admitted record of `recs` is unique.
pub proof fn lemma_latest_unique(recs: Seq<VersionRecordView>, req: Seq<char>, i: int, j: int)
    requires
        is_latest_admitted(recs, req, i),
        is_latest_admitted(recs, req, j),
    ensures
        i == j,
{
    if i < j {
        assert(version_lt(recs[j].version, recs[i].version));
        assert(!version_lt(recs[j].version, recs[i].version));
    } else if j < i {
        assert(version_lt(recs[i].version, recs[j].version));
        assert(!version_lt(recs[i].version, recs[j].version));
    }
}

/// The version record that package `k` resolves to: the newest record of
/// its catalog entry that its declared requirement admits. `None` when the
/// catalog or the requirements lack the package, or nothing is admitted.
pub open spec fn resolved(entries: Seq<EntryView>, reqs: Seq<RequirementView>, k: (Seq<char>, Seq<char>)) -> Option<
    VersionRecordView,
> {
    match (lookup(entries, k), req_lookup(reqs, k)) {
        (Some(e), Some(q)) => if exists|i: int| is_latest_admitted(e.versions, q, i) {
            Some(e.versions[choose|i: int| is_latest_admitted(e.versions, q, i)])
        } else {
            None
        },
        _ => None,
    }
}

proof fn lemma_req_lookup_push(s: Seq<RequirementView>, e: RequirementView, k: (Seq<char>, Seq<char>))
    ensures
        req_lookup(s.push(e), k) == (if req_lookup(s, k) is Some {
            req_lookup(s, k)
        } else if e.0 == k {
            Some(e.1)
        } else {
            None
        }),
    decreases s.len(),
{
    if s.len() > 0 {
        assert(s.push(e)[0] == s[0]);
        assert(s.push(e).drop_first() == s.drop_first().push(e));
        lemma_req_lookup_push(s.drop_first(), e, k);
    } else {
        assert(s.push(e)[0] == e);
        assert(s.push(e).drop_first() == Seq::<RequirementView>::empty());
        assert(req_lookup(Seq::<RequirementView>::empty(), k) is None);
    }
}

proof fn lemma_req_lookup_found(s: Seq<RequirementView>, i: int)
    requires
        0 <= i < s.len(),
        forall|j: int| 0 <= j < i ==> s[j].0 != s[i].0,
    ensures
        req_lookup(s, s[i].0) == Some(s[i].1),
    decreases i,
{
    if i > 0 {
        assert forall|j: int| 0 <= j < i - 1 implies (#[trigger] s.drop_first()[j]).0 != s.drop_first()[i
            - 1].0 by {
            assert(s.drop_first()[j] == s[j + 1]);
        }
        lemma_req_lookup_found(s.drop_first(), i - 1);
    }
}

proof fn lemma_req_lookup_absent(s: Seq<RequirementView>, k: (Seq<char>, Seq<char>))
    requires
        forall|j: int| 0 <= j < s.len() ==> s[j].0 != k,
    ensures
        req_lookup(s, k) is None,
    decreases s.len(),
{
    if s.len() > 0 {
        assert forall|j: int| 0 <= j < s.len() - 1 implies (#[trigger] s.drop_first()[j]).0 != k by {
            assert(s.drop_first()[j] == s[j + 1]);
        }
        lemma_req_lookup_absent(s.drop_first(), k);
    }
}

proof fn lemma_last_req_prepend(s: Seq<(Seq<char>, Seq<char>)>, i: int, k: (Seq<char>, Seq<char>))
    requires
        0 <= i < s.len(),
    ensures
        last_req(s.subrange(i, s.len() as int), k) == (if last_req(
            s.subrange(i + 1, s.len() as int),
            k,
        ) is Some {
            last_req(s.subrange(i + 1, s.len() as int), k)
        } else if text_key(s[i].0) == k {
            Some(s[i].1)
        } else {
            None
        }),
    decreases s.len(),
{
    if i + 1 == s.len() {
        assert(s.subrange(i, s.len() as int).drop_last() == Seq::<(Seq<char>, Seq<char>)>::empty());
        assert(s.subrange(i + 1, s.len() as int) == Seq::<(Seq<char>, Seq<char>)>::empty());
    } else {
        lemma_last_req_prepend(s.drop_last(), i, k);
        assert(s.subrange(i, s.len() as int).drop_last() == s.drop_last().subrange(
            i,
            s.drop_last().len() as int,
        ));
        assert(s.subrange(i + 1, s.len() as int).drop_last() == s.drop_last().subrange(
            i + 1,
            s.drop_last().len() as int,
        ));
    }
}

/// Declared version requirements, at most one per package.
pub struct Requirements {
    decls: Vec<(NamespacedPackage, String)>,
}

impl Requirements {
    /// At most one declaration per package.
    #[verifier::type_invariant]
    spec fn decls_unique(self) -> bool {
        unique_decls(decl_views(self.decls@))
    }
}

impl View for Requirements {
    type V = Seq<RequirementView>;

    closed spec fn view(&self) -> Seq<RequirementView> {
        decl_views(self.decls@)
    }
}

impl Default for Requirements {
    fn default() -> (r: Requirements)
        ensures
            r@ == Seq::<RequirementView>::empty(),
    {
        Requirements::new()
    }
}

impl Requirements {
    /// No requirement at all.
    pub fn new() -> (r: Requirements)
        ensures
            r@ == Seq::<RequirementView>::empty(),
    {
        let r = Requirements { decls: Vec::new() };
        assert(r@ =~= Seq::<RequirementView>::empty());
        r
    }

    /// Builds the set from the pairs of a requirements document, (key text,
    /// requirement text). A document with a key that names no package, or a
    /// requirement that does not parse, gives the empty set. Where a package
    /// is declared twice, the later declaration stands.
    pub fn from_pairs(pairs: Vec<(String, String)>) -> (r: Requirements)
        ensures
            unique_decls(r@),
            !well_formed_document(pair_views(pairs@)) ==> r@ == Seq::<RequirementView>::empty(),
            well_formed_document(pair_views(pairs@)) ==> forall|k: (Seq<char>, Seq<char>)| #[trigger]
                req_lookup(r@, k) == last_req(pair_views(pairs@), k),
    {
        let ghost orig = pair_views(pairs@);
        let mut rest = pairs;
        let mut out: Vec<(NamespacedPackage, String)> = Vec::new();
        assert(decl_views(out@) =~= Seq::<RequirementView>::empty());
        while rest.len() > 0
            invariant
                rest.len() <= orig.len(),
                orig == pair_views(pairs@),
                pair_views(rest@) == orig.subrange(0, rest.len() as int),
                unique_decls(decl_views(out@)),
                forall|i: int| rest.len() <= i < orig.len() ==> is_key_text(#[trigger] orig[i].0) && requirement_valid(orig[i].1),
                forall|k: (Seq<char>, Seq<char>)| #[trigger]
                    req_lookup(decl_views(out@), k) == last_req(
                        orig.subrange(rest.len() as int, orig.len() as int),
                        k,
                    ),
            decreases rest.len(),
        {
            let ghost n = rest.len();
            let ghost old_rest = rest@;
            let (key_text, req_text) = rest.pop().unwrap();
            assert(pair_views(old_rest)[n - 1] == (old_rest[n - 1].0@, old_rest[n - 1].1@));
            assert(pair_views(rest@) =~= orig.subrange(0, n - 1));
            assert(orig[n - 1] == (key_text@, req_text@));
            let key = match NamespacedPackage::value_parser(key_text.as_str()) {
                Ok(k) => k,
                Err(_) => {
                    let r = Requirements::new();
                    assert(!is_key_text(orig[n - 1].0));
                    assert(!well_formed_document(orig));
                    return r;
                },
            };
            if !requirement_is_valid(req_text.as_str()) {
                let r = Requirements::new();
                assert(!well_formed_document(orig)) by {
                    let last = n - 1;
                    assert(0 <= last < orig.len());
                    assert(!requirement_valid(orig[last].1));
                    assert(well_formed_document(orig) ==> is_key_text(orig[last].0));
                    assert(well_formed_document(orig) ==> requirement_valid(orig[last].1));
                }
                return r;
            }
            proof {
                crate::package_key::lemma_key_text_parts(key_text@, key@.0, key@.1);
                assert(key@ == text_key(orig[n - 1].0));
            }
            let ghost before = decl_views(out@);
            let mut found = false;
            let mut j: usize = 0;
            while j < out.len() && !found
                invariant
                    j <= out.len(),
                    decl_views(out@) == before,
                    !found ==> forall|m: int| 0 <= m < j ==> before[m].0 != key@,
                    found ==> req_lookup(before, key@) is Some,
                decreases out.len() - j + if found { 0int } else { 1int },
            {
                assert(before[j as int] == (out@[j as int].0@, out@[j as int].1@));
                if out[j].0 == key {
                    proof {
                        lemma_req_lookup_found(before, j as int);
                    }
                    found = true;
                } else {
                    j = j + 1;
                }
            }
            proof {
                assert forall|k: (Seq<char>, Seq<char>)|
                    k != key@ implies last_req(orig.subrange(n - 1, orig.len() as int), k)
                    == last_req(orig.subrange(n as int, orig.len() as int), k) by {
                    lemma_last_req_prepend(orig, n - 1, k);
                }
                if !found {
                    lemma_req_lookup_absent(before, key@);
                }
            }
            let ghost entry = (key@, req_text@);
            if !found {
                out.push((key, req_text));
                proof {
                    assert(decl_views(out@) =~= before.push(entry));
                    assert forall|k: (Seq<char>, Seq<char>)| #[trigger]
                        req_lookup(decl_views(out@), k) == last_req(
                            orig.subrange(n - 1, orig.len() as int),
                            k,
                        ) by {
                        lemma_req_lookup_push(before, entry, k);
                        lemma_last_req_prepend(orig, n - 1, k);
                    }
                }
            } else {
                proof {
                    assert forall|k: (Seq<char>, Seq<char>)| #[trigger]
                        req_lookup(decl_views(out@), k) == last_req(
                            orig.subrange(n - 1, orig.len() as int),
                            k,
                        ) by {
                        lemma_last_req_prepend(orig, n - 1, k);
                    }
                }
            }
        }
        assert(orig.subrange(0, orig.len() as int) == orig);
        Requirements { decls: out }
    }

    /// The requirement text declared for `package`.
    pub fn requirement_for(&self, package: &NamespacedPackage) -> (r: Option<&String>)
        ensures
            r is None <==> req_lookup(self@, package@) is None,
            r matches Some(q) ==> req_lookup(self@, package@) == Some(q@),
            unique_decls(self@),
    {
        proof {
            use_type_invariant(self);
        }
        let mut i: usize = 0;
        while i < self.decls.len()
            invariant
                i <= self.decls.len(),
                unique_decls(self@),
                forall|m: int| 0 <= m < i ==> self@[m].0 != package@,
            decreases self.decls.len() - i,
        {
            assert(self@[i as int] == (self.decls@[i as int].0@, self.decls@[i as int].1@));
            if self.decls[i].0 == *package {
                proof {
                    lemma_req_lookup_found(self@, i as int);
                }
                return Some(&self.decls[i].1);
            }
            i = i + 1;
        }
        proof {
            lemma_req_lookup_absent(self@, package@);
        }
        None
    }

    /// The newest version of `for_mod` in `packages` that its declared
    /// requirement admits. `None` when the catalog has no such package, when no
    /// requirement is declared for it, or when no version is admitted.
    pub fn get_latest_version<'a>(
        &self,
        packages: &'a Catalog,
        for_mod: &NamespacedPackage,
    ) -> (r: Option<&'a VersionRecord>)
        ensures
            lookup(packages@, for_mod@) is None ==> r is None,
            req_lookup(self@, for_mod@) is None ==> r is None,
            r is None <==> match (lookup(packages@, for_mod@), req_lookup(self@, for_mod@)) {
                (Some(e), Some(q)) => none_admitted(e.versions, q),
                _ => true,
            },
            r is None <==> resolved(packages@, self@, for_mod@) is None,
            r matches Some(v) ==> resolved(packages@, self@, for_mod@) == Some(v@),
    {
        let entry = match packages.get(for_mod) {
            Some(e) => e,
            None => return None,
        };
        let req = match self.requirement_for(for_mod) {
            Some(q) => q,
            None => return None,
        };
        let ghost recs = entry@.versions;
        let mut best: Option<usize> = None;
        let mut i: usize = 0;
        while i < entry.versions.len()
            invariant
                i <= entry.versions.len(),
                recs == entry@.versions,
                recs.len() == entry.versions.len(),
                forall|m: int| 0 <= m < recs.len() ==> #[trigger] recs[m] == entry.versions@[m]@,
                best is None ==> forall|j: int| 0 <= j < i ==> !admits(req@, #[trigger] recs[j].version),
                best matches Some(b) ==> b < i && admits(req@, recs[b as int].version) && forall|j: int|
                    0 <= j < i && admits(req@, #[trigger] recs[j].version) ==> !version_lt(
                        recs[b as int].version,
                        recs[j].version,
                    ) && (j > b ==> version_lt(recs[j].version, recs[b as int].version)),
            decreases entry.versions.len() - i,
        {
            let v = &entry.versions[i];
            assert(recs[i as int] == v@);
            if requirement_admits(req.as_str(), &v.version) {
                match best {
                    None => {
                        best = Some(i);
                    },
                    Some(b) => {
                        if !v.version.is_older_than(&entry.versions[b].version) {
                            assert(recs[b as int] == entry.versions@[b as int]@);
                            best = Some(i);
                        }
                    },
                }
            }
            i = i + 1;
        }
        match best {
            None => {
                assert(!exists|k: int| is_latest_admitted(recs, req@, k));
                None
            },
            Some(b) => {
                let v = &entry.versions[b];
                proof {
                    assert(recs[b as int] == v@);
                    assert(is_latest_admitted(recs, req@, b as int));
                    assert(lookup(packages@, for_mod@) == Some(entry@));
                    assert(req_lookup(self@, for_mod@) == Some(req@));
                    assert(is_latest_admitted(entry@.versions, req@, b as int) && v@ == entry@.versions[b as int]);
                    let c = choose|k: int| is_latest_admitted(recs, req@, k);
                    lemma_latest_unique(recs, req@, b as int, c);
                }
                Some(v)
            },
        }
    }
}

} // verus!
