//! Namespaced package identities and their canonical `namespace/name` text.
use vstd::prelude::*;
use vstd::string::*;

verus! {

/// No character of `s` is a `/`.
pub open spec fn no_slash(s: Seq<char>) -> bool {
    forall|i: int| 0 <= i < s.len() ==> s[i] != '/'
}

/// Number of `/` characters in `s`.
pub open spec fn slash_count(s: Seq<char>) -> nat
    decreases s.len(),
{
    if s.len() == 0 {
        0
    } else {
        slash_count(s.drop_last()) + if s.last() == '/' { 1nat } else { 0nat }
    }
}

/// Canonical text of a (namespace, name) pair.
pub open spec fn key_text(namespace: Seq<char>, name: Seq<char>) -> Seq<char> {
    namespace + seq!['/'] + name
}

/// `t` is the canonical text of (`namespace`, `name`), both segments non-empty
/// and free of `/`.
pub open spec fn splits_as(t: Seq<char>, namespace: Seq<char>, name: Seq<char>) -> bool {
    &&& namespace.len() > 0
    &&& name.len() > 0
    &&& no_slash(namespace)
    &&& no_slash(name)
    &&& t == key_text(namespace, name)
}

/// `t` holds exactly one `/`, with a non-empty segment on each side.
pub open spec fn is_key_text(t: Seq<char>) -> bool {
    &&& slash_count(t) == 1
    &&& t.len() > 0
    &&& t[0] != '/'
    &&& t.last() != '/'
}

proof fn lemma_slash_count_concat(a: Seq<char>, b: Seq<char>)
    ensures
        slash_count(a + b) == slash_count(a) + slash_count(b),
    decreases b.len(),
{
    if b.len() > 0 {
        lemma_slash_count_concat(a, b.drop_last());
        assert((a + b).drop_last() == a + b.drop_last());
    } else {
        assert(a + b == a);
    }
}

proof fn lemma_no_slash_count(s: Seq<char>)
    ensures
        no_slash(s) <==> slash_count(s) == 0,
    decreases s.len(),
{
    if s.len() > 0 {
        lemma_no_slash_count(s.drop_last());
        if slash_count(s) == 0 {
            assert forall|i: int| 0 <= i < s.len() implies s[i] != '/' by {
                if i < s.len() - 1 {
                    assert(s.drop_last()[i] == s[i]);
                }
            }
        }
        if no_slash(s) {
            assert(no_slash(s.drop_last()));
        }
    }
}

/// Splits a text around its one `/` at `first`.
proof fn lemma_one_slash_split(t: Seq<char>, first: int)
    requires
        0 <= first < t.len(),
        t[first] == '/',
        slash_count(t) == 1,
    ensures
        no_slash(t.subrange(0, first)),
        no_slash(t.subrange(first + 1, t.len() as int)),
        t == key_text(t.subrange(0, first), t.subrange(first + 1, t.len() as int)),
{
    let a = t.subrange(0, first);
    let b = t.subrange(first + 1, t.len() as int);
    assert(t == key_text(a, b));
    lemma_slash_count_concat(a + seq!['/'], b);
    lemma_slash_count_concat(a, seq!['/']);
    assert(seq!['/'].drop_last() == Seq::<char>::empty());
    assert(slash_count(Seq::<char>::empty()) == 0);
    assert(slash_count(seq!['/']) == 1);
    lemma_no_slash_count(a);
    lemma_no_slash_count(b);
}

/// The text form of a package identity: a text names a package exactly when
/// it holds one `/` with non-empty text on both sides, and then the two parts
/// are determined by the text.
pub proof fn lemma_key_text_parts(t: Seq<char>, namespace: Seq<char>, name: Seq<char>)
    ensures
        splits_as(t, namespace, name) ==> is_key_text(t),
        is_key_text(t) ==> splits_as(t, key_namespace(t), key_name(t)),
        splits_as(t, namespace, name) ==> namespace == key_namespace(t) && name == key_name(t),
{
    if splits_as(t, namespace, name) {
        lemma_no_slash_count(namespace);
        lemma_no_slash_count(name);
        lemma_slash_count_concat(namespace + seq!['/'], name);
        lemma_slash_count_concat(namespace, seq!['/']);
        assert(seq!['/'].drop_last() == Seq::<char>::empty());
        assert(slash_count(Seq::<char>::empty()) == 0);
        assert(slash_count(seq!['/']) == 1);
        assert(t[0] == namespace[0]);
        assert(t.last() == name.last());
        assert(t[namespace.len() as int] == '/');
        assert(t.subrange(0, namespace.len() as int) == namespace);
        lemma_first_slash_index(t, namespace.len() as int);
        assert(t.subrange(namespace.len() as int + 1, t.len() as int) == name);
    }
    if is_key_text(t) {
        let i = first_slash(t);
        lemma_first_slash_exists(t);
        lemma_one_slash_split(t, i);
    }
}

/// Index of the first `/` in `t` (its length when there is none).
pub open spec fn first_slash(t: Seq<char>) -> int
    decreases t.len(),
{
    if t.len() == 0 {
        0
    } else if t[0] == '/' {
        0
    } else {
        1 + first_slash(t.drop_first())
    }
}

/// Text before the first `/`.
pub open spec fn key_namespace(t: Seq<char>) -> Seq<char> {
    t.subrange(0, first_slash(t))
}

/// Text after the first `/`.
pub open spec fn key_name(t: Seq<char>) -> Seq<char> {
    t.subrange(first_slash(t) + 1, t.len() as int)
}

proof fn lemma_first_slash_index(t: Seq<char>, i: int)
    requires
        0 <= i < t.len(),
        t[i] == '/',
        no_slash(t.subrange(0, i)),
    ensures
        first_slash(t) == i,
    decreases i,
{
    if i > 0 {
        assert(t[0] == t.subrange(0, i)[0]);
        assert(t.drop_first().subrange(0, i - 1) =~= t.subrange(0, i).drop_first());
        lemma_first_slash_index(t.drop_first(), i - 1);
    }
}

proof fn lemma_first_slash_exists(t: Seq<char>)
    requires
        slash_count(t) > 0,
    ensures
        0 <= first_slash(t) < t.len(),
        t[first_slash(t)] == '/',
    decreases t.len(),
{
    if t[0] != '/' {
        lemma_slash_count_concat(seq![t[0]], t.drop_first());
        assert(seq![t[0]] + t.drop_first() == t);
        assert(seq![t[0]].drop_last() == Seq::<char>::empty());
        assert(slash_count(Seq::<char>::empty()) == 0);
        assert(slash_count(seq![t[0]]) == 0);
        lemma_first_slash_exists(t.drop_first());
    }
}

/// Identity of a package: a namespace (its owner) and a name.
///
/// Its text form is `"namespace/name"`, as used for the keys of the
/// requirements document.
#[derive(Hash, Debug, Clone)]
pub struct NamespacedPackage(String, String);

impl View for NamespacedPackage {
    type V = (Seq<char>, Seq<char>);

    closed spec fn view(&self) -> (Seq<char>, Seq<char>) {
        (self.0@, self.1@)
    }
}

impl PartialEq for NamespacedPackage {
    fn eq(&self, o: &NamespacedPackage) -> (r: bool)
        ensures
            r == (self@ == o@),
    {
        self.0 == o.0 && self.1 == o.1
    }
}

impl Eq for NamespacedPackage {

}

impl vstd::std_specs::cmp::PartialEqSpecImpl for NamespacedPackage {
    open spec fn obeys_eq_spec() -> bool {
        true
    }

    open spec fn eq_spec(&self, o: &NamespacedPackage) -> bool {
        self@ == o@
    }
}

impl NamespacedPackage {
    /// Parses `"namespace/name"`: exactly one `/`, with non-empty text on
    /// both sides. The error is a message fit for a command line.
    pub fn value_parser(value: &str) -> (r: Result<Self, String>)
        ensures
            r is Ok <==> is_key_text(value@),
            r matches Ok(k) ==> splits_as(value@, k@.0, k@.1),
    {
        let len = value.unicode_len();
        let mut slashes: usize = 0;
        let mut first: usize = 0;
        let mut i: usize = 0;
        while i < len
            invariant
                len == value@.len(),
                i <= len,
                slashes == slash_count(value@.subrange(0, i as int)),
                slashes <= i,
                slashes == 0 ==> no_slash(value@.subrange(0, i as int)),
                slashes > 0 ==> first < i && value@[first as int] == '/' && no_slash(
                    value@.subrange(0, first as int),
                ),
            decreases len - i,
        {
            let c = value.get_char(i);
            assert(value@.subrange(0, i + 1).drop_last() == value@.subrange(0, i as int));
            if c == '/' {
                if slashes == 0 {
                    first = i;
                }
                slashes = slashes + 1;
            }
            i = i + 1;
        }
        assert(value@.subrange(0, len as int) == value@);
        if slashes != 1 || first == 0 || first + 1 == len {
            return Err(String::from_str("expected a namespace and a name separated by one '/'"));
        }
        proof {
            lemma_one_slash_split(value@, first as int);
            assert(value@.subrange(0, first as int)[0] == value@[0]);
        }
        let namespace = value.substring_char(0, first);
        let name = value.substring_char(first + 1, len);
        assert(value@ == key_text(namespace@, name@));
        Ok(NamespacedPackage(String::from_str(namespace), String::from_str(name)))
    }

    /// A package identity from its two parts, taken as given.
    pub fn new(namespace: &str, name: &str) -> (r: Self)
        ensures
            r@ == (namespace@, name@),
    {
        NamespacedPackage(String::from_str(namespace), String::from_str(name))
    }

    /// The namespace of this package.
    pub fn namespace(&self) -> (r: &str)
        ensures
            r@ == self@.0,
    {
        self.0.as_str()
    }

    /// The name of this package.
    pub fn name(&self) -> (r: &str)
        ensures
            r@ == self@.1,
    {
        self.1.as_str()
    }

    /// This identity is (`namespace`, `name`).
    pub fn matches_parts(&self, namespace: &String, name: &String) -> (r: bool)
        ensures
            r == (self@ == (namespace@, name@)),
    {
        self.0 == *namespace && self.1 == *name
    }

    /// The canonical `"namespace/name"` text.
    pub fn to_text(&self) -> (r: String)
        ensures
            r@ == key_text(self@.0, self@.1),
    {
        let mut r = self.0.clone();
        r.append("/");
        r.append(self.1.as_str());
        proof {
            reveal_strlit("/");
        }
        assert(r@ == key_text(self@.0, self@.1));
        r
    }
}

} // verus!
