//! Identity value types: a resolved package and a feature of a package,
//! together with the ordering that makes report output deterministic.

use vstd::prelude::*;
use vstd::string::StrSliceExecFns;
use vstd::string::StringExecFns;

verus! {

/// Mathematical image of a [`PackageIdentity`]: its three fields as
/// character sequences.
pub struct PkgIdView {
    pub name: Seq<char>,
    pub version: Seq<char>,
    pub source: Seq<char>,
}

/// Identifies one resolved node of the dependency graph.  Two identities
/// denote the same node exactly when all three fields agree.
#[derive(Debug)]
pub struct PackageIdentity {
    pub name: String,
    pub version: String,
    pub source: String,
}

impl View for PackageIdentity {
    type V = PkgIdView;

    open spec fn view(&self) -> PkgIdView {
        PkgIdView { name: self.name@, version: self.version@, source: self.source@ }
    }
}

impl PartialEq for PackageIdentity {
    fn eq(&self, other: &Self) -> bool {
        self.name == other.name && self.version == other.version && self.source == other.source
    }
}

impl vstd::std_specs::cmp::PartialEqSpecImpl for PackageIdentity {
    open spec fn obeys_eq_spec() -> bool {
        true
    }

    open spec fn eq_spec(&self, other: &Self) -> bool {
        self@ == other@
    }
}

impl Clone for PackageIdentity {
    fn clone(&self) -> (r: Self)
        ensures
            r == *self,
    {
        PackageIdentity {
            name: self.name.clone(),
            version: self.version.clone(),
            source: self.source.clone(),
        }
    }
}

/// Mathematical image of a [`Feature`].
pub struct FeatureView {
    pub parent_crate: Seq<char>,
    pub version: Seq<char>,
    pub name: Seq<char>,
}

/// One feature of one package: the unit of attribution in the report.
/// Equality and ordering go by (owning package name, owning package version,
/// feature name); the owning package's source does not take part, so the
/// report groups features of equally named and versioned packages together.
#[derive(Debug)]
pub struct Feature {
    pub parent_crate: String,
    pub version: String,
    pub name: String,
}

impl View for Feature {
    type V = FeatureView;

    open spec fn view(&self) -> FeatureView {
        FeatureView {
            parent_crate: self.parent_crate@,
            version: self.version@,
            name: self.name@,
        }
    }
}

impl PartialEq for Feature {
    fn eq(&self, other: &Self) -> bool {
        self.parent_crate == other.parent_crate && self.version == other.version
            && self.name == other.name
    }
}

impl vstd::std_specs::cmp::PartialEqSpecImpl for Feature {
    open spec fn obeys_eq_spec() -> bool {
        true
    }

    open spec fn eq_spec(&self, other: &Self) -> bool {
        self@ == other@
    }
}

impl Clone for Feature {
    fn clone(&self) -> (r: Self)
        ensures
            r == *self,
    {
        Feature {
            parent_crate: self.parent_crate.clone(),
            version: self.version.clone(),
            name: self.name.clone(),
        }
    }
}

/// Strict lexicographic order on character sequences, by code point.
pub open spec fn chars_lt(a: Seq<char>, b: Seq<char>) -> bool
    decreases a.len(),
{
    if b.len() == 0 {
        false
    } else if a.len() == 0 {
        true
    } else if a[0] == b[0] {
        chars_lt(a.drop_first(), b.drop_first())
    } else {
        (a[0] as u32) < (b[0] as u32)
    }
}

/// Strict order on features: lexicographic by owning package name, then
/// owning package version, then feature name.
pub open spec fn feat_lt(a: FeatureView, b: FeatureView) -> bool {
    ||| chars_lt(a.parent_crate, b.parent_crate)
    ||| (a.parent_crate == b.parent_crate && chars_lt(a.version, b.version))
    ||| (a.parent_crate == b.parent_crate && a.version == b.version && chars_lt(a.name, b.name))
}

/// Any two character sequences are ordered or equal.
pub proof fn lemma_chars_lt_trichotomy(a: Seq<char>, b: Seq<char>)
    ensures
        chars_lt(a, b) || chars_lt(b, a) || a == b,
    decreases a.len(),
{
    if a.len() == 0 && b.len() == 0 {
        assert(a =~= b);
    } else if a.len() > 0 && b.len() > 0 && a[0] == b[0] {
        lemma_chars_lt_trichotomy(a.drop_first(), b.drop_first());
        if a.drop_first() == b.drop_first() {
            assert(a.drop_first().len() == b.drop_first().len());
            assert(a.len() == b.len());
            assert forall|k: int| 0 <= k < a.len() implies a[k] == b[k] by {
                if k > 0 {
                    assert(a.drop_first()[k - 1] == b.drop_first()[k - 1]);
                    assert(a.drop_first()[k - 1] == a[k]);
                    assert(b.drop_first()[k - 1] == b[k]);
                }
            }
            assert(a =~= b);
        }
    } else if a.len() > 0 && b.len() > 0 {
        vstd::utf8::char_u32_cast(a[0], a[0] as u32);
        vstd::utf8::char_u32_cast(b[0], b[0] as u32);
    }
}

/// No character sequence is below itself.
pub proof fn lemma_chars_lt_irreflexive(a: Seq<char>)
    ensures
        !chars_lt(a, a),
    decreases a.len(),
{
    if a.len() > 0 {
        lemma_chars_lt_irreflexive(a.drop_first());
    }
}

/// The order on character sequences is irreflexive and asymmetric.
pub proof fn lemma_chars_lt_asymmetric(a: Seq<char>, b: Seq<char>)
    requires
        chars_lt(a, b),
    ensures
        !chars_lt(b, a),
        a != b,
    decreases a.len(),
{
    if a.len() > 0 && b.len() > 0 && a[0] == b[0] {
        lemma_chars_lt_asymmetric(a.drop_first(), b.drop_first());
        assert(a != b) by {
            if a == b {
                assert(a.drop_first() == b.drop_first());
            }
        }
    } else if a.len() > 0 && b.len() > 0 {
        assert((a[0] as u32) < (b[0] as u32));
    }
}

/// The order on character sequences is transitive.
pub proof fn lemma_chars_lt_transitive(a: Seq<char>, b: Seq<char>, c: Seq<char>)
    requires
        chars_lt(a, b),
        chars_lt(b, c),
    ensures
        chars_lt(a, c),
    decreases a.len(),
{
    if a.len() > 0 && b.len() > 0 && c.len() > 0 {
        if a[0] == b[0] && b[0] == c[0] {
            lemma_chars_lt_transitive(a.drop_first(), b.drop_first(), c.drop_first());
        }
    }
}

/// Any two feature views are ordered or equal.
pub proof fn lemma_feat_lt_trichotomy(a: FeatureView, b: FeatureView)
    ensures
        feat_lt(a, b) || feat_lt(b, a) || a == b,
{
    lemma_chars_lt_trichotomy(a.parent_crate, b.parent_crate);
    lemma_chars_lt_trichotomy(a.version, b.version);
    lemma_chars_lt_trichotomy(a.name, b.name);
}

/// The order on features is irreflexive and asymmetric.
pub proof fn lemma_feat_lt_asymmetric(a: FeatureView, b: FeatureView)
    requires
        feat_lt(a, b),
    ensures
        !feat_lt(b, a),
        a != b,
{
    if chars_lt(a.parent_crate, b.parent_crate) {
        lemma_chars_lt_asymmetric(a.parent_crate, b.parent_crate);
    } else if a.parent_crate == b.parent_crate && chars_lt(a.version, b.version) {
        lemma_chars_lt_asymmetric(a.version, b.version);
    } else {
        lemma_chars_lt_asymmetric(a.name, b.name);
    }
}

/// No feature view is below itself.
pub proof fn lemma_feat_lt_irreflexive(a: FeatureView)
    ensures
        !feat_lt(a, a),
{
    lemma_chars_lt_irreflexive(a.parent_crate);
    lemma_chars_lt_irreflexive(a.version);
    lemma_chars_lt_irreflexive(a.name);
}

/// The order on features is transitive.
pub proof fn lemma_feat_lt_transitive(a: FeatureView, b: FeatureView, c: FeatureView)
    requires
        feat_lt(a, b),
        feat_lt(b, c),
    ensures
        feat_lt(a, c),
{
    if chars_lt(a.parent_crate, b.parent_crate) {
        if chars_lt(b.parent_crate, c.parent_crate) {
            lemma_chars_lt_transitive(a.parent_crate, b.parent_crate, c.parent_crate);
        }
    } else if chars_lt(a.version, b.version) {
        if chars_lt(b.version, c.version) {
            lemma_chars_lt_transitive(a.version, b.version, c.version);
        }
    } else {
        if chars_lt(a.name, b.name) && chars_lt(b.name, c.name) {
            lemma_chars_lt_transitive(a.name, b.name, c.name);
        }
    }
}

/// If the first `i` characters of `a` and `b` agree, the comparison of `a`
/// and `b` is decided by their tails from `i` on.
proof fn lemma_chars_lt_skip(a: Seq<char>, b: Seq<char>, i: int)
    requires
        0 <= i <= a.len(),
        i <= b.len(),
        forall|j: int| 0 <= j < i ==> a[j] == b[j],
    ensures
        chars_lt(a, b) == chars_lt(a.skip(i), b.skip(i)),
    decreases i,
{
    if i == 0 {
        assert(a.skip(0) =~= a);
        assert(b.skip(0) =~= b);
    } else {
        lemma_chars_lt_skip(a.drop_first(), b.drop_first(), i - 1);
        assert(a.drop_first().skip(i - 1) =~= a.skip(i));
        assert(b.drop_first().skip(i - 1) =~= b.skip(i));
    }
}

/// Decides the lexicographic order of two strings.
pub fn string_lt(a: &String, b: &String) -> (r: bool)
    ensures
        r == chars_lt(a@, b@),
{
    let sa = a.as_str();
    let sb = b.as_str();
    let la = sa.unicode_len();
    let lb = sb.unicode_len();
    let mut i: usize = 0;
    while i < la && i < lb
        invariant
            i <= la,
            i <= lb,
            la == a@.len(),
            lb == b@.len(),
            sa@ == a@,
            sb@ == b@,
            forall|j: int| 0 <= j < i ==> a@[j] == b@[j],
        decreases la - i,
    {
        let ca = sa.get_char(i);
        let cb = sb.get_char(i);
        if ca != cb {
            proof {
                lemma_chars_lt_skip(a@, b@, i as int);
                assert(a@.skip(i as int)[0] == ca);
                assert(b@.skip(i as int)[0] == cb);
            }
            return (ca as u32) < (cb as u32);
        }
        i += 1;
    }
    proof {
        lemma_chars_lt_skip(a@, b@, i as int);
    }
    i < lb
}

/// Decides the report order of two features.
pub fn feature_lt(a: &Feature, b: &Feature) -> (r: bool)
    ensures
        r == feat_lt(a@, b@),
{
    proof {
        lemma_chars_lt_irreflexive(a.parent_crate@);
        lemma_chars_lt_irreflexive(a.version@);
    }
    if a.parent_crate == b.parent_crate {
        if a.version == b.version {
            string_lt(&a.name, &b.name)
        } else {
            string_lt(&a.version, &b.version)
        }
    } else {
        string_lt(&a.parent_crate, &b.parent_crate)
    }
}

impl Feature {
    /// The rendered form of a feature, `"<name>-<version>/<feature>"`.
    pub open spec fn spec_render(self) -> Seq<char> {
        self.parent_crate@ + seq!['-'] + self.version@ + seq!['/'] + self.name@
    }

    /// Renders the feature as `"<name>-<version>/<feature>"`, the stable
    /// shape other tooling may parse.
    pub fn render(&self) -> (r: String)
        ensures
            r@ == self.spec_render(),
    {
        proof {
            reveal_strlit("-");
            reveal_strlit("/");
        }
        let mut s = self.parent_crate.clone();
        s.append("-");
        s.append(self.version.as_str());
        s.append("/");
        s.append(self.name.as_str());
        proof {
            assert(s@ =~= self.spec_render());
        }
        s
    }
}

} // verus!
