//! Laws of the aggregation: properties that hold of every report the
//! aggregator can return, proved once and for all from the aggregator's
//! contract.

use vstd::prelude::*;

use crate::aggregate::attribution_count;
use crate::aggregate::edge_enables;
use crate::aggregate::feature_declared;
use crate::aggregate::feature_disabled;
use crate::aggregate::feature_enabled;
use crate::aggregate::feature_enabler;
use crate::aggregate::is_dep_target;
use crate::aggregate::reachable;
use crate::aggregate::report_matches;
use crate::graph::ResolvedGraph;
use crate::identity::Feature;
use crate::identity::FeatureView;
use crate::identity::PkgIdView;
use crate::identity::feat_lt;
use crate::identity::lemma_feat_lt_asymmetric;
use crate::report::Report;
use crate::report::entry_names;
use crate::report::has_feat;
use crate::report::has_key;
use crate::report::lemma_occurrences_count;
use crate::report::occurrences;
use crate::report::sorted_feats;

verus! {

/// Completeness: every feature name that a reachable dependency target
/// declares is reported exactly once — as an enabled key or as a disabled
/// entry, never both and never neither.
pub proof fn lemma_report_completeness(
    g: ResolvedGraph,
    root: PkgIdView,
    rep: Report,
    d: PkgIdView,
    n: Seq<char>,
)
    requires
        report_matches(g, root, rep),
        is_dep_target(g, root, d),
        g.has_pkg(d),
        g.declared_of(d).contains(n),
    ensures
        rep.has_enabled(FeatureView { parent_crate: d.name, version: d.version, name: n })
            != rep.has_disabled(FeatureView { parent_crate: d.name, version: d.version, name: n }),
{
    let f = FeatureView { parent_crate: d.name, version: d.version, name: n };
    assert(feature_declared(g, root, f));
    if !feature_enabled(g, root, f) {
        assert(feature_disabled(g, root, f));
    }
}

/// Attribution correctness: when two reachable packages both depend on
/// `c`, and `c` activates feature `x`, the report's enabler list for that
/// feature carries both parents' names — sharing a dependency loses no
/// attribution.
pub proof fn lemma_attribution_both_parents(
    g: ResolvedGraph,
    root: PkgIdView,
    rep: Report,
    a: PkgIdView,
    b: PkgIdView,
    c: PkgIdView,
    x: Seq<char>,
)
    requires
        report_matches(g, root, rep),
        reachable(g, root, a),
        g.has_pkg(a),
        g.deps_of(a).contains(c),
        reachable(g, root, b),
        g.has_pkg(b),
        g.deps_of(b).contains(c),
        g.has_pkg(c),
        g.activated_of(c).contains(x),
    ensures
        rep.enabler_listed(
            FeatureView { parent_crate: c.name, version: c.version, name: x },
            a.name,
        ),
        rep.enabler_listed(
            FeatureView { parent_crate: c.name, version: c.version, name: x },
            b.name,
        ),
{
    let f = FeatureView { parent_crate: c.name, version: c.version, name: x };
    assert(edge_enables(g, a, f));
    assert(feature_enabler(g, root, f, a.name));
    assert(edge_enables(g, b, f));
    assert(feature_enabler(g, root, f, b.name));
}

/// Disabled correctness: when a dependency target `c` declares both `x`
/// and `y`, `x` is activated for `c`, and no known package of `c`'s name
/// and version activates `y`, then the report enables `x` and not `y`,
/// and disables `y` and not `x`.
pub proof fn lemma_disabled_correct(
    g: ResolvedGraph,
    root: PkgIdView,
    rep: Report,
    c: PkgIdView,
    x: Seq<char>,
    y: Seq<char>,
)
    requires
        report_matches(g, root, rep),
        is_dep_target(g, root, c),
        g.has_pkg(c),
        g.declared_of(c).contains(x),
        g.declared_of(c).contains(y),
        g.activated_of(c).contains(x),
        forall|d: PkgIdView|
            #![trigger g.activated_of(d)]
            g.has_pkg(d) && d.name == c.name && d.version == c.version ==> !g.activated_of(
                d,
            ).contains(y),
    ensures
        rep.has_enabled(FeatureView { parent_crate: c.name, version: c.version, name: x }),
        !rep.has_disabled(FeatureView { parent_crate: c.name, version: c.version, name: x }),
        rep.has_disabled(FeatureView { parent_crate: c.name, version: c.version, name: y }),
        !rep.has_enabled(FeatureView { parent_crate: c.name, version: c.version, name: y }),
{
    let fx = FeatureView { parent_crate: c.name, version: c.version, name: x };
    let fy = FeatureView { parent_crate: c.name, version: c.version, name: y };
    let p = choose|p: PkgIdView|
        reachable(g, root, p) && g.has_pkg(p) && #[trigger] g.deps_of(p).contains(c);
    assert(edge_enables(g, p, fx));
    assert(feature_enabled(g, root, fx));
    assert(!feature_enabled(g, root, fy)) by {
        if feature_enabled(g, root, fy) {
            let q = choose|q: PkgIdView|
                #[trigger] reachable(g, root, q) && g.has_pkg(q) && edge_enables(g, q, fy);
            let dd = choose|dd: PkgIdView|
                #[trigger] g.deps_of(q).contains(dd) && dd.name == fy.parent_crate && dd.version
                    == fy.version && g.has_pkg(dd) && g.activated_of(dd).contains(fy.name);
            assert(!g.activated_of(dd).contains(y));
        }
    }
    assert(feature_declared(g, root, fy));
    assert(feature_disabled(g, root, fy));
    assert(!feature_disabled(g, root, fx));
}

/// The views of a feature list.
pub open spec fn feat_views(fs: Seq<Feature>) -> Seq<FeatureView> {
    fs.map_values(|f: Feature| f@)
}

/// The keys of an enabled-feature entry list.
pub open spec fn keys_of(entries: Seq<(Feature, Vec<String>)>) -> Seq<Feature> {
    entries.map_values(|e: (Feature, Vec<String>)| e.0)
}

/// Two strictly ascending feature lists with the same members are the
/// same list of feature views.
pub proof fn lemma_sorted_feats_unique(a: Seq<Feature>, b: Seq<Feature>)
    requires
        sorted_feats(a),
        sorted_feats(b),
        forall|f: FeatureView| #[trigger] has_feat(a, f) <==> has_feat(b, f),
    ensures
        feat_views(a) == feat_views(b),
    decreases a.len(),
{
    if a.len() == 0 {
        if b.len() > 0 {
            assert(has_feat(b, b[0]@));
            assert(has_feat(a, b[0]@));
            let i = choose|i: int| 0 <= i < a.len() && a[i]@ == b[0]@;
            assert(false);
        }
        assert(feat_views(a) =~= feat_views(b));
    } else if b.len() == 0 {
        assert(has_feat(a, a[0]@));
        assert(has_feat(b, a[0]@));
        let i = choose|i: int| 0 <= i < b.len() && b[i]@ == a[0]@;
        assert(false);
    } else {
        assert(a[0]@ == b[0]@) by {
            assert(has_feat(a, a[0]@));
            assert(has_feat(b, a[0]@));
            let k = choose|k: int| 0 <= k < b.len() && b[k]@ == a[0]@;
            assert(has_feat(b, b[0]@));
            assert(has_feat(a, b[0]@));
            let m = choose|m: int| 0 <= m < a.len() && a[m]@ == b[0]@;
            if a[0]@ != b[0]@ {
                assert(k > 0 && m > 0);
                assert(feat_lt(b[0]@, b[k]@));
                assert(feat_lt(b[0]@, a[0]@));
                assert(feat_lt(a[0]@, a[m]@));
                assert(feat_lt(a[0]@, b[0]@));
                lemma_feat_lt_asymmetric(a[0]@, b[0]@);
            }
        }
        let ta = a.drop_first();
        let tb = b.drop_first();
        assert(sorted_feats(ta)) by {
            assert forall|i: int, j: int|
                0 <= i < j < ta.len() implies feat_lt(ta[i]@, ta[j]@) by {
                assert(ta[i] == a[i + 1]);
                assert(ta[j] == a[j + 1]);
            }
        }
        assert(sorted_feats(tb)) by {
            assert forall|i: int, j: int|
                0 <= i < j < tb.len() implies feat_lt(tb[i]@, tb[j]@) by {
                assert(tb[i] == b[i + 1]);
                assert(tb[j] == b[j + 1]);
            }
        }
        assert forall|f: FeatureView| #[trigger] has_feat(ta, f) <==> has_feat(tb, f) by {
            lemma_tail_membership(a, f);
            lemma_tail_membership(b, f);
        }
        lemma_sorted_feats_unique(ta, tb);
        assert(feat_views(ta).len() == feat_views(tb).len());
        assert(a.len() == b.len());
        assert(feat_views(a) =~= feat_views(b)) by {
            assert forall|i: int| 0 <= i < a.len() implies feat_views(a)[i] == feat_views(b)[i] by {
                if i > 0 {
                    assert(feat_views(ta)[i - 1] == feat_views(tb)[i - 1]);
                    assert(ta[i - 1] == a[i]);
                    assert(tb[i - 1] == b[i]);
                }
            }
        }
    }
}

/// Membership in the tail of a strictly ascending list is membership in
/// the list at some position past the head.
proof fn lemma_tail_membership(a: Seq<Feature>, f: FeatureView)
    requires
        sorted_feats(a),
        a.len() > 0,
    ensures
        has_feat(a.drop_first(), f) <==> has_feat(a, f) && f != a[0]@,
{
    let ta = a.drop_first();
    if has_feat(ta, f) {
        let i = choose|i: int| 0 <= i < ta.len() && ta[i]@ == f;
        assert(a[i + 1]@ == f);
        assert(feat_lt(a[0]@, a[i + 1]@));
        lemma_feat_lt_asymmetric(a[0]@, a[i + 1]@);
    }
    if has_feat(a, f) && f != a[0]@ {
        let i = choose|i: int| 0 <= i < a.len() && a[i]@ == f;
        assert(ta[i - 1]@ == f);
    }
}

/// Idempotence: any two reports that are outcomes of analysing the same
/// graph from the same root agree structurally — the same enabled key
/// sequence, for every feature the same multiset of enabler names, and
/// the same disabled sequence.
pub proof fn lemma_aggregate_deterministic(
    g: ResolvedGraph,
    root: PkgIdView,
    r1: Report,
    r2: Report,
)
    requires
        report_matches(g, root, r1),
        report_matches(g, root, r2),
    ensures
        forall|f: FeatureView| #[trigger] r1.has_enabled(f) <==> r2.has_enabled(f),
        forall|f: FeatureView, n: Seq<char>| #[trigger]
            r1.enabler_listed(f, n) <==> r2.enabler_listed(f, n),
        forall|f: FeatureView| #[trigger] r1.has_disabled(f) <==> r2.has_disabled(f),
        feat_views(r1.disabled@) == feat_views(r2.disabled@),
        feat_views(keys_of(r1.enabled@)) == feat_views(keys_of(r2.enabled@)),
        forall|f: FeatureView| #[trigger]
            entry_names(r1.enabled@, f).to_multiset() == entry_names(r2.enabled@, f).to_multiset(),
{
    assert forall|f: FeatureView| #[trigger]
        entry_names(r1.enabled@, f).to_multiset() == entry_names(r2.enabled@, f).to_multiset() by {
        assert forall|n: Seq<char>|
            entry_names(r1.enabled@, f).to_multiset().count(n) == entry_names(
            r2.enabled@,
            f,
        ).to_multiset().count(n) by {
            lemma_occurrences_count(entry_names(r1.enabled@, f), n);
            lemma_occurrences_count(entry_names(r2.enabled@, f), n);
            assert(occurrences(entry_names(r1.enabled@, f), n) == attribution_count(g, root, f, n));
            assert(occurrences(entry_names(r2.enabled@, f), n) == attribution_count(g, root, f, n));
        }
        assert(entry_names(r1.enabled@, f).to_multiset() =~= entry_names(
            r2.enabled@,
            f,
        ).to_multiset());
    }
    assert forall|f: FeatureView| #[trigger] r1.has_enabled(f) <==> r2.has_enabled(f) by {
        assert(r1.has_enabled(f) <==> feature_enabled(g, root, f));
        assert(r2.has_enabled(f) <==> feature_enabled(g, root, f));
    }
    assert forall|f: FeatureView, n: Seq<char>| #[trigger]
        r1.enabler_listed(f, n) <==> r2.enabler_listed(f, n) by {
        assert(r1.enabler_listed(f, n) <==> feature_enabler(g, root, f, n));
        assert(r2.enabler_listed(f, n) <==> feature_enabler(g, root, f, n));
    }
    assert forall|f: FeatureView| #[trigger] r1.has_disabled(f) <==> r2.has_disabled(f) by {
        assert(r1.has_disabled(f) <==> feature_disabled(g, root, f));
        assert(r2.has_disabled(f) <==> feature_disabled(g, root, f));
    }
    assert forall|f: FeatureView| #[trigger]
        has_feat(r1.disabled@, f) <==> has_feat(r2.disabled@, f) by {
        assert(r1.has_disabled(f) <==> r2.has_disabled(f));
    }
    lemma_sorted_feats_unique(r1.disabled@, r2.disabled@);
    let k1 = keys_of(r1.enabled@);
    let k2 = keys_of(r2.enabled@);
    assert(sorted_feats(k1)) by {
        assert forall|i: int, j: int| 0 <= i < j < k1.len() implies feat_lt(k1[i]@, k1[j]@) by {
            assert(k1[i] == r1.enabled@[i].0);
            assert(k1[j] == r1.enabled@[j].0);
        }
    }
    assert(sorted_feats(k2)) by {
        assert forall|i: int, j: int| 0 <= i < j < k2.len() implies feat_lt(k2[i]@, k2[j]@) by {
            assert(k2[i] == r2.enabled@[i].0);
            assert(k2[j] == r2.enabled@[j].0);
        }
    }
    assert forall|f: FeatureView| #[trigger] has_feat(k1, f) <==> has_feat(k2, f) by {
        assert(has_feat(k1, f) <==> has_key(r1.enabled@, f)) by {
            if has_feat(k1, f) {
                let i = choose|i: int| 0 <= i < k1.len() && k1[i]@ == f;
                assert(r1.enabled@[i].0@ == f);
            }
            if has_key(r1.enabled@, f) {
                let i = choose|i: int| 0 <= i < r1.enabled@.len() && r1.enabled@[i].0@ == f;
                assert(k1[i]@ == f);
            }
        }
        assert(has_feat(k2, f) <==> has_key(r2.enabled@, f)) by {
            if has_feat(k2, f) {
                let i = choose|i: int| 0 <= i < k2.len() && k2[i]@ == f;
                assert(r2.enabled@[i].0@ == f);
            }
            if has_key(r2.enabled@, f) {
                let i = choose|i: int| 0 <= i < r2.enabled@.len() && r2.enabled@[i].0@ == f;
                assert(k2[i]@ == f);
            }
        }
        assert(r1.has_enabled(f) <==> feature_enabled(g, root, f));
        assert(r2.has_enabled(f) <==> feature_enabled(g, root, f));
    }
    lemma_sorted_feats_unique(k1, k2);
}

} // verus!
