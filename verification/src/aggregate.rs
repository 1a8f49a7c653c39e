//! The feature-graph aggregator: one traversal of the resolved graph from
//! the root that observes every dependency edge of every reachable package,
//! attributes each activated feature of the edge's target to the edge's
//! parent, and afterwards — once all contributions are known — collects the
//! declared-but-never-enabled features.

use vstd::prelude::*;

use crate::graph::ResolvedGraph;
use crate::graph::UnknownPackage;
use crate::graph::enqueue_if_new;
use crate::graph::no_dup_views;
use crate::graph::push_if_new;
use crate::graph::views_extended;
use crate::graph::pkg_views;
use crate::graph::str_views;
use crate::identity::Feature;
use crate::identity::FeatureView;
use crate::identity::PackageIdentity;
use crate::identity::PkgIdView;
use crate::report::Report;
use crate::report::has_feat;
use crate::report::has_key;
use crate::report::insert_feat;
use crate::report::key_present;
use crate::report::name_listed;
use crate::report::entry_names;
use crate::report::occurrences;
use crate::report::record_edge;
use crate::report::repeated;
use crate::report::sorted_feats;
use crate::report::sorted_keys;

verus! {

/// A path through the resolved graph: every element but the last is a
/// known package, and consecutive elements are joined by dependency edges.
pub open spec fn is_path(g: ResolvedGraph, path: Seq<PkgIdView>) -> bool {
    &&& path.len() > 0
    &&& forall|i: int|
        0 <= i < path.len() - 1 ==> #[trigger] g.has_pkg(path[i]) && g.deps_of(path[i]).contains(
            path[i + 1],
        )
}

/// `p` is reachable from `root`: it is the root itself, or the target of a
/// chain of dependency edges starting at the root.
pub open spec fn reachable(g: ResolvedGraph, root: PkgIdView, p: PkgIdView) -> bool {
    exists|path: Seq<PkgIdView>| is_path(g, path) && path.first() == root && path.last() == p
}

/// Every package reachable from `root` is part of the resolved set.  The
/// aggregation succeeds exactly on such graphs.
pub open spec fn all_reachable_known(g: ResolvedGraph, root: PkgIdView) -> bool {
    forall|p: PkgIdView| reachable(g, root, p) ==> g.has_pkg(p)
}

/// `d` is the target of a dependency edge of some package reachable from
/// `root`.  Only such packages are subjects of the report.
pub open spec fn is_dep_target(g: ResolvedGraph, root: PkgIdView, d: PkgIdView) -> bool {
    exists|p: PkgIdView|
        reachable(g, root, p) && g.has_pkg(p) && #[trigger] g.deps_of(p).contains(d)
}

/// The edges out of `p` enable feature `f`: some dependency of `p` carries
/// the feature's owning name and version and activates the feature's name.
pub open spec fn edge_enables(g: ResolvedGraph, p: PkgIdView, f: FeatureView) -> bool {
    exists|d: PkgIdView|
        #[trigger] g.deps_of(p).contains(d) && d.name == f.parent_crate && d.version == f.version
            && g.has_pkg(d) && g.activated_of(d).contains(f.name)
}

/// How many enabler entries for feature `f` the first `k` dependency
/// edges of one parent owe: one per occurrence of `f`'s name in the
/// activated list of each edge target that carries `f`'s owning name and
/// version.
pub open spec fn edge_count(g: ResolvedGraph, deps: Seq<PkgIdView>, f: FeatureView) -> nat
    decreases deps.len(),
{
    if deps.len() == 0 {
        0
    } else {
        edge_count(g, deps.drop_last(), f) + ({
            let d = deps.last();
            if d.name == f.parent_crate && d.version == f.version && g.has_pkg(d) {
                occurrences(g.activated_seq(d), f.name)
            } else {
                0nat
            }
        })
    }
}

/// The enabler entries naming `n` that feature `f` is owed by the packages
/// of `sel` among the first `k` positions of the resolved set.
pub open spec fn count_from(
    g: ResolvedGraph,
    sel: Set<PkgIdView>,
    f: FeatureView,
    n: Seq<char>,
    k: int,
) -> nat
    decreases k,
{
    if k <= 0 {
        0
    } else {
        count_from(g, sel, f, n, k - 1) + ({
            let p = g.id_at(k - 1);
            if sel.contains(p) && p.name == n {
                edge_count(g, g.deps_of(p), f)
            } else {
                0nat
            }
        })
    }
}

/// The packages the traversal visits: reachable from the root and known.
pub open spec fn reachable_set(g: ResolvedGraph, root: PkgIdView) -> Set<PkgIdView> {
    Set::new(|p: PkgIdView| reachable(g, root, p) && g.has_pkg(p))
}

/// How many enabler entries naming `n` the report owes feature `f`: one
/// per observed dependency edge whose parent is named `n` and whose target
/// carries `f`'s owning name and version, per occurrence of `f`'s name in
/// that target's activated list.
pub open spec fn attribution_count(
    g: ResolvedGraph,
    root: PkgIdView,
    f: FeatureView,
    n: Seq<char>,
) -> nat {
    count_from(g, reachable_set(g, root), f, n, g.node_len())
}

/// No package is selected, so nothing is owed.
proof fn lemma_count_from_empty(g: ResolvedGraph, f: FeatureView, n: Seq<char>, k: int)
    ensures
        count_from(g, Set::<PkgIdView>::empty(), f, n, k) == 0,
    decreases k,
{
    if k > 0 {
        lemma_count_from_empty(g, f, n, k - 1);
    }
}

/// Selecting one more known package adds exactly that package's edges.
proof fn lemma_count_from_insert(
    g: ResolvedGraph,
    sel: Set<PkgIdView>,
    p: PkgIdView,
    f: FeatureView,
    n: Seq<char>,
    k: int,
)
    requires
        g.wf(),
        g.has_pkg(p),
        !sel.contains(p),
        k <= g.node_len(),
    ensures
        count_from(g, sel.insert(p), f, n, k) == count_from(g, sel, f, n, k) + (if g.pkg_index(p)
            < k && p.name == n {
            edge_count(g, g.deps_of(p), f)
        } else {
            0nat
        }),
    decreases k,
{
    g.lemma_pkg_index(p);
    if k > 0 {
        lemma_count_from_insert(g, sel, p, f, n, k - 1);
        if g.id_at(k - 1) == p {
            assert(k - 1 == g.pkg_index(p));
        }
    }
}

/// Feature `f` ends up enabled: some reachable package has a dependency
/// edge that enables it.
pub open spec fn feature_enabled(g: ResolvedGraph, root: PkgIdView, f: FeatureView) -> bool {
    exists|p: PkgIdView|
        #[trigger] reachable(g, root, p) && g.has_pkg(p) && edge_enables(g, p, f)
}

/// A package named `n` is one of the enablers of feature `f`.
pub open spec fn feature_enabler(
    g: ResolvedGraph,
    root: PkgIdView,
    f: FeatureView,
    n: Seq<char>,
) -> bool {
    exists|p: PkgIdView|
        #[trigger] reachable(g, root, p) && g.has_pkg(p) && edge_enables(g, p, f) && p.name == n
}

/// Feature `f` is declared by some dependency target of matching name and
/// version.
pub open spec fn feature_declared(g: ResolvedGraph, root: PkgIdView, f: FeatureView) -> bool {
    exists|d: PkgIdView|
        #[trigger] is_dep_target(g, root, d) && g.has_pkg(d) && d.name == f.parent_crate
            && d.version == f.version && g.declared_of(d).contains(f.name)
}

/// Feature `f` is reported disabled: declared by some dependency target,
/// yet no edge of the whole graph enables it.  Because this is judged only
/// after every contribution is known, a feature is never both enabled and
/// disabled.
pub open spec fn feature_disabled(g: ResolvedGraph, root: PkgIdView, f: FeatureView) -> bool {
    feature_declared(g, root, f) && !feature_enabled(g, root, f)
}

/// The report is the faithful outcome of analysing graph `g` from `root`:
/// its enabled keys, its attributions and its disabled entries are exactly
/// the ones the graph prescribes, in feature order, and every enabler list
/// holds exactly one entry per observed dependency edge — how many times a
/// name stands in a list is pinned, only the order within a list is left
/// to the traversal.
pub open spec fn report_matches(g: ResolvedGraph, root: PkgIdView, rep: Report) -> bool {
    &&& rep.wf()
    &&& forall|f: FeatureView| #[trigger] rep.has_enabled(f) <==> feature_enabled(g, root, f)
    &&& forall|f: FeatureView, n: Seq<char>| #[trigger]
        rep.enabler_listed(f, n) <==> feature_enabler(g, root, f, n)
    &&& forall|f: FeatureView| #[trigger] rep.has_disabled(f) <==> feature_disabled(g, root, f)
    &&& forall|f: FeatureView, n: Seq<char>| #[trigger]
        occurrences(entry_names(rep.enabled@, f), n) == attribution_count(g, root, f, n)
}

/// The root reaches itself.
proof fn lemma_reachable_self(g: ResolvedGraph, root: PkgIdView)
    ensures
        reachable(g, root, root),
{
    let path = seq![root];
    assert(is_path(g, path));
    assert(path.first() == root && path.last() == root);
}

/// Reachability extends along one dependency edge.
proof fn lemma_reachable_step(g: ResolvedGraph, root: PkgIdView, p: PkgIdView, d: PkgIdView)
    requires
        reachable(g, root, p),
        g.has_pkg(p),
        g.deps_of(p).contains(d),
    ensures
        reachable(g, root, d),
{
    let path = choose|path: Seq<PkgIdView>|
        is_path(g, path) && path.first() == root && path.last() == p;
    let path2 = path.push(d);
    assert forall|i: int|
        0 <= i < path2.len() - 1 implies #[trigger] g.has_pkg(path2[i]) && g.deps_of(
        path2[i],
    ).contains(path2[i + 1]) by {
        if i < path.len() - 1 {
            assert(path2[i] == path[i]);
            assert(path2[i + 1] == path[i + 1]);
        } else {
            assert(path2[i] == path.last());
            assert(path2[i + 1] == d);
        }
    }
    assert(is_path(g, path2));
    assert(path2.first() == root && path2.last() == d);
}

/// The last element of a path lies in any set that contains the path's
/// first element and is closed under dependency edges of its members.
proof fn lemma_path_in_closed(g: ResolvedGraph, s: Set<PkgIdView>, path: Seq<PkgIdView>)
    requires
        is_path(g, path),
        s.contains(path.first()),
        forall|p: PkgIdView, d: PkgIdView|
            #![trigger s.contains(p), g.deps_of(p).contains(d)]
            s.contains(p) && g.has_pkg(p) && g.deps_of(p).contains(d) ==> s.contains(d),
    ensures
        s.contains(path.last()),
    decreases path.len(),
{
    if path.len() > 1 {
        let pre = path.drop_last();
        assert forall|i: int|
            0 <= i < pre.len() - 1 implies #[trigger] g.has_pkg(pre[i]) && g.deps_of(
            pre[i],
        ).contains(pre[i + 1]) by {
            assert(pre[i] == path[i]);
            assert(pre[i + 1] == path[i + 1]);
        }
        assert(is_path(g, pre));
        assert(pre.first() == path.first());
        lemma_path_in_closed(g, s, pre);
        let n = path.len() - 2;
        assert(pre.last() == path[n]);
        assert(g.has_pkg(path[n]) && g.deps_of(path[n]).contains(path[n + 1]));
        assert(s.contains(path.last()));
    }
}

/// A dependency of `p` at an index below `k` of `p`'s dependency list
/// matches `f`'s owner and activates `f`'s name.
spec fn prefix_enables(g: ResolvedGraph, p: PkgIdView, k: int, f: FeatureView) -> bool {
    exists|di: int|
        0 <= di < k && #[trigger] g.deps_of(p)[di].name == f.parent_crate && g.deps_of(
            p,
        )[di].version == f.version && g.has_pkg(g.deps_of(p)[di]) && g.activated_of(
            g.deps_of(p)[di],
        ).contains(f.name)
}

/// Analyses the dependency graph reachable from `root`.
///
/// On success the returned report is complete and exact: a feature is an
/// enabled key exactly when some reachable package's dependency edge
/// activates it, its enabler list holds one entry per observed dependency
/// edge that activates it — so each name appears exactly as often as that
/// package's edges enable the feature, duplicates preserved — and a
/// feature is a disabled entry exactly when a dependency target declares
/// it and no edge anywhere in the graph enables it.  Only the order of
/// names within an enabler list is left to the traversal.  The analysis
/// succeeds if and only if every
/// package reachable from `root` is part of the resolved set; otherwise
/// the error carries one reachable identity the accessor does not know,
/// and no partial report is produced.
#[verifier::rlimit(100)]
pub fn aggregate(graph: &ResolvedGraph, root: &PackageIdentity) -> (r: Result<
    Report,
    UnknownPackage,
>)
    requires
        graph.wf(),
    ensures
        match r {
            Ok(rep) => all_reachable_known(*graph, root@) && report_matches(*graph, root@, rep),
            Err(e) => !all_reachable_known(*graph, root@) && reachable(*graph, root@, e.pkg@)
                && !graph.has_pkg(e.pkg@),
        },
{
    let mut enabled: Vec<(Feature, Vec<String>)> = Vec::new();
    let mut targets: Vec<PackageIdentity> = Vec::new();
    let mut pending: Vec<PackageIdentity> = Vec::new();
    let mut seen: Vec<PackageIdentity> = Vec::new();
    pending.push(root.clone());
    seen.push(root.clone());
    let ghost mut processed: Set<PkgIdView> = Set::empty();
    proof {
        lemma_reachable_self(*graph, root@);
        assert(pkg_views(seen@) =~= Seq::<PkgIdView>::empty().push(root@));
        assert(pkg_views(pending@) =~= Seq::<PkgIdView>::empty().push(root@));
        assert(pkg_views(seen@)[0] == root@);
        assert(pkg_views(seen@).contains(root@));
        assert forall|f: FeatureView, n: Seq<char>| #[trigger]
            occurrences(entry_names(enabled@, f), n) == count_from(
            *graph,
            processed,
            f,
            n,
            graph.node_len(),
        ) by {
            assert(!has_key(enabled@, f));
            lemma_count_from_empty(*graph, f, n, graph.node_len());
        }
    }
    while pending.len() > 0
        invariant
            graph.wf(),
            pkg_views(seen@).contains(root@),
            forall|x: PkgIdView| #[trigger]
                pkg_views(seen@).contains(x) <==> processed.contains(x) || pkg_views(
                    pending@,
                ).contains(x),
            forall|x: PkgIdView| #[trigger]
                pkg_views(pending@).contains(x) ==> !processed.contains(x),
            no_dup_views(pending@),
            forall|x: PkgIdView| #[trigger]
                pkg_views(seen@).contains(x) ==> reachable(*graph, root@, x),
            forall|p: PkgIdView| #[trigger] processed.contains(p) ==> graph.has_pkg(p),
            forall|p: PkgIdView, d: PkgIdView|
                #![trigger processed.contains(p), graph.deps_of(p).contains(d)]
                processed.contains(p) && graph.deps_of(p).contains(d) ==> pkg_views(
                    seen@,
                ).contains(d),
            forall|t: PkgIdView| #[trigger]
                pkg_views(targets@).contains(t) <==> exists|q: PkgIdView|
                    #[trigger] processed.contains(q) && graph.deps_of(q).contains(t),
            forall|t: PkgIdView| #[trigger] pkg_views(targets@).contains(t) ==> graph.has_pkg(t),
            sorted_keys(enabled@),
            forall|f: FeatureView| #[trigger]
                has_key(enabled@, f) <==> exists|q: PkgIdView|
                    #[trigger] processed.contains(q) && edge_enables(*graph, q, f),
            forall|f: FeatureView, n: Seq<char>| #[trigger]
                name_listed(enabled@, f, n) <==> exists|q: PkgIdView|
                    #[trigger] processed.contains(q) && edge_enables(*graph, q, f) && q.name == n,
            forall|f: FeatureView, n: Seq<char>| #[trigger]
                occurrences(entry_names(enabled@, f), n) == count_from(
                    *graph,
                    processed,
                    f,
                    n,
                    graph.node_len(),
                ),
        decreases graph.ids_set().difference(processed).len(),
    {
        let ghost pending_pre = pending@;
        let ghost processed_pre = processed;
        let p = pending.pop().unwrap();
        let ghost p_v = p@;
        proof {
            assert(pkg_views(pending_pre)[pending_pre.len() - 1] == p_v);
            assert(pkg_views(pending_pre).contains(p_v));
            assert(pkg_views(seen@).contains(p_v));
            assert(pkg_views(pending@) =~= pkg_views(pending_pre).drop_last());
            assert forall|x: PkgIdView| #[trigger]
                pkg_views(pending@).contains(x) implies pkg_views(pending_pre).contains(x) && x
                != p_v by {
                let i = choose|i: int|
                    0 <= i < pkg_views(pending@).len() && pkg_views(pending@)[i] == x;
                assert(pkg_views(pending_pre)[i] == x);
                assert(i < pending_pre.len() - 1);
                if x == p_v {
                    assert(pkg_views(pending_pre)[pending_pre.len() - 1] == x);
                }
            }
            assert forall|x: PkgIdView| #[trigger]
                pkg_views(seen@).contains(x) implies processed.contains(x) || pkg_views(
                pending@,
            ).contains(x) || x == p_v by {
                if !processed.contains(x) && x != p_v {
                    assert(pkg_views(pending_pre).contains(x));
                    let i = choose|i: int|
                        0 <= i < pending_pre.len() && pkg_views(pending_pre)[i] == x;
                    assert(i < pending_pre.len() - 1);
                    assert(pkg_views(pending@)[i] == x);
                }
            }
        }
        let deps = match graph.dependencies_of(&p) {
            Ok(d) => d,
            Err(e) => {
                proof {
                    assert(reachable(*graph, root@, p_v));
                    assert(!all_reachable_known(*graph, root@));
                }
                return Err(e);
            },
        };
        proof {
            assert(graph.deps_of(p_v).take(0) =~= Seq::<PkgIdView>::empty());
            assert forall|f: FeatureView| #[trigger]
                edge_count(*graph, graph.deps_of(p_v).take(0), f) == 0 by {
                assert(graph.deps_of(p_v).take(0).len() == 0);
            }
        }
        let mut j: usize = 0;
        while j < deps.len()
            invariant
                graph.wf(),
                j <= deps@.len(),
                p_v == p@,
                pkg_views(deps@) == graph.deps_of(p_v),
                graph.has_pkg(p_v),
                reachable(*graph, root@, p_v),
                !processed.contains(p_v),
                pkg_views(seen@).contains(root@),
                forall|x: PkgIdView| #[trigger]
                    pkg_views(seen@).contains(x) <==> processed.contains(x) || pkg_views(
                        pending@,
                    ).contains(x) || x == p_v,
                forall|x: PkgIdView| #[trigger]
                    pkg_views(pending@).contains(x) ==> !processed.contains(x) && x != p_v,
                no_dup_views(pending@),
                forall|x: PkgIdView| #[trigger]
                    pkg_views(seen@).contains(x) ==> reachable(*graph, root@, x),
                forall|q: PkgIdView| #[trigger] processed.contains(q) ==> graph.has_pkg(q),
                forall|q: PkgIdView, d: PkgIdView|
                    #![trigger processed.contains(q), graph.deps_of(q).contains(d)]
                    processed.contains(q) && graph.deps_of(q).contains(d) ==> pkg_views(
                        seen@,
                    ).contains(d),
                forall|k: int|
                    0 <= k < j ==> pkg_views(seen@).contains(#[trigger] graph.deps_of(p_v)[k]),
                forall|k: int| 0 <= k < j ==> graph.has_pkg(#[trigger] graph.deps_of(p_v)[k]),
                forall|t: PkgIdView| #[trigger]
                    pkg_views(targets@).contains(t) <==> (exists|q: PkgIdView|
                        #[trigger] processed.contains(q) && graph.deps_of(q).contains(t)) || (
                    exists|k: int| 0 <= k < j && graph.deps_of(p_v)[k] == t),
                forall|t: PkgIdView| #[trigger]
                    pkg_views(targets@).contains(t) ==> graph.has_pkg(t),
                sorted_keys(enabled@),
                forall|f: FeatureView| #[trigger]
                    has_key(enabled@, f) <==> (exists|q: PkgIdView|
                        #[trigger] processed.contains(q) && edge_enables(*graph, q, f))
                        || prefix_enables(*graph, p_v, j as int, f),
                forall|f: FeatureView, n: Seq<char>| #[trigger]
                    name_listed(enabled@, f, n) <==> (exists|q: PkgIdView|
                        #[trigger] processed.contains(q) && edge_enables(*graph, q, f) && q.name
                            == n) || (prefix_enables(*graph, p_v, j as int, f) && n == p_v.name),
                forall|f: FeatureView, n: Seq<char>| #[trigger]
                    occurrences(entry_names(enabled@, f), n) == count_from(
                        *graph,
                        processed,
                        f,
                        n,
                        graph.node_len(),
                    ) + (if p_v.name == n {
                        edge_count(*graph, graph.deps_of(p_v).take(j as int), f)
                    } else {
                        0nat
                    }),
            decreases deps@.len() - j,
        {
            let d = &deps[j];
            proof {
                assert(pkg_views(deps@)[j as int] == d@);
                assert(graph.deps_of(p_v).contains(d@));
            }
            let act = match graph.activated_features(d) {
                Ok(a) => a,
                Err(e) => {
                    proof {
                        lemma_reachable_step(*graph, root@, p_v, d@);
                        assert(!all_reachable_known(*graph, root@));
                    }
                    return Err(e);
                },
            };
            proof {
                lemma_reachable_step(*graph, root@, p_v, d@);
            }
            let ghost seen_pre = seen@;
            let ghost pending_pre2 = pending@;
            enqueue_if_new(&mut seen, &mut pending, d);
            let ghost targets_pre = targets@;
            push_if_new(&mut targets, d);
            proof {
                if pkg_views(seen_pre).contains(d@) {
                    assert(seen@ == seen_pre && pending@ == pending_pre2);
                } else {
                    assert(views_extended(pending_pre2, pending@, d@));
                    assert(pkg_views(pending@).contains(d@));
                }
                assert(pkg_views(seen@).contains(d@));
                assert(pkg_views(targets@).contains(d@));
                assert forall|x: PkgIdView| #[trigger]
                    pkg_views(seen@).contains(x) implies processed.contains(x) || pkg_views(
                    pending@,
                ).contains(x) || x == p_v by {
                    if x != d@ {
                        assert(pkg_views(seen_pre).contains(x));
                        if !processed.contains(x) && x != p_v {
                            assert(pkg_views(pending_pre2).contains(x));
                            if !pkg_views(seen_pre).contains(d@) {
                                assert(views_extended(pending_pre2, pending@, d@));
                            }
                        }
                    } else {
                        if pkg_views(seen_pre).contains(d@) {
                            assert(pkg_views(pending@).contains(x) || processed.contains(x) || x
                                == p_v);
                        }
                    }
                }
                assert forall|x: PkgIdView|
                    processed.contains(x) || pkg_views(pending@).contains(x) || x
                    == p_v implies #[trigger] pkg_views(seen@).contains(x) by {
                    if pkg_views(pending@).contains(x) {
                        if !pkg_views(seen_pre).contains(d@) {
                            assert(views_extended(pending_pre2, pending@, d@));
                            if x != d@ {
                                assert(pkg_views(pending_pre2).contains(x));
                                assert(pkg_views(seen_pre).contains(x));
                            }
                        } else {
                            assert(pkg_views(seen_pre).contains(x));
                        }
                    } else {
                        assert(pkg_views(seen_pre).contains(x));
                    }
                }
                assert forall|x: PkgIdView| #[trigger]
                    pkg_views(pending@).contains(x) implies !processed.contains(x) && x
                    != p_v by {
                    if !pkg_views(seen_pre).contains(d@) {
                        assert(views_extended(pending_pre2, pending@, d@));
                        if x != d@ {
                            assert(pkg_views(pending_pre2).contains(x));
                        } else {
                            if processed.contains(x) || x == p_v {
                                assert(pkg_views(seen_pre).contains(x));
                            }
                        }
                    } else {
                        assert(pkg_views(pending_pre2).contains(x));
                    }
                }
                assert(views_extended(targets_pre, targets@, d@));
            }
            let ghost enabled_pre = enabled@;
            record_edge(&mut enabled, d, act, &p.name);
            proof {
                assert forall|f: FeatureView| #[trigger]
                    prefix_enables(*graph, p_v, j as int + 1, f) <==> prefix_enables(
                    *graph,
                    p_v,
                    j as int,
                    f,
                ) || (d@.name == f.parent_crate && d@.version == f.version
                    && graph.activated_of(d@).contains(f.name)) by {
                    if prefix_enables(*graph, p_v, j as int + 1, f) {
                        let di = choose|di: int|
                            0 <= di < j + 1 && #[trigger] graph.deps_of(p_v)[di].name
                                == f.parent_crate && graph.deps_of(p_v)[di].version == f.version
                                && graph.has_pkg(graph.deps_of(p_v)[di]) && graph.activated_of(
                                graph.deps_of(p_v)[di],
                            ).contains(f.name);
                        if di < j {
                            assert(prefix_enables(*graph, p_v, j as int, f));
                        } else {
                            assert(graph.deps_of(p_v)[di] == d@);
                        }
                    }
                    if prefix_enables(*graph, p_v, j as int, f) {
                        let di = choose|di: int|
                            0 <= di < j && #[trigger] graph.deps_of(p_v)[di].name
                                == f.parent_crate && graph.deps_of(p_v)[di].version == f.version
                                && graph.has_pkg(graph.deps_of(p_v)[di]) && graph.activated_of(
                                graph.deps_of(p_v)[di],
                            ).contains(f.name);
                        assert(prefix_enables(*graph, p_v, j as int + 1, f));
                    }
                    if d@.name == f.parent_crate && d@.version == f.version && graph.activated_of(
                        d@,
                    ).contains(f.name) {
                        assert(graph.deps_of(p_v)[j as int] == d@);
                        assert(prefix_enables(*graph, p_v, j as int + 1, f));
                    }
                }
                // the activated list of `d` holds exactly the names the
                // resolver activated for `d`
                assert forall|nm: Seq<char>| #[trigger]
                    str_views(act@).contains(nm) <==> graph.activated_of(d@).contains(nm) by {
                    assert(str_views(act@).to_set().contains(nm) == str_views(act@).contains(nm));
                }
                assert(p_v.name == p@.name);
                assert forall|f: FeatureView, n: Seq<char>| #[trigger]
                    occurrences(entry_names(enabled@, f), n) == count_from(
                    *graph,
                    processed,
                    f,
                    n,
                    graph.node_len(),
                ) + (if p_v.name == n {
                    edge_count(*graph, graph.deps_of(p_v).take(j as int + 1), f)
                } else {
                    0nat
                }) by {
                    let t0 = graph.deps_of(p_v).take(j as int);
                    let t1 = graph.deps_of(p_v).take(j as int + 1);
                    assert(t1.drop_last() =~= t0);
                    assert(t1.last() == d@);
                    if d@.name == f.parent_crate && d@.version == f.version {
                        assert(edge_count(*graph, t1, f) == edge_count(*graph, t0, f)
                            + occurrences(graph.activated_seq(d@), f.name));
                        assert(entry_names(enabled@, f) == entry_names(enabled_pre, f) + repeated(
                            p_v.name,
                            occurrences(str_views(act@), f.name),
                        ));
                        crate::report::lemma_occurrences_append_repeated(
                            entry_names(enabled_pre, f),
                            p_v.name,
                            occurrences(str_views(act@), f.name),
                            n,
                        );
                        assert(str_views(act@) == graph.activated_seq(d@));
                    } else {
                        assert(edge_count(*graph, t1, f) == edge_count(*graph, t0, f));
                        assert(entry_names(enabled@, f) == entry_names(enabled_pre, f));
                    }
                }
                assert(p_v.name == p@.name);
                assert forall|f: FeatureView, n: Seq<char>| #[trigger]
                    name_listed(enabled@, f, n) <==> (exists|q: PkgIdView|
                        #[trigger] processed.contains(q) && edge_enables(*graph, q, f) && q.name
                            == n) || (prefix_enables(*graph, p_v, j as int + 1, f) && n
                    == p_v.name) by {
                    if name_listed(enabled@, f, n) {
                        if !name_listed(enabled_pre, f, n) {
                            assert(f.parent_crate == d@.name && f.version == d@.version
                                && str_views(act@).contains(f.name) && n == p_v.name);
                            assert(graph.activated_of(d@).contains(f.name));
                            assert(prefix_enables(*graph, p_v, j as int + 1, f));
                        }
                    }
                    if (exists|q: PkgIdView|
                        #[trigger] processed.contains(q) && edge_enables(*graph, q, f) && q.name
                            == n) || (prefix_enables(*graph, p_v, j as int + 1, f) && n
                        == p_v.name) {
                        if prefix_enables(*graph, p_v, j as int + 1, f) && n == p_v.name {
                            if prefix_enables(*graph, p_v, j as int, f) {
                                assert(name_listed(enabled_pre, f, n));
                            } else {
                                assert(d@.name == f.parent_crate && d@.version == f.version
                                    && graph.activated_of(d@).contains(f.name));
                                assert(str_views(act@).contains(f.name));
                            }
                        } else {
                            assert(name_listed(enabled_pre, f, n));
                        }
                        assert(name_listed(enabled@, f, n));
                    }
                }
            }
            j += 1;
        }
        proof {
            processed = processed.insert(p_v);
            assert forall|f: FeatureView| #[trigger]
                prefix_enables(*graph, p_v, deps@.len() as int, f) <==> edge_enables(
                *graph,
                p_v,
                f,
            ) by {
                if prefix_enables(*graph, p_v, deps@.len() as int, f) {
                    let di = choose|di: int|
                        0 <= di < deps@.len() && #[trigger] graph.deps_of(p_v)[di].name
                            == f.parent_crate && graph.deps_of(p_v)[di].version == f.version
                            && graph.has_pkg(graph.deps_of(p_v)[di]) && graph.activated_of(
                            graph.deps_of(p_v)[di],
                        ).contains(f.name);
                    assert(graph.deps_of(p_v).contains(graph.deps_of(p_v)[di]));
                    assert(edge_enables(*graph, p_v, f));
                }
                if edge_enables(*graph, p_v, f) {
                    let dd = choose|dd: PkgIdView|
                        #[trigger] graph.deps_of(p_v).contains(dd) && dd.name == f.parent_crate
                            && dd.version == f.version && graph.has_pkg(dd) && graph.activated_of(
                            dd,
                        ).contains(f.name);
                    let di = choose|di: int|
                        0 <= di < graph.deps_of(p_v).len() && graph.deps_of(p_v)[di] == dd;
                    assert(prefix_enables(*graph, p_v, deps@.len() as int, f));
                }
            }
            assert forall|q: PkgIdView| #[trigger]
                processed.contains(q) implies graph.has_pkg(q) by {
                if q != p_v {
                    assert(processed_pre.contains(q));
                }
            }
            assert forall|t: PkgIdView| #[trigger]
                pkg_views(targets@).contains(t) implies (exists|q: PkgIdView|
                #[trigger] processed.contains(q) && graph.deps_of(q).contains(t)) by {
                if exists|q: PkgIdView|
                    #[trigger] processed_pre.contains(q) && graph.deps_of(q).contains(t) {
                    let q = choose|q: PkgIdView|
                        #[trigger] processed_pre.contains(q) && graph.deps_of(q).contains(t);
                    assert(processed.contains(q) && graph.deps_of(q).contains(t));
                } else {
                    let k = choose|k: int| 0 <= k < deps@.len() && graph.deps_of(p_v)[k] == t;
                    assert(graph.deps_of(p_v).contains(t));
                    assert(processed.contains(p_v) && graph.deps_of(p_v).contains(t));
                }
            }
            assert forall|t: PkgIdView|
                (exists|q: PkgIdView|
                    #[trigger] processed.contains(q) && graph.deps_of(q).contains(t)) implies
                #[trigger] pkg_views(targets@).contains(t) by {
                let q = choose|q: PkgIdView|
                    #[trigger] processed.contains(q) && graph.deps_of(q).contains(t);
                if q == p_v {
                    let k = choose|k: int|
                        0 <= k < graph.deps_of(p_v).len() && graph.deps_of(p_v)[k] == t;
                } else {
                    assert(processed_pre.contains(q) && graph.deps_of(q).contains(t));
                }
            }
            assert forall|f: FeatureView| #[trigger]
                has_key(enabled@, f) implies (exists|q: PkgIdView|
                #[trigger] processed.contains(q) && edge_enables(*graph, q, f)) by {
                if exists|q: PkgIdView|
                    #[trigger] processed_pre.contains(q) && edge_enables(*graph, q, f) {
                    let q = choose|q: PkgIdView|
                        #[trigger] processed_pre.contains(q) && edge_enables(*graph, q, f);
                    assert(processed.contains(q) && edge_enables(*graph, q, f));
                } else {
                    assert(prefix_enables(*graph, p_v, deps@.len() as int, f));
                    assert(processed.contains(p_v) && edge_enables(*graph, p_v, f));
                }
            }
            assert forall|f: FeatureView|
                (exists|q: PkgIdView|
                    #[trigger] processed.contains(q) && edge_enables(*graph, q, f)) implies
                #[trigger] has_key(enabled@, f) by {
                let q = choose|q: PkgIdView|
                    #[trigger] processed.contains(q) && edge_enables(*graph, q, f);
                if q != p_v {
                    assert(processed_pre.contains(q) && edge_enables(*graph, q, f));
                }
            }
            assert forall|f: FeatureView, n: Seq<char>| #[trigger]
                name_listed(enabled@, f, n) implies (exists|q: PkgIdView|
                #[trigger] processed.contains(q) && edge_enables(*graph, q, f) && q.name
                    == n) by {
                if exists|q: PkgIdView|
                    #[trigger] processed_pre.contains(q) && edge_enables(*graph, q, f) && q.name
                        == n {
                    let q = choose|q: PkgIdView|
                        #[trigger] processed_pre.contains(q) && edge_enables(*graph, q, f)
                            && q.name == n;
                    assert(processed.contains(q) && edge_enables(*graph, q, f) && q.name == n);
                } else {
                    assert(prefix_enables(*graph, p_v, deps@.len() as int, f) && n == p_v.name);
                    assert(processed.contains(p_v) && edge_enables(*graph, p_v, f) && p_v.name
                        == n);
                }
            }
            assert forall|f: FeatureView, n: Seq<char>|
                (exists|q: PkgIdView|
                    #[trigger] processed.contains(q) && edge_enables(*graph, q, f) && q.name
                        == n) implies #[trigger] name_listed(enabled@, f, n) by {
                let q = choose|q: PkgIdView|
                    #[trigger] processed.contains(q) && edge_enables(*graph, q, f) && q.name == n;
                if q != p_v {
                    assert(processed_pre.contains(q) && edge_enables(*graph, q, f) && q.name == n);
                }
            }
            assert forall|f: FeatureView, n: Seq<char>| #[trigger]
                occurrences(entry_names(enabled@, f), n) == count_from(
                *graph,
                processed,
                f,
                n,
                graph.node_len(),
            ) by {
                lemma_count_from_insert(*graph, processed_pre, p_v, f, n, graph.node_len());
                graph.lemma_pkg_index(p_v);
                assert(graph.deps_of(p_v).take(deps@.len() as int) =~= graph.deps_of(p_v));
            }
            graph.lemma_ids_set();
            graph.ids_set().lemma_set_insert_diff_decreases(processed_pre, p_v);
        }
    }
    proof {
        assert(pkg_views(pending@).len() == 0);
        assert forall|x: PkgIdView| #[trigger]
            pkg_views(seen@).contains(x) implies processed.contains(x) by {
            if pkg_views(pending@).contains(x) {
                let i = choose|i: int|
                    0 <= i < pkg_views(pending@).len() && pkg_views(pending@)[i] == x;
            }
        }
        assert(processed.contains(root@));
        assert forall|x: PkgIdView| #[trigger]
            reachable(*graph, root@, x) implies processed.contains(x) && graph.has_pkg(x) by {
            let path = choose|path: Seq<PkgIdView>|
                is_path(*graph, path) && path.first() == root@ && path.last() == x;
            lemma_path_in_closed(*graph, processed, path);
        }
        assert(all_reachable_known(*graph, root@));
        assert forall|q: PkgIdView| #[trigger]
            processed.contains(q) implies reachable(*graph, root@, q) && graph.has_pkg(q) by {
            assert(pkg_views(seen@).contains(q));
        }
        assert forall|f: FeatureView| #[trigger]
            has_key(enabled@, f) <==> feature_enabled(*graph, root@, f) by {
            if has_key(enabled@, f) {
                let q = choose|q: PkgIdView|
                    #[trigger] processed.contains(q) && edge_enables(*graph, q, f);
                assert(reachable(*graph, root@, q) && graph.has_pkg(q) && edge_enables(
                    *graph,
                    q,
                    f,
                ));
            }
            if feature_enabled(*graph, root@, f) {
                let q = choose|q: PkgIdView|
                    #[trigger] reachable(*graph, root@, q) && graph.has_pkg(q) && edge_enables(
                        *graph,
                        q,
                        f,
                    );
                assert(processed.contains(q) && edge_enables(*graph, q, f));
            }
        }
        assert forall|f: FeatureView, n: Seq<char>| #[trigger]
            name_listed(enabled@, f, n) <==> feature_enabler(*graph, root@, f, n) by {
            if name_listed(enabled@, f, n) {
                let q = choose|q: PkgIdView|
                    #[trigger] processed.contains(q) && edge_enables(*graph, q, f) && q.name == n;
                assert(reachable(*graph, root@, q) && graph.has_pkg(q) && edge_enables(
                    *graph,
                    q,
                    f,
                ) && q.name == n);
            }
            if feature_enabler(*graph, root@, f, n) {
                let q = choose|q: PkgIdView|
                    #[trigger] reachable(*graph, root@, q) && graph.has_pkg(q) && edge_enables(
                        *graph,
                        q,
                        f,
                    ) && q.name == n;
                assert(processed.contains(q) && edge_enables(*graph, q, f) && q.name == n);
            }
        }
        assert forall|t: PkgIdView| #[trigger]
            pkg_views(targets@).contains(t) <==> is_dep_target(*graph, root@, t) by {
            if pkg_views(targets@).contains(t) {
                let q = choose|q: PkgIdView|
                    #[trigger] processed.contains(q) && graph.deps_of(q).contains(t);
                assert(reachable(*graph, root@, q) && graph.has_pkg(q) && graph.deps_of(
                    q,
                ).contains(t));
            }
            if is_dep_target(*graph, root@, t) {
                let q = choose|q: PkgIdView|
                    reachable(*graph, root@, q) && graph.has_pkg(q) && #[trigger] graph.deps_of(
                        q,
                    ).contains(t);
                assert(processed.contains(q) && graph.deps_of(q).contains(t));
            }
        }
    }
    let mut disabled: Vec<Feature> = Vec::new();
    let ghost enabled_v = enabled@;
    let ghost targets_v = pkg_views(targets@);
    let mut ti: usize = 0;
    while ti < targets.len()
        invariant
            graph.wf(),
            ti <= targets@.len(),
            enabled@ == enabled_v,
            pkg_views(targets@) == targets_v,
            sorted_keys(enabled@),
            sorted_feats(disabled@),
            forall|t: PkgIdView| #[trigger] targets_v.contains(t) ==> graph.has_pkg(t),
            forall|f: FeatureView| #[trigger]
                has_feat(disabled@, f) <==> (exists|m: int|
                    0 <= m < ti && #[trigger] targets_v[m].name == f.parent_crate
                        && targets_v[m].version == f.version && graph.declared_of(
                        targets_v[m],
                    ).contains(f.name)) && !has_key(enabled@, f),
        decreases targets@.len() - ti,
    {
        let t = &targets[ti];
        proof {
            assert(targets_v[ti as int] == t@);
            assert(targets_v.contains(t@));
        }
        let decl = match graph.declared_features(t) {
            Ok(x) => x,
            Err(e) => {
                proof {
                    assert(false);
                }
                return Err(e);
            },
        };
        let mut k: usize = 0;
        while k < decl.len()
            invariant
                graph.wf(),
                k <= decl@.len(),
                ti < targets@.len(),
                enabled@ == enabled_v,
                pkg_views(targets@) == targets_v,
                targets_v[ti as int] == t@,
                str_views(decl@).to_set() == graph.declared_of(t@),
                sorted_keys(enabled@),
                sorted_feats(disabled@),
                forall|f: FeatureView| #[trigger]
                    has_feat(disabled@, f) <==> ((exists|m: int|
                        0 <= m < ti && #[trigger] targets_v[m].name == f.parent_crate
                            && targets_v[m].version == f.version && graph.declared_of(
                            targets_v[m],
                        ).contains(f.name)) || (t@.name == f.parent_crate && t@.version
                        == f.version && exists|m: int|
                        0 <= m < k && str_views(decl@)[m] == f.name)) && !has_key(enabled@, f),
            decreases decl@.len() - k,
        {
            let feat = Feature {
                parent_crate: t.name.clone(),
                version: t.version.clone(),
                name: decl[k].clone(),
            };
            proof {
                assert(str_views(decl@)[k as int] == decl@[k as int]@);
            }
            if !key_present(&enabled, &feat) {
                insert_feat(&mut disabled, feat);
            }
            proof {
                assert forall|f: FeatureView| #[trigger]
                    has_feat(disabled@, f) <==> ((exists|m: int|
                        0 <= m < ti && #[trigger] targets_v[m].name == f.parent_crate
                            && targets_v[m].version == f.version && graph.declared_of(
                            targets_v[m],
                        ).contains(f.name)) || (t@.name == f.parent_crate && t@.version
                        == f.version && exists|m: int|
                        0 <= m < k + 1 && str_views(decl@)[m] == f.name)) && !has_key(
                    enabled@,
                    f,
                ) by {
                    if t@.name == f.parent_crate && t@.version == f.version && (exists|m: int|
                        0 <= m < k + 1 && str_views(decl@)[m] == f.name) && !has_key(
                        enabled@,
                        f,
                    ) {
                        let m = choose|m: int| 0 <= m < k + 1 && str_views(decl@)[m] == f.name;
                        if m == k {
                            assert(f == feat@);
                            assert(has_feat(disabled@, f));
                        }
                    }
                }
            }
            k += 1;
        }
        proof {
            assert forall|f: FeatureView|
                (t@.name == f.parent_crate && t@.version == f.version && exists|m: int|
                    0 <= m < decl@.len() && str_views(decl@)[m] == f.name) <==> (t@.name
                == f.parent_crate && t@.version == f.version && graph.declared_of(t@).contains(
                f.name,
            )) by {
                if t@.name == f.parent_crate && t@.version == f.version {
                    if exists|m: int| 0 <= m < decl@.len() && str_views(decl@)[m] == f.name {
                        let m = choose|m: int|
                            0 <= m < decl@.len() && str_views(decl@)[m] == f.name;
                        assert(str_views(decl@).contains(f.name));
                        assert(str_views(decl@).to_set().contains(f.name));
                    }
                    if graph.declared_of(t@).contains(f.name) {
                        assert(str_views(decl@).to_set().contains(f.name));
                        assert(str_views(decl@).contains(f.name));
                        let m = choose|m: int|
                            0 <= m < str_views(decl@).len() && str_views(decl@)[m] == f.name;
                    }
                }
            }
        }
        ti += 1;
    }
    let rep = Report { enabled, disabled };
    proof {
        assert(processed =~= reachable_set(*graph, root@));
        assert forall|f: FeatureView, n: Seq<char>| #[trigger]
            occurrences(entry_names(rep.enabled@, f), n) == attribution_count(
            *graph,
            root@,
            f,
            n,
        ) by {
            assert(rep.enabled@ == enabled_v);
            assert(processed == reachable_set(*graph, root@));
        }
        assert forall|f: FeatureView| #[trigger]
            rep.has_disabled(f) <==> feature_disabled(*graph, root@, f) by {
            if rep.has_disabled(f) {
                let m = choose|m: int|
                    0 <= m < targets_v.len() && #[trigger] targets_v[m].name == f.parent_crate
                        && targets_v[m].version == f.version && graph.declared_of(
                        targets_v[m],
                    ).contains(f.name);
                let t = targets_v[m];
                assert(targets_v.contains(t));
                assert(is_dep_target(*graph, root@, t));
                assert(graph.has_pkg(t));
                assert(feature_declared(*graph, root@, f));
                assert(!has_key(enabled_v, f));
                assert(!feature_enabled(*graph, root@, f));
            }
            if feature_disabled(*graph, root@, f) {
                let t = choose|t: PkgIdView|
                    #[trigger] is_dep_target(*graph, root@, t) && graph.has_pkg(t) && t.name
                        == f.parent_crate && t.version == f.version && graph.declared_of(
                        t,
                    ).contains(f.name);
                assert(targets_v.contains(t));
                let m = choose|m: int| 0 <= m < targets_v.len() && targets_v[m] == t;
                assert(!feature_enabled(*graph, root@, f));
                assert(!has_key(enabled_v, f));
                assert(has_feat(rep.disabled@, f));
            }
        }
        assert(report_matches(*graph, root@, rep));
    }
    Ok(rep)
}

} // verus!
