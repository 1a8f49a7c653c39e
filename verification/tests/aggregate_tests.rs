use feature_audit::aggregate::aggregate;
use feature_audit::graph::ResolvedGraph;
use feature_audit::identity::Feature;
use feature_audit::identity::PackageIdentity;
use feature_audit::report::Report;

fn pid(name: &str, version: &str) -> PackageIdentity {
    PackageIdentity {
        name: name.to_string(),
        version: version.to_string(),
        source: "registry".to_string(),
    }
}

fn pid_src(name: &str, version: &str, source: &str) -> PackageIdentity {
    PackageIdentity {
        name: name.to_string(),
        version: version.to_string(),
        source: source.to_string(),
    }
}

fn strs(names: &[&str]) -> Vec<String> {
    names.iter().map(|n| n.to_string()).collect()
}

fn feat(name: &str, version: &str, feature: &str) -> Feature {
    Feature {
        parent_crate: name.to_string(),
        version: version.to_string(),
        name: feature.to_string(),
    }
}

fn find_enablers<'a>(rep: &'a Report, f: &Feature) -> Option<&'a Vec<String>> {
    rep.enabled.iter().find(|e| &e.0 == f).map(|e| &e.1)
}

fn sorted_names(v: &Vec<String>) -> Vec<String> {
    let mut s = v.clone();
    s.sort();
    s
}

/// Root `app` depends on `lib` and `tool`; both depend on `serde`, for
/// which the resolver activated `derive` out of declared `{derive, std}`.
fn scenario_graph() -> (ResolvedGraph, PackageIdentity) {
    let mut g = ResolvedGraph::new();
    let app = pid("app", "0.1.0");
    let lib = pid("lib", "1.0");
    let tool = pid("tool", "1.0");
    let serde = pid("serde", "1.0.100");
    assert!(g.add_package(
        app.clone(),
        vec![lib.clone(), tool.clone()],
        strs(&[]),
        strs(&[]),
    ));
    assert!(g.add_package(lib.clone(), vec![serde.clone()], strs(&[]), strs(&[])));
    assert!(g.add_package(tool.clone(), vec![serde.clone()], strs(&[]), strs(&[])));
    assert!(g.add_package(
        serde.clone(),
        vec![],
        strs(&["derive"]),
        strs(&["derive", "std"]),
    ));
    (g, app)
}

#[test]
fn scenario_app_lib_tool_serde() {
    let (g, app) = scenario_graph();
    let rep = aggregate(&g, &app).expect("analysis succeeds");
    let derive = feat("serde", "1.0.100", "derive");
    let std_feat = feat("serde", "1.0.100", "std");
    let enablers = find_enablers(&rep, &derive).expect("serde/derive is enabled");
    assert_eq!(sorted_names(enablers), strs(&["lib", "tool"]));
    assert_eq!(rep.enabled.len(), 1);
    assert_eq!(rep.disabled.len(), 1);
    assert_eq!(rep.disabled[0], std_feat);
}

#[test]
fn diamond_attribution_keeps_both_parents() {
    let mut g = ResolvedGraph::new();
    let root = pid("root", "1.0.0");
    let a = pid("a", "1.0.0");
    let b = pid("b", "1.0.0");
    let c = pid("c", "2.0.0");
    assert!(g.add_package(root.clone(), vec![a.clone(), b.clone()], strs(&[]), strs(&[])));
    assert!(g.add_package(a.clone(), vec![c.clone()], strs(&[]), strs(&[])));
    assert!(g.add_package(b.clone(), vec![c.clone()], strs(&[]), strs(&[])));
    assert!(g.add_package(c.clone(), vec![], strs(&["x"]), strs(&["x"])));
    let rep = aggregate(&g, &root).expect("analysis succeeds");
    let cx = feat("c", "2.0.0", "x");
    let enablers = find_enablers(&rep, &cx).expect("c/x is enabled");
    assert_eq!(sorted_names(enablers), strs(&["a", "b"]));
    assert!(rep.disabled.is_empty());
}

#[test]
fn disabled_judged_after_all_edges() {
    // Two distinct resolved packages share a name and version but come
    // from different sources; the feature key merges them.  The first
    // observed target does not activate `x`, the second does: `x` must be
    // reported enabled, and never disabled.
    let mut g = ResolvedGraph::new();
    let root = pid("root", "1.0.0");
    let c1 = pid_src("c", "1.0.0", "registry");
    let c2 = pid_src("c", "1.0.0", "git");
    assert!(g.add_package(root.clone(), vec![c1.clone(), c2.clone()], strs(&[]), strs(&[])));
    assert!(g.add_package(c1.clone(), vec![], strs(&[]), strs(&["x"])));
    assert!(g.add_package(c2.clone(), vec![], strs(&["x"]), strs(&["x"])));
    let rep = aggregate(&g, &root).expect("analysis succeeds");
    let cx = feat("c", "1.0.0", "x");
    assert!(find_enablers(&rep, &cx).is_some());
    assert!(!rep.disabled.contains(&cx));
}

#[test]
fn completeness_every_declared_feature_reported_once() {
    let (g, app) = scenario_graph();
    let rep = aggregate(&g, &app).expect("analysis succeeds");
    for name in ["derive", "std"] {
        let f = feat("serde", "1.0.100", name);
        let enabled = find_enablers(&rep, &f).is_some();
        let disabled = rep.disabled.contains(&f);
        assert!(enabled != disabled, "feature {name} must be in exactly one collection");
    }
}

#[test]
fn root_features_are_not_reported() {
    let mut g = ResolvedGraph::new();
    let root = pid("root", "1.0.0");
    let dep = pid("dep", "1.0.0");
    assert!(g.add_package(root.clone(), vec![dep.clone()], strs(&["rootfeat"]), strs(&["rootfeat"])));
    assert!(g.add_package(dep.clone(), vec![], strs(&[]), strs(&[])));
    let rep = aggregate(&g, &root).expect("analysis succeeds");
    assert!(rep.enabled.is_empty());
    assert!(rep.disabled.is_empty());
}

#[test]
fn dependency_without_features_contributes_nothing() {
    let mut g = ResolvedGraph::new();
    let root = pid("root", "1.0.0");
    let dep = pid("plain", "0.2.0");
    assert!(g.add_package(root.clone(), vec![dep.clone()], strs(&[]), strs(&[])));
    assert!(g.add_package(dep.clone(), vec![], strs(&[]), strs(&[])));
    let rep = aggregate(&g, &root).expect("analysis succeeds");
    assert!(rep.enabled.is_empty());
    assert!(rep.disabled.is_empty());
}

#[test]
fn idempotence_two_runs_agree() {
    let (g, app) = scenario_graph();
    let r1 = aggregate(&g, &app).expect("first run succeeds");
    let r2 = aggregate(&g, &app).expect("second run succeeds");
    assert_eq!(r1.enabled, r2.enabled);
    assert_eq!(r1.disabled, r2.disabled);
}

#[test]
fn shared_subtrees_terminate_quickly() {
    // A ladder of diamonds: at every level both packages depend on both
    // packages of the next level, so the number of paths is exponential in
    // the depth while the number of distinct edges stays linear.  The
    // traversal expands each package once, so this finishes immediately.
    let depth: usize = 40;
    let mut g = ResolvedGraph::new();
    let root = pid("root", "1.0.0");
    let level = |side: &str, i: usize| pid(&format!("{side}{i}"), "1.0.0");
    let mut deps_of_root = vec![level("a", 0), level("b", 0)];
    assert!(g.add_package(root.clone(), deps_of_root.drain(..).collect(), strs(&[]), strs(&[])));
    for i in 0..depth {
        let next: Vec<PackageIdentity> = if i + 1 < depth {
            vec![level("a", i + 1), level("b", i + 1)]
        } else {
            vec![]
        };
        let (act, decl) = if i + 1 < depth {
            (strs(&[]), strs(&[]))
        } else {
            (strs(&["deep"]), strs(&["deep", "unused"]))
        };
        assert!(g.add_package(level("a", i), next.clone(), act.clone(), decl.clone()));
        assert!(g.add_package(level("b", i), next, act, decl));
    }
    let rep = aggregate(&g, &root).expect("analysis succeeds");
    let fa = feat(&format!("a{}", depth - 1), "1.0.0", "deep");
    let enablers = find_enablers(&rep, &fa).expect("deep feature enabled");
    assert_eq!(
        sorted_names(enablers),
        strs(&[&format!("a{}", depth - 2), &format!("b{}", depth - 2)])
    );
    let fu = feat(&format!("b{}", depth - 1), "1.0.0", "unused");
    assert!(rep.disabled.contains(&fu));
}

#[test]
fn unknown_root_is_fatal() {
    let g = ResolvedGraph::new();
    let root = pid("ghost", "0.0.1");
    let err = aggregate(&g, &root).expect_err("unknown root must fail");
    assert_eq!(err.pkg, root);
}

#[test]
fn unknown_dependency_is_fatal() {
    let mut g = ResolvedGraph::new();
    let root = pid("root", "1.0.0");
    let missing = pid("missing", "1.0.0");
    assert!(g.add_package(root.clone(), vec![missing.clone()], strs(&[]), strs(&[])));
    let err = aggregate(&g, &root).expect_err("unknown dependency must fail");
    assert_eq!(err.pkg, missing);
}

#[test]
fn duplicate_package_is_rejected() {
    let mut g = ResolvedGraph::new();
    let p = pid("p", "1.0.0");
    assert!(g.add_package(p.clone(), vec![], strs(&[]), strs(&[])));
    assert!(!g.add_package(p.clone(), vec![], strs(&["x"]), strs(&["x"])));
}

#[test]
fn report_is_ordered_by_package_then_version_then_feature() {
    let mut g = ResolvedGraph::new();
    let root = pid("root", "1.0.0");
    let zeta = pid("zeta", "1.0.0");
    let alpha2 = pid_src("alpha", "2.0.0", "registry");
    let alpha10 = pid_src("alpha", "10.0.0", "registry");
    assert!(g.add_package(
        root.clone(),
        vec![zeta.clone(), alpha10.clone(), alpha2.clone()],
        strs(&[]),
        strs(&[]),
    ));
    assert!(g.add_package(zeta.clone(), vec![], strs(&["b", "a"]), strs(&["b", "a"])));
    assert!(g.add_package(alpha2.clone(), vec![], strs(&["f"]), strs(&["f"])));
    assert!(g.add_package(alpha10.clone(), vec![], strs(&["f"]), strs(&["f"])));
    let rep = aggregate(&g, &root).expect("analysis succeeds");
    let keys: Vec<Feature> = rep.enabled.iter().map(|e| e.0.clone()).collect();
    // lexicographic order: "10.0.0" sorts before "2.0.0"
    assert_eq!(
        keys,
        vec![
            feat("alpha", "10.0.0", "f"),
            feat("alpha", "2.0.0", "f"),
            feat("zeta", "1.0.0", "a"),
            feat("zeta", "1.0.0", "b"),
        ]
    );
}

#[test]
fn render_feature_line() {
    let f = feat("serde", "1.0.100", "derive");
    assert_eq!(f.render(), "serde-1.0.100/derive");
}

#[test]
fn render_enabled_and_disabled_lines() {
    let mut g = ResolvedGraph::new();
    let root = pid("app", "0.1.0");
    let dep = pid("dep", "3.1.4");
    assert!(g.add_package(root.clone(), vec![dep.clone()], strs(&[]), strs(&[])));
    assert!(g.add_package(dep.clone(), vec![], strs(&["on"]), strs(&["on", "off"])));
    let rep = aggregate(&g, &root).expect("analysis succeeds");
    assert_eq!(rep.enabled_line(0), "dep-3.1.4/on [\"app\"]");
    assert_eq!(rep.disabled_line(0), "dep-3.1.4/off");
}

#[test]
fn enabled_line_joins_several_enablers() {
    let (g, app) = scenario_graph();
    let rep = aggregate(&g, &app).expect("analysis succeeds");
    let line = rep.enabled_line(0);
    assert!(
        line == "serde-1.0.100/derive [\"lib\", \"tool\"]"
            || line == "serde-1.0.100/derive [\"tool\", \"lib\"]",
        "unexpected line: {line}"
    );
}

#[test]
fn duplicate_parent_edges_keep_duplicate_enablers() {
    // The same parent lists the same dependency twice (for instance as a
    // normal and as a development edge); the attribution is recorded per
    // observed edge, so the name appears twice.
    let mut g = ResolvedGraph::new();
    let root = pid("root", "1.0.0");
    let dep = pid("dep", "1.0.0");
    assert!(g.add_package(root.clone(), vec![dep.clone(), dep.clone()], strs(&[]), strs(&[])));
    assert!(g.add_package(dep.clone(), vec![], strs(&["x"]), strs(&["x"])));
    let rep = aggregate(&g, &root).expect("analysis succeeds");
    let enablers = find_enablers(&rep, &feat("dep", "1.0.0", "x")).expect("dep/x enabled");
    assert_eq!(enablers, &strs(&["root", "root"]));
}
