//! The resolved-graph accessor: a queryable, already-resolved dependency
//! graph.  For every package it answers three questions — what are its
//! direct dependencies, which of its feature names did the resolver
//! activate, and which feature names does it declare at all.

use vstd::prelude::*;

use crate::identity::PackageIdentity;
use crate::identity::PkgIdView;

verus! {

/// Views of a sequence of package identities.
pub open spec fn pkg_views(s: Seq<PackageIdentity>) -> Seq<PkgIdView> {
    s.map_values(|p: PackageIdentity| p@)
}

/// Views of a sequence of strings.
pub open spec fn str_views(s: Seq<String>) -> Seq<Seq<char>> {
    s.map_values(|x: String| x@)
}

/// The accessor was queried for an identity that is not part of the
/// resolved set.  This is fatal for the whole analysis: the report is only
/// meaningful once every edge has been observed, so no partial report is
/// produced.
#[derive(Debug)]
pub struct UnknownPackage {
    pub pkg: PackageIdentity,
}

struct PackageNode {
    id: PackageIdentity,
    deps: Vec<PackageIdentity>,
    activated: Vec<String>,
    declared: Vec<String>,
}

/// One resolved dependency graph: a collection of packages, each with its
/// direct dependencies, its resolver-activated feature names and its full
/// declared feature list.  Node identities are unique.
pub struct ResolvedGraph {
    nodes: Vec<PackageNode>,
}

impl ResolvedGraph {
    /// Whether `id` names a package of the resolved set.
    pub closed spec fn has_pkg(&self, id: PkgIdView) -> bool {
        exists|i: int| 0 <= i < self.nodes@.len() && self.nodes@[i].id@ == id
    }

    spec fn idx_of(&self, id: PkgIdView) -> int {
        choose|i: int| 0 <= i < self.nodes@.len() && self.nodes@[i].id@ == id
    }

    /// The direct dependency edges of the package named `id`.
    pub closed spec fn deps_of(&self, id: PkgIdView) -> Seq<PkgIdView> {
        pkg_views(self.nodes@[self.idx_of(id)].deps@)
    }

    /// The feature names the resolver turned on for the package named `id`.
    pub closed spec fn activated_of(&self, id: PkgIdView) -> Set<Seq<char>> {
        str_views(self.nodes@[self.idx_of(id)].activated@).to_set()
    }

    /// The resolver's activated-feature list for the package named `id`,
    /// as handed to the accessor: the list behind [`Self::activated_of`],
    /// with its order and its repetitions.
    pub closed spec fn activated_seq(&self, id: PkgIdView) -> Seq<Seq<char>> {
        str_views(self.nodes@[self.idx_of(id)].activated@)
    }

    /// Every feature name the package named `id` exposes, activated or not.
    pub closed spec fn declared_of(&self, id: PkgIdView) -> Set<Seq<char>> {
        str_views(self.nodes@[self.idx_of(id)].declared@).to_set()
    }

    /// Validity: no two nodes share an identity, so every query has one
    /// well-defined answer.
    pub closed spec fn wf(&self) -> bool {
        forall|i: int, j: int|
            0 <= i < j < self.nodes@.len() ==> self.nodes@[i].id@ != self.nodes@[j].id@
    }

    /// The set of identities of the resolved set.
    pub closed spec fn ids_set(&self) -> Set<PkgIdView> {
        self.nodes@.map_values(|n: PackageNode| n.id@).to_set()
    }

    /// How many packages the resolved set holds.
    pub closed spec fn node_len(&self) -> int {
        self.nodes@.len() as int
    }

    /// The identity of the package at position `i` of the resolved set.
    pub closed spec fn id_at(&self, i: int) -> PkgIdView {
        self.nodes@[i].id@
    }

    /// The position of the package named `p` in the resolved set.
    pub closed spec fn pkg_index(&self, p: PkgIdView) -> int {
        self.idx_of(p)
    }

    /// Every known package sits at exactly one position.
    pub proof fn lemma_pkg_index(&self, p: PkgIdView)
        requires
            self.wf(),
            self.has_pkg(p),
        ensures
            0 <= self.pkg_index(p) < self.node_len(),
            self.id_at(self.pkg_index(p)) == p,
            forall|j: int|
                0 <= j < self.node_len() && j != self.pkg_index(p) ==> self.id_at(j) != p,
    {
        let i = self.idx_of(p);
        assert(0 <= i < self.nodes@.len() && self.nodes@[i].id@ == p);
        assert forall|j: int|
            0 <= j < self.node_len() && j != i implies self.id_at(j) != p by {
            if j < i {
                assert(self.nodes@[j].id@ != self.nodes@[i].id@);
            } else {
                assert(self.nodes@[i].id@ != self.nodes@[j].id@);
            }
        }
    }

    /// Known identities are exactly those at some position.
    pub proof fn lemma_id_at_known(&self, i: int)
        requires
            0 <= i < self.node_len(),
        ensures
            self.has_pkg(self.id_at(i)),
    {
    }

    /// `ids_set` is the finite set of exactly the known identities.
    pub proof fn lemma_ids_set(&self)
        ensures
            self.ids_set().finite(),
            forall|p: PkgIdView| self.ids_set().contains(p) <==> self.has_pkg(p),
    {
        broadcast use vstd::seq_lib::seq_to_set_is_finite;

        let ids = self.nodes@.map_values(|n: PackageNode| n.id@);
        assert forall|p: PkgIdView| self.ids_set().contains(p) <==> self.has_pkg(p) by {
            if self.has_pkg(p) {
                let i = choose|i: int| 0 <= i < self.nodes@.len() && self.nodes@[i].id@ == p;
                assert(ids[i] == p);
            }
        }
    }

    proof fn lemma_idx_at(&self, i: int)
        requires
            self.wf(),
            0 <= i < self.nodes@.len(),
        ensures
            self.idx_of(self.nodes@[i].id@) == i,
    {
        let id = self.nodes@[i].id@;
        assert(self.has_pkg(id));
        let j = self.idx_of(id);
        assert(0 <= j < self.nodes@.len() && self.nodes@[j].id@ == id);
        if i < j {
            assert(self.nodes@[i].id@ != self.nodes@[j].id@);
        } else if j < i {
            assert(self.nodes@[j].id@ != self.nodes@[i].id@);
        }
    }

    /// An empty resolved set.
    pub fn new() -> (r: Self)
        ensures
            r.wf(),
            forall|p: PkgIdView| !r.has_pkg(p),
    {
        ResolvedGraph { nodes: Vec::new() }
    }

    fn find_node(&self, p: &PackageIdentity) -> (r: Option<&PackageNode>)
        requires
            self.wf(),
        ensures
            match r {
                Some(n) => self.has_pkg(p@) && n.id@ == p@ && pkg_views(n.deps@) == self.deps_of(
                    p@,
                ) && str_views(n.activated@) == self.activated_seq(p@) && str_views(
                    n.activated@,
                ).to_set() == self.activated_of(p@) && str_views(n.declared@).to_set()
                    == self.declared_of(p@),
                None => !self.has_pkg(p@),
            },
    {
        let mut i: usize = 0;
        while i < self.nodes.len()
            invariant
                self.wf(),
                i <= self.nodes@.len(),
                forall|j: int| 0 <= j < i ==> self.nodes@[j].id@ != p@,
            decreases self.nodes@.len() - i,
        {
            if &self.nodes[i].id == p {
                proof {
                    self.lemma_idx_at(i as int);
                }
                return Some(&self.nodes[i]);
            }
            i += 1;
        }
        None
    }

    /// Adds a package to the resolved set.  Returns `false`, and leaves the
    /// set unchanged, if a package of this identity is already present.
    pub fn add_package(
        &mut self,
        id: PackageIdentity,
        deps: Vec<PackageIdentity>,
        activated: Vec<String>,
        declared: Vec<String>,
    ) -> (r: bool)
        requires
            old(self).wf(),
        ensures
            final(self).wf(),
            r == !old(self).has_pkg(id@),
            !r ==> *final(self) == *old(self),
            r ==> forall|x: PkgIdView|
                final(self).has_pkg(x) <==> old(self).has_pkg(x) || x == id@,
            r ==> final(self).deps_of(id@) == pkg_views(deps@),
            r ==> final(self).activated_of(id@) == str_views(activated@).to_set(),
            r ==> final(self).activated_seq(id@) == str_views(activated@),
            r ==> final(self).declared_of(id@) == str_views(declared@).to_set(),
            r ==> forall|x: PkgIdView|
                #[trigger] old(self).has_pkg(x) ==> final(self).deps_of(x) == old(self).deps_of(x)
                    && final(self).activated_of(x) == old(self).activated_of(x)
                    && final(self).activated_seq(x) == old(self).activated_seq(x)
                    && final(self).declared_of(x) == old(self).declared_of(x),
    {
        if self.find_node(&id).is_some() {
            return false;
        }
        let ghost pre = *self;
        self.nodes.push(PackageNode { id, deps, activated, declared });
        proof {
            let n = self.nodes@.len() - 1;
            assert(self.nodes@[n].id@ == id@);
            assert forall|i: int, j: int|
                0 <= i < j < self.nodes@.len() implies self.nodes@[i].id@ != self.nodes@[j].id@ by {
                if j == n {
                    assert(!pre.has_pkg(id@));
                    assert(pre.nodes@[i].id@ != id@);
                }
            }
            assert forall|x: PkgIdView|
                self.has_pkg(x) <==> pre.has_pkg(x) || x == id@ by {
                if self.has_pkg(x) {
                    let i = choose|i: int|
                        0 <= i < self.nodes@.len() && self.nodes@[i].id@ == x;
                    if i < n {
                        assert(pre.nodes@[i].id@ == x);
                    }
                } else {
                    if pre.has_pkg(x) {
                        let i = choose|i: int|
                            0 <= i < pre.nodes@.len() && pre.nodes@[i].id@ == x;
                        assert(self.nodes@[i].id@ == x);
                    }
                    assert(x != id@);
                }
            }
            self.lemma_idx_at(n);
            assert forall|x: PkgIdView| #[trigger]
                pre.has_pkg(x) implies self.deps_of(x) == pre.deps_of(x) && self.activated_of(x)
                == pre.activated_of(x) && self.declared_of(x) == pre.declared_of(x) by {
                let i = choose|i: int| 0 <= i < pre.nodes@.len() && pre.nodes@[i].id@ == x;
                assert(self.nodes@[i] == pre.nodes@[i]);
                self.lemma_idx_at(i);
                pre.lemma_idx_at(i);
            }
        }
        true
    }

    /// The direct dependencies of `p` in the resolved graph, or the fatal
    /// accessor failure if `p` is not part of the resolved set.
    pub fn dependencies_of<'a>(&'a self, p: &PackageIdentity) -> (r: Result<
        &'a Vec<PackageIdentity>,
        UnknownPackage,
    >)
        requires
            self.wf(),
        ensures
            match r {
                Ok(deps) => self.has_pkg(p@) && pkg_views(deps@) == self.deps_of(p@),
                Err(e) => !self.has_pkg(p@) && e.pkg@ == p@,
            },
    {
        match self.find_node(p) {
            Some(n) => Ok(&n.deps),
            None => Err(UnknownPackage { pkg: p.clone() }),
        }
    }

    /// The feature names the resolver decided are turned on for `p`, or the
    /// fatal accessor failure if `p` is not part of the resolved set.
    pub fn activated_features<'a>(&'a self, p: &PackageIdentity) -> (r: Result<
        &'a Vec<String>,
        UnknownPackage,
    >)
        requires
            self.wf(),
        ensures
            match r {
                Ok(v) => self.has_pkg(p@) && str_views(v@) == self.activated_seq(p@) && str_views(
                    v@,
                ).to_set() == self.activated_of(p@),
                Err(e) => !self.has_pkg(p@) && e.pkg@ == p@,
            },
    {
        match self.find_node(p) {
            Some(n) => Ok(&n.activated),
            None => Err(UnknownPackage { pkg: p.clone() }),
        }
    }

    /// Every feature name `p` exposes, or the fatal accessor failure if `p`
    /// is not part of the resolved set.
    pub fn declared_features<'a>(&'a self, p: &PackageIdentity) -> (r: Result<
        &'a Vec<String>,
        UnknownPackage,
    >)
        requires
            self.wf(),
        ensures
            match r {
                Ok(v) => self.has_pkg(p@) && str_views(v@).to_set() == self.declared_of(p@),
                Err(e) => !self.has_pkg(p@) && e.pkg@ == p@,
            },
    {
        match self.find_node(p) {
            Some(n) => Ok(&n.declared),
            None => Err(UnknownPackage { pkg: p.clone() }),
        }
    }
}

/// `post` holds exactly the identities of `pre`, and `p`.
pub open spec fn views_extended(
    pre: Seq<PackageIdentity>,
    post: Seq<PackageIdentity>,
    p: PkgIdView,
) -> bool {
    forall|x: PkgIdView| #[trigger]
        pkg_views(post).contains(x) <==> pkg_views(pre).contains(x) || x == p
}

/// No two entries of `s` are the same identity.
pub open spec fn no_dup_views(s: Seq<PackageIdentity>) -> bool {
    forall|i: int, j: int| 0 <= i < j < s.len() ==> pkg_views(s)[i] != pkg_views(s)[j]
}

/// Appends `p` unless an identity equal to it is already present.
pub fn push_if_new(v: &mut Vec<PackageIdentity>, p: &PackageIdentity)
    ensures
        views_extended(old(v)@, final(v)@, p@),
        no_dup_views(old(v)@) ==> no_dup_views(final(v)@),
        pkg_views(old(v)@).contains(p@) ==> final(v)@ == old(v)@,
{
    if !contains_pkg(v, p) {
        let ghost pre = v@;
        v.push(p.clone());
        proof {
            assert(pkg_views(v@) =~= pkg_views(pre).push(p@));
            assert forall|x: PkgIdView| #[trigger]
                pkg_views(v@).contains(x) implies pkg_views(pre).contains(x) || x == p@ by {
                let i = choose|i: int| 0 <= i < pkg_views(v@).len() && pkg_views(v@)[i] == x;
                if i < pkg_views(pre).len() {
                    assert(pkg_views(pre)[i] == x);
                }
            }
            assert forall|x: PkgIdView| #[trigger]
                pkg_views(pre).contains(x) implies pkg_views(v@).contains(x) by {
                let i = choose|i: int| 0 <= i < pkg_views(pre).len() && pkg_views(pre)[i] == x;
                assert(pkg_views(v@)[i] == x);
            }
            assert(pkg_views(v@)[pkg_views(v@).len() - 1] == p@);
            assert(pkg_views(v@).contains(p@));
            if no_dup_views(pre) {
                assert forall|i: int, j: int|
                    0 <= i < j < v@.len() implies pkg_views(v@)[i] != pkg_views(v@)[j] by {
                    if j == v@.len() - 1 {
                        assert(pkg_views(v@)[i] == pkg_views(pre)[i]);
                        if pkg_views(pre)[i] == p@ {
                            assert(pkg_views(pre).contains(p@));
                        }
                    } else {
                        assert(pkg_views(v@)[i] == pkg_views(pre)[i]);
                        assert(pkg_views(v@)[j] == pkg_views(pre)[j]);
                    }
                }
                assert(no_dup_views(v@));
            }
        }
    }
}

/// Marks `d` as seen and queues it for edge-walking, unless it was seen
/// before: each identity is enqueued for edge-walking at most once, which
/// bounds the traversal's work on graphs with shared dependencies.
pub fn enqueue_if_new(
    seen: &mut Vec<PackageIdentity>,
    pending: &mut Vec<PackageIdentity>,
    d: &PackageIdentity,
)
    requires
        no_dup_views(old(pending)@),
        forall|x: PkgIdView| #[trigger]
            pkg_views(old(pending)@).contains(x) ==> pkg_views(old(seen)@).contains(x),
    ensures
        views_extended(old(seen)@, final(seen)@, d@),
        no_dup_views(final(pending)@),
        pkg_views(old(seen)@).contains(d@) ==> final(seen)@ == old(seen)@ && final(pending)@
            == old(pending)@,
        !pkg_views(old(seen)@).contains(d@) ==> views_extended(
            old(pending)@,
            final(pending)@,
            d@,
        ),
{
    if !contains_pkg(seen, d) {
        push_if_new(seen, d);
        push_if_new(pending, d);
    } else {
        proof {
            assert(views_extended(seen@, seen@, d@));
        }
    }
}

/// Decides whether `v` holds an identity equal to `p`.
pub fn contains_pkg(v: &Vec<PackageIdentity>, p: &PackageIdentity) -> (r: bool)
    ensures
        r == pkg_views(v@).contains(p@),
{
    let mut i: usize = 0;
    while i < v.len()
        invariant
            i <= v@.len(),
            forall|j: int| 0 <= j < i ==> pkg_views(v@)[j] != p@,
        decreases v@.len() - i,
    {
        if &v[i] == p {
            assert(pkg_views(v@)[i as int] == p@);
            return true;
        }
        i += 1;
    }
    false
}

} // verus!
