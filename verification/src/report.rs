//! The report model: the enabled-feature attribution map and the
//! disabled-feature set, kept in feature order so that output is
//! deterministic for identical input graphs.

use vstd::prelude::*;
use vstd::string::StrSliceExecFns;
use vstd::string::StringExecFns;

use crate::graph::str_views;
use crate::identity::Feature;
use crate::identity::FeatureView;
use crate::identity::PackageIdentity;
use crate::identity::feat_lt;
use crate::identity::feature_lt;
use crate::identity::lemma_feat_lt_asymmetric;
use crate::identity::lemma_feat_lt_irreflexive;
use crate::identity::lemma_feat_lt_transitive;
use crate::identity::lemma_feat_lt_trichotomy;

verus! {

/// Whether an entry for feature `f` is present.
pub open spec fn has_key(entries: Seq<(Feature, Vec<String>)>, f: FeatureView) -> bool {
    exists|i: int| 0 <= i < entries.len() && entries[i].0@ == f
}

/// Whether the entry for feature `f` lists `n` among its enabler names.
pub open spec fn name_listed(
    entries: Seq<(Feature, Vec<String>)>,
    f: FeatureView,
    n: Seq<char>,
) -> bool {
    exists|i: int|
        0 <= i < entries.len() && entries[i].0@ == f && str_views(entries[i].1@).contains(n)
}

/// Whether `f` is among the features of `fs`.
pub open spec fn has_feat(fs: Seq<Feature>, f: FeatureView) -> bool {
    exists|i: int| 0 <= i < fs.len() && fs[i]@ == f
}

/// The position of the entry for feature `f`.
pub open spec fn key_index(entries: Seq<(Feature, Vec<String>)>, f: FeatureView) -> int {
    choose|i: int| 0 <= i < entries.len() && entries[i].0@ == f
}

/// The enabler names the entry for feature `f` lists, in order; empty when
/// no entry for `f` exists.
pub open spec fn entry_names(entries: Seq<(Feature, Vec<String>)>, f: FeatureView) -> Seq<
    Seq<char>,
> {
    if has_key(entries, f) {
        str_views(entries[key_index(entries, f)].1@)
    } else {
        Seq::empty()
    }
}

/// `n` copies of the name `x`.
pub open spec fn repeated(x: Seq<char>, n: nat) -> Seq<Seq<char>>
    decreases n,
{
    if n == 0 {
        Seq::empty()
    } else {
        repeated(x, (n - 1) as nat).push(x)
    }
}

/// How many times the name `nm` stands in `names`.
pub open spec fn occurrences(names: Seq<Seq<char>>, nm: Seq<char>) -> nat
    decreases names.len(),
{
    if names.len() == 0 {
        0
    } else {
        occurrences(names.drop_last(), nm) + (if names.last() == nm {
            1nat
        } else {
            0nat
        })
    }
}

/// Appending `m` copies of the name `x` raises the occurrence count of
/// `x` by `m` and leaves every other name's count unchanged.
pub proof fn lemma_occurrences_append_repeated(
    a: Seq<Seq<char>>,
    x: Seq<char>,
    m: nat,
    n: Seq<char>,
)
    ensures
        occurrences(a + repeated(x, m), n) == occurrences(a, n) + (if n == x {
            m
        } else {
            0nat
        }),
    decreases m,
{
    if m == 0 {
        assert(a + repeated(x, 0) =~= a);
    } else {
        lemma_occurrences_append_repeated(a, x, (m - 1) as nat, n);
        let s = a + repeated(x, (m - 1) as nat);
        assert(a + repeated(x, m) =~= s.push(x));
        assert(s.push(x).drop_last() =~= s);
        assert(s.push(x).last() == x);
    }
}

/// A name's multiplicity in the multiset of a name list is its occurrence
/// count in the list.
pub proof fn lemma_occurrences_count(s: Seq<Seq<char>>, n: Seq<char>)
    ensures
        s.to_multiset().count(n) == occurrences(s, n),
    decreases s.len(),
{
    broadcast use vstd::seq_lib::group_to_multiset_ensures;
    broadcast use vstd::multiset::group_multiset_axioms;

    if s.len() == 0 {
        assert(!s.contains(n));
    } else {
        lemma_occurrences_count(s.drop_last(), n);
        assert(s =~= s.drop_last().push(s.last()));
        assert(s.drop_last().push(s.last()).to_multiset() =~= s.drop_last().to_multiset().insert(
            s.last(),
        ));
    }
}

/// Entries are strictly ascending in feature order (so keys are unique).
pub open spec fn sorted_keys(entries: Seq<(Feature, Vec<String>)>) -> bool {
    forall|i: int, j: int| 0 <= i < j < entries.len() ==> feat_lt(entries[i].0@, entries[j].0@)
}

/// Features are strictly ascending in feature order.
pub open spec fn sorted_feats(fs: Seq<Feature>) -> bool {
    forall|i: int, j: int| 0 <= i < j < fs.len() ==> feat_lt(fs[i]@, fs[j]@)
}

/// The completed analysis: for every dependency of the graph, which
/// features ended up enabled and who enabled them, and which declared
/// features stayed off.  Both collections iterate in feature order.
#[derive(Debug)]
pub struct Report {
    /// One entry per enabled feature: the feature, and the name of every
    /// package whose dependency edge activated it, in traversal order.
    pub enabled: Vec<(Feature, Vec<String>)>,
    /// Every feature that some dependency declares but that no edge of the
    /// graph enabled.
    pub disabled: Vec<Feature>,
}

impl Report {
    /// Both collections are in strictly ascending feature order.
    pub open spec fn wf(&self) -> bool {
        sorted_keys(self.enabled@) && sorted_feats(self.disabled@)
    }

    /// Whether the report lists `f` as enabled.
    pub open spec fn has_enabled(&self, f: FeatureView) -> bool {
        has_key(self.enabled@, f)
    }

    /// Whether the report attributes the enabling of `f` to a package
    /// named `n`.
    pub open spec fn enabler_listed(&self, f: FeatureView, n: Seq<char>) -> bool {
        name_listed(self.enabled@, f, n)
    }

    /// Whether the report lists `f` as declared but disabled.
    pub open spec fn has_disabled(&self, f: FeatureView) -> bool {
        has_feat(self.disabled@, f)
    }
}

/// In a sorted entry list, the entry for a key sits where it is found.
proof fn lemma_key_index_at(entries: Seq<(Feature, Vec<String>)>, i: int)
    requires
        sorted_keys(entries),
        0 <= i < entries.len(),
    ensures
        key_index(entries, entries[i].0@) == i,
{
    let f = entries[i].0@;
    assert(has_key(entries, f));
    let j = key_index(entries, f);
    assert(0 <= j < entries.len() && entries[j].0@ == f);
    lemma_feat_lt_irreflexive(f);
    if i < j {
        assert(feat_lt(entries[i].0@, entries[j].0@));
    } else if j < i {
        assert(feat_lt(entries[j].0@, entries[i].0@));
    }
}

/// Finds the entry for `f`: `Ok(i)` if entry `i` is for `f`, otherwise
/// `Err(i)` with the position at which an entry for `f` would be inserted.
fn search_enabled(entries: &Vec<(Feature, Vec<String>)>, f: &Feature) -> (r: Result<usize, usize>)
    requires
        sorted_keys(entries@),
    ensures
        match r {
            Ok(i) => i < entries@.len() && entries@[i as int].0@ == f@,
            Err(i) => i <= entries@.len() && !has_key(entries@, f@) && (forall|j: int|
                0 <= j < i ==> feat_lt(entries@[j].0@, f@)) && (forall|j: int|
                i <= j < entries@.len() ==> feat_lt(f@, entries@[j].0@)),
        },
{
    let n = entries.len();
    let mut i: usize = 0;
    while i < n
        invariant
            sorted_keys(entries@),
            n == entries@.len(),
            i <= n,
            forall|j: int| 0 <= j < i ==> feat_lt(entries@[j].0@, f@),
        decreases n - i,
    {
        if &entries[i].0 == f {
            return Ok(i);
        }
        if feature_lt(f, &entries[i].0) {
            proof {
                assert forall|j: int| i <= j < entries@.len() implies feat_lt(
                    f@,
                    entries@[j].0@,
                ) by {
                    if j > i {
                        lemma_feat_lt_transitive(f@, entries@[i as int].0@, entries@[j].0@);
                    }
                }
                assert forall|j: int| 0 <= j < entries@.len() implies entries@[j].0@ != f@ by {
                    if j < i {
                        lemma_feat_lt_asymmetric(entries@[j].0@, f@);
                    } else {
                        lemma_feat_lt_asymmetric(f@, entries@[j].0@);
                    }
                }
            }
            return Err(i);
        }
        proof {
            lemma_feat_lt_trichotomy(entries@[i as int].0@, f@);
        }
        i += 1;
    }
    proof {
        assert forall|j: int| 0 <= j < entries@.len() implies entries@[j].0@ != f@ by {
            lemma_feat_lt_asymmetric(entries@[j].0@, f@);
        }
    }
    Err(n)
}

/// What recording one attribution does to the entry list: the key set
/// grows by `f` alone; `f`'s enabler list becomes the old list with `en`
/// appended once; every other entry's list is unchanged; the list stays
/// sorted.
pub open spec fn recorded(
    pre: Seq<(Feature, Vec<String>)>,
    post: Seq<(Feature, Vec<String>)>,
    f: FeatureView,
    en: Seq<char>,
) -> bool {
    &&& sorted_keys(post)
    &&& forall|x: FeatureView| has_key(post, x) <==> has_key(pre, x) || x == f
    &&& forall|x: FeatureView, n: Seq<char>|
        name_listed(post, x, n) <==> name_listed(pre, x, n) || (x == f && n == en)
    &&& entry_names(post, f) == entry_names(pre, f).push(en)
    &&& forall|x: FeatureView| x != f ==> #[trigger] entry_names(post, x) == entry_names(pre, x)
}

/// Records one attribution: the edge from the package named `enabler`
/// enabled feature `f`.  Creates the entry for `f` if it is new, and
/// appends `enabler` to its list of enabler names.
#[verifier::rlimit(100)]
pub fn record_enabled(entries: &mut Vec<(Feature, Vec<String>)>, f: &Feature, enabler: &String)
    requires
        sorted_keys(old(entries)@),
    ensures
        recorded(old(entries)@, final(entries)@, f@, enabler@),
{
    let ghost pre = entries@;
    match search_enabled(entries, f) {
        Ok(i) => {
            let mut entry = entries.remove(i);
            entry.1.push(enabler.clone());
            entries.insert(i, entry);
            proof {
                assert(entries@.len() == pre.len());
                assert forall|k: int| 0 <= k < pre.len() && k != i implies entries@[k] == pre[k] by {
                    if k > i {
                        assert(entries@[k] == pre.remove(i as int).insert(i as int, entry)[k]);
                    }
                }
                assert(entries@[i as int].0 == pre[i as int].0);
                assert(entries@[i as int].1@ == pre[i as int].1@.push(*enabler));
                // keys are unchanged, so order and key membership carry over
                assert forall|x: FeatureView|
                    has_key(entries@, x) <==> has_key(pre, x) || x == f@ by {
                    if has_key(pre, x) {
                        let k = choose|k: int| 0 <= k < pre.len() && pre[k].0@ == x;
                        assert(entries@[k].0@ == x);
                    }
                    if has_key(entries@, x) {
                        let k = choose|k: int| 0 <= k < entries@.len() && entries@[k].0@ == x;
                        assert(pre[k].0@ == x);
                    }
                    if x == f@ {
                        assert(entries@[i as int].0@ == x);
                    }
                }
                assert forall|x: FeatureView, n: Seq<char>|
                    name_listed(entries@, x, n) <==> name_listed(pre, x, n) || (x == f@ && n
                        == enabler@) by {
                    lemma_feat_lt_irreflexive(f@);
                    assert forall|k: int|
                        0 <= k < pre.len() && pre[k].0@ == f@ implies k == i by {
                        if k < i {
                            assert(feat_lt(pre[k].0@, pre[i as int].0@));
                        } else if k > i {
                            assert(feat_lt(pre[i as int].0@, pre[k].0@));
                        }
                    }
                    assert(str_views(entries@[i as int].1@) =~= str_views(pre[i as int].1@).push(
                        enabler@,
                    ));
                    if name_listed(pre, x, n) {
                        let k = choose|k: int|
                            0 <= k < pre.len() && pre[k].0@ == x && str_views(pre[k].1@).contains(
                                n,
                            );
                        if k == i {
                            let m = choose|m: int|
                                0 <= m < str_views(pre[k].1@).len() && str_views(pre[k].1@)[m]
                                    == n;
                            assert(str_views(entries@[k].1@)[m] == n);
                        }
                        assert(name_listed(entries@, x, n));
                    }
                    if x == f@ && n == enabler@ {
                        let s = str_views(entries@[i as int].1@);
                        assert(s[s.len() - 1] == n);
                        assert(name_listed(entries@, x, n));
                    }
                    if name_listed(entries@, x, n) {
                        let k = choose|k: int|
                            0 <= k < entries@.len() && entries@[k].0@ == x && str_views(
                                entries@[k].1@,
                            ).contains(n);
                        if k == i {
                            let m = choose|m: int|
                                0 <= m < str_views(entries@[k].1@).len() && str_views(
                                    entries@[k].1@,
                                )[m] == n;
                            if m < str_views(pre[k].1@).len() {
                                assert(str_views(pre[k].1@)[m] == n);
                            } else {
                                assert(n == enabler@ && x == f@);
                            }
                        } else {
                            assert(str_views(pre[k].1@).contains(n));
                        }
                    }
                }
                assert forall|i2: int, j2: int|
                    0 <= i2 < j2 < entries@.len() implies feat_lt(
                    entries@[i2].0@,
                    entries@[j2].0@,
                ) by {
                    assert(entries@[i2].0 == pre[i2].0);
                    assert(entries@[j2].0 == pre[j2].0);
                }
                lemma_key_index_at(pre, i as int);
                lemma_key_index_at(entries@, i as int);
                assert(key_index(pre, f@) == i as int);
                assert(key_index(entries@, f@) == i as int);
                assert(str_views(entries@[i as int].1@) =~= str_views(pre[i as int].1@).push(
                    enabler@,
                ));
                assert(entry_names(entries@, f@) == entry_names(pre, f@).push(enabler@));
                assert forall|x: FeatureView| x != f@ implies #[trigger] entry_names(entries@, x)
                    == entry_names(pre, x) by {
                    if has_key(pre, x) {
                        let k = choose|k: int| 0 <= k < pre.len() && pre[k].0@ == x;
                        lemma_key_index_at(pre, k);
                        lemma_key_index_at(entries@, k);
                        assert(entries@[k] == pre[k]);
                        assert(entry_names(entries@, x) == str_views(entries@[k].1@));
                        assert(entry_names(pre, x) == str_views(pre[k].1@));
                    } else {
                        assert(!has_key(entries@, x));
                    }
                }
                assert(recorded(pre, entries@, f@, enabler@));
            }
        },
        Err(i) => {
            let mut names: Vec<String> = Vec::new();
            names.push(enabler.clone());
            entries.insert(i, (f.clone(), names));
            proof {
                assert(entries@ == pre.insert(i as int, entries@[i as int]));
                assert(entries@[i as int].0@ == f@);
                assert(str_views(entries@[i as int].1@) =~= Seq::<Seq<char>>::empty().push(
                    enabler@,
                ));
                assert(forall|k: int| 0 <= k < i ==> entries@[k] == pre[k]);
                assert(forall|k: int| i < k < entries@.len() ==> entries@[k] == pre[k - 1]);
                assert forall|x: FeatureView|
                    has_key(entries@, x) <==> has_key(pre, x) || x == f@ by {
                    if has_key(pre, x) {
                        let k = choose|k: int| 0 <= k < pre.len() && pre[k].0@ == x;
                        if k < i {
                            assert(entries@[k].0@ == x);
                        } else {
                            assert(entries@[k + 1].0@ == x);
                        }
                    }
                    if has_key(entries@, x) && x != f@ {
                        let k = choose|k: int| 0 <= k < entries@.len() && entries@[k].0@ == x;
                        if k < i {
                            assert(pre[k].0@ == x);
                        } else {
                            assert(pre[k - 1].0@ == x);
                        }
                    }
                }
                assert forall|x: FeatureView, n: Seq<char>|
                    name_listed(entries@, x, n) <==> name_listed(pre, x, n) || (x == f@ && n
                        == enabler@) by {
                    if name_listed(pre, x, n) {
                        let k = choose|k: int|
                            0 <= k < pre.len() && pre[k].0@ == x && str_views(pre[k].1@).contains(
                                n,
                            );
                        if k < i {
                            assert(entries@[k].0@ == x && str_views(entries@[k].1@).contains(n));
                        } else {
                            assert(entries@[k + 1].0@ == x && str_views(
                                entries@[k + 1].1@,
                            ).contains(n));
                        }
                    }
                    if x == f@ && n == enabler@ {
                        assert(str_views(entries@[i as int].1@)[0] == n);
                        assert(str_views(entries@[i as int].1@).contains(n));
                    }
                    if name_listed(entries@, x, n) {
                        let k = choose|k: int|
                            0 <= k < entries@.len() && entries@[k].0@ == x && str_views(
                                entries@[k].1@,
                            ).contains(n);
                        if k == i {
                            assert(x == f@);
                            assert(str_views(entries@[k].1@) =~= Seq::<Seq<char>>::empty().push(
                                enabler@,
                            ));
                            assert(n == enabler@);
                        } else if k < i {
                            assert(str_views(pre[k].1@).contains(n));
                        } else {
                            assert(str_views(pre[k - 1].1@).contains(n));
                        }
                    }
                }
                assert forall|i2: int, j2: int|
                    0 <= i2 < j2 < entries@.len() implies feat_lt(
                    entries@[i2].0@,
                    entries@[j2].0@,
                ) by {
                    if j2 == i {
                        assert(feat_lt(entries@[i2].0@, f@));
                    } else if i2 == i {
                        assert(feat_lt(f@, pre[j2 - 1].0@));
                    }
                }
                lemma_key_index_at(entries@, i as int);
                assert(key_index(entries@, f@) == i as int);
                assert(entry_names(pre, f@) == Seq::<Seq<char>>::empty());
                assert(str_views(entries@[i as int].1@) =~= Seq::<Seq<char>>::empty().push(
                    enabler@,
                ));
                assert(entry_names(entries@, f@) == entry_names(pre, f@).push(enabler@));
                assert forall|x: FeatureView| x != f@ implies #[trigger] entry_names(entries@, x)
                    == entry_names(pre, x) by {
                    if has_key(pre, x) {
                        let k = choose|k: int| 0 <= k < pre.len() && pre[k].0@ == x;
                        lemma_key_index_at(pre, k);
                        if k < i {
                            lemma_key_index_at(entries@, k);
                            assert(entries@[k] == pre[k]);
                        } else {
                            lemma_key_index_at(entries@, k + 1);
                            assert(entries@[k + 1] == pre[k]);
                        }
                    } else {
                        assert(!has_key(entries@, x));
                    }
                }
                assert(recorded(pre, entries@, f@, enabler@));
            }
        },
    }
}

/// What recording one whole dependency edge does to the entry list: every
/// feature of the owning package whose name stands in `act` gains `en` as
/// an enabler; no other key and no other name appears, and the list stays
/// sorted.
pub open spec fn edge_recorded(
    pre: Seq<(Feature, Vec<String>)>,
    post: Seq<(Feature, Vec<String>)>,
    owner_name: Seq<char>,
    owner_version: Seq<char>,
    act: Seq<String>,
    en: Seq<char>,
) -> bool {
    &&& sorted_keys(post)
    &&& forall|x: FeatureView| #[trigger]
        has_key(post, x) <==> has_key(pre, x) || (x.parent_crate == owner_name && x.version
            == owner_version && str_views(act).contains(x.name))
    &&& forall|x: FeatureView, n: Seq<char>| #[trigger]
        name_listed(post, x, n) <==> name_listed(pre, x, n) || (x.parent_crate == owner_name
            && x.version == owner_version && str_views(act).contains(x.name) && n == en)
    &&& forall|x: FeatureView|
        x.parent_crate == owner_name && x.version == owner_version ==> #[trigger] entry_names(
            post,
            x,
        ) == entry_names(pre, x) + repeated(en, occurrences(str_views(act), x.name))
    &&& forall|x: FeatureView|
        !(x.parent_crate == owner_name && x.version == owner_version) ==> #[trigger] entry_names(
            post,
            x,
        ) == entry_names(pre, x)
}

/// Records the attribution of one dependency edge: for every feature name
/// in `act`, the feature owned by `owner` of that name gains `enabler` as
/// one more enabler.
pub fn record_edge(
    entries: &mut Vec<(Feature, Vec<String>)>,
    owner: &PackageIdentity,
    act: &Vec<String>,
    enabler: &String,
)
    requires
        sorted_keys(old(entries)@),
    ensures
        edge_recorded(old(entries)@, final(entries)@, owner@.name, owner@.version, act@, enabler@),
{
    let ghost pre = entries@;
    proof {
        assert(str_views(act@).take(0) =~= Seq::<Seq<char>>::empty());
        assert forall|x: FeatureView| #[trigger]
            entry_names(pre, x) + repeated(enabler@, occurrences(str_views(act@).take(0), x.name))
            == entry_names(pre, x) by {
            assert(entry_names(pre, x) + Seq::<Seq<char>>::empty() =~= entry_names(pre, x));
        }
    }
    let mut k: usize = 0;
    while k < act.len()
        invariant
            sorted_keys(entries@),
            k <= act@.len(),
            forall|x: FeatureView| #[trigger]
                has_key(entries@, x) <==> has_key(pre, x) || (x.parent_crate == owner@.name
                    && x.version == owner@.version && exists|m: int|
                    0 <= m < k && str_views(act@)[m] == x.name),
            forall|x: FeatureView, n: Seq<char>| #[trigger]
                name_listed(entries@, x, n) <==> name_listed(pre, x, n) || (x.parent_crate
                    == owner@.name && x.version == owner@.version && (exists|m: int|
                    0 <= m < k && str_views(act@)[m] == x.name) && n == enabler@),
            forall|x: FeatureView|
                x.parent_crate == owner@.name && x.version == owner@.version
                    ==> #[trigger] entry_names(entries@, x) == entry_names(pre, x) + repeated(
                    enabler@,
                    occurrences(str_views(act@).take(k as int), x.name),
                ),
            forall|x: FeatureView|
                !(x.parent_crate == owner@.name && x.version == owner@.version)
                    ==> #[trigger] entry_names(entries@, x) == entry_names(pre, x),
        decreases act@.len() - k,
    {
        let feat = Feature {
            parent_crate: owner.name.clone(),
            version: owner.version.clone(),
            name: act[k].clone(),
        };
        proof {
            assert(str_views(act@)[k as int] == act@[k as int]@);
        }
        let ghost cur = entries@;
        record_enabled(entries, &feat, enabler);
        proof {
            assert forall|x: FeatureView|
                (x.parent_crate == owner@.name && x.version == owner@.version && exists|m: int|
                    0 <= m < k + 1 && str_views(act@)[m] == x.name) implies x == feat@ || (
            x.parent_crate == owner@.name && x.version == owner@.version && exists|m: int|
                0 <= m < k && str_views(act@)[m] == x.name) by {
                let m = choose|m: int| 0 <= m < k + 1 && str_views(act@)[m] == x.name;
                if m == k {
                    assert(x == feat@);
                }
            }
            assert(feat@.parent_crate == owner@.name && feat@.version == owner@.version
                && str_views(act@)[k as int] == feat@.name);
            let t1 = str_views(act@).take(k as int + 1);
            assert(t1.drop_last() =~= str_views(act@).take(k as int));
            assert(t1.last() == str_views(act@)[k as int]);
            assert forall|x: FeatureView|
                x.parent_crate == owner@.name && x.version == owner@.version implies #[trigger]
                entry_names(entries@, x) == entry_names(pre, x) + repeated(
                enabler@,
                occurrences(t1, x.name),
            ) by {
                let m0 = occurrences(str_views(act@).take(k as int), x.name);
                if x == feat@ {
                    assert(occurrences(t1, x.name) == m0 + 1);
                    assert(repeated(enabler@, m0 + 1) == repeated(enabler@, m0).push(enabler@));
                    assert(entry_names(cur, x) == entry_names(pre, x) + repeated(enabler@, m0));
                    assert(entry_names(entries@, x) == entry_names(cur, x).push(enabler@));
                    assert((entry_names(pre, x) + repeated(enabler@, m0)).push(enabler@)
                        =~= entry_names(pre, x) + repeated(enabler@, m0).push(enabler@));
                } else {
                    assert(x.name != feat@.name);
                    assert(occurrences(t1, x.name) == m0);
                    assert(entry_names(entries@, x) == entry_names(cur, x));
                }
            }
            assert forall|x: FeatureView|
                !(x.parent_crate == owner@.name && x.version == owner@.version) implies #[trigger]
                entry_names(entries@, x) == entry_names(pre, x) by {
                assert(x != feat@);
                assert(entry_names(entries@, x) == entry_names(cur, x));
            }
        }
        k += 1;
    }
    proof {
        assert forall|x: FeatureView|
            (exists|m: int| 0 <= m < act@.len() && str_views(act@)[m] == x.name)
                <==> str_views(act@).contains(x.name) by {
            if exists|m: int| 0 <= m < act@.len() && str_views(act@)[m] == x.name {
                let m = choose|m: int| 0 <= m < act@.len() && str_views(act@)[m] == x.name;
                assert(str_views(act@)[m] == x.name);
            }
            if str_views(act@).contains(x.name) {
                let m = choose|m: int|
                    0 <= m < str_views(act@).len() && str_views(act@)[m] == x.name;
            }
        }
        assert(str_views(act@).take(act@.len() as int) =~= str_views(act@));
    }
}

/// Decides whether an entry for `f` is present.
pub fn key_present(entries: &Vec<(Feature, Vec<String>)>, f: &Feature) -> (r: bool)
    requires
        sorted_keys(entries@),
    ensures
        r == has_key(entries@, f@),
{
    match search_enabled(entries, f) {
        Ok(i) => {
            proof {
                assert(entries@[i as int].0@ == f@);
            }
            true
        },
        Err(_) => false,
    }
}

/// Finds `f` in a sorted feature list: `Ok(i)` if `fs[i]` is `f`, else
/// `Err(i)` with the insertion position for `f`.
fn search_feats(fs: &Vec<Feature>, f: &Feature) -> (r: Result<usize, usize>)
    requires
        sorted_feats(fs@),
    ensures
        match r {
            Ok(i) => i < fs@.len() && fs@[i as int]@ == f@,
            Err(i) => i <= fs@.len() && !has_feat(fs@, f@) && (forall|j: int|
                0 <= j < i ==> feat_lt(fs@[j]@, f@)) && (forall|j: int|
                i <= j < fs@.len() ==> feat_lt(f@, fs@[j]@)),
        },
{
    let n = fs.len();
    let mut i: usize = 0;
    while i < n
        invariant
            sorted_feats(fs@),
            n == fs@.len(),
            i <= n,
            forall|j: int| 0 <= j < i ==> feat_lt(fs@[j]@, f@),
        decreases n - i,
    {
        if &fs[i] == f {
            return Ok(i);
        }
        if feature_lt(f, &fs[i]) {
            proof {
                assert forall|j: int| i <= j < fs@.len() implies feat_lt(f@, fs@[j]@) by {
                    if j > i {
                        lemma_feat_lt_transitive(f@, fs@[i as int]@, fs@[j]@);
                    }
                }
                assert forall|j: int| 0 <= j < fs@.len() implies fs@[j]@ != f@ by {
                    if j < i {
                        lemma_feat_lt_asymmetric(fs@[j]@, f@);
                    } else {
                        lemma_feat_lt_asymmetric(f@, fs@[j]@);
                    }
                }
            }
            return Err(i);
        }
        proof {
            lemma_feat_lt_trichotomy(fs@[i as int]@, f@);
        }
        i += 1;
    }
    proof {
        assert forall|j: int| 0 <= j < fs@.len() implies fs@[j]@ != f@ by {
            lemma_feat_lt_asymmetric(fs@[j]@, f@);
        }
    }
    Err(n)
}

/// Inserts `f` into the sorted feature list unless it is already present.
pub fn insert_feat(fs: &mut Vec<Feature>, f: Feature)
    requires
        sorted_feats(old(fs)@),
    ensures
        sorted_feats(final(fs)@),
        forall|x: FeatureView| has_feat(final(fs)@, x) <==> has_feat(old(fs)@, x) || x == f@,
{
    let ghost pre = fs@;
    match search_feats(fs, &f) {
        Ok(_i) => {
            proof {
                assert(forall|x: FeatureView| has_feat(fs@, x) <==> has_feat(pre, x) || x == f@);
            }
        },
        Err(i) => {
            fs.insert(i, f);
            proof {
                assert(fs@[i as int]@ == f@);
                assert forall|x: FeatureView|
                    has_feat(fs@, x) <==> has_feat(pre, x) || x == f@ by {
                    if has_feat(pre, x) {
                        let k = choose|k: int| 0 <= k < pre.len() && pre[k]@ == x;
                        if k < i {
                            assert(fs@[k]@ == x);
                        } else {
                            assert(fs@[k + 1]@ == x);
                        }
                    }
                    if has_feat(fs@, x) && x != f@ {
                        let k = choose|k: int| 0 <= k < fs@.len() && fs@[k]@ == x;
                        if k < i {
                            assert(pre[k]@ == x);
                        } else {
                            assert(pre[k - 1]@ == x);
                        }
                    }
                }
                assert forall|i2: int, j2: int|
                    0 <= i2 < j2 < fs@.len() implies feat_lt(fs@[i2]@, fs@[j2]@) by {
                    if j2 == i {
                        assert(feat_lt(fs@[i2]@, f@));
                    } else if i2 == i {
                        assert(feat_lt(f@, pre[j2 - 1]@));
                    }
                }
            }
        },
    }
}

/// The quoted form of an enabler name.
pub open spec fn quoted(n: Seq<char>) -> Seq<char> {
    seq!['"'] + n + seq!['"']
}

/// The rendered list of enabler names: each name quoted, separated by
/// a comma and a space.
pub open spec fn joined_names(ns: Seq<Seq<char>>) -> Seq<char>
    decreases ns.len(),
{
    if ns.len() == 0 {
        Seq::empty()
    } else if ns.len() == 1 {
        quoted(ns[0])
    } else {
        joined_names(ns.drop_last()) + seq![',', ' '] + quoted(ns.last())
    }
}

/// The rendered form of one enabled-feature entry:
/// `<name>-<version>/<feature> ["<enabler>", "<enabler>", ...]`.
pub open spec fn enabled_line_view(f: Feature, ns: Seq<Seq<char>>) -> Seq<char> {
    f.spec_render() + seq![' ', '['] + joined_names(ns) + seq![']']
}

impl Report {
    /// Renders enabled-feature entry `i` as one report line.
    pub fn enabled_line(&self, i: usize) -> (r: String)
        requires
            i < self.enabled@.len(),
        ensures
            r@ == enabled_line_view(self.enabled@[i as int].0, str_views(self.enabled@[i as int].1@)),
    {
        proof {
            reveal_strlit(" [");
            reveal_strlit("]");
            reveal_strlit(", ");
            reveal_strlit("\"");
        }
        let entry = &self.enabled[i];
        let ghost ns = str_views(entry.1@);
        let mut s = entry.0.render();
        s.append(" [");
        proof {
            assert(s@ =~= entry.0.spec_render() + seq![' ', '[']);
            assert(ns.take(0) =~= Seq::<Seq<char>>::empty());
        }
        let mut k: usize = 0;
        while k < entry.1.len()
            invariant
                k <= entry.1@.len(),
                ns == str_views(entry.1@),
                s@ == entry.0.spec_render() + seq![' ', '['] + joined_names(ns.take(k as int)),
            decreases entry.1@.len() - k,
        {
            proof {
                reveal_strlit(", ");
                reveal_strlit("\"");
            }
            if k > 0 {
                s.append(", ");
            }
            s.append("\"");
            s.append(entry.1[k].as_str());
            s.append("\"");
            proof {
                let t = ns.take(k as int + 1);
                assert(t.drop_last() =~= ns.take(k as int));
                assert(t.last() == ns[k as int]);
                if k == 0 {
                    assert(joined_names(t) == quoted(ns[0]));
                    assert(s@ =~= entry.0.spec_render() + seq![' ', '['] + joined_names(t));
                } else {
                    assert(joined_names(t) == joined_names(ns.take(k as int)) + seq![',', ' ']
                        + quoted(ns[k as int]));
                    assert(s@ =~= entry.0.spec_render() + seq![' ', '['] + joined_names(t));
                }
            }
            k += 1;
        }
        s.append("]");
        proof {
            assert(ns.take(entry.1@.len() as int) =~= ns);
            assert(s@ =~= enabled_line_view(entry.0, ns));
        }
        s
    }

    /// Renders disabled-feature entry `i` as one report line.
    pub fn disabled_line(&self, i: usize) -> (r: String)
        requires
            i < self.disabled@.len(),
        ensures
            r@ == self.disabled@[i as int].spec_render(),
    {
        self.disabled[i].render()
    }
}

} // verus!
