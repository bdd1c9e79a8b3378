//! The per-target capability manifest: the closed namespace of features and,
//! for each target, the features that it is missing.

use vstd::prelude::*;

use crate::table::{has_key, lookup, Table};
use crate::text::{clone_texts, opt_text, owned, same, views};

verus! {

/// The version of the manifest format.
pub const MANIFEST_VERSION: &'static str = "0.1";

/// How a feature is kept out of targets that are missing it.
#[derive(Debug, Clone, Copy, PartialEq, Eq, Structural)]
pub enum FeatureKind {
    /// Gated surface that the guest imports: a target that is missing it
    /// still has to answer, and declining cases hold it to that.
    Gated,
    /// Surface that is not imported at all: there is nothing to observe at
    /// run time.
    Structure,
}

/// A declared feature.
#[derive(Debug, Clone, PartialEq, Eq)]
pub struct Feature {
    pub kind: FeatureKind,
}

impl View for Feature {
    type V = FeatureKind;

    open spec fn view(&self) -> FeatureKind {
        self.kind
    }
}

/// A failure that is known on a target and tracked.
#[derive(Debug, PartialEq, Eq)]
pub struct KnownFailure {
    pub case: String,
    pub reason: String,
    pub tracking: String,
}

/// A [`KnownFailure`] over texts.
#[verifier::ext_equal]
pub struct KnownView {
    pub case: Seq<char>,
    pub reason: Seq<char>,
    pub tracking: Seq<char>,
}

impl View for KnownFailure {
    type V = KnownView;

    open spec fn view(&self) -> KnownView {
        KnownView { case: self.case@, reason: self.reason@, tracking: self.tracking@ }
    }
}

impl Clone for KnownFailure {
    fn clone(&self) -> (r: Self)
        ensures
            r@ == self@,
    {
        KnownFailure {
            case: self.case.clone(),
            reason: self.reason.clone(),
            tracking: self.tracking.clone(),
        }
    }
}

/// The views of a list of known failures.
pub open spec fn known_views(v: Seq<KnownFailure>) -> Seq<KnownView> {
    Seq::new(v.len(), |i: int| v[i]@)
}

/// A target under test.
#[derive(Debug, PartialEq, Eq, Default)]
pub struct Target {
    /// The features that the target is missing; it serves all others.
    pub missing_features: Vec<String>,
    /// Absent results of an optional target are a warning, not an error.
    pub optional: bool,
    /// Failures that are known on this target.
    pub expected_fail: Vec<KnownFailure>,
}

/// A [`Target`] over texts.
#[verifier::ext_equal]
pub struct TargetView {
    pub missing_features: Seq<Seq<char>>,
    pub optional: bool,
    pub expected_fail: Seq<KnownView>,
}

impl View for Target {
    type V = TargetView;

    open spec fn view(&self) -> TargetView {
        TargetView {
            missing_features: views(self.missing_features@),
            optional: self.optional,
            expected_fail: known_views(self.expected_fail@),
        }
    }
}

impl Clone for Target {
    fn clone(&self) -> (r: Self)
        ensures
            r@ == self@,
    {
        let mut expected_fail: Vec<KnownFailure> = Vec::new();
        for i in 0..self.expected_fail.len()
            invariant
                expected_fail@.len() == i,
                forall|k: int|
                    0 <= k < i ==> (#[trigger] expected_fail@[k])@ == self.expected_fail@[k]@,
        {
            expected_fail.push(self.expected_fail[i].clone());
        }
        assert(known_views(expected_fail@) =~= known_views(self.expected_fail@));
        Target {
            missing_features: clone_texts(&self.missing_features),
            optional: self.optional,
            expected_fail,
        }
    }
}

/// The capability manifest.
#[derive(Debug, Clone, PartialEq, Eq)]
pub struct Manifest {
    /// Format version.
    pub version: String,
    /// Every feature that may be declared, and its kind.
    pub features: Table<Feature>,
    /// The targets under test.
    pub targets: Table<Target>,
}

/// A [`Manifest`] over texts.
#[verifier::ext_equal]
pub struct ManifestView {
    pub version: Seq<char>,
    pub features: Seq<(Seq<char>, FeatureKind)>,
    pub targets: Seq<(Seq<char>, TargetView)>,
}

impl View for Manifest {
    type V = ManifestView;

    open spec fn view(&self) -> ManifestView {
        ManifestView {
            version: self.version@,
            features: self.features@,
            targets: self.targets@,
        }
    }
}

/// The message about a missing-features entry that is no declared feature.
pub open spec fn unclassified_text(target: Seq<char>, feature: Seq<char>) -> Seq<char> {
    "target `"@ + target + "`: missing-features entry `"@ + feature
        + "` is not classified in [features] — only declared features may be declared missing"@
}

/// What is wrong with a target's missing features from the `k`-th on.
pub open spec fn missing_fault(
    features: Seq<(Seq<char>, FeatureKind)>,
    name: Seq<char>,
    missing: Seq<Seq<char>>,
    k: int,
) -> Option<Seq<char>>
    decreases missing.len() - k,
{
    if k < 0 || k >= missing.len() {
        None
    } else if !has_key(features, missing[k]) {
        Some(unclassified_text(name, missing[k]))
    } else {
        missing_fault(features, name, missing, k + 1)
    }
}

/// What is wrong with a target from the `i`-th on.
pub open spec fn targets_fault(m: ManifestView, i: int) -> Option<Seq<char>>
    decreases m.targets.len() - i,
{
    if i < 0 || i >= m.targets.len() {
        None
    } else {
        let (name, target) = m.targets[i];
        match missing_fault(m.features, name, target.missing_features, 0) {
            Some(f) => Some(f),
            None => targets_fault(m, i + 1),
        }
    }
}

/// What is wrong with a manifest, if anything.
pub open spec fn manifest_fault(m: ManifestView) -> Option<Seq<char>> {
    if m.version != MANIFEST_VERSION@ {
        Some("unsupported manifest version "@ + m.version)
    } else if m.targets.len() == 0 {
        Some("manifest declares no targets"@)
    } else {
        targets_fault(m, 0)
    }
}

/// Is every missing feature of every target a declared one?
pub open spec fn is_closed(m: ManifestView) -> bool {
    forall|i: int, k: int|
        0 <= i < m.targets.len() && 0 <= k < m.targets[i].1.missing_features.len() ==> has_key(
            m.features,
            #[trigger] m.targets[i].1.missing_features[k],
        )
}

proof fn lemma_missing_fault(
    features: Seq<(Seq<char>, FeatureKind)>,
    name: Seq<char>,
    missing: Seq<Seq<char>>,
    k: int,
)
    requires
        0 <= k <= missing.len(),
    ensures
        missing_fault(features, name, missing, k) is None <==> forall|j: int|
            k <= j < missing.len() ==> has_key(features, #[trigger] missing[j]),
    decreases missing.len() - k,
{
    if k < missing.len() {
        lemma_missing_fault(features, name, missing, k + 1);
    }
}

proof fn lemma_targets_fault(m: ManifestView, i: int)
    requires
        0 <= i <= m.targets.len(),
    ensures
        targets_fault(m, i) is None <==> forall|j: int, k: int|
            i <= j < m.targets.len() && 0 <= k < m.targets[j].1.missing_features.len() ==> has_key(
                m.features,
                #[trigger] m.targets[j].1.missing_features[k],
            ),
    decreases m.targets.len() - i,
{
    if i < m.targets.len() {
        lemma_targets_fault(m, i + 1);
        let (name, target) = m.targets[i];
        lemma_missing_fault(m.features, name, target.missing_features, 0);
        if targets_fault(m, i) is None {
            assert forall|j: int, k: int|
                i <= j < m.targets.len() && 0 <= k
                    < m.targets[j].1.missing_features.len() implies has_key(
                m.features,
                #[trigger] m.targets[j].1.missing_features[k],
            ) by {
                if j == i {
                    assert(has_key(m.features, target.missing_features[k]));
                }
            }
        } else if missing_fault(m.features, name, target.missing_features, 0) is Some {
            let k = choose|k: int|
                0 <= k < target.missing_features.len() && !has_key(
                    m.features,
                    #[trigger] target.missing_features[k],
                );
            assert(!has_key(m.features, m.targets[i].1.missing_features[k]));
        }
    }
}

/// A manifest is valid exactly when its version is known, it declares a
/// target, and only declared features are declared missing.
pub proof fn law_manifest_fault(m: ManifestView)
    ensures
        manifest_fault(m) is None <==> m.version == MANIFEST_VERSION@ && m.targets.len() > 0
            && is_closed(m),
{
    lemma_targets_fault(m, 0);
}

/// The missing features of a target, if it is declared.
pub open spec fn missing_of(m: ManifestView, target: Seq<char>) -> Option<Seq<Seq<char>>> {
    match lookup(m.targets, target) {
        Some(t) => Some(t.missing_features),
        None => None,
    }
}

impl Manifest {
    fn check_target(&self, i: usize) -> (r: Option<String>)
        requires
            i < self@.targets.len(),
        ensures
            opt_text(r) == missing_fault(
                self@.features,
                self@.targets[i as int].0,
                self@.targets[i as int].1.missing_features,
                0,
            ),
    {
        let name = self.targets.key_at(i);
        let missing = &self.targets.value_at(i).missing_features;
        let ghost ms = views(missing@);
        let mut k: usize = 0;
        while k < missing.len()
            invariant
                k <= missing@.len(),
                ms == views(missing@),
                name@ == self@.targets[i as int].0,
                ms == self@.targets[i as int].1.missing_features,
                missing_fault(self@.features, name@, ms, 0) == missing_fault(
                    self@.features,
                    name@,
                    ms,
                    k as int,
                ),
            decreases missing.len() - k,
        {
            let feature = missing[k].as_str();
            assert(ms[k as int] == feature@);
            if !self.features.contains_key(feature) {
                let mut m = owned("target `");
                m.append(name);
                m.append("`: missing-features entry `");
                m.append(feature);
                m.append(
                    "` is not classified in [features] — only declared features may be declared missing",
                );
                return Some(m);
            }
            k += 1;
        }
        None
    }

    /// Check the manifest against itself: version, at least one target, and
    /// every missing-features entry a declared feature.
    pub fn validate(&self) -> (r: Result<(), String>)
        ensures
            match r {
                Ok(_) => manifest_fault(self@) is None,
                Err(e) => manifest_fault(self@) == Some(e@),
            },
    {
        if !same(self.version.as_str(), MANIFEST_VERSION) {
            let mut m = owned("unsupported manifest version ");
            m.append(self.version.as_str());
            return Err(m);
        }
        if self.targets.is_empty() {
            return Err(owned("manifest declares no targets"));
        }
        let n = self.targets.len();
        let mut i: usize = 0;
        while i < n
            invariant
                i <= n,
                n == self@.targets.len(),
                n > 0,
                self@.version == MANIFEST_VERSION@,
                targets_fault(self@, 0) == targets_fault(self@, i as int),
            decreases n - i,
        {
            match self.check_target(i) {
                Some(m) => {
                    return Err(m);
                },
                None => {},
            }
            i += 1;
        }
        Ok(())
    }

    /// The missing features of a target, if it is declared.
    pub fn missing(&self, target: &str) -> (r: Option<&[String]>)
        ensures
            match r {
                Some(fs) => missing_of(self@, target@) == Some(views(fs@)),
                None => missing_of(self@, target@) is None,
            },
    {
        match self.targets.get(target) {
            Some(t) => Some(t.missing_features.as_slice()),
            None => None,
        }
    }
}

proof fn lemma_missing_says(
    features: Seq<(Seq<char>, FeatureKind)>,
    name: Seq<char>,
    missing: Seq<Seq<char>>,
    k: int,
)
    requires
        0 <= k <= missing.len(),
    ensures
        match missing_fault(features, name, missing, k) {
            Some(e) => exists|x: int|
                k <= x < missing.len() && !has_key(features, #[trigger] missing[x]) && e
                    == unclassified_text(name, missing[x]) && forall|y: int|
                    k <= y < x ==> has_key(features, #[trigger] missing[y]),
            None => true,
        },
    decreases missing.len() - k,
{
    if k < missing.len() {
        lemma_missing_says(features, name, missing, k + 1);
        if !has_key(features, missing[k]) {
            let x = k;
            assert(!has_key(features, missing[x]));
        }
    }
}

/// Do the targets from `i` to `t` declare missing only what is classified?
pub open spec fn classified_between(m: ManifestView, i: int, t: int) -> bool {
    forall|s: int, y: int|
        i <= s < t && 0 <= y < m.targets[s].1.missing_features.len() ==> has_key(
            m.features,
            #[trigger] m.targets[s].1.missing_features[y],
        )
}

proof fn lemma_targets_say(m: ManifestView, i: int)
    requires
        0 <= i <= m.targets.len(),
    ensures
        match targets_fault(m, i) {
            Some(e) => exists|t: int, x: int|
                i <= t && #[trigger] is_unclassified(m, t, x, e) && classified_between(m, i, t),
            None => true,
        },
    decreases m.targets.len() - i,
{
    if i < m.targets.len() {
        lemma_targets_say(m, i + 1);
        let (name, target) = m.targets[i];
        let missing = target.missing_features;
        lemma_missing_says(m.features, name, missing, 0);
        lemma_missing_fault(m.features, name, missing, 0);
        match missing_fault(m.features, name, missing, 0) {
            Some(e) => {
                let x = choose|x: int|
                    0 <= x < missing.len() && !has_key(m.features, #[trigger] missing[x]) && e
                        == unclassified_text(name, missing[x]) && forall|y: int|
                        0 <= y < x ==> has_key(m.features, #[trigger] missing[y]);
                assert(is_unclassified(m, i, x, e));
                assert(classified_between(m, i, i));
            },
            None => {
                if targets_fault(m, i + 1) is Some {
                    let e = targets_fault(m, i + 1)->0;
                    let (t, x) = choose|t: int, x: int|
                        i + 1 <= t && #[trigger] is_unclassified(m, t, x, e) && classified_between(
                            m,
                            i + 1,
                            t,
                        );
                    assert(classified_between(m, i, t)) by {
                        assert forall|s: int, y: int|
                            i <= s < t && 0 <= y < m.targets[s].1.missing_features.len() implies has_key(
                            m.features,
                            #[trigger] m.targets[s].1.missing_features[y],
                        ) by {
                            if s == i {
                                assert(has_key(m.features, missing[y]));
                            }
                        }
                    }
                    assert(is_unclassified(m, t, x, e));
                }
            },
        }
    }
}

/// Is entry `x` of target `t` the first that its target declares missing
/// without the manifest classifying it, and is this its message?
pub open spec fn is_unclassified(m: ManifestView, t: int, x: int, e: Seq<char>) -> bool {
    &&& 0 <= t < m.targets.len()
    &&& 0 <= x < m.targets[t].1.missing_features.len()
    &&& !has_key(m.features, m.targets[t].1.missing_features[x])
    &&& forall|y: int|
        0 <= y < x ==> has_key(m.features, #[trigger] m.targets[t].1.missing_features[y])
    &&& e == "target `"@ + m.targets[t].0 + "`: missing-features entry `"@
        + m.targets[t].1.missing_features[x]
        + "` is not classified in [features] — only declared features may be declared missing"@
}

/// What is told of a manifest is its version where that is unknown, and
/// otherwise the first missing feature that it does not classify, of the first
/// target that has one.
pub proof fn law_manifest_fault_says(m: ManifestView)
    ensures
        m.version != "0.1"@ ==> manifest_fault(m) == Some(
            "unsupported manifest version "@ + m.version,
        ),
        m.version == "0.1"@ && m.targets.len() == 0 ==> manifest_fault(m) == Some(
            "manifest declares no targets"@,
        ),
        m.version == "0.1"@ && m.targets.len() > 0 ==> match manifest_fault(m) {
            Some(e) => exists|t: int, x: int| #[trigger]
                is_unclassified(m, t, x, e) && classified_between(m, 0, t),
            None => forall|t: int, x: int, e: Seq<char>| !#[trigger] is_unclassified(m, t, x, e),
        },
{
    lemma_targets_say(m, 0);
    law_manifest_fault(m);
    if manifest_fault(m) is None {
        assert forall|t: int, x: int, e: Seq<char>| !#[trigger] is_unclassified(m, t, x, e) by {
            if is_unclassified(m, t, x, e) {
                assert(has_key(m.features, m.targets[t].1.missing_features[x]));
            }
        }
    }
}

} // verus!
