use vstd::prelude::*;

verus! {

/// Size class of the memory store, by number of stored entries.
#[derive(Debug, Clone, Copy, PartialEq, Eq, Structural)]
pub enum DataTier {
    Minimal,
    Basic,
    Standard,
    Full,
}

/// Position of a tier in the order Minimal < Basic < Standard < Full.
pub open spec fn tier_rank(t: DataTier) -> int {
    match t {
        DataTier::Minimal => 0,
        DataTier::Basic => 1,
        DataTier::Standard => 2,
        DataTier::Full => 3,
    }
}

/// The tier of a store holding `count` entries.
pub open spec fn tier_for(count: nat) -> DataTier {
    if count < 10 {
        DataTier::Minimal
    } else if count < 100 {
        DataTier::Basic
    } else if count < 1000 {
        DataTier::Standard
    } else {
        DataTier::Full
    }
}

impl DataTier {
    pub fn from_count(count: usize) -> (tier: DataTier)
        ensures
            tier == tier_for(count as nat),
    {
        if count < 10 {
            DataTier::Minimal
        } else if count < 100 {
            DataTier::Basic
        } else if count < 1000 {
            DataTier::Standard
        } else {
            DataTier::Full
        }
    }
}

/// Which engine features are enabled at a given data tier.
#[derive(Debug, Clone, Copy)]
pub struct FeatureGate {
    pub tier: DataTier,
    pub flat_search: bool,
    pub knn_links: bool,
    pub hdbscan_clustering: bool,
    pub multi_resolution: bool,
    pub time_decay: bool,
}

/// The features of a tier. Flat search and time decay are always on; k-NN
/// links need at least the Basic tier, clustering at least Standard, and
/// multi-resolution summaries the Full tier.
pub open spec fn gate_for_tier(t: DataTier, g: FeatureGate) -> bool {
    &&& g.tier == t
    &&& g.flat_search
    &&& g.time_decay
    &&& g.knn_links == (tier_rank(t) >= 1)
    &&& g.hdbscan_clustering == (tier_rank(t) >= 2)
    &&& g.multi_resolution == (tier_rank(t) >= 3)
}

impl FeatureGate {
    pub fn from_count(count: usize) -> (gate: FeatureGate)
        ensures
            gate_for_tier(tier_for(count as nat), gate),
    {
        let tier = DataTier::from_count(count);
        match tier {
            DataTier::Minimal => FeatureGate {
                tier,
                flat_search: true,
                knn_links: false,
                hdbscan_clustering: false,
                multi_resolution: false,
                time_decay: true,
            },
            DataTier::Basic => FeatureGate {
                tier,
                flat_search: true,
                knn_links: true,
                hdbscan_clustering: false,
                multi_resolution: false,
                time_decay: true,
            },
            DataTier::Standard => FeatureGate {
                tier,
                flat_search: true,
                knn_links: true,
                hdbscan_clustering: true,
                multi_resolution: false,
                time_decay: true,
            },
            DataTier::Full => FeatureGate {
                tier,
                flat_search: true,
                knn_links: true,
                hdbscan_clustering: true,
                multi_resolution: true,
                time_decay: true,
            },
        }
    }

    pub fn tier(&self) -> (t: DataTier)
        ensures
            t == self.tier,
    {
        self.tier
    }
}

/// A larger store never sits in a lower tier.
pub proof fn lemma_tier_monotone(a: nat, b: nat)
    requires
        a <= b,
    ensures
        tier_rank(tier_for(a)) <= tier_rank(tier_for(b)),
{
}

/// Growing the store never switches a feature off: every feature enabled for
/// `a` entries is enabled for `b >= a` entries.
pub proof fn lemma_features_monotone(a: nat, b: nat, ga: FeatureGate, gb: FeatureGate)
    requires
        a <= b,
        gate_for_tier(tier_for(a), ga),
        gate_for_tier(tier_for(b), gb),
    ensures
        ga.knn_links ==> gb.knn_links,
        ga.hdbscan_clustering ==> gb.hdbscan_clustering,
        ga.multi_resolution ==> gb.multi_resolution,
        ga.flat_search ==> gb.flat_search,
        ga.time_decay ==> gb.time_decay,
{
}

} // verus!
