use vstd::prelude::*;

verus! {

/// Overall health of the engine.
#[derive(Debug, Clone, Copy, PartialEq, Eq, Structural)]
pub enum HealthStatus {
    Healthy,
    Degraded,
    Unhealthy,
}

impl HealthStatus {
    /// Lower-case name: "healthy", "degraded" or "unhealthy".
    pub fn to_string(&self) -> (s: String)
        ensures
            s@ == status_name(*self),
    {
        match self {
            HealthStatus::Healthy => "healthy".to_owned(),
            HealthStatus::Degraded => "degraded".to_owned(),
            HealthStatus::Unhealthy => "unhealthy".to_owned(),
        }
    }
}

pub open spec fn status_name(s: HealthStatus) -> Seq<char> {
    match s {
        HealthStatus::Healthy => "healthy"@,
        HealthStatus::Degraded => "degraded"@,
        HealthStatus::Unhealthy => "unhealthy"@,
    }
}

/// Health of one component; an unhealthy one carries a reason.
#[derive(Debug, Clone)]
pub enum ComponentStatus {
    Healthy,
    Unhealthy(String),
}

impl ComponentStatus {
    /// "healthy", or "unhealthy: " followed by the reason.
    pub fn to_string(&self) -> (s: String)
        ensures
            *self matches ComponentStatus::Healthy ==> s@ == "healthy"@,
            *self matches ComponentStatus::Unhealthy(msg) ==> s@ == "unhealthy: "@ + msg@,
    {
        match self {
            ComponentStatus::Healthy => "healthy".to_owned(),
            ComponentStatus::Unhealthy(msg) => {
                let mut s = "unhealthy: ".to_owned();
                s.append(msg.as_str());
                s
            },
        }
    }

    pub open spec fn is_unhealthy(&self) -> bool {
        *self is Unhealthy
    }
}

#[derive(Debug, Clone)]
struct Component {
    name: String,
    status: ComponentStatus,
}

/// A set of named component statuses and the overall verdict over them.
#[derive(Debug, Clone)]
pub struct HealthCheck {
    components: Vec<Component>,
}

/// Number of unhealthy statuses in `s`.
pub open spec fn unhealthy_count(s: Seq<ComponentStatus>) -> nat
    decreases s.len(),
{
    if s.len() == 0 {
        0
    } else {
        unhealthy_count(s.drop_last()) + if s.last().is_unhealthy() {
            1nat
        } else {
            0nat
        }
    }
}

/// Healthy when no component is unhealthy, Unhealthy when all are (and there
/// is at least one), Degraded otherwise.
pub open spec fn overall_status(s: Seq<ComponentStatus>) -> HealthStatus {
    let n = unhealthy_count(s);
    if n == 0 {
        HealthStatus::Healthy
    } else if n < s.len() {
        HealthStatus::Degraded
    } else {
        HealthStatus::Unhealthy
    }
}

proof fn lemma_unhealthy_count_bound(s: Seq<ComponentStatus>)
    ensures
        unhealthy_count(s) <= s.len(),
    decreases s.len(),
{
    if s.len() > 0 {
        lemma_unhealthy_count_bound(s.drop_last());
    }
}

proof fn lemma_unhealthy_count_extremes(s: Seq<ComponentStatus>)
    ensures
        unhealthy_count(s) == 0 <==> forall|i: int| 0 <= i < s.len() ==> !(#[trigger] s[i] is Unhealthy),
        unhealthy_count(s) == s.len() <==> forall|i: int| 0 <= i < s.len() ==> #[trigger] s[i] is Unhealthy,
    decreases s.len(),
{
    lemma_unhealthy_count_bound(s);
    if s.len() > 0 {
        let p = s.drop_last();
        lemma_unhealthy_count_extremes(p);
        lemma_unhealthy_count_bound(p);
        let last = s[s.len() - 1];
        assert(s.last() == last);
        assert(unhealthy_count(s) == unhealthy_count(p) + if last.is_unhealthy() {
            1nat
        } else {
            0nat
        });
        if forall|i: int| 0 <= i < s.len() ==> !(#[trigger] s[i] is Unhealthy) {
            assert forall|i: int| 0 <= i < p.len() implies !(#[trigger] p[i] is Unhealthy) by {
                assert(p[i] == s[i]);
            }
            assert(!(s[s.len() - 1] is Unhealthy));
        }
        if unhealthy_count(s) == 0 {
            assert forall|i: int| 0 <= i < s.len() implies !(#[trigger] s[i] is Unhealthy) by {
                if i < p.len() {
                    assert(p[i] == s[i]);
                }
            }
        }
        if forall|i: int| 0 <= i < s.len() ==> #[trigger] s[i] is Unhealthy {
            assert forall|i: int| 0 <= i < p.len() implies #[trigger] p[i] is Unhealthy by {
                assert(p[i] == s[i]);
            }
            assert(s[s.len() - 1] is Unhealthy);
        }
        if unhealthy_count(s) == s.len() {
            assert forall|i: int| 0 <= i < s.len() implies #[trigger] s[i] is Unhealthy by {
                if i < p.len() {
                    assert(p[i] == s[i]);
                }
            }
        }
    }
}

/// The verdict over the components' statuses: Healthy exactly when no
/// component is unhealthy, Unhealthy exactly when there is a component and
/// every one is unhealthy, Degraded exactly when some are unhealthy and some
/// are not. In particular a single unhealthy component makes the verdict
/// something other than Healthy.
pub proof fn lemma_status_by_components(s: Seq<ComponentStatus>)
    ensures
        (overall_status(s) == HealthStatus::Healthy) <==> forall|i: int|
            0 <= i < s.len() ==> !(#[trigger] s[i] is Unhealthy),
        (overall_status(s) == HealthStatus::Unhealthy) <==> (s.len() > 0 && forall|i: int|
            0 <= i < s.len() ==> #[trigger] s[i] is Unhealthy),
        (overall_status(s) == HealthStatus::Degraded) <==> ((exists|i: int|
            0 <= i < s.len() && #[trigger] s[i] is Unhealthy) && (exists|j: int|
            0 <= j < s.len() && !(#[trigger] s[j] is Unhealthy))),
{
    lemma_unhealthy_count_extremes(s);
    lemma_unhealthy_count_bound(s);
}

impl HealthCheck {
    /// Names of the components, in the order they were added.
    pub closed spec fn names(&self) -> Seq<Seq<char>> {
        self.components@.map_values(|c: Component| c.name@)
    }

    /// Statuses of the components, in the order they were added.
    pub closed spec fn statuses(&self) -> Seq<ComponentStatus> {
        self.components@.map_values(|c: Component| c.status)
    }

    /// Every component has exactly one name and one status: the two views
    /// always have the same length.
    pub proof fn lemma_views_same_length(&self)
        ensures
            self.names().len() == self.statuses().len(),
    {
    }

    pub fn new() -> (h: HealthCheck)
        ensures
            h.names() == Seq::<Seq<char>>::empty(),
            h.statuses() == Seq::<ComponentStatus>::empty(),
    {
        HealthCheck { components: Vec::new() }
    }

    /// Adds a component at the end.
    pub fn component(self, name: &str, status: ComponentStatus) -> (h: HealthCheck)
        ensures
            h.names() == self.names().push(name@),
            h.statuses() == self.statuses().push(status),
    {
        let mut components = self.components;
        components.push(Component { name: name.to_owned(), status });
        let h = HealthCheck { components };
        assert(h.names() =~= self.names().push(name@));
        assert(h.statuses() =~= self.statuses().push(status));
        h
    }

    pub fn status(&self) -> (st: HealthStatus)
        ensures
            st == overall_status(self.statuses()),
    {
        let mut unhealthy: usize = 0;
        let mut i: usize = 0;
        let n = self.components.len();
        while i < n
            invariant
                n == self.components.len(),
                i <= n,
                unhealthy == unhealthy_count(self.statuses().take(i as int)),
                unhealthy <= i,
            decreases n - i,
        {
            assert(self.statuses().take(i + 1).drop_last() =~= self.statuses().take(i as int));
            if let ComponentStatus::Unhealthy(_) = &self.components[i].status {
                unhealthy = unhealthy + 1;
            }
            i = i + 1;
        }
        assert(self.statuses().take(n as int) =~= self.statuses());
        if unhealthy == 0 {
            HealthStatus::Healthy
        } else if unhealthy < n {
            HealthStatus::Degraded
        } else {
            HealthStatus::Unhealthy
        }
    }

    pub fn is_healthy(&self) -> (b: bool)
        ensures
            b == (overall_status(self.statuses()) == HealthStatus::Healthy),
    {
        let st = self.status();
        match st {
            HealthStatus::Healthy => true,
            _ => false,
        }
    }

    /// (name, status) pairs in the order the components were added.
    pub fn components(&self) -> (v: Vec<(&str, &ComponentStatus)>)
        ensures
            v@.len() == self.names().len(),
            v@.len() == self.statuses().len(),
            forall|i: int|
                0 <= i < v@.len() ==> (#[trigger] v@[i]).0@ == self.names()[i] && *v@[i].1
                    == self.statuses()[i],
    {
        let mut v: Vec<(&str, &ComponentStatus)> = Vec::new();
        let mut i: usize = 0;
        while i < self.components.len()
            invariant
                i <= self.components.len(),
                v@.len() == i,
                forall|j: int|
                    0 <= j < i ==> (#[trigger] v@[j]).0@ == self.names()[j] && *v@[j].1
                        == self.statuses()[j],
            decreases self.components.len() - i,
        {
            let c = &self.components[i];
            v.push((c.name.as_str(), &c.status));
            i = i + 1;
        }
        v
    }
}

impl Default for HealthCheck {
    fn default() -> (h: HealthCheck)
        ensures
            h.names() == Seq::<Seq<char>>::empty(),
            h.statuses() == Seq::<ComponentStatus>::empty(),
    {
        HealthCheck::new()
    }
}

/// Adding a healthy component never makes the verdict worse than Degraded
/// and keeps a Healthy check Healthy.
pub proof fn lemma_healthy_component_keeps_healthy(s: Seq<ComponentStatus>)
    requires
        overall_status(s) == HealthStatus::Healthy,
    ensures
        overall_status(s.push(ComponentStatus::Healthy)) == HealthStatus::Healthy,
{
    assert(s.push(ComponentStatus::Healthy).drop_last() =~= s);
}

/// The verdict is Unhealthy exactly when there is a component and all of them
/// are unhealthy.
pub proof fn lemma_unhealthy_iff_all_down(s: Seq<ComponentStatus>)
    ensures
        (overall_status(s) == HealthStatus::Unhealthy) <==> (s.len() > 0 && unhealthy_count(s)
            == s.len()),
{
    lemma_unhealthy_count_bound(s);
}

} // verus!
