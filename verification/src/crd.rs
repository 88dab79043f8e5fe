//! The custom resources of the control plane: what the broker reads of a sandbox.

use vstd::prelude::*;

use crate::text::str_eq;

verus! {

/// Whether the pod of a sandbox is to run.
#[derive(Debug, Clone, Copy, PartialEq, Eq, Structural)]
pub enum OperatingMode {
    /// The pod runs.
    Running,
    /// The pod is gone and the object is kept, so that the sandbox can go on.
    Suspended,
}

impl OperatingMode {
    /// The name of the mode in a resource.
    pub fn as_str(self) -> (r: &'static str)
        ensures
            r@ == match self {
                OperatingMode::Running => "Running"@,
                OperatingMode::Suspended => "Suspended"@,
            },
    {
        match self {
            OperatingMode::Running => "Running",
            OperatingMode::Suspended => "Suspended",
        }
    }
}

/// Whether the object of a sandbox outlives its pod.
#[derive(Debug, Clone, Copy, PartialEq, Eq, Structural)]
pub enum ShutdownPolicy {
    /// The object is kept.
    Retain,
    /// The object goes with the pod.
    Delete,
}

impl ShutdownPolicy {
    /// The name of the policy in a resource.
    pub fn as_str(self) -> (r: &'static str)
        ensures
            r@ == match self {
                ShutdownPolicy::Retain => "Retain"@,
                ShutdownPolicy::Delete => "Delete"@,
            },
    {
        match self {
            ShutdownPolicy::Retain => "Retain",
            ShutdownPolicy::Delete => "Delete",
        }
    }
}

/// An address of a pod.
#[derive(Debug)]
pub struct PodIpEntry {
    /// The address.
    pub ip: String,
}

/// A condition of a sandbox.
#[derive(Debug)]
pub struct SandboxCondition {
    /// What the condition is about.
    pub kind: String,
    /// Whether it holds: `True`, `False` or `Unknown`.
    pub status: String,
    /// Why, for programs.
    pub reason: Option<String>,
    /// Why, for people.
    pub message: Option<String>,
    /// When it last changed.
    pub last_transition_time: Option<String>,
}

/// The state of a sandbox.
#[derive(Debug)]
pub struct SandboxStatus {
    /// The phase of its life.
    pub phase: Option<String>,
    /// The addresses of its pod.
    pub pod_i_ps: Option<Vec<String>>,
    /// Its conditions.
    pub conditions: Option<Vec<SandboxCondition>>,
    /// Whether the controller says that it is ready.
    pub ready: Option<bool>,
    /// What the controller has to say.
    pub message: Option<String>,
}

impl Default for SandboxStatus {
    fn default() -> (r: Self)
        ensures
            r.phase is None,
            r.pod_i_ps is None,
            r.conditions is None,
            r.ready is None,
            r.message is None,
    {
        SandboxStatus { phase: None, pod_i_ps: None, conditions: None, ready: None, message: None }
    }
}

/// Whether a condition says that a sandbox is ready.
pub open spec fn says_ready(c: SandboxCondition) -> bool {
    c.kind@ == "Ready"@ && c.status@ == "True"@
}

/// Whether some condition says that a sandbox is ready.
pub open spec fn some_ready(conditions: Seq<SandboxCondition>) -> bool {
    exists|i: int| 0 <= i < conditions.len() && says_ready(#[trigger] conditions[i])
}

impl SandboxStatus {
    /// Whether some condition says that the sandbox is ready.
    pub fn is_ready(&self) -> (r: bool)
        ensures
            r == match self.conditions {
                Some(v) => some_ready(v@),
                None => false,
            },
    {
        match &self.conditions {
            Some(v) => {
                let mut i: usize = 0;
                while i < v.len()
                    invariant
                        i <= v@.len(),
                        self.conditions == Some(*v),
                        forall|k: int| 0 <= k < i ==> !says_ready(#[trigger] v@[k]),
                    decreases v@.len() - i,
                {
                    if str_eq(v[i].kind.as_str(), "Ready") && str_eq(v[i].status.as_str(), "True") {
                        assert(says_ready(v@[i as int]));
                        assert(some_ready(v@));
                        return true;
                    }
                    i += 1;
                }
                false
            },
            None => false,
        }
    }

    /// The first address of the pod.
    pub fn pod_ip(&self) -> (r: Option<&str>)
        ensures
            match self.pod_i_ps {
                Some(v) => if v@.len() > 0 {
                    r is Some && (r->0)@ == v@[0]@
                } else {
                    r is None
                },
                None => r is None,
            },
    {
        match &self.pod_i_ps {
            Some(v) => if v.len() > 0 {
                Some(v[0].as_str())
            } else {
                None
            },
            None => None,
        }
    }
}

/// The name of the scheme of the bearer key.
pub const BEARER_SCHEME: &'static str = "brokerBearer";

/// Adds the scheme of the bearer key to the description of the interface.
#[derive(Debug, Default)]
pub struct BearerAddon;

impl BearerAddon {
    /// The name of the scheme.
    pub fn scheme(&self) -> (r: &'static str)
        ensures
            r@ == BEARER_SCHEME@,
    {
        BEARER_SCHEME
    }
}

/// A sandbox is ready exactly where one of its conditions is `Ready` and holds,
/// whatever the others say.
pub proof fn law_ready(conditions: Seq<SandboxCondition>, c: SandboxCondition)
    ensures
        !some_ready(seq![]),
        some_ready(conditions.push(c)) <==> some_ready(conditions) || (c.kind@ == "Ready"@
            && c.status@ == "True"@),
{
    let all = conditions.push(c);
    if some_ready(conditions) {
        let i = choose|i: int| 0 <= i < conditions.len() && says_ready(#[trigger] conditions[i]);
        assert(all[i] == conditions[i]);
    }
    assert(all[conditions.len() as int] == c);
    if some_ready(all) && !says_ready(c) {
        let i = choose|i: int| 0 <= i < all.len() && says_ready(#[trigger] all[i]);
        assert(conditions[i] == all[i]);
    }
}

} // verus!
