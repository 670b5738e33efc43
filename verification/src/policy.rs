//! What a workflow may use of the machine and of the network.
use crate::clock::Duration;
use crate::text::{concat2, ends_with, text_eq};
use vstd::prelude::*;

verus! {

/// Bounds for the retry of a failing task.
#[derive(Debug, Clone, Copy, PartialEq, Eq, Structural)]
pub struct RetryBounds {
    /// The number of retries allowed for a task.
    pub max_attempts: usize,
}

/// The limits of an execution. Sensitive capabilities are denied by default.
#[derive(Debug)]
pub struct RuntimePolicy {
    /// The longest time for a workflow, if there is a limit.
    pub max_execution_time: Option<Duration>,
    /// The longest time for a task, if there is a limit.
    pub max_task_time: Option<Duration>,
    /// The number of tasks that may run at once.
    pub max_parallel_tasks: usize,
    /// The number of iterations of a `for` construct.
    pub max_loop_iterations: usize,
    /// The largest payload in bytes, if there is a limit.
    pub max_payload_size: Option<usize>,
    /// The bounds for retries.
    pub retry_bounds: RetryBounds,
    /// Whether scripts may run.
    pub allow_scripts: bool,
    /// Whether containers may run.
    pub allow_containers: bool,
    /// Whether the network may be used at all.
    pub allow_network: bool,
    /// The hosts that may be called. An empty list allows none.
    pub allowed_hosts: Vec<String>,
    /// The URL schemes that may be used. An empty list allows none.
    pub allowed_schemes: Vec<String>,
}

/// Whether a host is the allowed one or a subdomain of it.
pub open spec fn host_matches(host: Seq<char>, allowed: Seq<char>) -> bool {
    host == allowed || ("."@ + allowed).is_suffix_of(host)
}

/// Whether a policy lets a host be called.
pub open spec fn permits_host(p: RuntimePolicy, host: Seq<char>) -> bool {
    p.allow_network && exists|i: int|
        0 <= i < p.allowed_hosts@.len() && host_matches(host, #[trigger] p.allowed_hosts@[i]@)
}

/// Whether a policy lets a URL scheme be used.
pub open spec fn permits_scheme(p: RuntimePolicy, scheme: Seq<char>) -> bool {
    p.allow_network && exists|i: int|
        0 <= i < p.allowed_schemes@.len() && #[trigger] p.allowed_schemes@[i]@ == scheme
}

impl Default for RuntimePolicy {
    fn default() -> (r: Self)
        ensures
            r.max_execution_time is None,
            r.max_task_time is None,
            r.max_parallel_tasks == 1024,
            r.max_loop_iterations == 1_000_000,
            r.max_payload_size is None,
            r.retry_bounds.max_attempts == 10,
            !r.allow_scripts,
            !r.allow_containers,
            !r.allow_network,
            r.allowed_hosts@.len() == 0,
            r.allowed_schemes@.len() == 0,
    {
        Self {
            max_execution_time: None,
            max_task_time: None,
            max_parallel_tasks: 1024,
            max_loop_iterations: 1_000_000,
            max_payload_size: None,
            retry_bounds: RetryBounds { max_attempts: 10 },
            allow_scripts: false,
            allow_containers: false,
            allow_network: false,
            allowed_hosts: Vec::new(),
            allowed_schemes: Vec::new(),
        }
    }
}

impl RuntimePolicy {
    /// Whether a host may be called.
    pub fn host_allowed(&self, host: &str) -> (r: bool)
        ensures
            r == permits_host(*self, host@),
    {
        if !self.allow_network {
            return false;
        }
        let mut i: usize = 0;
        while i < self.allowed_hosts.len()
            invariant
                i <= self.allowed_hosts.len(),
                self.allow_network,
                forall|j: int|
                    0 <= j < i ==> !host_matches(host@, #[trigger] self.allowed_hosts@[j]@),
            decreases self.allowed_hosts.len() - i,
        {
            let allowed = self.allowed_hosts[i].as_str();
            let suffix = concat2(".", allowed);
            if text_eq(host, allowed) || ends_with(host, suffix.as_str()) {
                assert(host_matches(host@, self.allowed_hosts@[i as int]@));
                return true;
            }
            i += 1;
        }
        false
    }

    /// Whether a URL scheme may be used.
    pub fn scheme_allowed(&self, scheme: &str) -> (r: bool)
        ensures
            r == permits_scheme(*self, scheme@),
    {
        if !self.allow_network {
            return false;
        }
        let mut i: usize = 0;
        while i < self.allowed_schemes.len()
            invariant
                i <= self.allowed_schemes.len(),
                self.allow_network,
                forall|j: int| 0 <= j < i ==> #[trigger] self.allowed_schemes@[j]@ != scheme@,
            decreases self.allowed_schemes.len() - i,
        {
            if text_eq(self.allowed_schemes[i].as_str(), scheme) {
                assert(self.allowed_schemes@[i as int]@ == scheme@);
                return true;
            }
            i += 1;
        }
        false
    }
}

/// A policy without network, hosts or schemes permits nothing: what is not
/// allowed is denied.
pub proof fn law_deny_by_default(p: RuntimePolicy, host: Seq<char>, scheme: Seq<char>)
    requires
        !p.allow_network || (p.allowed_hosts@.len() == 0 && p.allowed_schemes@.len() == 0),
    ensures
        !permits_host(p, host),
        !permits_scheme(p, scheme),
{
}

/// Allowing one more host never denies a host that was permitted.
pub proof fn law_more_hosts_permit_more(p: RuntimePolicy, q: RuntimePolicy, host: Seq<char>)
    requires
        permits_host(p, host),
        q.allow_network,
        p.allowed_hosts@.is_prefix_of(q.allowed_hosts@),
    ensures
        permits_host(q, host),
{
    let i = choose|i: int|
        0 <= i < p.allowed_hosts@.len() && host_matches(host, #[trigger] p.allowed_hosts@[i]@);
    assert(q.allowed_hosts@[i] == p.allowed_hosts@[i]);
    assert(host_matches(host, q.allowed_hosts@[i]@));
}

} // verus!
