use vstd::prelude::*;

verus! {

use crate::error::{ShabtiError, ShabtiResult};
use crate::ids::{is_v4, new_v4, uuid_text, uuid_to_string};
use crate::namespace::NamespacePolicy;

/// State of a share request.
#[derive(Debug, Clone, Copy, PartialEq, Eq, Structural)]
pub enum ShareStatus {
    Pending,
    Accepted,
    Rejected,
}

/// The owner's answer to a share request.
#[derive(Debug, Clone, Copy, PartialEq, Eq, Structural)]
pub enum ShareResponse {
    Accepted,
    Rejected,
}

/// A request that `to_agent` be given access to `namespace` of `from_agent`.
#[derive(Debug, Clone)]
pub struct ShareRequest {
    pub id: u128,
    pub from_agent: u128,
    pub to_agent: u128,
    pub namespace: String,
    pub reason: String,
    pub status: ShareStatus,
}

impl ShareRequest {
    /// A pending request under a fresh random id.
    pub fn new(from_agent: u128, to_agent: u128, namespace: &str, reason: &str) -> (r: ShareRequest)
        ensures
            is_v4(r.id),
            r.from_agent == from_agent,
            r.to_agent == to_agent,
            r.namespace@ == namespace@,
            r.reason@ == reason@,
            r.status == ShareStatus::Pending,
    {
        ShareRequest {
            id: new_v4(),
            from_agent,
            to_agent,
            namespace: namespace.to_owned(),
            reason: reason.to_owned(),
            status: ShareStatus::Pending,
        }
    }

    pub fn is_pending(&self) -> (b: bool)
        ensures
            b == (self.status == ShareStatus::Pending),
    {
        match self.status {
            ShareStatus::Pending => true,
            _ => false,
        }
    }
}

/// Index of the first request with this id, if any.
pub open spec fn first_request(requests: Seq<ShareRequest>, id: u128) -> Option<int> {
    if exists|i: int| 0 <= i < requests.len() && requests[i].id == id {
        Some(
            choose|i: int|
                0 <= i < requests.len() && requests[i].id == id && forall|j: int|
                    0 <= j < i ==> requests[j].id != id,
        )
    } else {
        None
    }
}

/// The requests after recording `r`: it replaces a request with the same id,
/// or joins at the end.
pub open spec fn record_request(requests: Seq<ShareRequest>, r: ShareRequest) -> Seq<ShareRequest> {
    match first_request(requests, r.id) {
        Some(i) => requests.update(i, r),
        None => requests.push(r),
    }
}

/// Keeps the pending requests addressed to `agent_id`.
pub open spec fn pending_to(agent_id: u128) -> spec_fn(ShareRequest) -> bool {
    |r: ShareRequest| r.to_agent == agent_id && r.status == ShareStatus::Pending
}

/// The message of the error for an unknown request.
pub open spec fn not_found_message(id: u128) -> Seq<char> {
    "request "@ + uuid_text(id) + " not found"@
}

/// The message of the error for a request answered before.
pub open spec fn resolved_message(id: u128) -> Seq<char> {
    "request "@ + uuid_text(id) + " already resolved"@
}

/// The status a response gives a pending request.
pub open spec fn status_after(response: ShareResponse) -> ShareStatus {
    match response {
        ShareResponse::Accepted => ShareStatus::Accepted,
        ShareResponse::Rejected => ShareStatus::Rejected,
    }
}

/// "request <id><suffix>", the id in its hyphenated form.
fn request_message(id: u128, suffix: &str) -> (m: String)
    ensures
        m@ == "request "@ + uuid_text(id) + suffix@,
{
    let mut m = "request ".to_owned();
    let id_text = uuid_to_string(id);
    m.append(id_text.as_str());
    m.append(suffix);
    m
}

/// Share requests between agents, keyed by their ids.
#[derive(Debug)]
pub struct SharingProtocol {
    requests: Vec<ShareRequest>,
}

impl SharingProtocol {
    pub closed spec fn request_list(&self) -> Seq<ShareRequest> {
        self.requests@
    }

    pub fn new() -> (p: SharingProtocol)
        ensures
            p.request_list() == Seq::<ShareRequest>::empty(),
    {
        SharingProtocol { requests: Vec::new() }
    }

    fn position(&self, id: u128) -> (r: Option<usize>)
        ensures
            match first_request(self.request_list(), id) {
                Some(i) => r is Some && r.unwrap() as int == i,
                None => r is None,
            },
            r matches Some(k) ==> k < self.request_list().len() && self.request_list()[k as int].id
                == id,
    {
        let mut i: usize = 0;
        while i < self.requests.len()
            invariant
                i <= self.requests.len(),
                forall|j: int| 0 <= j < i ==> self.requests@[j].id != id,
            decreases self.requests.len() - i,
        {
            if self.requests[i].id == id {
                proof {
                    let k = i as int;
                    assert(0 <= k < self.request_list().len() && self.request_list()[k].id == id);
                    let c = first_request(self.request_list(), id).unwrap();
                    if c < k {
                        assert(self.requests@[c].id != id);
                    }
                }
                return Some(i);
            }
            i = i + 1;
        }
        None
    }

    /// Files a pending request under a fresh random id and returns the id.
    pub fn request_share(&mut self, from_agent: u128, to_agent: u128, namespace: &str, reason: &str) -> (id: u128)
        ensures
            exists|r: ShareRequest|
                is_v4(r.id) && r.id == id && r.from_agent == from_agent && r.to_agent == to_agent && r.namespace@
                    == namespace@ && r.reason@ == reason@ && r.status == ShareStatus::Pending
                    && final(self).request_list() == record_request(old(self).request_list(), r),
    {
        let request = ShareRequest::new(from_agent, to_agent, namespace, reason);
        let id = request.id;
        let ghost r = request;
        match self.position(id) {
            Some(i) => {
                self.requests.set(i, request);
            },
            None => {
                self.requests.push(request);
            },
        }
        assert(self.request_list() == record_request(old(self).request_list(), r));
        id
    }

    /// Answers a pending request. Accepting grants the requester access to the
    /// namespace. An unknown request, or one answered before, is an error and
    /// changes nothing.
    pub fn respond(&mut self, request_id: u128, response: ShareResponse, policy: &mut NamespacePolicy) -> (res: ShabtiResult<()>)
        ensures
            match first_request(old(self).request_list(), request_id) {
                None => {
                    &&& res matches Err(ShabtiError::Storage(m)) && m@ == not_found_message(
                        request_id,
                    )
                    &&& final(self).request_list() == old(self).request_list()
                    &&& final(policy).granted() == old(policy).granted()
                },
                Some(i) => {
                    let req = old(self).request_list()[i];
                    if req.status != ShareStatus::Pending {
                        &&& res matches Err(ShabtiError::Storage(m)) && m@ == resolved_message(
                            request_id,
                        )
                        &&& final(self).request_list() == old(self).request_list()
                        &&& final(policy).granted() == old(policy).granted()
                    } else {
                        &&& res is Ok
                        &&& final(self).request_list() == old(self).request_list().update(
                            i,
                            ShareRequest { status: status_after(response), ..req },
                        )
                        &&& final(policy).granted() == if response == ShareResponse::Accepted {
                            old(policy).granted().insert((req.to_agent, req.namespace@))
                        } else {
                            old(policy).granted()
                        }
                    }
                },
            },
    {
        match self.position(request_id) {
            None => Err(ShabtiError::Storage(request_message(request_id, " not found"))),
            Some(i) => {
                let req = &self.requests[i];
                if !req.is_pending() {
                    return Err(ShabtiError::Storage(request_message(request_id, " already resolved")));
                }
                let status = match response {
                    ShareResponse::Accepted => ShareStatus::Accepted,
                    ShareResponse::Rejected => ShareStatus::Rejected,
                };
                let updated = ShareRequest {
                    id: req.id,
                    from_agent: req.from_agent,
                    to_agent: req.to_agent,
                    namespace: req.namespace.clone(),
                    reason: req.reason.clone(),
                    status,
                };
                if let ShareResponse::Accepted = response {
                    policy.grant_access(updated.to_agent, updated.namespace.as_str());
                }
                self.requests.set(i, updated);
                Ok(())
            },
        }
    }

    /// The pending requests addressed to `agent_id`, in filing order.
    pub fn pending_for(&self, agent_id: u128) -> (found: Vec<&ShareRequest>)
        ensures
            found@.len() == self.request_list().filter(pending_to(agent_id)).len(),
            forall|i: int|
                0 <= i < found@.len() ==> *found@[i] == self.request_list().filter(
                    pending_to(agent_id),
                )[i],
    {
        let mut found: Vec<&ShareRequest> = Vec::new();
        let ghost all = self.requests@;
        let mut i: usize = 0;
        while i < self.requests.len()
            invariant
                i <= self.requests.len(),
                all == self.requests@,
                found@.len() == all.subrange(0, i as int).filter(pending_to(agent_id)).len(),
                forall|k: int|
                    0 <= k < found@.len() ==> *found@[k] == all.subrange(0, i as int).filter(
                        pending_to(agent_id),
                    )[k],
            decreases self.requests.len() - i,
        {
            let r = &self.requests[i];
            if r.to_agent == agent_id && r.is_pending() {
                found.push(r);
            }
            proof {
                reveal(Seq::filter);
                let p = pending_to(agent_id);
                let next = all.subrange(0, i + 1);
                assert(next.drop_last() =~= all.subrange(0, i as int));
                assert(next.last() == all[i as int]);
                assert(next.filter(p) == (if p(next.last()) {
                    next.drop_last().filter(p).push(next.last())
                } else {
                    next.drop_last().filter(p)
                }));
            }
            i = i + 1;
        }
        assert(all.subrange(0, all.len() as int) =~= all);
        found
    }
}

impl Default for SharingProtocol {
    fn default() -> (p: SharingProtocol)
        ensures
            p.request_list() == Seq::<ShareRequest>::empty(),
    {
        SharingProtocol::new()
    }
}

/// The least index below `n` that holds a request with this id.
proof fn least_request_index(requests: Seq<ShareRequest>, id: u128, n: int) -> (i: int)
    requires
        0 <= n <= requests.len(),
        exists|k: int| 0 <= k < n && requests[k].id == id,
    ensures
        0 <= i < n,
        requests[i].id == id,
        forall|j: int| 0 <= j < i ==> requests[j].id != id,
    decreases n,
{
    if exists|k: int| 0 <= k < n - 1 && requests[k].id == id {
        least_request_index(requests, id, n - 1)
    } else {
        n - 1
    }
}

/// A request can be answered once: after `respond` answers a pending request,
/// the request is found again under its id and is no longer pending, so a
/// second `respond` on the same id takes the refused branch of its contract
/// (an "already resolved" error that changes neither the requests nor the
/// policy).
pub proof fn lemma_second_respond_refused(requests: Seq<ShareRequest>, id: u128, response: ShareResponse)
    requires
        first_request(requests, id) is Some,
        requests[first_request(requests, id).unwrap()].status == ShareStatus::Pending,
    ensures
        ({
            let i = first_request(requests, id).unwrap();
            let after = requests.update(
                i,
                ShareRequest { status: status_after(response), ..requests[i] },
            );
            &&& first_request(after, id) == Some(i)
            &&& after[i].status != ShareStatus::Pending
        }),
{
    let w = least_request_index(requests, id, requests.len() as int);
    let i = first_request(requests, id).unwrap();
    assert(0 <= i < requests.len() && requests[i].id == id);
    assert(forall|k: int| 0 <= k < i ==> requests[k].id != id);
    let after = requests.update(i, ShareRequest { status: status_after(response), ..requests[i] });
    assert(after[i].id == id);
    let j = first_request(after, id).unwrap();
    if j < i {
        assert(after[j] == requests[j]);
    } else if j > i {
        assert(after[i].id == id);
    }
}

} // verus!
