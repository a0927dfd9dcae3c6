//! Tool approvals: which tools are safe, gated or blocked, and the life of
//! an approval request (pending, then approved, denied or timed out).

use uuid::Builder;
use vstd::prelude::*;

use crate::clock::now_millis;
use crate::keyed::{
    keys_distinct, lemma_keys_distinct_filter, lemma_keys_distinct_push, lemma_keys_distinct_same_keys,
    lemma_keys_distinct_update,
};
use crate::random::os_random_bytes;
use crate::policy::InputAuthority;
use crate::text::str_eq;

verus! {

broadcast use vstd::string::group_string_axioms;

#[derive(Debug, Clone, Copy, PartialEq, Eq, Structural)]
pub enum ToolClassification {
    Safe,
    Gated,
    Blocked,
}

#[derive(Debug, Clone, Copy, PartialEq, Eq, Structural)]
pub enum ApprovalStatus {
    Pending,
    Approved,
    Denied,
    TimedOut,
}

/// The approval settings: whether approvals apply, the blocked and gated
/// tools, and how long a request waits.
#[derive(Debug)]
pub struct ApprovalPolicy {
    pub enabled: bool,
    pub blocked_tools: Vec<String>,
    pub gated_tools: Vec<String>,
    pub timeout_seconds: u64,
}

/// An approval request. Times are milliseconds since the Unix epoch.
#[derive(Debug)]
pub struct ApprovalRequest {
    pub id: String,
    pub tool_name: String,
    pub tool_input: String,
    pub session_id: Option<String>,
    pub requested_authority: InputAuthority,
    pub status: ApprovalStatus,
    pub decided_by: Option<String>,
    pub decided_at: Option<i64>,
    pub timeout_at: i64,
    pub created_at: i64,
}

pub open spec fn opt_text(o: Option<String>) -> Option<Seq<char>> {
    match o {
        Some(s) => Some(s@),
        None => None,
    }
}

/// A request as the contracts see it.
pub struct RequestView {
    pub id: Seq<char>,
    pub tool_name: Seq<char>,
    pub tool_input: Seq<char>,
    pub session_id: Option<Seq<char>>,
    pub requested_authority: InputAuthority,
    pub status: ApprovalStatus,
    pub decided_by: Option<Seq<char>>,
    pub decided: bool,
    pub timeout_at: i64,
    pub created_at: i64,
}

impl View for ApprovalRequest {
    type V = RequestView;

    open spec fn view(&self) -> RequestView {
        RequestView {
            id: self.id@,
            tool_name: self.tool_name@,
            tool_input: self.tool_input@,
            session_id: opt_text(self.session_id),
            requested_authority: self.requested_authority,
            status: self.status,
            decided_by: opt_text(self.decided_by),
            decided: self.decided_at is Some,
            timeout_at: self.timeout_at,
            created_at: self.created_at,
        }
    }
}

fn clone_opt(o: &Option<String>) -> (r: Option<String>)
    ensures
        opt_text(r) == opt_text(*o),
{
    match o {
        Some(s) => Some(s.clone()),
        None => None,
    }
}

impl Clone for ApprovalRequest {
    fn clone(&self) -> (r: Self)
        ensures
            r@ == self@,
    {
        ApprovalRequest {
            id: self.id.clone(),
            tool_name: self.tool_name.clone(),
            tool_input: self.tool_input.clone(),
            session_id: clone_opt(&self.session_id),
            requested_authority: self.requested_authority,
            status: self.status,
            decided_by: clone_opt(&self.decided_by),
            decided_at: self.decided_at,
            timeout_at: self.timeout_at,
            created_at: self.created_at,
        }
    }
}

/// Why an approval operation failed.
#[derive(Debug)]
pub enum ApprovalError {
    /// The tool is blocked by policy.
    Blocked(String),
    /// No request has this id.
    NotFound(String),
    /// The request was already decided; its status.
    AlreadyDecided(String, ApprovalStatus),
    /// No request id could be made: the system's random source failed.
    IdUnavailable,
}

pub open spec fn texts(v: Seq<String>) -> Seq<Seq<char>> {
    v.map_values(|s: String| s@)
}

/// How a tool is classified: blocked if on the blocked list, else gated if
/// on the gated list, else safe.
pub open spec fn classification(blocked: Seq<Seq<char>>, gated: Seq<Seq<char>>, tool: Seq<char>) -> ToolClassification {
    if blocked.contains(tool) {
        ToolClassification::Blocked
    } else if gated.contains(tool) {
        ToolClassification::Gated
    } else {
        ToolClassification::Safe
    }
}

fn listed(list: &Vec<String>, tool: &str) -> (r: bool)
    ensures
        r == texts(list@).contains(tool@),
{
    let ghost lv = texts(list@);
    let mut i: usize = 0;
    while i < list.len()
        invariant
            0 <= i <= list@.len(),
            lv == texts(list@),
            forall|j: int| 0 <= j < i ==> lv[j] != tool@,
        decreases list@.len() - i,
    {
        if str_eq(list[i].as_str(), tool) {
            assert(lv[i as int] == tool@);
            return true;
        }
        i = i + 1;
    }
    false
}

/// The text of the version-4 UUID made from 16 random bytes.
pub uninterp spec fn uuid_v4_text(bytes: Seq<u8>) -> Seq<char>;

/// Calls `Builder::from_random_bytes` (which sets the version-4 and variant
/// bits), `into_uuid` and renders the UUID as hyphenated text: 36
/// characters, a function of the bytes.
#[verifier::external_body]
fn uuid_v4(bytes: &[u8]) -> (r: String)
    requires
        bytes@.len() == 16,
    ensures
        r@ == uuid_v4_text(bytes@),
        r@.len() == 36,
{
    let mut raw = [0u8; 16];
    raw.copy_from_slice(bytes);
    Builder::from_random_bytes(raw).into_uuid().to_string()
}

/// A fresh random request id: the version-4 UUID of 16 bytes from the
/// system's random source, or `None` when that source fails.
fn new_request_id() -> (r: Option<String>)
    ensures
        r matches Some(id) ==> exists|b: Seq<u8>| b.len() == 16 && id@ == uuid_v4_text(b),
{
    match os_random_bytes(16) {
        Some(b) => Some(uuid_v4(b.as_slice())),
        None => None,
    }
}

/// Manages approval requests for gated tools.
pub struct ApprovalManager {
    config: ApprovalPolicy,
    requests: Vec<ApprovalRequest>,
}

pub open spec fn request_views(rs: Seq<ApprovalRequest>) -> Seq<RequestView> {
    rs.map_values(|r: ApprovalRequest| r@)
}

/// The index of the first request with the given id, or -1.
pub open spec fn request_index(rs: Seq<RequestView>, id: Seq<char>) -> int
    decreases rs.len(),
{
    if rs.len() == 0 {
        -1
    } else if rs[0].id == id {
        0
    } else if request_index(rs.drop_first(), id) < 0 {
        -1
    } else {
        1 + request_index(rs.drop_first(), id)
    }
}

proof fn lemma_request_index(rs: Seq<RequestView>, id: Seq<char>, i: int)
    requires
        0 <= i <= rs.len(),
        forall|j: int| 0 <= j < i ==> (#[trigger] rs[j]).id != id,
        i == rs.len() || rs[i].id == id,
    ensures
        request_index(rs, id) == if i == rs.len() {
            -1
        } else {
            i
        },
    decreases i,
{
    if i > 0 {
        assert forall|j: int| 0 <= j < i - 1 implies (#[trigger] rs.drop_first()[j]).id != id by {
            assert(rs.drop_first()[j] == rs[j + 1]);
        }
        if i < rs.len() {
            assert(rs.drop_first()[i - 1] == rs[i]);
        }
        lemma_request_index(rs.drop_first(), id, i - 1);
    }
}

/// A request's key: its id.
pub open spec fn request_key() -> spec_fn(RequestView) -> Seq<char> {
    |q: RequestView| q.id
}

pub open spec fn decided(r: RequestView, status: ApprovalStatus, by: Seq<char>) -> RequestView {
    RequestView { status, decided_by: Some(by), decided: true, ..r }
}

impl ApprovalManager {
    /// The requests, oldest first.
    pub closed spec fn requests(&self) -> Seq<RequestView> {
        request_views(self.requests@)
    }

    pub closed spec fn enabled(&self) -> bool {
        self.config.enabled
    }

    pub closed spec fn blocked(&self) -> Seq<Seq<char>> {
        texts(self.config.blocked_tools@)
    }

    pub closed spec fn gated(&self) -> Seq<Seq<char>> {
        texts(self.config.gated_tools@)
    }

    pub closed spec fn timeout_seconds(&self) -> u64 {
        self.config.timeout_seconds
    }

    /// No two requests have the same id.
    pub closed spec fn ids_distinct(&self) -> bool {
        keys_distinct(self.requests(), request_key())
    }

    pub fn new(config: ApprovalPolicy) -> (r: Self)
        ensures
            r.requests().len() == 0,
            r.ids_distinct(),
            r.enabled() == config.enabled,
            r.blocked() == texts(config.blocked_tools@),
            r.gated() == texts(config.gated_tools@),
            r.timeout_seconds() == config.timeout_seconds,
    {
        ApprovalManager { config, requests: Vec::new() }
    }

    pub fn classify_tool(&self, tool_name: &str) -> (r: ToolClassification)
        ensures
            r == classification(self.blocked(), self.gated(), tool_name@),
    {
        if listed(&self.config.blocked_tools, tool_name) {
            ToolClassification::Blocked
        } else if listed(&self.config.gated_tools, tool_name) {
            ToolClassification::Gated
        } else {
            ToolClassification::Safe
        }
    }

    /// Check a tool before use: every tool is safe while approvals are off;
    /// otherwise a blocked tool is refused.
    pub fn check_tool(&self, tool_name: &str) -> (r: Result<ToolClassification, ApprovalError>)
        ensures
            !self.enabled() ==> (r matches Ok(c) && c == ToolClassification::Safe),
            self.enabled() && classification(self.blocked(), self.gated(), tool_name@)
                == ToolClassification::Blocked ==> (r matches Err(ApprovalError::Blocked(t)) && t@
                == tool_name@),
            self.enabled() && classification(self.blocked(), self.gated(), tool_name@)
                != ToolClassification::Blocked ==> (r matches Ok(c) && c == classification(
                self.blocked(),
                self.gated(),
                tool_name@,
            )),
    {
        if !self.config.enabled {
            return Ok(ToolClassification::Safe);
        }
        let c = self.classify_tool(tool_name);
        if c == ToolClassification::Blocked {
            return Err(ApprovalError::Blocked(tool_name.to_owned()));
        }
        Ok(c)
    }

    fn find(&self, id: &str) -> (r: Option<usize>)
        ensures
            match r {
                Some(i) => i == request_index(self.requests(), id@) && i < self.requests@.len()
                    && self.requests()[i as int].id == id@,
                None => request_index(self.requests(), id@) == -1 && forall|j: int|
                    0 <= j < self.requests@.len() ==> (#[trigger] self.requests()[j]).id != id@,
            },
    {
        let ghost rs = self.requests();
        let mut i: usize = 0;
        while i < self.requests.len()
            invariant
                0 <= i <= self.requests@.len(),
                rs == request_views(self.requests@),
                forall|j: int| 0 <= j < i ==> (#[trigger] rs[j]).id != id@,
            decreases self.requests@.len() - i,
        {
            assert(rs[i as int] == self.requests@[i as int]@);
            if str_eq(self.requests[i].id.as_str(), id) {
                proof {
                    lemma_request_index(rs, id@, i as int);
                }
                return Some(i);
            }
            i = i + 1;
        }
        proof {
            lemma_request_index(rs, id@, i as int);
        }
        None
    }

    /// Open a pending request for a tool call under a fresh random id,
    /// replacing a request that already has that id; it times out after the
    /// configured number of seconds. It fails only when the system's random
    /// source gives no bytes for the id.
    pub fn request_approval(
        &mut self,
        tool_name: &str,
        tool_input: &str,
        session_id: Option<&str>,
        requested_authority: InputAuthority,
    ) -> (r: Result<ApprovalRequest, ApprovalError>)
        ensures
            r is Ok || r == Err::<ApprovalRequest, ApprovalError>(ApprovalError::IdUnavailable),
            r is Err ==> final(self).requests() == old(self).requests(),
            r matches Ok(q) ==> {
                &&& q@.tool_name == tool_name@
                &&& q@.tool_input == tool_input@
                &&& q@.session_id == match session_id {
                    Some(s) => Some(s@),
                    None => None,
                }
                &&& q@.requested_authority == requested_authority
                &&& q@.status == ApprovalStatus::Pending
                &&& q@.decided_by is None
                &&& !q@.decided
                &&& request_index(old(self).requests(), q@.id) < 0 ==> final(self).requests()
                    == old(self).requests().push(q@)
                &&& request_index(old(self).requests(), q@.id) >= 0 ==> final(self).requests()
                    == old(self).requests().update(request_index(old(self).requests(), q@.id), q@)
            },
            old(self).ids_distinct() ==> final(self).ids_distinct(),
            final(self).enabled() == old(self).enabled(),
            final(self).blocked() == old(self).blocked(),
            final(self).gated() == old(self).gated(),
            final(self).timeout_seconds() == old(self).timeout_seconds(),
    {
        let id = match new_request_id() {
            Some(id) => id,
            None => return Err(ApprovalError::IdUnavailable),
        };
        let created = now_millis();
        let wait: i64 = if self.config.timeout_seconds <= (i64::MAX / 1000) as u64 {
            (self.config.timeout_seconds as i64) * 1000
        } else {
            i64::MAX
        };
        let timeout_at: i64 = if created > i64::MAX - wait {
            i64::MAX
        } else {
            created + wait
        };
        let request = ApprovalRequest {
            id,
            tool_name: tool_name.to_owned(),
            tool_input: tool_input.to_owned(),
            session_id: match session_id {
                Some(s) => Some(s.to_owned()),
                None => None,
            },
            requested_authority,
            status: ApprovalStatus::Pending,
            decided_by: None,
            decided_at: None,
            timeout_at,
            created_at: created,
        };
        let ghost before = self.requests();
        let copy = request.clone();
        match self.find(request.id.as_str()) {
            Some(i) => {
                self.requests.remove(i);
                self.requests.insert(i, request);
                assert(self.requests() =~= before.update(i as int, copy@));
                proof {
                    lemma_keys_distinct_update(before, request_key(), i as int, copy@);
                }
            },
            None => {
                self.requests.push(request);
                assert(self.requests() =~= before.push(copy@));
                proof {
                    lemma_keys_distinct_push(before, request_key(), copy@);
                }
            },
        }
        Ok(copy)
    }

    fn decide(&mut self, request_id: &str, decided_by: &str, status: ApprovalStatus) -> (r: Result<
        ApprovalRequest,
        ApprovalError,
    >)
        ensures
            old(self).ids_distinct() ==> final(self).ids_distinct(),
            final(self).enabled() == old(self).enabled(),
            final(self).blocked() == old(self).blocked(),
            final(self).gated() == old(self).gated(),
            final(self).timeout_seconds() == old(self).timeout_seconds(),
            decision_outcome(old(self).requests(), final(self).requests(), request_id@, decided_by@, status, r),
    {
        let ghost rs = self.requests();
        let i = match self.find(request_id) {
            Some(i) => i,
            None => {
                return Err(ApprovalError::NotFound(request_id.to_owned()));
            },
        };
        assert(rs[i as int] == self.requests@[i as int]@);
        if self.requests[i].status != ApprovalStatus::Pending {
            return Err(ApprovalError::AlreadyDecided(request_id.to_owned(), self.requests[i].status));
        }
        let mut request = self.requests.remove(i);
        request.status = status;
        request.decided_by = Some(decided_by.to_owned());
        request.decided_at = Some(now_millis());
        let copy = request.clone();
        self.requests.insert(i, request);
        assert(self.requests() =~= rs.update(i as int, copy@));
        proof {
            lemma_keys_distinct_update(rs, request_key(), i as int, copy@);
        }
        Ok(copy)
    }

    /// Approve a pending request.
    pub fn approve(&mut self, request_id: &str, decided_by: &str) -> (r: Result<ApprovalRequest, ApprovalError>)
        ensures
            old(self).ids_distinct() ==> final(self).ids_distinct(),
            final(self).enabled() == old(self).enabled(),
            final(self).blocked() == old(self).blocked(),
            final(self).gated() == old(self).gated(),
            final(self).timeout_seconds() == old(self).timeout_seconds(),
            decision_outcome(
                old(self).requests(),
                final(self).requests(),
                request_id@,
                decided_by@,
                ApprovalStatus::Approved,
                r,
            ),
    {
        self.decide(request_id, decided_by, ApprovalStatus::Approved)
    }

    /// Deny a pending request.
    pub fn deny(&mut self, request_id: &str, decided_by: &str) -> (r: Result<ApprovalRequest, ApprovalError>)
        ensures
            old(self).ids_distinct() ==> final(self).ids_distinct(),
            final(self).enabled() == old(self).enabled(),
            final(self).blocked() == old(self).blocked(),
            final(self).gated() == old(self).gated(),
            final(self).timeout_seconds() == old(self).timeout_seconds(),
            decision_outcome(
                old(self).requests(),
                final(self).requests(),
                request_id@,
                decided_by@,
                ApprovalStatus::Denied,
                r,
            ),
    {
        self.decide(request_id, decided_by, ApprovalStatus::Denied)
    }
}

/// The outcome of deciding request `id`: refused when there is none or it
/// is no longer pending; otherwise it takes the new status and decider and
/// is returned.
pub open spec fn decision_outcome(
    before: Seq<RequestView>,
    after: Seq<RequestView>,
    id: Seq<char>,
    by: Seq<char>,
    status: ApprovalStatus,
    r: Result<ApprovalRequest, ApprovalError>,
) -> bool {
    let i = request_index(before, id);
    if i < 0 {
        &&& r matches Err(ApprovalError::NotFound(s)) && s@ == id
        &&& after == before
    } else if before[i].status != ApprovalStatus::Pending {
        &&& r matches Err(ApprovalError::AlreadyDecided(s, st)) && s@ == id && st == before[i].status
        &&& after == before
    } else {
        &&& r matches Ok(req) && req@ == decided(before[i], status, by)
        &&& after == before.update(i, decided(before[i], status, by))
    }
}

pub open spec fn is_pending(r: RequestView) -> bool {
    r.status == ApprovalStatus::Pending
}

/// Requests still pending at `now` whose timeout has passed time out.
pub open spec fn expired_at(r: RequestView, now: i64) -> bool {
    r.status == ApprovalStatus::Pending && now >= r.timeout_at
}

pub open spec fn after_expiry(r: RequestView, now: i64) -> RequestView {
    if expired_at(r, now) {
        RequestView { status: ApprovalStatus::TimedOut, ..r }
    } else {
        r
    }
}

/// The ids, as character sequences.
pub open spec fn id_views(ids: Seq<String>) -> Seq<Seq<char>> {
    ids.map_values(|s: String| s@)
}

/// What expiring at `now` does: every pending request past its deadline
/// times out, the settings stay, and the timed-out ids come back in order.
pub open spec fn expiry_outcome(
    before: ApprovalManager,
    after: ApprovalManager,
    ids: Seq<Seq<char>>,
    now: i64,
) -> bool {
    &&& after.requests() == before.requests().map_values(|q: RequestView| after_expiry(q, now))
    &&& ids == before.requests().filter(|q: RequestView| expired_at(q, now)).map_values(
        |q: RequestView| q.id,
    )
    &&& after.enabled() == before.enabled()
    &&& after.blocked() == before.blocked()
    &&& after.gated() == before.gated()
    &&& after.timeout_seconds() == before.timeout_seconds()
}

impl ApprovalManager {
    /// A copy of the request with the given id.
    pub fn get_request(&self, request_id: &str) -> (r: Option<ApprovalRequest>)
        ensures
            request_index(self.requests(), request_id@) >= 0 ==> (r matches Some(q) && q@
                == self.requests()[request_index(self.requests(), request_id@)]),
            request_index(self.requests(), request_id@) < 0 ==> r is None,
    {
        match self.find(request_id) {
            Some(i) => {
                assert(self.requests()[i as int] == self.requests@[i as int]@);
                Some(self.requests[i].clone())
            },
            None => None,
        }
    }

    /// Copies of the pending requests.
    pub fn list_pending(&self) -> (r: Vec<ApprovalRequest>)
        ensures
            request_views(r@) == self.requests().filter(|q: RequestView| is_pending(q)),
    {
        let ghost rs = self.requests();
        let mut out: Vec<ApprovalRequest> = Vec::new();
        let mut i: usize = 0;
        while i < self.requests.len()
            invariant
                0 <= i <= self.requests@.len(),
                rs == request_views(self.requests@),
                request_views(out@) == rs.take(i as int).filter(|q: RequestView| is_pending(q)),
            decreases self.requests@.len() - i,
        {
            reveal_with_fuel(Seq::<_>::filter, 1);
            assert(rs.take(i + 1).drop_last() =~= rs.take(i as int));
            assert(rs.take(i + 1).last() == self.requests@[i as int]@);
            if self.requests[i].status == ApprovalStatus::Pending {
                let ghost o0 = request_views(out@);
                let c = self.requests[i].clone();
                out.push(c);
                assert(request_views(out@) =~= o0.push(self.requests@[i as int]@));
            }
            i = i + 1;
        }
        assert(rs.take(self.requests@.len() as int) =~= rs);
        out
    }

    /// Copies of all requests.
    pub fn list_all(&self) -> (r: Vec<ApprovalRequest>)
        ensures
            request_views(r@) == self.requests(),
    {
        let ghost rs = self.requests();
        let mut out: Vec<ApprovalRequest> = Vec::new();
        let mut i: usize = 0;
        while i < self.requests.len()
            invariant
                0 <= i <= self.requests@.len(),
                rs == request_views(self.requests@),
                request_views(out@) == rs.take(i as int),
            decreases self.requests@.len() - i,
        {
            let ghost o0 = request_views(out@);
            let c = self.requests[i].clone();
            out.push(c);
            assert(request_views(out@) =~= o0.push(rs[i as int]));
            assert(rs.take(i + 1) =~= rs.take(i as int).push(rs[i as int]));
            i = i + 1;
        }
        assert(rs.take(self.requests@.len() as int) =~= rs);
        out
    }

    /// Time out every request still pending whose deadline is at or before
    /// `now` (milliseconds); returns their ids in request order.
    pub fn expire_at(&mut self, now: i64) -> (r: Vec<String>)
        ensures
            old(self).ids_distinct() ==> final(self).ids_distinct(),
            expiry_outcome(*old(self), *final(self), id_views(r@), now),
    {
        let ghost rs = self.requests();
        let mut expired: Vec<String> = Vec::new();
        let mut i: usize = 0;
        while i < self.requests.len()
            invariant
                0 <= i <= self.requests@.len(),
                self.requests@.len() == rs.len(),
                self.config == old(self).config,
                forall|j: int| 0 <= j < i ==> (#[trigger] self.requests@[j])@ == after_expiry(rs[j], now),
                forall|j: int| i <= j < rs.len() ==> (#[trigger] self.requests@[j])@ == rs[j],
                expired@.map_values(|s: String| s@) == rs.take(i as int).filter(
                    |q: RequestView| expired_at(q, now),
                ).map_values(|q: RequestView| q.id),
            decreases self.requests@.len() - i,
        {
            reveal_with_fuel(Seq::<_>::filter, 1);
            assert(rs.take(i + 1).drop_last() =~= rs.take(i as int));
            assert(rs.take(i + 1).last() == rs[i as int]);
            let ghost e0 = expired@.map_values(|s: String| s@);
            let ghost pre = rs.take(i as int).filter(|q: RequestView| expired_at(q, now));
            if self.requests[i].status == ApprovalStatus::Pending && now >= self.requests[i].timeout_at {
                let mut request = self.requests.remove(i);
                request.status = ApprovalStatus::TimedOut;
                expired.push(request.id.clone());
                self.requests.insert(i, request);
                assert(expired@.map_values(|s: String| s@) =~= e0.push(rs[i as int].id));
                assert(pre.push(rs[i as int]).map_values(|q: RequestView| q.id) =~= pre.map_values(
                    |q: RequestView| q.id,
                ).push(rs[i as int].id));
            }
            i = i + 1;
        }
        assert(rs.take(rs.len() as int) =~= rs);
        assert(self.requests() =~= rs.map_values(|q: RequestView| after_expiry(q, now)));
        proof {
            lemma_keys_distinct_same_keys(rs, self.requests(), request_key(), request_key());
        }
        expired
    }

    /// Time out every pending request whose deadline has passed by the
    /// current time; returns their ids.
    pub fn expire_timed_out(&mut self) -> (r: Vec<String>)
        ensures
            old(self).ids_distinct() ==> final(self).ids_distinct(),
            exists|now: i64|
                #[trigger] expiry_outcome(*old(self), *final(self), id_views(r@), now),
    {
        let now = now_millis();
        self.expire_at(now)
    }

    /// Drop every request that is no longer pending; returns how many.
    pub fn clear_decided(&mut self) -> (r: usize)
        ensures
            old(self).ids_distinct() ==> final(self).ids_distinct(),
            final(self).requests() == old(self).requests().filter(|q: RequestView| is_pending(q)),
            r == old(self).requests().len() - final(self).requests().len(),
            final(self).enabled() == old(self).enabled(),
            final(self).blocked() == old(self).blocked(),
            final(self).gated() == old(self).gated(),
            final(self).timeout_seconds() == old(self).timeout_seconds(),
    {
        let ghost rs = self.requests();
        let before = self.requests.len();
        let mut kept: Vec<ApprovalRequest> = Vec::new();
        let mut old_requests: Vec<ApprovalRequest> = Vec::new();
        std::mem::swap(&mut old_requests, &mut self.requests);
        assert(request_views(old_requests@) == rs);
        let mut i: usize = 0;
        while i < old_requests.len()
            invariant
                0 <= i <= old_requests@.len(),
                rs == request_views(old_requests@),
                request_views(kept@) == rs.take(i as int).filter(|q: RequestView| is_pending(q)),
            decreases old_requests@.len() - i,
        {
            reveal_with_fuel(Seq::<_>::filter, 1);
            assert(rs.take(i + 1).drop_last() =~= rs.take(i as int));
            assert(rs.take(i + 1).last() == old_requests@[i as int]@);
            if old_requests[i].status == ApprovalStatus::Pending {
                let ghost k0 = request_views(kept@);
                kept.push(old_requests[i].clone());
                assert(request_views(kept@) =~= k0.push(old_requests@[i as int]@));
            }
            i = i + 1;
        }
        assert(rs.take(old_requests@.len() as int) =~= rs);
        proof {
            rs.lemma_filter_len(|q: RequestView| is_pending(q));
            if keys_distinct(rs, request_key()) {
                lemma_keys_distinct_filter(rs, request_key(), |q: RequestView| is_pending(q));
            }
        }
        self.requests = kept;
        before - self.requests.len()
    }
}

} // verus!
