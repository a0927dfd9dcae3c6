//! Services the agent offers: a catalog, and the life of each request for a
//! service (quoted, paid, in progress, then completed or failed).
//!
//! Prices are decimal amounts and are kept beside the catalog by the
//! caller; the catalog here holds what the request life cycle reads.

use vstd::prelude::*;

use crate::clock::now_millis;
use crate::text::{decimal, decimal_u64_chars, from_chars, push_str, str_eq};

verus! {

broadcast use vstd::string::group_string_axioms;

/// A service in the catalog.
#[derive(Debug)]
pub struct ServiceDefinition {
    pub id: String,
    pub name: String,
    pub description: String,
    pub capabilities_required: Vec<String>,
    pub max_concurrent: usize,
    pub estimated_duration_seconds: u64,
}

pub open spec fn texts(v: Seq<String>) -> Seq<Seq<char>> {
    v.map_values(|s: String| s@)
}

pub struct ServiceView {
    pub id: Seq<char>,
    pub name: Seq<char>,
    pub description: Seq<char>,
    pub capabilities_required: Seq<Seq<char>>,
    pub max_concurrent: usize,
    pub estimated_duration_seconds: u64,
}

impl View for ServiceDefinition {
    type V = ServiceView;

    open spec fn view(&self) -> ServiceView {
        ServiceView {
            id: self.id@,
            name: self.name@,
            description: self.description@,
            capabilities_required: texts(self.capabilities_required@),
            max_concurrent: self.max_concurrent,
            estimated_duration_seconds: self.estimated_duration_seconds,
        }
    }
}

fn clone_strings(v: &Vec<String>) -> (r: Vec<String>)
    ensures
        texts(r@) == texts(v@),
{
    let mut out: Vec<String> = Vec::new();
    let mut i: usize = 0;
    while i < v.len()
        invariant
            0 <= i <= v@.len(),
            texts(out@) == texts(v@).take(i as int),
        decreases v@.len() - i,
    {
        let ghost o0 = texts(out@);
        out.push(v[i].clone());
        assert(texts(out@) =~= o0.push(v@[i as int]@));
        assert(texts(v@).take(i + 1) =~= texts(v@).take(i as int).push(v@[i as int]@));
        i = i + 1;
    }
    assert(texts(v@).take(v@.len() as int) =~= texts(v@));
    out
}

impl Clone for ServiceDefinition {
    fn clone(&self) -> (r: Self)
        ensures
            r@ == self@,
    {
        ServiceDefinition {
            id: self.id.clone(),
            name: self.name.clone(),
            description: self.description.clone(),
            capabilities_required: clone_strings(&self.capabilities_required),
            max_concurrent: self.max_concurrent,
            estimated_duration_seconds: self.estimated_duration_seconds,
        }
    }
}

#[derive(Debug, Clone, Copy, PartialEq, Eq, Structural)]
pub enum ServiceStatus {
    Quoted,
    PaymentPending,
    PaymentVerified,
    InProgress,
    Completed,
    Failed,
    Refunded,
}

/// A request for a service. `parameters` is the client's parameters as
/// JSON text; times are milliseconds since the Unix epoch.
#[derive(Debug)]
pub struct ServiceRequest {
    pub id: String,
    pub service_id: String,
    pub requester: String,
    pub parameters: String,
    pub status: ServiceStatus,
    pub payment_tx: Option<String>,
    pub created_at: i64,
    pub completed_at: Option<i64>,
}

pub open spec fn opt_text(o: Option<String>) -> Option<Seq<char>> {
    match o {
        Some(s) => Some(s@),
        None => None,
    }
}

pub struct ServiceRequestView {
    pub id: Seq<char>,
    pub service_id: Seq<char>,
    pub requester: Seq<char>,
    pub parameters: Seq<char>,
    pub status: ServiceStatus,
    pub payment_tx: Option<Seq<char>>,
    pub created_at: i64,
    pub completed_at: Option<i64>,
}

impl View for ServiceRequest {
    type V = ServiceRequestView;

    open spec fn view(&self) -> ServiceRequestView {
        ServiceRequestView {
            id: self.id@,
            service_id: self.service_id@,
            requester: self.requester@,
            parameters: self.parameters@,
            status: self.status,
            payment_tx: opt_text(self.payment_tx),
            created_at: self.created_at,
            completed_at: self.completed_at,
        }
    }
}

impl Clone for ServiceRequest {
    fn clone(&self) -> (r: Self)
        ensures
            r@ == self@,
    {
        ServiceRequest {
            id: self.id.clone(),
            service_id: self.service_id.clone(),
            requester: self.requester.clone(),
            parameters: self.parameters.clone(),
            status: self.status,
            payment_tx: match &self.payment_tx {
                Some(t) => Some(t.clone()),
                None => None,
            },
            created_at: self.created_at,
            completed_at: self.completed_at,
        }
    }
}

/// Why a service operation failed.
#[derive(Debug)]
pub enum ServiceError {
    EmptyId,
    NegativePrice,
    ServiceNotFound(String),
    RequestNotFound(String),
    NotQuoted(String),
    PaymentNotVerified(String),
    NotInProgress(String),
}

pub open spec fn service_error_message(e: ServiceError) -> Seq<char> {
    match e {
        ServiceError::EmptyId => "service id cannot be empty"@,
        ServiceError::NegativePrice => "price cannot be negative"@,
        ServiceError::ServiceNotFound(id) => "service '"@ + id@ + "' not found"@,
        ServiceError::RequestNotFound(id) => "request '"@ + id@ + "' not found"@,
        ServiceError::NotQuoted(id) => "request '"@ + id@ + "' is not in quoted state"@,
        ServiceError::PaymentNotVerified(id) => "request '"@ + id@ + "' payment not verified"@,
        ServiceError::NotInProgress(id) => "request '"@ + id@ + "' is not in progress"@,
    }
}

impl ServiceError {
    pub fn to_display_string(&self) -> (r: String)
        ensures
            r@ == service_error_message(*self),
    {
        let mut v: Vec<char> = Vec::new();
        match self {
            ServiceError::EmptyId => push_str(&mut v, "service id cannot be empty"),
            ServiceError::NegativePrice => push_str(&mut v, "price cannot be negative"),
            ServiceError::ServiceNotFound(id) => {
                push_str(&mut v, "service '");
                push_str(&mut v, id.as_str());
                push_str(&mut v, "' not found");
            },
            ServiceError::RequestNotFound(id) => {
                push_str(&mut v, "request '");
                push_str(&mut v, id.as_str());
                push_str(&mut v, "' not found");
            },
            ServiceError::NotQuoted(id) => {
                push_str(&mut v, "request '");
                push_str(&mut v, id.as_str());
                push_str(&mut v, "' is not in quoted state");
            },
            ServiceError::PaymentNotVerified(id) => {
                push_str(&mut v, "request '");
                push_str(&mut v, id.as_str());
                push_str(&mut v, "' payment not verified");
            },
            ServiceError::NotInProgress(id) => {
                push_str(&mut v, "request '");
                push_str(&mut v, id.as_str());
                push_str(&mut v, "' is not in progress");
            },
        }
        from_chars(&v)
    }
}

pub open spec fn service_views(cs: Seq<ServiceDefinition>) -> Seq<ServiceView> {
    cs.map_values(|c: ServiceDefinition| c@)
}

pub open spec fn request_views(rs: Seq<ServiceRequest>) -> Seq<ServiceRequestView> {
    rs.map_values(|r: ServiceRequest| r@)
}

/// The index of the first service with the given id, or -1.
pub open spec fn service_index(cs: Seq<ServiceView>, id: Seq<char>) -> int
    decreases cs.len(),
{
    if cs.len() == 0 {
        -1
    } else if cs[0].id == id {
        0
    } else if service_index(cs.drop_first(), id) < 0 {
        -1
    } else {
        1 + service_index(cs.drop_first(), id)
    }
}

proof fn lemma_service_index(cs: Seq<ServiceView>, id: Seq<char>, i: int)
    requires
        0 <= i <= cs.len(),
        forall|j: int| 0 <= j < i ==> (#[trigger] cs[j]).id != id,
        i == cs.len() || cs[i].id == id,
    ensures
        service_index(cs, id) == if i == cs.len() {
            -1
        } else {
            i
        },
    decreases i,
{
    if i > 0 {
        assert forall|j: int| 0 <= j < i - 1 implies (#[trigger] cs.drop_first()[j]).id != id by {
            assert(cs.drop_first()[j] == cs[j + 1]);
        }
        if i < cs.len() {
            assert(cs.drop_first()[i - 1] == cs[i]);
        }
        lemma_service_index(cs.drop_first(), id, i - 1);
    }
}

/// The index of the first request with the given id, or -1.
pub open spec fn request_index(rs: Seq<ServiceRequestView>, id: Seq<char>) -> int
    decreases rs.len(),
{
    if rs.len() == 0 {
        -1
    } else if rs[0].id == id {
        0
    } else if request_index(rs.drop_first(), id) < 0 {
        -1
    } else {
        1 + request_index(rs.drop_first(), id)
    }
}

proof fn lemma_request_index(rs: Seq<ServiceRequestView>, id: Seq<char>, i: int)
    requires
        0 <= i <= rs.len(),
        forall|j: int| 0 <= j < i ==> (#[trigger] rs[j]).id != id,
        i == rs.len() || rs[i].id == id,
    ensures
        request_index(rs, id) == if i == rs.len() {
            -1
        } else {
            i
        },
    decreases i,
{
    if i > 0 {
        assert forall|j: int| 0 <= j < i - 1 implies (#[trigger] rs.drop_first()[j]).id != id by {
            assert(rs.drop_first()[j] == rs[j + 1]);
        }
        if i < rs.len() {
            assert(rs.drop_first()[i - 1] == rs[i]);
        }
        lemma_request_index(rs.drop_first(), id, i - 1);
    }
}

/// The id of the `n`-th request created.
pub open spec fn request_id(n: nat) -> Seq<char> {
    "req_"@ + decimal(n)
}

/// Distinct request numbers give distinct ids.
pub proof fn lemma_request_id_injective(a: nat, b: nat)
    requires
        request_id(a) == request_id(b),
    ensures
        a == b,
{
    let p = "req_"@;
    assert((p + decimal(a)).skip(p.len() as int) =~= decimal(a));
    assert((p + decimal(b)).skip(p.len() as int) =~= decimal(b));
    crate::text::lemma_decimal_injective(a, b);
}

/// A new quote.
pub open spec fn quoted(
    id: Seq<char>,
    service_id: Seq<char>,
    requester: Seq<char>,
    parameters: Seq<char>,
    now: i64,
) -> ServiceRequestView {
    ServiceRequestView {
        id,
        service_id,
        requester,
        parameters,
        status: ServiceStatus::Quoted,
        payment_tx: None,
        created_at: now,
        completed_at: None,
    }
}

pub open spec fn with_status(q: ServiceRequestView, status: ServiceStatus) -> ServiceRequestView {
    ServiceRequestView { status, ..q }
}

pub open spec fn is_completed(q: ServiceRequestView) -> bool {
    q.status == ServiceStatus::Completed
}

/// Manages the service catalog and the requests made for its services.
pub struct ServiceManager {
    catalog: Vec<ServiceDefinition>,
    requests: Vec<ServiceRequest>,
    request_counter: u64,
}

impl ServiceManager {
    /// The catalog, in order of first registration.
    pub closed spec fn catalog(&self) -> Seq<ServiceView> {
        service_views(self.catalog@)
    }

    /// The requests, oldest first.
    pub closed spec fn requests(&self) -> Seq<ServiceRequestView> {
        request_views(self.requests@)
    }

    /// How many quotes have been created.
    pub closed spec fn created(&self) -> nat {
        self.request_counter as nat
    }

    /// Every request's id is the id of one of the quotes created so far, no
    /// two requests share an id, and no two services share an id.
    pub closed spec fn ids_fresh(&self) -> bool {
        &&& forall|i: int|
            0 <= i < self.requests().len() ==> is_quote_id(
                #[trigger] self.requests()[i].id,
                self.request_counter as nat,
            )
        &&& forall|i: int, j: int|
            0 <= i < j < self.requests().len() ==> (#[trigger] self.requests()[i]).id != (
            #[trigger] self.requests()[j]).id
        &&& forall|i: int, j: int|
            0 <= i < j < self.catalog().len() ==> (#[trigger] self.catalog()[i]).id != (
            #[trigger] self.catalog()[j]).id
    }

    pub fn new() -> (r: Self)
        ensures
            r.catalog().len() == 0,
            r.requests().len() == 0,
            r.created() == 0,
            r.ids_fresh(),
    {
        ServiceManager { catalog: Vec::new(), requests: Vec::new(), request_counter: 0 }
    }

    fn find_service(&self, id: &str) -> (r: Option<usize>)
        ensures
            match r {
                Some(i) => i == service_index(self.catalog(), id@) && i < self.catalog@.len()
                    && self.catalog()[i as int].id == id@,
                None => service_index(self.catalog(), id@) == -1 && forall|j: int|
                    0 <= j < self.catalog@.len() ==> (#[trigger] self.catalog()[j]).id != id@,
            },
    {
        let ghost cs = self.catalog();
        let mut i: usize = 0;
        while i < self.catalog.len()
            invariant
                0 <= i <= self.catalog@.len(),
                cs == service_views(self.catalog@),
                forall|j: int| 0 <= j < i ==> (#[trigger] cs[j]).id != id@,
            decreases self.catalog@.len() - i,
        {
            assert(cs[i as int] == self.catalog@[i as int]@);
            if str_eq(self.catalog[i].id.as_str(), id) {
                proof {
                    lemma_service_index(cs, id@, i as int);
                }
                return Some(i);
            }
            i = i + 1;
        }
        proof {
            lemma_service_index(cs, id@, i as int);
        }
        None
    }

    fn find_request(&self, id: &str) -> (r: Option<usize>)
        ensures
            match r {
                Some(i) => i == request_index(self.requests(), id@) && i < self.requests@.len(),
                None => request_index(self.requests(), id@) == -1,
            },
    {
        let ghost rs = self.requests();
        let mut i: usize = 0;
        while i < self.requests.len()
            invariant
                0 <= i <= self.requests@.len(),
                rs == request_views(self.requests@),
                forall|j: int| 0 <= j < i ==> (#[trigger] rs[j]).id != id@,
            decreases self.requests@.len() - i,
        {
            assert(rs[i as int] == self.requests@[i as int]@);
            if str_eq(self.requests[i].id.as_str(), id) {
                proof {
                    lemma_request_index(rs, id@, i as int);
                }
                return Some(i);
            }
            i = i + 1;
        }
        proof {
            lemma_request_index(rs, id@, i as int);
        }
        None
    }

    /// Add a service to the catalog, or replace the one with the same id.
    /// A service with an empty id is refused.
    pub fn register_service(&mut self, service: ServiceDefinition) -> (r: Result<(), ServiceError>)
        ensures
            final(self).requests() == old(self).requests(),
            final(self).created() == old(self).created(),
            old(self).ids_fresh() ==> final(self).ids_fresh(),
            service@.id.len() == 0 ==> (r matches Err(ServiceError::EmptyId) && final(self).catalog()
                == old(self).catalog()),
            service@.id.len() > 0 && service_index(old(self).catalog(), service@.id) >= 0 ==> (r is Ok
                && final(self).catalog() == old(self).catalog().update(
                service_index(old(self).catalog(), service@.id),
                service@,
            )),
            service@.id.len() > 0 && service_index(old(self).catalog(), service@.id) < 0 ==> (r is Ok
                && final(self).catalog() == old(self).catalog().push(service@)),
    {
        if service.id.as_str().is_empty() {
            return Err(ServiceError::EmptyId);
        }
        let ghost before = self.catalog();
        let ghost sv = service@;
        match self.find_service(service.id.as_str()) {
            Some(i) => {
                self.catalog.remove(i);
                self.catalog.insert(i, service);
                assert(self.catalog() =~= before.update(i as int, sv));
                assert forall|a: int, b: int| 0 <= a < b < before.len() && before[a].id != before[b].id
                    implies (#[trigger] self.catalog()[a]).id != (#[trigger] self.catalog()[b]).id by {
                }
            },
            None => {
                self.catalog.push(service);
                assert(self.catalog() =~= before.push(sv));
                assert forall|a: int, b: int| 0 <= a < b < self.catalog().len() && (b < before.len() ==> before[a].id
                    != before[b].id) implies (#[trigger] self.catalog()[a]).id != (
                #[trigger] self.catalog()[b]).id by {
                    assert(self.catalog()[a] == before[a]);
                }
            },
        }
        assert(self.requests() == old(self).requests());
        Ok(())
    }

    /// A copy of the service with the given id.
    pub fn get_service(&self, service_id: &str) -> (r: Option<ServiceDefinition>)
        ensures
            service_index(self.catalog(), service_id@) >= 0 ==> (r matches Some(s) && s@
                == self.catalog()[service_index(self.catalog(), service_id@)]),
            service_index(self.catalog(), service_id@) < 0 ==> r is None,
    {
        match self.find_service(service_id) {
            Some(i) => Some(self.catalog[i].clone()),
            None => None,
        }
    }

    /// Copies of every service, in catalog order.
    pub fn list_services(&self) -> (r: Vec<ServiceDefinition>)
        ensures
            service_views(r@) == self.catalog(),
    {
        let ghost cs = self.catalog();
        let mut out: Vec<ServiceDefinition> = Vec::new();
        let mut i: usize = 0;
        while i < self.catalog.len()
            invariant
                0 <= i <= self.catalog@.len(),
                cs == service_views(self.catalog@),
                service_views(out@) == cs.take(i as int),
            decreases self.catalog@.len() - i,
        {
            let ghost o0 = service_views(out@);
            out.push(self.catalog[i].clone());
            assert(service_views(out@) =~= o0.push(cs[i as int]));
            assert(cs.take(i + 1) =~= cs.take(i as int).push(cs[i as int]));
            i = i + 1;
        }
        assert(cs.take(self.catalog@.len() as int) =~= cs);
        out
    }

    /// Quote a listed service at time `now`: a new request, numbered after
    /// the last, in the quoted state.
    pub fn create_quote_at(
        &mut self,
        service_id: &str,
        requester: &str,
        params: String,
        now: i64,
    ) -> (r: Result<ServiceRequest, ServiceError>)
        requires
            old(self).created() < u64::MAX,
        ensures
            final(self).catalog() == old(self).catalog(),
            old(self).ids_fresh() ==> final(self).ids_fresh(),
            service_index(old(self).catalog(), service_id@) < 0 ==> (r matches Err(
                ServiceError::ServiceNotFound(s),
            ) && s@ == service_id@ && final(self).requests() == old(self).requests() && final(self).created() == old(self).created()),
            service_index(old(self).catalog(), service_id@) >= 0 ==> (r matches Ok(q) && q@
                == quoted(request_id(final(self).created()), service_id@, requester@, params@, now)
                && final(self).created() == old(self).created() + 1 && final(self).requests()
                == old(self).requests().push(q@)),
            service_index(old(self).catalog(), service_id@) >= 0 && old(self).ids_fresh() ==> (
            r matches Ok(q) && request_index(final(self).requests(), q@.id) == old(self).requests().len()),
    {
        if self.find_service(service_id).is_none() {
            return Err(ServiceError::ServiceNotFound(service_id.to_owned()));
        }
        let ghost fresh = self.ids_fresh();
        let ghost before = self.requests();
        let ghost c0 = self.request_counter as nat;
        self.request_counter = self.request_counter + 1;
        let mut id: Vec<char> = Vec::new();
        push_str(&mut id, "req_");
        let mut n = decimal_u64_chars(self.request_counter);
        id.append(&mut n);
        let new_id = from_chars(&id);
        let request = ServiceRequest {
            id: new_id,
            service_id: service_id.to_owned(),
            requester: requester.to_owned(),
            parameters: params,
            status: ServiceStatus::Quoted,
            payment_tx: None,
            created_at: now,
            completed_at: None,
        };
        let copy = request.clone();
        self.requests.push(request);
        assert(self.requests() =~= before.push(copy@));
        proof {
            assert(copy@.id == request_id(c0 + 1));
            if fresh {
                assert forall|i: int| 0 <= i < self.requests().len() implies is_quote_id(
                    #[trigger] self.requests()[i].id,
                    self.request_counter as nat,
                ) by {
                    if i < before.len() {
                        assert(self.requests()[i] == before[i]);
                        assert(is_quote_id(before[i].id, c0));
                        let k = choose|k: nat| 1 <= k <= c0 && #[trigger] request_id(k) == before[i].id;
                        assert(request_id(k) == self.requests()[i].id);
                    } else {
                        assert(request_id(c0 + 1) == self.requests()[i].id);
                    }
                }
                assert forall|j: int| 0 <= j < before.len() implies (#[trigger] self.requests()[j]).id
                    != copy@.id by {
                    assert(self.requests()[j] == before[j]);
                    assert(is_quote_id(before[j].id, c0));
                    let k = choose|k: nat| 1 <= k <= c0 && #[trigger] request_id(k) == before[j].id;
                    if before[j].id == copy@.id {
                        lemma_request_id_injective(k, c0 + 1);
                    }
                }
                lemma_request_index(self.requests(), copy@.id, before.len() as int);
            }
        }
        Ok(copy)
    }

    /// Quote a listed service now.
    pub fn create_quote(&mut self, service_id: &str, requester: &str, params: String) -> (r: Result<
        ServiceRequest,
        ServiceError,
    >)
        requires
            old(self).created() < u64::MAX,
        ensures
            final(self).catalog() == old(self).catalog(),
            old(self).ids_fresh() ==> final(self).ids_fresh(),
            service_index(old(self).catalog(), service_id@) < 0 ==> (r matches Err(
                ServiceError::ServiceNotFound(s),
            ) && s@ == service_id@ && final(self).requests() == old(self).requests() && final(self).created() == old(self).created()),
            service_index(old(self).catalog(), service_id@) >= 0 ==> final(self).created() == old(self).created() + 1,
            service_index(old(self).catalog(), service_id@) >= 0 ==> (r matches Ok(q) && final(self).requests() == old(self).requests().push(q@) && exists|now: i64|
                q@ == #[trigger] quoted(
                    request_id(final(self).created()),
                    service_id@,
                    requester@,
                    params@,
                    now,
                )),
    {
        let now = now_millis();
        self.create_quote_at(service_id, requester, params, now)
    }

    /// Record the payment for a quoted request: it becomes paid, with the
    /// transaction recorded.
    pub fn record_payment(&mut self, request_id: &str, tx_hash: &str) -> (r: Result<(), ServiceError>)
        ensures
            final(self).catalog() == old(self).catalog(),
            final(self).created() == old(self).created(),
            old(self).ids_fresh() ==> final(self).ids_fresh(),
            ({
                let rs = old(self).requests();
                let i = request_index(rs, request_id@);
                if i < 0 {
                    r matches Err(ServiceError::RequestNotFound(s)) && s@ == request_id@ && final(self).requests() == rs
                } else if rs[i].status != ServiceStatus::Quoted {
                    r matches Err(ServiceError::NotQuoted(s)) && s@ == request_id@ && final(self).requests() == rs
                } else {
                    r is Ok && final(self).requests() == rs.update(
                        i,
                        ServiceRequestView {
                            status: ServiceStatus::PaymentVerified,
                            payment_tx: Some(tx_hash@),
                            ..rs[i]
                        },
                    )
                }
            }),
    {
        match self.find_request(request_id) {
            None => Err(ServiceError::RequestNotFound(request_id.to_owned())),
            Some(i) => {
                if self.requests[i].status != ServiceStatus::Quoted {
                    return Err(ServiceError::NotQuoted(request_id.to_owned()));
                }
                let ghost before = self.requests();
                let mut q = self.requests.remove(i);
                q.payment_tx = Some(tx_hash.to_owned());
                q.status = ServiceStatus::PaymentVerified;
                self.requests.insert(i, q);
                assert(self.requests() =~= before.update(
                    i as int,
                    ServiceRequestView {
                        status: ServiceStatus::PaymentVerified,
                        payment_tx: Some(tx_hash@),
                        ..before[i as int]
                    },
                ));
                proof {
                    if old(self).ids_fresh() {
                        lemma_fresh_kept(before, self.requests(), self.request_counter as nat);
                        assert(self.catalog() == old(self).catalog());
                        assert(self.ids_fresh());
                    }
                }
                Ok(())
            },
        }
    }

    /// Start work on a paid request.
    pub fn start_fulfillment(&mut self, request_id: &str) -> (r: Result<(), ServiceError>)
        ensures
            final(self).catalog() == old(self).catalog(),
            final(self).created() == old(self).created(),
            old(self).ids_fresh() ==> final(self).ids_fresh(),
            ({
                let rs = old(self).requests();
                let i = request_index(rs, request_id@);
                if i < 0 {
                    r matches Err(ServiceError::RequestNotFound(s)) && s@ == request_id@ && final(self).requests() == rs
                } else if rs[i].status != ServiceStatus::PaymentVerified {
                    r matches Err(ServiceError::PaymentNotVerified(s)) && s@ == request_id@ && final(self).requests() == rs
                } else {
                    r is Ok && final(self).requests() == rs.update(
                        i,
                        with_status(rs[i], ServiceStatus::InProgress),
                    )
                }
            }),
    {
        match self.find_request(request_id) {
            None => Err(ServiceError::RequestNotFound(request_id.to_owned())),
            Some(i) => {
                if self.requests[i].status != ServiceStatus::PaymentVerified {
                    return Err(ServiceError::PaymentNotVerified(request_id.to_owned()));
                }
                let ghost before = self.requests();
                let mut q = self.requests.remove(i);
                q.status = ServiceStatus::InProgress;
                self.requests.insert(i, q);
                assert(self.requests() =~= before.update(
                    i as int,
                    with_status(before[i as int], ServiceStatus::InProgress),
                ));
                proof {
                    if old(self).ids_fresh() {
                        lemma_fresh_kept(before, self.requests(), self.request_counter as nat);
                        assert(self.catalog() == old(self).catalog());
                        assert(self.ids_fresh());
                    }
                }
                Ok(())
            },
        }
    }

    /// Complete a request in progress at time `now`.
    pub fn complete_fulfillment_at(&mut self, request_id: &str, now: i64) -> (r: Result<
        (),
        ServiceError,
    >)
        ensures
            final(self).catalog() == old(self).catalog(),
            final(self).created() == old(self).created(),
            old(self).ids_fresh() ==> final(self).ids_fresh(),
            ({
                let rs = old(self).requests();
                let i = request_index(rs, request_id@);
                if i < 0 {
                    r matches Err(ServiceError::RequestNotFound(s)) && s@ == request_id@ && final(self).requests() == rs
                } else if rs[i].status != ServiceStatus::InProgress {
                    r matches Err(ServiceError::NotInProgress(s)) && s@ == request_id@ && final(self).requests() == rs
                } else {
                    r is Ok && final(self).requests() == rs.update(i, completed_at(rs[i], now))
                }
            }),
    {
        match self.find_request(request_id) {
            None => Err(ServiceError::RequestNotFound(request_id.to_owned())),
            Some(i) => {
                if self.requests[i].status != ServiceStatus::InProgress {
                    return Err(ServiceError::NotInProgress(request_id.to_owned()));
                }
                let ghost before = self.requests();
                let mut q = self.requests.remove(i);
                q.status = ServiceStatus::Completed;
                q.completed_at = Some(now);
                self.requests.insert(i, q);
                assert(self.requests() =~= before.update(i as int, completed_at(before[i as int], now)));
                proof {
                    if old(self).ids_fresh() {
                        lemma_fresh_kept(before, self.requests(), self.request_counter as nat);
                        assert(self.catalog() == old(self).catalog());
                        assert(self.ids_fresh());
                    }
                }
                Ok(())
            },
        }
    }

    /// Complete a request in progress now.
    pub fn complete_fulfillment(&mut self, request_id: &str) -> (r: Result<(), ServiceError>)
        ensures
            final(self).catalog() == old(self).catalog(),
            final(self).created() == old(self).created(),
            old(self).ids_fresh() ==> final(self).ids_fresh(),
            ({
                let rs = old(self).requests();
                let i = request_index(rs, request_id@);
                if i < 0 {
                    r matches Err(ServiceError::RequestNotFound(s)) && s@ == request_id@ && final(self).requests() == rs
                } else if rs[i].status != ServiceStatus::InProgress {
                    r matches Err(ServiceError::NotInProgress(s)) && s@ == request_id@ && final(self).requests() == rs
                } else {
                    r is Ok && exists|now: i64|
                        final(self).requests() == rs.update(
                            i,
                            #[trigger] completed_at(rs[i], now),
                        )
                }
            }),
    {
        let now = now_millis();
        self.complete_fulfillment_at(request_id, now)
    }

    /// Mark a request failed, whatever its state.
    pub fn fail_fulfillment(&mut self, request_id: &str) -> (r: Result<(), ServiceError>)
        ensures
            final(self).catalog() == old(self).catalog(),
            final(self).created() == old(self).created(),
            old(self).ids_fresh() ==> final(self).ids_fresh(),
            ({
                let rs = old(self).requests();
                let i = request_index(rs, request_id@);
                if i < 0 {
                    r matches Err(ServiceError::RequestNotFound(s)) && s@ == request_id@ && final(self).requests() == rs
                } else {
                    r is Ok && final(self).requests() == rs.update(
                        i,
                        with_status(rs[i], ServiceStatus::Failed),
                    )
                }
            }),
    {
        match self.find_request(request_id) {
            None => Err(ServiceError::RequestNotFound(request_id.to_owned())),
            Some(i) => {
                let ghost before = self.requests();
                let mut q = self.requests.remove(i);
                q.status = ServiceStatus::Failed;
                self.requests.insert(i, q);
                assert(self.requests() =~= before.update(
                    i as int,
                    with_status(before[i as int], ServiceStatus::Failed),
                ));
                proof {
                    if old(self).ids_fresh() {
                        lemma_fresh_kept(before, self.requests(), self.request_counter as nat);
                        assert(self.catalog() == old(self).catalog());
                        assert(self.ids_fresh());
                    }
                }
                Ok(())
            },
        }
    }

    /// A copy of the request with the given id.
    pub fn get_request(&self, request_id: &str) -> (r: Option<ServiceRequest>)
        ensures
            request_index(self.requests(), request_id@) >= 0 ==> (r matches Some(q) && q@
                == self.requests()[request_index(self.requests(), request_id@)]),
            request_index(self.requests(), request_id@) < 0 ==> r is None,
    {
        match self.find_request(request_id) {
            Some(i) => Some(self.requests[i].clone()),
            None => None,
        }
    }

    /// Copies of the requests in the given state, oldest first.
    pub fn requests_by_status(&self, status: ServiceStatus) -> (r: Vec<ServiceRequest>)
        ensures
            request_views(r@) == self.requests().filter(|q: ServiceRequestView| q.status == status),
    {
        let ghost rs = self.requests();
        let mut out: Vec<ServiceRequest> = Vec::new();
        let mut i: usize = 0;
        while i < self.requests.len()
            invariant
                0 <= i <= self.requests@.len(),
                rs == request_views(self.requests@),
                request_views(out@) == rs.take(i as int).filter(
                    |q: ServiceRequestView| q.status == status,
                ),
            decreases self.requests@.len() - i,
        {
            reveal_with_fuel(Seq::<_>::filter, 1);
            assert(rs.take(i + 1).drop_last() =~= rs.take(i as int));
            assert(rs.take(i + 1).last() == self.requests@[i as int]@);
            if self.requests[i].status == status {
                let ghost o0 = request_views(out@);
                out.push(self.requests[i].clone());
                assert(request_views(out@) =~= o0.push(self.requests@[i as int]@));
            }
            i = i + 1;
        }
        assert(rs.take(self.requests@.len() as int) =~= rs);
        out
    }

    /// The service ids of the completed requests whose service is in the
    /// catalog, oldest first: what revenue is counted from.
    pub fn completed_service_ids(&self) -> (r: Vec<String>)
        ensures
            texts(r@) == self.requests().filter(
                |q: ServiceRequestView|
                    is_completed(q) && service_index(self.catalog(), q.service_id) >= 0,
            ).map_values(|q: ServiceRequestView| q.service_id),
    {
        let ghost rs = self.requests();
        let ghost cs = self.catalog();
        let ghost keep = |q: ServiceRequestView| is_completed(q) && service_index(cs, q.service_id) >= 0;
        let mut out: Vec<String> = Vec::new();
        let mut i: usize = 0;
        while i < self.requests.len()
            invariant
                0 <= i <= self.requests@.len(),
                rs == request_views(self.requests@),
                cs == self.catalog(),
                keep == (|q: ServiceRequestView| is_completed(q) && service_index(cs, q.service_id) >= 0),
                texts(out@) == rs.take(i as int).filter(keep).map_values(
                    |q: ServiceRequestView| q.service_id,
                ),
            decreases self.requests@.len() - i,
        {
            reveal_with_fuel(Seq::<_>::filter, 1);
            assert(rs.take(i + 1).drop_last() =~= rs.take(i as int));
            assert(rs.take(i + 1).last() == self.requests@[i as int]@);
            let ghost pre = rs.take(i as int).filter(keep);
            if self.requests[i].status == ServiceStatus::Completed && self.find_service(
                self.requests[i].service_id.as_str(),
            ).is_some() {
                let ghost o0 = texts(out@);
                out.push(self.requests[i].service_id.clone());
                assert(texts(out@) =~= o0.push(rs[i as int].service_id));
                assert(pre.push(rs[i as int]).map_values(|q: ServiceRequestView| q.service_id)
                    =~= pre.map_values(|q: ServiceRequestView| q.service_id).push(
                    rs[i as int].service_id,
                ));
            }
            i = i + 1;
        }
        assert(rs.take(self.requests@.len() as int) =~= rs);
        out
    }

    pub fn catalog_size(&self) -> (r: usize)
        ensures
            r == self.catalog().len(),
    {
        self.catalog.len()
    }

    pub fn request_count(&self) -> (r: usize)
        ensures
            r == self.requests().len(),
    {
        self.requests.len()
    }
}

impl Default for ServiceManager {
    fn default() -> (r: Self)
        ensures
            r.catalog().len() == 0,
            r.requests().len() == 0,
            r.created() == 0,
            r.ids_fresh(),
    {
        ServiceManager::new()
    }
}

/// Whether `id` is the id of one of the first `counter` quotes.
pub open spec fn is_quote_id(id: Seq<char>, counter: nat) -> bool {
    exists|k: nat| 1 <= k <= counter && #[trigger] request_id(k) == id
}

/// Request ids that were quote ids stay so when every request keeps its id.
proof fn lemma_fresh_kept(before: Seq<ServiceRequestView>, after: Seq<ServiceRequestView>, counter: nat)
    requires
        before.len() == after.len(),
        forall|i: int| 0 <= i < before.len() ==> (#[trigger] before[i]).id == after[i].id,
        forall|i: int| 0 <= i < before.len() ==> is_quote_id(#[trigger] before[i].id, counter),
    ensures
        forall|i: int| 0 <= i < after.len() ==> is_quote_id(#[trigger] after[i].id, counter),
        (forall|i: int, j: int| 0 <= i < j < before.len() ==> (#[trigger] before[i]).id != (
        #[trigger] before[j]).id) ==> forall|i: int, j: int|
            0 <= i < j < after.len() ==> (#[trigger] after[i]).id != (#[trigger] after[j]).id,
{
    assert forall|i: int| 0 <= i < after.len() implies is_quote_id(#[trigger] after[i].id, counter) by {
        assert(before[i].id == after[i].id);
    }
    if forall|i: int, j: int| 0 <= i < j < before.len() ==> (#[trigger] before[i]).id != (
    #[trigger] before[j]).id {
        assert forall|i: int, j: int| 0 <= i < j < after.len() implies (#[trigger] after[i]).id != (
        #[trigger] after[j]).id by {
            assert(before[i].id == after[i].id);
            assert(before[j].id == after[j].id);
            assert(before[i].id != before[j].id);
        }
    }
}

/// A request after completing at `now`.
pub open spec fn completed_at(q: ServiceRequestView, now: i64) -> ServiceRequestView {
    ServiceRequestView { status: ServiceStatus::Completed, completed_at: Some(now), ..q }
}

} // verus!
