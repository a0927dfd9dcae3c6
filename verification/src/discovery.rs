//! Agent discovery: the registry of agents found on the network, how each
//! was found, and the DNS records that advertise this agent.

use vstd::prelude::*;

use crate::keyed::{
    keys_distinct, lemma_keys_distinct_filter, lemma_keys_distinct_push, lemma_keys_distinct_remove,
    lemma_keys_distinct_update,
};
use crate::clock::now_millis;
use crate::text::{from_chars, join, join_chars, push_str, str_eq, to_chars};

verus! {

broadcast use vstd::string::group_string_axioms;

/// How the agent was discovered.
#[derive(Debug, Clone, Copy, PartialEq, Eq, Structural)]
pub enum DiscoveryMethod {
    DnsSd,
    MDns,
    Manual,
    A2AHandshake,
}

pub open spec fn method_name(m: DiscoveryMethod) -> Seq<char> {
    match m {
        DiscoveryMethod::DnsSd => "DNS-SD"@,
        DiscoveryMethod::MDns => "mDNS"@,
        DiscoveryMethod::Manual => "manual"@,
        DiscoveryMethod::A2AHandshake => "A2A"@,
    }
}

impl DiscoveryMethod {
    /// The name the method is shown under.
    pub fn to_display_string(&self) -> (r: String)
        ensures
            r@ == method_name(*self),
    {
        match self {
            DiscoveryMethod::DnsSd => "DNS-SD".to_owned(),
            DiscoveryMethod::MDns => "mDNS".to_owned(),
            DiscoveryMethod::Manual => "manual".to_owned(),
            DiscoveryMethod::A2AHandshake => "A2A".to_owned(),
        }
    }
}

/// DNS SRV record representation.
#[derive(Debug, Clone)]
pub struct SrvRecord {
    pub service: String,
    pub protocol: String,
    pub domain: String,
    pub port: u16,
    pub priority: u16,
    pub weight: u16,
    pub target: String,
}

/// DNS TXT record for capability advertisement: its key/value entries, each
/// key once.
#[derive(Debug, Clone)]
pub struct TxtRecord {
    pub service: String,
    pub entries: Vec<(String, String)>,
}

pub open spec fn entry_views(es: Seq<(String, String)>) -> Seq<(Seq<char>, Seq<char>)> {
    es.map_values(|e: (String, String)| (e.0@, e.1@))
}

/// The value stored under `key`, if any (the first entry with that key).
pub open spec fn lookup(es: Seq<(Seq<char>, Seq<char>)>, key: Seq<char>) -> Option<Seq<char>>
    decreases es.len(),
{
    if es.len() == 0 {
        None
    } else if es[0].0 == key {
        Some(es[0].1)
    } else {
        lookup(es.drop_first(), key)
    }
}

impl TxtRecord {
    /// The value of the entry with the given key.
    pub fn entry(&self, key: &str) -> (r: Option<&String>)
        ensures
            match lookup(entry_views(self.entries@), key@) {
                Some(v) => r matches Some(s) && s@ == v,
                None => r is None,
            },
    {
        let ghost es = entry_views(self.entries@);
        let mut i: usize = 0;
        assert(es.skip(0) =~= es);
        while i < self.entries.len()
            invariant
                0 <= i <= self.entries@.len(),
                es == entry_views(self.entries@),
                lookup(es, key@) == lookup(es.skip(i as int), key@),
            decreases self.entries@.len() - i,
        {
            assert(es.skip(i as int).drop_first() =~= es.skip(i + 1));
            assert(es.skip(i as int)[0] == es[i as int]);
            if str_eq(self.entries[i].0.as_str(), key) {
                return Some(&self.entries[i].1);
            }
            i = i + 1;
        }
        None
    }
}

/// The SRV record advertising an agent on `domain`:`port`.
pub open spec fn srv_for(srv: SrvRecord, domain: Seq<char>, port: u16) -> bool {
    &&& srv.service@ == "_ironclad"@
    &&& srv.protocol@ == "_tcp"@
    &&& srv.domain@ == domain
    &&& srv.port == port
    &&& srv.priority == 10
    &&& srv.weight == 100
    &&& srv.target@ == domain
}

/// The TXT entries advertising an agent: its id, its capabilities joined by
/// commas, and the protocol version.
pub open spec fn txt_entries(agent_id: Seq<char>, capabilities: Seq<Seq<char>>) -> Seq<
    (Seq<char>, Seq<char>),
> {
    seq![("agent_id"@, agent_id), ("caps"@, join(capabilities, ","@)), ("version"@, "0.1"@)]
}

/// Build SRV and TXT records for advertising this agent.
pub fn build_advertisement(agent_id: &str, domain: &str, port: u16, capabilities: &[String]) -> (r:
    (SrvRecord, TxtRecord))
    ensures
        srv_for(r.0, domain@, port),
        r.1.service@ == "_ironclad._tcp"@,
        entry_views(r.1.entries@) == txt_entries(
            agent_id@,
            capabilities@.map_values(|c: String| c@),
        ),
{
    let srv = SrvRecord {
        service: "_ironclad".to_owned(),
        protocol: "_tcp".to_owned(),
        domain: domain.to_owned(),
        port,
        priority: 10,
        weight: 100,
        target: domain.to_owned(),
    };
    let mut caps: Vec<Vec<char>> = Vec::new();
    let mut i: usize = 0;
    while i < capabilities.len()
        invariant
            0 <= i <= capabilities@.len(),
            caps@.map_values(|l: Vec<char>| l@) == capabilities@.map_values(|c: String| c@).take(
                i as int,
            ),
        decreases capabilities@.len() - i,
    {
        let ghost c0 = caps@.map_values(|l: Vec<char>| l@);
        caps.push(to_chars(capabilities[i].as_str()));
        assert(caps@.map_values(|l: Vec<char>| l@) =~= c0.push(capabilities@[i as int]@));
        assert(capabilities@.map_values(|c: String| c@).take(i + 1) =~= capabilities@.map_values(
            |c: String| c@,
        ).take(i as int).push(capabilities@[i as int]@));
        i = i + 1;
    }
    assert(capabilities@.map_values(|c: String| c@).take(capabilities@.len() as int)
        =~= capabilities@.map_values(|c: String| c@));
    let comma = to_chars(",");
    let joined = from_chars(join_chars(&caps, comma.as_slice()).as_slice());
    let mut entries: Vec<(String, String)> = Vec::new();
    entries.push(("agent_id".to_owned(), agent_id.to_owned()));
    entries.push(("caps".to_owned(), joined));
    entries.push(("version".to_owned(), "0.1".to_owned()));
    assert(entry_views(entries@) =~= txt_entries(
        agent_id@,
        capabilities@.map_values(|c: String| c@),
    ));
    let txt = TxtRecord { service: "_ironclad._tcp".to_owned(), entries };
    (srv, txt)
}

/// An agent found on the network. Times are milliseconds since the Unix
/// epoch.
#[derive(Debug)]
pub struct DiscoveredAgent {
    pub agent_id: String,
    pub name: String,
    pub url: String,
    pub capabilities: Vec<String>,
    pub verified: bool,
    pub discovered_at: i64,
    pub last_seen: i64,
    pub discovery_method: DiscoveryMethod,
}

pub open spec fn texts(v: Seq<String>) -> Seq<Seq<char>> {
    v.map_values(|s: String| s@)
}

pub struct AgentView {
    pub agent_id: Seq<char>,
    pub name: Seq<char>,
    pub url: Seq<char>,
    pub capabilities: Seq<Seq<char>>,
    pub verified: bool,
    pub discovered_at: i64,
    pub last_seen: i64,
    pub discovery_method: DiscoveryMethod,
}

impl View for DiscoveredAgent {
    type V = AgentView;

    open spec fn view(&self) -> AgentView {
        AgentView {
            agent_id: self.agent_id@,
            name: self.name@,
            url: self.url@,
            capabilities: texts(self.capabilities@),
            verified: self.verified,
            discovered_at: self.discovered_at,
            last_seen: self.last_seen,
            discovery_method: self.discovery_method,
        }
    }
}

fn clone_strings(v: &Vec<String>) -> (r: Vec<String>)
    ensures
        texts(r@) == texts(v@),
{
    let mut out: Vec<String> = Vec::new();
    let mut i: usize = 0;
    while i < v.len()
        invariant
            0 <= i <= v@.len(),
            texts(out@) == texts(v@).take(i as int),
        decreases v@.len() - i,
    {
        let ghost o0 = texts(out@);
        out.push(v[i].clone());
        assert(texts(out@) =~= o0.push(v@[i as int]@));
        assert(texts(v@).take(i + 1) =~= texts(v@).take(i as int).push(v@[i as int]@));
        i = i + 1;
    }
    assert(texts(v@).take(v@.len() as int) =~= texts(v@));
    out
}

impl Clone for DiscoveredAgent {
    fn clone(&self) -> (r: Self)
        ensures
            r@ == self@,
    {
        DiscoveredAgent {
            agent_id: self.agent_id.clone(),
            name: self.name.clone(),
            url: self.url.clone(),
            capabilities: clone_strings(&self.capabilities),
            verified: self.verified,
            discovered_at: self.discovered_at,
            last_seen: self.last_seen,
            discovery_method: self.discovery_method,
        }
    }
}

/// Why a registry operation failed.
#[derive(Debug)]
pub enum DiscoveryError {
    /// No agent has this id.
    NotFound(String),
}

pub open spec fn discovery_error_message(e: DiscoveryError) -> Seq<char> {
    match e {
        DiscoveryError::NotFound(id) => "agent '"@ + id@ + "' not found"@,
    }
}

impl DiscoveryError {
    pub fn to_display_string(&self) -> (r: String)
        ensures
            r@ == discovery_error_message(*self),
    {
        let mut v: Vec<char> = Vec::new();
        match self {
            DiscoveryError::NotFound(id) => {
                push_str(&mut v, "agent '");
                push_str(&mut v, id.as_str());
                push_str(&mut v, "' not found");
            },
        }
        from_chars(&v)
    }
}

pub open spec fn agent_views(ags: Seq<DiscoveredAgent>) -> Seq<AgentView> {
    ags.map_values(|a: DiscoveredAgent| a@)
}

/// An agent's key in the registry: its id.
pub open spec fn agent_key() -> spec_fn(AgentView) -> Seq<char> {
    |a: AgentView| a.agent_id
}

/// The index of the first agent with the given id, or -1.
pub open spec fn agent_index(ags: Seq<AgentView>, id: Seq<char>) -> int
    decreases ags.len(),
{
    if ags.len() == 0 {
        -1
    } else if ags[0].agent_id == id {
        0
    } else if agent_index(ags.drop_first(), id) < 0 {
        -1
    } else {
        1 + agent_index(ags.drop_first(), id)
    }
}

proof fn lemma_agent_index(ags: Seq<AgentView>, id: Seq<char>, i: int)
    requires
        0 <= i <= ags.len(),
        forall|j: int| 0 <= j < i ==> (#[trigger] ags[j]).agent_id != id,
        i == ags.len() || ags[i].agent_id == id,
    ensures
        agent_index(ags, id) == if i == ags.len() {
            -1
        } else {
            i
        },
    decreases i,
{
    if i > 0 {
        assert forall|j: int| 0 <= j < i - 1 implies (#[trigger] ags.drop_first()[j]).agent_id
            != id by {
            assert(ags.drop_first()[j] == ags[j + 1]);
        }
        if i < ags.len() {
            assert(ags.drop_first()[i - 1] == ags[i]);
        }
        lemma_agent_index(ags.drop_first(), id, i - 1);
    }
}

/// A verified agent offering the capability.
pub open spec fn offers(a: AgentView, capability: Seq<char>) -> bool {
    a.verified && a.capabilities.contains(capability)
}

/// An agent counts as stale when last seen before the cutoff.
pub open spec fn is_stale(a: AgentView, cutoff: i64) -> bool {
    a.last_seen < cutoff
}

/// The cutoff for agents older than `max_age_ms` at `now`, held within the
/// range of `i64`.
pub open spec fn stale_cutoff(now: i64, max_age_ms: i64) -> i64 {
    if now - max_age_ms < i64::MIN {
        i64::MIN
    } else if now - max_age_ms > i64::MAX {
        i64::MAX
    } else {
        (now - max_age_ms) as i64
    }
}

/// The agents found so far, each id at most once.
pub struct DiscoveryRegistry {
    agents: Vec<DiscoveredAgent>,
}

impl DiscoveryRegistry {
    /// The registered agents, in order of first registration.
    pub closed spec fn agents(&self) -> Seq<AgentView> {
        agent_views(self.agents@)
    }

    /// No two agents have the same id.
    pub closed spec fn ids_distinct(&self) -> bool {
        keys_distinct(self.agents(), agent_key())
    }

    pub fn new() -> (r: Self)
        ensures
            r.agents().len() == 0,
            r.ids_distinct(),
    {
        DiscoveryRegistry { agents: Vec::new() }
    }

    fn find(&self, id: &str) -> (r: Option<usize>)
        ensures
            match r {
                Some(i) => i == agent_index(self.agents(), id@) && i < self.agents@.len()
                    && self.agents()[i as int].agent_id == id@,
                None => agent_index(self.agents(), id@) == -1 && forall|j: int|
                    0 <= j < self.agents@.len() ==> (#[trigger] self.agents()[j]).agent_id != id@,
            },
    {
        let ghost ags = self.agents();
        let mut i: usize = 0;
        while i < self.agents.len()
            invariant
                0 <= i <= self.agents@.len(),
                ags == agent_views(self.agents@),
                forall|j: int| 0 <= j < i ==> (#[trigger] ags[j]).agent_id != id@,
            decreases self.agents@.len() - i,
        {
            assert(ags[i as int] == self.agents@[i as int]@);
            if str_eq(self.agents[i].agent_id.as_str(), id) {
                proof {
                    lemma_agent_index(ags, id@, i as int);
                }
                return Some(i);
            }
            i = i + 1;
        }
        proof {
            lemma_agent_index(ags, id@, i as int);
        }
        None
    }

    /// Register a discovered agent, replacing the one with the same id.
    pub fn register(&mut self, agent: DiscoveredAgent)
        ensures
            old(self).ids_distinct() ==> final(self).ids_distinct(),
            agent_index(old(self).agents(), agent@.agent_id) >= 0 ==> final(self).agents() == old(self).agents().update(agent_index(old(self).agents(), agent@.agent_id), agent@),
            agent_index(old(self).agents(), agent@.agent_id) < 0 ==> final(self).agents() == old(self).agents().push(agent@),
    {
        let ghost before = self.agents();
        let ghost av = agent@;
        match self.find(agent.agent_id.as_str()) {
            Some(i) => {
                self.agents.remove(i);
                self.agents.insert(i, agent);
                assert(self.agents() =~= before.update(i as int, av));
                proof {
                    lemma_keys_distinct_update(before, agent_key(), i as int, av);
                }
            },
            None => {
                self.agents.push(agent);
                assert(self.agents() =~= before.push(av));
                proof {
                    lemma_keys_distinct_push(before, agent_key(), av);
                }
            },
        }
    }

    /// Mark an agent verified and seen at `now`.
    pub fn verify_at(&mut self, agent_id: &str, now: i64) -> (r: Result<(), DiscoveryError>)
        ensures
            old(self).ids_distinct() ==> final(self).ids_distinct(),
            ({
                let ags = old(self).agents();
                let i = agent_index(ags, agent_id@);
                if i < 0 {
                    r matches Err(DiscoveryError::NotFound(s)) && s@ == agent_id@ && final(self).agents() == ags
                } else {
                    r is Ok && final(self).agents() == ags.update(
                        i,
                        AgentView { verified: true, last_seen: now, ..ags[i] },
                    )
                }
            }),
    {
        match self.find(agent_id) {
            None => Err(DiscoveryError::NotFound(agent_id.to_owned())),
            Some(i) => {
                let ghost before = self.agents();
                let mut a = self.agents.remove(i);
                a.verified = true;
                a.last_seen = now;
                self.agents.insert(i, a);
                assert(self.agents() =~= before.update(
                    i as int,
                    AgentView { verified: true, last_seen: now, ..before[i as int] },
                ));
                proof {
                    lemma_keys_distinct_update(
                        before,
                        agent_key(),
                        i as int,
                        AgentView { verified: true, last_seen: now, ..before[i as int] },
                    );
                }
                Ok(())
            },
        }
    }

    /// Mark an agent verified (after mutual authentication), seen now.
    pub fn verify(&mut self, agent_id: &str) -> (r: Result<(), DiscoveryError>)
        ensures
            old(self).ids_distinct() ==> final(self).ids_distinct(),
            ({
                let ags = old(self).agents();
                let i = agent_index(ags, agent_id@);
                if i < 0 {
                    r matches Err(DiscoveryError::NotFound(s)) && s@ == agent_id@ && final(self).agents() == ags
                } else {
                    r is Ok && exists|now: i64|
                        final(self).agents() == ags.update(i, #[trigger] verified_seen(ags[i], now))
                }
            }),
    {
        let now = now_millis();
        let r = self.verify_at(agent_id, now);
        proof {
            let ags = old(self).agents();
            let i = agent_index(ags, agent_id@);
            if i >= 0 {
                assert(verified_seen(ags[i], now) == AgentView { verified: true, last_seen: now, ..ags[i] });
            }
        }
        r
    }

    /// Record that an agent was seen at `now`; no change for an unknown id.
    pub fn touch_at(&mut self, agent_id: &str, now: i64)
        ensures
            old(self).ids_distinct() ==> final(self).ids_distinct(),
            ({
                let ags = old(self).agents();
                let i = agent_index(ags, agent_id@);
                if i < 0 {
                    final(self).agents() == ags
                } else {
                    final(self).agents() == ags.update(i, AgentView { last_seen: now, ..ags[i] })
                }
            }),
    {
        match self.find(agent_id) {
            None => {},
            Some(i) => {
                let ghost before = self.agents();
                let mut a = self.agents.remove(i);
                a.last_seen = now;
                self.agents.insert(i, a);
                assert(self.agents() =~= before.update(
                    i as int,
                    AgentView { last_seen: now, ..before[i as int] },
                ));
                proof {
                    lemma_keys_distinct_update(
                        before,
                        agent_key(),
                        i as int,
                        AgentView { last_seen: now, ..before[i as int] },
                    );
                }
            },
        }
    }

    /// Record that an agent was seen now.
    pub fn touch(&mut self, agent_id: &str)
        ensures
            old(self).ids_distinct() ==> final(self).ids_distinct(),
            ({
                let ags = old(self).agents();
                let i = agent_index(ags, agent_id@);
                if i < 0 {
                    final(self).agents() == ags
                } else {
                    exists|now: i64|
                        final(self).agents() == ags.update(i, #[trigger] seen_at(ags[i], now))
                }
            }),
    {
        let now = now_millis();
        self.touch_at(agent_id, now);
        proof {
            let ags = old(self).agents();
            let i = agent_index(ags, agent_id@);
            if i >= 0 {
                assert(seen_at(ags[i], now) == AgentView { last_seen: now, ..ags[i] });
            }
        }
    }

    /// Remove an agent; returns it, or `None` for an unknown id.
    pub fn remove(&mut self, agent_id: &str) -> (r: Option<DiscoveredAgent>)
        ensures
            old(self).ids_distinct() ==> final(self).ids_distinct(),
            ({
                let ags = old(self).agents();
                let i = agent_index(ags, agent_id@);
                if i < 0 {
                    r is None && final(self).agents() == ags
                } else {
                    r matches Some(a) && a@ == ags[i] && final(self).agents() == ags.remove(i)
                }
            }),
    {
        match self.find(agent_id) {
            None => None,
            Some(i) => {
                let ghost before = self.agents();
                let a = self.agents.remove(i);
                assert(self.agents() =~= before.remove(i as int));
                proof {
                    lemma_keys_distinct_remove(before, agent_key(), i as int);
                }
                Some(a)
            },
        }
    }

    /// A copy of the agent with the given id.
    pub fn get(&self, agent_id: &str) -> (r: Option<DiscoveredAgent>)
        ensures
            agent_index(self.agents(), agent_id@) >= 0 ==> (r matches Some(a) && a@
                == self.agents()[agent_index(self.agents(), agent_id@)]),
            agent_index(self.agents(), agent_id@) < 0 ==> r is None,
    {
        match self.find(agent_id) {
            Some(i) => Some(self.agents[i].clone()),
            None => None,
        }
    }

    /// Copies of the verified agents.
    pub fn verified_agents(&self) -> (r: Vec<DiscoveredAgent>)
        ensures
            agent_views(r@) == self.agents().filter(|a: AgentView| a.verified),
    {
        let ghost ags = self.agents();
        let mut out: Vec<DiscoveredAgent> = Vec::new();
        let mut i: usize = 0;
        while i < self.agents.len()
            invariant
                0 <= i <= self.agents@.len(),
                ags == agent_views(self.agents@),
                agent_views(out@) == ags.take(i as int).filter(|a: AgentView| a.verified),
            decreases self.agents@.len() - i,
        {
            reveal_with_fuel(Seq::<_>::filter, 1);
            assert(ags.take(i + 1).drop_last() =~= ags.take(i as int));
            assert(ags.take(i + 1).last() == self.agents@[i as int]@);
            if self.agents[i].verified {
                let ghost o0 = agent_views(out@);
                out.push(self.agents[i].clone());
                assert(agent_views(out@) =~= o0.push(self.agents@[i as int]@));
            }
            i = i + 1;
        }
        assert(ags.take(self.agents@.len() as int) =~= ags);
        out
    }

    /// Copies of every agent.
    pub fn all_agents(&self) -> (r: Vec<DiscoveredAgent>)
        ensures
            agent_views(r@) == self.agents(),
    {
        let ghost ags = self.agents();
        let mut out: Vec<DiscoveredAgent> = Vec::new();
        let mut i: usize = 0;
        while i < self.agents.len()
            invariant
                0 <= i <= self.agents@.len(),
                ags == agent_views(self.agents@),
                agent_views(out@) == ags.take(i as int),
            decreases self.agents@.len() - i,
        {
            let ghost o0 = agent_views(out@);
            out.push(self.agents[i].clone());
            assert(agent_views(out@) =~= o0.push(ags[i as int]));
            assert(ags.take(i + 1) =~= ags.take(i as int).push(ags[i as int]));
            i = i + 1;
        }
        assert(ags.take(self.agents@.len() as int) =~= ags);
        out
    }

    /// Copies of the verified agents that offer the capability.
    pub fn find_by_capability(&self, capability: &str) -> (r: Vec<DiscoveredAgent>)
        ensures
            agent_views(r@) == self.agents().filter(|a: AgentView| offers(a, capability@)),
    {
        let ghost ags = self.agents();
        let mut out: Vec<DiscoveredAgent> = Vec::new();
        let mut i: usize = 0;
        while i < self.agents.len()
            invariant
                0 <= i <= self.agents@.len(),
                ags == agent_views(self.agents@),
                agent_views(out@) == ags.take(i as int).filter(
                    |a: AgentView| offers(a, capability@),
                ),
            decreases self.agents@.len() - i,
        {
            reveal_with_fuel(Seq::<_>::filter, 1);
            assert(ags.take(i + 1).drop_last() =~= ags.take(i as int));
            assert(ags.take(i + 1).last() == self.agents@[i as int]@);
            if self.agents[i].verified && has_capability(&self.agents[i].capabilities, capability) {
                let ghost o0 = agent_views(out@);
                out.push(self.agents[i].clone());
                assert(agent_views(out@) =~= o0.push(self.agents@[i as int]@));
            }
            i = i + 1;
        }
        assert(ags.take(self.agents@.len() as int) =~= ags);
        out
    }

    /// Remove the agents last seen before `now - max_age_ms`; returns how
    /// many were removed.
    pub fn prune_stale_at(&mut self, now: i64, max_age_ms: i64) -> (r: usize)
        ensures
            old(self).ids_distinct() ==> final(self).ids_distinct(),
            final(self).agents() == old(self).agents().filter(
                |a: AgentView| !is_stale(a, stale_cutoff(now, max_age_ms)),
            ),
            r == old(self).agents().len() - final(self).agents().len(),
    {
        let cutoff: i64 = match now.checked_sub(max_age_ms) {
            Some(c) => c,
            None => if max_age_ms > 0 {
                i64::MIN
            } else {
                i64::MAX
            },
        };
        assert(cutoff == stale_cutoff(now, max_age_ms));
        let ghost ags = self.agents();
        let before = self.agents.len();
        let mut old_agents: Vec<DiscoveredAgent> = Vec::new();
        std::mem::swap(&mut old_agents, &mut self.agents);
        let mut kept: Vec<DiscoveredAgent> = Vec::new();
        let mut i: usize = 0;
        while i < old_agents.len()
            invariant
                0 <= i <= old_agents@.len(),
                ags == agent_views(old_agents@),
                agent_views(kept@) == ags.take(i as int).filter(
                    |a: AgentView| !is_stale(a, cutoff),
                ),
            decreases old_agents@.len() - i,
        {
            reveal_with_fuel(Seq::<_>::filter, 1);
            assert(ags.take(i + 1).drop_last() =~= ags.take(i as int));
            assert(ags.take(i + 1).last() == old_agents@[i as int]@);
            if old_agents[i].last_seen >= cutoff {
                let ghost k0 = agent_views(kept@);
                kept.push(old_agents[i].clone());
                assert(agent_views(kept@) =~= k0.push(old_agents@[i as int]@));
            }
            i = i + 1;
        }
        assert(ags.take(old_agents@.len() as int) =~= ags);
        proof {
            ags.lemma_filter_len(|a: AgentView| !is_stale(a, cutoff));
            if keys_distinct(ags, agent_key()) {
                lemma_keys_distinct_filter(ags, agent_key(), |a: AgentView| !is_stale(a, cutoff));
            }
        }
        self.agents = kept;
        before - self.agents.len()
    }

    /// Remove the agents not seen within the last `max_age_ms`
    /// milliseconds; returns how many were removed.
    pub fn prune_stale(&mut self, max_age_ms: i64) -> (r: usize)
        ensures
            old(self).ids_distinct() ==> final(self).ids_distinct(),
            exists|now: i64|
                final(self).agents() == old(self).agents().filter(
                    |a: AgentView| !is_stale(a, #[trigger] stale_cutoff(now, max_age_ms)),
                ),
            r == old(self).agents().len() - final(self).agents().len(),
    {
        let now = now_millis();
        self.prune_stale_at(now, max_age_ms)
    }

    pub fn count(&self) -> (r: usize)
        ensures
            r == self.agents().len(),
    {
        self.agents.len()
    }
}

impl Default for DiscoveryRegistry {
    fn default() -> (r: Self)
        ensures
            r.agents().len() == 0,
    {
        DiscoveryRegistry::new()
    }
}

pub open spec fn verified_seen(a: AgentView, now: i64) -> AgentView {
    AgentView { verified: true, last_seen: now, ..a }
}

pub open spec fn seen_at(a: AgentView, now: i64) -> AgentView {
    AgentView { last_seen: now, ..a }
}

fn has_capability(caps: &Vec<String>, capability: &str) -> (r: bool)
    ensures
        r == texts(caps@).contains(capability@),
{
    let ghost cv = texts(caps@);
    let mut i: usize = 0;
    while i < caps.len()
        invariant
            0 <= i <= caps@.len(),
            cv == texts(caps@),
            forall|j: int| 0 <= j < i ==> cv[j] != capability@,
        decreases caps@.len() - i,
    {
        if str_eq(caps[i].as_str(), capability) {
            assert(cv[i as int] == capability@);
            return true;
        }
        i = i + 1;
    }
    false
}

} // verus!
