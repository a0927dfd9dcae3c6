//! The ReAct reasoning loop as a state machine: Think → Act → Observe →
//! Persist, with idle detection, repeated-call (loop) detection and a hard
//! cap on the number of turns.

use std::collections::VecDeque;
use vstd::prelude::*;

use crate::text::str_eq;

verus! {

#[derive(Debug, Clone, Copy, PartialEq, Eq, Structural)]
pub enum ReactState {
    Thinking,
    Acting,
    Observing,
    Persisting,
    Idle,
    Done,
}

#[derive(Debug, Clone)]
pub enum ReactAction {
    Think,
    Act { tool_name: String, params: String },
    Observe,
    Persist,
    NoOp,
    Finish,
}

/// Consecutive no-op actions after which the agent counts as idle.
pub const IDLE_THRESHOLD: usize = 3;

/// Number of identical consecutive tool calls that counts as a loop.
pub const LOOP_DETECTION_WINDOW: usize = 3;

/// What the loop remembers between actions: consecutive no-ops and the
/// most recent tool calls.
pub struct LoopMemory {
    idle_count: usize,
    recent_calls: VecDeque<(String, String)>,
}

pub struct AgentLoop {
    pub state: ReactState,
    pub turn_count: usize,
    pub max_turns: usize,
    pub memory: LoopMemory,
}

/// A tool call as seen by the loop detector: tool name and parameters.
pub type CallView = (Seq<char>, Seq<char>);

/// The window of recent calls after recording `call`: the call is appended
/// and, if the window then exceeds its size, the oldest call is dropped.
pub open spec fn record_call(recent: Seq<CallView>, call: CallView) -> Seq<CallView> {
    let pushed = recent.push(call);
    if pushed.len() > LOOP_DETECTION_WINDOW {
        pushed.drop_first()
    } else {
        pushed
    }
}

/// The window is full and every call in it is `call`.
pub open spec fn looping(recent: Seq<CallView>, call: CallView) -> bool {
    &&& recent.len() >= LOOP_DETECTION_WINDOW
    &&& forall|i: int| 0 <= i < recent.len() ==> recent[i] == call
}

/// The loop as the contracts see it: state, turns taken, turn cap,
/// consecutive no-ops and the recent calls.
pub type LoopView = (ReactState, nat, nat, nat, Seq<CallView>);

/// One action's effect on the loop: past the turn cap the loop is done;
/// otherwise the action sets the state (a tool call also records itself and
/// ends the loop when it repeats; a no-op counts toward idleness).
pub open spec fn loop_step(v: LoopView, a: ReactAction) -> LoopView {
    let turns = v.1 + 1;
    if turns > v.2 {
        (ReactState::Done, turns, v.2, v.3, v.4)
    } else {
        match a {
            ReactAction::Think => (ReactState::Thinking, turns, v.2, 0, v.4),
            ReactAction::Act { tool_name, params } => {
                let r = record_call(v.4, (tool_name@, params@));
                (
                    if looping(r, (tool_name@, params@)) {
                        ReactState::Done
                    } else {
                        ReactState::Acting
                    },
                    turns,
                    v.2,
                    0,
                    r,
                )
            },
            ReactAction::Observe => (ReactState::Observing, turns, v.2, 0, v.4),
            ReactAction::Persist => (ReactState::Persisting, turns, v.2, 0, v.4),
            ReactAction::NoOp => (
                if v.3 + 1 >= IDLE_THRESHOLD {
                    ReactState::Idle
                } else {
                    v.0
                },
                turns,
                v.2,
                v.3 + 1,
                v.4,
            ),
            ReactAction::Finish => (ReactState::Done, turns, v.2, v.3, v.4),
        }
    }
}

/// The loop after a sequence of actions.
pub open spec fn loop_run(v: LoopView, acts: Seq<ReactAction>) -> LoopView
    decreases acts.len(),
{
    if acts.len() == 0 {
        v
    } else {
        loop_run(loop_step(v, acts[0]), acts.drop_first())
    }
}

impl AgentLoop {
    /// The current state.
    pub open spec fn current(&self) -> ReactState {
        self.state
    }

    /// Turns taken so far.
    pub open spec fn turns(&self) -> nat {
        self.turn_count as nat
    }

    /// The turn cap.
    pub open spec fn cap(&self) -> nat {
        self.max_turns as nat
    }

    /// The whole loop as the contracts see it: state, turns, cap, idle
    /// count and recent calls.
    pub open spec fn loop_view(&self) -> LoopView {
        (self.current(), self.turns(), self.cap(), self.idle(), self.recent())
    }

    /// Number of consecutive no-op actions seen so far.
    pub closed spec fn idle(&self) -> nat {
        self.memory.idle_count as nat
    }

    /// The recent tool calls, oldest first, as (tool name, params) views.
    pub closed spec fn recent(&self) -> Seq<CallView> {
        self.memory.recent_calls@.map_values(|c: (String, String)| (c.0@, c.1@))
    }

    pub fn new(max_turns: usize) -> (r: Self)
        ensures
            r.current() == ReactState::Idle,
            r.turns() == 0,
            r.cap() == max_turns,
            r.idle() == 0,
            r.recent() == Seq::<CallView>::empty(),
    {
        let r = Self {
            state: ReactState::Idle,
            turn_count: 0,
            max_turns,
            memory: LoopMemory {
                idle_count: 0,
                recent_calls: VecDeque::with_capacity(LOOP_DETECTION_WINDOW + 1),
            },
        };
        assert(r.recent() =~= Seq::<CallView>::empty());
        r
    }

    /// Advances the loop by one action and returns the new state.
    pub fn transition(&mut self, action: ReactAction) -> (r: ReactState)
        requires
            old(self).turns() < usize::MAX,
            old(self).idle() < usize::MAX,
        ensures
            r == final(self).current(),
            final(self).loop_view() == loop_step(old(self).loop_view(), action),
            old(self).recent().len() <= LOOP_DETECTION_WINDOW ==> final(self).recent().len()
                <= LOOP_DETECTION_WINDOW,
            final(self).turns() == old(self).turns() + 1,
            final(self).cap() == old(self).cap(),
            old(self).turns() + 1 > old(self).cap() ==> {
                &&& final(self).current() == ReactState::Done
                &&& final(self).idle() == old(self).idle()
                &&& final(self).recent() == old(self).recent()
            },
            old(self).turns() + 1 <= old(self).cap() ==> match action {
                ReactAction::Think => {
                    &&& final(self).current() == ReactState::Thinking
                    &&& final(self).idle() == 0
                    &&& final(self).recent() == old(self).recent()
                },
                ReactAction::Act { tool_name, params } => {
                    let recent = record_call(old(self).recent(), (tool_name@, params@));
                    &&& final(self).recent() == recent
                    &&& final(self).idle() == 0
                    &&& final(self).current() == if looping(recent, (tool_name@, params@)) {
                        ReactState::Done
                    } else {
                        ReactState::Acting
                    }
                },
                ReactAction::Observe => {
                    &&& final(self).current() == ReactState::Observing
                    &&& final(self).idle() == 0
                    &&& final(self).recent() == old(self).recent()
                },
                ReactAction::Persist => {
                    &&& final(self).current() == ReactState::Persisting
                    &&& final(self).idle() == 0
                    &&& final(self).recent() == old(self).recent()
                },
                ReactAction::NoOp => {
                    &&& final(self).idle() == old(self).idle() + 1
                    &&& final(self).current() == if old(self).idle() + 1 >= IDLE_THRESHOLD {
                        ReactState::Idle
                    } else {
                        old(self).current()
                    }
                    &&& final(self).recent() == old(self).recent()
                },
                ReactAction::Finish => {
                    &&& final(self).current() == ReactState::Done
                    &&& final(self).idle() == old(self).idle()
                    &&& final(self).recent() == old(self).recent()
                },
            },
    {
        self.turn_count = self.turn_count + 1;

        if self.turn_count > self.max_turns {
            self.state = ReactState::Done;
            return self.state;
        }
        match action {
            ReactAction::Think => {
                self.memory.idle_count = 0;
                self.state = ReactState::Thinking;
            },
            ReactAction::Act { tool_name, params } => {
                self.memory.idle_count = 0;
                let ghost before = self.memory.recent_calls@;
                self.memory.recent_calls.push_back((tool_name.clone(), params.clone()));
                let ghost pushed = self.memory.recent_calls@;
                assert(pushed.map_values(|c: (String, String)| (c.0@, c.1@)) =~= before.map_values(
                    |c: (String, String)| (c.0@, c.1@),
                ).push((tool_name@, params@)));
                if self.memory.recent_calls.len() > LOOP_DETECTION_WINDOW {
                    let _ = self.memory.recent_calls.pop_front();
                    assert(self.memory.recent_calls@.map_values(|c: (String, String)| (c.0@, c.1@))
                        =~= pushed.map_values(|c: (String, String)| (c.0@, c.1@)).drop_first());
                }
                if self.is_looping(&tool_name, &params) {
                    self.state = ReactState::Done;
                } else {
                    self.state = ReactState::Acting;
                }
            },
            ReactAction::Observe => {
                self.memory.idle_count = 0;
                self.state = ReactState::Observing;
            },
            ReactAction::Persist => {
                self.memory.idle_count = 0;
                self.state = ReactState::Persisting;
            },
            ReactAction::NoOp => {
                self.memory.idle_count = self.memory.idle_count + 1;
                if self.memory.idle_count >= IDLE_THRESHOLD {
                    self.state = ReactState::Idle;
                }
            },
            ReactAction::Finish => {
                self.state = ReactState::Done;
            },
        }
        self.state
    }

    /// True once at least `IDLE_THRESHOLD` consecutive no-ops were seen.
    pub fn is_idle(&self) -> (r: bool)
        ensures
            r == (self.idle() >= IDLE_THRESHOLD),
    {
        self.memory.idle_count >= IDLE_THRESHOLD
    }

    /// Returns true if the same tool+params combination has appeared
    /// `LOOP_DETECTION_WINDOW` consecutive times.
    pub fn is_looping(&self, tool_name: &str, params: &str) -> (r: bool)
        ensures
            r == looping(self.recent(), (tool_name@, params@)),
    {
        if self.memory.recent_calls.len() < LOOP_DETECTION_WINDOW {
            return false;
        }
        let n = self.memory.recent_calls.len();
        let mut i: usize = 0;
        while i < n
            invariant
                n == self.memory.recent_calls@.len(),
                n == self.recent().len(),
                n >= LOOP_DETECTION_WINDOW,
                0 <= i <= n,
                forall|j: int| 0 <= j < i ==> self.recent()[j] == (tool_name@, params@),
            decreases n - i,
        {
            let call = &self.memory.recent_calls[i];
            if !(str_eq(call.0.as_str(), tool_name) && str_eq(call.1.as_str(), params)) {
                assert(self.recent()[i as int] == (call.0@, call.1@));
                return false;
            }
            assert(self.recent()[i as int] == (call.0@, call.1@));
            i = i + 1;
        }
        true
    }
}

/// Recording the same call `LOOP_DETECTION_WINDOW` times in a row, starting
/// from any window the loop can hold, yields a looping window for that call.
pub proof fn lemma_repeated_call_loops(recent: Seq<CallView>, call: CallView)
    requires
        recent.len() <= LOOP_DETECTION_WINDOW,
    ensures
        looping(record_call(record_call(record_call(recent, call), call), call), call),
{
    let w1 = record_call(recent, call);
    let w2 = record_call(w1, call);
    let w3 = record_call(w2, call);
    assert(w1.len() >= 1 && w1[w1.len() - 1] == call);
    assert(w2.len() >= 2 && w2[w2.len() - 1] == call && w2[w2.len() - 2] == call);
    assert(w3.len() == LOOP_DETECTION_WINDOW);
    assert(forall|i: int| 0 <= i < w3.len() ==> w3[i] == call);
}

/// A window that records a call different from `call` is no longer looping
/// on `call`.
pub proof fn lemma_other_call_breaks_loop(recent: Seq<CallView>, call: CallView, other: CallView)
    requires
        other != call,
    ensures
        !looping(record_call(recent, other), call),
{
    let w = record_call(recent, other);
    assert(w[w.len() - 1] == other);
}

/// Three no-ops in a row, within the turn cap, leave the loop idle.
pub proof fn lemma_noops_make_idle(v: LoopView)
    requires
        v.1 + 3 <= v.2,
    ensures
        loop_run(v, seq![ReactAction::NoOp, ReactAction::NoOp, ReactAction::NoOp]).0
            == ReactState::Idle,
        loop_run(v, seq![ReactAction::NoOp, ReactAction::NoOp, ReactAction::NoOp]).3 == v.3 + 3,
{
    reveal_with_fuel(loop_run, 4);
    let acts = seq![ReactAction::NoOp, ReactAction::NoOp, ReactAction::NoOp];
    let v1 = loop_step(v, ReactAction::NoOp);
    let v2 = loop_step(v1, ReactAction::NoOp);
    let v3 = loop_step(v2, ReactAction::NoOp);
    assert(acts.drop_first() =~= seq![ReactAction::NoOp, ReactAction::NoOp]);
    assert(acts.drop_first().drop_first() =~= seq![ReactAction::NoOp]);
    assert(acts.drop_first().drop_first().drop_first() =~= Seq::<ReactAction>::empty());
    assert(loop_run(v2, seq![ReactAction::NoOp]) == loop_run(v3, Seq::<ReactAction>::empty()));
    assert(loop_run(v, acts) == v3);
}

/// The same tool call three times in a row, within the turn cap and from
/// any window the loop can hold, ends the loop.
pub proof fn lemma_repeated_calls_end_loop(v: LoopView, tool_name: String, params: String)
    requires
        v.1 + 3 <= v.2,
        v.4.len() <= LOOP_DETECTION_WINDOW,
    ensures
        ({
            let a = ReactAction::Act { tool_name, params };
            loop_run(v, seq![a, a, a]).0 == ReactState::Done
        }),
{
    let a = ReactAction::Act { tool_name, params };
    reveal_with_fuel(loop_run, 4);
    let acts = seq![a, a, a];
    let c = (tool_name@, params@);
    let v1 = loop_step(v, a);
    let v2 = loop_step(v1, a);
    let v3 = loop_step(v2, a);
    assert(acts.drop_first() =~= seq![a, a]);
    assert(acts.drop_first().drop_first() =~= seq![a]);
    assert(acts.drop_first().drop_first().drop_first() =~= Seq::<ReactAction>::empty());
    assert(loop_run(v, acts) == v3);
    lemma_repeated_call_loops(v.4, c);
    assert(v3.4 == record_call(record_call(record_call(v.4, c), c), c));
}

/// Once the turn cap is used up, every further action leaves the loop done.
pub proof fn lemma_cap_ends_loop(v: LoopView, acts: Seq<ReactAction>)
    requires
        v.1 >= v.2,
        acts.len() >= 1,
    ensures
        loop_run(v, acts).0 == ReactState::Done,
        loop_run(v, acts).1 == v.1 + acts.len(),
    decreases acts.len(),
{
    reveal_with_fuel(loop_run, 2);
    let v1 = loop_step(v, acts[0]);
    if acts.len() > 1 {
        lemma_cap_ends_loop(v1, acts.drop_first());
    } else {
        assert(acts.drop_first() =~= Seq::<ReactAction>::empty());
    }
}

} // verus!
