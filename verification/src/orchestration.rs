//! Multi-agent orchestration: workflows of subtasks, agent assignment by
//! capability, and which tasks are actionable under each pattern.

use vstd::prelude::*;

use crate::clock::now_millis;
use crate::text::{decimal, decimal_chars, from_chars, push_str, str_eq, to_chars};

verus! {

broadcast use vstd::string::group_string_axioms;

/// Orchestration pattern for multi-agent coordination.
#[derive(Debug, Clone, Copy, PartialEq, Eq, Structural)]
pub enum OrchestrationPattern {
    Sequential,
    Parallel,
    FanOutFanIn,
    Handoff,
}

pub open spec fn pattern_name(p: OrchestrationPattern) -> Seq<char> {
    match p {
        OrchestrationPattern::Sequential => "sequential"@,
        OrchestrationPattern::Parallel => "parallel"@,
        OrchestrationPattern::FanOutFanIn => "fan-out/fan-in"@,
        OrchestrationPattern::Handoff => "handoff"@,
    }
}

impl OrchestrationPattern {
    /// The name the pattern is shown under.
    pub fn to_display_string(&self) -> (r: String)
        ensures
            r@ == pattern_name(*self),
    {
        match self {
            OrchestrationPattern::Sequential => "sequential".to_owned(),
            OrchestrationPattern::Parallel => "parallel".to_owned(),
            OrchestrationPattern::FanOutFanIn => "fan-out/fan-in".to_owned(),
            OrchestrationPattern::Handoff => "handoff".to_owned(),
        }
    }
}

/// Status of a subtask.
#[derive(Debug, Clone, Copy, PartialEq, Eq, Structural)]
pub enum SubtaskStatus {
    Pending,
    Assigned,
    Running,
    Completed,
    Failed,
}

/// Status of a workflow.
#[derive(Debug, Clone, Copy, PartialEq, Eq, Structural)]
pub enum WorkflowStatus {
    Created,
    Running,
    Completed,
    Failed,
    Cancelled,
}

/// A subtask assigned to a specialist agent. Times are milliseconds since
/// the Unix epoch.
#[derive(Debug)]
pub struct Subtask {
    pub id: String,
    pub description: String,
    pub required_capabilities: Vec<String>,
    pub assigned_agent: Option<String>,
    pub status: SubtaskStatus,
    pub result: Option<String>,
    pub created_at: i64,
    pub completed_at: Option<i64>,
}

/// A workflow composed of subtasks with an orchestration pattern.
#[derive(Debug)]
pub struct Workflow {
    pub id: String,
    pub name: String,
    pub pattern: OrchestrationPattern,
    pub subtasks: Vec<Subtask>,
    pub status: WorkflowStatus,
    pub created_at: i64,
    pub completed_at: Option<i64>,
}

pub open spec fn opt_text(o: Option<String>) -> Option<Seq<char>> {
    match o {
        Some(s) => Some(s@),
        None => None,
    }
}

/// A subtask as the contracts see it.
pub struct SubtaskView {
    pub id: Seq<char>,
    pub description: Seq<char>,
    pub required: Seq<Seq<char>>,
    pub agent: Option<Seq<char>>,
    pub status: SubtaskStatus,
    pub result: Option<Seq<char>>,
    pub finished: bool,
}

impl View for Subtask {
    type V = SubtaskView;

    open spec fn view(&self) -> SubtaskView {
        SubtaskView {
            id: self.id@,
            description: self.description@,
            required: self.required_capabilities@.map_values(|c: String| c@),
            agent: opt_text(self.assigned_agent),
            status: self.status,
            result: opt_text(self.result),
            finished: self.completed_at is Some,
        }
    }
}

/// A workflow as the contracts see it.
pub struct WorkflowView {
    pub id: Seq<char>,
    pub name: Seq<char>,
    pub pattern: OrchestrationPattern,
    pub tasks: Seq<SubtaskView>,
    pub status: WorkflowStatus,
    pub finished: bool,
}

impl View for Workflow {
    type V = WorkflowView;

    open spec fn view(&self) -> WorkflowView {
        WorkflowView {
            id: self.id@,
            name: self.name@,
            pattern: self.pattern,
            tasks: self.subtasks@.map_values(|t: Subtask| t@),
            status: self.status,
            finished: self.completed_at is Some,
        }
    }
}

/// Why an orchestration request failed.
#[derive(Debug)]
pub enum OrchestrationError {
    /// No workflow has this id.
    WorkflowNotFound(String),
    /// The workflow has no task with this id.
    TaskNotFound(String),
}

/// The id of the `n`-th workflow created.
pub open spec fn workflow_id(n: nat) -> Seq<char> {
    "wf_"@ + decimal(n)
}

/// The id of task `i` of a workflow.
pub open spec fn task_id(wf: Seq<char>, i: nat) -> Seq<char> {
    wf + "_task_"@ + decimal(i)
}

/// The index of the first workflow with the given id, or -1.
pub open spec fn workflow_index(ws: Seq<WorkflowView>, id: Seq<char>) -> int
    decreases ws.len(),
{
    if ws.len() == 0 {
        -1
    } else if ws[0].id == id {
        0
    } else if workflow_index(ws.drop_first(), id) < 0 {
        -1
    } else {
        1 + workflow_index(ws.drop_first(), id)
    }
}

/// The index of the first task with the given id, or -1.
pub open spec fn task_index(ts: Seq<SubtaskView>, id: Seq<char>) -> int
    decreases ts.len(),
{
    if ts.len() == 0 {
        -1
    } else if ts[0].id == id {
        0
    } else if task_index(ts.drop_first(), id) < 0 {
        -1
    } else {
        1 + task_index(ts.drop_first(), id)
    }
}

proof fn lemma_workflow_index(ws: Seq<WorkflowView>, id: Seq<char>, i: int)
    requires
        0 <= i <= ws.len(),
        forall|j: int| 0 <= j < i ==> (#[trigger] ws[j]).id != id,
        i == ws.len() || ws[i].id == id,
    ensures
        workflow_index(ws, id) == if i == ws.len() {
            -1
        } else {
            i
        },
    decreases i,
{
    if i > 0 {
        assert forall|j: int| 0 <= j < i - 1 implies (#[trigger] ws.drop_first()[j]).id != id by {
            assert(ws.drop_first()[j] == ws[j + 1]);
        }
        if i < ws.len() {
            assert(ws.drop_first()[i - 1] == ws[i]);
        }
        lemma_workflow_index(ws.drop_first(), id, i - 1);
    }
}

proof fn lemma_task_index(ts: Seq<SubtaskView>, id: Seq<char>, i: int)
    requires
        0 <= i <= ts.len(),
        forall|j: int| 0 <= j < i ==> (#[trigger] ts[j]).id != id,
        i == ts.len() || ts[i].id == id,
    ensures
        task_index(ts, id) == if i == ts.len() {
            -1
        } else {
            i
        },
    decreases i,
{
    if i > 0 {
        assert forall|j: int| 0 <= j < i - 1 implies (#[trigger] ts.drop_first()[j]).id != id by {
            assert(ts.drop_first()[j] == ts[j + 1]);
        }
        if i < ts.len() {
            assert(ts.drop_first()[i - 1] == ts[i]);
        }
        lemma_task_index(ts.drop_first(), id, i - 1);
    }
}

/// Coordinates workflows and agent assignment.
pub struct Orchestrator {
    workflows: Vec<Workflow>,
    workflow_counter: u64,
}

pub open spec fn workflow_views(ws: Seq<Workflow>) -> Seq<WorkflowView> {
    ws.map_values(|w: Workflow| w@)
}

pub open spec fn task_views(ts: Seq<Subtask>) -> Seq<SubtaskView> {
    ts.map_values(|t: Subtask| t@)
}

/// Distinct creation numbers give distinct workflow ids.
pub proof fn lemma_workflow_id_injective(a: nat, b: nat)
    requires
        workflow_id(a) == workflow_id(b),
    ensures
        a == b,
{
    let p = "wf_"@;
    assert((p + decimal(a)).skip(p.len() as int) =~= decimal(a));
    assert((p + decimal(b)).skip(p.len() as int) =~= decimal(b));
    crate::text::lemma_decimal_injective(a, b);
}

impl Orchestrator {
    /// Every workflow's id is that of one of the workflows created so far,
    /// and no two workflows share an id.
    pub closed spec fn ids_fresh(&self) -> bool {
        &&& forall|i: int|
            0 <= i < self.workflows().len() ==> exists|k: nat|
                1 <= k <= self.workflow_counter && #[trigger] self.workflows()[i].id == workflow_id(k)
        &&& forall|i: int, j: int|
            0 <= i < j < self.workflows().len() ==> (#[trigger] self.workflows()[i]).id != (
            #[trigger] self.workflows()[j]).id
    }

    /// The workflows, in creation order.
    pub closed spec fn workflows(&self) -> Seq<WorkflowView> {
        workflow_views(self.workflows@)
    }

    /// When each workflow and each of its subtasks was created.
    pub closed spec fn creation_times(&self) -> Seq<(i64, Seq<i64>)> {
        self.workflows@.map_values(
            |w: Workflow| (w.created_at, w.subtasks@.map_values(|t: Subtask| t.created_at)),
        )
    }

    /// How many workflows have been created.
    pub closed spec fn created(&self) -> nat {
        self.workflow_counter as nat
    }

    pub fn new() -> (r: Self)
        ensures
            r.workflows().len() == 0,
            r.created() == 0,
            r.ids_fresh(),
    {
        Orchestrator { workflows: Vec::new(), workflow_counter: 0 }
    }

    pub fn workflow_count(&self) -> (r: usize)
        ensures
            r == self.workflows().len(),
    {
        self.workflows.len()
    }

    fn find_workflow(&self, id: &str) -> (r: Option<usize>)
        ensures
            match r {
                Some(i) => i == workflow_index(self.workflows(), id@) && i < self.workflows@.len(),
                None => workflow_index(self.workflows(), id@) == -1,
            },
    {
        let ghost ws = self.workflows();
        let mut i: usize = 0;
        while i < self.workflows.len()
            invariant
                0 <= i <= self.workflows@.len(),
                ws == workflow_views(self.workflows@),
                forall|j: int| 0 <= j < i ==> (#[trigger] ws[j]).id != id@,
            decreases self.workflows@.len() - i,
        {
            assert(ws[i as int] == self.workflows@[i as int]@);
            if str_eq(self.workflows[i].id.as_str(), id) {
                proof {
                    lemma_workflow_index(ws, id@, i as int);
                }
                return Some(i);
            }
            i = i + 1;
        }
        proof {
            lemma_workflow_index(ws, id@, i as int);
        }
        None
    }

    /// Get a workflow by ID.
    pub fn get_workflow(&self, id: &str) -> (r: Option<&Workflow>)
        ensures
            workflow_index(self.workflows(), id@) >= 0 ==> (r matches Some(w) && w@
                == self.workflows()[workflow_index(self.workflows(), id@)]),
            workflow_index(self.workflows(), id@) < 0 ==> r is None,
    {
        match self.find_workflow(id) {
            Some(i) => Some(&self.workflows[i]),
            None => None,
        }
    }
}

fn find_task(tasks: &Vec<Subtask>, id: &str) -> (r: Option<usize>)
    ensures
        match r {
            Some(i) => i == task_index(task_views(tasks@), id@) && i < tasks@.len(),
            None => task_index(task_views(tasks@), id@) == -1,
        },
{
    let ghost ts = task_views(tasks@);
    let mut i: usize = 0;
    while i < tasks.len()
        invariant
            0 <= i <= tasks@.len(),
            ts == task_views(tasks@),
            forall|j: int| 0 <= j < i ==> (#[trigger] ts[j]).id != id@,
        decreases tasks@.len() - i,
    {
        assert(ts[i as int] == tasks@[i as int]@);
        if str_eq(tasks[i].id.as_str(), id) {
            proof {
                lemma_task_index(ts, id@, i as int);
            }
            return Some(i);
        }
        i = i + 1;
    }
    proof {
        lemma_task_index(ts, id@, i as int);
    }
    None
}

// ── Updates ────────────────────────────────────────────────────

pub open spec fn with_task(w: WorkflowView, t: int, task: SubtaskView) -> WorkflowView {
    WorkflowView {
        id: w.id,
        name: w.name,
        pattern: w.pattern,
        tasks: w.tasks.update(t, task),
        status: w.status,
        finished: w.finished,
    }
}

pub open spec fn with_status(w: WorkflowView, status: WorkflowStatus, finished: bool) -> WorkflowView {
    WorkflowView {
        id: w.id,
        name: w.name,
        pattern: w.pattern,
        tasks: w.tasks,
        status,
        finished,
    }
}

pub open spec fn assigned_task(t: SubtaskView, agent: Seq<char>) -> SubtaskView {
    SubtaskView { agent: Some(agent), status: SubtaskStatus::Assigned, ..t }
}

pub open spec fn running_task(t: SubtaskView) -> SubtaskView {
    SubtaskView { status: SubtaskStatus::Running, ..t }
}

pub open spec fn finished_task(t: SubtaskView, status: SubtaskStatus, result: Seq<char>) -> SubtaskView {
    SubtaskView { status, result: Some(result), finished: true, ..t }
}

pub open spec fn all_completed(ts: Seq<SubtaskView>) -> bool {
    forall|i: int| 0 <= i < ts.len() ==> (#[trigger] ts[i]).status == SubtaskStatus::Completed
}

/// The outcome of an update addressed to task `task` of workflow `wf`:
/// `None` when both exist (then `update` applies), else the error.
pub open spec fn lookup_error(ws: Seq<WorkflowView>, wf: Seq<char>, task: Seq<char>) -> Option<(bool, Seq<char>)> {
    let w = workflow_index(ws, wf);
    if w < 0 {
        Some((true, wf))
    } else if task_index(ws[w].tasks, task) < 0 {
        Some((false, task))
    } else {
        None
    }
}

pub open spec fn error_is(r: Result<(), OrchestrationError>, e: (bool, Seq<char>)) -> bool {
    if e.0 {
        r matches Err(OrchestrationError::WorkflowNotFound(s)) && s@ == e.1
    } else {
        r matches Err(OrchestrationError::TaskNotFound(s)) && s@ == e.1
    }
}

impl Orchestrator {
    /// Where task `tid` of workflow `wf_id` is: both indices, or why there
    /// is no such task.
    fn located(&self, wf_id: &str, tid: &str) -> (r: Result<(usize, usize), OrchestrationError>)
        ensures
            match lookup_error(self.workflows(), wf_id@, tid@) {
                Some(e) => match r {
                    Ok(_) => false,
                    Err(OrchestrationError::WorkflowNotFound(s)) => e.0 && s@ == e.1,
                    Err(OrchestrationError::TaskNotFound(s)) => !e.0 && s@ == e.1,
                },
                None => r matches Ok((w, t)) && w == workflow_index(self.workflows(), wf_id@) && t
                    == task_index(self.workflows()[w as int].tasks, tid@) && w < self.workflows@.len()
                    && t < self.workflows@[w as int].subtasks@.len(),
            },
    {
        match self.find_workflow(wf_id) {
            None => Err(OrchestrationError::WorkflowNotFound(wf_id.to_owned())),
            Some(w) => {
                assert(self.workflows()[w as int] == self.workflows@[w as int]@);
                match find_task(&self.workflows[w].subtasks, tid) {
                    None => Err(OrchestrationError::TaskNotFound(tid.to_owned())),
                    Some(t) => Ok((w, t)),
                }
            },
        }
    }

    /// Assign an agent to a subtask.
    pub fn assign_agent(&mut self, workflow_id: &str, task_id: &str, agent_id: &str) -> (r: Result<
        (),
        OrchestrationError,
    >)
        ensures
            final(self).created() == old(self).created(),
            old(self).ids_fresh() ==> final(self).ids_fresh(),
            match lookup_error(old(self).workflows(), workflow_id@, task_id@) {
                Some(e) => error_is(r, e) && final(self).workflows() == old(self).workflows(),
                None => {
                    let ws = old(self).workflows();
                    let w = workflow_index(ws, workflow_id@);
                    let t = task_index(ws[w].tasks, task_id@);
                    r is Ok && final(self).workflows() == ws.update(
                        w,
                        with_task(ws[w], t, assigned_task(ws[w].tasks[t], agent_id@)),
                    )
                },
            },
    {
        let ghost ws = self.workflows();
        let (w, t) = match self.located(workflow_id, task_id) {
            Ok(p) => p,
            Err(e) => {
                return Err(e);
            },
        };
        let mut wf = self.workflows.remove(w);
        let ghost tv = task_views(wf.subtasks@);
        let mut task = wf.subtasks.remove(t);
        task.assigned_agent = Some(agent_id.to_owned());
        task.status = SubtaskStatus::Assigned;
        wf.subtasks.insert(t, task);
        assert(task_views(wf.subtasks@) =~= tv.update(t as int, assigned_task(tv[t as int], agent_id@)));
        self.workflows.insert(w, wf);
        assert(self.workflows() =~= ws.update(
            w as int,
            with_task(ws[w as int], t as int, assigned_task(ws[w as int].tasks[t as int], agent_id@)),
        ));
        Ok(())
    }

    /// Start a subtask: it and its workflow are running.
    pub fn start_task(&mut self, workflow_id: &str, task_id: &str) -> (r: Result<(), OrchestrationError>)
        ensures
            final(self).created() == old(self).created(),
            old(self).ids_fresh() ==> final(self).ids_fresh(),
            match lookup_error(old(self).workflows(), workflow_id@, task_id@) {
                Some(e) => error_is(r, e) && final(self).workflows() == old(self).workflows(),
                None => {
                    let ws = old(self).workflows();
                    let w = workflow_index(ws, workflow_id@);
                    let t = task_index(ws[w].tasks, task_id@);
                    r is Ok && final(self).workflows() == ws.update(
                        w,
                        with_status(
                            with_task(ws[w], t, running_task(ws[w].tasks[t])),
                            WorkflowStatus::Running,
                            ws[w].finished,
                        ),
                    )
                },
            },
    {
        let ghost ws = self.workflows();
        let (w, t) = match self.located(workflow_id, task_id) {
            Ok(p) => p,
            Err(e) => {
                return Err(e);
            },
        };
        let mut wf = self.workflows.remove(w);
        let ghost tv = task_views(wf.subtasks@);
        let mut task = wf.subtasks.remove(t);
        task.status = SubtaskStatus::Running;
        wf.subtasks.insert(t, task);
        wf.status = WorkflowStatus::Running;
        assert(task_views(wf.subtasks@) =~= tv.update(t as int, running_task(tv[t as int])));
        self.workflows.insert(w, wf);
        assert(self.workflows() =~= ws.update(
            w as int,
            with_status(
                with_task(ws[w as int], t as int, running_task(ws[w as int].tasks[t as int])),
                WorkflowStatus::Running,
                ws[w as int].finished,
            ),
        ));
        Ok(())
    }

    /// Complete a subtask with a result; the workflow completes when all
    /// its tasks have.
    pub fn complete_task(&mut self, workflow_id: &str, task_id: &str, result: String) -> (r: Result<
        (),
        OrchestrationError,
    >)
        ensures
            final(self).created() == old(self).created(),
            old(self).ids_fresh() ==> final(self).ids_fresh(),
            match lookup_error(old(self).workflows(), workflow_id@, task_id@) {
                Some(e) => error_is(r, e) && final(self).workflows() == old(self).workflows(),
                None => {
                    let ws = old(self).workflows();
                    let w = workflow_index(ws, workflow_id@);
                    let t = task_index(ws[w].tasks, task_id@);
                    let done = with_task(
                        ws[w],
                        t,
                        finished_task(ws[w].tasks[t], SubtaskStatus::Completed, result@),
                    );
                    r is Ok && final(self).workflows() == ws.update(
                        w,
                        if all_completed(done.tasks) {
                            with_status(done, WorkflowStatus::Completed, true)
                        } else {
                            done
                        },
                    )
                },
            },
    {
        let ghost ws = self.workflows();
        let ghost rv = result@;
        let (w, t) = match self.located(workflow_id, task_id) {
            Ok(p) => p,
            Err(e) => {
                return Err(e);
            },
        };
        let mut wf = self.workflows.remove(w);
        let ghost tv = task_views(wf.subtasks@);
        let mut task = wf.subtasks.remove(t);
        task.status = SubtaskStatus::Completed;
        task.result = Some(result);
        task.completed_at = Some(now_millis());
        wf.subtasks.insert(t, task);
        let ghost done_tasks = tv.update(
            t as int,
            finished_task(tv[t as int], SubtaskStatus::Completed, rv),
        );
        assert(task_views(wf.subtasks@) =~= done_tasks);
        let mut all = true;
        let mut i: usize = 0;
        while i < wf.subtasks.len()
            invariant
                0 <= i <= wf.subtasks@.len(),
                task_views(wf.subtasks@) == done_tasks,
                all == forall|j: int| 0 <= j < i ==> (#[trigger] done_tasks[j]).status
                    == SubtaskStatus::Completed,
            decreases wf.subtasks@.len() - i,
        {
            assert(done_tasks[i as int] == wf.subtasks@[i as int]@);
            if wf.subtasks[i].status != SubtaskStatus::Completed {
                all = false;
            }
            i = i + 1;
        }
        if all {
            wf.status = WorkflowStatus::Completed;
            wf.completed_at = Some(now_millis());
        }
        self.workflows.insert(w, wf);
        let ghost done = with_task(
            ws[w as int],
            t as int,
            finished_task(ws[w as int].tasks[t as int], SubtaskStatus::Completed, rv),
        );
        assert(self.workflows() =~= ws.update(
            w as int,
            if all_completed(done.tasks) {
                with_status(done, WorkflowStatus::Completed, true)
            } else {
                done
            },
        ));
        Ok(())
    }

    /// Fail a subtask; its workflow fails with it.
    pub fn fail_task(&mut self, workflow_id: &str, task_id: &str, error: &str) -> (r: Result<
        (),
        OrchestrationError,
    >)
        ensures
            final(self).created() == old(self).created(),
            old(self).ids_fresh() ==> final(self).ids_fresh(),
            match lookup_error(old(self).workflows(), workflow_id@, task_id@) {
                Some(e) => error_is(r, e) && final(self).workflows() == old(self).workflows(),
                None => {
                    let ws = old(self).workflows();
                    let w = workflow_index(ws, workflow_id@);
                    let t = task_index(ws[w].tasks, task_id@);
                    r is Ok && final(self).workflows() == ws.update(
                        w,
                        with_status(
                            with_task(
                                ws[w],
                                t,
                                finished_task(
                                    ws[w].tasks[t],
                                    SubtaskStatus::Failed,
                                    "ERROR: "@ + error@,
                                ),
                            ),
                            WorkflowStatus::Failed,
                            ws[w].finished,
                        ),
                    )
                },
            },
    {
        let ghost ws = self.workflows();
        let (w, t) = match self.located(workflow_id, task_id) {
            Ok(p) => p,
            Err(e) => {
                return Err(e);
            },
        };
        let mut wf = self.workflows.remove(w);
        let ghost tv = task_views(wf.subtasks@);
        let mut task = wf.subtasks.remove(t);
        let mut msg: Vec<char> = Vec::new();
        push_str(&mut msg, "ERROR: ");
        push_str(&mut msg, error);
        task.status = SubtaskStatus::Failed;
        task.result = Some(from_chars(msg.as_slice()));
        task.completed_at = Some(now_millis());
        wf.subtasks.insert(t, task);
        wf.status = WorkflowStatus::Failed;
        assert(task_views(wf.subtasks@) =~= tv.update(
            t as int,
            finished_task(tv[t as int], SubtaskStatus::Failed, "ERROR: "@ + error@),
        ));
        self.workflows.insert(w, wf);
        assert(self.workflows() =~= ws.update(
            w as int,
            with_status(
                with_task(
                    ws[w as int],
                    t as int,
                    finished_task(ws[w as int].tasks[t as int], SubtaskStatus::Failed, "ERROR: "@ + error@),
                ),
                WorkflowStatus::Failed,
                ws[w as int].finished,
            ),
        ));
        Ok(())
    }
}

// ── Creation ───────────────────────────────────────────────────

/// The subtasks of a new workflow: pending, unassigned, numbered in order.
pub open spec fn new_tasks(wf: Seq<char>, specs: Seq<(String, Vec<String>)>) -> Seq<SubtaskView> {
    Seq::new(
        specs.len(),
        |i: int|
            SubtaskView {
                id: task_id(wf, i as nat),
                description: specs[i].0@,
                required: specs[i].1@.map_values(|c: String| c@),
                agent: None,
                status: SubtaskStatus::Pending,
                result: None,
                finished: false,
            },
    )
}

pub open spec fn new_workflow(
    id: Seq<char>,
    name: Seq<char>,
    pattern: OrchestrationPattern,
    specs: Seq<(String, Vec<String>)>,
) -> WorkflowView {
    WorkflowView {
        id,
        name,
        pattern,
        tasks: new_tasks(id, specs),
        status: WorkflowStatus::Created,
        finished: false,
    }
}

impl Orchestrator {
    /// Create a new workflow from subtask descriptions and the capabilities
    /// each needs; returns its id.
    pub fn create_workflow(
        &mut self,
        name: &str,
        pattern: OrchestrationPattern,
        subtasks: Vec<(String, Vec<String>)>,
    ) -> (r: String)
        requires
            old(self).created() < u64::MAX,
        ensures
            final(self).created() == old(self).created() + 1,
            r@ == workflow_id(final(self).created()),
            final(self).workflows() == old(self).workflows().push(
                new_workflow(r@, name@, pattern, subtasks@),
            ),
            old(self).ids_fresh() ==> final(self).ids_fresh(),
            old(self).ids_fresh() ==> workflow_index(final(self).workflows(), r@) == old(
                self,
            ).workflows().len(),
            final(self).creation_times().len() == old(self).creation_times().len() + 1,
            ({
                let ct = final(self).creation_times().last();
                &&& ct.1.len() == subtasks@.len()
                &&& forall|i: int| 0 <= i < ct.1.len() ==> #[trigger] ct.1[i] == ct.0
            }),
    {
        let ghost fresh = self.ids_fresh();
        let ghost before = self.workflows();
        let ghost c0 = self.workflow_counter as nat;
        self.workflow_counter = self.workflow_counter + 1;
        let mut id: Vec<char> = Vec::new();
        push_str(&mut id, "wf_");
        let mut n = crate::text::decimal_u64_chars(self.workflow_counter);
        id.append(&mut n);
        let new_id = from_chars(id.as_slice());
        let ghost specs = subtasks@;
        let mut tasks: Vec<Subtask> = Vec::new();
        let mut rest = subtasks;
        let mut i: usize = 0;
        let created = now_millis();
        while i < rest.len()
            invariant
                0 <= i <= rest@.len(),
                rest@ == specs,
                tasks@.len() == i,
                task_views(tasks@) == new_tasks(new_id@, specs).take(i as int),
                forall|j: int| 0 <= j < i ==> (#[trigger] tasks@[j]).created_at == created,
            decreases rest@.len() - i,
        {
            let (desc, caps) = (rest[i].0.clone(), clone_strings(&rest[i].1));
            let mut tid: Vec<char> = Vec::new();
            push_str(&mut tid, new_id.as_str());
            push_str(&mut tid, "_task_");
            let mut k = decimal_chars(i);
            tid.append(&mut k);
            let ghost t0 = task_views(tasks@);
            assert(desc@ == specs[i as int].0@);
            assert(tid@ == task_id(new_id@, i as nat));
            let ghost nt = new_tasks(new_id@, specs)[i as int];
            tasks.push(
                Subtask {
                    id: from_chars(tid.as_slice()),
                    description: desc,
                    required_capabilities: caps,
                    assigned_agent: None,
                    status: SubtaskStatus::Pending,
                    result: None,
                    created_at: created,
                    completed_at: None,
                },
            );
            assert(tasks@.len() == i + 1);
            assert(tasks@[i as int]@.required =~= nt.required);
            assert(tasks@[i as int]@.id =~= nt.id);
            assert(tasks@[i as int]@.description =~= nt.description);
            assert(tasks@[i as int]@ == nt);
            assert(task_views(tasks@) =~= t0.push(nt));
            assert(new_tasks(new_id@, specs).take(i + 1) =~= new_tasks(new_id@, specs).take(
                i as int,
            ).push(nt));
            i = i + 1;
        }
        assert(new_tasks(new_id@, specs).take(specs.len() as int) =~= new_tasks(new_id@, specs));
        let ghost ws = self.workflows();
        self.workflows.push(
            Workflow {
                id: new_id.clone(),
                name: name.to_owned(),
                pattern,
                subtasks: tasks,
                status: WorkflowStatus::Created,
                created_at: created,
                completed_at: None,
            },
        );
        assert(self.workflows() =~= ws.push(new_workflow(new_id@, name@, pattern, specs)));
        proof {
            let ct = self.creation_times().last();
            assert(self.workflows@.last().created_at == created);
            assert(ct.1 =~= self.workflows@.last().subtasks@.map_values(|t: Subtask| t.created_at));
            assert(ct.1.len() == specs.len());
        }
        proof {
            assert(new_id@ == workflow_id(c0 + 1));
            if fresh {
                assert forall|i: int| 0 <= i < self.workflows().len() implies exists|k: nat|
                    1 <= k <= self.workflow_counter && #[trigger] self.workflows()[i].id
                        == workflow_id(k) by {
                    if i < before.len() {
                        assert(self.workflows()[i].id == before[i].id);
                        let k = choose|k: nat| 1 <= k <= c0 && #[trigger] before[i].id == workflow_id(k);
                        assert(self.workflows()[i].id == workflow_id(k));
                    } else {
                        assert(self.workflows()[i].id == workflow_id(c0 + 1));
                    }
                }
                assert forall|j: int| 0 <= j < before.len() implies (#[trigger] self.workflows()[j]).id
                    != new_id@ by {
                    assert(self.workflows()[j].id == before[j].id);
                    let k = choose|k: nat| 1 <= k <= c0 && #[trigger] before[j].id == workflow_id(k);
                    if before[j].id == new_id@ {
                        lemma_workflow_id_injective(k, c0 + 1);
                    }
                }
                lemma_workflow_index(self.workflows(), new_id@, before.len() as int);
            }
        }
        new_id
    }
}

fn clone_strings(v: &Vec<String>) -> (r: Vec<String>)
    ensures
        r@.map_values(|c: String| c@) == v@.map_values(|c: String| c@),
{
    let mut out: Vec<String> = Vec::new();
    let mut i: usize = 0;
    while i < v.len()
        invariant
            0 <= i <= v@.len(),
            out@.map_values(|c: String| c@) == v@.map_values(|c: String| c@).take(i as int),
        decreases v@.len() - i,
    {
        let ghost o0 = out@.map_values(|c: String| c@);
        out.push(v[i].clone());
        assert(out@.map_values(|c: String| c@) =~= o0.push(v@[i as int]@));
        assert(v@.map_values(|c: String| c@).take(i + 1) =~= v@.map_values(|c: String| c@).take(
            i as int,
        ).push(v@[i as int]@));
        i = i + 1;
    }
    assert(v@.map_values(|c: String| c@).take(v@.len() as int) =~= v@.map_values(|c: String| c@));
    out
}


// ── Matching and scheduling ────────────────────────────────────

/// How many of the required capabilities (counted with repetition) the
/// agent offers.
pub open spec fn overlap(required: Seq<Seq<char>>, caps: Seq<Seq<char>>) -> nat
    decreases required.len(),
{
    if required.len() == 0 {
        0
    } else {
        overlap(required.drop_last(), caps) + if caps.contains(required.last()) {
            1nat
        } else {
            0nat
        }
    }
}

/// An agent as matching sees it: its id and capabilities.
pub type AgentView = (Seq<char>, Seq<Seq<char>>);

pub open spec fn agent_views(agents: Seq<(String, Vec<String>)>) -> Seq<AgentView> {
    agents.map_values(|a: (String, Vec<String>)| (a.0@, a.1@.map_values(|c: String| c@)))
}

/// The agent with the largest overlap (the last such on ties, as
/// `Iterator::max_by_key` picks), or -1 when there is none.
pub open spec fn best_agent(required: Seq<Seq<char>>, agents: Seq<AgentView>) -> int
    decreases agents.len(),
{
    if agents.len() == 0 {
        -1
    } else {
        let b = best_agent(required, agents.drop_last());
        if b < 0 || overlap(required, agents.last().1) >= overlap(required, agents[b].1) {
            agents.len() - 1
        } else {
            b
        }
    }
}

/// The assignments of pending tasks to their best agent, where that agent
/// offers at least one required capability.
pub open spec fn assignments(tasks: Seq<SubtaskView>, agents: Seq<AgentView>) -> Seq<(Seq<char>, Seq<char>)>
    decreases tasks.len(),
{
    if tasks.len() == 0 {
        seq![]
    } else {
        let prev = assignments(tasks.drop_last(), agents);
        let t = tasks.last();
        let b = best_agent(t.required, agents);
        if t.status == SubtaskStatus::Pending && b >= 0 && overlap(t.required, agents[b].1) > 0 {
            prev.push((t.id, agents[b].0))
        } else {
            prev
        }
    }
}

proof fn lemma_best_agent(required: Seq<Seq<char>>, agents: Seq<AgentView>)
    ensures
        agents.len() == 0 <==> best_agent(required, agents) == -1,
        -1 <= best_agent(required, agents) < agents.len(),
    decreases agents.len(),
{
    if agents.len() > 0 {
        lemma_best_agent(required, agents.drop_last());
    }
}

fn contains_string(v: &Vec<String>, s: &String) -> (r: bool)
    ensures
        r == v@.map_values(|c: String| c@).contains(s@),
{
    let ghost vv = v@.map_values(|c: String| c@);
    let mut i: usize = 0;
    while i < v.len()
        invariant
            0 <= i <= v@.len(),
            vv == v@.map_values(|c: String| c@),
            forall|j: int| 0 <= j < i ==> vv[j] != s@,
        decreases v@.len() - i,
    {
        if str_eq(v[i].as_str(), s.as_str()) {
            assert(vv[i as int] == s@);
            return true;
        }
        i = i + 1;
    }
    false
}

fn overlap_count(required: &Vec<String>, caps: &Vec<String>) -> (r: usize)
    ensures
        r == overlap(required@.map_values(|c: String| c@), caps@.map_values(|c: String| c@)),
{
    let ghost rv = required@.map_values(|c: String| c@);
    let ghost cv = caps@.map_values(|c: String| c@);
    let mut count: usize = 0;
    let mut i: usize = 0;
    while i < required.len()
        invariant
            0 <= i <= required@.len(),
            rv == required@.map_values(|c: String| c@),
            cv == caps@.map_values(|c: String| c@),
            count <= i,
            count == overlap(rv.take(i as int), cv),
        decreases required@.len() - i,
    {
        assert(rv.take(i + 1).drop_last() =~= rv.take(i as int));
        assert(rv.take(i + 1).last() == required@[i as int]@);
        if contains_string(caps, &required[i]) {
            count = count + 1;
        }
        i = i + 1;
    }
    assert(rv.take(required@.len() as int) =~= rv);
    count
}

/// The tasks actionable now under a pattern: for sequential workflows the
/// first pending or assigned task; for parallel and fan-out/fan-in all of
/// them; for handoff the task after the last completed one (the first when
/// none has completed).
pub open spec fn ready(t: SubtaskView) -> bool {
    t.status == SubtaskStatus::Pending || t.status == SubtaskStatus::Assigned
}

pub open spec fn first_ready(ts: Seq<SubtaskView>) -> int
    decreases ts.len(),
{
    if ts.len() == 0 {
        -1
    } else if ready(ts[0]) {
        0
    } else if first_ready(ts.drop_first()) < 0 {
        -1
    } else {
        1 + first_ready(ts.drop_first())
    }
}

pub open spec fn last_completed(ts: Seq<SubtaskView>) -> int
    decreases ts.len(),
{
    if ts.len() == 0 {
        -1
    } else if ts.last().status == SubtaskStatus::Completed {
        ts.len() - 1
    } else {
        last_completed(ts.drop_last())
    }
}

pub open spec fn next_actionable(w: WorkflowView) -> Seq<SubtaskView> {
    match w.pattern {
        OrchestrationPattern::Sequential => if first_ready(w.tasks) >= 0 {
            seq![w.tasks[first_ready(w.tasks)]]
        } else {
            seq![]
        },
        OrchestrationPattern::Parallel | OrchestrationPattern::FanOutFanIn => w.tasks.filter(
            |t: SubtaskView| ready(t),
        ),
        OrchestrationPattern::Handoff => if last_completed(w.tasks) + 1 < w.tasks.len() {
            seq![w.tasks[last_completed(w.tasks) + 1]]
        } else {
            seq![]
        },
    }
}

proof fn lemma_first_ready(ts: Seq<SubtaskView>, i: int)
    requires
        0 <= i <= ts.len(),
        forall|j: int| 0 <= j < i ==> !ready(#[trigger] ts[j]),
        i == ts.len() || ready(ts[i]),
    ensures
        first_ready(ts) == if i == ts.len() {
            -1
        } else {
            i
        },
    decreases i,
{
    if i > 0 {
        assert forall|j: int| 0 <= j < i - 1 implies !ready(#[trigger] ts.drop_first()[j]) by {
            assert(ts.drop_first()[j] == ts[j + 1]);
        }
        if i < ts.len() {
            assert(ts.drop_first()[i - 1] == ts[i]);
        }
        lemma_first_ready(ts.drop_first(), i - 1);
    }
}

proof fn lemma_last_completed(ts: Seq<SubtaskView>)
    ensures
        -1 <= last_completed(ts) < ts.len(),
    decreases ts.len(),
{
    if ts.len() > 0 {
        lemma_last_completed(ts.drop_last());
    }
}

impl Orchestrator {
    /// Match the pending subtasks of a workflow to available agents by
    /// capability overlap.
    pub fn match_capabilities(&self, workflow_id: &str, available_agents: &[(String, Vec<String>)]) -> (r:
        Result<Vec<(String, String)>, OrchestrationError>)
        ensures
            workflow_index(self.workflows(), workflow_id@) < 0 ==> (r matches Err(
                OrchestrationError::WorkflowNotFound(s),
            ) && s@ == workflow_id@),
            workflow_index(self.workflows(), workflow_id@) >= 0 ==> (r matches Ok(v) && v@.map_values(
                |p: (String, String)| (p.0@, p.1@),
            ) == assignments(
                self.workflows()[workflow_index(self.workflows(), workflow_id@)].tasks,
                agent_views(available_agents@),
            )),
    {
        let w = match self.find_workflow(workflow_id) {
            Some(w) => w,
            None => {
                return Err(OrchestrationError::WorkflowNotFound(workflow_id.to_owned()));
            },
        };
        let wf = &self.workflows[w];
        assert(self.workflows()[w as int] == wf@);
        let ghost tv = task_views(wf.subtasks@);
        let ghost av = agent_views(available_agents@);
        let mut out: Vec<(String, String)> = Vec::new();
        let mut i: usize = 0;
        while i < wf.subtasks.len()
            invariant
                0 <= i <= wf.subtasks@.len(),
                tv == task_views(wf.subtasks@),
                av == agent_views(available_agents@),
                out@.map_values(|p: (String, String)| (p.0@, p.1@)) == assignments(
                    tv.take(i as int),
                    av,
                ),
            decreases wf.subtasks@.len() - i,
        {
            let task = &wf.subtasks[i];
            assert(tv.take(i + 1).drop_last() =~= tv.take(i as int));
            assert(tv.take(i + 1).last() == task@);
            if task.status == SubtaskStatus::Pending {
                // the best agent: the last one with the largest overlap
                let mut best: Option<(usize, usize)> = None;
                let mut k: usize = 0;
                while k < available_agents.len()
                    invariant
                        0 <= k <= available_agents@.len(),
                        av == agent_views(available_agents@),
                        task@.required == task.required_capabilities@.map_values(|c: String| c@),
                        match best {
                            Some((b, ov)) => b == best_agent(task@.required, av.take(k as int)) && b
                                < k && ov == overlap(task@.required, av[b as int].1),
                            None => k == 0,
                        },
                    decreases available_agents@.len() - k,
                {
                    assert(av.take(k + 1).drop_last() =~= av.take(k as int));
                    let ov = overlap_count(&task.required_capabilities, &available_agents[k].1);
                    assert(av[k as int].1 == available_agents@[k as int].1@.map_values(|c: String| c@));
                    proof {
                        lemma_best_agent(task@.required, av.take(k as int));
                    }
                    best = match best {
                        None => Some((k, ov)),
                        Some((b, bo)) => if ov >= bo {
                            Some((k, ov))
                        } else {
                            Some((b, bo))
                        },
                    };
                    k = k + 1;
                }
                assert(av.take(available_agents@.len() as int) =~= av);
                proof {
                    lemma_best_agent(task@.required, av);
                }
                match best {
                    Some((b, ov)) => {
                        if ov > 0 {
                            let ghost o0 = out@.map_values(|p: (String, String)| (p.0@, p.1@));
                            out.push((task.id.clone(), available_agents[b].0.clone()));
                            assert(out@.map_values(|p: (String, String)| (p.0@, p.1@)) =~= o0.push(
                                (task@.id, av[b as int].0),
                            ));
                        }
                    },
                    None => {},
                }
            }
            i = i + 1;
        }
        assert(tv.take(wf.subtasks@.len() as int) =~= tv);
        Ok(out)
    }

    /// Get the next actionable tasks of a workflow according to its pattern.
    pub fn next_tasks(&self, workflow_id: &str) -> (r: Result<Vec<&Subtask>, OrchestrationError>)
        ensures
            workflow_index(self.workflows(), workflow_id@) < 0 ==> (r matches Err(
                OrchestrationError::WorkflowNotFound(s),
            ) && s@ == workflow_id@),
            workflow_index(self.workflows(), workflow_id@) >= 0 ==> (r matches Ok(v) && v@.map_values(
                |t: &Subtask| t@,
            ) == next_actionable(self.workflows()[workflow_index(self.workflows(), workflow_id@)])),
    {
        let w = match self.find_workflow(workflow_id) {
            Some(w) => w,
            None => {
                return Err(OrchestrationError::WorkflowNotFound(workflow_id.to_owned()));
            },
        };
        let wf = &self.workflows[w];
        assert(self.workflows()[w as int] == wf@);
        let ghost tv = task_views(wf.subtasks@);
        let mut out: Vec<&Subtask> = Vec::new();
        match wf.pattern {
            OrchestrationPattern::Sequential => {
                let mut i: usize = 0;
                while i < wf.subtasks.len()
                    invariant
                        0 <= i <= wf.subtasks@.len(),
                        tv == task_views(wf.subtasks@),
                        out@.len() == 0,
                        w == workflow_index(self.workflows(), workflow_id@),
                        self.workflows()[w as int] == wf@,
                        wf.pattern == OrchestrationPattern::Sequential,
                        forall|j: int| 0 <= j < i ==> !ready(#[trigger] tv[j]),
                    decreases wf.subtasks@.len() - i,
                {
                    assert(tv[i as int] == wf.subtasks@[i as int]@);
                    if wf.subtasks[i].status == SubtaskStatus::Pending || wf.subtasks[i].status
                        == SubtaskStatus::Assigned {
                        proof {
                            lemma_first_ready(tv, i as int);
                        }
                        out.push(&wf.subtasks[i]);
                        assert(out@.map_values(|t: &Subtask| t@) =~= seq![tv[i as int]]);
                        return Ok(out);
                    }
                    i = i + 1;
                }
                proof {
                    lemma_first_ready(tv, i as int);
                }
                assert(out@.map_values(|t: &Subtask| t@) =~= Seq::<SubtaskView>::empty());
                Ok(out)
            },
            OrchestrationPattern::Parallel | OrchestrationPattern::FanOutFanIn => {
                let mut i: usize = 0;
                while i < wf.subtasks.len()
                    invariant
                        0 <= i <= wf.subtasks@.len(),
                        tv == task_views(wf.subtasks@),
                        out@.map_values(|t: &Subtask| t@) == tv.take(i as int).filter(
                            |t: SubtaskView| ready(t),
                        ),
                    decreases wf.subtasks@.len() - i,
                {
                    reveal_with_fuel(Seq::<_>::filter, 1);
                    assert(tv.take(i + 1).drop_last() =~= tv.take(i as int));
                    assert(tv.take(i + 1).last() == wf.subtasks@[i as int]@);
                    let ghost o0 = out@.map_values(|t: &Subtask| t@);
                    if wf.subtasks[i].status == SubtaskStatus::Pending || wf.subtasks[i].status
                        == SubtaskStatus::Assigned {
                        out.push(&wf.subtasks[i]);
                        assert(out@.map_values(|t: &Subtask| t@) =~= o0.push(tv[i as int]));
                    }
                    i = i + 1;
                }
                assert(tv.take(wf.subtasks@.len() as int) =~= tv);
                Ok(out)
            },
            OrchestrationPattern::Handoff => {
                let mut j: usize = wf.subtasks.len();
                assert(tv.take(j as int) =~= tv);
                while j > 0 && wf.subtasks[j - 1].status != SubtaskStatus::Completed
                    invariant
                        j <= wf.subtasks@.len(),
                        tv == task_views(wf.subtasks@),
                        last_completed(tv) == last_completed(tv.take(j as int)),
                    decreases j,
                {
                    assert(tv.take(j as int).drop_last() =~= tv.take(j - 1));
                    assert(tv.take(j as int).last() == wf.subtasks@[j - 1]@);
                    j = j - 1;
                }
                proof {
                    if j > 0 {
                        assert(tv.take(j as int).last() == wf.subtasks@[j - 1]@);
                    }
                    lemma_last_completed(tv);
                }
                assert(last_completed(tv) + 1 == j);
                if j < wf.subtasks.len() {
                    out.push(&wf.subtasks[j]);
                    assert(out@.map_values(|t: &Subtask| t@) =~= seq![tv[j as int]]);
                } else {
                    assert(out@.map_values(|t: &Subtask| t@) =~= Seq::<SubtaskView>::empty());
                }
                Ok(out)
            },
        }
    }
}

} // verus!
