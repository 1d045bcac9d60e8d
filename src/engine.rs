use crate::graph::{based_on, lemma_based_on_bounds, DependencyGraph};
use crate::request::ChangeRequest;
use vstd::prelude::*;

verus! {

/// What the rebase primitive reported for one change request.
#[derive(Clone, Copy, Debug, PartialEq, Eq, Structural)]
pub enum RebaseOutcome {
    /// Every commit was replayed (or was already applied).
    Succeeded,
    /// A commit did not apply cleanly.
    Conflicted,
    /// The replay plan held an operation other than a plain pick.
    Unsupported,
}

/// The answer to the action the engine asked for last.
#[derive(Clone, Copy, Debug, PartialEq, Eq, Structural)]
pub enum Event {
    /// Answers `Rebase`.
    Rebased(RebaseOutcome),
    /// Answers `CompareWithRemote`: whether the local tip equals the tracking tip.
    Compared(bool),
    /// Answers `Publish`: whether the remote accepted the update.
    Published(bool),
    /// Answers `AbortRebase` and `ResetToRemote`.
    Acknowledged,
}

/// Why a run stopped.
#[derive(Clone, Copy, Debug, PartialEq, Eq, Structural)]
pub enum Outcome {
    /// A full pass published nothing.
    Converged,
    /// The configured number of passes ran and the last one still published.
    PassLimitReached,
    /// The rebase of this request met an unsupported replay operation.
    UnsupportedOperation(usize),
}

/// The next thing for the caller to do; request numbers index the graph's requests.
#[derive(Clone, Copy, Debug, PartialEq, Eq, Structural)]
pub enum Action {
    /// Replay the request's head branch onto its base branch.
    Rebase(usize),
    /// Abort the rebase in progress; `fatal` when the run stops afterwards.
    AbortRebase { request: usize, fatal: bool },
    /// Compare the head branch's local tip with its remote-tracking tip.
    CompareWithRemote(usize),
    /// Push the head branch, refusing to overwrite commits the remote gained.
    Publish(usize),
    /// Fetch the head branch's remote and hard-reset the local branch to it.
    ResetToRemote(usize),
    /// Nothing more to do.
    Stop(Outcome),
}

/// The mathematical state of an engine.
pub struct EngineState {
    pub reqs: Seq<ChangeRequest>,
    /// The repository's default branch, where every pass starts.
    pub root: Seq<char>,
    /// Requests still to visit in this pass; the last one is visited next.
    pub stack: Seq<usize>,
    /// Requests already scheduled in this pass.
    pub visited: Seq<bool>,
    pub pending: Action,
    /// Whether a publish was accepted in this pass.
    pub changed: bool,
    /// Passes started so far.
    pub passes: nat,
    pub max_passes: nat,
    /// Requests whose rebase succeeded in this pass, in order.
    pub rebased: Seq<usize>,
}

/// Schedules the unvisited ones of `kids` so that the first of them is visited next.
pub open spec fn push_unvisited(stack: Seq<usize>, visited: Seq<bool>, kids: Seq<usize>) -> (Seq<
    usize,
>, Seq<bool>)
    decreases kids.len(),
{
    if kids.len() == 0 {
        (stack, visited)
    } else {
        let k = kids.last() as int;
        if visited[k] {
            push_unvisited(stack, visited, kids.drop_last())
        } else {
            push_unvisited(stack.push(kids.last()), visited.update(k, true), kids.drop_last())
        }
    }
}

pub open spec fn action_in_range(a: Action, n: nat) -> bool {
    match a {
        Action::Rebase(r) => r < n,
        Action::AbortRebase { request, fatal } => request < n,
        Action::CompareWithRemote(r) => r < n,
        Action::Publish(r) => r < n,
        Action::ResetToRemote(r) => r < n,
        Action::Stop(o) => match o {
            Outcome::UnsupportedOperation(r) => r < n,
            _ => true,
        },
    }
}

pub open spec fn valid(s: EngineState) -> bool {
    &&& s.reqs.len() <= usize::MAX
    &&& s.visited.len() == s.reqs.len()
    &&& forall|j: int| 0 <= j < s.stack.len() ==> #[trigger] s.stack[j] < s.reqs.len()
    &&& forall|j: int| 0 <= j < s.rebased.len() ==> #[trigger] s.rebased[j] < s.reqs.len()
    &&& action_in_range(s.pending, s.reqs.len())
    &&& 1 <= s.passes <= s.max_passes <= usize::MAX
}

/// Takes the next scheduled request, or ends the pass.
pub open spec fn advance(s: EngineState) -> EngineState {
    if s.stack.len() > 0 {
        EngineState { stack: s.stack.drop_last(), pending: Action::Rebase(s.stack.last()), ..s }
    } else if !s.changed {
        EngineState { pending: Action::Stop(Outcome::Converged), ..s }
    } else if s.passes >= s.max_passes {
        EngineState { pending: Action::Stop(Outcome::PassLimitReached), ..s }
    } else {
        begin_pass(s)
    }
}

/// Starts a pass from the default branch with nothing visited.
pub open spec fn begin_pass(s: EngineState) -> EngineState {
    let (stack, visited) = push_unvisited(
        Seq::empty(),
        Seq::new(s.reqs.len(), |i: int| false),
        based_on(s.reqs, s.root),
    );
    let t = EngineState {
        stack,
        visited,
        changed: false,
        passes: s.passes + 1,
        rebased: Seq::empty(),
        ..s
    };
    if stack.len() == 0 {
        EngineState { pending: Action::Stop(Outcome::Converged), ..t }
    } else {
        EngineState { stack: stack.drop_last(), pending: Action::Rebase(stack.last()), ..t }
    }
}

/// Request `r` is settled: schedule the requests based on its head, then go on.
pub open spec fn complete(s: EngineState, r: usize) -> EngineState {
    let (stack, visited) = push_unvisited(s.stack, s.visited, based_on(s.reqs, s.reqs[r as int].head@));
    advance(EngineState { stack, visited, ..s })
}

/// The engine's reaction to an event; an event that does not answer the
/// pending action changes nothing.
pub open spec fn step(s: EngineState, e: Event) -> EngineState {
    match s.pending {
        Action::Rebase(r) => match e {
            Event::Rebased(RebaseOutcome::Succeeded) => EngineState {
                pending: Action::CompareWithRemote(r),
                rebased: s.rebased.push(r),
                ..s
            },
            Event::Rebased(RebaseOutcome::Conflicted) => EngineState {
                pending: Action::AbortRebase { request: r, fatal: false },
                ..s
            },
            Event::Rebased(RebaseOutcome::Unsupported) => EngineState {
                pending: Action::AbortRebase { request: r, fatal: true },
                ..s
            },
            _ => s,
        },
        Action::AbortRebase { request, fatal } => match e {
            Event::Acknowledged => if fatal {
                EngineState { pending: Action::Stop(Outcome::UnsupportedOperation(request)), ..s }
            } else {
                advance(s)
            },
            _ => s,
        },
        Action::CompareWithRemote(r) => match e {
            Event::Compared(true) => complete(s, r),
            Event::Compared(false) => EngineState { pending: Action::Publish(r), ..s },
            _ => s,
        },
        Action::Publish(r) => match e {
            Event::Published(true) => complete(EngineState { changed: true, ..s }, r),
            Event::Published(false) => EngineState { pending: Action::ResetToRemote(r), ..s },
            _ => s,
        },
        Action::ResetToRemote(r) => match e {
            Event::Acknowledged => complete(s, r),
            _ => s,
        },
        Action::Stop(_) => s,
    }
}

/// The state of a fresh engine.
pub open spec fn start(reqs: Seq<ChangeRequest>, root: Seq<char>, max_passes: nat) -> EngineState {
    begin_pass(
        EngineState {
            reqs,
            root,
            stack: Seq::empty(),
            visited: Seq::empty(),
            pending: Action::Stop(Outcome::Converged),
            changed: false,
            passes: 0,
            max_passes,
            rebased: Seq::empty(),
        },
    )
}

pub(crate) proof fn lemma_push_unvisited_in_range(
    stack: Seq<usize>,
    visited: Seq<bool>,
    kids: Seq<usize>,
    n: nat,
)
    requires
        visited.len() == n,
        forall|j: int| 0 <= j < stack.len() ==> #[trigger] stack[j] < n,
        forall|j: int| 0 <= j < kids.len() ==> #[trigger] kids[j] < n,
    ensures
        push_unvisited(stack, visited, kids).1.len() == n,
        forall|j: int|
            0 <= j < push_unvisited(stack, visited, kids).0.len() ==> #[trigger] push_unvisited(
                stack,
                visited,
                kids,
            ).0[j] < n,
    decreases kids.len(),
{
    if kids.len() > 0 {
        let k = kids.last();
        assert(k < n);
        let rest = kids.drop_last();
        assert forall|j: int| 0 <= j < rest.len() implies #[trigger] rest[j] < n by {
            assert(rest[j] == kids[j]);
        }
        if visited[k as int] {
            lemma_push_unvisited_in_range(stack, visited, rest, n);
        } else {
            let st = stack.push(k);
            assert forall|j: int| 0 <= j < st.len() implies #[trigger] st[j] < n by {
                if j < stack.len() {
                    assert(st[j] == stack[j]);
                }
            }
            lemma_push_unvisited_in_range(st, visited.update(k as int, true), rest, n);
        }
    }
}

pub(crate) proof fn lemma_dependents_in_range(reqs: Seq<ChangeRequest>, name: Seq<char>)
    requires
        reqs.len() <= usize::MAX,
    ensures
        forall|j: int|
            0 <= j < based_on(reqs, name).len() ==> #[trigger] based_on(reqs, name)[j] < reqs.len(),
{
    lemma_based_on_bounds(reqs, name);
}

pub(crate) proof fn lemma_begin_pass_valid(s: EngineState)
    requires
        s.reqs.len() <= usize::MAX,
        s.passes < s.max_passes <= usize::MAX,
    ensures
        valid(begin_pass(s)),
{
    let n = s.reqs.len();
    lemma_dependents_in_range(s.reqs, s.root);
    lemma_push_unvisited_in_range(Seq::empty(), Seq::new(n, |i: int| false), based_on(s.reqs, s.root), n);
    let t = begin_pass(s);
    let (stack, visited) = push_unvisited(
        Seq::empty(),
        Seq::new(n, |i: int| false),
        based_on(s.reqs, s.root),
    );
    if stack.len() > 0 {
        assert(stack[stack.len() - 1] < n);
        assert forall|j: int| 0 <= j < t.stack.len() implies #[trigger] t.stack[j] < n by {
            assert(t.stack[j] == stack[j]);
        }
    }
}

pub(crate) proof fn lemma_advance_valid(s: EngineState)
    requires
        valid(s),
    ensures
        valid(advance(s)),
{
    if s.stack.len() > 0 {
        let t = advance(s);
        assert(s.stack[s.stack.len() - 1] < s.reqs.len());
        assert forall|j: int| 0 <= j < t.stack.len() implies #[trigger] t.stack[j] < s.reqs.len() by {
            assert(t.stack[j] == s.stack[j]);
        }
    } else if s.changed && s.passes < s.max_passes {
        lemma_begin_pass_valid(s);
    }
}

pub(crate) proof fn lemma_complete_valid(s: EngineState, r: usize)
    requires
        valid(s),
        r < s.reqs.len(),
    ensures
        valid(complete(s, r)),
{
    let name = s.reqs[r as int].head@;
    lemma_dependents_in_range(s.reqs, name);
    lemma_push_unvisited_in_range(s.stack, s.visited, based_on(s.reqs, name), s.reqs.len());
    let (stack, visited) = push_unvisited(s.stack, s.visited, based_on(s.reqs, name));
    lemma_advance_valid(EngineState { stack, visited, ..s });
}

/// Every transition keeps the engine's indices in range.
pub(crate) proof fn lemma_step_valid(s: EngineState, e: Event)
    requires
        valid(s),
    ensures
        valid(step(s, e)),
{
    match s.pending {
        Action::Rebase(r) => {
            if e == Event::Rebased(RebaseOutcome::Succeeded) {
                let t = step(s, e);
                assert forall|j: int| 0 <= j < t.rebased.len() implies #[trigger] t.rebased[j]
                    < s.reqs.len() by {
                    if j < s.rebased.len() {
                        assert(t.rebased[j] == s.rebased[j]);
                    }
                }
            }
        },
        Action::AbortRebase { request, fatal } => {
            if e == Event::Acknowledged && !fatal {
                lemma_advance_valid(s);
            }
        },
        Action::CompareWithRemote(r) => {
            if e == Event::Compared(true) {
                lemma_complete_valid(s, r);
            }
        },
        Action::Publish(r) => {
            if e == Event::Published(true) {
                lemma_complete_valid(EngineState { changed: true, ..s }, r);
            }
        },
        Action::ResetToRemote(r) => {
            if e == Event::Acknowledged {
                lemma_complete_valid(s, r);
            }
        },
        Action::Stop(_) => {},
    }
}

/// The propagation and convergence engine. The caller performs each pending
/// action against the repository and reports the result with `resume`.
///
/// A pass walks the dependency graph depth first from the default branch:
/// each request is rebased onto its base; after a successful rebase its head is
/// compared with the remote-tracking ref and published if it moved; a rejected
/// publish resets the local branch to the remote tip. Requests based on a head
/// are visited only after that head settled, and never after its rebase failed.
/// Passes repeat until one publishes nothing, up to `max_passes`.
pub struct Engine {
    graph: DependencyGraph,
    root: String,
    stack: Vec<usize>,
    visited: Vec<bool>,
    pending: Action,
    changed: bool,
    passes: usize,
    max_passes: usize,
    rebased: Vec<usize>,
}

impl View for Engine {
    type V = EngineState;

    closed spec fn view(&self) -> EngineState {
        EngineState {
            reqs: self.graph.spec_requests(),
            root: self.root@,
            stack: self.stack@,
            visited: self.visited@,
            pending: self.pending,
            changed: self.changed,
            passes: self.passes as nat,
            max_passes: self.max_passes as nat,
            rebased: self.rebased@,
        }
    }
}

impl Engine {
    pub closed spec fn wf(&self) -> bool {
        self.graph.wf() && valid(self@)
    }

    /// Starts the first pass over `graph` from the default branch `root`.
    pub fn new(graph: DependencyGraph, root: String, max_passes: usize) -> (r: Engine)
        requires
            graph.wf(),
            max_passes >= 1,
        ensures
            r.wf(),
            r@ == start(graph.spec_requests(), root@, max_passes as nat),
    {
        let mut e = Engine {
            graph,
            root,
            stack: Vec::new(),
            visited: Vec::new(),
            pending: Action::Stop(Outcome::Converged),
            changed: false,
            passes: 0,
            max_passes,
            rebased: Vec::new(),
        };
        proof {
            e.graph.lemma_len_fits();
            lemma_begin_pass_valid(e@);
        }
        e.begin_pass();
        e
    }

    /// The action the engine waits on.
    pub fn pending(&self) -> (r: Action)
        ensures
            r == self@.pending,
    {
        self.pending
    }

    pub fn graph(&self) -> (r: &DependencyGraph)
        ensures
            r.spec_requests() == self@.reqs,
    {
        &self.graph
    }

    /// The requests whose rebase succeeded in the current pass, in order.
    pub fn rebased(&self) -> (r: &Vec<usize>)
        ensures
            r@ == self@.rebased,
    {
        &self.rebased
    }

    /// The number of passes started so far.
    pub fn passes(&self) -> (r: usize)
        ensures
            r == self@.passes,
    {
        self.passes
    }

    /// Whether a publish was accepted in the current pass.
    pub fn changed(&self) -> (r: bool)
        ensures
            r == self@.changed,
    {
        self.changed
    }

    /// Reports the result of the pending action and moves to the next one.
    pub fn resume(&mut self, event: Event)
        requires
            old(self).wf(),
        ensures
            final(self).wf(),
            final(self)@ == step(old(self)@, event),
    {
        proof {
            lemma_step_valid(self@, event);
        }
        match self.pending {
            Action::Rebase(r) => match event {
                Event::Rebased(RebaseOutcome::Succeeded) => {
                    self.pending = Action::CompareWithRemote(r);
                    self.rebased.push(r);
                },
                Event::Rebased(RebaseOutcome::Conflicted) => {
                    self.pending = Action::AbortRebase { request: r, fatal: false };
                },
                Event::Rebased(RebaseOutcome::Unsupported) => {
                    self.pending = Action::AbortRebase { request: r, fatal: true };
                },
                _ => {},
            },
            Action::AbortRebase { request, fatal } => match event {
                Event::Acknowledged => {
                    if fatal {
                        self.pending = Action::Stop(Outcome::UnsupportedOperation(request));
                    } else {
                        self.advance();
                    }
                },
                _ => {},
            },
            Action::CompareWithRemote(r) => match event {
                Event::Compared(true) => {
                    self.complete(r);
                },
                Event::Compared(false) => {
                    self.pending = Action::Publish(r);
                },
                _ => {},
            },
            Action::Publish(r) => match event {
                Event::Published(true) => {
                    self.changed = true;
                    self.complete(r);
                },
                Event::Published(false) => {
                    self.pending = Action::ResetToRemote(r);
                },
                _ => {},
            },
            Action::ResetToRemote(r) => match event {
                Event::Acknowledged => {
                    self.complete(r);
                },
                _ => {},
            },
            Action::Stop(_) => {},
        }
    }

    fn complete(&mut self, r: usize)
        requires
            old(self).graph.wf(),
            valid(old(self)@),
            r < old(self)@.reqs.len(),
        ensures
            final(self).graph.wf(),
            final(self)@ == complete(old(self)@, r),
    {
        let ghost s0 = self@;
        let head = self.graph.requests()[r].head.clone();
        self.push_dependents(&head);
        proof {
            lemma_dependents_in_range(s0.reqs, s0.reqs[r as int].head@);
            lemma_push_unvisited_in_range(
                s0.stack,
                s0.visited,
                based_on(s0.reqs, s0.reqs[r as int].head@),
                s0.reqs.len(),
            );
        }
        self.advance();
    }

    fn advance(&mut self)
        requires
            old(self).graph.wf(),
            old(self)@.reqs.len() <= usize::MAX,
            old(self)@.visited.len() == old(self)@.reqs.len(),
            forall|j: int| 0 <= j < old(self)@.stack.len() ==> #[trigger] old(self)@.stack[j] < old(self)@.reqs.len(),
            old(self)@.passes <= old(self)@.max_passes <= usize::MAX,
        ensures
            final(self).graph.wf(),
            final(self)@ == advance(old(self)@),
    {
        if self.stack.len() > 0 {
            let r = self.stack.pop().unwrap();
            self.pending = Action::Rebase(r);
        } else if !self.changed {
            self.pending = Action::Stop(Outcome::Converged);
        } else if self.passes >= self.max_passes {
            self.pending = Action::Stop(Outcome::PassLimitReached);
        } else {
            self.begin_pass();
        }
    }

    fn begin_pass(&mut self)
        requires
            old(self).graph.wf(),
            old(self).passes < old(self).max_passes,
        ensures
            final(self).graph.wf(),
            final(self)@ == begin_pass(old(self)@),
    {
        let ghost s0 = self@;
        let n = self.graph.len();
        let mut visited: Vec<bool> = Vec::new();
        while visited.len() < n
            invariant
                visited@.len() <= n,
                forall|j: int| 0 <= j < visited@.len() ==> visited@[j] == false,
            decreases n - visited@.len(),
        {
            visited.push(false);
        }
        assert(visited@ == Seq::new(n as nat, |i: int| false));
        self.visited = visited;
        self.stack = Vec::new();
        self.changed = false;
        self.passes = self.passes + 1;
        self.rebased = Vec::new();
        let root = self.root.clone();
        self.push_dependents(&root);
        if self.stack.len() == 0 {
            self.pending = Action::Stop(Outcome::Converged);
        } else {
            let r = self.stack.pop().unwrap();
            self.pending = Action::Rebase(r);
        }
    }

    /// Schedules the unvisited requests based on `name`.
    fn push_dependents(&mut self, name: &String)
        requires
            old(self).graph.wf(),
            old(self)@.visited.len() == old(self)@.reqs.len(),
        ensures
            final(self).graph == old(self).graph,
            final(self).root == old(self).root,
            final(self).pending == old(self).pending,
            final(self).changed == old(self).changed,
            final(self).passes == old(self).passes,
            final(self).max_passes == old(self).max_passes,
            final(self).rebased == old(self).rebased,
            (final(self)@.stack, final(self)@.visited) == push_unvisited(
                old(self)@.stack,
                old(self)@.visited,
                based_on(old(self)@.reqs, name@),
            ),
    {
        let kids = self.graph.dependents(name);
        let ghost s0 = self@;
        proof {
            self.graph.lemma_len_fits();
            lemma_dependents_in_range(s0.reqs, name@);
        }
        let mut i = kids.len();
        assert(kids@.subrange(0, i as int) == kids@);
        while i > 0
            invariant
                i <= kids@.len(),
                kids@ == based_on(s0.reqs, name@),
                forall|j: int| 0 <= j < kids@.len() ==> #[trigger] kids@[j] < s0.reqs.len(),
                self.graph == old(self).graph,
                self.root == old(self).root,
                self.pending == old(self).pending,
                self.changed == old(self).changed,
                self.passes == old(self).passes,
                self.max_passes == old(self).max_passes,
                self.rebased == old(self).rebased,
                self@.reqs == s0.reqs,
                self@.visited.len() == s0.reqs.len(),
                push_unvisited(self@.stack, self@.visited, kids@.subrange(0, i as int))
                    == push_unvisited(s0.stack, s0.visited, kids@),
            decreases i,
        {
            i = i - 1;
            let k = kids[i];
            let ghost sub = kids@.subrange(0, i + 1);
            assert(sub.drop_last() == kids@.subrange(0, i as int));
            assert(sub.last() == k);
            if !self.visited[k] {
                self.visited.set(k, true);
                self.stack.push(k);
            }
        }
        assert(kids@.subrange(0, 0) == Seq::<usize>::empty());
    }
}

} // verus!
