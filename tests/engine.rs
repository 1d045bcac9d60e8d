use std::collections::HashMap;

use safe_rebase::{build_pr_graph, Action, ChangeRequest, Engine, Event, Outcome, RebaseOutcome};

#[derive(Clone, Debug, PartialEq)]
struct Tips {
    local: Vec<u64>,
    tracking: Vec<u64>,
    remote: Vec<u64>,
}

/// An in-memory repository answering the engine's actions.
struct Repo {
    branches: HashMap<String, Tips>,
    conflicting: Vec<u64>,
    unsupported: Vec<u64>,
    /// Commits pushed to a branch's remote by someone else just before this
    /// repository first tries to publish that branch.
    concurrent_pushes: Vec<(String, u64)>,
    aborted: usize,
}

impl Repo {
    fn new(branches: &[(&str, &[u64])]) -> Repo {
        let mut map = HashMap::new();
        for (name, tip) in branches {
            map.insert(
                name.to_string(),
                Tips { local: tip.to_vec(), tracking: tip.to_vec(), remote: tip.to_vec() },
            );
        }
        Repo {
            branches: map,
            conflicting: Vec::new(),
            unsupported: Vec::new(),
            concurrent_pushes: Vec::new(),
            aborted: 0,
        }
    }

    fn tips(&self, b: &str) -> Tips {
        self.branches[b].clone()
    }

    fn answer(&mut self, engine: &Engine, action: Action) -> Event {
        let reqs = engine.graph().requests();
        match action {
            Action::Rebase(r) => {
                let head = reqs[r].head.clone();
                let onto = self.branches[&reqs[r].base].local.clone();
                let local = self.branches[&head].local.clone();
                let common = local.iter().zip(onto.iter()).take_while(|(a, b)| a == b).count();
                let replay: Vec<u64> =
                    local[common..].iter().copied().filter(|c| !onto.contains(c)).collect();
                if replay.iter().any(|c| self.unsupported.contains(c)) {
                    return Event::Rebased(RebaseOutcome::Unsupported);
                }
                if replay.iter().any(|c| self.conflicting.contains(c)) {
                    return Event::Rebased(RebaseOutcome::Conflicted);
                }
                let mut new_tip = onto;
                new_tip.extend(replay);
                self.branches.get_mut(&head).unwrap().local = new_tip;
                Event::Rebased(RebaseOutcome::Succeeded)
            }
            Action::AbortRebase { .. } => {
                self.aborted += 1;
                Event::Acknowledged
            }
            Action::CompareWithRemote(r) => {
                let t = &self.branches[&reqs[r].head];
                Event::Compared(t.local == t.tracking)
            }
            Action::Publish(r) => {
                let head = reqs[r].head.clone();
                if let Some(pos) = self.concurrent_pushes.iter().position(|(b, _)| *b == head) {
                    let (_, c) = self.concurrent_pushes.remove(pos);
                    self.branches.get_mut(&head).unwrap().remote.push(c);
                }
                let t = self.branches.get_mut(&head).unwrap();
                if t.remote == t.tracking {
                    t.tracking = t.local.clone();
                    t.remote = t.local.clone();
                    Event::Published(true)
                } else {
                    t.tracking = t.remote.clone();
                    Event::Published(false)
                }
            }
            Action::ResetToRemote(r) => {
                let t = self.branches.get_mut(&reqs[r].head).unwrap();
                t.local = t.tracking.clone();
                Event::Acknowledged
            }
            Action::Stop(_) => Event::Acknowledged,
        }
    }
}

fn request(title: &str, head: &str, base: &str) -> ChangeRequest {
    ChangeRequest::new(title.to_string(), head.to_string(), base.to_string(), "me".to_string())
}

/// Runs the engine to its end; returns every action with the pass it came in.
fn drive(engine: &mut Engine, repo: &mut Repo) -> (Vec<(usize, Action)>, Outcome) {
    let mut log = Vec::new();
    for _ in 0..1000 {
        let action = engine.pending();
        if let Action::Stop(o) = action {
            return (log, o);
        }
        log.push((engine.passes(), action));
        let event = repo.answer(engine, action);
        engine.resume(event);
    }
    panic!("the engine did not stop");
}

fn stack_ab() -> Vec<ChangeRequest> {
    vec![request("A", "feat/a", "main"), request("B", "feat/b", "feat/a")]
}

#[test]
fn stack_is_rebased_in_order_and_published_then_converges() {
    // main was fast-forwarded from [1] to [1, 2, 3] before the run.
    let mut repo = Repo::new(&[("main", &[1, 2, 3]), ("feat/a", &[1, 10]), ("feat/b", &[1, 10, 20])]);
    let mut engine = Engine::new(build_pr_graph(stack_ab()), "main".to_string(), 10);
    let (log, outcome) = drive(&mut engine, &mut repo);
    assert_eq!(outcome, Outcome::Converged);
    let first_pass: Vec<Action> = log.iter().filter(|(p, _)| *p == 1).map(|(_, a)| *a).collect();
    assert_eq!(
        first_pass,
        vec![
            Action::Rebase(0),
            Action::CompareWithRemote(0),
            Action::Publish(0),
            Action::Rebase(1),
            Action::CompareWithRemote(1),
            Action::Publish(1),
        ]
    );
    let second_pass: Vec<Action> = log.iter().filter(|(p, _)| *p == 2).map(|(_, a)| *a).collect();
    assert_eq!(
        second_pass,
        vec![
            Action::Rebase(0),
            Action::CompareWithRemote(0),
            Action::Rebase(1),
            Action::CompareWithRemote(1),
        ]
    );
    assert_eq!(engine.passes(), 2);
    assert!(!engine.changed());
    assert_eq!(repo.tips("feat/a").local, vec![1, 2, 3, 10]);
    assert_eq!(repo.tips("feat/b").local, vec![1, 2, 3, 10, 20]);
    assert_eq!(repo.tips("feat/a").remote, vec![1, 2, 3, 10]);
    assert_eq!(repo.tips("feat/b").remote, vec![1, 2, 3, 10, 20]);
}

#[test]
fn rejected_publish_resets_to_concurrent_tip_and_dependents_follow_it() {
    let mut repo = Repo::new(&[("main", &[1, 2, 3]), ("feat/a", &[1, 10]), ("feat/b", &[1, 10, 20])]);
    repo.concurrent_pushes.push(("feat/a".to_string(), 11));
    let mut engine = Engine::new(build_pr_graph(stack_ab()), "main".to_string(), 10);
    let mut seen_reset = false;
    loop {
        let action = engine.pending();
        if let Action::Stop(o) = action {
            assert_eq!(o, Outcome::Converged);
            break;
        }
        let event = repo.answer(&engine, action);
        if action == Action::Publish(0) && !seen_reset {
            assert_eq!(event, Event::Published(false));
            // the remote keeps the concurrent commit
            assert_eq!(repo.tips("feat/a").remote, vec![1, 10, 11]);
        }
        engine.resume(event);
        if action == Action::ResetToRemote(0) {
            seen_reset = true;
            assert_eq!(repo.tips("feat/a").local, vec![1, 10, 11]);
        }
        if action == Action::Rebase(1) && engine.passes() == 1 {
            // rebased onto the reset tip, not onto the discarded rebase [1, 2, 3, 10]
            assert_eq!(repo.tips("feat/b").local, vec![1, 10, 11, 20]);
        }
    }
    assert!(seen_reset);
    assert_eq!(repo.tips("feat/a").local, vec![1, 2, 3, 10, 11]);
    assert_eq!(repo.tips("feat/b").local, vec![1, 2, 3, 10, 11, 20]);
    for b in ["feat/a", "feat/b"] {
        let t = repo.tips(b);
        assert_eq!(t.local, t.remote);
        assert_eq!(t.local, t.tracking);
    }
}

#[test]
fn second_run_after_convergence_changes_nothing() {
    let mut repo = Repo::new(&[("main", &[1, 2, 3]), ("feat/a", &[1, 10]), ("feat/b", &[1, 10, 20])]);
    let mut engine = Engine::new(build_pr_graph(stack_ab()), "main".to_string(), 10);
    let (_, outcome) = drive(&mut engine, &mut repo);
    assert_eq!(outcome, Outcome::Converged);
    let before = repo.branches.clone();
    let mut again = Engine::new(build_pr_graph(stack_ab()), "main".to_string(), 10);
    let (log, outcome) = drive(&mut again, &mut repo);
    assert_eq!(outcome, Outcome::Converged);
    assert_eq!(again.passes(), 1);
    assert!(!log.iter().any(|(_, a)| matches!(a, Action::Publish(_) | Action::ResetToRemote(_))));
    assert_eq!(repo.branches, before);
}

#[test]
fn chain_ends_with_every_branch_equal_to_its_tracking_ref() {
    let mut repo = Repo::new(&[
        ("main", &[1, 2]),
        ("b1", &[1, 10]),
        ("b2", &[1, 10, 20]),
        ("b3", &[1, 10, 20, 30]),
    ]);
    let reqs = vec![request("3", "b3", "b2"), request("1", "b1", "main"), request("2", "b2", "b1")];
    let mut engine = Engine::new(build_pr_graph(reqs), "main".to_string(), 10);
    let (_, outcome) = drive(&mut engine, &mut repo);
    assert_eq!(outcome, Outcome::Converged);
    assert_eq!(repo.tips("b3").local, vec![1, 2, 10, 20, 30]);
    for b in ["b1", "b2", "b3"] {
        let t = repo.tips(b);
        assert_eq!(t.local, t.tracking);
    }
}

#[test]
fn conflict_aborts_and_skips_the_subtree() {
    let mut repo = Repo::new(&[
        ("main", &[1, 2]),
        ("feat/a", &[1, 10]),
        ("feat/b", &[1, 10, 20]),
        ("feat/c", &[1, 30]),
    ]);
    repo.conflicting.push(10);
    let reqs = vec![
        request("A", "feat/a", "main"),
        request("B", "feat/b", "feat/a"),
        request("C", "feat/c", "main"),
    ];
    let mut engine = Engine::new(build_pr_graph(reqs), "main".to_string(), 10);
    let (log, outcome) = drive(&mut engine, &mut repo);
    assert_eq!(outcome, Outcome::Converged);
    let first_pass: Vec<Action> = log.iter().filter(|(p, _)| *p == 1).map(|(_, a)| *a).collect();
    assert_eq!(
        first_pass,
        vec![
            Action::Rebase(0),
            Action::AbortRebase { request: 0, fatal: false },
            Action::Rebase(2),
            Action::CompareWithRemote(2),
            Action::Publish(2),
        ]
    );
    assert!(!log.iter().any(|(_, a)| *a == Action::Rebase(1)));
    assert_eq!(repo.tips("feat/a").local, vec![1, 10]);
    assert_eq!(repo.tips("feat/b").local, vec![1, 10, 20]);
    assert_eq!(repo.tips("feat/c").local, vec![1, 2, 30]);
}

#[test]
fn unsupported_operation_stops_the_run_after_aborting() {
    let mut repo = Repo::new(&[("main", &[1, 2]), ("feat/a", &[1, 10]), ("feat/b", &[1, 10, 20])]);
    repo.unsupported.push(10);
    let mut engine = Engine::new(build_pr_graph(stack_ab()), "main".to_string(), 10);
    let (log, outcome) = drive(&mut engine, &mut repo);
    assert_eq!(outcome, Outcome::UnsupportedOperation(0));
    assert_eq!(
        log.iter().map(|(_, a)| *a).collect::<Vec<_>>(),
        vec![Action::Rebase(0), Action::AbortRebase { request: 0, fatal: true }]
    );
    assert_eq!(repo.aborted, 1);
}

#[test]
fn pass_limit_stops_a_run_that_keeps_publishing() {
    let mut engine = Engine::new(build_pr_graph(stack_ab()), "main".to_string(), 1);
    engine.resume(Event::Rebased(RebaseOutcome::Succeeded));
    engine.resume(Event::Compared(false));
    engine.resume(Event::Published(true));
    assert_eq!(engine.pending(), Action::Rebase(1));
    engine.resume(Event::Rebased(RebaseOutcome::Succeeded));
    engine.resume(Event::Compared(true));
    assert_eq!(engine.pending(), Action::Stop(Outcome::PassLimitReached));
}

#[test]
fn event_that_does_not_answer_the_pending_action_is_ignored() {
    let mut engine = Engine::new(build_pr_graph(stack_ab()), "main".to_string(), 3);
    assert_eq!(engine.pending(), Action::Rebase(0));
    engine.resume(Event::Published(true));
    engine.resume(Event::Acknowledged);
    engine.resume(Event::Compared(true));
    assert_eq!(engine.pending(), Action::Rebase(0));
    assert_eq!(engine.passes(), 1);
}

#[test]
fn nothing_based_on_default_branch_converges_at_once() {
    let reqs = vec![request("X", "feat/x", "develop")];
    let engine = Engine::new(build_pr_graph(reqs), "main".to_string(), 3);
    assert_eq!(engine.pending(), Action::Stop(Outcome::Converged));
    let empty = Engine::new(build_pr_graph(Vec::new()), "main".to_string(), 3);
    assert_eq!(empty.pending(), Action::Stop(Outcome::Converged));
}

#[test]
fn depth_first_with_siblings_in_listing_order() {
    let reqs = vec![
        request("A", "a", "main"),
        request("B", "b", "main"),
        request("A1", "a1", "a"),
        request("A2", "a2", "a"),
    ];
    let mut engine = Engine::new(build_pr_graph(reqs), "main".to_string(), 1);
    let mut order = Vec::new();
    while let Action::Rebase(r) = engine.pending() {
        order.push(r);
        engine.resume(Event::Rebased(RebaseOutcome::Succeeded));
        engine.resume(Event::Compared(true));
    }
    assert_eq!(order, vec![0, 2, 3, 1]);
    assert_eq!(engine.rebased(), &vec![0, 2, 3, 1]);
    assert_eq!(engine.pending(), Action::Stop(Outcome::Converged));
}

#[test]
fn cycle_visits_each_request_once_per_pass() {
    let reqs = vec![request("A", "a", "main"), request("B", "b", "a"), request("C", "a", "b")];
    let mut engine = Engine::new(build_pr_graph(reqs), "main".to_string(), 1);
    let mut order = Vec::new();
    while let Action::Rebase(r) = engine.pending() {
        order.push(r);
        engine.resume(Event::Rebased(RebaseOutcome::Succeeded));
        engine.resume(Event::Compared(true));
    }
    assert_eq!(order, vec![0, 1, 2]);
}
