use crate::engine::{
    advance, begin_pass, complete, start, step, valid, Action, EngineState, Event, Outcome,
    RebaseOutcome,
};
use crate::request::ChangeRequest;
use vstd::prelude::*;

verus! {

/// The tips of one branch, each as the sequence of commits from the root
/// commit: the local branch, its remote-tracking ref as last fetched, and the
/// branch on the remote itself.
pub struct BranchTips {
    pub local: Seq<u64>,
    pub tracking: Seq<u64>,
    pub remote: Seq<u64>,
}

/// A repository as the engine's actions see it. Replaying a commit in
/// `conflicting` fails; one in `unsupported` needs an operation other than a
/// plain pick. `held` keeps, for each branch, every tip the remote has held.
pub struct Repo {
    pub branches: Map<Seq<char>, BranchTips>,
    pub conflicting: Set<u64>,
    pub unsupported: Set<u64>,
    pub held: Map<Seq<char>, Set<Seq<u64>>>,
}

/// The length of the longest common prefix of two histories: their merge base.
pub open spec fn common_len(a: Seq<u64>, b: Seq<u64>) -> nat
    decreases a.len(),
{
    if a.len() == 0 || b.len() == 0 || a[0] != b[0] {
        0
    } else {
        1 + common_len(a.drop_first(), b.drop_first())
    }
}

/// Commits of `local` that `tracking` lacks.
pub open spec fn ahead(local: Seq<u64>, tracking: Seq<u64>) -> nat {
    (local.len() - common_len(local, tracking)) as nat
}

/// Commits of `tracking` that `local` lacks.
pub open spec fn behind(local: Seq<u64>, tracking: Seq<u64>) -> nat {
    (tracking.len() - common_len(local, tracking)) as nat
}

/// The commits of `head` to replay onto `onto`: those after the merge base,
/// but for any `onto` already holds.
pub open spec fn replayed(head: Seq<u64>, onto: Seq<u64>) -> Seq<u64> {
    head.subrange(common_len(head, onto) as int, head.len() as int).filter(|c: u64| !onto.contains(c))
}

pub open spec fn with_tips(w: Repo, b: Seq<char>, t: BranchTips) -> Repo {
    Repo { branches: w.branches.insert(b, t), ..w }
}

pub open spec fn head_of(reqs: Seq<ChangeRequest>, r: usize) -> Seq<char> {
    reqs[r as int].head@
}

/// What the repository does with an action, and what it reports back.
/// Publishing is refused when the remote moved since the last fetch; the
/// refusal fetches. Resetting moves the local branch to the tracking tip.
pub open spec fn respond(w: Repo, reqs: Seq<ChangeRequest>, a: Action) -> (Repo, Event) {
    match a {
        Action::Rebase(r) => {
            let h = head_of(reqs, r);
            let onto = w.branches[reqs[r as int].base@].local;
            let replay = replayed(w.branches[h].local, onto);
            if exists|j: int| 0 <= j < replay.len() && w.unsupported.contains(#[trigger] replay[j]) {
                (w, Event::Rebased(RebaseOutcome::Unsupported))
            } else if exists|j: int|
                0 <= j < replay.len() && w.conflicting.contains(#[trigger] replay[j]) {
                (w, Event::Rebased(RebaseOutcome::Conflicted))
            } else {
                (
                    with_tips(w, h, BranchTips { local: onto + replay, ..w.branches[h] }),
                    Event::Rebased(RebaseOutcome::Succeeded),
                )
            }
        },
        Action::CompareWithRemote(r) => {
            let t = w.branches[head_of(reqs, r)];
            (w, Event::Compared(t.local == t.tracking))
        },
        Action::Publish(r) => {
            let h = head_of(reqs, r);
            let t = w.branches[h];
            if t.remote == t.tracking {
                (
                    Repo {
                        held: w.held.insert(h, w.held[h].insert(t.local)),
                        ..with_tips(w, h, BranchTips { local: t.local, tracking: t.local, remote: t.local })
                    },
                    Event::Published(true),
                )
            } else {
                (with_tips(w, h, BranchTips { tracking: t.remote, ..t }), Event::Published(false))
            }
        },
        Action::ResetToRemote(r) => {
            let h = head_of(reqs, r);
            let t = w.branches[h];
            (with_tips(w, h, BranchTips { local: t.tracking, ..t }), Event::Acknowledged)
        },
        _ => (w, Event::Acknowledged),
    }
}

/// One action performed and answered.
pub open spec fn sim(s: EngineState, w: Repo) -> (EngineState, Repo) {
    let (w2, e) = respond(w, s.reqs, s.pending);
    (step(s, e), w2)
}

/// `n` actions performed and answered.
pub open spec fn run(s: EngineState, w: Repo, n: nat) -> (EngineState, Repo)
    decreases n,
{
    if n == 0 {
        (s, w)
    } else {
        let (s1, w1) = run(s, w, (n - 1) as nat);
        sim(s1, w1)
    }
}

/// The branch whose local tip may differ from its tracking tip while its
/// request is being settled.
pub open spec fn in_flight(s: EngineState) -> Option<Seq<char>> {
    match s.pending {
        Action::CompareWithRemote(r) => Some(head_of(s.reqs, r)),
        Action::Publish(r) => Some(head_of(s.reqs, r)),
        Action::ResetToRemote(r) => Some(head_of(s.reqs, r)),
        _ => None,
    }
}

/// Every head branch but the one in flight equals its tracking ref.
pub open spec fn heads_synced(s: EngineState, w: Repo) -> bool {
    forall|i: int|
        #![trigger s.reqs[i]]
        0 <= i < s.reqs.len() && in_flight(s) != Some(s.reqs[i].head@) ==> w.branches[s.reqs[i].head@].local
            == w.branches[s.reqs[i].head@].tracking
}

/// Nobody else moves the remote: every tracking ref is current.
pub open spec fn no_interference(w: Repo) -> bool {
    forall|b: Seq<char>| #[trigger] w.branches.contains_key(b) ==> w.branches[b].tracking == w.branches[b].remote
}

pub open spec fn heads_known(reqs: Seq<ChangeRequest>, w: Repo) -> bool {
    forall|i: int| #![trigger reqs[i]] 0 <= i < reqs.len() ==> w.branches.contains_key(reqs[i].head@)
}

proof fn lemma_common_len(a: Seq<u64>, b: Seq<u64>)
    ensures
        common_len(a, b) <= a.len(),
        common_len(a, b) <= b.len(),
        a.subrange(0, common_len(a, b) as int) == b.subrange(0, common_len(a, b) as int),
        common_len(a, b) < a.len() && common_len(a, b) < b.len() ==> a[common_len(a, b) as int]
            != b[common_len(a, b) as int],
    decreases a.len(),
{
    if !(a.len() == 0 || b.len() == 0 || a[0] != b[0]) {
        lemma_common_len(a.drop_first(), b.drop_first());
        let c = common_len(a, b) as int;
        assert(a.subrange(0, c) =~= seq![a[0]] + a.drop_first().subrange(0, c - 1));
        assert(b.subrange(0, c) =~= seq![b[0]] + b.drop_first().subrange(0, c - 1));
    } else {
        assert(a.subrange(0, 0) =~= b.subrange(0, 0));
    }
}

/// A branch is zero commits ahead of and zero behind its tracking ref exactly
/// when the two tips are the same commit.
pub proof fn lemma_safe_iff_identical(local: Seq<u64>, tracking: Seq<u64>)
    ensures
        (ahead(local, tracking) == 0 && behind(local, tracking) == 0) <==> local == tracking,
{
    lemma_common_len(local, tracking);
    let c = common_len(local, tracking) as int;
    if ahead(local, tracking) == 0 && behind(local, tracking) == 0 {
        assert(local =~= local.subrange(0, c));
        assert(tracking =~= tracking.subrange(0, c));
    }
    if local == tracking && c < local.len() {
        assert(local[c] == tracking[c]);
    }
}

/// What every transition keeps: the requests, the default branch and the pass limit.
pub open spec fn same_setup(a: EngineState, b: EngineState) -> bool {
    a.reqs == b.reqs && a.root == b.root && a.max_passes == b.max_passes
}

/// Between requests nothing is in flight.
pub open spec fn settled(a: Action) -> bool {
    a is Rebase || a is Stop
}

proof fn lemma_begin_pass_settles(s: EngineState)
    ensures
        settled(begin_pass(s).pending),
        same_setup(begin_pass(s), s),
        begin_pass(s).passes == s.passes + 1,
        !begin_pass(s).changed,
{
}

proof fn lemma_advance_settles(s: EngineState)
    ensures
        settled(advance(s).pending),
        same_setup(advance(s), s),
        advance(s).passes >= s.passes,
{
    lemma_begin_pass_settles(s);
}

proof fn lemma_complete_settles(s: EngineState, r: usize)
    ensures
        settled(complete(s, r).pending),
        same_setup(complete(s, r), s),
        complete(s, r).passes >= s.passes,
{
    let name = s.reqs[r as int].head@;
    let (stack, visited) = crate::engine::push_unvisited(s.stack, s.visited, crate::graph::based_on(s.reqs, name));
    lemma_advance_settles(EngineState { stack, visited, ..s });
}

/// Every transition keeps the setup, and the pass count never goes down.
proof fn lemma_step_setup(s: EngineState, e: Event)
    ensures
        same_setup(step(s, e), s),
        step(s, e).passes >= s.passes,
        settled(s.pending) && !settled(step(s, e).pending) ==> s.pending is Rebase,
{
    match s.pending {
        Action::AbortRebase { request, fatal } => {
            lemma_advance_settles(s);
        },
        Action::CompareWithRemote(r) => {
            lemma_complete_settles(s, r);
        },
        Action::Publish(r) => {
            lemma_complete_settles(EngineState { changed: true, ..s }, r);
        },
        Action::ResetToRemote(r) => {
            lemma_complete_settles(s, r);
        },
        _ => {},
    }
}

proof fn lemma_sim_keeps_heads_synced(s: EngineState, w: Repo)
    requires
        valid(s),
        heads_synced(s, w),
    ensures
        heads_synced(sim(s, w).0, sim(s, w).1),
        same_setup(sim(s, w).0, s),
{
    let (w2, e) = respond(w, s.reqs, s.pending);
    let s2 = step(s, e);
    lemma_step_setup(s, e);
    match s.pending {
        Action::Rebase(r) => {
            let h = head_of(s.reqs, r);
            assert forall|i: int|
                #![trigger s2.reqs[i]]
                0 <= i < s2.reqs.len() && in_flight(s2) != Some(s2.reqs[i].head@) implies w2.branches[s2.reqs[i].head@].local
                == w2.branches[s2.reqs[i].head@].tracking by {
                assert(in_flight(s) != Some(s.reqs[i].head@));
                if s2.pending is CompareWithRemote {
                    assert(s2.reqs[i].head@ != h);
                }
            }
        },
        Action::AbortRebase { request, fatal } => {
            lemma_advance_settles(s);
            assert forall|i: int|
                #![trigger s2.reqs[i]]
                0 <= i < s2.reqs.len() && in_flight(s2) != Some(s2.reqs[i].head@) implies w2.branches[s2.reqs[i].head@].local
                == w2.branches[s2.reqs[i].head@].tracking by {
                assert(in_flight(s) != Some(s.reqs[i].head@));
            }
        },
        Action::CompareWithRemote(r) => {
            let h = head_of(s.reqs, r);
            lemma_complete_settles(s, r);
            assert forall|i: int|
                #![trigger s2.reqs[i]]
                0 <= i < s2.reqs.len() && in_flight(s2) != Some(s2.reqs[i].head@) implies w2.branches[s2.reqs[i].head@].local
                == w2.branches[s2.reqs[i].head@].tracking by {
                if s.reqs[i].head@ != h {
                    assert(in_flight(s) != Some(s.reqs[i].head@));
                }
            }
        },
        Action::Publish(r) => {
            let h = head_of(s.reqs, r);
            lemma_complete_settles(EngineState { changed: true, ..s }, r);
            assert forall|i: int|
                #![trigger s2.reqs[i]]
                0 <= i < s2.reqs.len() && in_flight(s2) != Some(s2.reqs[i].head@) implies w2.branches[s2.reqs[i].head@].local
                == w2.branches[s2.reqs[i].head@].tracking by {
                if s.reqs[i].head@ != h {
                    assert(in_flight(s) != Some(s.reqs[i].head@));
                }
            }
        },
        Action::ResetToRemote(r) => {
            let h = head_of(s.reqs, r);
            lemma_complete_settles(s, r);
            assert forall|i: int|
                #![trigger s2.reqs[i]]
                0 <= i < s2.reqs.len() && in_flight(s2) != Some(s2.reqs[i].head@) implies w2.branches[s2.reqs[i].head@].local
                == w2.branches[s2.reqs[i].head@].tracking by {
                if s.reqs[i].head@ != h {
                    assert(in_flight(s) != Some(s.reqs[i].head@));
                }
            }
        },
        Action::Stop(_) => {},
    }
}

proof fn lemma_run_valid(s: EngineState, w: Repo, n: nat)
    requires
        valid(s),
    ensures
        valid(run(s, w, n).0),
        same_setup(run(s, w, n).0, s),
        run(s, w, n).0.passes >= s.passes,
    decreases n,
{
    if n > 0 {
        lemma_run_valid(s, w, (n - 1) as nat);
        let (s1, w1) = run(s, w, (n - 1) as nat);
        let (w2, e) = respond(w1, s1.reqs, s1.pending);
        crate::engine::lemma_step_valid(s1, e);
        lemma_step_setup(s1, e);
    }
}

/// Someone else pushes `tip` to branch `b` of the remote, if the branch exists.
pub open spec fn push_remote(w: Repo, b: Seq<char>, tip: Seq<u64>) -> Repo {
    if w.branches.contains_key(b) {
        Repo {
            branches: w.branches.insert(b, BranchTips { remote: tip, ..w.branches[b] }),
            held: w.held.insert(b, w.held[b].insert(tip)),
            ..w
        }
    } else {
        w
    }
}

/// `n` actions performed and answered, where before action `i` someone else
/// may push to the remote as `pushes[i]` says.
pub open spec fn run_with(
    s: EngineState,
    w: Repo,
    pushes: Seq<Option<(Seq<char>, Seq<u64>)>>,
    n: nat,
) -> (EngineState, Repo)
    decreases n,
{
    if n == 0 {
        (s, w)
    } else {
        let (s1, w1) = run_with(s, w, pushes, (n - 1) as nat);
        let w2 = if n - 1 < pushes.len() {
            match pushes[n - 1] {
                Some(p) => push_remote(w1, p.0, p.1),
                None => w1,
            }
        } else {
            w1
        };
        sim(s1, w2)
    }
}

/// Every tracking tip and remote tip is one the remote has held.
pub open spec fn tips_held(w: Repo) -> bool {
    forall|b: Seq<char>|
        #[trigger] w.branches.contains_key(b) ==> w.held.contains_key(b) && w.held[b].contains(
            w.branches[b].tracking,
        ) && w.held[b].contains(w.branches[b].remote)
}

proof fn lemma_push_keeps_invariants(s: EngineState, w: Repo, b: Seq<char>, tip: Seq<u64>)
    requires
        heads_synced(s, w),
        tips_held(w),
        heads_known(s.reqs, w),
    ensures
        heads_synced(s, push_remote(w, b, tip)),
        tips_held(push_remote(w, b, tip)),
        heads_known(s.reqs, push_remote(w, b, tip)),
{
    let w2 = push_remote(w, b, tip);
    assert forall|c: Seq<char>| #[trigger] w2.branches.contains_key(c) implies w2.held.contains_key(c)
        && w2.held[c].contains(w2.branches[c].tracking) && w2.held[c].contains(w2.branches[c].remote) by {
        if c != b {
            assert(w.branches.contains_key(c));
        } else if w.branches.contains_key(c) {
        }
    }
    assert forall|i: int|
        #![trigger s.reqs[i]]
        0 <= i < s.reqs.len() && in_flight(s) != Some(s.reqs[i].head@) implies w2.branches[s.reqs[i].head@].local
        == w2.branches[s.reqs[i].head@].tracking by {
        if s.reqs[i].head@ == b {
            assert(w2.branches[b].local == w.branches[b].local);
        }
    }
}

proof fn lemma_sim_keeps_tips_held(s: EngineState, w: Repo)
    requires
        valid(s),
        tips_held(w),
        heads_known(s.reqs, w),
    ensures
        tips_held(sim(s, w).1),
        heads_known(s.reqs, sim(s, w).1),
{
    let w2 = sim(s, w).1;
    match s.pending {
        Action::Rebase(r) => {
            assert(w.branches.contains_key(head_of(s.reqs, r)));
        },
        Action::ResetToRemote(r) => {
            assert(w.branches.contains_key(head_of(s.reqs, r)));
        },
        _ => {},
    }
    match s.pending {
        Action::Publish(r) => {
            let h = head_of(s.reqs, r);
            assert(w.branches.contains_key(head_of(s.reqs, r)));
            assert forall|c: Seq<char>| #[trigger] w2.branches.contains_key(c) implies w2.held.contains_key(c)
                && w2.held[c].contains(w2.branches[c].tracking) && w2.held[c].contains(w2.branches[c].remote) by {
                if c != h {
                    assert(w.branches.contains_key(c));
                } else if w.branches.contains_key(c) {
                }
            }
        },
        _ => {
            assert forall|c: Seq<char>| #[trigger] w2.branches.contains_key(c) implies w2.held.contains_key(c)
                && w2.held[c].contains(w2.branches[c].tracking) && w2.held[c].contains(w2.branches[c].remote) by {
                if w.branches.contains_key(c) {
                }
            }
        },
    }
}

/// Whatever others push to the remote meanwhile and whichever rebases fail,
/// every head branch equals its remote-tracking ref again as soon as its
/// request is settled, and every tracking tip is one the remote held. So when
/// the run stops, each head branch points at a tip its remote held: never at
/// one the remote never contained.
pub proof fn lemma_run_keeps_heads_synced(
    reqs: Seq<ChangeRequest>,
    root: Seq<char>,
    max_passes: nat,
    w: Repo,
    pushes: Seq<Option<(Seq<char>, Seq<u64>)>>,
    n: nat,
)
    requires
        reqs.len() <= usize::MAX,
        1 <= max_passes <= usize::MAX,
        all_heads_synced(reqs, w),
        tips_held(w),
        heads_known(reqs, w),
    ensures
        heads_synced(
            run_with(start(reqs, root, max_passes), w, pushes, n).0,
            run_with(start(reqs, root, max_passes), w, pushes, n).1,
        ),
        tips_held(run_with(start(reqs, root, max_passes), w, pushes, n).1),
        heads_known(reqs, run_with(start(reqs, root, max_passes), w, pushes, n).1),
        run_with(start(reqs, root, max_passes), w, pushes, n).0.pending is Stop ==> forall|i: int|
            #![trigger reqs[i]]
            0 <= i < reqs.len() ==> {
                let t = run_with(start(reqs, root, max_passes), w, pushes, n).1.branches[reqs[i].head@];
                &&& t.local == t.tracking
                &&& run_with(start(reqs, root, max_passes), w, pushes, n).1.held[reqs[i].head@].contains(
                    t.local,
                )
            },
    decreases n,
{
    let s0 = start(reqs, root, max_passes);
    let init = initial(reqs, root, max_passes);
    crate::engine::lemma_begin_pass_valid(init);
    lemma_begin_pass_settles(init);
    if n > 0 {
        lemma_run_keeps_heads_synced(reqs, root, max_passes, w, pushes, (n - 1) as nat);
        let (s1, w1) = run_with(s0, w, pushes, (n - 1) as nat);
        lemma_run_with_valid(s0, w, pushes, (n - 1) as nat);
        let w2 = if n - 1 < pushes.len() {
            match pushes[n - 1] {
                Some(p) => push_remote(w1, p.0, p.1),
                None => w1,
            }
        } else {
            w1
        };
        if n - 1 < pushes.len() {
            match pushes[n - 1] {
                Some(p) => lemma_push_keeps_invariants(s1, w1, p.0, p.1),
                None => {},
            }
        }
        lemma_sim_keeps_heads_synced(s1, w2);
        lemma_sim_keeps_tips_held(s1, w2);
    }
    let (sn, wn) = run_with(s0, w, pushes, n);
    lemma_run_with_valid(s0, w, pushes, n);
    if sn.pending is Stop {
        assert forall|i: int| #![trigger reqs[i]] 0 <= i < reqs.len() implies {
            let t = wn.branches[reqs[i].head@];
            &&& t.local == t.tracking
            &&& wn.held[reqs[i].head@].contains(t.local)
        } by {
            assert(sn.reqs[i] == reqs[i]);
            assert(wn.branches.contains_key(reqs[i].head@));
        }
    }
}

proof fn lemma_run_with_valid(
    s: EngineState,
    w: Repo,
    pushes: Seq<Option<(Seq<char>, Seq<u64>)>>,
    n: nat,
)
    requires
        valid(s),
    ensures
        valid(run_with(s, w, pushes, n).0),
        same_setup(run_with(s, w, pushes, n).0, s),
    decreases n,
{
    if n > 0 {
        lemma_run_with_valid(s, w, pushes, (n - 1) as nat);
        let (s1, w1) = run_with(s, w, pushes, (n - 1) as nat);
        let w1p = if n - 1 < pushes.len() {
            match pushes[n - 1] {
                Some(p) => push_remote(w1, p.0, p.1),
                None => w1,
            }
        } else {
            w1
        };
        let (w3, e3) = respond(w1p, s1.reqs, s1.pending);
        crate::engine::lemma_step_valid(s1, e3);
        lemma_step_setup(s1, e3);
    }
}

/// No action ever forces a remote branch: a remote tip changes only when it
/// still was the tip last fetched, and then to the local tip.
pub proof fn lemma_remote_moves_only_from_fetched_tip(s: EngineState, w: Repo, b: Seq<char>)
    ensures
        sim(s, w).1.branches[b].remote != w.branches[b].remote ==> w.branches[b].remote
            == w.branches[b].tracking && sim(s, w).1.branches[b].remote == w.branches[b].local,
{
}

/// When the remote moved between the rebase and the publish, the publish is
/// refused, the remote keeps its tip, and the local branch is reset to exactly
/// that tip: the local rebase is dropped rather than forced.
pub proof fn lemma_rejected_publish_yields_to_remote(s: EngineState, w: Repo, r: usize)
    requires
        valid(s),
        s.pending == Action::Publish(r),
        w.branches[head_of(s.reqs, r)].remote != w.branches[head_of(s.reqs, r)].tracking,
    ensures
        sim(s, w).0.pending == Action::ResetToRemote(r),
        sim(s, w).1.branches[head_of(s.reqs, r)].remote == w.branches[head_of(s.reqs, r)].remote,
        sim(sim(s, w).0, sim(s, w).1).1.branches[head_of(s.reqs, r)] == (BranchTips {
            local: w.branches[head_of(s.reqs, r)].remote,
            tracking: w.branches[head_of(s.reqs, r)].remote,
            remote: w.branches[head_of(s.reqs, r)].remote,
        }),
        settled(sim(sim(s, w).0, sim(s, w).1).0.pending),
        sim(sim(s, w).0, sim(s, w).1).0.changed ==> s.changed || sim(sim(s, w).0, sim(s, w).1).0.passes > s.passes,
{
    let (s1, w1) = sim(s, w);
    lemma_complete_settles(s1, r);
    let (w2, e2) = respond(w1, s1.reqs, s1.pending);
    assert(e2 == Event::Acknowledged);
    let t = complete(s1, r);
    let name = s1.reqs[r as int].head@;
    let (stack, visited) = crate::engine::push_unvisited(s1.stack, s1.visited, crate::graph::based_on(s1.reqs, name));
    let u = EngineState { stack, visited, ..s1 };
    lemma_begin_pass_settles(u);
}

/// Two states that differ at most in the pass count and the pass limit.
pub open spec fn same_pass(a: EngineState, b: EngineState) -> bool {
    EngineState { passes: b.passes, max_passes: b.max_passes, ..a } == b
}

/// A state as it stands right after a pass began.
pub open spec fn fresh(t: EngineState) -> bool {
    same_pass(t, start(t.reqs, t.root, t.max_passes))
}

pub open spec fn initial(reqs: Seq<ChangeRequest>, root: Seq<char>, max_passes: nat) -> EngineState {
    EngineState {
        reqs,
        root,
        stack: Seq::empty(),
        visited: Seq::empty(),
        pending: Action::Stop(Outcome::Converged),
        changed: false,
        passes: 0,
        max_passes,
        rebased: Seq::empty(),
    }
}

proof fn lemma_advance_mirror(a: EngineState, b: EngineState)
    requires
        same_pass(a, b),
        advance(a).passes == a.passes,
        advance(a).pending != Action::Stop(Outcome::PassLimitReached),
    ensures
        same_pass(advance(a), advance(b)),
        advance(b).passes == b.passes,
{
    lemma_begin_pass_settles(a);
}

proof fn lemma_step_mirror(a: EngineState, b: EngineState, e: Event)
    requires
        same_pass(a, b),
        step(a, e).passes == a.passes,
        step(a, e).pending != Action::Stop(Outcome::PassLimitReached),
    ensures
        same_pass(step(a, e), step(b, e)),
        step(b, e).passes == b.passes,
{
    match a.pending {
        Action::AbortRebase { request, fatal } => {
            if e == Event::Acknowledged && !fatal {
                lemma_advance_mirror(a, b);
            }
        },
        Action::CompareWithRemote(r) => {
            if e == Event::Compared(true) {
                let name = a.reqs[r as int].head@;
                let (stack, visited) = crate::engine::push_unvisited(a.stack, a.visited, crate::graph::based_on(a.reqs, name));
                lemma_advance_mirror(EngineState { stack, visited, ..a }, EngineState { stack, visited, ..b });
            }
        },
        Action::Publish(r) => {
            if e == Event::Published(true) {
                let name = a.reqs[r as int].head@;
                let (stack, visited) = crate::engine::push_unvisited(a.stack, a.visited, crate::graph::based_on(a.reqs, name));
                lemma_advance_mirror(
                    EngineState { stack, visited, changed: true, ..a },
                    EngineState { stack, visited, changed: true, ..b },
                );
            }
        },
        Action::ResetToRemote(r) => {
            if e == Event::Acknowledged {
                let name = a.reqs[r as int].head@;
                let (stack, visited) = crate::engine::push_unvisited(a.stack, a.visited, crate::graph::based_on(a.reqs, name));
                lemma_advance_mirror(EngineState { stack, visited, ..a }, EngineState { stack, visited, ..b });
            }
        },
        _ => {},
    }
}

proof fn lemma_run_passes_grow(s: EngineState, w: Repo, n: nat)
    ensures
        run(s, w, n).0.passes >= s.passes,
        s.pending is Stop ==> run(s, w, n).0 == s,
    decreases n,
{
    if n > 0 {
        lemma_run_passes_grow(s, w, (n - 1) as nat);
        let (s1, w1) = run(s, w, (n - 1) as nat);
        let (w2, e) = respond(w1, s1.reqs, s1.pending);
        lemma_step_setup(s1, e);
    }
}

/// Two runs from states that differ only in their pass counts act alike for
/// as long as the first stays in its pass.
proof fn lemma_run_mirror(a: EngineState, b: EngineState, w: Repo, m: nat)
    requires
        same_pass(a, b),
        run(a, w, m).0.passes == a.passes,
        run(a, w, m).0.pending != Action::Stop(Outcome::PassLimitReached),
    ensures
        run(b, w, m).1 == run(a, w, m).1,
        same_pass(run(a, w, m).0, run(b, w, m).0),
        run(b, w, m).0.passes == b.passes,
    decreases m,
{
    if m > 0 {
        let (a1, wa) = run(a, w, (m - 1) as nat);
        let (w2, e) = respond(wa, a1.reqs, a1.pending);
        lemma_run_passes_grow(a, w, (m - 1) as nat);
        lemma_step_setup(a1, e);
        if a1.pending == Action::Stop(Outcome::PassLimitReached) {
            assert(step(a1, e) == a1);
        }
        lemma_run_mirror(a, b, w, (m - 1) as nat);
        let (b1, wb) = run(b, w, (m - 1) as nat);
        assert(b1.pending == a1.pending && b1.reqs == a1.reqs);
        lemma_step_mirror(a1, b1, e);
    }
}

/// While a pass has published nothing, the repository is as the pass found
/// it, but for the local tip of the branch in flight.
pub open spec fn pass_quiet(s: EngineState, w: Repo, wp: Repo) -> bool {
    !s.changed ==> match in_flight(s) {
        None => w == wp,
        Some(h) => {
            &&& w.conflicting == wp.conflicting
            &&& w.unsupported == wp.unsupported
            &&& w.held == wp.held
            &&& w.branches.dom() == wp.branches.dom()
            &&& forall|b: Seq<char>| #[trigger] w.branches.contains_key(b) && b != h ==> w.branches[b] == wp.branches[b]
            &&& w.branches[h].tracking == wp.branches[h].tracking
            &&& w.branches[h].remote == wp.branches[h].remote
        },
    }
}

pub open spec fn all_heads_synced(reqs: Seq<ChangeRequest>, w: Repo) -> bool {
    forall|i: int|
        #![trigger reqs[i]]
        0 <= i < reqs.len() ==> w.branches[reqs[i].head@].local == w.branches[reqs[i].head@].tracking
}

proof fn lemma_sim_world(s: EngineState, w: Repo)
    requires
        valid(s),
        no_interference(w),
        heads_known(s.reqs, w),
    ensures
        no_interference(sim(s, w).1),
        heads_known(s.reqs, sim(s, w).1),
        sim(s, w).1.branches.dom() == w.branches.dom(),
        sim(s, w).1.conflicting == w.conflicting,
        sim(s, w).1.unsupported == w.unsupported,
{
    let w2 = sim(s, w).1;
    match s.pending {
        Action::Rebase(r) => {
            assert(w.branches.contains_key(head_of(s.reqs, r)));
        },
        Action::Publish(r) => {
            assert(w.branches.contains_key(head_of(s.reqs, r)));
        },
        Action::ResetToRemote(r) => {
            assert(w.branches.contains_key(head_of(s.reqs, r)));
        },
        _ => {},
    }
    assert(w2.branches.dom() =~= w.branches.dom());
    assert forall|b: Seq<char>| #[trigger] w2.branches.contains_key(b) implies w2.branches[b].tracking
        == w2.branches[b].remote by {
        if w.branches.contains_key(b) {
        }
    }
}

proof fn lemma_step_fresh(s: EngineState, e: Event)
    ensures
        step(s, e).passes != s.passes ==> fresh(step(s, e)),
        step(s, e).pending == Action::Stop(Outcome::Converged) ==> !step(s, e).changed || step(s, e) == s,
{
    let init = initial(s.reqs, s.root, s.max_passes);
    match s.pending {
        Action::AbortRebase { request, fatal } => {
            lemma_begin_pass_settles(s);
        },
        Action::CompareWithRemote(r) => {
            let name = s.reqs[r as int].head@;
            let (stack, visited) = crate::engine::push_unvisited(s.stack, s.visited, crate::graph::based_on(s.reqs, name));
            lemma_begin_pass_settles(EngineState { stack, visited, ..s });
        },
        Action::Publish(r) => {
            let name = s.reqs[r as int].head@;
            let (stack, visited) = crate::engine::push_unvisited(s.stack, s.visited, crate::graph::based_on(s.reqs, name));
            lemma_begin_pass_settles(EngineState { stack, visited, changed: true, ..s });
        },
        Action::ResetToRemote(r) => {
            let name = s.reqs[r as int].head@;
            let (stack, visited) = crate::engine::push_unvisited(s.stack, s.visited, crate::graph::based_on(s.reqs, name));
            lemma_begin_pass_settles(EngineState { stack, visited, ..s });
        },
        _ => {},
    }
}

proof fn lemma_sim_quiet(s: EngineState, w: Repo, wp: Repo)
    requires
        valid(s),
        heads_synced(s, w),
        no_interference(w),
        heads_known(s.reqs, w),
        all_heads_synced(s.reqs, wp),
        pass_quiet(s, w, wp),
        sim(s, w).0.passes == s.passes,
    ensures
        pass_quiet(sim(s, w).0, sim(s, w).1, wp),
{
    let (w2, e) = respond(w, s.reqs, s.pending);
    let s2 = step(s, e);
    lemma_step_setup(s, e);
    match s.pending {
        Action::Rebase(r) => {
            let h = head_of(s.reqs, r);
            assert(w.branches.contains_key(head_of(s.reqs, r)));
            if !s.changed && s2.pending is CompareWithRemote {
                assert(w == wp);
                assert forall|b: Seq<char>| #[trigger] w2.branches.contains_key(b) && b != h implies w2.branches[b]
                    == wp.branches[b] by {}
                assert(w2.branches.dom() =~= wp.branches.dom());
            }
        },
        Action::AbortRebase { request, fatal } => {
            lemma_advance_settles(s);
            if !fatal && e == Event::Acknowledged {
                lemma_begin_pass_settles(s);
            }
        },
        Action::CompareWithRemote(r) => {
            let h = head_of(s.reqs, r);
            assert(w.branches.contains_key(head_of(s.reqs, r)));
            lemma_complete_settles(s, r);
            if e == Event::Compared(true) {
                let name = s.reqs[r as int].head@;
                let (stack, visited) = crate::engine::push_unvisited(s.stack, s.visited, crate::graph::based_on(s.reqs, name));
                lemma_begin_pass_settles(EngineState { stack, visited, ..s });
                if !s.changed {
                    assert(w.branches[h] == wp.branches[h]);
                    assert(w.branches =~= wp.branches);
                }
            }
        },
        Action::Publish(r) => {
            let h = head_of(s.reqs, r);
            assert(w.branches.contains_key(head_of(s.reqs, r)));
            assert(w.branches.contains_key(h));
            let name = s.reqs[r as int].head@;
            let (stack, visited) = crate::engine::push_unvisited(s.stack, s.visited, crate::graph::based_on(s.reqs, name));
            lemma_begin_pass_settles(EngineState { stack, visited, changed: true, ..s });
        },
        Action::ResetToRemote(r) => {
            let h = head_of(s.reqs, r);
            assert(w.branches.contains_key(head_of(s.reqs, r)));
            lemma_complete_settles(s, r);
            let name = s.reqs[r as int].head@;
            let (stack, visited) = crate::engine::push_unvisited(s.stack, s.visited, crate::graph::based_on(s.reqs, name));
            lemma_begin_pass_settles(EngineState { stack, visited, ..s });
            if !s.changed {
                assert(w2.branches[h] == wp.branches[h]);
                assert(w2.branches =~= wp.branches);
            }
        },
        Action::Stop(_) => {},
    }
}

/// Along a run, the pass in progress: the state and repository it began with
/// and the number of actions before it.
proof fn lemma_current_pass(
    reqs: Seq<ChangeRequest>,
    root: Seq<char>,
    max_passes: nat,
    w0: Repo,
    n: nat,
) -> (r: (EngineState, Repo, nat))
    requires
        reqs.len() <= usize::MAX,
        1 <= max_passes <= usize::MAX,
        all_heads_synced(reqs, w0),
        no_interference(w0),
        heads_known(reqs, w0),
    ensures
        r.2 <= n,
        run(r.0, r.1, (n - r.2) as nat) == run(start(reqs, root, max_passes), w0, n),
        fresh(r.0),
        same_setup(r.0, start(reqs, root, max_passes)),
        run(start(reqs, root, max_passes), w0, n).0.passes == r.0.passes,
        pass_quiet(run(start(reqs, root, max_passes), w0, n).0, run(start(reqs, root, max_passes), w0, n).1, r.1),
        all_heads_synced(reqs, r.1),
        no_interference(run(start(reqs, root, max_passes), w0, n).1),
        heads_known(reqs, run(start(reqs, root, max_passes), w0, n).1),
        heads_synced(run(start(reqs, root, max_passes), w0, n).0, run(start(reqs, root, max_passes), w0, n).1),
        run(start(reqs, root, max_passes), w0, n).0.pending == Action::Stop(Outcome::Converged)
            ==> !run(start(reqs, root, max_passes), w0, n).0.changed,
    decreases n,
{
    let s0 = start(reqs, root, max_passes);
    let init = initial(reqs, root, max_passes);
    crate::engine::lemma_begin_pass_valid(init);
    lemma_begin_pass_settles(init);
    lemma_run_valid(s0, w0, n);
    if n == 0 {
        assert(heads_synced(s0, w0));
        (s0, w0, 0)
    } else {
        let (p, wp, k) = lemma_current_pass(reqs, root, max_passes, w0, (n - 1) as nat);
        let (s1, w1) = run(s0, w0, (n - 1) as nat);
        lemma_run_valid(s0, w0, (n - 1) as nat);
        lemma_sim_keeps_heads_synced(s1, w1);
        let (w2, e) = respond(w1, s1.reqs, s1.pending);
        let s2 = step(s1, e);
        lemma_step_setup(s1, e);
        lemma_step_fresh(s1, e);
        lemma_sim_world(s1, w1);
        if s2.passes == s1.passes {
            lemma_sim_quiet(s1, w1, wp);
            assert(run(p, wp, (n - k) as nat) == sim(run(p, wp, (n - 1 - k) as nat).0, run(p, wp, (n - 1 - k) as nat).1));
            (p, wp, k)
        } else {
            assert(run(s2, w2, 0) == (s2, w2));
            assert(s2.reqs == reqs);
            lemma_begin_pass_settles(init);
            assert(settled(s2.pending));
            (s2, w2, n)
        }
    }
}

/// Running the loop again right after it converged changes nothing: the new
/// run rebases no branch to a new tip, publishes nothing, and converges in
/// its first pass, leaving the repository as it found it.
pub proof fn lemma_converged_run_is_idempotent(
    reqs: Seq<ChangeRequest>,
    root: Seq<char>,
    max_passes: nat,
    w0: Repo,
    n: nat,
) -> (m: nat)
    requires
        reqs.len() <= usize::MAX,
        1 <= max_passes <= usize::MAX,
        all_heads_synced(reqs, w0),
        no_interference(w0),
        heads_known(reqs, w0),
        run(start(reqs, root, max_passes), w0, n).0.pending == Action::Stop(Outcome::Converged),
    ensures
        run(start(reqs, root, max_passes), run(start(reqs, root, max_passes), w0, n).1, m).0.pending
            == Action::Stop(Outcome::Converged),
        run(start(reqs, root, max_passes), run(start(reqs, root, max_passes), w0, n).1, m).0.passes == 1,
        !run(start(reqs, root, max_passes), run(start(reqs, root, max_passes), w0, n).1, m).0.changed,
        run(start(reqs, root, max_passes), run(start(reqs, root, max_passes), w0, n).1, m).1 == run(
            start(reqs, root, max_passes),
            w0,
            n,
        ).1,
{
    let s0 = start(reqs, root, max_passes);
    let init = initial(reqs, root, max_passes);
    lemma_begin_pass_settles(init);
    let (p, wp, k) = lemma_current_pass(reqs, root, max_passes, w0, n);
    let (s, w) = run(s0, w0, n);
    assert(w == wp);
    let m = (n - k) as nat;
    lemma_run_mirror(p, s0, wp, m);
    m
}

} // verus!
