use vstd::prelude::*;

verus! {

/// One step of putting the working checkout back.
pub enum RestoreStep {
    /// Re-apply the stash entry made on entry.
    PopStash,
    /// Check out this branch, discarding what the run left in the tree.
    Checkout(String),
}

pub enum RestoreStepView {
    PopStash,
    Checkout(Seq<char>),
}

impl View for RestoreStep {
    type V = RestoreStepView;

    open spec fn view(&self) -> RestoreStepView {
        match self {
            RestoreStep::PopStash => RestoreStepView::PopStash,
            RestoreStep::Checkout(b) => RestoreStepView::Checkout(b@),
        }
    }
}

/// The checkout recorded before any rebase: the current branch and whether
/// pending modifications were stashed.
pub struct BranchGuard {
    pub branch: String,
    pub stashed: bool,
}

/// What restoring a guard does, in order: pop the stash when one was made,
/// then go back to the recorded branch.
pub open spec fn restore_plan(branch: Seq<char>, stashed: bool) -> Seq<RestoreStepView> {
    if stashed {
        seq![RestoreStepView::PopStash, RestoreStepView::Checkout(branch)]
    } else {
        seq![RestoreStepView::Checkout(branch)]
    }
}

impl BranchGuard {
    /// Records the checkout on entry; `stash_created` tells whether stashing
    /// the pending modifications made an entry (it makes none when there is
    /// nothing to stash).
    pub fn enter(current_branch: String, stash_created: bool) -> (r: BranchGuard)
        ensures
            r.branch@ == current_branch@,
            r.stashed == stash_created,
    {
        BranchGuard { branch: current_branch, stashed: stash_created }
    }

    /// The steps to run on every exit path, after success or failure alike.
    pub fn exit_steps(&self) -> (r: Vec<RestoreStep>)
        ensures
            r@.map_values(|s: RestoreStep| s@) == restore_plan(self.branch@, self.stashed),
    {
        let mut r: Vec<RestoreStep> = Vec::new();
        if self.stashed {
            r.push(RestoreStep::PopStash);
        }
        r.push(RestoreStep::Checkout(self.branch.clone()));
        assert(r@.map_values(|s: RestoreStep| s@) =~= restore_plan(self.branch@, self.stashed));
        r
    }
}

/// A working checkout: the branch checked out, the uncommitted modifications,
/// and the stash (its last entry is the newest).
pub struct WorkTree {
    pub branch: Seq<char>,
    pub modifications: Seq<u64>,
    pub stash: Seq<Seq<u64>>,
}

/// Stashing: pending modifications move to a new stash entry; with none, no
/// entry is made. The flag tells whether one was.
pub open spec fn stash_save(w: WorkTree) -> (WorkTree, bool) {
    if w.modifications.len() > 0 {
        (WorkTree { modifications: Seq::empty(), stash: w.stash.push(w.modifications), ..w }, true)
    } else {
        (w, false)
    }
}

pub open spec fn apply_restore_step(w: WorkTree, s: RestoreStepView) -> WorkTree {
    match s {
        RestoreStepView::PopStash => if w.stash.len() > 0 {
            WorkTree {
                modifications: w.modifications + w.stash.last(),
                stash: w.stash.drop_last(),
                ..w
            }
        } else {
            w
        },
        RestoreStepView::Checkout(b) => WorkTree { branch: b, ..w },
    }
}

pub open spec fn apply_restore(w: WorkTree, steps: Seq<RestoreStepView>) -> WorkTree
    decreases steps.len(),
{
    if steps.len() == 0 {
        w
    } else {
        apply_restore(apply_restore_step(w, steps[0]), steps.drop_first())
    }
}

/// Restoring the guard taken on entry brings back the branch checked out
/// before the run and its uncommitted modifications, whatever state the run stopped in, as
/// long as the run left no modifications of its own and did not touch the
/// stash.
pub proof fn lemma_guard_restores_checkout(before: WorkTree, after_run: WorkTree)
    requires
        after_run.stash == stash_save(before).0.stash,
        after_run.modifications.len() == 0,
    ensures
        apply_restore(after_run, restore_plan(before.branch, stash_save(before).1)) == before,
{
    reveal_with_fuel(apply_restore, 3);
    let plan = restore_plan(before.branch, stash_save(before).1);
    if stash_save(before).1 {
        let w1 = apply_restore_step(after_run, plan[0]);
        assert(w1.stash =~= before.stash);
        assert(w1.modifications =~= before.modifications);
        let w2 = apply_restore_step(w1, plan[1]);
        assert(plan.drop_first() =~= seq![plan[1]]);
        assert(seq![plan[1]].drop_first() =~= Seq::<RestoreStepView>::empty());
        assert(w2 == before);
    } else {
        assert(after_run.modifications =~= before.modifications);
        assert(plan.drop_first() =~= Seq::<RestoreStepView>::empty());
        assert(apply_restore_step(after_run, plan[0]) == before);
    }
}

} // verus!
