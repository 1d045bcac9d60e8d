use crate::request::ChangeRequest;
use vstd::prelude::*;

verus! {

/// Commit counts between a local branch and its remote-tracking ref: commits
/// reachable from the local tip only (`ahead`) and from the tracking tip only
/// (`behind`).
#[derive(Clone, Copy, Debug, PartialEq, Eq, Structural)]
pub struct BranchComparison {
    pub ahead: usize,
    pub behind: usize,
}

/// A branch is safe to rewrite when it could be compared with its tracking ref
/// and neither side has a commit the other lacks.
pub open spec fn spec_is_safe(comparison: Option<BranchComparison>) -> bool {
    match comparison {
        Some(c) => c.ahead == 0 && c.behind == 0,
        None => false,
    }
}

/// Classifies a branch; `None` means the branch or its tracking ref could not
/// be resolved, which makes it unsafe.
pub fn is_safe(comparison: Option<BranchComparison>) -> (r: bool)
    ensures
        r == spec_is_safe(comparison),
        r <==> (comparison is Some && comparison->0.ahead == 0 && comparison->0.behind == 0),
{
    match comparison {
        Some(c) => c.ahead == 0 && c.behind == 0,
        None => false,
    }
}

/// A change request may be rebased only when both its head and its base are safe.
pub fn is_safe_pr(head: Option<BranchComparison>, base: Option<BranchComparison>) -> (r: bool)
    ensures
        r == (spec_is_safe(head) && spec_is_safe(base)),
{
    is_safe(base) && is_safe(head)
}

/// A change request with the comparisons of its head and base branches with
/// their remote-tracking refs (`None` where a ref could not be resolved).
pub struct Candidate {
    pub request: ChangeRequest,
    pub head: Option<BranchComparison>,
    pub base: Option<BranchComparison>,
}

/// The requests of `cands` whose head and base are both safe, in order.
pub open spec fn safe_subset(cands: Seq<Candidate>) -> Seq<ChangeRequest>
    decreases cands.len(),
{
    if cands.len() == 0 {
        Seq::empty()
    } else {
        let rest = safe_subset(cands.drop_last());
        let c = cands.last();
        if spec_is_safe(c.head) && spec_is_safe(c.base) {
            rest.push(c.request)
        } else {
            rest
        }
    }
}

/// Keeps the candidates that may be rebased, in their listing order.
pub fn safe_requests(cands: Vec<Candidate>) -> (r: Vec<ChangeRequest>)
    ensures
        r@ == safe_subset(cands@),
{
    let mut r: Vec<ChangeRequest> = Vec::new();
    let mut i: usize = 0;
    while i < cands.len()
        invariant
            i <= cands@.len(),
            r@ == safe_subset(cands@.subrange(0, i as int)),
        decreases cands@.len() - i,
    {
        let c = &cands[i];
        assert(cands@.subrange(0, i + 1).drop_last() == cands@.subrange(0, i as int));
        if is_safe_pr(c.head, c.base) {
            r.push(c.request.duplicate());
        }
        i = i + 1;
    }
    assert(cands@.subrange(0, i as int) == cands@);
    r
}

} // verus!
