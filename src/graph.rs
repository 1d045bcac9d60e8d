use crate::request::ChangeRequest;
use vstd::prelude::*;

verus! {

/// Indices, in listing order, of the first `n` requests whose base is `base`.
pub open spec fn based_on_upto(reqs: Seq<ChangeRequest>, base: Seq<char>, n: int) -> Seq<usize>
    decreases n,
{
    if n <= 0 {
        Seq::empty()
    } else if reqs[n - 1].base@ == base {
        based_on_upto(reqs, base, n - 1).push((n - 1) as usize)
    } else {
        based_on_upto(reqs, base, n - 1)
    }
}

/// Indices, in listing order, of the requests whose base is `base`.
pub open spec fn based_on(reqs: Seq<ChangeRequest>, base: Seq<char>) -> Seq<usize> {
    based_on_upto(reqs, base, reqs.len() as int)
}

proof fn lemma_based_on_upto_bounds(reqs: Seq<ChangeRequest>, base: Seq<char>, n: int)
    requires
        0 <= n <= reqs.len(),
        n <= usize::MAX,
    ensures
        forall|j: int|
            0 <= j < based_on_upto(reqs, base, n).len() ==> {
                let k = #[trigger] based_on_upto(reqs, base, n)[j];
                &&& k < n
                &&& reqs[k as int].base@ == base
            },
        (forall|i: int| 0 <= i < n ==> reqs[i].base@ != base) ==> based_on_upto(reqs, base, n).len()
            == 0,
    decreases n,
{
    if n > 0 {
        lemma_based_on_upto_bounds(reqs, base, n - 1);
        let prev = based_on_upto(reqs, base, n - 1);
        let cur = based_on_upto(reqs, base, n);
        if reqs[n - 1].base@ == base {
            assert(cur == prev.push((n - 1) as usize));
        } else {
            assert(cur == prev);
        }
        assert forall|j: int| 0 <= j < cur.len() implies {
            let k = #[trigger] cur[j];
            &&& k < n
            &&& reqs[k as int].base@ == base
        } by {
            if j < prev.len() {
                assert(cur[j] == prev[j]);
                let k = prev[j];
            }
        }
    }
}

pub(crate) proof fn lemma_based_on_bounds(reqs: Seq<ChangeRequest>, base: Seq<char>)
    requires
        reqs.len() <= usize::MAX,
    ensures
        forall|j: int|
            0 <= j < based_on(reqs, base).len() ==> {
                let k = #[trigger] based_on(reqs, base)[j];
                &&& k < reqs.len()
                &&& reqs[k as int].base@ == base
            },
        (forall|i: int| 0 <= i < reqs.len() ==> reqs[i].base@ != base) ==> based_on(
            reqs,
            base,
        ).len() == 0,
{
    lemma_based_on_upto_bounds(reqs, base, reqs.len() as int);
}

pub open spec fn has_group(groups: Seq<BaseGroup>, base: Seq<char>) -> bool {
    exists|h: int| 0 <= h < groups.len() && #[trigger] groups[h].base@ == base
}

/// The requests that target one base branch.
pub struct BaseGroup {
    pub base: String,
    pub members: Vec<usize>,
}

/// Change requests grouped by the name of their base branch.
pub struct DependencyGraph {
    requests: Vec<ChangeRequest>,
    groups: Vec<BaseGroup>,
}

impl DependencyGraph {
    pub closed spec fn spec_requests(&self) -> Seq<ChangeRequest> {
        self.requests@
    }

    /// The dependents of `base`: requests that target it, in listing order.
    pub open spec fn spec_dependents(&self, base: Seq<char>) -> Seq<usize> {
        based_on(self.spec_requests(), base)
    }

    /// The bases of the groups, in order of first appearance.
    pub closed spec fn spec_bases(&self) -> Seq<Seq<char>> {
        self.groups@.map_values(|g: BaseGroup| g.base@)
    }

    pub closed spec fn wf(&self) -> bool {
        &&& self.requests@.len() <= usize::MAX
        &&& forall|g: int|
            0 <= g < self.groups@.len() ==> #[trigger] self.groups@[g].members@ == based_on(
                self.requests@,
                self.groups@[g].base@,
            )
        &&& forall|g: int, h: int|
            0 <= g < h < self.groups@.len() ==> #[trigger] self.groups@[g].base@
                != #[trigger] self.groups@[h].base@
        &&& forall|i: int|
            #![trigger self.requests@[i]]
            0 <= i < self.requests@.len() ==> has_group(self.groups@, self.requests@[i].base@)
    }

    pub proof fn lemma_len_fits(&self)
        requires
            self.wf(),
        ensures
            self.spec_requests().len() <= usize::MAX,
    {
    }

    pub fn requests(&self) -> (r: &Vec<ChangeRequest>)
        ensures
            r@ == self.spec_requests(),
    {
        &self.requests
    }

    pub fn len(&self) -> (r: usize)
        ensures
            r == self.spec_requests().len(),
    {
        self.requests.len()
    }

    /// The base branch names that some request targets, each once, in order of
    /// first appearance.
    pub fn bases(&self) -> (r: Vec<String>)
        requires
            self.wf(),
        ensures
            r@.map_values(|s: String| s@) == self.spec_bases(),
    {
        let mut r: Vec<String> = Vec::new();
        let mut i: usize = 0;
        while i < self.groups.len()
            invariant
                i <= self.groups@.len(),
                r@.len() == i,
                forall|j: int| 0 <= j < i ==> #[trigger] r@[j]@ == self.groups@[j].base@,
            decreases self.groups@.len() - i,
        {
            r.push(self.groups[i].base.clone());
            i = i + 1;
        }
        assert(r@.map_values(|s: String| s@) =~= self.groups@.map_values(|g: BaseGroup| g.base@));
        r
    }

    /// The requests that target `base`, as indices into `requests()`, in
    /// listing order; empty when none does.
    pub fn dependents(&self, base: &String) -> (r: Vec<usize>)
        requires
            self.wf(),
        ensures
            r@ == self.spec_dependents(base@),
    {
        let mut g: usize = 0;
        while g < self.groups.len()
            invariant
                self.wf(),
                g <= self.groups@.len(),
                forall|h: int| 0 <= h < g ==> self.groups@[h].base@ != base@,
            decreases self.groups@.len() - g,
        {
            if self.groups[g].base == *base {
                return self.groups[g].members.clone();
            }
            g = g + 1;
        }
        proof {
            lemma_based_on_bounds(self.requests@, base@);
            assert forall|i: int| 0 <= i < self.requests@.len() implies self.requests@[i].base@
                != base@ by {
                let h = choose|h: int|
                    0 <= h < self.groups@.len() && #[trigger] self.groups@[h].base@
                        == self.requests@[i].base@;
            }
        }
        Vec::new()
    }
}

/// Groups change requests by base branch name. Within a group the requests
/// keep their listing order; groups appear in order of first appearance.
pub fn build_pr_graph(requests: Vec<ChangeRequest>) -> (g: DependencyGraph)
    ensures
        g.wf(),
        g.spec_requests() == requests@,
{
    let ghost reqs = requests@;
    let mut groups: Vec<BaseGroup> = Vec::new();
    let mut i: usize = 0;
    while i < requests.len()
        invariant
            i <= requests@.len(),
            requests@ == reqs,
            forall|g: int|
                0 <= g < groups@.len() ==> #[trigger] groups@[g].members@ == based_on_upto(
                    reqs,
                    groups@[g].base@,
                    i as int,
                ),
            forall|g: int, h: int|
                0 <= g < h < groups@.len() ==> #[trigger] groups@[g].base@
                    != #[trigger] groups@[h].base@,
            forall|k: int|
                #![trigger reqs[k]]
                0 <= k < i ==> has_group(groups@, reqs[k].base@),
        decreases requests@.len() - i,
    {
        let ghost before = groups@;
        assert forall|k: int| #![trigger reqs[k]] 0 <= k < i implies has_group(before, reqs[k].base@) by {
            let h = choose|h: int|
                0 <= h < groups@.len() && #[trigger] groups@[h].base@ == reqs[k].base@;
            assert(before[h].base@ == reqs[k].base@);
        }
        let mut g: usize = 0;
        let mut found = false;
        while g < groups.len()
            invariant
                g <= groups@.len(),
                groups@.len() == before.len(),
                i < reqs.len(),
                requests@ == reqs,
                forall|h: int| 0 <= h < groups@.len() ==> #[trigger] groups@[h].base@ == before[h].base@,
                forall|h: int|
                    0 <= h < g ==> #[trigger] groups@[h].members@ == based_on_upto(
                        reqs,
                        groups@[h].base@,
                        i + 1,
                    ),
                forall|h: int|
                    g <= h < groups@.len() ==> #[trigger] groups@[h].members@ == before[h].members@,
                found ==> exists|h: int| 0 <= h < g && #[trigger] groups@[h].base@ == reqs[i as int].base@,
                !found ==> forall|h: int| 0 <= h < g ==> #[trigger] groups@[h].base@ != reqs[i as int].base@,
                forall|k: int|
                    #![trigger reqs[k]]
                    0 <= k < i ==> has_group(before, reqs[k].base@),
                forall|h: int|
                    0 <= h < before.len() ==> #[trigger] before[h].members@ == based_on_upto(
                        reqs,
                        before[h].base@,
                        i as int,
                    ),
            decreases groups@.len() - g,
        {
            let ghost b = groups@[g as int].base@;
            let ghost prev = groups@;
            assert(groups@[g as int].members@ == before[g as int].members@);
            assert(before[g as int].members@ == based_on_upto(reqs, before[g as int].base@, i as int));
            assert(prev[g as int].members@ == based_on_upto(reqs, b, i as int));
            if groups[g].base == requests[i].base {
                groups[g].members.push(i);
                found = true;
                assert(groups@[g as int].base@ == reqs[i as int].base@);
                assert(based_on_upto(reqs, b, i + 1) == based_on_upto(reqs, b, i as int).push(i));
            } else {
                assert(based_on_upto(reqs, b, i + 1) == based_on_upto(reqs, b, i as int));
            }
            assert(groups@[g as int].members@ == based_on_upto(reqs, b, i + 1));
            assert(forall|h: int| 0 <= h < groups@.len() && h != g ==> groups@[h] == prev[h]);
            assert forall|h: int| g + 1 <= h < groups@.len() implies #[trigger] groups@[h].members@
                == before[h].members@ by {
                assert(groups@[h] == prev[h]);
            }
            assert forall|h: int| 0 <= h < g + 1 implies #[trigger] groups@[h].members@
                == based_on_upto(reqs, groups@[h].base@, i + 1) by {
                if h < g {
                    assert(groups@[h] == prev[h]);
                    assert(prev[h].members@ == based_on_upto(reqs, prev[h].base@, i + 1));
                } else {
                    assert(h == g);
                }
            }
            g = g + 1;
        }
        let ghost after_scan = groups@;
        if !found {
            let mut members: Vec<usize> = Vec::new();
            members.push(i);
            proof {
                let b = reqs[i as int].base@;
                assert forall|k: int| 0 <= k < i implies reqs[k].base@ != b by {
                    let h = choose|h: int|
                        0 <= h < before.len() && #[trigger] before[h].base@ == reqs[k].base@;
                    assert(groups@[h].base@ != b);
                }
                lemma_based_on_upto_bounds(reqs, b, i as int);
                assert(members@ =~= based_on_upto(reqs, b, i + 1));
            }
            groups.push(BaseGroup { base: requests[i].base.clone(), members });
        }
        proof {
            assert forall|h: int| 0 <= h < groups@.len() implies #[trigger] groups@[h].members@
                == based_on_upto(reqs, groups@[h].base@, i + 1) by {
                if h < before.len() {
                    assert(groups@[h] == after_scan[h]);
                    assert(after_scan[h].members@ == based_on_upto(reqs, after_scan[h].base@, i + 1));
                }
            }
            assert forall|k: int| #![trigger reqs[k]] 0 <= k < i + 1 implies has_group(groups@, reqs[k].base@) by {
                if k < i {
                    let h = choose|h: int|
                        0 <= h < before.len() && #[trigger] before[h].base@ == reqs[k].base@;
                    assert(groups@[h].base@ == reqs[k].base@);
                } else if !found {
                    assert(groups@[before.len() as int].base@ == reqs[k].base@);
                }
            }
        }
        i = i + 1;
    }
    DependencyGraph { requests, groups }
}

} // verus!
