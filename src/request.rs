use vstd::prelude::*;

verus! {

/// A snapshot of one open change request (pull request) of the current user.
pub struct ChangeRequest {
    pub title: String,
    /// The branch that holds the proposed commits.
    pub head: String,
    /// The branch that the request targets.
    pub base: String,
    pub author: String,
}

impl ChangeRequest {
    pub fn new(title: String, head: String, base: String, author: String) -> (r: ChangeRequest)
        ensures
            r.title@ == title@,
            r.head@ == head@,
            r.base@ == base@,
            r.author@ == author@,
    {
        ChangeRequest { title, head, base, author }
    }

    /// A field-by-field copy.
    pub fn duplicate(&self) -> (r: ChangeRequest)
        ensures
            r == *self,
    {
        ChangeRequest {
            title: self.title.clone(),
            head: self.head.clone(),
            base: self.base.clone(),
            author: self.author.clone(),
        }
    }
}

/// The requests of `reqs` opened by `author`, in order.
pub open spec fn authored_by(reqs: Seq<ChangeRequest>, author: Seq<char>) -> Seq<ChangeRequest> {
    reqs.filter(|r: ChangeRequest| r.author@ == author)
}

/// Keeps the requests opened by `author`, in their listing order.
pub fn requests_by(reqs: Vec<ChangeRequest>, author: &String) -> (r: Vec<ChangeRequest>)
    ensures
        r@ == authored_by(reqs@, author@),
{
    let mut r: Vec<ChangeRequest> = Vec::new();
    let mut i: usize = 0;
    while i < reqs.len()
        invariant
            i <= reqs@.len(),
            r@ == authored_by(reqs@.subrange(0, i as int), author@),
        decreases reqs@.len() - i,
    {
        let q = &reqs[i];
        proof {
            let sub = reqs@.subrange(0, i + 1);
            assert(sub.drop_last() == reqs@.subrange(0, i as int));
            reveal(Seq::filter);
        }
        if q.author == *author {
            r.push(q.duplicate());
        }
        i = i + 1;
    }
    assert(reqs@.subrange(0, i as int) == reqs@);
    r
}

} // verus!
