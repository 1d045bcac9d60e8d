use safe_rebase::{
    build_pr_graph, is_safe, is_safe_pr, requests_by, safe_requests, BranchComparison, Candidate,
    ChangeRequest,
};

fn cmp(ahead: usize, behind: usize) -> Option<BranchComparison> {
    Some(BranchComparison { ahead, behind })
}

fn request(title: &str, head: &str, base: &str, author: &str) -> ChangeRequest {
    ChangeRequest::new(title.to_string(), head.to_string(), base.to_string(), author.to_string())
}

#[test]
fn safe_only_when_neither_ahead_nor_behind() {
    assert!(is_safe(cmp(0, 0)));
    assert!(!is_safe(cmp(1, 0)));
    assert!(!is_safe(cmp(0, 1)));
    assert!(!is_safe(cmp(1, 1)));
    assert!(!is_safe(None));
}

#[test]
fn request_needs_both_ends_safe() {
    assert!(is_safe_pr(cmp(0, 0), cmp(0, 0)));
    assert!(!is_safe_pr(cmp(0, 0), cmp(0, 2)));
    assert!(!is_safe_pr(cmp(3, 0), cmp(0, 0)));
    assert!(!is_safe_pr(None, cmp(0, 0)));
    assert!(!is_safe_pr(cmp(0, 0), None));
}

#[test]
fn safe_subset_keeps_listing_order() {
    let cands = vec![
        Candidate { request: request("A", "a", "main", "me"), head: cmp(0, 0), base: cmp(0, 0) },
        Candidate { request: request("B", "b", "a", "me"), head: cmp(1, 0), base: cmp(0, 0) },
        Candidate { request: request("C", "c", "main", "me"), head: cmp(0, 0), base: None },
        Candidate { request: request("D", "d", "a", "me"), head: cmp(0, 0), base: cmp(0, 0) },
    ];
    let safe = safe_requests(cands);
    let titles: Vec<&str> = safe.iter().map(|r| r.title.as_str()).collect();
    assert_eq!(titles, vec!["A", "D"]);
    assert!(safe_requests(Vec::new()).is_empty());
}

#[test]
fn requests_by_author_keeps_order() {
    let reqs = vec![
        request("A", "a", "main", "me"),
        request("B", "b", "main", "someone"),
        request("C", "c", "a", "me"),
    ];
    let mine = requests_by(reqs, &"me".to_string());
    let titles: Vec<&str> = mine.iter().map(|r| r.title.as_str()).collect();
    assert_eq!(titles, vec!["A", "C"]);
}

#[test]
fn graph_groups_by_base_in_listing_order() {
    let reqs = vec![
        request("A", "feat/a", "main", "me"),
        request("B", "feat/b", "feat/a", "me"),
        request("C", "feat/c", "main", "me"),
        request("D", "feat/d", "feat/a", "me"),
    ];
    let g = build_pr_graph(reqs);
    assert_eq!(g.len(), 4);
    assert_eq!(g.dependents(&"main".to_string()), vec![0, 2]);
    assert_eq!(g.dependents(&"feat/a".to_string()), vec![1, 3]);
    assert!(g.dependents(&"feat/b".to_string()).is_empty());
    assert_eq!(g.bases(), vec!["main".to_string(), "feat/a".to_string()]);
    assert_eq!(g.requests()[1].head, "feat/b");
}

#[test]
fn duplicate_copies_every_field() {
    let r = request("T", "h", "b", "me");
    let d = r.duplicate();
    assert_eq!((d.title, d.head, d.base, d.author), (r.title, r.head, r.base, r.author));
}
