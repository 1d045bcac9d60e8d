use safe_rebase::{
    api_base_uri, coordinates_from_groups, host_owner_repo_name, remote_of_upstream, BranchGuard,
    RestoreStep,
};

#[test]
fn guard_pops_stash_then_checks_out() {
    let g = BranchGuard::enter("topic".to_string(), true);
    let steps = g.exit_steps();
    assert_eq!(steps.len(), 2);
    assert!(matches!(steps[0], RestoreStep::PopStash));
    assert!(matches!(&steps[1], RestoreStep::Checkout(b) if b == "topic"));
}

#[test]
fn guard_without_stash_only_checks_out() {
    let g = BranchGuard::enter("main".to_string(), false);
    let steps = g.exit_steps();
    assert_eq!(steps.len(), 1);
    assert!(matches!(&steps[0], RestoreStep::Checkout(b) if b == "main"));
}

#[test]
fn scp_like_url_gives_host_owner_and_name() {
    let c = host_owner_repo_name("git@github.com:octo/widgets.git").unwrap();
    assert_eq!(c.host, "github.com");
    assert_eq!(c.owner, "octo");
    assert_eq!(c.name, "widgets");
    let e = host_owner_repo_name("git@git.example.org:team/tools.git").unwrap();
    assert_eq!((e.host.as_str(), e.owner.as_str(), e.name.as_str()), ("git.example.org", "team", "tools"));
}

#[test]
fn url_without_user_part_gives_nothing() {
    assert!(host_owner_repo_name("https://github.com/octo/widgets").is_none());
    assert!(host_owner_repo_name("").is_none());
}

#[test]
fn groups_with_a_missing_part_give_nothing() {
    assert!(coordinates_from_groups(None).is_none());
    let short = Some(vec![Some("x".to_string()), Some("h".to_string())]);
    assert!(coordinates_from_groups(short).is_none());
    let missing = Some(vec![
        Some("all".to_string()),
        Some("h".to_string()),
        None,
        Some("n".to_string()),
    ]);
    assert!(coordinates_from_groups(missing).is_none());
    let full = Some(vec![
        Some("all".to_string()),
        Some("h".to_string()),
        Some("o".to_string()),
        Some("n".to_string()),
    ]);
    let c = coordinates_from_groups(full).unwrap();
    assert_eq!((c.host.as_str(), c.owner.as_str(), c.name.as_str()), ("h", "o", "n"));
}

#[test]
fn remote_is_first_segment_of_upstream() {
    assert_eq!(remote_of_upstream("origin/feat/a"), "origin");
    assert_eq!(remote_of_upstream("upstream/main"), "upstream");
    assert_eq!(remote_of_upstream("lonely"), "lonely");
    assert_eq!(remote_of_upstream("/x"), "");
    assert_eq!(remote_of_upstream(""), "");
}

#[test]
fn api_base_for_public_and_enterprise_hosts() {
    assert_eq!(api_base_uri("github.com"), "https://api.github.com");
    assert_eq!(api_base_uri("git.example.org"), "https://git.example.org/api/v3");
}
