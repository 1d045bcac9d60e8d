use vstd::prelude::*;

verus! {

/// The groups of the first match of `pattern` in `text`, group 0 being the
/// whole match and a group that took no part being `None`; `None` when the
/// pattern does not compile or nothing matches.
pub uninterp spec fn regex_groups(pattern: Seq<char>, text: Seq<char>) -> Option<
    Seq<Option<Seq<char>>>,
>;

pub open spec fn group_views(groups: Seq<Option<String>>) -> Seq<Option<Seq<char>>> {
    groups.map_values(
        |g: Option<String>|
            match g {
                Some(s) => Some(s@),
                None => None,
            },
    )
}

/// Relies on regex::Regex::new and regex::Regex::captures: the capture groups
/// of the leftmost-first match, which depend on the pattern and the text alone.
#[verifier::external_body]
fn capture_groups(pattern: &str, text: &str) -> (r: Option<Vec<Option<String>>>)
    ensures
        r is None <==> regex_groups(pattern@, text@) is None,
        r matches Some(v) ==> regex_groups(pattern@, text@) == Some(group_views(v@)),
{
    let re = match regex::Regex::new(pattern) {
        Ok(re) => re,
        Err(_) => return None,
    };
    let caps = re.captures(text)?;
    let mut groups = Vec::new();
    for m in caps.iter() {
        groups.push(m.map(|m| m.as_str().to_string()));
    }
    Some(groups)
}

/// Where a repository lives on its hosting service.
pub struct RepoCoordinates {
    pub host: String,
    pub owner: String,
    pub name: String,
}

/// Host, owner and repository name read from the groups of an scp-like remote
/// URL match (`user@host:owner/name.git`).
pub open spec fn coordinates_of(groups: Option<Seq<Option<Seq<char>>>>) -> Option<
    (Seq<char>, Seq<char>, Seq<char>),
> {
    match groups {
        Some(g) => if g.len() >= 4 && g[1] is Some && g[2] is Some && g[3] is Some {
            Some((g[1]->0, g[2]->0, g[3]->0))
        } else {
            None
        },
        None => None,
    }
}

pub open spec fn remote_url_pattern() -> Seq<char> {
    ".*@(.*):(.*)/(.*).git"@
}

/// Picks host, owner and name out of capture groups, as `coordinates_of` says.
pub fn coordinates_from_groups(groups: Option<Vec<Option<String>>>) -> (r: Option<RepoCoordinates>)
    ensures
        match coordinates_of(
            match groups {
                Some(v) => Some(group_views(v@)),
                None => None,
            },
        ) {
            Some(c) => r matches Some(rc) && rc.host@ == c.0 && rc.owner@ == c.1 && rc.name@ == c.2,
            None => r is None,
        },
{
    match groups {
        None => None,
        Some(g) => {
            if g.len() < 4 {
                return None;
            }
            let ghost gv = group_views(g@);
            assert(gv[1] == (match g@[1] { Some(s) => Some(s@), None => None }));
            assert(gv[2] == (match g@[2] { Some(s) => Some(s@), None => None }));
            assert(gv[3] == (match g@[3] { Some(s) => Some(s@), None => None }));
            match (&g[1], &g[2], &g[3]) {
                (Some(host), Some(owner), Some(name)) => Some(
                    RepoCoordinates { host: host.clone(), owner: owner.clone(), name: name.clone() },
                ),
                _ => None,
            }
        },
    }
}

/// Reads host, owner and repository name from a remote URL such as
/// `git@github.com:owner/name.git`.
pub fn host_owner_repo_name(url: &str) -> (r: Option<RepoCoordinates>)
    ensures
        match coordinates_of(regex_groups(remote_url_pattern(), url@)) {
            Some(c) => r matches Some(rc) && rc.host@ == c.0 && rc.owner@ == c.1 && rc.name@ == c.2,
            None => r is None,
        },
{
    let pattern = ".*@(.*):(.*)/(.*).git";
    proof {
        reveal_strlit(".*@(.*):(.*)/(.*).git");
    }
    let groups = capture_groups(pattern, url);
    coordinates_from_groups(groups)
}

/// The first `/`-separated segment of `s` (all of `s` when it holds no `/`).
pub open spec fn first_segment(s: Seq<char>) -> Seq<char>
    decreases s.len(),
{
    if s.len() == 0 {
        s
    } else if s[0] == '/' {
        Seq::empty()
    } else {
        seq![s[0]] + first_segment(s.drop_first())
    }
}

proof fn lemma_first_segment_prefix(s: Seq<char>, i: int)
    requires
        0 <= i <= s.len(),
        forall|j: int| 0 <= j < i ==> s[j] != '/',
        i == s.len() || s[i] == '/',
    ensures
        first_segment(s) == s.subrange(0, i),
    decreases s.len(),
{
    if s.len() > 0 && i > 0 {
        lemma_first_segment_prefix(s.drop_first(), i - 1);
        assert(s.subrange(0, i) =~= seq![s[0]] + s.drop_first().subrange(0, i - 1));
    } else {
        assert(s.subrange(0, i) =~= Seq::<char>::empty());
    }
}

/// The remote that an upstream branch name such as `origin/feat/a` belongs to.
pub fn remote_of_upstream(upstream: &str) -> (r: String)
    ensures
        r@ == first_segment(upstream@),
{
    let n = upstream.unicode_len();
    let mut i: usize = 0;
    while i < n
        invariant
            i <= n,
            n == upstream@.len(),
            forall|j: int| 0 <= j < i ==> upstream@[j] != '/',
        ensures
            i <= n,
            i == n || upstream@[i as int] == '/',
            forall|j: int| 0 <= j < i ==> upstream@[j] != '/',
        decreases n - i,
    {
        if upstream.get_char(i) == '/' {
            break;
        }
        i = i + 1;
    }
    proof {
        lemma_first_segment_prefix(upstream@, i as int);
    }
    String::from_str(upstream.substring_char(0, i))
}

/// The API endpoint of a hosting service: the public one for `github.com`,
/// the enterprise path on any other host.
pub open spec fn api_base_uri_of(host: Seq<char>) -> Seq<char> {
    if host == "github.com"@ {
        "https://api.github.com"@
    } else {
        "https://"@ + host + "/api/v3"@
    }
}

pub fn api_base_uri(host: &str) -> (r: String)
    ensures
        r@ == api_base_uri_of(host@),
{
    if String::from_str(host) == String::from_str("github.com") {
        String::from_str("https://api.github.com")
    } else {
        String::from_str("https://").concat(host).concat("/api/v3")
    }
}

} // verus!
