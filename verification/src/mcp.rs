//! The MCP plugin bridge: plugin descriptions, the table of running plugin
//! processes, and the rules for installing and verifying plugins.

use vstd::prelude::*;
use crate::json::{json_as_str, json_get, JsonMember, JsonValue};
use crate::engine::HostOs;
use crate::text::{decimal, push_str, replace_all, replace_str, str_eq, string_of};

verus! {

/// One server entry of an `.mcp.json` file.
pub struct McpServerConfig {
    pub command: Option<String>,
    pub args: Option<Vec<String>>,
    pub env: Option<Vec<(String, String)>>,
    pub url: Option<String>,
    pub cwd: Option<String>,
}

/// A plugin as the Plugin Settings page lists it.
pub struct DiscoveredPlugin {
    pub id: String,
    pub name: String,
    pub command: Option<String>,
    pub args: Option<Vec<String>>,
    pub env: Option<Vec<(String, String)>>,
    pub url: Option<String>,
    pub cwd: Option<String>,
    pub enabled: Option<bool>,
    pub verified: Option<bool>,
    pub verified_at: Option<String>,
    pub verify_error: Option<String>,
}

/// The plugin listed for server `name` of an `.mcp.json` file: id
/// `mcp_<name>`, the server's launch settings, and nothing known yet about
/// whether it is enabled or verified.
pub fn plugin_from_config(name: String, config: McpServerConfig) -> (p: DiscoveredPlugin)
    ensures
        p.id@ == "mcp_"@ + name@,
        p.name == name,
        p.command == config.command,
        p.args == config.args,
        p.env == config.env,
        p.url == config.url,
        p.cwd == config.cwd,
        p.enabled is None,
        p.verified is None,
        p.verified_at is None,
        p.verify_error is None,
{
    let mut id = String::new();
    push_str(&mut id, "mcp_");
    push_str(&mut id, name.as_str());
    DiscoveredPlugin {
        id,
        name,
        command: config.command,
        args: config.args,
        env: config.env,
        url: config.url,
        cwd: config.cwd,
        enabled: None,
        verified: None,
        verified_at: None,
        verify_error: None,
    }
}

// ---------------------------------------------------------------------------
// The bundled skills server
// ---------------------------------------------------------------------------
/// A directory the bundled skills server is looked for under.
pub enum SkillsServerBase {
    /// The directory of the running executable.
    ExeDir,
    /// The app's resource directory.
    ResourceDir,
    /// The parent of the resource directory.
    ResourceParent,
    /// The crate's source directory (development builds).
    SourceDir,
}

/// A place the bundled skills server's entry point may be: a base directory
/// and the path under it.
pub struct SkillsServerCandidate {
    pub base: SkillsServerBase,
    pub path: Vec<&'static str>,
}

/// The path of the entry point under a base, through the `_up_` segment
/// Tauri uses for a `../` in a resource glob, or directly.
pub open spec fn entry_path(up: bool) -> Seq<Seq<char>> {
    if up {
        seq!["_up_"@, "skills-server"@, "dist"@, "index.js"@]
    } else {
        seq!["skills-server"@, "dist"@, "index.js"@]
    }
}

/// The candidates, in the order they are tried, as (base, path) pairs.
pub open spec fn skills_server_places(exe: bool, resource: bool, parent: bool) -> Seq<
    (SkillsServerBase, Seq<Seq<char>>),
> {
    (if exe {
        seq![(SkillsServerBase::ExeDir, entry_path(true)), (SkillsServerBase::ExeDir, entry_path(false))]
    } else {
        Seq::empty()
    }) + (if resource {
        seq![
            (SkillsServerBase::ResourceDir, entry_path(true)),
            (SkillsServerBase::ResourceDir, entry_path(false)),
        ]
    } else {
        Seq::empty()
    }) + (if resource && parent {
        seq![
            (SkillsServerBase::ResourceParent, entry_path(true)),
            (SkillsServerBase::ResourceParent, entry_path(false)),
        ]
    } else {
        Seq::empty()
    }) + seq![
        (SkillsServerBase::SourceDir, seq![".."@, "skills-server"@, "dist"@, "index.js"@]),
    ]
}

/// A candidate as a (base, path) pair.
pub open spec fn candidate_place(c: SkillsServerCandidate) -> (SkillsServerBase, Seq<Seq<char>>) {
    (c.base, Seq::new(c.path@.len(), |k: int| c.path@[k]@))
}

fn entry_path_exec(up: bool) -> (p: Vec<&'static str>)
    ensures
        Seq::new(p@.len(), |k: int| p@[k]@) == entry_path(up),
{
    let mut p: Vec<&'static str> = Vec::new();
    if up {
        p.push("_up_");
    }
    p.push("skills-server");
    p.push("dist");
    p.push("index.js");
    assert(Seq::new(p@.len(), |k: int| p@[k]@) =~= entry_path(up));
    p
}

/// Where the bundled skills server's entry point may be, in the order to
/// try them: next to the executable (the Windows installer puts `_up_` at
/// the install root), in the resource directory and its parent (each first
/// through `_up_`, then directly), and finally `../skills-server` from the
/// source tree for `tauri dev`. `exe_dir`, `resource_dir` and
/// `resource_parent` say which of those directories are known.
pub fn skills_server_candidates(exe_dir: bool, resource_dir: bool, resource_parent: bool) -> (c: Vec<
    SkillsServerCandidate,
>)
    ensures
        Seq::new(c@.len(), |k: int| candidate_place(c@[k])) == skills_server_places(
            exe_dir,
            resource_dir,
            resource_parent,
        ),
{
    let mut c: Vec<SkillsServerCandidate> = Vec::new();
    if exe_dir {
        c.push(SkillsServerCandidate { base: SkillsServerBase::ExeDir, path: entry_path_exec(true) });
        c.push(SkillsServerCandidate { base: SkillsServerBase::ExeDir, path: entry_path_exec(false) });
    }
    if resource_dir {
        c.push(SkillsServerCandidate { base: SkillsServerBase::ResourceDir, path: entry_path_exec(true) });
        c.push(SkillsServerCandidate { base: SkillsServerBase::ResourceDir, path: entry_path_exec(false) });
        if resource_parent {
            c.push(SkillsServerCandidate { base: SkillsServerBase::ResourceParent, path: entry_path_exec(true) });
            c.push(SkillsServerCandidate { base: SkillsServerBase::ResourceParent, path: entry_path_exec(false) });
        }
    }
    let mut dev: Vec<&'static str> = Vec::new();
    dev.push("..");
    dev.push("skills-server");
    dev.push("dist");
    dev.push("index.js");
    assert(Seq::new(dev@.len(), |k: int| dev@[k]@) =~= seq![".."@, "skills-server"@, "dist"@, "index.js"@]);
    c.push(SkillsServerCandidate { base: SkillsServerBase::SourceDir, path: dev });
    assert(Seq::new(c@.len(), |k: int| candidate_place(c@[k])) =~= skills_server_places(
        exe_dir,
        resource_dir,
        resource_parent,
    ));
    c
}

/// Describes the built-in skills server so it can be offered in Plugin
/// Settings: run with `node` on `entry`, in `cwd`, pointed through
/// `HELIX_PLUGINS_DIR` at the directory `install_awesome_skill` writes to.
///
/// Reported as `enabled: false`: the server exposes `run_command` and
/// `write_file`, so it is opted into deliberately rather than switched on for
/// every model at startup.
pub fn bundled_skills_plugin(entry: String, cwd: Option<String>, plugins_dir: String) -> (p: DiscoveredPlugin)
    ensures
        p.id@ == "helix-skills"@,
        p.name@ == "HELIX Skills"@,
        p.command matches Some(c) && c@ == "node"@,
        p.args matches Some(a) && a@.len() == 1 && a@[0] == entry,
        p.env matches Some(e) && e@.len() == 1 && e@[0].0@ == "HELIX_PLUGINS_DIR"@ && e@[0].1 == plugins_dir,
        p.url is None,
        p.cwd == cwd,
        p.enabled == Some(false),
        p.verified is None,
        p.verified_at is None,
        p.verify_error is None,
{
    let mut args: Vec<String> = Vec::new();
    args.push(entry);
    let mut env: Vec<(String, String)> = Vec::new();
    env.push(("HELIX_PLUGINS_DIR".to_owned(), plugins_dir));
    DiscoveredPlugin {
        id: "helix-skills".to_owned(),
        name: "HELIX Skills".to_owned(),
        command: Some("node".to_owned()),
        args: Some(args),
        env: Some(env),
        url: None,
        cwd,
        enabled: Some(false),
        verified: None,
        verified_at: None,
        verify_error: None,
    }
}

// ---------------------------------------------------------------------------
// Running plugin processes
// ---------------------------------------------------------------------------
/// The running plugin processes, keyed by plugin id.
pub struct ProcessTable<H> {
    entries: Vec<(String, H)>,
}

impl<H> ProcessTable<H> {
    /// The ids in the table, in entry order.
    pub closed spec fn ids(&self) -> Seq<Seq<char>> {
        Seq::new(self.entries@.len(), |k: int| self.entries@[k].0@)
    }

    /// The table as a map from plugin id to process handle.
    pub closed spec fn view_map(&self) -> Map<Seq<char>, H> {
        Map::new(
            |id: Seq<char>| self.ids().contains(id),
            |id: Seq<char>| self.entries@[self.ids().index_of(id)].1,
        )
    }

    /// No id appears twice.
    pub closed spec fn wf(&self) -> bool {
        self.ids().no_duplicates()
    }

    /// An empty table.
    pub fn new() -> (t: ProcessTable<H>)
        ensures
            t.wf(),
            t.view_map() == Map::<Seq<char>, H>::empty(),
    {
        let t = ProcessTable { entries: Vec::new() };
        assert(t.view_map() =~= Map::<Seq<char>, H>::empty());
        t
    }

    /// The index of the entry for `id`.
    fn position(&self, id: &str) -> (r: Option<usize>)
        requires
            self.wf(),
        ensures
            match r {
                Some(i) => i < self.entries@.len() && self.entries@[i as int].0@ == id@,
                None => !self.ids().contains(id@),
            },
    {
        let mut i: usize = 0;
        while i < self.entries.len()
            invariant
                i <= self.entries@.len(),
                forall|k: int| 0 <= k < i ==> #[trigger] self.entries@[k].0@ != id@,
            decreases self.entries.len() - i,
        {
            if str_eq(self.entries[i].0.as_str(), id) {
                return Some(i);
            }
            i += 1;
        }
        proof {
            if self.ids().contains(id@) {
                let k = choose|k: int| 0 <= k < self.ids().len() && self.ids()[k] == id@;
                assert(self.entries@[k].0@ == id@);
            }
        }
        None
    }

    proof fn lemma_index_of(&self, i: int)
        requires
            self.wf(),
            0 <= i < self.entries@.len(),
        ensures
            self.ids().index_of(self.entries@[i].0@) == i,
    {
        let ids = self.ids();
        assert(ids[i] == self.entries@[i].0@);
        ids.index_of_first_ensures(ids[i]);
        let j = ids.index_of(ids[i]);
        assert(ids.contains(ids[i]));
        assert(0 <= j < ids.len() && ids[j] == ids[i]);
    }

    /// The process registered for `id`.
    pub fn get(&self, id: &str) -> (r: Option<&H>)
        requires
            self.wf(),
        ensures
            match r {
                Some(h) => self.view_map().contains_key(id@) && self.view_map()[id@] == *h,
                None => !self.view_map().contains_key(id@),
            },
    {
        match self.position(id) {
            Some(i) => {
                proof {
                    self.lemma_index_of(i as int);
                    assert(self.ids()[i as int] == id@);
                }
                Some(&self.entries[i].1)
            },
            None => None,
        }
    }

    /// Registers `h` for `id`, handing back the process it replaces.
    pub fn insert(&mut self, id: String, h: H) -> (replaced: Option<H>)
        requires
            old(self).wf(),
        ensures
            final(self).wf(),
            final(self).view_map() == old(self).view_map().insert(id@, h),
            match replaced {
                Some(p) => old(self).view_map().contains_key(id@) && old(self).view_map()[id@] == p,
                None => !old(self).view_map().contains_key(id@),
            },
    {
        let ghost old_ids = self.ids();
        let ghost old_map = self.view_map();
        let removed = self.remove(id.as_str());
        let ghost mid = self.ids();
        let ghost mid_map = self.view_map();
        let ghost idv = id@;
        self.entries.push((id, h));
        proof {
            let ids = self.ids();
            assert(ids =~= mid.push(idv));
            assert(!mid.contains(idv)) by {
                assert(!mid_map.contains_key(idv));
            }
            assert forall|a: int, b: int| 0 <= a < b < ids.len() implies ids[a] != ids[b] by {
                if b == ids.len() - 1 {
                    assert(ids[a] == mid[a]);
                }
            }
            assert forall|k: Seq<char>| #[trigger] self.view_map().contains_key(k) == old_map.insert(
                idv,
                h,
            ).contains_key(k) by {
                assert(self.view_map().contains_key(k) == ids.contains(k));
                assert(mid_map.contains_key(k) == mid.contains(k));
                assert(mid_map == old_map.remove(idv));
                if k != idv {
                    assert(ids.contains(k) == mid.contains(k)) by {
                        if ids.contains(k) {
                            let j = choose|j: int| 0 <= j < ids.len() && ids[j] == k;
                            assert(mid[j] == k);
                        }
                        if mid.contains(k) {
                            let j = choose|j: int| 0 <= j < mid.len() && mid[j] == k;
                            assert(ids[j] == k);
                        }
                    }
                } else {
                    assert(ids[ids.len() - 1] == idv);
                }
            }
            assert forall|k: Seq<char>| #[trigger] self.view_map().contains_key(k) implies self.view_map()[k]
                == old_map.insert(idv, h)[k] by {
                assert(ids.contains(k));
                assert(mid_map == old_map.remove(idv));
                if k == idv {
                    self.lemma_index_of((ids.len() - 1) as int);
                    assert(self.view_map()[k] == self.entries@[ids.len() - 1].1);
                } else {
                    let j = choose|j: int| 0 <= j < ids.len() && ids[j] == k;
                    self.lemma_index_of(j);
                    assert(j < mid.len());
                    assert(mid[j] == k);
                    assert(mid.contains(k));
                    assert(mid_map.contains_key(k));
                    assert(mid.index_of(k) == j) by {
                        mid.index_of_first_ensures(k);
                        assert(mid.no_duplicates());
                    }
                    assert(self.view_map()[k] == self.entries@[j].1);
                    assert(mid_map[k] == old_map[k]);
                }
            }
            assert(self.view_map() =~= old_map.insert(idv, h));
        }
        removed
    }

    /// Unregisters `id`, handing back its process.
    pub fn remove(&mut self, id: &str) -> (removed: Option<H>)
        requires
            old(self).wf(),
        ensures
            final(self).wf(),
            final(self).view_map() == old(self).view_map().remove(id@),
            match removed {
                Some(p) => old(self).view_map().contains_key(id@) && old(self).view_map()[id@] == p,
                None => !old(self).view_map().contains_key(id@),
            },
    {
        let ghost old_map = self.view_map();
        let ghost old_ids = self.ids();
        let ghost old_entries = self.entries@;
        match self.position(id) {
            Some(i) => {
                proof {
                    self.lemma_index_of(i as int);
                    assert(old_ids[i as int] == id@);
                    assert(old_ids.contains(id@));
                    assert(old_map.contains_key(id@));
                    assert(old_map[id@] == old_entries[i as int].1);
                }
                let (_, h) = self.entries.remove(i);
                proof {
                    let ids = self.ids();
                    assert(ids =~= old_ids.remove(i as int));
                    assert forall|a: int, b: int| 0 <= a < b < ids.len() implies ids[a] != ids[b] by {
                        let oa = if a < i { a } else { a + 1 };
                        let ob = if b < i { b } else { b + 1 };
                        assert(ids[a] == old_ids[oa]);
                        assert(ids[b] == old_ids[ob]);
                    }
                    assert forall|k: Seq<char>| #[trigger] self.view_map().contains_key(k) == old_map.remove(
                        id@,
                    ).contains_key(k) by {
                        if ids.contains(k) {
                            let j = choose|j: int| 0 <= j < ids.len() && ids[j] == k;
                            let oj = if j < i { j } else { j + 1 };
                            assert(old_ids[oj] == k);
                            assert(k != id@);
                        }
                        if k != id@ && old_ids.contains(k) {
                            let j = choose|j: int| 0 <= j < old_ids.len() && old_ids[j] == k;
                            assert(j != i);
                            let nj = if j < i { j } else { j - 1 };
                            assert(ids[nj] == k);
                        }
                    }
                    assert forall|k: Seq<char>| #[trigger] self.view_map().contains_key(k) implies self.view_map()[k]
                        == old_map.remove(id@)[k] by {
                        let j = choose|j: int| 0 <= j < ids.len() && ids[j] == k;
                        self.lemma_index_of(j);
                        let oj = if j < i { j } else { j + 1 };
                        assert(old_ids[oj] == k);
                        assert(old_ids.index_of(old_entries[oj].0@) == oj) by {
                            old_ids.index_of_first_ensures(old_ids[oj]);
                            assert(old_ids.contains(old_ids[oj]));
                        }
                        assert(self.entries@[j] == old_entries[oj]);
                    }
                    assert(self.view_map() =~= old_map.remove(id@));
                }
                Some(h)
            },
            None => {
                assert(self.view_map() =~= old_map.remove(id@));
                None
            },
        }
    }
}

/// Inserting then looking up an id gives back what was inserted, and other
/// ids keep their processes; removing an id leaves it absent.
pub proof fn lemma_process_table_laws<H>(m: Map<Seq<char>, H>, id: Seq<char>, other: Seq<char>, h: H)
    requires
        id != other,
    ensures
        m.insert(id, h).contains_key(id) && m.insert(id, h)[id] == h,
        m.insert(id, h).contains_key(other) == m.contains_key(other),
        m.contains_key(other) ==> m.insert(id, h)[other] == m[other],
        !m.remove(id).contains_key(id),
        m.remove(id).contains_key(other) == m.contains_key(other),
{
}

/// What is written to a plugin's stdin for one JSON-RPC message: the
/// message and a line break.
pub fn stdin_payload(message: &str) -> (p: String)
    ensures
        p@ == message@ + seq!['\n'],
{
    let mut p = String::new();
    push_str(&mut p, message);
    crate::text::push_char(&mut p, '\n');
    p
}

/// The error for a plugin id with no running process.
pub fn process_not_found(plugin_id: &str) -> (m: String)
    ensures
        m@ == "Process "@ + plugin_id@ + " not found"@,
{
    let mut m = String::new();
    push_str(&mut m, "Process ");
    push_str(&mut m, plugin_id);
    push_str(&mut m, " not found");
    m
}

/// The error for a plugin process whose stdin is not available.
pub fn process_has_no_stdin(plugin_id: &str) -> (m: String)
    ensures
        m@ == "Process "@ + plugin_id@ + " has no stdin"@,
{
    let mut m = String::new();
    push_str(&mut m, "Process ");
    push_str(&mut m, plugin_id);
    push_str(&mut m, " has no stdin");
    m
}


// ---------------------------------------------------------------------------
// GitHub sources
// ---------------------------------------------------------------------------
/// The parts of a parsed URL the installer reads: the scheme, the host, and
/// the `/`-separated path segments (absent for cannot-be-a-base URLs).
pub struct UrlParts {
    pub scheme: String,
    pub host: Option<String>,
    pub segments: Option<Vec<String>>,
}

/// What `url::Url::parse` makes of a text: its scheme, host and path
/// segments, or the text of its parse error.
pub uninterp spec fn url_parse_result(text: Seq<char>) -> Result<
    (Seq<char>, Option<Seq<char>>, Option<Seq<Seq<char>>>),
    Seq<char>,
>;

/// The views of a list of strings.
pub open spec fn string_views(v: Seq<String>) -> Seq<Seq<char>> {
    Seq::new(v.len(), |k: int| v[k]@)
}

/// The plain form of parsed URL parts.
pub open spec fn url_parts_view(p: UrlParts) -> (Seq<char>, Option<Seq<char>>, Option<Seq<Seq<char>>>) {
    (
        p.scheme@,
        match p.host {
            Some(h) => Some(h@),
            None => None,
        },
        match p.segments {
            Some(s) => Some(string_views(s@)),
            None => None,
        },
    )
}

/// Parses an absolute URL with `reqwest::Url::parse` (the `url` crate) and
/// reads its scheme (`Url::scheme`), host (`Url::host_str`) and path
/// segments (`Url::path_segments`). The contract claims only that the result
/// is the named function of the text; what URL parsing does is the crate's.
#[verifier::external_body]
fn parse_url(text: &str) -> (r: Result<UrlParts, String>)
    ensures
        match r {
            Ok(p) => url_parse_result(text@) == Ok::<_, Seq<char>>(url_parts_view(p)),
            Err(e) => url_parse_result(text@) == Err::<(Seq<char>, Option<Seq<char>>, Option<Seq<Seq<char>>>), _>(e@),
        },
{
    match reqwest::Url::parse(text) {
        Ok(u) => Ok(UrlParts {
            scheme: u.scheme().to_string(),
            host: u.host_str().map(|h| h.to_string()),
            segments: u.path_segments().map(|parts| parts.map(|part| part.to_string()).collect()),
        }),
        Err(e) => Err(e.to_string()),
    }
}

/// Where a plugin's code lives on GitHub: the repository, the URL to clone,
/// and, for `tree`/`blob` links, the branch and the folder inside it.
pub struct GitHubSource {
    pub owner: String,
    pub repo: String,
    pub clone_url: String,
    pub branch: Option<String>,
    pub subdir: Option<Vec<String>>,
}

/// A parsed URL as plain text: scheme, host and path segments, or the text
/// of the parse error.
pub open spec fn parsed_view(parsed: Result<UrlParts, String>) -> Result<
    (Seq<char>, Option<Seq<char>>, Option<Seq<Seq<char>>>),
    Seq<char>,
> {
    match parsed {
        Ok(p) => Ok(url_parts_view(p)),
        Err(e) => Err(e@),
    }
}

/// The outcome of reading a plugin URL, as plain text: owner, repo, clone
/// URL, branch and folder segments, or the error message.
pub open spec fn github_source_of(url: Seq<char>) -> Result<
    (Seq<char>, Seq<char>, Seq<char>, Option<Seq<char>>, Option<Seq<Seq<char>>>),
    Seq<char>,
> {
    github_source_from(url_parse_result(url))
}

/// The GitHub source a parsed plugin URL names (see `github_source_of`).
pub open spec fn github_source_from(
    parsed: Result<(Seq<char>, Option<Seq<char>>, Option<Seq<Seq<char>>>), Seq<char>>,
) -> Result<
    (Seq<char>, Seq<char>, Seq<char>, Option<Seq<char>>, Option<Seq<Seq<char>>>),
    Seq<char>,
> {
    match parsed {
        Err(e) => Err("Invalid GitHub URL: "@ + e),
        Ok((scheme, host, segs)) => if scheme != "https"@ || host != Some("github.com"@) {
            Err("Only HTTPS github.com plugin URLs are supported."@)
        } else {
            let s = match segs {
                Some(v) => Seq::new(v.len(), |k: int| crate::text::strip_suffixes(v[k], ".git"@)),
                None => Seq::empty(),
            };
            if s.len() < 2 {
                Err("GitHub URL must include an owner and repository."@)
            } else {
                let clone = "https://github.com/"@ + s[0] + "/"@ + s[1] + ".git"@;
                if s.len() >= 5 && (s[2] == "tree"@ || s[2] == "blob"@) {
                    Ok((s[0], s[1], clone, Some(s[3]), Some(s.skip(4))))
                } else {
                    Ok((s[0], s[1], clone, None, None))
                }
            }
        },
    }
}

/// The plain form of a GitHub source.
pub open spec fn github_source_view(g: GitHubSource) -> (
    Seq<char>,
    Seq<char>,
    Seq<char>,
    Option<Seq<char>>,
    Option<Seq<Seq<char>>>,
) {
    (
        g.owner@,
        g.repo@,
        g.clone_url@,
        match g.branch {
            Some(b) => Some(b@),
            None => None,
        },
        match g.subdir {
            Some(d) => Some(string_views(d@)),
            None => None,
        },
    )
}

/// `s` with every trailing `.git` removed.
fn strip_git(s: &str) -> (r: String)
    ensures
        r@ == crate::text::strip_suffixes(s@, ".git"@),
{
    let v = crate::text::chars_of(s);
    let git = crate::text::chars_of(".git");
    proof {
        reveal_strlit(".git");
    }
    let n = crate::text::strip_suffixes_len(&v, v.len(), &git);
    assert(v@.take(v@.len() as int) =~= v@);
    let r = crate::text::string_of_range(&v, 0, n);
    assert(v@.subrange(0, n as int) =~= v@.take(n as int));
    r
}

/// Reads a plugin URL: only `https://github.com/<owner>/<repo>` links are
/// accepted (with `.git` trimmed from each path segment); a
/// `/tree/<branch>/<folder…>` or `/blob/<branch>/<folder…>` link also names
/// the branch and the folder the plugin lives in.
pub fn normalize_github_source(url: &str) -> (r: Result<GitHubSource, String>)
    ensures
        match r {
            Ok(g) => github_source_of(url@) == Ok::<_, Seq<char>>(github_source_view(g)),
            Err(e) => github_source_of(url@) == Err::<(Seq<char>, Seq<char>, Seq<char>, Option<Seq<char>>, Option<Seq<Seq<char>>>), _>(e@),
        },
{
    github_source_from_parts(parse_url(url))
}

/// The GitHub source a parsed plugin URL names (see `github_source_from`):
/// the parse error, a refusal of anything but HTTPS `github.com` links with
/// an owner and a repository, or the source.
pub fn github_source_from_parts(parsed: Result<UrlParts, String>) -> (r: Result<GitHubSource, String>)
    ensures
        match r {
            Ok(g) => github_source_from(parsed_view(parsed)) == Ok::<_, Seq<char>>(github_source_view(g)),
            Err(e) => github_source_from(parsed_view(parsed)) == Err::<(Seq<char>, Seq<char>, Seq<char>, Option<Seq<char>>, Option<Seq<Seq<char>>>), _>(e@),
        },
{
    let parts = match parsed {
        Ok(p) => p,
        Err(e) => {
            let mut m = String::new();
            push_str(&mut m, "Invalid GitHub URL: ");
            push_str(&mut m, e.as_str());
            return Err(m);
        },
    };
    let https = str_eq(parts.scheme.as_str(), "https");
    let github = match &parts.host {
        Some(h) => str_eq(h.as_str(), "github.com"),
        None => false,
    };
    if !https || !github {
        return Err("Only HTTPS github.com plugin URLs are supported.".to_owned());
    }
    let mut segments: Vec<String> = Vec::new();
    let ghost segs_view = url_parts_view(parts).2;
    match &parts.segments {
        Some(v) => {
            let mut k: usize = 0;
            while k < v.len()
                invariant
                    k <= v.len(),
                    segments@.len() == k,
                    forall|q: int| 0 <= q < k ==> #[trigger] segments@[q]@ == crate::text::strip_suffixes(
                        v@[q]@,
                        ".git"@,
                    ),
                decreases v.len() - k,
            {
                segments.push(strip_git(v[k].as_str()));
                k += 1;
            }
        },
        None => {},
    }
    let ghost s = string_views(segments@);
    proof {
        match parts.segments {
            Some(v) => {
                assert(s =~= Seq::new(string_views(v@).len(), |k: int| crate::text::strip_suffixes(string_views(v@)[k], ".git"@)));
            },
            None => {
                assert(s =~= Seq::<Seq<char>>::empty());
            },
        }
    }
    if segments.len() < 2 {
        return Err("GitHub URL must include an owner and repository.".to_owned());
    }
    let owner = segments[0].clone();
    let repo = segments[1].clone();
    let mut clone_url = String::new();
    push_str(&mut clone_url, "https://github.com/");
    push_str(&mut clone_url, owner.as_str());
    push_str(&mut clone_url, "/");
    push_str(&mut clone_url, repo.as_str());
    push_str(&mut clone_url, ".git");
    assert(segments@[0]@ == s[0] && segments@[1]@ == s[1]);
    if segments.len() >= 5 && (str_eq(segments[2].as_str(), "tree") || str_eq(segments[2].as_str(), "blob")) {
        assert(segments@[2]@ == s[2]);
        let branch = segments[3].clone();
        assert(segments@[3]@ == s[3]);
        let subdir = segments.split_off(4);
        assert(string_views(subdir@) =~= s.skip(4));
        return Ok(GitHubSource { owner, repo, clone_url, branch: Some(branch), subdir: Some(subdir) });
    }
    proof {
        if s.len() >= 5 {
            assert(segments@[2]@ == s[2]);
        }
    }
    Ok(GitHubSource { owner, repo, clone_url, branch: None, subdir: None })
}

/// The GitHub API address of a repository's zipball at `branch`, or at
/// `HEAD` when no branch is named.
pub fn zipball_url(owner: &str, repo: &str, branch: Option<&str>) -> (u: String)
    ensures
        u@ == "https://api.github.com/repos/"@ + owner@ + "/"@ + repo@ + "/zipball/"@ + match branch {
            Some(b) => b@,
            None => "HEAD"@,
        },
{
    let mut u = String::new();
    push_str(&mut u, "https://api.github.com/repos/");
    push_str(&mut u, owner);
    push_str(&mut u, "/");
    push_str(&mut u, repo);
    push_str(&mut u, "/zipball/");
    match branch {
        Some(b) => push_str(&mut u, b),
        None => push_str(&mut u, "HEAD"),
    }
    u
}

/// Where a zipball entry is extracted, given its path components: the
/// components after the archive's top-level folder, or `None` for that
/// folder itself.
pub fn zipball_entry_path(components: Vec<String>) -> (r: Option<Vec<String>>)
    ensures
        components@.len() <= 1 ==> r is None,
        components@.len() > 1 ==> (r matches Some(p) && p@ == components@.skip(1)),
{
    if components.len() <= 1 {
        return None;
    }
    let mut c = components;
    let ghost all = c@;
    c.remove(0);
    assert(c@ =~= all.skip(1));
    Some(c)
}

// ---------------------------------------------------------------------------
// Installing a plugin
// ---------------------------------------------------------------------------
/// `a` and `b` are equal up to ASCII case.
pub open spec fn eq_ignore_ascii_case(a: Seq<char>, b: Seq<char>) -> bool {
    a.len() == b.len() && forall|k: int|
        0 <= k < a.len() ==> crate::text::ascii_lower(#[trigger] a[k]) == crate::text::ascii_lower(b[k])
}

/// Whether a directory entry is a `SKILL.md` file name (any ASCII case).
pub fn is_skill_file_name(name: &str) -> (b: bool)
    ensures
        b == eq_ignore_ascii_case(name@, "skill.md"@),
{
    let v = crate::text::chars_of(name);
    let t = crate::text::chars_of("skill.md");
    if v.len() != t.len() {
        return false;
    }
    let mut k: usize = 0;
    while k < v.len()
        invariant
            k <= v.len() == t.len(),
            t@ == "skill.md"@,
            v@ == name@,
            forall|q: int| 0 <= q < k ==> crate::text::ascii_lower(#[trigger] v@[q]) == crate::text::ascii_lower(t@[q]),
        decreases v.len() - k,
    {
        if crate::text::char_ascii_lower(v[k]) != crate::text::char_ascii_lower(t[k]) {
            return false;
        }
        k += 1;
    }
    true
}

/// Whether the search for `SKILL.md` files skips a directory entry: the
/// repository's `.git` and installed `node_modules`.
pub fn skips_in_skill_search(name: &str) -> (b: bool)
    ensures
        b == (name@ == ".git"@ || name@ == "node_modules"@),
{
    str_eq(name, ".git") || str_eq(name, "node_modules")
}

/// How an installed plugin is started.
pub enum PluginLaunch {
    /// `node` on the script at this path inside the plugin folder.
    NodeScript(String),
    /// `npx -y .` in the plugin folder.
    Npx,
}

/// The first member value of an object, when `v` is a non-empty object.
pub open spec fn first_member_value(v: JsonValue) -> Option<JsonValue> {
    match v {
        JsonValue::Object(m) => if m@.len() > 0 {
            Some(m@[0].value)
        } else {
            None
        },
        _ => None,
    }
}

/// The script a `package.json` declares through `bin`: the string itself,
/// or the first entry of a `bin` object, and empty when neither is a string.
pub open spec fn bin_script(bin: JsonValue) -> Seq<char> {
    match json_as_str(bin) {
        Some(s) => s,
        None => match first_member_value(bin) {
            Some(f) => match json_as_str(f) {
                Some(s) => s,
                None => Seq::empty(),
            },
            None => Seq::empty(),
        },
    }
}

/// How a plugin with this `package.json` is started: its `bin` script (an
/// error when that names nothing), else its `main` script, else `npx -y .`.
pub fn package_launch(pkg: &JsonValue) -> (r: Result<PluginLaunch, String>)
    ensures
        match json_get(*pkg, "bin"@) {
            Some(bin) => if bin_script(bin).len() == 0 {
                r matches Err(e) && e@ == "package.json has no runnable bin entry."@
            } else {
                r matches Ok(PluginLaunch::NodeScript(p)) && p@ == bin_script(bin)
            },
            None => match json_get(*pkg, "main"@) {
                Some(m) => match json_as_str(m) {
                    Some(s) => r matches Ok(PluginLaunch::NodeScript(p)) && p@ == s,
                    None => r matches Ok(PluginLaunch::Npx),
                },
                None => r matches Ok(PluginLaunch::Npx),
            },
        },
{
    match pkg.get("bin") {
        Some(bin) => {
            let path = match bin.as_str() {
                Some(s) => s.to_owned(),
                None => match bin {
                    JsonValue::Object(members) => {
                        if members.len() > 0 {
                            match members[0].value.as_str() {
                                Some(s) => s.to_owned(),
                                None => String::new(),
                            }
                        } else {
                            String::new()
                        }
                    },
                    _ => String::new(),
                },
            };
            if path.as_str().is_empty() {
                Err("package.json has no runnable bin entry.".to_owned())
            } else {
                Ok(PluginLaunch::NodeScript(path))
            }
        },
        None => match pkg.get("main") {
            Some(m) => match m.as_str() {
                Some(s) => Ok(PluginLaunch::NodeScript(s.to_owned())),
                None => Ok(PluginLaunch::Npx),
            },
            None => Ok(PluginLaunch::Npx),
        },
    }
}

/// What an installed repository is run as.
pub enum PluginEntry {
    /// Its `SKILL.md` files, served through the generated Node.js wrapper.
    ConvertedSkills,
    /// Its npm package, started as `package_launch` says.
    Package(PluginLaunch),
}

/// How an installed repository is run: through the skill wrapper when it
/// holds `SKILL.md` files; otherwise as its npm package, given `package`,
/// the decoded `package.json` or the reason it could not be read (`None`
/// when there is no `package.json`); and an error when it has neither.
pub fn plugin_entry(has_skill_files: bool, package: Option<Result<&JsonValue, String>>) -> (r: Result<
    PluginEntry,
    String,
>)
    ensures
        has_skill_files ==> r matches Ok(PluginEntry::ConvertedSkills),
        !has_skill_files ==> match package {
            None => r matches Err(e) && e@
                == "This repository does not expose package.json or any SKILL.md files to convert."@,
            Some(Err(e)) => r == Err::<PluginEntry, String>(e),
            Some(Ok(pkg)) => match json_get(*pkg, "bin"@) {
                Some(bin) => if bin_script(bin).len() == 0 {
                    r matches Err(e) && e@ == "package.json has no runnable bin entry."@
                } else {
                    r matches Ok(PluginEntry::Package(PluginLaunch::NodeScript(p))) && p@ == bin_script(bin)
                },
                None => match json_get(*pkg, "main"@) {
                    Some(m) => match json_as_str(m) {
                        Some(s) => r matches Ok(PluginEntry::Package(PluginLaunch::NodeScript(p))) && p@ == s,
                        None => r matches Ok(PluginEntry::Package(PluginLaunch::Npx)),
                    },
                    None => r matches Ok(PluginEntry::Package(PluginLaunch::Npx)),
                },
            },
        },
{
    if has_skill_files {
        return Ok(PluginEntry::ConvertedSkills);
    }
    match package {
        None => Err("This repository does not expose package.json or any SKILL.md files to convert.".to_owned()),
        Some(Err(e)) => Err(e),
        Some(Ok(pkg)) => match package_launch(pkg) {
            Ok(launch) => Ok(PluginEntry::Package(launch)),
            Err(e) => Err(e),
        },
    }
}

/// Whether a `package.json` declares a `build` script (`/scripts/build`).
pub fn has_build_script(pkg: &JsonValue) -> (b: bool)
    ensures
        b == (match json_get(*pkg, "scripts"@) {
            Some(s) => json_get(s, "build"@) is Some,
            None => false,
        }),
{
    match pkg.get("scripts") {
        Some(s) => s.get("build").is_some(),
        None => false,
    }
}

/// The plugin an install produces: id `awesome_<folder>`, enabled, started
/// with `command` and `args` in `plugin_dir`, and marked verified or not,
/// at `checked_at`, by the result of the verification run.
pub fn installed_plugin(
    name: String,
    folder: &str,
    command: String,
    args: Vec<String>,
    plugin_dir: String,
    verification: Result<(), String>,
    checked_at: String,
) -> (p: DiscoveredPlugin)
    ensures
        p.id@ == "awesome_"@ + folder@,
        p.name == name,
        p.command == Some(command),
        p.args == Some(args),
        p.env is None,
        p.url is None,
        p.cwd == Some(plugin_dir),
        p.enabled == Some(true),
        p.verified == Some(verification is Ok),
        p.verified_at == Some(checked_at),
        match verification {
            Ok(_) => p.verify_error is None,
            Err(e) => p.verify_error == Some(e),
        },
{
    let mut id = String::new();
    push_str(&mut id, "awesome_");
    push_str(&mut id, folder);
    let (verified, verify_error) = match verification {
        Ok(_) => (true, None),
        Err(e) => (false, Some(e)),
    };
    DiscoveredPlugin {
        id,
        name,
        command: Some(command),
        args: Some(args),
        env: None,
        url: None,
        cwd: Some(plugin_dir),
        enabled: Some(true),
        verified: Some(verified),
        verified_at: Some(checked_at),
        verify_error,
    }
}

// ---------------------------------------------------------------------------
// Verifying a plugin
// ---------------------------------------------------------------------------
/// What one line of a plugin's stdout says to the verifier.
pub enum VerifierReply {
    /// The reply to `tools/list` (id 2), with the names of the tools listed.
    Tools(Vec<String>),
    /// A JSON-RPC error.
    Error,
    /// Anything else.
    Other,
}

/// The names of the tools in a `tools/list` result, in order.
pub open spec fn tool_names(items: Seq<JsonValue>) -> Seq<Seq<char>>
    decreases items.len(),
{
    if items.len() == 0 {
        Seq::empty()
    } else {
        let rest = tool_names(items.drop_last());
        match json_get(items.last(), "name"@) {
            Some(n) => match json_as_str(n) {
                Some(s) => rest.push(s),
                None => rest,
            },
            None => rest,
        }
    }
}

/// The tools of `/result/tools` in a reply, when it is an array.
pub open spec fn reply_tools(v: JsonValue) -> Seq<Seq<char>> {
    match json_get(v, "result"@) {
        Some(r) => match json_get(r, "tools"@) {
            Some(JsonValue::Array(items)) => tool_names(items@),
            _ => Seq::empty(),
        },
        None => Seq::empty(),
    }
}

/// A reply with id 2 answers `tools/list`.
pub open spec fn is_tools_reply(v: JsonValue) -> bool {
    json_get(v, "id"@) matches Some(JsonValue::Number(n)) && n.as_i64 == Some(2i64)
}

/// Reads one decoded line of a plugin's stdout: the reply with id 2 lists
/// the tools; a line with an `error` member is a JSON-RPC error; other lines
/// are skipped.
pub fn verifier_reply(v: &JsonValue) -> (r: VerifierReply)
    ensures
        is_tools_reply(*v) ==> (r matches VerifierReply::Tools(names) && string_views(names@) == reply_tools(*v)),
        !is_tools_reply(*v) && json_get(*v, "error"@) is Some ==> r is Error,
        !is_tools_reply(*v) && json_get(*v, "error"@) is None ==> r is Other,
{
    let is_two = match v.get("id") {
        Some(JsonValue::Number(n)) => match n.as_i64 {
            Some(x) => x == 2,
            None => false,
        },
        _ => false,
    };
    if is_two {
        let mut names: Vec<String> = Vec::new();
        match v.get("result") {
            Some(r) => match r.get("tools") {
                Some(JsonValue::Array(items)) => {
                    let mut k: usize = 0;
                    while k < items.len()
                        invariant
                            k <= items.len(),
                            string_views(names@) == tool_names(items@.take(k as int)),
                        decreases items.len() - k,
                    {
                        assert(items@.take(k + 1).drop_last() =~= items@.take(k as int));
                        match items[k].get("name") {
                            Some(n) => match n.as_str() {
                                Some(s) => {
                                    names.push(s.to_owned());
                                    assert(string_views(names@) =~= tool_names(items@.take(k + 1)));
                                },
                                None => {},
                            },
                            None => {},
                        }
                        k += 1;
                    }
                    assert(items@.take(items@.len() as int) =~= items@);
                },
                _ => {},
            },
            None => {},
        }
        assert(string_views(names@) =~= reply_tools(*v));
        VerifierReply::Tools(names)
    } else if v.get("error").is_some() {
        VerifierReply::Error
    } else {
        VerifierReply::Other
    }
}

/// The message for a JSON-RPC error reply, given the error's JSON text.
pub fn rpc_error_message(error_json: &str) -> (m: String)
    ensures
        m@ == "Plugin verification JSON-RPC error: "@ + error_json@,
{
    let mut m = String::new();
    push_str(&mut m, "Plugin verification JSON-RPC error: ");
    push_str(&mut m, error_json);
    m
}

/// How reading the plugin's replies ended.
pub enum VerifierRead {
    /// The tools reply arrived, or the plugin's stdout closed.
    Finished,
    /// A JSON-RPC error arrived; its message.
    RpcError(String),
    /// Nothing conclusive within the time allowed.
    TimedOut,
}

/// The outcome of checking a plugin: the tools it lists, or why it fails.
/// `stderr` is what the plugin wrote to stderr, lines joined.
pub fn verification_outcome(read: VerifierRead, tools: Vec<String>, stderr: &str) -> (r: Result<Vec<String>, String>)
    ensures
        match read {
            VerifierRead::Finished => if tools@.len() > 0 {
                r == Ok::<Vec<String>, String>(tools)
            } else if stderr@.len() == 0 {
                r matches Err(e) && e@ == "Plugin started but returned no tools."@
            } else {
                r matches Err(e) && e@ == "Plugin returned no tools. stderr: "@ + stderr@
            },
            VerifierRead::RpcError(e) => r == Err::<Vec<String>, String>(e),
            VerifierRead::TimedOut => if stderr@.len() == 0 {
                r matches Err(e) && e@ == "Plugin verification timed out."@
            } else {
                r matches Err(e) && e@ == "Plugin verification timed out. stderr: "@ + stderr@
            },
        },
{
    match read {
        VerifierRead::Finished => {
            if tools.len() > 0 {
                Ok(tools)
            } else if stderr.is_empty() {
                Err("Plugin started but returned no tools.".to_owned())
            } else {
                let mut m = String::new();
                push_str(&mut m, "Plugin returned no tools. stderr: ");
                push_str(&mut m, stderr);
                Err(m)
            }
        },
        VerifierRead::RpcError(e) => Err(e),
        VerifierRead::TimedOut => {
            if stderr.is_empty() {
                Err("Plugin verification timed out.".to_owned())
            } else {
                let mut m = String::new();
                push_str(&mut m, "Plugin verification timed out. stderr: ");
                push_str(&mut m, stderr);
                Err(m)
            }
        },
    }
}


// ---------------------------------------------------------------------------
// Node.js tooling for installed plugins
// ---------------------------------------------------------------------------
/// The Node.js programs a plugin install runs.
pub enum NodeTool {
    Node,
    Npm,
    Npx,
}

/// The program name of `tool` on `os`: the `.exe` or `.cmd` launcher on
/// Windows, the bare name elsewhere.
pub fn node_tool_program(os: HostOs, tool: NodeTool) -> (p: &'static str)
    ensures
        p@ == match (os, tool) {
            (HostOs::Windows, NodeTool::Node) => "node.exe"@,
            (HostOs::Windows, NodeTool::Npm) => "npm.cmd"@,
            (HostOs::Windows, NodeTool::Npx) => "npx.cmd"@,
            (_, NodeTool::Node) => "node"@,
            (_, NodeTool::Npm) => "npm"@,
            (_, NodeTool::Npx) => "npx"@,
        },
{
    match (os, tool) {
        (HostOs::Windows, NodeTool::Node) => "node.exe",
        (HostOs::Windows, NodeTool::Npm) => "npm.cmd",
        (HostOs::Windows, NodeTool::Npx) => "npx.cmd",
        (_, NodeTool::Node) => "node",
        (_, NodeTool::Npm) => "npm",
        (_, NodeTool::Npx) => "npx",
    }
}

/// The package name written into a converted skill's `package.json`: the
/// plugin folder's name, or `helix-converted-skill` when it has none.
pub fn skill_package_name(folder_name: Option<&str>) -> (n: String)
    ensures
        n@ == match folder_name {
            Some(f) => f@,
            None => "helix-converted-skill"@,
        },
{
    match folder_name {
        Some(f) => f.to_owned(),
        None => "helix-converted-skill".to_owned(),
    }
}

/// `path` as the body of a double-quoted JavaScript string literal:
/// backslashes doubled first, then double quotes escaped.
pub fn js_string_body(path: &str) -> (r: String)
    ensures
        r@ == replace_all(replace_all(path@, "\\"@, "\\\\"@), "\""@, "\\\""@),
{
    proof {
        reveal_strlit("\\");
        reveal_strlit("\"");
    }
    let doubled = replace_str(path, "\\", "\\\\");
    replace_str(doubled.as_str(), "\"", "\\\"")
}

} // verus!
