//! Standalone llama.cpp engine manager: the decisions behind finding,
//! installing, starting and stopping `llama-server` on localhost:11435.
//!
//! The process handles, the network and the file system stay with the caller;
//! every choice the manager makes about them is made here.

use vstd::prelude::*;
use crate::desktop::{arg_views, invokes, push_arg, Invocation};
use crate::text::{
    chars_of, contains, ends_with, ends_with_str, find, find_chars_from, find_from, push_decimal, push_str,
    starts_with, starts_with_str, str_eq, trim, trim_str,
};

verus! {

/// The port `llama-server` listens on.
pub const SERVER_PORT: u16 = 11435;

/// The operating system the app runs on.
pub enum HostOs {
    Windows,
    MacOs,
    Linux,
    Other,
}

/// The suffix of the llama.cpp release asset built for this platform.
pub open spec fn asset_suffix(os: HostOs, x86_64: bool) -> Seq<char> {
    match os {
        HostOs::Windows => if x86_64 {
            "bin-win-vulkan-x64.zip"@
        } else {
            "bin-win-arm64.zip"@
        },
        HostOs::MacOs => "bin-macos-arm64.zip"@,
        _ => "bin-ubuntu-x64.zip"@,
    }
}

/// The release asset suffix for this platform: the Vulkan build on Windows
/// x86_64 (it works on NVIDIA, AMD and Intel), the ARM build on other
/// Windows machines, the Apple Silicon build on macOS, and the Ubuntu x86_64
/// build everywhere else.
pub fn pick_asset_suffix(os: HostOs, x86_64: bool) -> (s: &'static str)
    ensures
        s@ == asset_suffix(os, x86_64),
{
    match os {
        HostOs::Windows => if x86_64 {
            "bin-win-vulkan-x64.zip"
        } else {
            "bin-win-arm64.zip"
        },
        HostOs::MacOs => "bin-macos-arm64.zip",
        _ => "bin-ubuntu-x64.zip",
    }
}

/// The file name of the engine binary.
pub fn server_binary_name(os: HostOs) -> (s: &'static str)
    ensures
        s@ == (if os is Windows {
            "llama-server.exe"@
        } else {
            "llama-server"@
        }),
{
    match os {
        HostOs::Windows => "llama-server.exe",
        _ => "llama-server",
    }
}

// ---------------------------------------------------------------------------
// Releases
// ---------------------------------------------------------------------------
/// A downloadable file of a GitHub release.
pub struct GithubAsset {
    pub name: String,
    pub browser_download_url: String,
}

/// A GitHub release with its assets.
pub struct GithubRelease {
    pub tag_name: String,
    pub assets: Vec<GithubAsset>,
}

/// The first asset at or after index `i` whose name ends in `suffix`.
pub open spec fn first_asset_from(assets: Seq<GithubAsset>, suffix: Seq<char>, i: int) -> Option<int>
    decreases assets.len() - i,
{
    if i < 0 || i >= assets.len() {
        None
    } else if ends_with(assets[i].name@, suffix) {
        Some(i)
    } else {
        first_asset_from(assets, suffix, i + 1)
    }
}

/// The first release at or after index `i` that publishes an asset ending in
/// `suffix`, with the index of that asset.
pub open spec fn first_release_from(releases: Seq<GithubRelease>, suffix: Seq<char>, i: int) -> Option<
    (int, int),
>
    decreases releases.len() - i,
{
    if i < 0 || i >= releases.len() {
        None
    } else {
        match first_asset_from(releases[i].assets@, suffix, 0) {
            Some(a) => Some((i, a)),
            None => first_release_from(releases, suffix, i + 1),
        }
    }
}

/// The asset found is the first one from `i` on that ends in `suffix`.
proof fn lemma_first_asset_from(assets: Seq<GithubAsset>, suffix: Seq<char>, i: int)
    requires
        0 <= i,
    ensures
        match first_asset_from(assets, suffix, i) {
            Some(a) => i <= a < assets.len() && ends_with(assets[a].name@, suffix) && forall|k: int|
                i <= k < a ==> !ends_with(#[trigger] assets[k].name@, suffix),
            None => forall|k: int| i <= k < assets.len() ==> !ends_with(#[trigger] assets[k].name@, suffix),
        },
    decreases assets.len() - i,
{
    if i < assets.len() && !ends_with(assets[i].name@, suffix) {
        lemma_first_asset_from(assets, suffix, i + 1);
    }
}

/// Releases whose platform asset has not been uploaded yet are skipped: the
/// release chosen publishes an asset ending in `suffix` (the first such
/// asset is taken), and no earlier release publishes one. When none is
/// chosen, no release publishes one.
pub proof fn lemma_first_release_from(releases: Seq<GithubRelease>, suffix: Seq<char>, i: int)
    requires
        0 <= i,
    ensures
        match first_release_from(releases, suffix, i) {
            Some((r, a)) => {
                &&& i <= r < releases.len()
                &&& 0 <= a < releases[r].assets@.len()
                &&& ends_with(releases[r].assets@[a].name@, suffix)
                &&& forall|k: int| 0 <= k < a ==> !ends_with(#[trigger] releases[r].assets@[k].name@, suffix)
                &&& forall|j: int, k: int|
                    i <= j < r && 0 <= k < releases[j].assets@.len() ==> !ends_with(
                        #[trigger] releases[j].assets@[k].name@,
                        suffix,
                    )
            },
            None => forall|j: int, k: int|
                i <= j < releases.len() && 0 <= k < releases[j].assets@.len() ==> !ends_with(
                    #[trigger] releases[j].assets@[k].name@,
                    suffix,
                ),
        },
    decreases releases.len() - i,
{
    if i < releases.len() {
        lemma_first_asset_from(releases[i].assets@, suffix, 0);
        if first_asset_from(releases[i].assets@, suffix, 0) is None {
            lemma_first_release_from(releases, suffix, i + 1);
        }
    }
}

/// First release that publishes an asset ending in `suffix`: its tag, and the
/// name and download URL of its first such asset.
///
/// Split out from the network call so the "skip incomplete releases" rule can
/// be tested without GitHub.
pub fn pick_release(releases: Vec<GithubRelease>, suffix: &str) -> (r: Option<(String, String, String)>)
    ensures
        match first_release_from(releases@, suffix@, 0) {
            Some((ri, ai)) => r matches Some(t) && t.0@ == releases@[ri].tag_name@ && t.1@
                == releases@[ri].assets@[ai].name@ && t.2@
                == releases@[ri].assets@[ai].browser_download_url@,
            None => r is None,
        },
{
    let mut i: usize = 0;
    while i < releases.len()
        invariant
            i <= releases.len(),
            first_release_from(releases@, suffix@, 0) == first_release_from(releases@, suffix@, i as int),
        decreases releases.len() - i,
    {
        let release = &releases[i];
        let mut j: usize = 0;
        while j < release.assets.len()
            invariant
                i < releases.len(),
                *release == releases@[i as int],
                first_release_from(releases@, suffix@, 0) == first_release_from(releases@, suffix@, i as int),
                j <= release.assets.len(),
                first_asset_from(release.assets@, suffix@, 0) == first_asset_from(
                    release.assets@,
                    suffix@,
                    j as int,
                ),
            decreases release.assets.len() - j,
        {
            let asset = &release.assets[j];
            if ends_with_str(asset.name.as_str(), suffix) {
                return Some((release.tag_name.clone(), asset.name.clone(), asset.browser_download_url.clone()));
            }
            j += 1;
        }
        i += 1;
    }
    None
}

// ---------------------------------------------------------------------------
// Engine files
// ---------------------------------------------------------------------------
/// The Unicode lowercase mapping of a string.
pub uninterp spec fn unicode_lowercase(s: Seq<char>) -> Seq<char>;

/// `str::to_lowercase`: the full Unicode lowercase mapping of `s`.
#[verifier::external_body]
fn to_lowercase(s: &str) -> (l: String)
    ensures
        l@ == unicode_lowercase(s@),
{
    s.to_lowercase()
}

/// The index of the last `'.'` in `s` at or before `i - 1`.
pub open spec fn last_dot_before(s: Seq<char>, i: int) -> Option<int>
    decreases i,
{
    if i <= 0 || i > s.len() {
        None
    } else if s[i - 1] == '.' {
        Some(i - 1)
    } else {
        last_dot_before(s, i - 1)
    }
}

/// The extension of a file name (`Path::extension`): what follows its last
/// dot, when that dot is not its first character and the name is not `..`.
pub open spec fn extension(name: Seq<char>) -> Option<Seq<char>> {
    if name == ".."@ {
        None
    } else {
        match last_dot_before(name, name.len() as int) {
            Some(d) => if d == 0 {
                None
            } else {
                Some(name.skip(d + 1))
            },
            None => None,
        }
    }
}

/// A file the engine owns: the server itself, or a shared library.
pub open spec fn engine_artifact(name: Seq<char>) -> bool {
    ||| starts_with(name, "llama-server"@)
    ||| extension(name) == Some("dll"@)
    ||| extension(name) == Some("so"@)
    ||| extension(name) == Some("dylib"@)
}

/// The extension of a file name.
fn file_extension(name: &str) -> (r: Option<String>)
    ensures
        match r {
            Some(e) => extension(name@) == Some(e@),
            None => extension(name@) is None,
        },
{
    if str_eq(name, "..") {
        return None;
    }
    let v = chars_of(name);
    let mut i = v.len();
    while i > 0 && v[i - 1] != '.'
        invariant
            i <= v.len(),
            v@ == name@,
            last_dot_before(name@, name@.len() as int) == last_dot_before(name@, i as int),
        decreases i,
    {
        i -= 1;
    }
    if i <= 1 {
        return None;
    }
    let e = crate::text::string_of_range(&v, i, v.len());
    assert(v@.subrange(i as int, v@.len() as int) =~= name@.skip(i as int));
    Some(e)
}

/// Whether a file from the engine archive belongs in `bin/`.
///
/// The archive carries ~25 tools (`llama-cli`, `llama-bench`, …) and only the
/// server is wanted, plus every shared library, since that is where llama.cpp
/// keeps the actual compute backends. Used both to filter the extraction and to
/// decide what a previous install left behind, so the two can never disagree
/// about which files the engine owns.
///
/// `name` must already be lowercased, and is a single file name.
pub fn is_engine_artifact(name: &str) -> (b: bool)
    ensures
        b == engine_artifact(name@),
{
    if starts_with_str(name, "llama-server") {
        return true;
    }
    match file_extension(name) {
        Some(ext) => str_eq(ext.as_str(), "dll") || str_eq(ext.as_str(), "so") || str_eq(ext.as_str(), "dylib"),
        None => false,
    }
}

/// Whether the sweep before an upgrade deletes a file found in `bin/`: it is
/// engine-owned (judged on its lowercased name) and is not the freshly
/// downloaded archive. `version.txt` and anything else stay.
pub fn sweeps_entry(file_name: &str, is_new_archive: bool) -> (b: bool)
    ensures
        b == (!is_new_archive && engine_artifact(unicode_lowercase(file_name@))),
{
    if is_new_archive {
        return false;
    }
    let lower = to_lowercase(file_name);
    is_engine_artifact(lower.as_str())
}

/// Whether an archive entry is extracted into `bin/`: a file (not a
/// directory) that is engine-owned, judged on its lowercased name.
pub fn extracts_entry(file_name: &str, is_dir: bool) -> (b: bool)
    ensures
        b == (!is_dir && engine_artifact(unicode_lowercase(file_name@))),
{
    if is_dir {
        return false;
    }
    let lower = to_lowercase(file_name);
    is_engine_artifact(lower.as_str())
}

/// Whether the installed engine is already the release `tag`: `version.txt`
/// (trimmed) names it, and the binary is present.
pub fn installed_is_current(recorded_version: &str, tag: &str, binary_present: bool) -> (b: bool)
    ensures
        b == (trim(recorded_version@).len() > 0 && trim(recorded_version@) == tag@ && binary_present),
{
    let v = trim_str(recorded_version);
    !v.as_str().is_empty() && str_eq(v.as_str(), tag) && binary_present
}

// ---------------------------------------------------------------------------
// Starting the server
// ---------------------------------------------------------------------------
/// The index of the first line break at or after `i`, or the length of `s`.
pub open spec fn line_end(s: Seq<char>, i: int) -> int
    decreases s.len() - i,
{
    if i < 0 || i >= s.len() || s[i] == '\n' {
        i
    } else {
        line_end(s, i + 1)
    }
}

/// The first line break at or after `i` lies between `i` and the end.
pub proof fn lemma_line_end(s: Seq<char>, i: int)
    requires
        0 <= i,
    ensures
        i <= line_end(s, i),
        i <= s.len() ==> line_end(s, i) <= s.len(),
        line_end(s, i) < s.len() ==> s[line_end(s, i)] == '\n',
        forall|k: int| i <= k < line_end(s, i) ==> #[trigger] s[k] != '\n',
    decreases s.len() - i,
{
    if i < s.len() && s[i] != '\n' {
        lemma_line_end(s, i + 1);
    }
}

/// The first line of `s` (lines end at `'\n'`) that contains `p`.
pub open spec fn line_containing(s: Seq<char>, p: Seq<char>) -> Option<Seq<char>>
    decreases s.len(),
{
    let e = line_end(s, 0);
    if contains(s.take(e), p) {
        Some(s.take(e))
    } else if e < s.len() {
        proof {
            lemma_line_end(s, 0);
        }
        line_containing(s.skip(e + 1), p)
    } else {
        None
    }
}

/// Whether this `llama-server` build's `-fa` flag takes a value, judged from
/// its `--help` output.
///
/// `-fa` was a plain boolean switch for most of llama.cpp's history and only
/// later became `--flash-attn [on|off|auto]`. The valued form documents its
/// argument as `[on|off|auto]`; the boolean form has nothing between flag and
/// description. Help without a `--flash-attn` line counts as "no value": bare
/// `-fa` is accepted by both spellings, so it is the safe guess.
pub fn help_flash_attn_takes_value(help: &str) -> (b: bool)
    ensures
        b == (line_containing(help@, "--flash-attn"@) matches Some(line) && contains(line, "["@)),
{
    let v = chars_of(help);
    let flag = chars_of("--flash-attn");
    let bracket = chars_of("[");
    let mut start: usize = 0;
    assert(v@.skip(0) =~= v@);
    loop
        invariant
            v@ == help@,
            flag@ == "--flash-attn"@,
            bracket@ == "["@,
            start <= v.len(),
            line_containing(help@, "--flash-attn"@) == line_containing(v@.skip(start as int), flag@),
        decreases v.len() - start,
    {
        let ghost rest = v@.skip(start as int);
        let mut end = start;
        while end < v.len() && v[end] != '\n'
            invariant
                start <= end <= v.len(),
                rest == v@.skip(start as int),
                line_end(rest, 0) == line_end(rest, end - start),
            decreases v.len() - end,
        {
            assert(rest[end - start] == v@[end as int]);
            end += 1;
        }
        proof {
            if end < v.len() {
                assert(rest[end - start] == v@[end as int]);
            }
            assert(line_end(rest, 0) == end - start);
            lemma_line_end(rest, 0);
        }
        let line = crate::text::string_of_range(&v, start, end);
        assert(line@ =~= rest.take(end - start));
        let lv = chars_of(line.as_str());
        if crate::text::find_chars(&lv, &flag).is_some() {
            return crate::text::find_chars(&lv, &bracket).is_some();
        }
        if end == v.len() {
            return false;
        }
        assert(rest.skip(end - start + 1) =~= v@.skip(end + 1));
        start = end + 1;
    }
}

/// The number of threads `llama-server` is given: one fewer than the
/// machine's parallelism (at least one), or four when it is unknown.
pub fn server_threads(parallelism: Option<usize>) -> (t: usize)
    ensures
        t == match parallelism {
            Some(n) => if n > 1 {
                (n - 1) as usize
            } else {
                1usize
            },
            None => 4usize,
        },
{
    match parallelism {
        Some(n) => if n > 1 {
            n - 1
        } else {
            1
        },
        None => 4,
    }
}

/// The command-line flags that follow `-m <model>`: the port, an 8192-token
/// context, batch 2048 / micro-batch 512, `threads` threads, `ngl` layers
/// offloaded to the GPU, one slot, memory-mapped weights, and flash attention
/// (`-fa auto` where the build takes a value, bare `-fa` otherwise).
pub open spec fn server_flags(threads: nat, ngl: nat, fa_takes_value: bool) -> Seq<Seq<char>> {
    seq![
        "--port"@,
        crate::text::decimal(SERVER_PORT as nat),
        "-c"@,
        "8192"@,
        "-b"@,
        "2048"@,
        "-ub"@,
        "512"@,
        "-t"@,
        crate::text::decimal(threads),
        "-ngl"@,
        crate::text::decimal(ngl),
        "-np"@,
        "1"@,
        "--mmap"@,
        "-fa"@,
    ] + if fa_takes_value {
        seq!["auto"@]
    } else {
        Seq::empty()
    }
}

/// The views of a list of strings.
pub open spec fn string_views(v: Seq<String>) -> Seq<Seq<char>> {
    Seq::new(v.len(), |k: int| v[k]@)
}

/// The flags `llama-server` is started with after `-m <model>`.
pub fn llama_server_flags(threads: usize, ngl: u32, fa_takes_value: bool) -> (flags: Vec<String>)
    ensures
        string_views(flags@) == server_flags(threads as nat, ngl as nat, fa_takes_value),
{
    let mut flags: Vec<String> = Vec::new();
    flags.push("--port".to_owned());
    flags.push(crate::text::decimal_string(SERVER_PORT as usize));
    flags.push("-c".to_owned());
    flags.push("8192".to_owned());
    flags.push("-b".to_owned());
    flags.push("2048".to_owned());
    flags.push("-ub".to_owned());
    flags.push("512".to_owned());
    flags.push("-t".to_owned());
    flags.push(crate::text::decimal_string(threads));
    flags.push("-ngl".to_owned());
    flags.push(crate::text::decimal_string(ngl as usize));
    flags.push("-np".to_owned());
    flags.push("1".to_owned());
    flags.push("--mmap".to_owned());
    flags.push("-fa".to_owned());
    if fa_takes_value {
        flags.push("auto".to_owned());
    }
    assert(string_views(flags@) =~= server_flags(threads as nat, ngl as nat, fa_takes_value));
    flags
}


// ---------------------------------------------------------------------------
// The running server
// ---------------------------------------------------------------------------
/// The `llama-server` process this app started, and the model it serves.
pub struct ActiveLlamaServer<C> {
    pub model_path: String,
    pub child: C,
}

/// What to do with the server slot when a chat asks for a model.
pub enum ServerReuse<C> {
    /// The requested model is being served by a live process.
    KeepRunning,
    /// A server must be started; `kill` is a process serving another model,
    /// which must be killed and reaped first.
    Spawn { kill: Option<C> },
}

/// Decides, for a request to serve `model_path`, whether the recorded server
/// can be kept. `same_model` says whether the recorded server serves
/// `model_path` and `running` whether its process is still alive (it is only
/// asked when the model is the same). A live server with the same model is
/// kept; a dead one is forgotten; a server with another model is handed back
/// to be killed. In every case but the first the slot ends up empty.
pub fn reuse_or_replace<C>(slot: &mut Option<ActiveLlamaServer<C>>, same_model: bool, running: bool) -> (r:
    ServerReuse<C>)
    ensures
        match *old(slot) {
            None => r matches ServerReuse::Spawn { kill: None } && *final(slot) is None,
            Some(active) => if same_model && running {
                r is KeepRunning && *final(slot) == *old(slot)
            } else if same_model {
                r matches ServerReuse::Spawn { kill: None } && *final(slot) is None
            } else {
                r matches ServerReuse::Spawn { kill: Some(c) } && c == active.child && *final(slot) is None
            },
        },
{
    match slot.take() {
        None => ServerReuse::Spawn { kill: None },
        Some(active) => {
            if same_model && running {
                *slot = Some(active);
                ServerReuse::KeepRunning
            } else if same_model {
                ServerReuse::Spawn { kill: None }
            } else {
                ServerReuse::Spawn { kill: Some(active.child) }
            }
        },
    }
}

/// Records the server that has just answered its health check.
pub fn record_active_server<C>(slot: &mut Option<ActiveLlamaServer<C>>, model_path: String, child: C)
    ensures
        *final(slot) == Some(ActiveLlamaServer { model_path, child }),
{
    *slot = Some(ActiveLlamaServer { model_path, child });
}

/// Stop any running llama-server process: empties the slot and hands back
/// the process to kill and reap. Orphans from earlier runs are the caller's
/// to sweep afterwards.
pub fn stop_server<C>(slot: &mut Option<ActiveLlamaServer<C>>) -> (stopped: Option<C>)
    ensures
        *final(slot) is None,
        match *old(slot) {
            Some(active) => stopped == Some(active.child),
            None => stopped is None,
        },
{
    match slot.take() {
        Some(active) => Some(active.child),
        None => None,
    }
}

/// How orphaned engine processes from earlier runs, which may still hold
/// model files open, are swept away: `taskkill /F /IM llama-server.exe` on
/// Windows; nothing elsewhere.
pub fn orphan_kill_command(os: HostOs) -> (r: Option<Invocation>)
    ensures
        match os {
            HostOs::Windows => r matches Some(inv) && invokes(
                inv,
                "taskkill"@,
                seq!["/F"@, "/IM"@, "llama-server.exe"@],
            ),
            _ => r is None,
        },
{
    match os {
        HostOs::Windows => {
            let mut args: Vec<String> = Vec::new();
            push_arg(&mut args, "/F");
            push_arg(&mut args, "/IM");
            push_arg(&mut args, "llama-server.exe");
            assert(arg_views(args@) =~= seq!["/F"@, "/IM"@, "llama-server.exe"@]);
            Some(Invocation { program: "taskkill".to_owned(), args })
        },
        _ => None,
    }
}

/// The engine as the frontend sees it.
pub struct EngineStatus {
    pub ready: bool,
    pub binary_found: bool,
    pub active_model: Option<String>,
}

/// Check the current state of the llama engine: ready when a server is
/// recorded, with the model it serves.
pub fn engine_status<C>(binary_found: bool, slot: &Option<ActiveLlamaServer<C>>) -> (s: EngineStatus)
    ensures
        s.ready == slot.is_some(),
        s.binary_found == binary_found,
        match *slot {
            Some(active) => s.active_model matches Some(m) && m@ == active.model_path@,
            None => s.active_model is None,
        },
{
    match slot {
        Some(active) => EngineStatus {
            ready: true,
            binary_found,
            active_model: Some(active.model_path.clone()),
        },
        None => EngineStatus { ready: false, binary_found, active_model: None },
    }
}

// ---------------------------------------------------------------------------
// Startup attempts
// ---------------------------------------------------------------------------
/// GPU layers offloaded on each attempt: everything first, then CPU only.
pub open spec fn attempt_ngl(attempt: int) -> u32 {
    if attempt == 0 {
        99
    } else {
        0
    }
}

/// How a started (or not started) `llama-server` attempt ended.
pub enum StartupEvent {
    /// The process could not be started; the system's reason.
    SpawnFailed(String),
    /// The process exited while loading, with its exit status and stderr.
    Exited { status: String, stderr: String },
    /// Its state could not be queried; the reason.
    WaitFailed(String),
    /// Its health endpoint answered.
    Healthy,
    /// It did not answer within the loading timeout (and has been killed).
    TimedOut,
}

/// What the caller does next.
pub enum StartupStep {
    /// Start `llama-server` with `-ngl ngl` and watch it.
    Spawn { ngl: u32 },
    /// The server is up.
    Ready,
    /// Every attempt failed.
    Fail(String),
}

/// The message an attempt leaves behind.
pub open spec fn attempt_error(ev: StartupEvent) -> Seq<char> {
    match ev {
        StartupEvent::SpawnFailed(e) => "Failed to start llama-server: "@ + e@,
        StartupEvent::Exited { status, stderr } => if trim(stderr@).len() == 0 {
            "llama-server exited with status "@ + status@
        } else {
            "llama-server exited with status "@ + status@ + ": "@ + trim(stderr@)
        },
        StartupEvent::WaitFailed(e) => "Error checking llama-server: "@ + e@,
        StartupEvent::TimedOut => "`llama-server` timed out while loading model into memory"@,
        StartupEvent::Healthy => Seq::empty(),
    }
}

/// Starting `llama-server`: GPU offload first (`-ngl 99`), then CPU only
/// (`-ngl 0`) if that attempt fails, keeping the reason of the last failure.
pub struct ServerStartup {
    attempt: usize,
    last_error: String,
}

impl ServerStartup {
    /// The attempt in progress (0 or 1), or 2 when both are spent.
    pub closed spec fn attempt(&self) -> int {
        self.attempt as int
    }

    /// The reason the last attempt failed.
    pub closed spec fn last_error(&self) -> Seq<char> {
        self.last_error@
    }

    /// A new startup, and its first step: spawn with full GPU offload.
    pub fn new() -> (r: (ServerStartup, StartupStep))
        ensures
            r.0.attempt() == 0,
            r.1 == (StartupStep::Spawn { ngl: 99 }),
    {
        (ServerStartup { attempt: 0, last_error: String::new() }, StartupStep::Spawn { ngl: 99 })
    }

    /// Takes how the current attempt ended and says what to do next: ready
    /// on a healthy server; otherwise the next attempt, or, when none is
    /// left, failure with the last attempt's reason.
    pub fn on_event(&mut self, ev: StartupEvent) -> (step: StartupStep)
        requires
            old(self).attempt() < 2,
        ensures
            ev is Healthy ==> step is Ready && final(self).attempt() == old(self).attempt(),
            !(ev is Healthy) ==> {
                &&& final(self).attempt() == old(self).attempt() + 1
                &&& final(self).last_error() == attempt_error(ev)
                &&& if final(self).attempt() < 2 {
                    step == StartupStep::Spawn { ngl: attempt_ngl(final(self).attempt()) }
                } else {
                    step matches StartupStep::Fail(m) && m@ == "Failed to start llama-server engine: "@
                        + attempt_error(ev)
                }
            },
    {
        let mut msg = String::new();
        match ev {
            StartupEvent::Healthy => return StartupStep::Ready,
            StartupEvent::SpawnFailed(e) => {
                push_str(&mut msg, "Failed to start llama-server: ");
                push_str(&mut msg, e.as_str());
            },
            StartupEvent::Exited { status, stderr } => {
                let err = trim_str(stderr.as_str());
                push_str(&mut msg, "llama-server exited with status ");
                push_str(&mut msg, status.as_str());
                if !err.as_str().is_empty() {
                    push_str(&mut msg, ": ");
                    push_str(&mut msg, err.as_str());
                }
            },
            StartupEvent::WaitFailed(e) => {
                push_str(&mut msg, "Error checking llama-server: ");
                push_str(&mut msg, e.as_str());
            },
            StartupEvent::TimedOut => {
                push_str(&mut msg, "`llama-server` timed out while loading model into memory");
            },
        }
        self.last_error = msg;
        self.attempt = self.attempt + 1;
        if self.attempt < 2 {
            StartupStep::Spawn { ngl: 0 }
        } else {
            let mut fail = String::new();
            push_str(&mut fail, "Failed to start llama-server engine: ");
            push_str(&mut fail, self.last_error.as_str());
            StartupStep::Fail(fail)
        }
    }
}

} // verus!
