//! Desktop shell decisions: which program opens a link, and which leftover
//! files a launch clears away.

use vstd::prelude::*;
use crate::engine::HostOs;
use crate::text::{ends_with, ends_with_str, starts_with, starts_with_str};

verus! {

/// A program to start and the arguments to start it with.
pub struct Invocation {
    pub program: String,
    pub args: Vec<String>,
}

/// The views of a list of strings.
pub open spec fn arg_views(v: Seq<String>) -> Seq<Seq<char>> {
    Seq::new(v.len(), |k: int| v[k]@)
}

/// `inv` starts `program` with `args`.
pub open spec fn invokes(inv: Invocation, program: Seq<char>, args: Seq<Seq<char>>) -> bool {
    inv.program@ == program && arg_views(inv.args@) == args
}

/// Appends the argument `a`.
pub(crate) fn push_arg(v: &mut Vec<String>, a: &str)
    ensures
        arg_views(final(v)@) == arg_views(old(v)@).push(a@),
{
    v.push(a.to_owned());
    assert(arg_views(v@) =~= arg_views(old(v)@).push(a@));
}

/// How the system browser is asked to open `url`: `cmd /C start "" <url>`
/// on Windows, `open <url>` on macOS, `xdg-open <url>` on Linux, and nothing
/// elsewhere.
pub fn open_url_command(os: HostOs, url: &str) -> (r: Option<Invocation>)
    ensures
        match os {
            HostOs::Windows => r matches Some(inv) && invokes(inv, "cmd"@, seq!["/C"@, "start"@, ""@, url@]),
            HostOs::MacOs => r matches Some(inv) && invokes(inv, "open"@, seq![url@]),
            HostOs::Linux => r matches Some(inv) && invokes(inv, "xdg-open"@, seq![url@]),
            HostOs::Other => r is None,
        },
{
    match os {
        HostOs::Windows => {
            let mut args: Vec<String> = Vec::new();
            push_arg(&mut args, "/C");
            push_arg(&mut args, "start");
            push_arg(&mut args, "");
            push_arg(&mut args, url);
            assert(arg_views(args@) =~= seq!["/C"@, "start"@, ""@, url@]);
            Some(Invocation { program: "cmd".to_owned(), args })
        },
        HostOs::MacOs | HostOs::Linux => {
            let mut args: Vec<String> = Vec::new();
            push_arg(&mut args, url);
            assert(arg_views(args@) =~= seq![url@]);
            let program = match os {
                HostOs::MacOs => "open".to_owned(),
                _ => "xdg-open".to_owned(),
            };
            Some(Invocation { program, args })
        },
        HostOs::Other => None,
    }
}

/// A temporary file left by an interrupted model download: named
/// `cerberus-…`, ending in `.gguf`.
pub fn is_stale_download(name: &str) -> (b: bool)
    ensures
        b == (starts_with(name@, "cerberus-"@) && ends_with(name@, ".gguf"@)),
{
    starts_with_str(name, "cerberus-") && ends_with_str(name, ".gguf")
}

} // verus!
