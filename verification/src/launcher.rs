//! How an editor extension finds the server binary: a path the user
//! configured, else the binary on the search path, else a prebuilt
//! release to download for the host's platform.

use vstd::prelude::*;
use crate::text::{chars_of, push_str, string_of, trim, trimmed};

verus! {

/// The platform the editor runs on.
#[derive(Clone, Copy, Debug, PartialEq, Eq, Structural)]
pub enum HostOs {
    Mac,
    Linux,
    Windows,
}

/// Where the server comes from.
#[derive(Debug)]
pub enum Launch {
    /// Run the binary at this path.
    Use(String),
    /// Download the release asset `url` to the file `file`, then run it.
    Download { file: String, url: String },
}

/// The platform suffix of a release asset.
pub open spec fn os_suffix(os: HostOs) -> Seq<char> {
    match os {
        HostOs::Mac => "darwin"@,
        HostOs::Linux => "linux"@,
        HostOs::Windows => "win32.exe"@,
    }
}

/// The release asset for a platform.
pub open spec fn asset_name(os: HostOs) -> Seq<char> {
    "netconf-language-server-"@ + os_suffix(os)
}

/// Where the newest stable release serves an asset.
pub open spec fn asset_url(file: Seq<char>) -> Seq<char> {
    "https://github.com/trislu/netconf-language-server/releases/latest/download/"@ + file
}

/// Where the server comes from: the configured path (trimmed) when it is
/// not blank, else the one found on the search path, else the platform's
/// release asset.
pub open spec fn launch_of(configured: Option<Seq<char>>, on_path: Option<Seq<char>>, os: HostOs) -> (
    bool,
    Seq<char>,
    Seq<char>,
) {
    if configured is Some && trim(configured.unwrap()).len() > 0 {
        (true, trim(configured.unwrap()), Seq::empty())
    } else if on_path is Some {
        (true, on_path.unwrap(), Seq::empty())
    } else {
        (false, asset_name(os), asset_url(asset_name(os)))
    }
}

/// The view of a launch: whether a path is used, the path or file, and
/// the download url.
pub open spec fn launch_view(l: Launch) -> (bool, Seq<char>, Seq<char>) {
    match l {
        Launch::Use(p) => (true, p@, Seq::empty()),
        Launch::Download { file, url } => (false, file@, url@),
    }
}

/// Where the server comes from ([`launch_of`]).
pub fn locate_server(configured: Option<&str>, on_path: Option<String>, os: HostOs) -> (r: Launch)
    ensures
        launch_view(r) == launch_of(
            match configured {
                Some(c) => Some(c@),
                None => None,
            },
            match on_path {
                Some(p) => Some(p@),
                None => None,
            },
            os,
        ),
{
    if let Some(c) = configured {
        let t = trimmed(chars_of(c).as_slice());
        if t.len() > 0 {
            return Launch::Use(string_of(t.as_slice()));
        }
    }
    if let Some(p) = on_path {
        return Launch::Use(p);
    }
    let mut file: Vec<char> = Vec::new();
    push_str(&mut file, "netconf-language-server-");
    let suffix = match os {
        HostOs::Mac => "darwin",
        HostOs::Linux => "linux",
        HostOs::Windows => "win32.exe",
    };
    push_str(&mut file, suffix);
    let mut url: Vec<char> = Vec::new();
    push_str(&mut url, "https://github.com/trislu/netconf-language-server/releases/latest/download/");
    let mut k: usize = 0;
    let ghost u0 = url@;
    while k < file.len()
        invariant
            k <= file@.len(),
            url@ == u0 + file@.take(k as int),
        decreases file@.len() - k,
    {
        url.push(file[k]);
        proof {
            assert(file@.take(k + 1) =~= file@.take(k as int).push(file@[k as int]));
        }
        k = k + 1;
    }
    proof {
        assert(file@.take(k as int) =~= file@);
        assert(file@ =~= asset_name(os));
    }
    Launch::Download { file: string_of(file.as_slice()), url: string_of(url.as_slice()) }
}

/// What the user is told when the download fails.
pub open spec fn download_failure(file: Seq<char>, url: Seq<char>, err: Seq<char>) -> Seq<char> {
    "failed to download "@ + file + " from "@ + url + " ("@ + err
        + "); install the server with `cargo install netconf-language-server` or set its path under lsp.netconf-language-server.binary in settings"@
}

/// What the user is told when the download fails ([`download_failure`]).
pub fn download_failure_message(file: &str, url: &str, err: &str) -> (r: String)
    ensures
        r@ == download_failure(file@, url@, err@),
{
    let mut out: Vec<char> = Vec::new();
    push_str(&mut out, "failed to download ");
    push_str(&mut out, file);
    push_str(&mut out, " from ");
    push_str(&mut out, url);
    push_str(&mut out, " (");
    push_str(&mut out, err);
    push_str(
        &mut out,
        "); install the server with `cargo install netconf-language-server` or set its path under lsp.netconf-language-server.binary in settings",
    );
    proof {
        assert(out@ =~= download_failure(file@, url@, err@));
    }
    string_of(out.as_slice())
}

} // verus!
