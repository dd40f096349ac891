//! Settings: where the history log lies, how many entries to read, how much
//! context to show; and where the settings file is looked for.
use vstd::prelude::*;

use vstd::utf8::encode_utf8;

verus! {

/// The settings of the program. Paths are held as their bytes, as Unix
/// keeps them, so that no path is changed on its way through.
pub struct AppConfig {
    pub history_path: Vec<u8>,
    pub context_lines: usize,
    pub default_history_depth: usize,
}

/// The path separator `/`.
pub open spec fn separator() -> u8 {
    47
}

/// `base` joined with `part` as `Path::join` does on Unix: an absolute
/// `part` replaces `base`; a separator goes between them when `base` is not
/// empty and does not end with one.
pub open spec fn joined(base: Seq<u8>, part: Seq<u8>) -> Seq<u8> {
    if part.len() > 0 && part[0] == separator() {
        part
    } else if base.len() > 0 && base.last() != separator() {
        base + seq![separator()] + part
    } else {
        base + part
    }
}

fn extend(out: &mut Vec<u8>, s: &[u8])
    ensures
        final(out)@ == old(out)@ + s@,
{
    let ghost start = out@;
    let mut i: usize = 0;
    while i < s.len()
        invariant
            i <= s@.len(),
            out@ == start + s@.take(i as int),
        decreases s@.len() - i,
    {
        out.push(s[i]);
        i += 1;
        assert(s@.take(i as int) == s@.take(i - 1).push(s@[i - 1]));
    }
    assert(s@.take(s@.len() as int) == s@);
}

/// Joins two paths, given as their bytes, as `Path::join` does on Unix.
pub fn join_path(base: &[u8], part: &[u8]) -> (out: Vec<u8>)
    ensures
        out@ == joined(base@, part@),
{
    let mut out: Vec<u8> = Vec::new();
    if part.len() > 0 && part[0] == 47 {
        extend(&mut out, part);
        assert(out@ == part@);
        return out;
    }
    extend(&mut out, base);
    if base.len() > 0 && base[base.len() - 1] != 47 {
        out.push(47);
    }
    extend(&mut out, part);
    out
}

/// The directory that stands in for a missing one: the current directory `.`.
pub open spec fn or_current(dir: Option<Seq<u8>>) -> Seq<u8> {
    match dir {
        Some(d) => d,
        None => seq![46u8],
    }
}

/// The view of an optional path.
pub open spec fn path_view(o: Option<Vec<u8>>) -> Option<Seq<u8>> {
    match o {
        Some(p) => Some(p@),
        None => None,
    }
}

/// Calls `dirs::home_dir` and hands the path over as its bytes, unchanged.
/// The home directory comes from the environment, so nothing is stated of it.
#[verifier::external_body]
fn home_dir() -> (res: Option<Vec<u8>>) {
    dirs::home_dir().map(|path| path.into_os_string().into_encoded_bytes())
}

/// Calls `dirs::config_dir` and hands the path over as its bytes,
/// unchanged. The directory comes from the environment, so nothing is stated of it.
#[verifier::external_body]
fn config_dir() -> (res: Option<Vec<u8>>) {
    dirs::config_dir().map(|path| path.into_os_string().into_encoded_bytes())
}

/// The name of the log file in the home directory, `.bash_history_extended`.
pub open spec fn history_file_name() -> Seq<u8> {
    encode_utf8(".bash_history_extended"@)
}

/// Where the settings file lies inside the configuration directory `dir`:
/// `dir/recall/config.toml`.
pub open spec fn config_path_spec(dir: Seq<u8>) -> Seq<u8> {
    joined(joined(dir, encode_utf8("recall"@)), encode_utf8("config.toml"@))
}

fn current_or(dir: &Option<Vec<u8>>) -> (out: Vec<u8>)
    ensures
        out@ == or_current(path_view(*dir)),
{
    let mut out: Vec<u8> = Vec::new();
    match dir {
        Some(d) => extend(&mut out, d.as_slice()),
        None => out.push(46),
    }
    assert(out@ =~= or_current(path_view(*dir)));
    out
}

impl AppConfig {
    /// The default settings for the home directory `home` (the current
    /// directory when there is none): the log `.bash_history_extended` in
    /// it, 5 lines of context, the last 1000 entries.
    pub fn with_home(home: &Option<Vec<u8>>) -> (config: AppConfig)
        ensures
            config.history_path@ == joined(or_current(path_view(*home)), history_file_name()),
            config.context_lines == 5,
            config.default_history_depth == 1000,
    {
        let base = current_or(home);
        AppConfig {
            history_path: join_path(base.as_slice(), ".bash_history_extended".as_bytes()),
            context_lines: 5,
            default_history_depth: 1000,
        }
    }

    /// The settings file inside the configuration directory `dir` (the
    /// current directory when there is none).
    pub fn config_path_in(dir: &Option<Vec<u8>>) -> (path: Vec<u8>)
        ensures
            path@ == config_path_spec(or_current(path_view(*dir))),
    {
        let base = current_or(dir);
        let app_dir = join_path(base.as_slice(), "recall".as_bytes());
        join_path(app_dir.as_slice(), "config.toml".as_bytes())
    }

    /// The settings file: `recall/config.toml` in the user's configuration
    /// directory (the current directory when there is none).
    pub fn config_path() -> (path: Vec<u8>)
        ensures
            exists|dir: Seq<u8>| path@ == config_path_spec(dir),
    {
        let dir = config_dir();
        let path = Self::config_path_in(&dir);
        assert(path@ == config_path_spec(or_current(path_view(dir))));
        path
    }
}

impl Default for AppConfig {
    /// The log `.bash_history_extended` in the home directory (the current
    /// directory when there is none), 5 lines of context, the last 1000 entries.
    fn default() -> (config: AppConfig)
        ensures
            exists|home: Seq<u8>| config.history_path@ == joined(home, history_file_name()),
            config.context_lines == 5,
            config.default_history_depth == 1000,
    {
        let home = home_dir();
        let config = AppConfig::with_home(&home);
        assert(config.history_path@ == joined(or_current(path_view(home)), history_file_name()));
        config
    }
}

} // verus!
