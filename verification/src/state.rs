//! What the application remembers between runs: which archive it patched,
//! its fingerprints before and after, and which rules it used.
use vstd::prelude::*;

verus! {

/// The persisted state (schema version 1).
#[derive(Debug)]
pub struct State {
    pub schema: u32,
    pub feishu: Option<FeishuState>,
    pub patches: Option<PatchesState>,
}

/// The patched installation.
#[derive(Debug)]
pub struct FeishuState {
    pub path: String,
    pub version_seen: String,
    pub asar_hash_before: String,
    pub asar_hash_after: String,
    /// When the patch was applied, as RFC 3339 text.
    pub patched_at: String,
}

/// The rules in use.
#[derive(Debug)]
pub struct PatchesState {
    pub active_version: String,
    pub active_source: PatchSource,
    pub remote_pubkey_fingerprint: Option<String>,
}

/// Where the rules in use came from.
#[derive(Debug, Clone, Copy, PartialEq, Eq, Structural)]
pub enum PatchSource {
    Builtin,
    Remote,
}

impl Default for State {
    fn default() -> (s: State)
        ensures
            s.schema == 0,
            s.feishu is None,
            s.patches is None,
    {
        State { schema: 0, feishu: None, patches: None }
    }
}

/// A Windows verbatim path (`\\?\...`), which `Path::join` rebuilds
/// component by component.
pub open spec fn is_verbatim(dir: Seq<char>) -> bool {
    dir.len() >= 4 && dir[0] == '\\' && dir[1] == '\\' && dir[2] == '?' && dir[3] == '\\'
}

/// What `Path::join` gives for a directory and a plain file name, on any
/// platform (verbatim paths aside): the name alone after an empty
/// directory; the two run together after a `/`; after a `\\` or a `:`
/// (a separator or a drive on Windows, an ordinary character elsewhere),
/// either that or the two with `/` or `\\` between them; otherwise the
/// two with the platform's separator, `/` or `\\`, between them.
pub open spec fn joined(dir: Seq<char>, name: Seq<char>, r: Seq<char>) -> bool {
    if dir.len() == 0 {
        r == name
    } else if dir.last() == '/' {
        r == dir + name
    } else if dir.last() == '\\' || dir.last() == ':' {
        r == dir + name || r == dir + seq!['/'] + name || r == dir + seq!['\\'] + name
    } else {
        r == dir + seq!['/'] + name || r == dir + seq!['\\'] + name
    }
}

/// `std::path::Path::join`, on paths held as strings. A relative file name
/// is appended to the directory, with the platform's separator between
/// them unless the directory is empty or already ends in one (see
/// `PathBuf::push`). Of a verbatim directory nothing is said.
#[verifier::external_body]
fn path_join(dir: &str, name: &str) -> (r: String)
    requires
        is_relative_name(name@),
    ensures
        !is_verbatim(dir@) ==> joined(dir@, name@, r@),
{
    std::path::Path::new(dir).join(name).to_string_lossy().into_owned()
}

/// A plain file name: not empty, not `.` or `..`, and without separators,
/// drive letters or roots.
pub open spec fn is_relative_name(name: Seq<char>) -> bool {
    &&& name.len() > 0
    &&& name != seq!['.']
    &&& name != seq!['.', '.']
    &&& forall|i: int| 0 <= i < name.len() ==> name[i] != '/' && name[i] != '\\' && name[i] != ':'
}

/// The state file inside the state directory: `state.json` joined to it
/// as `Path::join` joins (see `joined`).
pub fn state_file(state_dir: &str) -> (r: String)
    ensures
        !is_verbatim(state_dir@) ==> joined(state_dir@, "state.json"@, r@),
{
    proof {
        reveal_strlit("state.json");
        assert("state.json"@.len() == 10);
        assert("state.json"@ != seq!['.']);
        assert("state.json"@ != seq!['.', '.']);
        assert(is_relative_name("state.json"@));
    }
    path_join(state_dir, "state.json")
}

/// The state that a missing state file stands for: schema 1, nothing
/// patched.
pub fn initial_state() -> (s: State)
    ensures
        s.schema == 1,
        s.feishu is None,
        s.patches is None,
{
    State { schema: 1, ..Default::default() }
}

/// `after` is `before` with the record of the patch and of the rules
/// removed.
pub open spec fn is_cleared(after: State, before: State) -> bool {
    &&& after.schema == before.schema
    &&& after.feishu is None
    &&& after.patches is None
}

/// The state after the backup is restored: nothing patched, the schema
/// unchanged.
pub fn cleared_state(s: State) -> (r: State)
    ensures
        is_cleared(r, s),
{
    State { schema: s.schema, feishu: None, patches: None }
}

} // verus!
