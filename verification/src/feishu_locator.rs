//! Finding a Feishu installation: a directory counts as one when its tree
//! holds `messenger.asar` within six levels. The directory trees are read
//! by the caller; the search over them is here.
use crate::error::AppError;
use crate::text::{chars_eq, chars_of, string_of};
use crate::tree::opt_string_view;
use vstd::prelude::*;
use vstd::string::StringExecFns;

verus! {

/// A located installation.
#[derive(Debug)]
pub struct InstallInfo {
    pub install_path: String,
    pub asar_path: String,
    pub version: Option<String>,
    /// Whether Feishu is running; not detected yet, always `false`.
    pub is_running: bool,
}

/// The platform that the default install locations are for.
#[derive(Debug, Clone, Copy, PartialEq, Eq, Structural)]
pub enum Platform {
    MacOs,
    Other,
}

/// The entries of a directory as read, in the order read, or the fact
/// that it could not be read.
#[derive(Debug)]
pub enum DirListing {
    Unreadable,
    Entries(Vec<DirEntry>),
}

/// One entry of a directory.
#[derive(Debug)]
pub struct DirEntry {
    /// The entry's full path.
    pub path: String,
    /// The entry's file name, where it is valid UTF-8.
    pub file_name: Option<String>,
    pub kind: EntryKind,
}

/// Whether an entry is a directory (with its own listing) or not.
#[derive(Debug)]
pub enum EntryKind {
    Dir(DirListing),
    NotDir,
}

/// What was found at a candidate install root.
#[derive(Debug)]
pub struct PathProbe {
    pub root: String,
    pub exists: bool,
    /// The root's tree, read as deep as the search goes.
    pub listing: DirListing,
    /// The bytes of the installation's `Contents/Info.plist`, where the
    /// platform keeps one and it could be read.
    pub info_plist: Option<Vec<u8>>,
}

/// The first file named `target` in a depth-first walk of at most `depth`
/// levels, directories searched before the entries after them.
pub open spec fn walk_for_spec(l: DirListing, target: Seq<char>, depth: nat) -> Option<Seq<char>>
    decreases l, 1nat,
{
    if depth == 0 {
        None
    } else {
        match l {
            DirListing::Unreadable => None,
            DirListing::Entries(es) => {
                proof {
                    vstd::std_specs::vec::axiom_vec_decreases_to_view(es);
                }
                walk_entries_spec(es@, target, depth)
            },
        }
    }
}

pub open spec fn walk_entries_spec(es: Seq<DirEntry>, target: Seq<char>, depth: nat) -> Option<
    Seq<char>,
>
    decreases es, 0nat,
{
    if es.len() == 0 {
        None
    } else {
        proof {
            vstd::seq::axiom_seq_subrange_decreases(es, 1, es.len() as int);
            vstd::seq::axiom_seq_index_decreases(es, 0);
        }
        match es[0].kind {
            EntryKind::Dir(sub) => match walk_for_spec(sub, target, (depth - 1) as nat) {
                Some(p) => Some(p),
                None => walk_entries_spec(es.drop_first(), target, depth),
            },
            EntryKind::NotDir => if opt_string_view(es[0].file_name) == Some(target) {
                Some(es[0].path@)
            } else {
                walk_entries_spec(es.drop_first(), target, depth)
            },
        }
    }
}

/// The tree holds, within `depth` levels, a file named `target` at `path`.
pub open spec fn holds_file(l: DirListing, target: Seq<char>, path: Seq<char>, depth: nat) -> bool
    decreases l, 1nat,
{
    if depth == 0 {
        false
    } else {
        match l {
            DirListing::Unreadable => false,
            DirListing::Entries(es) => {
                proof {
                    vstd::std_specs::vec::axiom_vec_decreases_to_view(es);
                }
                entries_hold_file(es@, target, path, depth)
            },
        }
    }
}

/// Some entry is a file named `target` at `path`, or a directory holding
/// one within `depth - 1` levels.
pub open spec fn entries_hold_file(es: Seq<DirEntry>, target: Seq<char>, path: Seq<char>, depth: nat) -> bool
    decreases es, 0nat,
{
    if es.len() == 0 {
        false
    } else {
        proof {
            vstd::seq::axiom_seq_subrange_decreases(es, 1, es.len() as int);
            vstd::seq::axiom_seq_index_decreases(es, 0);
        }
        (match es[0].kind {
            EntryKind::Dir(inner) => holds_file(inner, target, path, (depth - 1) as nat),
            EntryKind::NotDir => opt_string_view(es[0].file_name) == Some(target) && es[0].path@ == path,
        }) || entries_hold_file(es.drop_first(), target, path, depth)
    }
}

/// What the search finds is a file named `target` that the tree holds
/// within the depth searched, and it finds one whenever the tree holds
/// one there.
pub proof fn lemma_walk_sound_complete(l: DirListing, target: Seq<char>, depth: nat)
    ensures
        walk_for_spec(l, target, depth) matches Some(p) ==> holds_file(l, target, p, depth),
        (exists|p: Seq<char>| holds_file(l, target, p, depth)) ==> walk_for_spec(l, target, depth) is Some,
    decreases l, 1nat,
{
    if depth > 0 {
        match l {
            DirListing::Unreadable => {},
            DirListing::Entries(es) => {
                vstd::std_specs::vec::axiom_vec_decreases_to_view(es);
                lemma_walk_entries_sound_complete(es@, target, depth);
                if exists|p: Seq<char>| holds_file(l, target, p, depth) {
                    let p = choose|p: Seq<char>| holds_file(l, target, p, depth);
                    assert(entries_hold_file(es@, target, p, depth));
                }
            },
        }
    }
}

proof fn lemma_walk_entries_sound_complete(es: Seq<DirEntry>, target: Seq<char>, depth: nat)
    requires
        depth > 0,
    ensures
        walk_entries_spec(es, target, depth) matches Some(p) ==> entries_hold_file(es, target, p, depth),
        (exists|p: Seq<char>| entries_hold_file(es, target, p, depth)) ==> walk_entries_spec(es, target, depth) is Some,
    decreases es, 0nat,
{
    if es.len() > 0 {
        vstd::seq::axiom_seq_subrange_decreases(es, 1, es.len() as int);
        vstd::seq::axiom_seq_index_decreases(es, 0);
        lemma_walk_entries_sound_complete(es.drop_first(), target, depth);
        match es[0].kind {
            EntryKind::Dir(inner) => {
                lemma_walk_sound_complete(inner, target, (depth - 1) as nat);
                if exists|p: Seq<char>| entries_hold_file(es, target, p, depth) {
                    let p = choose|p: Seq<char>| entries_hold_file(es, target, p, depth);
                    if !holds_file(inner, target, p, (depth - 1) as nat) {
                        assert(entries_hold_file(es.drop_first(), target, p, depth));
                    }
                }
            },
            EntryKind::NotDir => {
                if exists|p: Seq<char>| entries_hold_file(es, target, p, depth) {
                    let p = choose|p: Seq<char>| entries_hold_file(es, target, p, depth);
                    if !(opt_string_view(es[0].file_name) == Some(target) && es[0].path@ == p) {
                        assert(entries_hold_file(es.drop_first(), target, p, depth));
                    }
                }
            },
        }
    }
}

/// An entry in which the search finds nothing: a directory whose own
/// search, one level less deep, finds nothing, or a file with another
/// name.
pub open spec fn entry_misses(x: DirEntry, target: Seq<char>, depth: nat) -> bool {
    match x.kind {
        EntryKind::Dir(sub) => depth >= 1 && walk_for_spec(sub, target, (depth - 1) as nat) is None,
        EntryKind::NotDir => opt_string_view(x.file_name) != Some(target),
    }
}

/// An entry in which nothing is found changes nothing for the entries
/// after it: they are searched exactly as if it were not there, each
/// directory with one level less than its parent.
pub proof fn lemma_miss_is_skipped(es: Seq<DirEntry>, target: Seq<char>, depth: nat)
    requires
        es.len() > 0,
        depth > 0,
        entry_misses(es[0], target, depth),
    ensures
        walk_entries_spec(es, target, depth) == walk_entries_spec(es.drop_first(), target, depth),
{
}

/// The entries before the first one in which something is found are
/// skipped, whatever their number and kind.
pub proof fn lemma_misses_are_skipped(es: Seq<DirEntry>, target: Seq<char>, depth: nat, k: int)
    requires
        0 <= k <= es.len(),
        depth > 0,
        forall|j: int| 0 <= j < k ==> entry_misses(#[trigger] es[j], target, depth),
    ensures
        walk_entries_spec(es, target, depth) == walk_entries_spec(es.skip(k), target, depth),
    decreases k,
{
    if k == 0 {
        assert(es.skip(0) =~= es);
    } else {
        let t = es.drop_first();
        lemma_miss_is_skipped(es, target, depth);
        assert forall|j: int| 0 <= j < k - 1 implies entry_misses(#[trigger] t[j], target, depth) by {
            assert(t[j] == es[j + 1]);
        }
        lemma_misses_are_skipped(t, target, depth, k - 1);
        assert(t.skip(k - 1) =~= es.skip(k));
    }
}

/// A directory whose own search finds a file gives that file, when nothing
/// is found in the entries before it; a file named `target` is found at
/// once.
pub proof fn lemma_first_hit_found(es: Seq<DirEntry>, target: Seq<char>, depth: nat, k: int)
    requires
        0 <= k < es.len(),
        depth > 0,
        forall|j: int| 0 <= j < k ==> entry_misses(#[trigger] es[j], target, depth),
    ensures
        match es[k].kind {
            EntryKind::Dir(inner) => walk_for_spec(inner, target, (depth - 1) as nat) is Some
                ==> walk_entries_spec(es, target, depth) == walk_for_spec(inner, target, (depth - 1) as nat),
            EntryKind::NotDir => true,
        },
        es[k].kind is NotDir && opt_string_view(es[k].file_name) == Some(target) ==> walk_entries_spec(
            es,
            target,
            depth,
        ) == Some(es[k].path@),
{
    lemma_misses_are_skipped(es, target, depth, k);
    assert(es.skip(k)[0] == es[k]);
}

/// Searches a directory tree for a file named `target`.
pub fn walk_for(listing: &DirListing, target: &[char], depth: u32) -> (r: Option<String>)
    ensures
        opt_string_view(r) == walk_for_spec(*listing, target@, depth as nat),
    decreases listing,
{
    if depth == 0 {
        return None;
    }
    match listing {
        DirListing::Unreadable => None,
        DirListing::Entries(es) => {
            let ghost all = es@;
            proof {
                assert(all.skip(0) =~= all);
                assert(walk_for_spec(*listing, target@, depth as nat) == walk_entries_spec(all, target@, depth as nat));
            }
            for i in 0..es.len()
                invariant
                    depth > 0,
                    all == es@,
                    *listing == DirListing::Entries(*es),
                    walk_for_spec(*listing, target@, depth as nat) == walk_entries_spec(all, target@, depth as nat),
                    walk_entries_spec(all, target@, depth as nat) == walk_entries_spec(
                        all.skip(i as int),
                        target@,
                        depth as nat,
                    ),
            {
                let ghost rest = all.skip(i as int);
                proof {
                    assert(rest[0] == es@[i as int]);
                    assert(rest.drop_first() =~= all.skip(i + 1));
                }
                let e = &es[i];
                match &e.kind {
                    EntryKind::Dir(sub) => {
                        proof {
                            vstd::std_specs::vec::axiom_vec_decreases_to_view(*es);
                            vstd::seq::axiom_seq_index_decreases(es@, i as int);
                            assert(rest[0].kind == EntryKind::Dir(*sub));
                            assert(decreases_to!(*listing => *es));
                            assert(decreases_to!(es@[i as int] => es@[i as int].kind));
                            assert(decreases_to!(*listing => *sub));
                        }
                        let found = walk_for(sub, target, depth - 1);
                        if found.is_some() {
                            return found;
                        }
                    },
                    EntryKind::NotDir => {
                        let hit = match &e.file_name {
                            Some(name) => chars_eq(&chars_of(name.as_str()), target),
                            None => false,
                        };
                        if hit {
                            return Some(e.path.clone());
                        }
                    },
                }
            }
            None
        },
    }
}

/// Where `messenger.asar` lies under a root's tree, if anywhere within six
/// levels.
pub fn find_messenger_asar(listing: &DirListing) -> (r: Option<String>)
    ensures
        opt_string_view(r) == walk_for_spec(*listing, "messenger.asar"@, 6),
{
    let target = chars_of("messenger.asar");
    walk_for(listing, &target, 6)
}

/// The installation at a probed root: none where the root does not exist
/// or holds no `messenger.asar`.
pub open spec fn probe_asar(p: PathProbe) -> Option<Seq<char>> {
    if !p.exists {
        None
    } else {
        walk_for_spec(p.listing, "messenger.asar"@, 6)
    }
}

/// The installation described by a probe whose archive was found at `asar`.
pub open spec fn info_matches(info: InstallInfo, p: PathProbe, asar: Seq<char>) -> bool {
    &&& info.install_path@ == p.root@
    &&& info.asar_path@ == asar
    &&& opt_string_view(info.version) == probe_version(p)
    &&& !info.is_running
}

/// The `CFBundleShortVersionString` string of a property list, as the
/// `plist` crate reads it (any of its encodings), or `None` where the bytes
/// are not a property list, its top is not a dictionary, or the key is
/// missing or not a string.
pub uninterp spec fn plist_short_version(info_plist: Seq<u8>) -> Option<Seq<char>>;

/// `plist::from_bytes` into a `plist::Value`, then the dictionary's
/// `CFBundleShortVersionString` string; the result depends on the bytes
/// alone.
#[verifier::external_body]
fn plist_bundle_short_version(b: &[u8]) -> (r: Option<String>)
    ensures
        opt_string_view(r) == plist_short_version(b@),
{
    let value: plist::Value = plist::from_bytes(b).ok()?;
    value.as_dictionary()?.get("CFBundleShortVersionString")?.as_string().map(|s| s.to_string())
}

/// The version an installation declares: none without an `Info.plist`,
/// otherwise its short version string, if it has one.
pub fn bundle_version(info_plist: Option<&[u8]>) -> (r: Option<String>)
    ensures
        info_plist is None ==> r is None,
        info_plist matches Some(b) ==> opt_string_view(r) == plist_short_version(b@),
{
    match info_plist {
        Some(b) => plist_bundle_short_version(b),
        None => None,
    }
}

/// The version a probe's installation declares.
pub open spec fn probe_version(p: PathProbe) -> Option<Seq<char>> {
    match p.info_plist {
        Some(b) => plist_short_version(b@),
        None => None,
    }
}

/// Checks a probed root. Never fails.
pub fn try_path(probe: &PathProbe) -> (r: Result<Option<InstallInfo>, AppError>)
    ensures
        r matches Ok(o) && match probe_asar(*probe) {
            None => o is None,
            Some(a) => o matches Some(info) && info_matches(info, *probe, a),
        },
{
    if !probe.exists {
        return Ok(None);
    }
    let asar = match find_messenger_asar(&probe.listing) {
        Some(a) => a,
        None => {
            return Ok(None);
        },
    };
    Ok(
        Some(
            InstallInfo {
                install_path: probe.root.clone(),
                asar_path: asar,
                version: bundle_version(match &probe.info_plist {
                    Some(b) => Some(b.as_slice()),
                    None => None,
                }),
                is_running: false,
            },
        ),
    )
}

/// The roots of the probes.
pub open spec fn probe_roots(ps: Seq<PathProbe>) -> Seq<Seq<char>> {
    ps.map_values(|p: PathProbe| p.root@)
}

/// The first probe that finds an installation.
pub open spec fn first_found(ps: Seq<PathProbe>) -> Option<int>
    decreases ps.len(),
{
    if ps.len() == 0 {
        None
    } else if probe_asar(ps[0]) is Some {
        Some(0)
    } else {
        match first_found(ps.drop_first()) {
            Some(k) => Some(k + 1),
            None => None,
        }
    }
}

/// The probe at `k` is one that `validate` accepts, and every probe before
/// it is one that `validate` refuses.
pub open spec fn first_valid(ps: Seq<PathProbe>, k: int) -> bool {
    &&& 0 <= k < ps.len()
    &&& probe_asar(ps[k]) is Some
    &&& forall|j: int| 0 <= j < k ==> #[trigger] probe_asar(ps[j]) is None
}

proof fn lemma_first_found_range(ps: Seq<PathProbe>)
    ensures
        first_found(ps) matches Some(x) ==> 0 <= x < ps.len(),
    decreases ps.len(),
{
    if ps.len() > 0 {
        lemma_first_found_range(ps.drop_first());
    }
}

/// `detect` succeeds with the probe at `k` exactly when `validate` would
/// accept that probe and refuse every probe before it.
pub proof fn lemma_detect_is_first_valid(ps: Seq<PathProbe>, k: int)
    ensures
        first_found(ps) == Some(k) <==> first_valid(ps, k),
    decreases ps.len(),
{
    lemma_first_found_range(ps);
    if ps.len() > 0 {
        lemma_first_found_range(ps.drop_first());
    }
    if ps.len() > 0 && k > 0 && probe_asar(ps[0]) is None {
        let t = ps.drop_first();
        lemma_detect_is_first_valid(t, k - 1);
        if first_valid(ps, k) {
            assert forall|j: int| 0 <= j < k - 1 implies #[trigger] probe_asar(t[j]) is None by {
                assert(t[j] == ps[j + 1]);
            }
        }
        if first_valid(t, k - 1) {
            assert forall|j: int| 0 <= j < k implies #[trigger] probe_asar(ps[j]) is None by {
                if j > 0 {
                    assert(ps[j] == t[j - 1]);
                }
            }
        }
    } else if ps.len() > 0 && k > 0 {
        assert(!first_valid(ps, k)) by {
            if first_valid(ps, k) {
                assert(probe_asar(ps[0]) is None);
            }
        }
    }
}

/// `detect` fails exactly when `validate` would refuse every probe.
pub proof fn lemma_detect_fails_when_none_valid(ps: Seq<PathProbe>)
    ensures
        first_found(ps) is None <==> forall|j: int| 0 <= j < ps.len() ==> #[trigger] probe_asar(ps[j]) is None,
    decreases ps.len(),
{
    if ps.len() > 0 {
        let t = ps.drop_first();
        lemma_detect_fails_when_none_valid(t);
        if first_found(ps) is None {
            assert forall|j: int| 0 <= j < ps.len() implies #[trigger] probe_asar(ps[j]) is None by {
                if j > 0 {
                    assert(ps[j] == t[j - 1]);
                }
            }
        }
        if forall|j: int| 0 <= j < ps.len() ==> #[trigger] probe_asar(ps[j]) is None {
            assert(probe_asar(ps[0]) is None);
            assert forall|j: int| 0 <= j < t.len() implies #[trigger] probe_asar(t[j]) is None by {
                assert(t[j] == ps[j + 1]);
            }
        }
    }
}

/// The installation at the first probed root that holds one, or
/// `FeishuNotFound` listing every root tried.
pub fn detect(probes: &Vec<PathProbe>) -> (r: Result<InstallInfo, AppError>)
    ensures
        match first_found(probes@) {
            Some(k) => r matches Ok(info) && info_matches(info, probes@[k], probe_asar(probes@[k]).unwrap()),
            None => r matches Err(AppError::FeishuNotFound(v)) && crate::tree::strings_view(v@)
                == probe_roots(probes@),
        },
{
    let ghost all = probes@;
    proof {
        assert(all.skip(0) =~= all);
    }
    for i in 0..probes.len()
        invariant
            all == probes@,
            first_found(all) == match first_found(all.skip(i as int)) {
                Some(k) => Some(k + i),
                None => None,
            },
    {
        let ghost rest = all.skip(i as int);
        proof {
            assert(rest[0] == all[i as int]);
            assert(rest.drop_first() =~= all.skip(i + 1));
        }
        match try_path(&probes[i])? {
            Some(info) => {
                return Ok(info);
            },
            None => {},
        }
    }
    let mut roots: Vec<String> = Vec::new();
    for i in 0..probes.len()
        invariant
            crate::tree::strings_view(roots@) == probe_roots(probes@).take(i as int),
    {
        let ghost old_r = roots@;
        roots.push(probes[i].root.clone());
        proof {
            assert(crate::tree::strings_view(old_r).len() == old_r.len());
            assert forall|j: int| 0 <= j < i + 1 implies crate::tree::strings_view(roots@)[j]
                == probe_roots(probes@).take(i + 1)[j] by {
                if j < i {
                    assert(roots@[j] == old_r[j]);
                    assert(crate::tree::strings_view(old_r)[j] == probe_roots(probes@).take(i as int)[j]);
                }
            }
            assert(crate::tree::strings_view(roots@) =~= probe_roots(probes@).take(i + 1));
        }
    }
    proof {
        assert(probe_roots(probes@).take(probes@.len() as int) =~= probe_roots(probes@));
    }
    Err(AppError::FeishuNotFound(roots))
}

/// Checks a directory that the user chose: its installation, or
/// `FeishuNotFound` naming the directory.
pub fn validate(probe: &PathProbe) -> (r: Result<InstallInfo, AppError>)
    ensures
        match probe_asar(*probe) {
            Some(a) => r matches Ok(info) && info_matches(info, *probe, a),
            None => r matches Err(AppError::FeishuNotFound(v)) && crate::tree::strings_view(v@) == seq![
                probe.root@,
            ],
        },
{
    match try_path(probe)? {
        Some(info) => Ok(info),
        None => {
            let mut v: Vec<String> = Vec::new();
            v.push(probe.root.clone());
            proof {
                assert(crate::tree::strings_view(v@) =~= seq![probe.root@]);
            }
            Err(AppError::FeishuNotFound(v))
        },
    }
}

/// Where Feishu is looked for by default: the three application bundles
/// on macOS, nowhere elsewhere.
pub fn default_candidates(platform: Platform) -> (r: Vec<String>)
    ensures
        platform == Platform::MacOs ==> crate::tree::strings_view(r@) == seq![
            "/Applications/Lark.app"@,
            "/Applications/Feishu.app"@,
            "/Applications/飞书.app"@,
        ],
        platform == Platform::Other ==> r@.len() == 0,
{
    let mut v: Vec<String> = Vec::new();
    match platform {
        Platform::MacOs => {
            v.push(String::from_str("/Applications/Lark.app"));
            v.push(String::from_str("/Applications/Feishu.app"));
            v.push(String::from_str("/Applications/飞书.app"));
            proof {
                assert(crate::tree::strings_view(v@) =~= seq![
                    "/Applications/Lark.app"@,
                    "/Applications/Feishu.app"@,
                    "/Applications/飞书.app"@,
                ]);
            }
        },
        Platform::Other => {},
    }
    v
}

} // verus!
