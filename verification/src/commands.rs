//! What the user interface shows about the installation.
use crate::digest::{hash_label, sha256_label, sha256_of};
use crate::feishu_locator::InstallInfo;
use crate::orchestrator::records_patch;
use crate::state::{is_cleared, State};
use crate::tree::opt_string_view;
use vstd::prelude::*;

verus! {

/// The patch status shown for an installation.
#[derive(Debug)]
pub enum PatchUiState {
    Unpatched,
    Patched { feishu_version: String, patch_version: String },
    Stale { feishu_version_seen: String },
    Unknown,
    Incompatible,
}

/// An available update of the application.
#[derive(Debug)]
pub struct AppUpdateInfo {
    pub version: String,
    pub notes: Option<String>,
}

/// The version of the rules in use, or empty.
pub open spec fn active_version_view(s: State) -> Seq<char> {
    match s.patches {
        Some(p) => p.active_version@,
        None => Seq::empty(),
    }
}

/// The bytes that were read, if any.
pub open spec fn opt_bytes(o: Option<&[u8]>) -> Option<Seq<u8>> {
    match o {
        Some(b) => Some(b@),
        None => None,
    }
}

/// The status shown for an installation, given the persisted state,
/// whether the backup `<archive>.bak` exists and the archive's contents
/// (`None` where they could not be read): patched when the archive's
/// fingerprint is the one recorded after patching; stale when it is not
/// but the backup exists;
/// unpatched when nothing was recorded and there is no backup; unknown
/// otherwise.
pub open spec fn ui_state_matches(
    r: PatchUiState,
    install: InstallInfo,
    persisted: State,
    bak_exists: bool,
    contents: Option<Seq<u8>>,
) -> bool {
    match persisted.feishu {
        None => if bak_exists {
            r is Unknown
        } else {
            r is Unpatched
        },
        Some(f) => match contents {
            None => r is Unknown,
            Some(bytes) => if hash_label(sha256_of(bytes)) == f.asar_hash_after@ {
                r matches PatchUiState::Patched { feishu_version, patch_version }
                    && feishu_version@ == f.version_seen@ && patch_version@
                    == active_version_view(persisted)
            } else if bak_exists {
                r matches PatchUiState::Stale { feishu_version_seen } && feishu_version_seen@
                    == f.version_seen@
            } else {
                r is Unknown
            },
        },
    }
}

/// The status of an installation (see `ui_state_matches`).
pub fn derive_patch_state(
    install: &InstallInfo,
    persisted: &State,
    bak_exists: bool,
    asar_contents: Option<&[u8]>,
) -> (r: PatchUiState)
    ensures
        ui_state_matches(r, *install, *persisted, bak_exists, opt_bytes(asar_contents)),
{
    let f = match &persisted.feishu {
        Some(f) => f,
        None => {
            return if bak_exists {
                PatchUiState::Unknown
            } else {
                PatchUiState::Unpatched
            };
        },
    };
    let bytes = match asar_contents {
        Some(b) => b,
        None => {
            return PatchUiState::Unknown;
        },
    };
    let current_hash = sha256_label(bytes);
    if current_hash == f.asar_hash_after {
        let v = match &persisted.patches {
            Some(p) => p.active_version.clone(),
            None => String::new(),
        };
        PatchUiState::Patched { feishu_version: f.version_seen.clone(), patch_version: v }
    } else if bak_exists {
        PatchUiState::Stale { feishu_version_seen: f.version_seen.clone() }
    } else {
        PatchUiState::Unknown
    }
}

/// Right after a patch is applied, while the archive holds what was
/// written, the status shown is "patched", with the installation's version
/// (empty when unknown) and the version of the rules used.
pub proof fn lemma_patched_after_apply(
    install: InstallInfo,
    s: State,
    patch_version: Seq<char>,
    hash_before: Seq<char>,
    patched_at: Seq<char>,
    contents: Seq<u8>,
    bak_exists: bool,
    r: PatchUiState,
)
    requires
        records_patch(s, install, patch_version, hash_before, hash_label(sha256_of(contents)), patched_at),
        ui_state_matches(r, install, s, bak_exists, Some(contents)),
    ensures
        r matches PatchUiState::Patched { feishu_version, patch_version: pv } && feishu_version@
            == (match install.version {
                Some(v) => v@,
                None => Seq::empty(),
            }) && pv@ == patch_version,
{
}

/// Once the backup has been put back and the record cleared, the status
/// shown is "unpatched".
pub proof fn lemma_unpatched_after_restore(
    install: InstallInfo,
    before: State,
    after: State,
    contents: Option<Seq<u8>>,
    r: PatchUiState,
)
    requires
        is_cleared(after, before),
        ui_state_matches(r, install, after, false, contents),
    ensures
        r is Unpatched,
{
}

/// "Patched" is shown only for an archive whose fingerprint is the one
/// recorded after patching; an archive with a record whose fingerprint is
/// any other (the original's included) is shown "stale" while the backup
/// exists and "unknown" otherwise, never "patched".
pub proof fn lemma_patched_only_by_after_hash(
    install: InstallInfo,
    persisted: State,
    bak_exists: bool,
    contents: Option<Seq<u8>>,
    r: PatchUiState,
)
    requires
        ui_state_matches(r, install, persisted, bak_exists, contents),
    ensures
        r is Patched ==> (persisted.feishu matches Some(f) && contents matches Some(b) && hash_label(
            sha256_of(b),
        ) == f.asar_hash_after@),
        (persisted.feishu matches Some(f) && contents matches Some(b) && hash_label(sha256_of(b))
            != f.asar_hash_after@) ==> (if bak_exists {
            r is Stale
        } else {
            r is Unknown
        }),
{
}

} // verus!
