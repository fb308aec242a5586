//! The whole patch, end to end: unpacking the archive, applying the rules
//! to its JavaScript files, writing the patched files back and repacking.
use crate::asar::{read_model, ReadModel};
use crate::pack::{build_model, concat_blocks, lemma_pack_lists_exactly, lemma_pack_then_read, pack_items, path_ok, sorted_perm};
use crate::patcher::{
    anchors_of, lemma_touched_bounds, lemma_touched_exact, outcome_matches, patched, rule_payloads, touched, JsFile,
    PatchOutcome, PatchRule,
};
use crate::pickle::{aligned, frame_bytes};
use crate::splice::lemma_no_insertions;
use crate::tree::{
    lemma_ascending_unique, lemma_listed_paths_ok, lemma_listing_ascending, lemma_listing_prefix_free, name_ok,
    tree_sorted, walk_entries, wf_entries, NodeModel,
};
use crate::text::split_slash;
use vstd::prelude::*;

verus! {

/// The contents of the file at `path` once the patched files are written
/// back over the unpacked ones: the patched contents where the outcome has
/// the path, the unpacked ones otherwise.
pub open spec fn written_back(path: Seq<char>, old: Seq<u8>, patched_files: Seq<JsFile>) -> Seq<u8> {
    if exists|k: int| 0 <= k < patched_files.len() && (#[trigger] patched_files[k]).path@ == path {
        patched_files[choose|k: int| 0 <= k < patched_files.len() && (#[trigger] patched_files[k]).path@ == path].content@
    } else {
        old
    }
}

/// Unpacking an archive, applying the rules to some of its files (those at
/// the listed places `which`, with the contents read), writing the patched
/// files back and repacking gives an archive that lists the same paths (in
/// the same order when the header's names are in order), holds each
/// patched file with every payload right before its match, and holds every
/// other file as the original did.
#[verifier::rlimit(40)]
#[verifier::spinoff_prover]
pub proof fn lemma_unpack_patch_repack(
    e: Seq<(Seq<char>, NodeModel)>,
    payload_offset: nat,
    data: Seq<u8>,
    contents: Seq<Seq<u8>>,
    files: Seq<JsFile>,
    which: Seq<int>,
    patches: Seq<PatchRule>,
    m: Seq<Seq<Seq<usize>>>,
    o: PatchOutcome,
    new_contents: Seq<Seq<u8>>,
    order: Seq<usize>,
    header_json: Seq<u8>,
)
    requires
        wf_entries(e),
        contents.len() == walk_entries(e, Seq::empty()).len(),
        forall|j: int|
            0 <= j < contents.len() ==> read_model(e, payload_offset, data, #[trigger] walk_entries(e, Seq::empty())[j])
                == ReadModel::Found(contents[j]),
        which.len() == files.len(),
        forall|f: int|
            0 <= f < files.len() ==> 0 <= #[trigger] which[f] < contents.len() && files[f].path@
                == walk_entries(e, Seq::empty())[which[f]] && files[f].content@ == contents[which[f]],
        forall|a: int, b: int| 0 <= a < b < which.len() ==> #[trigger] which[a] != #[trigger] which[b],
        m.len() == files.len(),
        outcome_matches(o, files, patches, m),
        new_contents.len() == contents.len(),
        forall|j: int|
            0 <= j < new_contents.len() ==> #[trigger] new_contents[j] == written_back(
                walk_entries(e, Seq::empty())[j],
                contents[j],
                o.patched@,
            ),
        sorted_perm(walk_entries(e, Seq::empty()), order),
        concat_blocks(new_contents, order).len() <= u64::MAX,
        header_json.len() + 11 <= u32::MAX,
    ensures
        ({
            let paths = walk_entries(e, Seq::empty());
            let packed = build_model(pack_items(paths, new_contents, order));
            let off = 16 + aligned(header_json.len());
            let new_data = frame_bytes(header_json) + concat_blocks(new_contents, order);
            &&& forall|p: Seq<char>| #[trigger] walk_entries(packed, Seq::empty()).contains(p) <==> paths.contains(p)
            &&& tree_sorted(e) ==> walk_entries(packed, Seq::empty()) == paths
            &&& forall|f: int|
                0 <= f < files.len() ==> read_model(packed, off, new_data, #[trigger] files[f].path@)
                    == ReadModel::Found(patched(files[f].content@, anchors_of(m[f], rule_payloads(patches))))
            &&& forall|j: int|
                0 <= j < paths.len() && !which.contains(j) ==> read_model(packed, off, new_data, #[trigger] paths[j])
                    == read_model(e, payload_offset, data, paths[j])
        }),
{
    let paths = walk_entries(e, Seq::empty());
    let packed = build_model(pack_items(paths, new_contents, order));
    let off = 16 + aligned(header_json.len());
    let new_data = frame_bytes(header_json) + concat_blocks(new_contents, order);
    let pl = rule_payloads(patches);
    let t = touched(m, pl, files.len() as int);
    lemma_listing_prefix_free(e);
    lemma_listed_paths_ok(e);
    lemma_touched_bounds(m, pl, files.len() as int);
    lemma_touched_exact(m, pl, files.len() as int);
    // the listed paths are distinct
    assert forall|a: int, b: int| 0 <= a < paths.len() && 0 <= b < paths.len() && a != b implies paths[a] != paths[b] by {
        assert(split_slash(paths[a]).take(split_slash(paths[a]).len() as int) =~= split_slash(paths[a]));
    }
    // the listing is kept
    assert forall|k: int| 0 <= k < paths.len() implies path_ok(#[trigger] paths[k]) by {
        assert forall|q: int| 0 <= q < split_slash(paths[k]).len() implies name_ok(#[trigger] split_slash(paths[k])[q]) by {
            assert(name_ok(split_slash(walk_entries(e, Seq::empty())[k])[q]));
        }
    }
    assert forall|p: Seq<char>| #[trigger] walk_entries(packed, Seq::empty()).contains(p) <==> paths.contains(p) by {
        lemma_pack_lists_exactly(paths, new_contents, order, p);
    }
    lemma_pack_lists_exactly(paths, new_contents, order, Seq::empty());
    if tree_sorted(e) {
        lemma_listing_ascending(e);
        lemma_ascending_unique(walk_entries(packed, Seq::empty()), paths);
    }
    // the path of each patched file is that of the file it comes from
    assert forall|k: int| 0 <= k < o.patched@.len() implies (#[trigger] o.patched@[k]).path@ == paths[which[t[k]]] by {
        assert(0 <= t[k] < files.len());
        assert(o.patched@[k].path@ == files[t[k]].path@);
    }
    // each file handed to patching
    assert forall|f: int| 0 <= f < files.len() implies read_model(packed, off, new_data, #[trigger] files[f].path@)
        == ReadModel::Found(patched(files[f].content@, anchors_of(m[f], pl))) by {
        let j = which[f];
        lemma_pack_then_read(paths, new_contents, order, header_json, j);
        assert(new_contents[j] == written_back(paths[j], contents[j], o.patched@));
        if t.contains(f) {
            let k = choose|k: int| 0 <= k < t.len() && t[k] == f;
            assert(o.patched@[k].path@ == paths[j]);
            let k2 = choose|k2: int| 0 <= k2 < o.patched@.len() && (#[trigger] o.patched@[k2]).path@ == paths[j];
            assert(o.patched@[k2].path@ == paths[which[t[k2]]]);
            assert(which[t[k2]] == j);
            if t[k2] != f {
                if t[k2] < f {
                    assert(which[t[k2]] != which[f]);
                } else {
                    assert(which[f] != which[t[k2]]);
                }
            }
            assert(o.patched@[k2].content@ == patched(files[t[k2]].content@, anchors_of(m[t[k2]], pl)));
        } else {
            assert(anchors_of(m[f], pl).len() == 0);
            lemma_no_insertions(files[f].content@, anchors_of(m[f], pl), files[f].content@.len() as int);
            assert(patched(files[f].content@, anchors_of(m[f], pl)) =~= files[f].content@);
            assert forall|k: int| 0 <= k < o.patched@.len() implies (#[trigger] o.patched@[k]).path@ != paths[j] by {
                let g = t[k];
                assert(g != f);
                if g < f {
                    assert(which[g] != which[f]);
                } else {
                    assert(which[f] != which[g]);
                }
            }
        }
    }
    // every other listed file
    assert forall|j: int| 0 <= j < paths.len() && !which.contains(j) implies read_model(packed, off, new_data, #[trigger] paths[j])
        == read_model(e, payload_offset, data, paths[j]) by {
        lemma_pack_then_read(paths, new_contents, order, header_json, j);
        assert forall|k: int| 0 <= k < o.patched@.len() implies (#[trigger] o.patched@[k]).path@ != paths[j] by {
            assert(which[t[k]] != j) by {
                if which[t[k]] == j {
                    assert(which.contains(j));
                }
            }
        }
    }
}

} // verus!
