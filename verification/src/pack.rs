//! Packing files into an asar archive: the files are stored in path order,
//! the header records where each one starts, and reading an archive packed
//! this way gives back every file.
use crate::asar::{read_model, Header, Node, ReadModel};
use crate::pickle::{aligned, frame_bytes, frame_spec, lemma_frame_roundtrip, write_frame, FrameError};
use crate::text::{
    append_bytes, chars_lt, chars_of, decimal, decimal_string, lemma_parse_decimal,
    lemma_seq_lt_irreflexive, lemma_seq_lt_transitive, lemma_seq_lt_trichotomy,
    lemma_split_slash_nonempty, seq_lt, split_slash, views_of,
};
use crate::tree::{
    clear_path, entries_view, find_model, insert_model, insert_node, is_file, is_prefix,
    lemma_diverges, lemma_insert_files, lemma_insert_find_other, lemma_insert_find_same,
    lemma_ascending_unique, lemma_insert_names, lemma_insert_sorted, lemma_listed_paths_ok,
    lemma_listing_ascending, lemma_listing_exact, paths_ascending, lemma_listing_prefix_free, lemma_not_clear,
    lemma_sorted_wf, lemma_split_injective, name_ok, names_ok_entries, tree_sorted, walk_entries, wf_entries, NodeModel,
};
use vstd::prelude::*;

verus! {

// ---------------------------------------------------------------------------
// Path order
// ---------------------------------------------------------------------------

/// Index `i` appears in `order`.
pub open spec fn lists(order: Seq<usize>, i: int) -> bool {
    exists|a: int| 0 <= a < order.len() && order[a] == i
}

/// `order` lists every index of `keys` once, in non-decreasing order of the
/// keys, equal keys in their original order (what a stable sort gives).
pub open spec fn sorted_perm(keys: Seq<Seq<char>>, order: Seq<usize>) -> bool {
    &&& order.len() == keys.len()
    &&& forall|a: int| 0 <= a < order.len() ==> #[trigger] order[a] < keys.len()
    &&& forall|a: int, b: int| 0 <= a < b < order.len() ==> #[trigger] order[a] != #[trigger] order[b]
    &&& forall|i: int| 0 <= i < keys.len() ==> #[trigger] lists(order, i)
    &&& forall|a: int, b: int|
        0 <= a < b < order.len() ==> !seq_lt(keys[#[trigger] order[b] as int], keys[#[trigger] order[a] as int])
    &&& forall|a: int, b: int|
        0 <= a < b < order.len() && keys[#[trigger] order[a] as int] == keys[#[trigger] order[b] as int]
            ==> order[a] < order[b]
}

/// `order` so far: the indices below `m`, sorted as `sorted_perm` says,
/// with `pos[i]` the place of index `i`.
spec fn sorted_upto(keys: Seq<Seq<char>>, order: Seq<usize>, m: int, pos: Seq<int>) -> bool {
    &&& order.len() == m
    &&& pos.len() == m
    &&& forall|a: int| 0 <= a < order.len() ==> #[trigger] order[a] < m
    &&& forall|a: int, b: int| 0 <= a < b < order.len() ==> #[trigger] order[a] != #[trigger] order[b]
    &&& forall|i: int| 0 <= i < m ==> 0 <= #[trigger] pos[i] < m && order[pos[i]] == i
    &&& forall|a: int, b: int|
        0 <= a < b < order.len() ==> !seq_lt(keys[#[trigger] order[b] as int], keys[#[trigger] order[a] as int])
    &&& forall|a: int, b: int|
        0 <= a < b < order.len() && keys[#[trigger] order[a] as int] == keys[#[trigger] order[b] as int]
            ==> order[a] < order[b]
}

proof fn lemma_lt_le(x: Seq<char>, y: Seq<char>, z: Seq<char>)
    requires
        seq_lt(x, y),
        !seq_lt(z, y),
    ensures
        seq_lt(x, z),
{
    lemma_seq_lt_trichotomy(y, z);
    if seq_lt(y, z) {
        lemma_seq_lt_transitive(x, y, z);
    }
}

/// The indices of `keys` in stable non-decreasing order.
fn sorted_order(keys: &Vec<Vec<char>>) -> (order: Vec<usize>)
    ensures
        sorted_perm(views_of(keys@), order@),
{
    let ghost kv = views_of(keys@);
    let mut order: Vec<usize> = Vec::new();
    let ghost mut pos: Seq<int> = Seq::empty();
    for m in 0..keys.len()
        invariant
            kv == views_of(keys@),
            kv.len() == keys@.len(),
            sorted_upto(kv, order@, m as int, pos),
    {
        let mut p: usize = 0;
        while p < order.len() && !chars_lt(&keys[m], &keys[order[p]])
            invariant
                kv == views_of(keys@),
                m < keys@.len(),
                sorted_upto(kv, order@, m as int, pos),
                p <= order@.len(),
                forall|a: int| 0 <= a < p ==> !seq_lt(kv[m as int], kv[#[trigger] order@[a] as int]),
            decreases order@.len() - p,
        {
            p = p + 1;
        }
        let ghost old_order = order@;
        let ghost old_pos = pos;
        proof {
            lemma_seq_lt_irreflexive(kv[m as int]);
        }
        order.insert(p, m);
        proof {
            pos = Seq::new(m as nat, |i: int| if old_pos[i] >= p { old_pos[i] + 1 } else { old_pos[i] }).push(
                p as int,
            );
            let no = order@;
            assert(no == old_order.insert(p as int, m));
            assert forall|i: int| 0 <= i < m + 1 implies 0 <= #[trigger] pos[i] < m + 1 && no[pos[i]]
                == i by {
                if i < m {
                    assert(old_order[old_pos[i]] == i);
                }
            }
            assert forall|a: int, b: int| 0 <= a < b < no.len() implies #[trigger] no[a] != #[trigger] no[b] by {
                if a != p && b != p {
                    let a1 = if a < p { a } else { a - 1 };
                    let b1 = if b < p { b } else { b - 1 };
                    assert(no[a] == old_order[a1] && no[b] == old_order[b1]);
                }
            }
            assert forall|a: int, b: int| 0 <= a < b < no.len() implies !seq_lt(
                kv[#[trigger] no[b] as int],
                kv[#[trigger] no[a] as int],
            ) by {
                let a1 = if a < p { a } else { a - 1 };
                let b1 = if b < p { b } else { b - 1 };
                if a == p {
                    // the new index precedes everything after it
                    assert(no[b] == old_order[b1]);
                    assert(p <= b1);
                    if p < b1 {
                        assert(!seq_lt(kv[old_order[b1] as int], kv[old_order[p as int] as int]));
                    }
                    if p == b1 {
                        lemma_seq_lt_irreflexive(kv[old_order[p as int] as int]);
                    }
                    lemma_lt_le(kv[m as int], kv[old_order[p as int] as int], kv[old_order[b1] as int]);
                    lemma_seq_lt_trichotomy(kv[m as int], kv[old_order[b1] as int]);
                } else if b == p {
                    assert(no[a] == old_order[a1]);
                } else {
                    assert(no[a] == old_order[a1] && no[b] == old_order[b1]);
                }
            }
            assert forall|a: int, b: int|
                0 <= a < b < no.len() && kv[#[trigger] no[a] as int] == kv[#[trigger] no[b] as int] implies no[a]
                < no[b] by {
                let a1 = if a < p { a } else { a - 1 };
                let b1 = if b < p { b } else { b - 1 };
                if a == p {
                    assert(no[b] == old_order[b1]);
                    if p < b1 {
                        assert(!seq_lt(kv[old_order[b1] as int], kv[old_order[p as int] as int]));
                    }
                    if p == b1 {
                        lemma_seq_lt_irreflexive(kv[old_order[p as int] as int]);
                    }
                    lemma_lt_le(kv[m as int], kv[old_order[p as int] as int], kv[old_order[b1] as int]);
                    lemma_seq_lt_irreflexive(kv[m as int]);
                } else if b == p {
                    assert(no[a] == old_order[a1]);
                } else {
                    assert(no[a] == old_order[a1] && no[b] == old_order[b1]);
                }
            }
            assert(sorted_upto(kv, no, m + 1, pos));
        }
    }
    proof {
        assert forall|i: int| 0 <= i < kv.len() implies #[trigger] lists(order@, i) by {
            assert(order@[pos[i]] == i);
        }
    }
    order
}

// ---------------------------------------------------------------------------
// Layout
// ---------------------------------------------------------------------------

/// A file's header entry: stored at `offset` in the payload, `size` bytes.
pub open spec fn file_leaf(offset: nat, size: u64) -> NodeModel {
    NodeModel::File { offset: Some(decimal(offset)), size, executable: false, unpacked: false }
}

/// Total size of the items.
pub open spec fn total_size(items: Seq<(Seq<char>, u64)>) -> nat
    decreases items.len(),
{
    if items.len() == 0 {
        0
    } else {
        total_size(items.drop_last()) + items.last().1 as nat
    }
}

/// The header tree of files stored one after another in the given order.
pub open spec fn build_model(items: Seq<(Seq<char>, u64)>) -> Seq<(Seq<char>, NodeModel)>
    decreases items.len(),
{
    if items.len() == 0 {
        Seq::empty()
    } else {
        insert_model(
            build_model(items.drop_last()),
            split_slash(items.last().0),
            file_leaf(total_size(items.drop_last()), items.last().1),
        )
    }
}

/// No path leads to another (so none is repeated either), component by
/// component.
pub open spec fn prefix_free(paths: Seq<Seq<char>>) -> bool {
    forall|a: int, b: int|
        0 <= a < paths.len() && 0 <= b < paths.len() && a != b ==> !is_prefix(
            split_slash(#[trigger] paths[a]),
            split_slash(#[trigger] paths[b]),
        )
}

pub open spec fn item_paths(items: Seq<(Seq<char>, u64)>) -> Seq<Seq<char>> {
    items.map_values(|x: (Seq<char>, u64)| x.0)
}

/// Every item can be found at its path in the tree built from the items,
/// and every file in that tree is one of the items.
pub proof fn lemma_build(items: Seq<(Seq<char>, u64)>)
    requires
        prefix_free(item_paths(items)),
    ensures
        forall|k: int|
            0 <= k < items.len() ==> find_model(build_model(items), split_slash(#[trigger] items[k].0))
                == Some(file_leaf(total_size(items.take(k)), items[k].1)),
        forall|r: Seq<Seq<char>>|
            is_file(#[trigger] find_model(build_model(items), r)) ==> exists|k: int|
                0 <= k < items.len() && r == split_slash(#[trigger] items[k].0),
    decreases items.len(),
{
    if items.len() == 0 {
        assert forall|r: Seq<Seq<char>>| !is_file(#[trigger] find_model(build_model(items), r)) by {
            if r.len() > 0 {
                assert(crate::keyed::keys_of(Seq::<(Seq<char>, NodeModel)>::empty()) =~= Seq::<
                    Seq<char>,
                >::empty());
            }
        }
        return ;
    }
    let n = items.len() - 1;
    let prev = items.drop_last();
    assert forall|a: int, b: int|
        0 <= a < prev.len() && 0 <= b < prev.len() && a != b implies !is_prefix(
        split_slash(#[trigger] item_paths(prev)[a]),
        split_slash(#[trigger] item_paths(prev)[b]),
    ) by {
        assert(item_paths(prev)[a] == item_paths(items)[a]);
        assert(item_paths(prev)[b] == item_paths(items)[b]);
    }
    lemma_build(prev);
    let t = build_model(prev);
    let p = split_slash(items[n].0);
    let leaf = file_leaf(total_size(prev), items[n].1);
    lemma_split_slash_nonempty(items[n].0);
    assert(build_model(items) == insert_model(t, p, leaf));
    if !clear_path(t, p) {
        let j = lemma_not_clear(t, p);
        let k = choose|k: int| 0 <= k < prev.len() && p.take(j) == split_slash(#[trigger] prev[k].0);
        assert(item_paths(items)[k] == prev[k].0);
        assert(item_paths(items)[n] == items[n].0);
        assert(is_prefix(split_slash(item_paths(items)[k]), split_slash(item_paths(items)[n])));
    }
    lemma_insert_find_same(t, p, leaf);
    assert(items.take(n) =~= prev);
    assert forall|k: int| 0 <= k < items.len() implies find_model(
        build_model(items),
        split_slash(#[trigger] items[k].0),
    ) == Some(file_leaf(total_size(items.take(k)), items[k].1)) by {
        if k < n {
            let q = split_slash(items[k].0);
            assert(prev[k] == items[k]);
            assert(prev.take(k) =~= items.take(k));
            assert(item_paths(items)[k] == items[k].0);
            assert(item_paths(items)[n] == items[n].0);
            lemma_split_slash_nonempty(items[k].0);
            lemma_diverges(p, q);
            lemma_insert_find_other(t, p, leaf, q);
        }
    }
    assert forall|r: Seq<Seq<char>>| is_file(#[trigger] find_model(build_model(items), r)) implies exists|
        k: int,
    | 0 <= k < items.len() && r == split_slash(#[trigger] items[k].0) by {
        lemma_insert_files(t, p, leaf, r);
        if r != p {
            let k = choose|k: int| 0 <= k < prev.len() && r == split_slash(#[trigger] prev[k].0);
            assert(prev[k] == items[k]);
        }
    }
}

/// The header built from any items has every directory's names in
/// increasing order, as a `BTreeMap` keeps them.
pub proof fn lemma_build_sorted(items: Seq<(Seq<char>, u64)>)
    ensures
        tree_sorted(build_model(items)),
    decreases items.len(),
{
    if items.len() == 0 {
        assert(crate::keyed::keys_of(build_model(items)) =~= Seq::<Seq<char>>::empty());
    } else {
        lemma_build_sorted(items.drop_last());
        lemma_insert_sorted(
            build_model(items.drop_last()),
            split_slash(items.last().0),
            file_leaf(total_size(items.drop_last()), items.last().1),
        );
    }
}

/// The items of files stored in the given order: each path with its size.
pub open spec fn pack_items(paths: Seq<Seq<char>>, contents: Seq<Seq<u8>>, order: Seq<usize>) -> Seq<
    (Seq<char>, u64),
> {
    Seq::new(order.len(), |k: int| (paths[order[k] as int], contents[order[k] as int].len() as u64))
}

/// The files' contents one after another in the given order.
pub open spec fn concat_blocks(contents: Seq<Seq<u8>>, order: Seq<usize>) -> Seq<u8>
    decreases order.len(),
{
    if order.len() == 0 {
        Seq::empty()
    } else {
        concat_blocks(contents, order.drop_last()) + contents[order.last() as int]
    }
}

/// The pieces of a packed archive: the header tree, the contents of all
/// files one after another, and the order in which they are stored.
pub struct PackParts {
    pub header: Header,
    pub payload: Vec<u8>,
    pub order: Vec<usize>,
}

/// The path views of the files to pack.
pub open spec fn pack_paths(files: Seq<(String, Vec<u8>)>) -> Seq<Seq<char>> {
    files.map_values(|f: (String, Vec<u8>)| f.0@)
}

/// The content views of the files to pack.
pub open spec fn pack_contents(files: Seq<(String, Vec<u8>)>) -> Seq<Seq<u8>> {
    files.map_values(|f: (String, Vec<u8>)| f.1@)
}

proof fn lemma_total_concat(contents: Seq<Seq<u8>>, paths: Seq<Seq<char>>, order: Seq<usize>, k: int)
    requires
        0 <= k <= order.len(),
        forall|a: int| 0 <= a < order.len() ==> #[trigger] order[a] < contents.len(),
        paths.len() == contents.len(),
        forall|i: int| 0 <= i < contents.len() ==> #[trigger] contents[i].len() <= u64::MAX,
    ensures
        total_size(pack_items(paths, contents, order).take(k)) == concat_blocks(
            contents,
            order.take(k),
        ).len(),
    decreases k,
{
    if k > 0 {
        lemma_total_concat(contents, paths, order, k - 1);
        assert(pack_items(paths, contents, order).take(k).drop_last() =~= pack_items(
            paths,
            contents,
            order,
        ).take(k - 1));
        assert(order.take(k).drop_last() =~= order.take(k - 1));
    }
}

/// Lays out files for packing: they are stored in path order, and the
/// header gives each one its offset in the payload (as a decimal string)
/// and its size.
pub fn pack_parts(files: &Vec<(String, Vec<u8>)>) -> (r: PackParts)
    ensures
        sorted_perm(pack_paths(files@), r.order@),
        r.payload@ == concat_blocks(pack_contents(files@), r.order@),
        r.header.entries() == build_model(
            pack_items(pack_paths(files@), pack_contents(files@), r.order@),
        ),
{
    let ghost paths = pack_paths(files@);
    let ghost contents = pack_contents(files@);
    let mut keys: Vec<Vec<char>> = Vec::new();
    for i in 0..files.len()
        invariant
            views_of(keys@) == paths.take(i as int),
            paths == pack_paths(files@),
            contents == pack_contents(files@),
            forall|j: int| 0 <= j < i ==> #[trigger] contents[j].len() <= u64::MAX,
    {
        let ghost old_keys = keys@;
        let name = chars_of(files[i].0.as_str());
        keys.push(name);
        let _len = files[i].1.len();
        proof {
            assert(paths.len() == files@.len());
            assert(views_of(old_keys).len() == old_keys.len());
            assert(old_keys.len() == i);
            assert(keys@ == old_keys.push(name));
            assert forall|j: int| 0 <= j < i + 1 implies views_of(keys@)[j] == paths.take(i + 1)[j] by {
                if j < i {
                    assert(keys@[j] == old_keys[j]);
                    assert(views_of(old_keys)[j] == paths.take(i as int)[j]);
                }
            }
            assert(paths[i as int] == files@[i as int].0@);
            assert(contents[i as int] == files@[i as int].1@);
            assert(views_of(keys@) =~= paths.take(i + 1));
        }
    }
    proof {
        assert(paths.take(files@.len() as int) =~= paths);
    }
    let order = sorted_order(&keys);
    let ghost items = pack_items(paths, contents, order@);
    let mut payload: Vec<u8> = Vec::new();
    let mut tree: Vec<(String, Node)> = Vec::new();
    proof {
        assert(order@.take(0) =~= Seq::<usize>::empty());
        assert(items.take(0) =~= Seq::<(Seq<char>, u64)>::empty());
        assert(entries_view(tree@) =~= Seq::<(Seq<char>, NodeModel)>::empty());
    }
    for k in 0..order.len()
        invariant
            paths == pack_paths(files@),
            contents == pack_contents(files@),
            sorted_perm(paths, order@),
            items == pack_items(paths, contents, order@),
            forall|j: int| 0 <= j < contents.len() ==> #[trigger] contents[j].len() <= u64::MAX,
            payload@ == concat_blocks(contents, order@.take(k as int)),
            entries_view(tree@) == build_model(items.take(k as int)),
    {
        let idx = order[k];
        proof {
            assert(order@.take(k + 1).drop_last() =~= order@.take(k as int));
            assert(items.take(k + 1).drop_last() =~= items.take(k as int));
            assert(contents[idx as int] == files@[idx as int].1@);
            assert(paths[idx as int] == files@[idx as int].0@);
            lemma_total_concat(contents, paths, order@, k as int);
            assert(items[k as int] == (files@[idx as int].0@, files@[idx as int].1@.len() as u64));
        }
        let cursor = payload.len() as u64;
        let size = files[idx].1.len() as u64;
        let leaf = Node::File {
            offset: Some(decimal_string(cursor)),
            size,
            executable: false,
            unpacked: false,
        };
        insert_node(&mut tree, files[idx].0.as_str(), leaf);
        append_bytes(&mut payload, files[idx].1.as_slice());
    }
    proof {
        assert(order@.take(order@.len() as int) =~= order@);
        assert(items.take(order@.len() as int) =~= items);
    }
    proof {
        lemma_build_sorted(items);
    }
    PackParts { header: Header::from_sorted(tree), payload, order }
}

/// The archive's bytes: the frame with the header's JSON text, then the
/// payload.
pub fn encode_archive(header_json: &[u8], payload: &[u8]) -> (out: Vec<u8>)
    requires
        header_json@.len() + 11 <= u32::MAX,
    ensures
        out@ == frame_bytes(header_json@) + payload@,
{
    let mut out: Vec<u8> = Vec::new();
    write_frame(&mut out, header_json);
    append_bytes(&mut out, payload);
    proof {
        assert(out@ =~= frame_bytes(header_json@) + payload@);
    }
    out
}

// ---------------------------------------------------------------------------
// Reading back what was packed
// ---------------------------------------------------------------------------

proof fn lemma_concat_prefix(c: Seq<Seq<u8>>, o: Seq<usize>, m: int)
    requires
        0 <= m <= o.len(),
    ensures
        concat_blocks(c, o.take(m)).len() <= concat_blocks(c, o).len(),
        concat_blocks(c, o).take(concat_blocks(c, o.take(m)).len() as int) == concat_blocks(
            c,
            o.take(m),
        ),
    decreases o.len(),
{
    if m == o.len() {
        assert(o.take(m) =~= o);
        assert(concat_blocks(c, o).take(concat_blocks(c, o).len() as int) =~= concat_blocks(c, o));
    } else {
        let o1 = o.drop_last();
        lemma_concat_prefix(c, o1, m);
        assert(o1.take(m) =~= o.take(m));
        let a = concat_blocks(c, o1);
        let l = concat_blocks(c, o.take(m)).len() as int;
        assert((a + c[o.last() as int]).take(l) =~= a.take(l));
    }
}

/// The block of the file stored at place `k` lies right after the blocks
/// stored before it.
proof fn lemma_block(c: Seq<Seq<u8>>, o: Seq<usize>, k: int)
    requires
        0 <= k < o.len(),
    ensures
        ({
            let before = concat_blocks(c, o.take(k)).len() as int;
            &&& before + c[o[k] as int].len() <= concat_blocks(c, o).len()
            &&& concat_blocks(c, o).subrange(before, before + c[o[k] as int].len()) == c[o[k] as int]
        }),
{
    lemma_concat_prefix(c, o, k + 1);
    assert(o.take(k + 1).drop_last() =~= o.take(k));
    let before = concat_blocks(c, o.take(k));
    let upto = concat_blocks(c, o.take(k + 1));
    assert(upto == before + c[o[k] as int]);
    let all = concat_blocks(c, o);
    assert(all.subrange(before.len() as int, (before.len() + c[o[k] as int].len()) as int) =~= upto.subrange(
        before.len() as int,
        upto.len() as int,
    ));
}

/// Packing files whose paths do not lead to one another, framing the
/// header's JSON text before the payload, and reading any of the paths back
/// from the result gives that file's contents.
pub proof fn lemma_pack_then_read(
    paths: Seq<Seq<char>>,
    contents: Seq<Seq<u8>>,
    order: Seq<usize>,
    header_json: Seq<u8>,
    i: int,
)
    requires
        paths.len() == contents.len(),
        sorted_perm(paths, order),
        prefix_free(paths),
        concat_blocks(contents, order).len() <= u64::MAX,
        header_json.len() + 11 <= u32::MAX,
        0 <= i < paths.len(),
    ensures
        frame_spec(frame_bytes(header_json) + concat_blocks(contents, order)) == Ok::<
            (nat, nat),
            FrameError,
        >((header_json.len(), 16 + aligned(header_json.len()))),
        read_model(
            build_model(pack_items(paths, contents, order)),
            16 + aligned(header_json.len()),
            frame_bytes(header_json) + concat_blocks(contents, order),
            paths[i],
        ) == ReadModel::Found(contents[i]),
{
    let payload = concat_blocks(contents, order);
    lemma_frame_roundtrip(header_json, payload);
    let items = pack_items(paths, contents, order);
    // every file is stored somewhere, and no block is longer than the payload
    assert forall|j: int| 0 <= j < contents.len() implies #[trigger] contents[j].len() <= u64::MAX by {
        assert(lists(order, j));
        let a = choose|a: int| 0 <= a < order.len() && order[a] == j;
        lemma_block(contents, order, a);
    }
    assert(lists(order, i));
    let k = choose|a: int| 0 <= a < order.len() && order[a] == i;
    assert forall|a: int, b: int|
        0 <= a < items.len() && 0 <= b < items.len() && a != b implies !is_prefix(
        split_slash(#[trigger] item_paths(items)[a]),
        split_slash(#[trigger] item_paths(items)[b]),
    ) by {
        if a < b {
            assert(order[a] != order[b]);
        } else {
            assert(order[b] != order[a]);
        }
        assert(item_paths(items)[a] == paths[order[a] as int]);
        assert(item_paths(items)[b] == paths[order[b] as int]);
    }
    lemma_build(items);
    assert(items[k].0 == paths[i]);
    lemma_total_concat(contents, paths, order, k);
    lemma_block(contents, order, k);
    let off = concat_blocks(contents, order.take(k)).len();
    lemma_parse_decimal(off as u64);
    let size = contents[i].len();
    let fb = frame_bytes(header_json);
    let data = fb + payload;
    let start = 16 + aligned(header_json.len()) + off;
    assert(data.subrange(start as int, (start + size) as int) =~= payload.subrange(off as int, (off + size) as int));
}

/// Unpacking an archive and packing what came out keeps every file: when
/// the header's names are well formed and every listed file was read, the
/// archive packed from the listed paths and the contents read (stored in
/// path order, behind any header text) reads back, at each listed path,
/// what the original gave; its header has a file at a path, and its
/// listing holds the path, exactly when the original listed that path; and
/// when the original's names were in order at every level, as a
/// `BTreeMap` keeps them, the two listings are the same sequence.
pub proof fn lemma_repack_roundtrip(
    e: Seq<(Seq<char>, NodeModel)>,
    payload_offset: nat,
    data: Seq<u8>,
    contents: Seq<Seq<u8>>,
    order: Seq<usize>,
    header_json: Seq<u8>,
    i: int,
)
    requires
        wf_entries(e),
        contents.len() == walk_entries(e, Seq::empty()).len(),
        forall|j: int|
            0 <= j < contents.len() ==> read_model(e, payload_offset, data, #[trigger] walk_entries(e, Seq::empty())[j])
                == ReadModel::Found(contents[j]),
        sorted_perm(walk_entries(e, Seq::empty()), order),
        concat_blocks(contents, order).len() <= u64::MAX,
        header_json.len() + 11 <= u32::MAX,
        0 <= i < contents.len(),
    ensures
        ({
            let paths = walk_entries(e, Seq::empty());
            let packed = build_model(pack_items(paths, contents, order));
            let new_data = frame_bytes(header_json) + concat_blocks(contents, order);
            &&& read_model(packed, 16 + aligned(header_json.len()), new_data, paths[i]) == read_model(
                e,
                payload_offset,
                data,
                paths[i],
            )
            &&& forall|p: Seq<char>| #[trigger] is_file(find_model(packed, split_slash(p))) <==> paths.contains(p)
            &&& forall|p: Seq<char>| #[trigger] walk_entries(packed, Seq::empty()).contains(p) <==> paths.contains(p)
            &&& tree_sorted(e) ==> walk_entries(packed, Seq::empty()) == paths
        }),
{
    let paths = walk_entries(e, Seq::empty());
    lemma_listing_prefix_free(e);
    lemma_pack_then_read(paths, contents, order, header_json, i);
    assert(read_model(e, payload_offset, data, paths[i]) == ReadModel::Found(contents[i]));
    let items = pack_items(paths, contents, order);
    assert forall|a: int, b: int|
        0 <= a < items.len() && 0 <= b < items.len() && a != b implies !is_prefix(
        split_slash(#[trigger] item_paths(items)[a]),
        split_slash(#[trigger] item_paths(items)[b]),
    ) by {
        if a < b {
            assert(order[a] != order[b]);
        } else {
            assert(order[b] != order[a]);
        }
        assert(item_paths(items)[a] == paths[order[a] as int]);
        assert(item_paths(items)[b] == paths[order[b] as int]);
    }
    lemma_build(items);
    let packed = build_model(items);
    lemma_listed_paths_ok(e);
    assert forall|k: int| 0 <= k < paths.len() implies path_ok(#[trigger] paths[k]) by {
        assert forall|j: int| 0 <= j < split_slash(paths[k]).len() implies name_ok(#[trigger] split_slash(paths[k])[j]) by {
            assert(name_ok(split_slash(walk_entries(e, Seq::empty())[k])[j]));
        }
    }
    assert forall|p: Seq<char>| #[trigger] walk_entries(packed, Seq::empty()).contains(p) <==> paths.contains(p) by {
        lemma_pack_lists_exactly(paths, contents, order, p);
    }
    lemma_pack_lists_exactly(paths, contents, order, Seq::empty());
    if tree_sorted(e) {
        lemma_listing_ascending(e);
        lemma_ascending_unique(walk_entries(packed, Seq::empty()), paths);
    }
    assert forall|p: Seq<char>| #[trigger] is_file(find_model(packed, split_slash(p))) <==> paths.contains(p) by {
        if is_file(find_model(packed, split_slash(p))) {
            let a = choose|a: int| 0 <= a < items.len() && split_slash(p) == split_slash(#[trigger] items[a].0);
            assert(items[a].0 == paths[order[a] as int]);
            lemma_split_injective(p, paths[order[a] as int]);
        }
        if paths.contains(p) {
            let j = choose|j: int| 0 <= j < paths.len() && paths[j] == p;
            assert(lists(order, j));
            let a = choose|a: int| 0 <= a < order.len() && order[a] == j;
            assert(items[a].0 == p);
            assert(is_file(find_model(packed, split_slash(items[a].0))));
        }
    }
}

/// Every `/`-separated component of the path is a usable name: not empty
/// and free of `/` (no leading, trailing or doubled `/`).
pub open spec fn path_ok(p: Seq<char>) -> bool {
    forall|i: int| 0 <= i < split_slash(p).len() ==> name_ok(#[trigger] split_slash(p)[i])
}

proof fn lemma_build_names(items: Seq<(Seq<char>, u64)>)
    requires
        forall|k: int| 0 <= k < items.len() ==> path_ok(#[trigger] items[k].0),
    ensures
        names_ok_entries(build_model(items)),
    decreases items.len(),
{
    if items.len() > 0 {
        let prev = items.drop_last();
        assert forall|k: int| 0 <= k < prev.len() implies path_ok(#[trigger] prev[k].0) by {
            assert(prev[k] == items[k]);
        }
        lemma_build_names(prev);
        assert(path_ok(items[items.len() - 1].0));
        lemma_insert_names(
            build_model(prev),
            split_slash(items.last().0),
            file_leaf(total_size(prev), items.last().1),
        );
    }
}

/// Packing files whose paths are well formed and do not lead to one another
/// gives a well-formed header, with its names in order at every level,
/// whose listing holds exactly those paths, each once, in ascending path
/// order.
pub proof fn lemma_pack_lists_exactly(
    paths: Seq<Seq<char>>,
    contents: Seq<Seq<u8>>,
    order: Seq<usize>,
    p: Seq<char>,
)
    requires
        paths.len() == contents.len(),
        sorted_perm(paths, order),
        prefix_free(paths),
        forall|k: int| 0 <= k < paths.len() ==> path_ok(#[trigger] paths[k]),
    ensures
        walk_entries(build_model(pack_items(paths, contents, order)), Seq::empty()).contains(p)
            <==> paths.contains(p),
        wf_entries(build_model(pack_items(paths, contents, order))),
        tree_sorted(build_model(pack_items(paths, contents, order))),
        paths_ascending(walk_entries(build_model(pack_items(paths, contents, order)), Seq::empty())),
        forall|a: int, b: int|
            0 <= a < b < walk_entries(build_model(pack_items(paths, contents, order)), Seq::empty()).len()
                ==> #[trigger] walk_entries(build_model(pack_items(paths, contents, order)), Seq::empty())[a]
                != #[trigger] walk_entries(build_model(pack_items(paths, contents, order)), Seq::empty())[b],
{
    let items = pack_items(paths, contents, order);
    assert forall|k: int| 0 <= k < items.len() implies path_ok(#[trigger] items[k].0) by {
        assert(items[k].0 == paths[order[k] as int]);
    }
    lemma_build_names(items);
    lemma_build_sorted(items);
    let packed = build_model(items);
    lemma_sorted_wf(packed);
    lemma_listing_exact(packed, p);
    lemma_listing_ascending(packed);
    assert forall|a: int, b: int|
        0 <= a < items.len() && 0 <= b < items.len() && a != b implies !is_prefix(
        split_slash(#[trigger] item_paths(items)[a]),
        split_slash(#[trigger] item_paths(items)[b]),
    ) by {
        if a < b {
            assert(order[a] != order[b]);
        } else {
            assert(order[b] != order[a]);
        }
        assert(item_paths(items)[a] == paths[order[a] as int]);
        assert(item_paths(items)[b] == paths[order[b] as int]);
    }
    lemma_build(items);
    if is_file(find_model(packed, split_slash(p))) {
        let a = choose|a: int| 0 <= a < items.len() && split_slash(p) == split_slash(#[trigger] items[a].0);
        assert(items[a].0 == paths[order[a] as int]);
        lemma_split_injective(p, paths[order[a] as int]);
    }
    if paths.contains(p) {
        let j = choose|j: int| 0 <= j < paths.len() && paths[j] == p;
        assert(lists(order, j));
        let a = choose|a: int| 0 <= a < order.len() && order[a] == j;
        assert(items[a].0 == p);
        assert(is_file(find_model(packed, split_slash(items[a].0))));
    }
}

} // verus!
