//! The directory tree of an asar header: its mathematical model, lookup of
//! a `/`-separated path, insertion of a file, listing of all files, and the
//! laws that tie them together.
use crate::asar::Node;
use crate::keyed::{
    entry_lookup, entry_set, exec_keys, find_key, insert_position, keys_of, lemma_set_lookup_other,
    lemma_set_lookup_same,
};
use crate::text::{
    chars_of, join_path, lemma_split_slash_nonempty, split_path, split_slash, string_of, views_of,
};
use vstd::prelude::*;

verus! {

/// A header node as mathematics sees it: names and offsets as character
/// sequences.
pub enum NodeModel {
    Dir(Seq<(Seq<char>, NodeModel)>),
    File { offset: Option<Seq<char>>, size: u64, executable: bool, unpacked: bool },
}

pub open spec fn opt_string_view(o: Option<String>) -> Option<Seq<char>> {
    match o {
        Some(s) => Some(s@),
        None => None,
    }
}

/// The model of a node.
pub open spec fn node_view(n: Node) -> NodeModel
    decreases n, 1nat,
{
    match n {
        Node::Dir { files } => {
            proof {
                vstd::std_specs::vec::axiom_vec_decreases_to_view(files);
            }
            NodeModel::Dir(entries_view(files@))
        },
        Node::File { offset, size, executable, unpacked } => NodeModel::File {
            offset: opt_string_view(offset),
            size,
            executable,
            unpacked,
        },
    }
}

/// The model of a directory's entries, in order.
pub open spec fn entries_view(s: Seq<(String, Node)>) -> Seq<(Seq<char>, NodeModel)>
    decreases s, 0nat,
{
    if s.len() == 0 {
        Seq::empty()
    } else {
        proof {
            vstd::seq::axiom_seq_subrange_decreases(s, 0, s.len() - 1);
            vstd::seq::axiom_seq_index_decreases(s, s.len() - 1);
        }
        entries_view(s.drop_last()).push((s.last().0@, node_view(s.last().1)))
    }
}

pub proof fn lemma_entries_view(s: Seq<(String, Node)>)
    ensures
        entries_view(s).len() == s.len(),
        forall|i: int|
            0 <= i < s.len() ==> #[trigger] entries_view(s)[i] == (s[i].0@, node_view(s[i].1)),
        keys_of(entries_view(s)) == exec_keys(s),
    decreases s.len(),
{
    if s.len() > 0 {
        lemma_entries_view(s.drop_last());
        assert forall|i: int| 0 <= i < s.len() implies #[trigger] entries_view(s)[i] == (
            s[i].0@,
            node_view(s[i].1),
        ) by {
            if i < s.len() - 1 {
                assert(entries_view(s)[i] == entries_view(s.drop_last())[i]);
            }
        }
    }
    assert(keys_of(entries_view(s)) =~= exec_keys(s));
}

/// The node that a path of names leads to, if any.
pub open spec fn find_model(e: Seq<(Seq<char>, NodeModel)>, parts: Seq<Seq<char>>) -> Option<
    NodeModel,
>
    decreases parts.len(),
{
    if parts.len() == 0 {
        None
    } else {
        match entry_lookup(e, parts[0]) {
            None => None,
            Some(n) => if parts.len() == 1 {
                Some(n)
            } else {
                match n {
                    NodeModel::Dir(f) => find_model(f, parts.drop_first()),
                    NodeModel::File { .. } => None,
                }
            },
        }
    }
}

/// The tree with `leaf` placed at a path of names. Missing directories on
/// the way are created; if a file stands on the way, nothing changes.
pub open spec fn insert_model(
    e: Seq<(Seq<char>, NodeModel)>,
    parts: Seq<Seq<char>>,
    leaf: NodeModel,
) -> Seq<(Seq<char>, NodeModel)>
    decreases parts.len(),
{
    if parts.len() == 0 {
        e
    } else if parts.len() == 1 {
        entry_set(e, parts[0], leaf)
    } else {
        match entry_lookup(e, parts[0]) {
            None => entry_set(
                e,
                parts[0],
                NodeModel::Dir(insert_model(Seq::empty(), parts.drop_first(), leaf)),
            ),
            Some(NodeModel::Dir(f)) => entry_set(
                e,
                parts[0],
                NodeModel::Dir(insert_model(f, parts.drop_first(), leaf)),
            ),
            Some(NodeModel::File { .. }) => e,
        }
    }
}

/// No file stands at a proper prefix of the path.
pub open spec fn clear_path(e: Seq<(Seq<char>, NodeModel)>, parts: Seq<Seq<char>>) -> bool
    decreases parts.len(),
{
    parts.len() <= 1 || match entry_lookup(e, parts[0]) {
        None => true,
        Some(NodeModel::Dir(f)) => clear_path(f, parts.drop_first()),
        Some(NodeModel::File { .. }) => false,
    }
}

pub open spec fn is_file(o: Option<NodeModel>) -> bool {
    o matches Some(NodeModel::File { .. })
}

/// `p` is `q` or leads to it.
pub open spec fn is_prefix(p: Seq<Seq<char>>, q: Seq<Seq<char>>) -> bool {
    p.len() <= q.len() && q.take(p.len() as int) == p
}

/// The two paths part at some component that both have.
pub open spec fn diverges(p: Seq<Seq<char>>, q: Seq<Seq<char>>) -> bool
    decreases p.len(),
{
    p.len() > 0 && q.len() > 0 && (p[0] != q[0] || diverges(p.drop_first(), q.drop_first()))
}

/// Two paths of which neither leads to the other part somewhere.
pub proof fn lemma_diverges(p: Seq<Seq<char>>, q: Seq<Seq<char>>)
    requires
        p.len() > 0,
        q.len() > 0,
        !is_prefix(p, q),
        !is_prefix(q, p),
    ensures
        diverges(p, q),
    decreases p.len(),
{
    if p[0] == q[0] {
        if p.len() == 1 {
            assert(q.take(1) =~= p);
        } else if q.len() == 1 {
            assert(p.take(1) =~= q);
        } else {
            let p1 = p.drop_first();
            let q1 = q.drop_first();
            if is_prefix(p1, q1) {
                assert(q.take(p.len() as int) =~= seq![q[0]] + q1.take(p1.len() as int));
                assert(p =~= seq![p[0]] + p1);
            }
            if is_prefix(q1, p1) {
                assert(p.take(q.len() as int) =~= seq![p[0]] + p1.take(q1.len() as int));
                assert(q =~= seq![q[0]] + q1);
            }
            lemma_diverges(p1, q1);
        }
    }
}

/// Inserting along a clear path puts the leaf there.
pub proof fn lemma_insert_find_same(
    e: Seq<(Seq<char>, NodeModel)>,
    parts: Seq<Seq<char>>,
    leaf: NodeModel,
)
    requires
        parts.len() >= 1,
        clear_path(e, parts),
    ensures
        find_model(insert_model(e, parts, leaf), parts) == Some(leaf),
    decreases parts.len(),
{
    if parts.len() == 1 {
        lemma_set_lookup_same(e, parts[0], leaf);
    } else {
        let rest = parts.drop_first();
        match entry_lookup(e, parts[0]) {
            None => {
                lemma_insert_find_same(Seq::empty(), rest, leaf);
                lemma_set_lookup_same(
                    e,
                    parts[0],
                    NodeModel::Dir(insert_model(Seq::empty(), rest, leaf)),
                );
            },
            Some(NodeModel::Dir(f)) => {
                lemma_insert_find_same(f, rest, leaf);
                lemma_set_lookup_same(e, parts[0], NodeModel::Dir(insert_model(f, rest, leaf)));
            },
            Some(NodeModel::File { .. }) => {},
        }
    }
}

proof fn lemma_empty_lookup(k: Seq<char>)
    ensures
        entry_lookup(Seq::<(Seq<char>, NodeModel)>::empty(), k) is None,
{
    assert(keys_of(Seq::<(Seq<char>, NodeModel)>::empty()) =~= Seq::<Seq<char>>::empty());
}

/// Inserting leaves every path that parts from the inserted one as it was.
#[verifier::rlimit(30)]
pub proof fn lemma_insert_find_other(
    e: Seq<(Seq<char>, NodeModel)>,
    parts: Seq<Seq<char>>,
    leaf: NodeModel,
    q: Seq<Seq<char>>,
)
    requires
        diverges(parts, q),
    ensures
        find_model(insert_model(e, parts, leaf), q) == find_model(e, q),
    decreases parts.len(),
{
    let e2 = insert_model(e, parts, leaf);
    assert(q.len() > 0 && parts.len() > 0);
    if parts[0] != q[0] {
        if parts.len() == 1 {
            lemma_set_lookup_other(e, parts[0], leaf, q[0]);
        } else {
            match entry_lookup(e, parts[0]) {
                None => lemma_set_lookup_other(
                    e,
                    parts[0],
                    NodeModel::Dir(insert_model(Seq::empty(), parts.drop_first(), leaf)),
                    q[0],
                ),
                Some(NodeModel::Dir(f)) => lemma_set_lookup_other(
                    e,
                    parts[0],
                    NodeModel::Dir(insert_model(f, parts.drop_first(), leaf)),
                    q[0],
                ),
                Some(NodeModel::File { .. }) => {},
            }
        }
        assert(entry_lookup(e2, q[0]) == entry_lookup(e, q[0]));
    } else {
        let rest = parts.drop_first();
        let qrest = q.drop_first();
        assert(diverges(rest, qrest));
        assert(rest.len() > 0 && qrest.len() > 0);
        match entry_lookup(e, parts[0]) {
            None => {
                let sub = insert_model(Seq::empty(), rest, leaf);
                lemma_set_lookup_same(e, parts[0], NodeModel::Dir(sub));
                lemma_insert_find_other(Seq::empty(), rest, leaf, qrest);
                lemma_empty_lookup(qrest[0]);
                assert(find_model(Seq::empty(), qrest) is None);
                assert(find_model(e2, q) == find_model(sub, qrest));
            },
            Some(NodeModel::Dir(f)) => {
                let sub = insert_model(f, rest, leaf);
                lemma_set_lookup_same(e, parts[0], NodeModel::Dir(sub));
                lemma_insert_find_other(f, rest, leaf, qrest);
                assert(find_model(e2, q) == find_model(sub, qrest));
            },
            Some(NodeModel::File { .. }) => {},
        }
    }
}

/// After inserting a file, a path that leads to a file is the inserted
/// path or led to a file before.
pub proof fn lemma_insert_files(
    e: Seq<(Seq<char>, NodeModel)>,
    parts: Seq<Seq<char>>,
    leaf: NodeModel,
    r: Seq<Seq<char>>,
)
    requires
        parts.len() >= 1,
        leaf is File,
        is_file(find_model(insert_model(e, parts, leaf), r)),
    ensures
        r == parts || is_file(find_model(e, r)),
    decreases parts.len(),
{
    let e2 = insert_model(e, parts, leaf);
    if r[0] != parts[0] {
        if parts.len() == 1 {
            lemma_set_lookup_other(e, parts[0], leaf, r[0]);
        } else {
            match entry_lookup(e, parts[0]) {
                None => lemma_set_lookup_other(
                    e,
                    parts[0],
                    NodeModel::Dir(insert_model(Seq::empty(), parts.drop_first(), leaf)),
                    r[0],
                ),
                Some(NodeModel::Dir(f)) => lemma_set_lookup_other(
                    e,
                    parts[0],
                    NodeModel::Dir(insert_model(f, parts.drop_first(), leaf)),
                    r[0],
                ),
                Some(NodeModel::File { .. }) => {},
            }
        }
    } else if parts.len() == 1 {
        lemma_set_lookup_same(e, parts[0], leaf);
        if r.len() == 1 {
            assert(r =~= parts);
        }
    } else {
        let rest = parts.drop_first();
        let rrest = r.drop_first();
        match entry_lookup(e, parts[0]) {
            None => {
                let sub = insert_model(Seq::empty(), rest, leaf);
                lemma_set_lookup_same(e, parts[0], NodeModel::Dir(sub));
                if r.len() > 1 {
                    lemma_empty_lookup(rrest[0]);
                    lemma_insert_files(Seq::empty(), rest, leaf, rrest);
                    assert(r =~= seq![r[0]] + rrest);
                    assert(parts =~= seq![parts[0]] + rest);
                }
            },
            Some(NodeModel::Dir(f)) => {
                let sub = insert_model(f, rest, leaf);
                lemma_set_lookup_same(e, parts[0], NodeModel::Dir(sub));
                if r.len() > 1 {
                    lemma_insert_files(f, rest, leaf, rrest);
                    assert(r =~= seq![r[0]] + rrest);
                    assert(parts =~= seq![parts[0]] + rest);
                }
            },
            Some(NodeModel::File { .. }) => {},
        }
    }
}

/// A path that is not clear has a file at one of its proper prefixes.
pub proof fn lemma_not_clear(e: Seq<(Seq<char>, NodeModel)>, parts: Seq<Seq<char>>) -> (j: int)
    requires
        !clear_path(e, parts),
    ensures
        1 <= j < parts.len(),
        is_file(find_model(e, parts.take(j))),
    decreases parts.len(),
{
    match entry_lookup(e, parts[0]) {
        Some(NodeModel::Dir(f)) => {
            let rest = parts.drop_first();
            let j1 = lemma_not_clear(f, rest);
            let t = parts.take(j1 + 1);
            assert(t[0] == parts[0]);
            assert(t.drop_first() =~= rest.take(j1));
            j1 + 1
        },
        _ => {
            assert(parts.take(1)[0] == parts[0]);
            1
        },
    }
}

// ---------------------------------------------------------------------------
// Executable lookup and insertion
// ---------------------------------------------------------------------------

proof fn lemma_lookup_exec(s: Seq<(String, Node)>, key: Seq<char>, i: int)
    requires
        i == crate::keyed::key_index(exec_keys(s), key),
    ensures
        i >= 0 ==> entry_lookup(entries_view(s), key) == Some(node_view(s[i].1)),
        i < 0 ==> entry_lookup(entries_view(s), key) is None,
{
    lemma_entries_view(s);
    crate::keyed::lemma_key_index(exec_keys(s), key);
}

/// The node at a `/`-separated path of the tree, if any.
pub fn find_node<'a>(map: &'a Vec<(String, Node)>, path: &str) -> (r: Option<&'a Node>)
    ensures
        match r {
            Some(n) => find_model(entries_view(map@), split_slash(path@)) == Some(node_view(*n)),
            None => find_model(entries_view(map@), split_slash(path@)) is None,
        },
{
    let parts = split_path(&chars_of(path));
    let ghost all = views_of(parts@);
    let mut cur: &Vec<(String, Node)> = map;
    let mut i: usize = 0;
    proof {
        assert(all.skip(0) =~= all);
    }
    while i < parts.len()
        invariant
            all == views_of(parts@),
            all == split_slash(path@),
            i < parts@.len(),
            find_model(entries_view(map@), all) == find_model(entries_view(cur@), all.skip(i as int)),
        decreases parts@.len() - i,
    {
        let ghost here = all.skip(i as int);
        proof {
            assert(here[0] == parts@[i as int]@);
        }
        match find_key(cur, &parts[i]) {
            None => {
                proof {
                    lemma_lookup_exec(cur@, here[0], -1);
                }
                return None;
            },
            Some(j) => {
                proof {
                    lemma_lookup_exec(cur@, here[0], j as int);
                }
                let node = &cur[j].1;
                if i == parts.len() - 1 {
                    return Some(node);
                }
                match node {
                    Node::Dir { files } => {
                        proof {
                            assert(here.drop_first() =~= all.skip(i + 1));
                        }
                        cur = files;
                    },
                    _ => {
                        return None;
                    },
                }
            },
        }
        i = i + 1;
    }
    None
}

/// Binds `key` to `node` in a directory's entries.
fn set_entry(entries: &mut Vec<(String, Node)>, key: String, node: Node)
    ensures
        entries_view(final(entries)@) == entry_set(entries_view(old(entries)@), key@, node_view(node)),
{
    let ghost old_s = entries@;
    let ghost kv = (key@, node_view(node));
    let name = chars_of(key.as_str());
    proof {
        lemma_entries_view(old_s);
        crate::keyed::lemma_key_index(exec_keys(old_s), key@);
    }
    match find_key(entries, &name) {
        Some(i) => {
            let _ = entries.remove(i);
            entries.insert(i, (key, node));
            proof {
                assert(entries@ =~= old_s.update(i as int, entries@[i as int]));
                lemma_entries_view(entries@);
                assert(entries_view(entries@) =~= entries_view(old_s).update(i as int, kv));
            }
        },
        None => {
            let p = insert_position(entries, &name);
            let ghost pair = (key, node);
            entries.insert(p, (key, node));
            proof {
                assert(entries@ =~= old_s.insert(p as int, pair));
                lemma_entries_view(entries@);
                assert(entries_view(entries@) =~= entries_view(old_s).insert(p as int, kv));
            }
        },
    }
}

/// Inserts `leaf` at the path `parts[i..]`.
fn insert_parts(tree: &mut Vec<(String, Node)>, parts: &Vec<Vec<char>>, i: usize, leaf: Node)
    requires
        i < parts@.len(),
    ensures
        entries_view(final(tree)@) == insert_model(
            entries_view(old(tree)@),
            views_of(parts@).skip(i as int),
            node_view(leaf),
        ),
    decreases parts@.len() - i,
{
    let ghost old_s = tree@;
    let ghost here = views_of(parts@).skip(i as int);
    let ghost lv = node_view(leaf);
    let name = string_of(&parts[i]);
    proof {
        assert(here[0] == parts@[i as int]@);
    }
    if i == parts.len() - 1 {
        set_entry(tree, name, leaf);
        return ;
    }
    proof {
        assert(here.drop_first() =~= views_of(parts@).skip(i + 1));
    }
    match find_key(tree, &parts[i]) {
        Some(j) => {
            proof {
                lemma_lookup_exec(old_s, here[0], j as int);
                lemma_entries_view(old_s);
                crate::keyed::lemma_key_index(exec_keys(old_s), here[0]);
                assert(exec_keys(old_s)[j as int] == old_s[j as int].0@);
            }
            let (key, node) = tree.remove(j);
            match node {
                Node::Dir { files } => {
                    let mut files = files;
                    insert_parts(&mut files, parts, i + 1, leaf);
                    let new_node = Node::Dir { files };
                    tree.insert(j, (key, new_node));
                    proof {
                        lemma_entries_view(tree@);
                        assert(tree@ =~= old_s.update(j as int, tree@[j as int]));
                        assert(entries_view(tree@) =~= entries_view(old_s).update(
                            j as int,
                            (here[0], node_view(new_node)),
                        ));
                    }
                },
                Node::File { offset, size, executable, unpacked } => {
                    tree.insert(j, (key, Node::File { offset, size, executable, unpacked }));
                    proof {
                        assert(tree@ =~= old_s);
                    }
                },
            }
        },
        None => {
            proof {
                lemma_lookup_exec(old_s, here[0], -1);
            }
            let mut files: Vec<(String, Node)> = Vec::new();
            proof {
                assert(entries_view(files@) =~= Seq::<(Seq<char>, NodeModel)>::empty());
            }
            insert_parts(&mut files, parts, i + 1, leaf);
            set_entry(tree, name, Node::Dir { files });
        },
    }
}

/// Places `leaf` at the `/`-separated path `virtual_path`, creating the
/// directories on the way; if a file stands on the way, the tree is left as
/// it was.
pub fn insert_node(tree: &mut Vec<(String, Node)>, virtual_path: &str, leaf: Node)
    ensures
        entries_view(final(tree)@) == insert_model(
            entries_view(old(tree)@),
            split_slash(virtual_path@),
            node_view(leaf),
        ),
{
    let parts = split_path(&chars_of(virtual_path));
    proof {
        assert(views_of(parts@).skip(0) =~= views_of(parts@));
    }
    insert_parts(tree, &parts, 0, leaf);
}

// ---------------------------------------------------------------------------
// Listing
// ---------------------------------------------------------------------------

/// The paths of all files below the entries, depth first, each under
/// `prefix`.
pub open spec fn walk_entries(e: Seq<(Seq<char>, NodeModel)>, prefix: Seq<char>) -> Seq<Seq<char>>
    decreases e, 0nat,
{
    if e.len() == 0 {
        Seq::empty()
    } else {
        proof {
            vstd::seq::axiom_seq_subrange_decreases(e, 0, e.len() - 1);
            vstd::seq::axiom_seq_index_decreases(e, e.len() - 1);
        }
        walk_entries(e.drop_last(), prefix) + walk_node(e.last().1, join_path(prefix, e.last().0))
    }
}

/// The paths of all files at or below a node found at `path`.
pub open spec fn walk_node(n: NodeModel, path: Seq<char>) -> Seq<Seq<char>>
    decreases n, 1nat,
{
    match n {
        NodeModel::Dir(f) => walk_entries(f, path),
        NodeModel::File { .. } => seq![path],
    }
}

/// The views of a sequence of strings.
pub open spec fn strings_view(s: Seq<String>) -> Seq<Seq<char>> {
    s.map_values(|x: String| x@)
}

/// Appends to `out` the path of every file below `map`, depth first.
pub fn walk(map: &Vec<(String, Node)>, prefix: &[char], out: &mut Vec<String>)
    ensures
        strings_view(final(out)@) == strings_view(old(out)@) + walk_entries(
            entries_view(map@),
            prefix@,
        ),
    decreases map@,
{
    let ghost start = strings_view(out@);
    let ghost ev = entries_view(map@);
    proof {
        lemma_entries_view(map@);
        assert(ev.take(0) =~= Seq::<(Seq<char>, NodeModel)>::empty());
    }
    for i in 0..map.len()
        invariant
            ev == entries_view(map@),
            ev.len() == map@.len(),
            strings_view(out@) == start + walk_entries(ev.take(i as int), prefix@),
    {
        proof {
            lemma_entries_view(map@);
            assert(ev.take(i + 1).drop_last() =~= ev.take(i as int));
            assert(ev.take(i + 1).last() == ev[i as int]);
        }
        let name = chars_of(map[i].0.as_str());
        let mut next: Vec<char> = Vec::new();
        if prefix.len() == 0 {
            next = name;
        } else {
            let mut k: usize = 0;
            while k < prefix.len()
                invariant
                    k <= prefix@.len(),
                    next@ == prefix@.take(k as int),
                decreases prefix@.len() - k,
            {
                next.push(prefix[k]);
                k = k + 1;
                proof {
                    assert(next@ =~= prefix@.take(k as int));
                }
            }
            next.push('/');
            let mut k: usize = 0;
            let ghost base = next@;
            while k < name.len()
                invariant
                    k <= name@.len(),
                    next@ == base + name@.take(k as int),
                decreases name@.len() - k,
            {
                next.push(name[k]);
                k = k + 1;
                proof {
                    assert(next@ =~= base + name@.take(k as int));
                }
            }
            proof {
                assert(prefix@.take(prefix@.len() as int) =~= prefix@);
                assert(name@.take(name@.len() as int) =~= name@);
            }
        }
        let ghost nodev = node_view(map@[i as int].1);
        let ghost before = strings_view(out@);
        proof {
            assert(next@ =~= join_path(prefix@, map@[i as int].0@));
            assert(ev[i as int] == (map@[i as int].0@, nodev));
            assert(walk_entries(ev.take(i + 1), prefix@) == walk_entries(ev.take(i as int), prefix@)
                + walk_node(nodev, next@));
        }
        match &map[i].1 {
            Node::Dir { files } => {
                proof {
                    vstd::std_specs::vec::axiom_vec_decreases_to_view(*map);
                    vstd::seq::axiom_seq_index_decreases(map@, i as int);
                    assert(nodev == NodeModel::Dir(entries_view(files@)));
                }
                walk(files, &next, out);
            },
            Node::File { .. } => {
                let s = string_of(&next);
                out.push(s);
                proof {
                    assert(walk_node(nodev, next@) == seq![next@]);
                    assert(strings_view(out@) =~= before.push(next@));
                }
            },
        }
        proof {
            assert(strings_view(out@) =~= start + walk_entries(ev.take(i + 1), prefix@));
        }
    }
    proof {
        assert(ev.take(map@.len() as int) =~= ev);
    }
}

// ---------------------------------------------------------------------------
// What the listing lists can be found
// ---------------------------------------------------------------------------

/// A name that can stand as a path component: not empty, no `/`.
pub open spec fn name_ok(name: Seq<char>) -> bool {
    name.len() > 0 && forall|i: int| 0 <= i < name.len() ==> name[i] != '/'
}

/// Every directory's names can stand as path components and are distinct.
pub open spec fn wf_entries(e: Seq<(Seq<char>, NodeModel)>) -> bool
    decreases e, 0nat,
{
    if e.len() == 0 {
        true
    } else {
        proof {
            vstd::seq::axiom_seq_subrange_decreases(e, 0, e.len() - 1);
            vstd::seq::axiom_seq_index_decreases(e, e.len() - 1);
        }
        &&& wf_entries(e.drop_last())
        &&& name_ok(e.last().0)
        &&& crate::keyed::key_index(keys_of(e), e.last().0) == e.len() - 1
        &&& wf_node(e.last().1)
    }
}

pub open spec fn wf_node(n: NodeModel) -> bool
    decreases n, 1nat,
{
    match n {
        NodeModel::Dir(f) => wf_entries(f),
        NodeModel::File { .. } => true,
    }
}

/// The components joined with `/`.
pub open spec fn join_all(c: Seq<Seq<char>>) -> Seq<char>
    decreases c.len(),
{
    if c.len() == 0 {
        Seq::empty()
    } else {
        join_path(join_all(c.drop_last()), c.last())
    }
}

/// What a path leads to below a node.
pub open spec fn node_find(n: NodeModel, r: Seq<Seq<char>>) -> Option<NodeModel> {
    if r.len() == 0 {
        Some(n)
    } else {
        match n {
            NodeModel::Dir(f) => find_model(f, r),
            NodeModel::File { .. } => None,
        }
    }
}

proof fn lemma_split_append(s: Seq<char>, name: Seq<char>)
    requires
        forall|i: int| 0 <= i < name.len() ==> name[i] != '/',
    ensures
        split_slash(s + seq!['/'] + name) == split_slash(s).push(name),
    decreases name.len(),
{
    let x = s + seq!['/'] + name;
    assert(x.len() > 0);
    if name.len() == 0 {
        assert(x.drop_last() =~= s);
        assert(x.last() == '/');
        assert(split_slash(x) == split_slash(x.drop_last()).push(Seq::<char>::empty()));
        assert(name =~= Seq::<char>::empty());
    } else {
        let n1 = name.drop_last();
        lemma_split_append(s, n1);
        assert(x.drop_last() =~= s + seq!['/'] + n1);
        assert(x.last() == name.last());
        assert(name.last() != '/');
        let p = split_slash(x.drop_last());
        assert(p == split_slash(s).push(n1));
        assert(split_slash(x) == p.update(p.len() - 1, p.last().push(x.last())));
        assert(n1.push(name.last()) =~= name);
        assert(p.update(p.len() - 1, p.last().push(x.last())) =~= split_slash(s).push(name));
    }
}

proof fn lemma_split_name(name: Seq<char>)
    requires
        forall|i: int| 0 <= i < name.len() ==> name[i] != '/',
    ensures
        split_slash(name) == seq![name],
    decreases name.len(),
{
    if name.len() > 0 {
        let n1 = name.drop_last();
        lemma_split_name(n1);
        assert(name.last() != '/');
        let p = split_slash(n1);
        assert(split_slash(name) == p.update(p.len() - 1, p.last().push(name.last())));
        assert(n1.push(name.last()) =~= name);
        assert(p.update(p.len() - 1, p.last().push(name.last())) =~= seq![name]);
    } else {
        assert(name =~= Seq::<char>::empty());
    }
}

proof fn lemma_split_join_all(c: Seq<Seq<char>>)
    requires
        c.len() > 0,
        forall|i: int| 0 <= i < c.len() ==> name_ok(#[trigger] c[i]),
    ensures
        split_slash(join_all(c)) == c,
        join_all(c).len() > 0,
    decreases c.len(),
{
    let c1 = c.drop_last();
    assert(name_ok(c[c.len() - 1]));
    if c.len() == 1 {
        assert(join_all(c1) =~= Seq::<char>::empty());
        lemma_split_name(c.last());
        assert(seq![c.last()] =~= c);
    } else {
        assert forall|i: int| 0 <= i < c1.len() implies name_ok(#[trigger] c1[i]) by {
            assert(c1[i] == c[i]);
        }
        lemma_split_join_all(c1);
        lemma_split_append(join_all(c1), c.last());
        assert(c1.push(c.last()) =~= c);
    }
}

proof fn lemma_lookup_prefix(e: Seq<(Seq<char>, NodeModel)>, k: Seq<char>)
    requires
        e.len() > 0,
        crate::keyed::key_index(keys_of(e.drop_last()), k) >= 0,
    ensures
        entry_lookup(e, k) == entry_lookup(e.drop_last(), k),
{
    let e1 = e.drop_last();
    crate::keyed::lemma_key_index(keys_of(e1), k);
    let i = crate::keyed::key_index(keys_of(e1), k);
    assert forall|j: int| 0 <= j < i implies keys_of(e)[j] != k by {
        assert(keys_of(e)[j] == keys_of(e1)[j]);
    }
    crate::keyed::lemma_key_index_is(keys_of(e), k, i);
}

proof fn lemma_find_prefix(e: Seq<(Seq<char>, NodeModel)>, r: Seq<Seq<char>>)
    requires
        e.len() > 0,
        is_file(find_model(e.drop_last(), r)),
    ensures
        is_file(find_model(e, r)),
{
    let e1 = e.drop_last();
    crate::keyed::lemma_key_index(keys_of(e1), r[0]);
    lemma_lookup_prefix(e, r[0]);
}

/// `p` is `c` followed by a path that leads to a file of `e`.
pub open spec fn leads_to_file(e: Seq<(Seq<char>, NodeModel)>, c: Seq<Seq<char>>, p: Seq<char>) -> bool {
    exists|r: Seq<Seq<char>>| #[trigger] (c + r) == split_slash(p) && is_file(find_model(e, r))
}

/// `p` is `c` followed by a path that leads from `n` to a file.
pub open spec fn leads_to_file_node(n: NodeModel, c: Seq<Seq<char>>, p: Seq<char>) -> bool {
    exists|r: Seq<Seq<char>>| #[trigger] (c + r) == split_slash(p) && is_file(node_find(n, r))
}

/// Every path that the listing of `e` under the components `c` gives is
/// `c` followed by a path that leads to a file of `e`.
proof fn lemma_walk_entries(e: Seq<(Seq<char>, NodeModel)>, c: Seq<Seq<char>>)
    requires
        wf_entries(e),
        forall|i: int| 0 <= i < c.len() ==> name_ok(#[trigger] c[i]),
    ensures
        forall|i: int|
            0 <= i < walk_entries(e, join_all(c)).len() ==> leads_to_file(
                e,
                c,
                #[trigger] walk_entries(e, join_all(c))[i],
            ),
    decreases e, 0nat,
{
    if e.len() > 0 {
        let e1 = e.drop_last();
        let name = e.last().0;
        let n = e.last().1;
        vstd::seq::axiom_seq_subrange_decreases(e, 0, e.len() - 1);
        vstd::seq::axiom_seq_index_decreases(e, e.len() - 1);
        lemma_walk_entries(e1, c);
        let cn = c.push(name);
        assert forall|i: int| 0 <= i < cn.len() implies name_ok(#[trigger] cn[i]) by {
            if i < c.len() {
                assert(cn[i] == c[i]);
            }
        }
        assert(cn.drop_last() =~= c);
        if c.len() == 0 {
            assert(join_all(c) =~= Seq::<char>::empty());
        }
        lemma_walk_node(n, cn);
        crate::keyed::lemma_key_index(keys_of(e), name);
        assert(entry_lookup(e, name) == Some(n));
        let w = walk_entries(e, join_all(c));
        let w1 = walk_entries(e1, join_all(c));
        let w2 = walk_node(n, join_all(cn));
        assert(w == w1 + w2);
        assert forall|i: int| 0 <= i < w.len() implies leads_to_file(e, c, #[trigger] w[i]) by {
            if i < w1.len() {
                assert(w[i] == w1[i]);
                assert(leads_to_file(e1, c, w1[i]));
                let r = choose|r: Seq<Seq<char>>| #[trigger] (c + r) == split_slash(w1[i]) && is_file(find_model(e1, r));
                lemma_find_prefix(e, r);
                assert((c + r) == split_slash(w[i]) && is_file(find_model(e, r)));
            } else {
                let k = i - w1.len();
                assert(w[i] == w2[k]);
                assert(leads_to_file_node(n, cn, w2[k]));
                let r1 = choose|r1: Seq<Seq<char>>| #[trigger] (cn + r1) == split_slash(w2[k]) && is_file(node_find(n, r1));
                let r = seq![name] + r1;
                assert(c + r =~= cn + r1);
                assert(r[0] == name);
                assert(r.drop_first() =~= r1);
                assert(find_model(e, r) == node_find(n, r1));
                assert((c + r) == split_slash(w[i]) && is_file(find_model(e, r)));
            }
        }
    }
}

/// Every path that the listing of a node at the components `c` gives is
/// `c` followed by a path that leads from the node to a file.
proof fn lemma_walk_node(n: NodeModel, c: Seq<Seq<char>>)
    requires
        wf_node(n),
        c.len() > 0,
        forall|i: int| 0 <= i < c.len() ==> name_ok(#[trigger] c[i]),
    ensures
        forall|i: int|
            0 <= i < walk_node(n, join_all(c)).len() ==> leads_to_file_node(
                n,
                c,
                #[trigger] walk_node(n, join_all(c))[i],
            ),
    decreases n, 1nat,
{
    match n {
        NodeModel::Dir(f) => {
            lemma_walk_entries(f, c);
            let w = walk_node(n, join_all(c));
            assert(w == walk_entries(f, join_all(c)));
            assert forall|i: int| 0 <= i < w.len() implies leads_to_file_node(n, c, #[trigger] w[i]) by {
                assert(leads_to_file(f, c, w[i]));
                let r = choose|r: Seq<Seq<char>>| #[trigger] (c + r) == split_slash(w[i]) && is_file(find_model(f, r));
                if r.len() == 0 {
                    assert(find_model(f, r) is None);
                }
                assert(node_find(n, r) == find_model(f, r));
                assert((c + r) == split_slash(w[i]) && is_file(node_find(n, r)));
            }
        },
        NodeModel::File { .. } => {
            lemma_split_join_all(c);
            let w = walk_node(n, join_all(c));
            assert(w == seq![join_all(c)]);
            assert forall|i: int| 0 <= i < w.len() implies leads_to_file_node(n, c, #[trigger] w[i]) by {
                let r = Seq::<Seq<char>>::empty();
                assert(c + r =~= c);
                assert((c + r) == split_slash(w[i]) && is_file(node_find(n, r)));
            }
        },
    }
}

/// In a tree whose names are distinct, non-empty and free of `/`, every
/// path that the listing gives leads to a file.
pub proof fn lemma_listed_files_found(e: Seq<(Seq<char>, NodeModel)>)
    requires
        wf_entries(e),
    ensures
        forall|i: int|
            0 <= i < walk_entries(e, Seq::empty()).len() ==> is_file(
                find_model(e, split_slash(#[trigger] walk_entries(e, Seq::empty())[i])),
            ),
{
    let c = Seq::<Seq<char>>::empty();
    lemma_walk_entries(e, c);
    assert(join_all(c) =~= Seq::<char>::empty());
    assert forall|i: int| 0 <= i < walk_entries(e, Seq::empty()).len() implies is_file(
        find_model(e, split_slash(#[trigger] walk_entries(e, Seq::empty())[i])),
    ) by {
        let p = walk_entries(e, join_all(c))[i];
        assert(leads_to_file(e, c, p));
        let r = choose|r: Seq<Seq<char>>| #[trigger] (c + r) == split_slash(p) && is_file(find_model(e, r));
        assert(c + r =~= r);
    }
}

/// Two paths that differ at a component that both have: neither leads to
/// the other.
proof fn lemma_differ_at(x: Seq<Seq<char>>, y: Seq<Seq<char>>, k: int)
    requires
        0 <= k < x.len(),
        k < y.len(),
        x[k] != y[k],
    ensures
        !is_prefix(x, y),
        !is_prefix(y, x),
{
    if is_prefix(x, y) {
        assert(y.take(x.len() as int)[k] == y[k]);
    }
    if is_prefix(y, x) {
        assert(x.take(y.len() as int)[k] == x[k]);
    }
}

/// A path that leads to a file starts with one of the entries' names.
proof fn lemma_found_first(e: Seq<(Seq<char>, NodeModel)>, r: Seq<Seq<char>>)
    requires
        is_file(find_model(e, r)),
    ensures
        r.len() > 0,
        crate::keyed::key_index(keys_of(e), r[0]) >= 0,
{
}

/// The paths that the listing of `e` under the components `c` gives are
/// prefix-free: none of them is another, or leads to another.
proof fn lemma_walk_prefix_free(e: Seq<(Seq<char>, NodeModel)>, c: Seq<Seq<char>>)
    requires
        wf_entries(e),
        forall|i: int| 0 <= i < c.len() ==> name_ok(#[trigger] c[i]),
    ensures
        crate::pack::prefix_free(walk_entries(e, join_all(c))),
    decreases e, 0nat,
{
    if e.len() > 0 {
        let e1 = e.drop_last();
        let name = e.last().0;
        let n = e.last().1;
        vstd::seq::axiom_seq_subrange_decreases(e, 0, e.len() - 1);
        vstd::seq::axiom_seq_index_decreases(e, e.len() - 1);
        lemma_walk_prefix_free(e1, c);
        lemma_walk_entries(e1, c);
        let cn = c.push(name);
        assert forall|i: int| 0 <= i < cn.len() implies name_ok(#[trigger] cn[i]) by {
            if i < c.len() {
                assert(cn[i] == c[i]);
            }
        }
        assert(cn.drop_last() =~= c);
        if c.len() == 0 {
            assert(join_all(c) =~= Seq::<char>::empty());
        }
        lemma_walk_node(n, cn);
        lemma_walk_node_prefix_free(n, cn);
        crate::keyed::lemma_key_index(keys_of(e), name);
        let w1 = walk_entries(e1, join_all(c));
        let w2 = walk_node(n, join_all(cn));
        let w = walk_entries(e, join_all(c));
        assert(w == w1 + w2);
        // a path listed under an earlier name and one listed under `name`
        // part at the component after `c`
        assert forall|a: int, b: int| 0 <= a < w1.len() && 0 <= b < w2.len() implies !is_prefix(
            split_slash(w1[a]),
            split_slash(w2[b]),
        ) && !is_prefix(split_slash(w2[b]), split_slash(w1[a])) by {
            assert(leads_to_file(e1, c, w1[a]));
            let r1 = choose|r: Seq<Seq<char>>| #[trigger] (c + r) == split_slash(w1[a]) && is_file(find_model(e1, r));
            lemma_found_first(e1, r1);
            crate::keyed::lemma_key_index(keys_of(e1), r1[0]);
            let j = crate::keyed::key_index(keys_of(e1), r1[0]);
            assert(keys_of(e)[j] == keys_of(e1)[j]);
            assert(r1[0] != name);
            assert(leads_to_file_node(n, cn, w2[b]));
            let r2 = choose|r: Seq<Seq<char>>| #[trigger] (cn + r) == split_slash(w2[b]) && is_file(node_find(n, r));
            assert((c + r1)[c.len() as int] == r1[0]);
            assert((cn + r2)[c.len() as int] == name);
            lemma_differ_at(split_slash(w1[a]), split_slash(w2[b]), c.len() as int);
        }
        assert forall|a: int, b: int|
            0 <= a < w.len() && 0 <= b < w.len() && a != b implies !is_prefix(
            split_slash(#[trigger] w[a]),
            split_slash(#[trigger] w[b]),
        ) by {
            if a < w1.len() && b < w1.len() {
                assert(w[a] == w1[a] && w[b] == w1[b]);
            } else if a >= w1.len() && b >= w1.len() {
                assert(w[a] == w2[a - w1.len()] && w[b] == w2[b - w1.len()]);
            } else if a < w1.len() {
                assert(w[a] == w1[a] && w[b] == w2[b - w1.len()]);
            } else {
                assert(w[b] == w1[b] && w[a] == w2[a - w1.len()]);
            }
        }
    }
}

/// The same for the listing of one node.
proof fn lemma_walk_node_prefix_free(n: NodeModel, c: Seq<Seq<char>>)
    requires
        wf_node(n),
        c.len() > 0,
        forall|i: int| 0 <= i < c.len() ==> name_ok(#[trigger] c[i]),
    ensures
        crate::pack::prefix_free(walk_node(n, join_all(c))),
    decreases n, 1nat,
{
    match n {
        NodeModel::Dir(f) => {
            lemma_walk_prefix_free(f, c);
        },
        NodeModel::File { .. } => {},
    }
}

/// In a tree whose names are distinct, non-empty and free of `/`, no
/// listed path is another listed path or leads to one: the listing names
/// each file once.
pub proof fn lemma_listing_prefix_free(e: Seq<(Seq<char>, NodeModel)>)
    requires
        wf_entries(e),
    ensures
        crate::pack::prefix_free(walk_entries(e, Seq::empty())),
{
    let c = Seq::<Seq<char>>::empty();
    lemma_walk_prefix_free(e, c);
    assert(join_all(c) =~= Seq::<char>::empty());
}

/// The components joined with `/`, empty ones included.
spec fn join_raw(c: Seq<Seq<char>>) -> Seq<char>
    decreases c.len(),
{
    if c.len() == 0 {
        Seq::empty()
    } else if c.len() == 1 {
        c[0]
    } else {
        join_raw(c.drop_last()) + seq!['/'] + c.last()
    }
}

/// Joining the components of a path with `/` gives the path back.
proof fn lemma_join_raw_split(s: Seq<char>)
    ensures
        join_raw(split_slash(s)) == s,
    decreases s.len(),
{
    if s.len() > 0 {
        let s1 = s.drop_last();
        lemma_join_raw_split(s1);
        crate::text::lemma_split_slash_nonempty(s1);
        let p = split_slash(s1);
        if s.last() == '/' {
            let q = p.push(Seq::<char>::empty());
            assert(q.drop_last() =~= p);
            assert(s =~= s1 + seq!['/'] + Seq::<char>::empty());
        } else {
            let q = p.update(p.len() - 1, p.last().push(s.last()));
            if p.len() == 1 {
                assert(q[0] =~= s);
            } else {
                assert(q.drop_last() =~= p.drop_last());
                assert(join_raw(p) == join_raw(p.drop_last()) + seq!['/'] + p.last());
                assert(join_raw(q) =~= join_raw(p).push(s.last()));
                assert(s =~= s1.push(s.last()));
            }
        }
    }
}

/// Paths with the same components are the same path.
pub proof fn lemma_split_injective(a: Seq<char>, b: Seq<char>)
    requires
        split_slash(a) == split_slash(b),
    ensures
        a == b,
{
    lemma_join_raw_split(a);
    lemma_join_raw_split(b);
}

/// A name found among well-formed entries can stand as a component, and
/// what it names is well formed.
proof fn lemma_wf_lookup(e: Seq<(Seq<char>, NodeModel)>, k: Seq<char>)
    requires
        wf_entries(e),
        crate::keyed::key_index(keys_of(e), k) >= 0,
    ensures
        name_ok(k),
        wf_node(e[crate::keyed::key_index(keys_of(e), k)].1),
    decreases e.len(),
{
    let e1 = e.drop_last();
    crate::keyed::lemma_key_index(keys_of(e), k);
    let j = crate::keyed::key_index(keys_of(e), k);
    if j < e.len() - 1 {
        assert forall|t: int| 0 <= t < j implies keys_of(e1)[t] != k by {
            assert(keys_of(e1)[t] == keys_of(e)[t]);
        }
        assert(keys_of(e1)[j] == keys_of(e)[j]);
        crate::keyed::lemma_key_index_is(keys_of(e1), k, j);
        lemma_wf_lookup(e1, k);
        assert(e1[j] == e[j]);
    }
}

/// The components of a path that leads somewhere in well-formed entries
/// can all stand as components.
proof fn lemma_found_names(e: Seq<(Seq<char>, NodeModel)>, r: Seq<Seq<char>>)
    requires
        wf_entries(e),
        find_model(e, r) is Some,
    ensures
        forall|i: int| 0 <= i < r.len() ==> name_ok(#[trigger] r[i]),
    decreases r.len(),
{
    lemma_wf_lookup(e, r[0]);
    if r.len() > 1 {
        let j = crate::keyed::key_index(keys_of(e), r[0]);
        match e[j].1 {
            NodeModel::Dir(f) => {
                lemma_found_names(f, r.drop_first());
                assert forall|i: int| 0 <= i < r.len() implies name_ok(#[trigger] r[i]) by {
                    if i > 0 {
                        assert(r[i] == r.drop_first()[i - 1]);
                    }
                }
            },
            NodeModel::File { .. } => {},
        }
    }
}

/// Joining names that can stand as components gives the path that they
/// are the components of.
proof fn lemma_join_all_split(p: Seq<char>)
    requires
        forall|i: int| 0 <= i < split_slash(p).len() ==> name_ok(#[trigger] split_slash(p)[i]),
    ensures
        join_all(split_slash(p)) == p,
{
    let c = split_slash(p);
    crate::text::lemma_split_slash_nonempty(p);
    lemma_split_join_all(c);
    lemma_split_injective(join_all(c), p);
}

/// Every file that a path leads to below the entries is listed, under the
/// components `c`, at `c` followed by that path.
proof fn lemma_walk_complete(e: Seq<(Seq<char>, NodeModel)>, c: Seq<Seq<char>>, r: Seq<Seq<char>>)
    requires
        wf_entries(e),
        forall|i: int| 0 <= i < c.len() ==> name_ok(#[trigger] c[i]),
        is_file(find_model(e, r)),
    ensures
        walk_entries(e, join_all(c)).contains(join_all(c + r)),
    decreases e, 0nat,
{
    let e1 = e.drop_last();
    let name = e.last().0;
    let n = e.last().1;
    vstd::seq::axiom_seq_subrange_decreases(e, 0, e.len() - 1);
    vstd::seq::axiom_seq_index_decreases(e, e.len() - 1);
    crate::keyed::lemma_key_index(keys_of(e), r[0]);
    let j = crate::keyed::key_index(keys_of(e), r[0]);
    let w1 = walk_entries(e1, join_all(c));
    let cn = c.push(name);
    assert(cn.drop_last() =~= c);
    if c.len() == 0 {
        assert(join_all(c) =~= Seq::<char>::empty());
    }
    let w2 = walk_node(n, join_all(cn));
    assert(walk_entries(e, join_all(c)) == w1 + w2);
    if j < e.len() - 1 {
        assert forall|t: int| 0 <= t < j implies keys_of(e1)[t] != r[0] by {
            assert(keys_of(e1)[t] == keys_of(e)[t]);
        }
        assert(keys_of(e1)[j] == keys_of(e)[j]);
        crate::keyed::lemma_key_index_is(keys_of(e1), r[0], j);
        assert(e1[j] == e[j]);
        assert(find_model(e1, r) == find_model(e, r));
        lemma_walk_complete(e1, c, r);
        let k = choose|k: int| 0 <= k < w1.len() && w1[k] == join_all(c + r);
        assert((w1 + w2)[k] == w1[k]);
    } else {
        assert(keys_of(e)[j] == name);
        assert(r[0] == name);
        assert forall|i: int| 0 <= i < cn.len() implies name_ok(#[trigger] cn[i]) by {
            if i < c.len() {
                assert(cn[i] == c[i]);
            }
        }
        if r.len() == 1 {
            assert(c + r =~= cn);
            assert(w2 == seq![join_all(cn)]);
            assert((w1 + w2)[w1.len() as int] == w2[0]);
        } else {
            match n {
                NodeModel::Dir(f) => {
                    let r1 = r.drop_first();
                    assert(wf_node(n));
                    assert(wf_entries(f));
                    assert(find_model(f, r1) == find_model(e, r));
                    lemma_walk_complete(f, cn, r1);
                    assert(cn + r1 =~= c + r);
                    let k = choose|k: int| 0 <= k < w2.len() && w2[k] == join_all(cn + r1);
                    assert((w1 + w2)[w1.len() + k] == w2[k]);
                },
                NodeModel::File { .. } => {},
            }
        }
    }
}

/// In a tree whose names are distinct, non-empty and free of `/`, the
/// listing holds exactly the paths that lead to files.
pub proof fn lemma_listing_exact(e: Seq<(Seq<char>, NodeModel)>, p: Seq<char>)
    requires
        wf_entries(e),
    ensures
        walk_entries(e, Seq::empty()).contains(p) <==> is_file(find_model(e, split_slash(p))),
{
    let c = Seq::<Seq<char>>::empty();
    assert(join_all(c) =~= Seq::<char>::empty());
    if is_file(find_model(e, split_slash(p))) {
        lemma_found_names(e, split_slash(p));
        lemma_join_all_split(p);
        lemma_walk_complete(e, c, split_slash(p));
        assert(c + split_slash(p) =~= split_slash(p));
    }
    if walk_entries(e, Seq::empty()).contains(p) {
        lemma_listed_files_found(e);
        let k = choose|k: int| 0 <= k < walk_entries(e, Seq::empty()).len() && walk_entries(e, Seq::empty())[k] == p;
        assert(is_file(find_model(e, split_slash(walk_entries(e, Seq::empty())[k]))));
    }
}

// ---------------------------------------------------------------------------
// Names in order, as in a `BTreeMap`
// ---------------------------------------------------------------------------

/// Every directory below the entries has its names in increasing order.
pub open spec fn nodes_sorted(e: Seq<(Seq<char>, NodeModel)>) -> bool
    decreases e, 0nat,
{
    if e.len() == 0 {
        true
    } else {
        proof {
            vstd::seq::axiom_seq_subrange_decreases(e, 0, e.len() - 1);
            vstd::seq::axiom_seq_index_decreases(e, e.len() - 1);
        }
        nodes_sorted(e.drop_last()) && node_sorted(e.last().1)
    }
}

/// A directory has its names in increasing order, and so do those below.
pub open spec fn node_sorted(n: NodeModel) -> bool
    decreases n, 1nat,
{
    match n {
        NodeModel::Dir(f) => crate::keyed::keys_sorted(keys_of(f)) && nodes_sorted(f),
        NodeModel::File { .. } => true,
    }
}

/// The entries' names, and those of every directory below, are in
/// increasing order, as the keys of a `BTreeMap` are.
pub open spec fn tree_sorted(e: Seq<(Seq<char>, NodeModel)>) -> bool {
    crate::keyed::keys_sorted(keys_of(e)) && nodes_sorted(e)
}

proof fn lemma_nodes_sorted_iff(e: Seq<(Seq<char>, NodeModel)>)
    ensures
        nodes_sorted(e) <==> forall|i: int| 0 <= i < e.len() ==> node_sorted(#[trigger] e[i].1),
    decreases e.len(),
{
    if e.len() > 0 {
        let e1 = e.drop_last();
        lemma_nodes_sorted_iff(e1);
        if nodes_sorted(e) {
            assert(node_sorted(e.last().1));
            assert forall|i: int| 0 <= i < e.len() implies node_sorted(#[trigger] e[i].1) by {
                if i < e1.len() {
                    assert(e[i] == e1[i]);
                } else {
                    assert(e[i] == e.last());
                }
            }
        }
        if forall|i: int| 0 <= i < e.len() ==> node_sorted(#[trigger] e[i].1) {
            assert forall|i: int| 0 <= i < e1.len() implies node_sorted(#[trigger] e1[i].1) by {
                assert(e[i] == e1[i]);
            }
            assert(node_sorted(e[e.len() - 1].1));
        }
    }
}

/// Binding a name to an ordered node keeps every directory ordered.
proof fn lemma_set_sorted(e: Seq<(Seq<char>, NodeModel)>, k: Seq<char>, v: NodeModel)
    requires
        tree_sorted(e),
        node_sorted(v),
    ensures
        tree_sorted(entry_set(e, k, v)),
{
    crate::keyed::lemma_set_keeps_sorted(e, k, v);
    lemma_nodes_sorted_iff(e);
    let e2 = entry_set(e, k, v);
    crate::keyed::lemma_key_index(keys_of(e), k);
    let i = crate::keyed::key_index(keys_of(e), k);
    if i >= 0 {
        assert(e2 == e.update(i, (k, v)));
        assert forall|j: int| 0 <= j < e2.len() implies node_sorted(#[trigger] e2[j].1) by {
            if j != i {
                assert(e2[j] == e[j]);
            }
        }
    } else {
        let p = crate::keyed::key_insert_pos(keys_of(e), k);
        crate::keyed::lemma_key_insert_pos(keys_of(e), k);
        assert(e2 == e.insert(p, (k, v)));
        assert forall|j: int| 0 <= j < e2.len() implies node_sorted(#[trigger] e2[j].1) by {
            if j < p {
                assert(e2[j] == e[j]);
            } else if j > p {
                assert(e2[j] == e[j - 1]);
            }
        }
    }
    lemma_nodes_sorted_iff(e2);
}

/// Placing a file keeps every directory's names in order.
pub proof fn lemma_insert_sorted(e: Seq<(Seq<char>, NodeModel)>, parts: Seq<Seq<char>>, leaf: NodeModel)
    requires
        tree_sorted(e),
        leaf is File,
    ensures
        tree_sorted(insert_model(e, parts, leaf)),
    decreases parts.len(),
{
    if parts.len() == 1 {
        lemma_set_sorted(e, parts[0], leaf);
    } else if parts.len() > 1 {
        let rest = parts.drop_first();
        crate::keyed::lemma_key_index(keys_of(e), parts[0]);
        match entry_lookup(e, parts[0]) {
            None => {
                let empty = Seq::<(Seq<char>, NodeModel)>::empty();
                assert(keys_of(empty) =~= Seq::<Seq<char>>::empty());
                lemma_insert_sorted(empty, rest, leaf);
                lemma_set_sorted(e, parts[0], NodeModel::Dir(insert_model(empty, rest, leaf)));
            },
            Some(NodeModel::Dir(f)) => {
                lemma_nodes_sorted_iff(e);
                let j = crate::keyed::key_index(keys_of(e), parts[0]);
                assert(node_sorted(e[j].1));
                lemma_insert_sorted(f, rest, leaf);
                lemma_set_sorted(e, parts[0], NodeModel::Dir(insert_model(f, rest, leaf)));
            },
            Some(NodeModel::File { .. }) => {},
        }
    }
}

/// Every name at every level can stand as a path component.
pub open spec fn names_ok_entries(e: Seq<(Seq<char>, NodeModel)>) -> bool
    decreases e, 0nat,
{
    if e.len() == 0 {
        true
    } else {
        proof {
            vstd::seq::axiom_seq_subrange_decreases(e, 0, e.len() - 1);
            vstd::seq::axiom_seq_index_decreases(e, e.len() - 1);
        }
        names_ok_entries(e.drop_last()) && name_ok(e.last().0) && names_ok_node(e.last().1)
    }
}

pub open spec fn names_ok_node(n: NodeModel) -> bool
    decreases n, 1nat,
{
    match n {
        NodeModel::Dir(f) => names_ok_entries(f),
        NodeModel::File { .. } => true,
    }
}

proof fn lemma_names_ok_iff(e: Seq<(Seq<char>, NodeModel)>)
    ensures
        names_ok_entries(e) <==> forall|i: int|
            0 <= i < e.len() ==> name_ok(#[trigger] e[i].0) && names_ok_node(e[i].1),
    decreases e.len(),
{
    if e.len() > 0 {
        let e1 = e.drop_last();
        lemma_names_ok_iff(e1);
        if names_ok_entries(e) {
            assert(names_ok_entries(e1));
            assert(name_ok(e.last().0) && names_ok_node(e.last().1));
            assert forall|i: int| 0 <= i < e.len() implies name_ok(#[trigger] e[i].0) && names_ok_node(e[i].1) by {
                if i < e1.len() {
                    assert(e[i] == e1[i]);
                    assert(name_ok(e1[i].0) && names_ok_node(e1[i].1));
                } else {
                    assert(e[i] == e.last());
                }
            }
        }
        if forall|i: int| 0 <= i < e.len() ==> name_ok(#[trigger] e[i].0) && names_ok_node(e[i].1) {
            assert forall|i: int| 0 <= i < e1.len() implies name_ok(#[trigger] e1[i].0) && names_ok_node(e1[i].1) by {
                assert(e[i] == e1[i]);
            }
            assert(name_ok(e[e.len() - 1].0));
        }
    }
}

proof fn lemma_set_names(e: Seq<(Seq<char>, NodeModel)>, k: Seq<char>, v: NodeModel)
    requires
        names_ok_entries(e),
        name_ok(k),
        names_ok_node(v),
    ensures
        names_ok_entries(entry_set(e, k, v)),
{
    lemma_names_ok_iff(e);
    let e2 = entry_set(e, k, v);
    crate::keyed::lemma_key_index(keys_of(e), k);
    let i = crate::keyed::key_index(keys_of(e), k);
    if i >= 0 {
        assert(e2 == e.update(i, (k, v)));
        assert forall|j: int| 0 <= j < e2.len() implies name_ok(#[trigger] e2[j].0) && names_ok_node(e2[j].1) by {
            if j != i {
                assert(e2[j] == e[j]);
            }
        }
    } else {
        let p = crate::keyed::key_insert_pos(keys_of(e), k);
        crate::keyed::lemma_key_insert_pos(keys_of(e), k);
        assert(e2 == e.insert(p, (k, v)));
        assert forall|j: int| 0 <= j < e2.len() implies name_ok(#[trigger] e2[j].0) && names_ok_node(e2[j].1) by {
            if j < p {
                assert(e2[j] == e[j]);
            } else if j > p {
                assert(e2[j] == e[j - 1]);
            }
        }
    }
    lemma_names_ok_iff(e2);
}

/// Placing a file along components that can stand as such keeps every
/// name usable as a component.
pub proof fn lemma_insert_names(e: Seq<(Seq<char>, NodeModel)>, parts: Seq<Seq<char>>, leaf: NodeModel)
    requires
        names_ok_entries(e),
        forall|i: int| 0 <= i < parts.len() ==> name_ok(#[trigger] parts[i]),
        leaf is File,
    ensures
        names_ok_entries(insert_model(e, parts, leaf)),
    decreases parts.len(),
{
    if parts.len() == 1 {
        assert(name_ok(parts[0]));
        lemma_set_names(e, parts[0], leaf);
    } else if parts.len() > 1 {
        let rest = parts.drop_first();
        assert(name_ok(parts[0]));
        assert forall|i: int| 0 <= i < rest.len() implies name_ok(#[trigger] rest[i]) by {
            assert(rest[i] == parts[i + 1]);
        }
        crate::keyed::lemma_key_index(keys_of(e), parts[0]);
        match entry_lookup(e, parts[0]) {
            None => {
                let empty = Seq::<(Seq<char>, NodeModel)>::empty();
                lemma_insert_names(empty, rest, leaf);
                lemma_set_names(e, parts[0], NodeModel::Dir(insert_model(empty, rest, leaf)));
            },
            Some(NodeModel::Dir(f)) => {
                lemma_names_ok_iff(e);
                let j = crate::keyed::key_index(keys_of(e), parts[0]);
                assert(names_ok_node(e[j].1));
                lemma_insert_names(f, rest, leaf);
                lemma_set_names(e, parts[0], NodeModel::Dir(insert_model(f, rest, leaf)));
            },
            Some(NodeModel::File { .. }) => {},
        }
    }
}

/// Names in increasing order are distinct; with every name usable as a
/// component, the tree is well formed.
pub proof fn lemma_sorted_wf(e: Seq<(Seq<char>, NodeModel)>)
    requires
        tree_sorted(e),
        names_ok_entries(e),
    ensures
        wf_entries(e),
    decreases e, 0nat,
{
    if e.len() > 0 {
        let e1 = e.drop_last();
        let keys = keys_of(e);
        vstd::seq::axiom_seq_subrange_decreases(e, 0, e.len() - 1);
        vstd::seq::axiom_seq_index_decreases(e, e.len() - 1);
        assert(keys_of(e1) =~= keys.drop_last());
        assert forall|i: int, j: int| 0 <= i < j < keys_of(e1).len() implies crate::text::seq_lt(
            #[trigger] keys_of(e1)[i],
            #[trigger] keys_of(e1)[j],
        ) by {
            assert(keys_of(e1)[i] == keys[i] && keys_of(e1)[j] == keys[j]);
        }
        lemma_sorted_wf(e1);
        let last = e.len() - 1;
        assert forall|j: int| 0 <= j < last implies keys[j] != keys[last] by {
            assert(crate::text::seq_lt(keys[j], keys[last]));
            crate::text::lemma_seq_lt_irreflexive(keys[j]);
        }
        crate::keyed::lemma_key_index_is(keys, keys[last], last);
        lemma_sorted_wf_node(e.last().1);
    }
}

proof fn lemma_sorted_wf_node(n: NodeModel)
    requires
        node_sorted(n),
        names_ok_node(n),
    ensures
        wf_node(n),
    decreases n, 1nat,
{
    match n {
        NodeModel::Dir(f) => lemma_sorted_wf(f),
        NodeModel::File { .. } => {},
    }
}

/// Every component of every listed path of a well-formed tree is a usable
/// name.
pub proof fn lemma_listed_paths_ok(e: Seq<(Seq<char>, NodeModel)>)
    requires
        wf_entries(e),
    ensures
        forall|k: int, i: int|
            0 <= k < walk_entries(e, Seq::empty()).len() && 0 <= i < split_slash(
                walk_entries(e, Seq::empty())[k],
            ).len() ==> name_ok(#[trigger] split_slash(#[trigger] walk_entries(e, Seq::empty())[k])[i]),
{
    lemma_listed_files_found(e);
    assert forall|k: int, i: int|
        0 <= k < walk_entries(e, Seq::empty()).len() && 0 <= i < split_slash(
            walk_entries(e, Seq::empty())[k],
        ).len() implies name_ok(#[trigger] split_slash(#[trigger] walk_entries(e, Seq::empty())[k])[i]) by {
        let p = walk_entries(e, Seq::empty())[k];
        assert(is_file(find_model(e, split_slash(p))));
        lemma_found_names(e, split_slash(p));
    }
}

// ---------------------------------------------------------------------------
// The order of the listing
// ---------------------------------------------------------------------------

/// Component-by-component order of paths: the first differing component
/// decides by code-point order, and a path comes before the paths it leads
/// to.
pub open spec fn parts_lt(a: Seq<Seq<char>>, b: Seq<Seq<char>>) -> bool
    decreases a.len(),
{
    if a.len() == 0 {
        b.len() > 0
    } else if b.len() == 0 {
        false
    } else if a[0] == b[0] {
        parts_lt(a.drop_first(), b.drop_first())
    } else {
        crate::text::seq_lt(a[0], b[0])
    }
}

/// `p` comes before `q`, component by component.
pub open spec fn path_lt(p: Seq<char>, q: Seq<char>) -> bool {
    parts_lt(split_slash(p), split_slash(q))
}

/// Each path comes before every later one.
pub open spec fn paths_ascending(s: Seq<Seq<char>>) -> bool {
    forall|i: int, j: int| 0 <= i < j < s.len() ==> path_lt(#[trigger] s[i], #[trigger] s[j])
}

proof fn lemma_parts_lt_irreflexive(a: Seq<Seq<char>>)
    ensures
        !parts_lt(a, a),
    decreases a.len(),
{
    if a.len() > 0 {
        lemma_parts_lt_irreflexive(a.drop_first());
    }
}

proof fn lemma_parts_lt_transitive(a: Seq<Seq<char>>, b: Seq<Seq<char>>, c: Seq<Seq<char>>)
    requires
        parts_lt(a, b),
        parts_lt(b, c),
    ensures
        parts_lt(a, c),
    decreases a.len(),
{
    if a.len() > 0 && b.len() > 0 && c.len() > 0 {
        if a[0] == b[0] && b[0] == c[0] {
            lemma_parts_lt_transitive(a.drop_first(), b.drop_first(), c.drop_first());
        } else if a[0] == b[0] {
        } else if b[0] == c[0] {
        } else {
            crate::text::lemma_seq_lt_transitive(a[0], b[0], c[0]);
            if a[0] == c[0] {
                crate::text::lemma_seq_lt_trichotomy(a[0], b[0]);
            }
        }
    }
}

/// A common first part does not change the order.
proof fn lemma_parts_lt_common(c: Seq<Seq<char>>, x: Seq<Seq<char>>, y: Seq<Seq<char>>)
    ensures
        parts_lt(c + x, c + y) == parts_lt(x, y),
    decreases c.len(),
{
    if c.len() > 0 {
        lemma_parts_lt_common(c.drop_first(), x, y);
        assert((c + x).drop_first() =~= c.drop_first() + x);
        assert((c + y).drop_first() =~= c.drop_first() + y);
    } else {
        assert(c + x =~= x);
        assert(c + y =~= y);
    }
}

/// In a tree whose names are well formed and in increasing order at every
/// level, the listing under the components `c` is in ascending path order.
proof fn lemma_walk_ascending(e: Seq<(Seq<char>, NodeModel)>, c: Seq<Seq<char>>)
    requires
        wf_entries(e),
        tree_sorted(e),
        forall|i: int| 0 <= i < c.len() ==> name_ok(#[trigger] c[i]),
    ensures
        paths_ascending(walk_entries(e, join_all(c))),
    decreases e, 0nat,
{
    if e.len() > 0 {
        let e1 = e.drop_last();
        let name = e.last().0;
        let n = e.last().1;
        vstd::seq::axiom_seq_subrange_decreases(e, 0, e.len() - 1);
        vstd::seq::axiom_seq_index_decreases(e, e.len() - 1);
        let keys = keys_of(e);
        assert(keys_of(e1) =~= keys.drop_last());
        assert(crate::keyed::keys_sorted(keys_of(e1))) by {
            assert forall|i: int, j: int| 0 <= i < j < keys_of(e1).len() implies crate::text::seq_lt(
                #[trigger] keys_of(e1)[i],
                #[trigger] keys_of(e1)[j],
            ) by {
                assert(keys_of(e1)[i] == keys[i] && keys_of(e1)[j] == keys[j]);
            }
        }
        assert(tree_sorted(e1));
        lemma_walk_ascending(e1, c);
        lemma_walk_entries(e1, c);
        let cn = c.push(name);
        assert forall|i: int| 0 <= i < cn.len() implies name_ok(#[trigger] cn[i]) by {
            if i < c.len() {
                assert(cn[i] == c[i]);
            }
        }
        assert(cn.drop_last() =~= c);
        if c.len() == 0 {
            assert(join_all(c) =~= Seq::<char>::empty());
        }
        lemma_walk_node(n, cn);
        assert(node_sorted(n));
        assert(wf_node(n));
        match n {
            NodeModel::Dir(f) => {
                assert(wf_entries(f));
                assert(tree_sorted(f));
                lemma_walk_ascending(f, cn);
            },
            NodeModel::File { .. } => {},
        }
        let w1 = walk_entries(e1, join_all(c));
        let w2 = walk_node(n, join_all(cn));
        let w = walk_entries(e, join_all(c));
        assert(w == w1 + w2);
        assert forall|a: int, b: int| 0 <= a < w1.len() && 0 <= b < w2.len() implies path_lt(w1[a], w2[b]) by {
            assert(leads_to_file(e1, c, w1[a]));
            let r1 = choose|r: Seq<Seq<char>>| #[trigger] (c + r) == split_slash(w1[a]) && is_file(find_model(e1, r));
            lemma_found_first(e1, r1);
            crate::keyed::lemma_key_index(keys_of(e1), r1[0]);
            let j = crate::keyed::key_index(keys_of(e1), r1[0]);
            assert(keys[j] == keys_of(e1)[j]);
            assert(crate::text::seq_lt(keys[j], keys[e.len() - 1]));
            crate::text::lemma_seq_lt_irreflexive(name);
            assert(r1[0] != name);
            assert(leads_to_file_node(n, cn, w2[b]));
            let r2 = choose|r: Seq<Seq<char>>| #[trigger] (cn + r) == split_slash(w2[b]) && is_file(node_find(n, r));
            let rr = seq![name] + r2;
            assert(cn + r2 =~= c + rr);
            lemma_parts_lt_common(c, r1, rr);
            assert(rr[0] == name);
        }
        assert forall|a: int, b: int| 0 <= a < b < w.len() implies path_lt(#[trigger] w[a], #[trigger] w[b]) by {
            if b < w1.len() {
                assert(w[a] == w1[a] && w[b] == w1[b]);
            } else if a >= w1.len() {
                assert(w[a] == w2[a - w1.len()] && w[b] == w2[b - w1.len()]);
            } else {
                assert(w[a] == w1[a] && w[b] == w2[b - w1.len()]);
            }
        }
    }
}

/// The listing of a tree whose names are well formed and in increasing
/// order at every level (as a `BTreeMap` keeps them) is in ascending path
/// order; in particular it names no file twice.
pub proof fn lemma_listing_ascending(e: Seq<(Seq<char>, NodeModel)>)
    requires
        wf_entries(e),
        tree_sorted(e),
    ensures
        paths_ascending(walk_entries(e, Seq::empty())),
        forall|a: int, b: int|
            0 <= a < b < walk_entries(e, Seq::empty()).len() ==> #[trigger] walk_entries(e, Seq::empty())[a]
                != #[trigger] walk_entries(e, Seq::empty())[b],
{
    let c = Seq::<Seq<char>>::empty();
    assert(join_all(c) =~= Seq::<char>::empty());
    lemma_walk_ascending(e, c);
    let w = walk_entries(e, Seq::empty());
    assert forall|a: int, b: int| 0 <= a < b < w.len() implies #[trigger] w[a] != #[trigger] w[b] by {
        assert(path_lt(w[a], w[b]));
        lemma_parts_lt_irreflexive(split_slash(w[a]));
    }
}

/// Two ascending sequences of paths that hold the same paths are equal.
pub proof fn lemma_ascending_unique(s: Seq<Seq<char>>, t: Seq<Seq<char>>)
    requires
        paths_ascending(s),
        paths_ascending(t),
        forall|p: Seq<char>| s.contains(p) <==> t.contains(p),
    ensures
        s == t,
    decreases s.len() + t.len(),
{
    if s.len() == 0 {
        if t.len() > 0 {
            assert(t.contains(t[0]));
        }
        assert(s =~= t);
    } else if t.len() == 0 {
        assert(s.contains(s[0]));
    } else {
        assert(s.contains(s[0]));
        assert(t.contains(t[0]));
        if s[0] != t[0] {
            let m = choose|m: int| 0 <= m < t.len() && t[m] == s[0];
            let k = choose|k: int| 0 <= k < s.len() && s[k] == t[0];
            assert(m > 0 && k > 0);
            assert(path_lt(t[0], t[m]));
            assert(path_lt(s[0], s[k]));
            lemma_parts_lt_transitive(split_slash(s[0]), split_slash(t[0]), split_slash(s[0]));
            lemma_parts_lt_irreflexive(split_slash(s[0]));
        }
        let s1 = s.drop_first();
        let t1 = t.drop_first();
        assert forall|i: int, j: int| 0 <= i < j < s1.len() implies path_lt(#[trigger] s1[i], #[trigger] s1[j]) by {
            assert(s1[i] == s[i + 1] && s1[j] == s[j + 1]);
        }
        assert forall|i: int, j: int| 0 <= i < j < t1.len() implies path_lt(#[trigger] t1[i], #[trigger] t1[j]) by {
            assert(t1[i] == t[i + 1] && t1[j] == t[j + 1]);
        }
        assert forall|p: Seq<char>| s1.contains(p) <==> t1.contains(p) by {
            if s1.contains(p) {
                let i = choose|i: int| 0 <= i < s1.len() && s1[i] == p;
                assert(s.contains(p)) by { assert(s[i + 1] == p); }
                let j = choose|j: int| 0 <= j < t.len() && t[j] == p;
                assert(path_lt(s[0], s[i + 1]));
                lemma_parts_lt_irreflexive(split_slash(s[0]));
                assert(j != 0);
                assert(t1[j - 1] == p);
            }
            if t1.contains(p) {
                let j = choose|j: int| 0 <= j < t1.len() && t1[j] == p;
                assert(t.contains(p)) by { assert(t[j + 1] == p); }
                let i = choose|i: int| 0 <= i < s.len() && s[i] == p;
                assert(path_lt(t[0], t[j + 1]));
                lemma_parts_lt_irreflexive(split_slash(t[0]));
                assert(i != 0);
                assert(s1[i - 1] == p);
            }
        }
        lemma_ascending_unique(s1, t1);
        assert(s =~= seq![s[0]] + s1);
        assert(t =~= seq![t[0]] + t1);
    }
}

/// Whether the entries' names, and those of every directory below, are in
/// increasing order.
pub fn entries_sorted(files: &Vec<(String, Node)>) -> (b: bool)
    ensures
        b == tree_sorted(entries_view(files@)),
    decreases files@,
{
    let ghost e = entries_view(files@);
    proof {
        lemma_entries_view(files@);
        lemma_nodes_sorted_iff(e);
    }
    // the names, each before the next
    let mut i: usize = 1;
    while i < files.len()
        invariant
            e == entries_view(files@),
            e.len() == files@.len(),
            forall|j: int| 0 <= j < files@.len() ==> #[trigger] e[j] == (files@[j].0@, node_view(files@[j].1)),
            1 <= i || files@.len() == 0,
            forall|a: int, b: int| 0 <= a < b < i && b < files@.len() ==> crate::text::seq_lt(
                #[trigger] keys_of(e)[a],
                #[trigger] keys_of(e)[b],
            ),
        decreases files@.len() - i,
    {
        let prev = chars_of(files[i - 1].0.as_str());
        let cur = chars_of(files[i].0.as_str());
        proof {
            assert(keys_of(e)[i - 1] == files@[i - 1].0@);
            assert(keys_of(e)[i as int] == files@[i as int].0@);
        }
        if !crate::text::chars_lt(&prev, &cur) {
            return false;
        }
        proof {
            assert forall|a: int, b: int| 0 <= a < b < i + 1 && b < files@.len() implies crate::text::seq_lt(
                #[trigger] keys_of(e)[a],
                #[trigger] keys_of(e)[b],
            ) by {
                if b == i && a < i - 1 {
                    crate::text::lemma_seq_lt_transitive(keys_of(e)[a], keys_of(e)[i - 1], keys_of(e)[b]);
                }
            }
        }
        i = i + 1;
    }
    proof {
        assert(crate::keyed::keys_sorted(keys_of(e)));
    }
    // every directory below
    for k in 0..files.len()
        invariant
            e == entries_view(files@),
            e.len() == files@.len(),
            forall|j: int| 0 <= j < files@.len() ==> #[trigger] e[j] == (files@[j].0@, node_view(files@[j].1)),
            crate::keyed::keys_sorted(keys_of(e)),
            nodes_sorted(e) <==> forall|j: int| 0 <= j < e.len() ==> node_sorted(#[trigger] e[j].1),
            forall|j: int| 0 <= j < k ==> node_sorted(#[trigger] e[j].1),
    {
        match &files[k].1 {
            Node::Dir { files: sub } => {
                proof {
                    vstd::std_specs::vec::axiom_vec_decreases_to_view(*files);
                    vstd::seq::axiom_seq_index_decreases(files@, k as int);
                    assert(e[k as int].1 == NodeModel::Dir(entries_view(sub@)));
                }
                if !entries_sorted(sub) {
                    return false;
                }
            },
            Node::File { .. } => {},
        }
    }
    true
}

} // verus!
