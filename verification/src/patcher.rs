//! Patch rules: each rule's regular expression is searched in every
//! JavaScript file, its payload is inserted right before every match, and
//! a rule that matches fewer times than it requires stops the whole patch.
use crate::error::AppError;
use crate::keyed::{entry_lookup, entry_set, exec_keys, find_key, insert_position};
use crate::text::{append_bytes, chars_eq, chars_of, concat_str};
use vstd::string::StringExecFns;
use vstd::prelude::*;
use vstd::utf8::encode_utf8;

verus! {

/// A patch rule: insert `payload` before every match of `regex`, which must
/// match at least `required_hits` times over all files.
#[derive(Debug)]
pub struct PatchRule {
    pub id: String,
    pub regex: String,
    pub payload: String,
    pub required_hits: u32,
}

/// The number of hits a rule requires when its description leaves it out.
pub fn default_hits() -> (n: u32)
    ensures
        n == 1,
{
    1
}

/// What applying a set of rules did.
#[derive(Debug)]
pub struct PatchReport {
    pub patches_attempted: u32,
    pub patches_hit: u32,
    /// The files that received at least one insertion, in the order given.
    pub files_modified: Vec<String>,
    /// Matches per rule id, ordered by id.
    pub per_patch: Vec<(String, u32)>,
}

impl PatchReport {
    /// The number of matches of the rules with this id, if there is such a
    /// rule.
    pub fn hits_for(&self, id: &str) -> (r: Option<u32>)
        ensures
            r == entry_lookup(per_patch_view(self.per_patch@), id@),
    {
        let key = chars_of(id);
        let ghost pv = per_patch_view(self.per_patch@);
        proof {
            assert(crate::keyed::keys_of(pv) =~= exec_keys(self.per_patch@));
        }
        match find_key(&self.per_patch, &key) {
            Some(i) => Some(self.per_patch[i].1),
            None => None,
        }
    }
}

/// The model of a per-id count table.
pub open spec fn per_patch_view(s: Seq<(String, u32)>) -> Seq<(Seq<char>, u32)> {
    s.map_values(|e: (String, u32)| (e.0@, e.1))
}

/// A JavaScript file of the unpacked archive.
#[derive(Debug)]
pub struct JsFile {
    pub path: String,
    pub content: Vec<u8>,
}

/// The outcome of applying rules: the report and the new contents of the
/// files it lists as modified.
#[derive(Debug)]
pub struct PatchOutcome {
    pub report: PatchReport,
    pub patched: Vec<JsFile>,
}

// ---------------------------------------------------------------------------
// The regular-expression engine
// ---------------------------------------------------------------------------

/// `regex::bytes::Regex`.
#[verifier::external_type_specification]
#[verifier::external_body]
pub struct ExRegex(regex::bytes::Regex);

/// Why `regex::bytes::Regex::new` refuses a pattern (the error's text), or
/// `None` where it accepts it.
pub uninterp spec fn regex_compile_error(pattern: Seq<char>) -> Option<Seq<char>>;

/// The start offsets of the successive non-overlapping matches that
/// `regex::bytes::Regex::find_iter` yields for the compiled pattern in the
/// haystack.
pub uninterp spec fn regex_match_starts(pattern: Seq<char>, haystack: Seq<u8>) -> Seq<usize>;

/// A regular expression together with the pattern it was compiled from.
/// Only `compile_pattern` makes one, so `regex` is always the compilation
/// of `pattern`.
pub struct CompiledPattern {
    regex: regex::bytes::Regex,
    pattern: Ghost<Seq<char>>,
}

impl CompiledPattern {
    pub closed spec fn pattern(&self) -> Seq<char> {
        self.pattern@
    }
}

/// `regex::bytes::Regex::new`, keeping the pattern beside the compiled
/// expression: the result depends on the pattern alone; an error is
/// returned as its text.
#[verifier::external_body]
fn compile_pattern(pattern: &str) -> (r: Result<CompiledPattern, String>)
    ensures
        r is Ok <==> regex_compile_error(pattern@) is None,
        r matches Ok(c) ==> c.pattern() == pattern@,
        r matches Err(m) ==> regex_compile_error(pattern@) == Some(m@),
{
    match regex::bytes::Regex::new(pattern) {
        Ok(regex) => Ok(CompiledPattern { regex, pattern: Ghost(pattern@) }),
        Err(e) => Err(e.to_string()),
    }
}

/// `regex::bytes::Regex::find_iter`, keeping each match's start. The starts
/// are those of the pattern's matches in the haystack; each is an offset
/// into the haystack (at most its length).
#[verifier::external_body]
fn regex_find_starts(c: &CompiledPattern, haystack: &[u8]) -> (r: Vec<usize>)
    ensures
        r@ == regex_match_starts(c.pattern(), haystack@),
        forall|k: int| 0 <= k < r@.len() ==> #[trigger] r@[k] <= haystack@.len(),
{
    c.regex.find_iter(haystack).map(|m| m.start()).collect()
}

// ---------------------------------------------------------------------------
// The model of applying rules
// ---------------------------------------------------------------------------

/// The bytes that a rule inserts.
pub open spec fn payload_bytes(p: PatchRule) -> Seq<u8> {
    encode_utf8(p.payload@)
}

/// Matches of rule `r` over all files (`m[f][r]` are the starts of rule
/// `r` in file `f`).
pub open spec fn rule_hits(m: Seq<Seq<Seq<usize>>>, r: int) -> nat
    decreases m.len(),
{
    if m.len() == 0 {
        0
    } else {
        rule_hits(m.drop_last(), r) + m.last()[r].len()
    }
}

/// Matches of the rules among the first `n` whose id is `id`.
pub open spec fn id_hits(ids: Seq<Seq<char>>, m: Seq<Seq<Seq<usize>>>, id: Seq<char>, n: int) -> nat
    decreases n,
{
    if n <= 0 {
        0
    } else if ids[n - 1] == id {
        id_hits(ids, m, id, n - 1) + rule_hits(m, n - 1)
    } else {
        id_hits(ids, m, id, n - 1)
    }
}

/// The ids of the rules.
pub open spec fn rule_ids(patches: Seq<PatchRule>) -> Seq<Seq<char>> {
    patches.map_values(|p: PatchRule| p.id@)
}

/// Every id's matches fit the `u32` counter that the report keeps for it.
pub open spec fn counts_fit(patches: Seq<PatchRule>, m: Seq<Seq<Seq<usize>>>) -> bool {
    forall|q: int|
        0 <= q < patches.len() ==> #[trigger] id_hits(rule_ids(patches), m, patches[q].id@, patches.len() as int)
            <= u32::MAX
}

/// The per-id table after the first `n` rules: each rule's id bound to the
/// matches of all rules with that id.
pub open spec fn counts_model(ids: Seq<Seq<char>>, m: Seq<Seq<Seq<usize>>>, n: int) -> Seq<
    (Seq<char>, u32),
>
    decreases n,
{
    if n <= 0 {
        Seq::empty()
    } else {
        entry_set(
            counts_model(ids, m, n - 1),
            ids[n - 1],
            id_hits(ids, m, ids[n - 1], ids.len() as int) as u32,
        )
    }
}

/// The per-id table lists each id once, in increasing code-point order.
pub proof fn lemma_counts_sorted(ids: Seq<Seq<char>>, m: Seq<Seq<Seq<usize>>>, n: int)
    ensures
        crate::keyed::keys_sorted(crate::keyed::keys_of(counts_model(ids, m, n))),
    decreases n,
{
    if n > 0 {
        lemma_counts_sorted(ids, m, n - 1);
        crate::keyed::lemma_set_keeps_sorted(
            counts_model(ids, m, n - 1),
            ids[n - 1],
            id_hits(ids, m, ids[n - 1], ids.len() as int) as u32,
        );
    } else {
        assert(crate::keyed::keys_of(counts_model(ids, m, n)) =~= Seq::<Seq<char>>::empty());
    }
}

/// The first rule, if any, whose id has fewer matches than it requires.
pub open spec fn first_short(patches: Seq<PatchRule>, m: Seq<Seq<Seq<usize>>>, n: int) -> Option<int>
    decreases n,
{
    if n <= 0 {
        None
    } else {
        match first_short(patches, m, n - 1) {
            Some(r) => Some(r),
            None => if id_hits(rule_ids(patches), m, patches[n - 1].id@, patches.len() as int)
                < patches[n - 1].required_hits {
                Some(n - 1)
            } else {
                None
            },
        }
    }
}

/// Each start paired with a payload.
pub open spec fn tag_with(starts: Seq<usize>, payload: Seq<u8>) -> Seq<(usize, Seq<u8>)> {
    starts.map_values(|s: usize| (s, payload))
}

/// A file's insertions in the order they are found: rule by rule, each
/// rule's matches in order, each with the rule's payload.
pub open spec fn anchors_of(mf: Seq<Seq<usize>>, payloads: Seq<Seq<u8>>) -> Seq<(usize, Seq<u8>)>
    decreases mf.len(),
{
    if mf.len() == 0 {
        Seq::empty()
    } else {
        anchors_of(mf.drop_last(), payloads) + tag_with(mf.last(), payloads[mf.len() - 1])
    }
}

/// The payloads inserted right before position `pos`: those of the
/// insertions at `pos`, the one found last first.
pub open spec fn inserts_at(anchors: Seq<(usize, Seq<u8>)>, pos: int) -> Seq<u8>
    decreases anchors.len(),
{
    if anchors.len() == 0 {
        Seq::empty()
    } else if anchors[0].0 == pos {
        inserts_at(anchors.drop_first(), pos) + anchors[0].1
    } else {
        inserts_at(anchors.drop_first(), pos)
    }
}

/// The first `k` bytes of the content, each preceded by its insertions.
pub open spec fn patched_prefix(content: Seq<u8>, anchors: Seq<(usize, Seq<u8>)>, k: int) -> Seq<u8>
    decreases k,
{
    if k <= 0 {
        Seq::empty()
    } else {
        patched_prefix(content, anchors, k - 1) + inserts_at(anchors, k - 1) + seq![content[k - 1]]
    }
}

/// The content with every payload inserted right before its match. This is
/// what inserting the payloads one at a time from the last offset to the
/// first gives, insertions at the same offset in the order found.
pub open spec fn patched(content: Seq<u8>, anchors: Seq<(usize, Seq<u8>)>) -> Seq<u8> {
    patched_prefix(content, anchors, content.len() as int) + inserts_at(anchors, content.len() as int)
}

pub open spec fn rule_payloads(patches: Seq<PatchRule>) -> Seq<Seq<u8>> {
    patches.map_values(|p: PatchRule| payload_bytes(p))
}

/// The indices of the files (among the first `upto`) that receive at
/// least one insertion.
pub open spec fn touched(m: Seq<Seq<Seq<usize>>>, payloads: Seq<Seq<u8>>, upto: int) -> Seq<int>
    decreases upto,
{
    if upto <= 0 {
        Seq::empty()
    } else if anchors_of(m[upto - 1], payloads).len() > 0 {
        touched(m, payloads, upto - 1).push(upto - 1)
    } else {
        touched(m, payloads, upto - 1)
    }
}

/// The model of the match starts.
pub open spec fn matches_view(m: Seq<Vec<Vec<usize>>>) -> Seq<Seq<Seq<usize>>> {
    m.map_values(|mf: Vec<Vec<usize>>| file_starts_view(mf))
}

/// The model of one file's match starts, rule by rule.
pub open spec fn file_starts_view(mf: Vec<Vec<usize>>) -> Seq<Seq<usize>> {
    mf@.map_values(|s: Vec<usize>| s@)
}

/// The model of executable insertions `(offset, rule)`.
pub open spec fn anchor_model(a: Seq<(usize, usize)>, payloads: Seq<Seq<u8>>) -> Seq<(usize, Seq<u8>)> {
    a.map_values(|x: (usize, usize)| (x.0, payloads[x.1 as int]))
}

// ---------------------------------------------------------------------------
// Counting lemmas
// ---------------------------------------------------------------------------

proof fn lemma_rule_hits_step(m: Seq<Seq<Seq<usize>>>, k: int, r: int)
    requires
        0 <= k < m.len(),
    ensures
        rule_hits(m.take(k + 1), r) == rule_hits(m.take(k), r) + m[k][r].len(),
{
    assert(m.take(k + 1).drop_last() =~= m.take(k));
}

proof fn lemma_rule_hits_prefix(m: Seq<Seq<Seq<usize>>>, k: int, r: int)
    requires
        0 <= k <= m.len(),
    ensures
        rule_hits(m.take(k), r) <= rule_hits(m, r),
    decreases m.len() - k,
{
    if k < m.len() {
        lemma_rule_hits_step(m, k, r);
        lemma_rule_hits_prefix(m, k + 1, r);
    } else {
        assert(m.take(k) =~= m);
    }
}

proof fn lemma_id_hits_mono(ids: Seq<Seq<char>>, m: Seq<Seq<Seq<usize>>>, id: Seq<char>, s: int, n: int)
    requires
        0 <= s <= n,
    ensures
        id_hits(ids, m, id, s) <= id_hits(ids, m, id, n),
    decreases n - s,
{
    if s < n {
        lemma_id_hits_mono(ids, m, id, s, n - 1);
    }
}

/// A rule's matches are among those of its id.
proof fn lemma_rule_le_id(ids: Seq<Seq<char>>, m: Seq<Seq<Seq<usize>>>, q: int, n: int)
    requires
        0 <= q < n,
    ensures
        rule_hits(m, q) <= id_hits(ids, m, ids[q], n),
    decreases n,
{
    if q < n - 1 {
        lemma_rule_le_id(ids, m, q, n - 1);
    }
}

// ---------------------------------------------------------------------------
// Executable parts
// ---------------------------------------------------------------------------

/// Binds `key` to `v` in a per-id table.
fn set_count(entries: &mut Vec<(String, u32)>, key: String, v: u32)
    ensures
        per_patch_view(final(entries)@) == entry_set(per_patch_view(old(entries)@), key@, v),
{
    let ghost old_s = entries@;
    let name = chars_of(key.as_str());
    proof {
        assert(crate::keyed::keys_of(per_patch_view(old_s)) =~= exec_keys(old_s));
    }
    match find_key(entries, &name) {
        Some(i) => {
            let _ = entries.remove(i);
            entries.insert(i, (key, v));
            proof {
                assert(per_patch_view(entries@) =~= per_patch_view(old_s).update(i as int, (key@, v)));
            }
        },
        None => {
            let p = insert_position(entries, &name);
            entries.insert(p, (key, v));
            proof {
                assert(per_patch_view(entries@) =~= per_patch_view(old_s).insert(p as int, (key@, v)));
            }
        },
    }
}

/// Appends the payloads inserted before position `pos`.
fn append_inserts(out: &mut Vec<u8>, anchors: &Vec<(usize, usize)>, payloads: &Vec<Vec<u8>>, pos: usize)
    requires
        forall|a: int| 0 <= a < anchors@.len() ==> #[trigger] anchors@[a].1 < payloads@.len(),
    ensures
        final(out)@ == old(out)@ + inserts_at(anchor_model(anchors@, views_u8(payloads@)), pos as int),
{
    let ghost am = anchor_model(anchors@, views_u8(payloads@));
    let ghost base = out@;
    let mut j: usize = anchors.len();
    proof {
        assert(am.skip(j as int) =~= Seq::<(usize, Seq<u8>)>::empty());
        assert(out@ =~= base + inserts_at(am.skip(j as int), pos as int));
    }
    while j > 0
        invariant
            j <= anchors@.len(),
            am == anchor_model(anchors@, views_u8(payloads@)),
            am.len() == anchors@.len(),
            forall|a: int| 0 <= a < anchors@.len() ==> #[trigger] anchors@[a].1 < payloads@.len(),
            out@ == base + inserts_at(am.skip(j as int), pos as int),
        decreases j,
    {
        j = j - 1;
        proof {
            assert(am.skip(j as int).drop_first() =~= am.skip(j + 1));
            assert(am.skip(j as int)[0] == am[j as int]);
            assert(am[j as int] == (anchors@[j as int].0, payloads@[anchors@[j as int].1 as int]@));
        }
        if anchors[j].0 == pos {
            append_bytes(out, payloads[anchors[j].1].as_slice());
        }
        proof {
            assert(out@ =~= base + inserts_at(am.skip(j as int), pos as int));
        }
    }
    proof {
        assert(am.skip(0) =~= am);
    }
}

/// The content with every payload inserted right before its offset.
fn insert_payloads(content: &Vec<u8>, anchors: &Vec<(usize, usize)>, payloads: &Vec<Vec<u8>>) -> (out: Vec<u8>)
    requires
        forall|a: int| 0 <= a < anchors@.len() ==> #[trigger] anchors@[a].1 < payloads@.len(),
    ensures
        out@ == patched(content@, anchor_model(anchors@, views_u8(payloads@))),
{
    let ghost am = anchor_model(anchors@, views_u8(payloads@));
    let mut out: Vec<u8> = Vec::new();
    let n = content.len();
    proof {
        assert(out@ =~= patched_prefix(content@, am, 0));
    }
    for i in 0..n
        invariant
            n == content@.len(),
            am == anchor_model(anchors@, views_u8(payloads@)),
            forall|a: int| 0 <= a < anchors@.len() ==> #[trigger] anchors@[a].1 < payloads@.len(),
            out@ == patched_prefix(content@, am, i as int),
    {
        append_inserts(&mut out, anchors, payloads, i);
        out.push(content[i]);
        proof {
            assert(out@ =~= patched_prefix(content@, am, i + 1));
        }
    }
    append_inserts(&mut out, anchors, payloads, n);
    out
}

/// The views of byte vectors.
pub open spec fn views_u8(v: Seq<Vec<u8>>) -> Seq<Seq<u8>> {
    v.map_values(|x: Vec<u8>| x@)
}

/// The paths of the files at the given indices.
pub open spec fn paths_at(files: Seq<JsFile>, t: Seq<int>) -> Seq<Seq<char>> {
    t.map_values(|f: int| files[f].path@)
}

/// What applying the rules gives when no rule falls short: every rule
/// counted as attempted and hit, the per-id table, and each file that
/// received an insertion with its new contents.
pub open spec fn outcome_matches(
    o: PatchOutcome,
    files: Seq<JsFile>,
    patches: Seq<PatchRule>,
    m: Seq<Seq<Seq<usize>>>,
) -> bool {
    let t = touched(m, rule_payloads(patches), files.len() as int);
    &&& o.report.patches_attempted == patches.len() as u32
    &&& o.report.patches_hit == patches.len() as u32
    &&& per_patch_view(o.report.per_patch@) == counts_model(rule_ids(patches), m, patches.len() as int)
    &&& crate::tree::strings_view(o.report.files_modified@) == paths_at(files, t)
    &&& o.patched@.len() == t.len()
    &&& forall|k: int|
        0 <= k < t.len() ==> (#[trigger] o.patched@[k]).path@ == files[t[k]].path@
            && o.patched@[k].content@ == patched(
            files[t[k]].content@,
            anchors_of(m[t[k]], rule_payloads(patches)),
        )
}

/// The result of applying the rules to the files, given where each rule
/// matches in each file.
pub open spec fn plan_matches(
    r: Result<PatchOutcome, AppError>,
    files: Seq<JsFile>,
    patches: Seq<PatchRule>,
    m: Seq<Seq<Seq<usize>>>,
) -> bool {
    match first_short(patches, m, patches.len() as int) {
        Some(q) => r matches Err(AppError::PatchNoHit { patch_id }) && patch_id@ == patches[q].id@,
        None => r matches Ok(o) && outcome_matches(o, files, patches, m),
    }
}

proof fn lemma_first_short_stays(patches: Seq<PatchRule>, m: Seq<Seq<Seq<usize>>>, r: int, k: int)
    requires
        0 <= r < k,
        first_short(patches, m, r + 1) == Some(r),
    ensures
        first_short(patches, m, k) == Some(r),
    decreases k - r,
{
    if k > r + 1 {
        lemma_first_short_stays(patches, m, r, k - 1);
    }
}

pub proof fn lemma_touched_bounds(m: Seq<Seq<Seq<usize>>>, pl: Seq<Seq<u8>>, u: int)
    requires
        0 <= u,
    ensures
        touched(m, pl, u).len() <= u,
        forall|k: int| 0 <= k < touched(m, pl, u).len() ==> 0 <= #[trigger] touched(m, pl, u)[k] < u,
    decreases u,
{
    if u > 0 {
        lemma_touched_bounds(m, pl, u - 1);
    }
}

/// The files that receive an insertion are listed once each, in order, and
/// a file is listed exactly when it receives one.
pub proof fn lemma_touched_exact(m: Seq<Seq<Seq<usize>>>, pl: Seq<Seq<u8>>, u: int)
    requires
        0 <= u,
    ensures
        forall|a: int, b: int|
            0 <= a < b < touched(m, pl, u).len() ==> #[trigger] touched(m, pl, u)[a] < #[trigger] touched(m, pl, u)[b],
        forall|f: int| 0 <= f < u ==> (touched(m, pl, u).contains(f) <==> anchors_of(#[trigger] m[f], pl).len() > 0),
    decreases u,
{
    lemma_touched_bounds(m, pl, u);
    if u > 0 {
        lemma_touched_exact(m, pl, u - 1);
        lemma_touched_bounds(m, pl, u - 1);
        let t1 = touched(m, pl, u - 1);
        let t = touched(m, pl, u);
        assert forall|f: int| 0 <= f < u implies (t.contains(f) <==> anchors_of(#[trigger] m[f], pl).len() > 0) by {
            if anchors_of(m[u - 1], pl).len() > 0 {
                assert(t == t1.push(u - 1));
                if f < u - 1 {
                    if t.contains(f) {
                        let k = choose|k: int| 0 <= k < t.len() && t[k] == f;
                        if k < t1.len() {
                            assert(t1[k] == f);
                        }
                    }
                    if t1.contains(f) {
                        let k = choose|k: int| 0 <= k < t1.len() && t1[k] == f;
                        assert(t[k] == f);
                    }
                } else {
                    assert(t[t.len() - 1] == f);
                }
            } else {
                assert(t == t1);
                if f == u - 1 && t.contains(f) {
                    let k = choose|k: int| 0 <= k < t.len() && t[k] == f;
                    assert(t1[k] < u - 1);
                }
            }
        }
    }
}

/// Applies the rules to the files, given the start of every match of every
/// rule in every file (`matches[f][r]`): a rule whose id has fewer matches
/// over all files than the rule requires gives `PatchNoHit` (the first such
/// rule); otherwise every payload is inserted right before each of its
/// rule's matches, and the report counts the matches per id.
pub fn plan_patches(
    files: &Vec<JsFile>,
    patches: &Vec<PatchRule>,
    matches: &Vec<Vec<Vec<usize>>>,
) -> (r: Result<PatchOutcome, AppError>)
    requires
        matches@.len() == files@.len(),
        forall|f: int| 0 <= f < matches@.len() ==> (#[trigger] matches@[f])@.len() == patches@.len(),
        forall|f: int, q: int, k: int|
            0 <= f < matches@.len() && 0 <= q < patches@.len() && 0 <= k < matches@[f]@[q]@.len()
                ==> #[trigger] matches@[f]@[q]@[k] <= files@[f].content@.len(),
        counts_fit(patches@, matches_view(matches@)),
    ensures
        plan_matches(r, files@, patches@, matches_view(matches@)),
{
    let n = patches.len();
    let ghost m = matches_view(matches@);
    let ghost ids = rule_ids(patches@);
    let ghost pl = rule_payloads(patches@);
    proof {
        assert forall|f: int| 0 <= f < m.len() implies (#[trigger] m[f]).len() == n by {
            assert(m[f] == file_starts_view(matches@[f]));
        }
    }
    // the bytes of each payload
    let mut payloads: Vec<Vec<u8>> = Vec::new();
    for q in 0..n
        invariant
            n == patches@.len(),
            pl == rule_payloads(patches@),
            views_u8(payloads@) == pl.take(q as int),
    {
        let mut b: Vec<u8> = Vec::new();
        append_bytes(&mut b, patches[q].payload.as_str().as_bytes());
        let ghost old_p = payloads@;
        payloads.push(b);
        proof {
            assert(views_u8(old_p).len() == old_p.len());
            assert(pl.len() == n);
            assert(old_p.len() == q);
            assert(payloads@ == old_p.push(b));
            assert(views_u8(payloads@) =~= pl.take(q + 1)) by {
                assert(views_u8(old_p) == pl.take(q as int));
                assert forall|j: int| 0 <= j < q implies views_u8(payloads@)[j] == pl.take(q + 1)[j] by {
                    assert(payloads@[j] == old_p[j]);
                    assert(views_u8(old_p)[j] == old_p[j]@);
                }
            }
        }
    }
    proof {
        assert(pl.take(n as int) =~= pl);
    }
    // matches of each rule over all files
    let mut hits: Vec<u32> = Vec::new();
    for q in 0..n
        invariant
            n == patches@.len(),
            m == matches_view(matches@),
            forall|f: int| 0 <= f < m.len() ==> (#[trigger] m[f]).len() == n,
            ids == rule_ids(patches@),
            counts_fit(patches@, m),
            hits@.len() == q,
            forall|j: int| 0 <= j < q ==> #[trigger] hits@[j] == rule_hits(m, j),
    {
        let mut h: u32 = 0;
        proof {
            assert(m.take(0) =~= Seq::<Seq<Seq<usize>>>::empty());
            lemma_rule_le_id(ids, m, q as int, n as int);
            assert(ids[q as int] == patches@[q as int].id@);
            assert(id_hits(ids, m, patches@[q as int].id@, n as int) <= u32::MAX);
        }
        for f in 0..matches.len()
            invariant
                n == patches@.len(),
                q < n,
                m == matches_view(matches@),
                m.len() == matches@.len(),
                forall|g: int| 0 <= g < m.len() ==> (#[trigger] m[g]).len() == n,
                rule_hits(m, q as int) <= u32::MAX,
                h == rule_hits(m.take(f as int), q as int),
        {
            proof {
                lemma_rule_hits_step(m, f as int, q as int);
                lemma_rule_hits_prefix(m, f + 1, q as int);
                assert(m[f as int] == file_starts_view(matches@[f as int]));
                assert(m[f as int][q as int] == matches@[f as int]@[q as int]@);
            }
            h = h + matches[f][q].len() as u32;
        }
        proof {
            assert(m.take(m.len() as int) =~= m);
        }
        hits.push(h);
    }
    // matches of all rules sharing each rule's id
    let mut totals: Vec<u32> = Vec::new();
    for q in 0..n
        invariant
            n == patches@.len(),
            ids == rule_ids(patches@),
            hits@.len() == n,
            forall|j: int| 0 <= j < n ==> #[trigger] hits@[j] == rule_hits(m, j),
            counts_fit(patches@, m),
            totals@.len() == q,
            forall|j: int| 0 <= j < q ==> #[trigger] totals@[j] == id_hits(ids, m, ids[j], n as int),
            m == matches_view(matches@),
    {
        let idq = chars_of(patches[q].id.as_str());
        let mut t: u32 = 0;
        for s in 0..n
            invariant
                n == patches@.len(),
                q < n,
                ids == rule_ids(patches@),
                idq@ == ids[q as int],
                hits@.len() == n,
                forall|j: int| 0 <= j < n ==> #[trigger] hits@[j] == rule_hits(m, j),
                counts_fit(patches@, m),
                t == id_hits(ids, m, ids[q as int], s as int),
        {
            let ids_ = chars_of(patches[s].id.as_str());
            proof {
                lemma_id_hits_mono(ids, m, ids[q as int], s + 1, n as int);
                assert(ids[q as int] == patches@[q as int].id@);
                assert(id_hits(ids, m, patches@[q as int].id@, n as int) <= u32::MAX);
                assert(ids[s as int] == patches@[s as int].id@);
            }
            if chars_eq(&ids_, &idq) {
                t = t + hits[s];
            }
        }
        totals.push(t);
    }
    // every rule must be hit often enough
    for q in 0..n
        invariant
            n == patches@.len(),
            ids == rule_ids(patches@),
            totals@.len() == n,
            forall|j: int| 0 <= j < n ==> #[trigger] totals@[j] == id_hits(ids, m, ids[j], n as int),
            first_short(patches@, m, q as int) is None,
            m == matches_view(matches@),
    {
        proof {
            assert(ids[q as int] == patches@[q as int].id@);
        }
        if totals[q] < patches[q].required_hits {
            proof {
                assert(first_short(patches@, m, q + 1) == Some(q as int));
                lemma_first_short_stays(patches@, m, q as int, n as int);
            }
            return Err(AppError::PatchNoHit { patch_id: patches[q].id.clone() });
        }
    }
    // the per-id table
    let mut per_patch: Vec<(String, u32)> = Vec::new();
    proof {
        assert(per_patch_view(per_patch@) =~= Seq::<(Seq<char>, u32)>::empty());
    }
    for q in 0..n
        invariant
            n == patches@.len(),
            ids == rule_ids(patches@),
            totals@.len() == n,
            forall|j: int| 0 <= j < n ==> #[trigger] totals@[j] == id_hits(ids, m, ids[j], n as int),
            per_patch_view(per_patch@) == counts_model(ids, m, q as int),
            m == matches_view(matches@),
    {
        set_count(&mut per_patch, patches[q].id.clone(), totals[q]);
        proof {
            assert(ids.len() == n);
        }
    }
    // the insertions, file by file
    let mut modified: Vec<String> = Vec::new();
    let mut patched_files: Vec<JsFile> = Vec::new();
    proof {
        assert(crate::tree::strings_view(modified@) =~= paths_at(files@, touched(m, pl, 0)));
    }
    for f in 0..files.len()
        invariant
            n == patches@.len(),
            matches@.len() == files@.len(),
            forall|g: int| 0 <= g < matches@.len() ==> (#[trigger] matches@[g])@.len() == n,
            m == matches_view(matches@),
            m.len() == files@.len(),
            forall|g: int| 0 <= g < m.len() ==> (#[trigger] m[g]).len() == n,
            pl == rule_payloads(patches@),
            views_u8(payloads@) == pl,
            payloads@.len() == n,
            crate::tree::strings_view(modified@) == paths_at(files@, touched(m, pl, f as int)),
            patched_files@.len() == touched(m, pl, f as int).len(),
            forall|k: int|
                0 <= k < touched(m, pl, f as int).len() ==> (#[trigger] patched_files@[k]).path@
                    == files@[touched(m, pl, f as int)[k]].path@ && patched_files@[k].content@
                    == patched(
                    files@[touched(m, pl, f as int)[k]].content@,
                    anchors_of(m[touched(m, pl, f as int)[k]], pl),
                ),
    {
        let ghost mf = m[f as int];
        proof {
            assert(mf == file_starts_view(matches@[f as int]));
        }
        let mut anchors: Vec<(usize, usize)> = Vec::new();
        proof {
            assert(anchor_model(anchors@, pl) =~= anchors_of(mf.take(0), pl));
        }
        for q in 0..n
            invariant
                n == patches@.len(),
                f < matches@.len(),
                mf == file_starts_view(matches@[f as int]),
                mf.len() == n,
                pl.len() == n,
                matches@[f as int]@.len() == n,
                forall|a: int| 0 <= a < anchors@.len() ==> #[trigger] anchors@[a].1 < n,
                anchor_model(anchors@, pl) == anchors_of(mf.take(q as int), pl),
        {
            let ghost before = anchor_model(anchors@, pl);
            let starts = &matches[f][q];
            proof {
                assert(mf[q as int] == starts@);
                assert(mf.take(q + 1).drop_last() =~= mf.take(q as int));
                assert(before.len() == anchors@.len());
            }
            for k in 0..starts.len()
                invariant
                    q < n,
                    pl.len() == n,
                    forall|a: int| 0 <= a < anchors@.len() ==> #[trigger] anchors@[a].1 < n,
                    anchor_model(anchors@, pl) == before + tag_with(starts@.take(k as int), pl[q as int]),
            {
                let ghost a0 = anchors@;
                anchors.push((starts[k], q));
                proof {
                    assert(anchor_model(anchors@, pl) =~= anchor_model(a0, pl).push((starts@[k as int], pl[q as int])));
                    assert(tag_with(starts@.take(k + 1), pl[q as int]) =~= tag_with(starts@.take(k as int), pl[q as int]).push(
                        (starts@[k as int], pl[q as int]),
                    ));
                }
            }
            proof {
                assert(starts@.take(starts@.len() as int) =~= starts@);
            }
        }
        proof {
            assert(mf.take(n as int) =~= mf);
            assert(anchor_model(anchors@, views_u8(payloads@)) == anchors_of(mf, pl));
            assert(anchor_model(anchors@, pl).len() == anchors@.len());
        }
        if anchors.len() > 0 {
            let content = insert_payloads(&files[f].content, &anchors, &payloads);
            let ghost old_mod = modified@;
            let ghost old_pf = patched_files@;
            modified.push(files[f].path.clone());
            patched_files.push(JsFile { path: files[f].path.clone(), content });
            proof {
                let t0 = touched(m, pl, f as int);
                let t1 = touched(m, pl, f + 1);
                assert(t1 == t0.push(f as int));
                lemma_touched_bounds(m, pl, f as int);
                assert(crate::tree::strings_view(old_mod).len() == old_mod.len());
                assert(old_mod.len() == t0.len());
                assert(modified@ == old_mod.push(files@[f as int].path));
                assert(patched_files@.len() == t1.len());
                assert forall|k: int| 0 <= k < t1.len() implies crate::tree::strings_view(modified@)[k]
                    == paths_at(files@, t1)[k] by {
                    if k < t1.len() - 1 {
                        assert(modified@[k] == old_mod[k]);
                        assert(crate::tree::strings_view(old_mod)[k] == paths_at(files@, t0)[k]);
                    }
                }
                assert(crate::tree::strings_view(modified@) =~= paths_at(files@, t1));
                assert forall|k: int| 0 <= k < t1.len() implies (#[trigger] patched_files@[k]).path@
                    == files@[t1[k]].path@ && patched_files@[k].content@ == patched(
                    files@[t1[k]].content@,
                    anchors_of(m[t1[k]], pl),
                ) by {
                    if k < t1.len() - 1 {
                        assert(patched_files@[k] == old_pf[k]);
                    }
                }
            }
        } else {
            proof {
                assert(touched(m, pl, f + 1) == touched(m, pl, f as int));
            }
        }
    }
    let count = n as u32;
    let report = PatchReport {
        patches_attempted: count,
        patches_hit: count,
        files_modified: modified,
        per_patch,
    };
    Ok(PatchOutcome { report, patched: patched_files })
}

// ---------------------------------------------------------------------------
// Compiling and applying rules
// ---------------------------------------------------------------------------

/// The first rule whose pattern does not compile, if any.
pub open spec fn first_bad_regex(patches: Seq<PatchRule>, n: int) -> Option<int>
    decreases n,
{
    if n <= 0 {
        None
    } else {
        match first_bad_regex(patches, n - 1) {
            Some(r) => Some(r),
            None => if regex_compile_error(patches[n - 1].regex@) is Some {
                Some(n - 1)
            } else {
                None
            },
        }
    }
}

pub open spec fn compile_error_message(p: PatchRule) -> Seq<char> {
    "正则编译失败 "@ + p.id@ + ": "@ + regex_compile_error(p.regex@).unwrap()
}

proof fn lemma_first_bad_stays(patches: Seq<PatchRule>, r: int, k: int)
    requires
        0 <= r < k,
        first_bad_regex(patches, r + 1) == Some(r),
    ensures
        first_bad_regex(patches, k) == Some(r),
    decreases k - r,
{
    if k > r + 1 {
        lemma_first_bad_stays(patches, r, k - 1);
    }
}

/// Compiles every rule's pattern, in order; the first that does not
/// compile gives an internal error naming the rule.
pub fn compile_patches(patches: &Vec<PatchRule>) -> (r: Result<Vec<CompiledPattern>, AppError>)
    ensures
        match first_bad_regex(patches@, patches@.len() as int) {
            Some(q) => r matches Err(AppError::Internal(msg)) && msg@ == compile_error_message(patches@[q]),
            None => r matches Ok(v) && v@.len() == patches@.len() && forall|i: int|
                0 <= i < v@.len() ==> (#[trigger] v@[i]).pattern() == patches@[i].regex@,
        },
{
    let mut out: Vec<CompiledPattern> = Vec::new();
    for q in 0..patches.len()
        invariant
            out@.len() == q,
            forall|i: int| 0 <= i < q ==> (#[trigger] out@[i]).pattern() == patches@[i].regex@,
            first_bad_regex(patches@, q as int) is None,
    {
        match compile_pattern(patches[q].regex.as_str()) {
            Ok(c) => {
                out.push(c);
            },
            Err(e) => {
                proof {
                    assert(first_bad_regex(patches@, q + 1) == Some(q as int));
                    lemma_first_bad_stays(patches@, q as int, patches@.len() as int);
                }
                let head = concat_str("正则编译失败 ", patches[q].id.as_str());
                let head = concat_str(head.as_str(), ": ");
                let msg = concat_str(head.as_str(), e.as_str());
                return Err(AppError::Internal(msg));
            },
        }
    }
    Ok(out)
}

/// Where each rule's pattern matches in each file (`[f][r]`).
pub open spec fn regex_matches_model(patches: Seq<PatchRule>, files: Seq<JsFile>) -> Seq<
    Seq<Seq<usize>>,
> {
    Seq::new(
        files.len(),
        |f: int| Seq::new(patches.len(), |r: int| regex_match_starts(patches[r].regex@, files[f].content@)),
    )
}

/// The matches that applying the rules uses for a file and a rule are all
/// the rule's matches in the file's whole contents, and each lies within
/// them.
pub proof fn lemma_matches_cover_whole_file(patches: Seq<PatchRule>, files: Seq<JsFile>, f: int, r: int)
    requires
        0 <= f < files.len(),
        0 <= r < patches.len(),
    ensures
        regex_matches_model(patches, files).len() == files.len(),
        regex_matches_model(patches, files)[f].len() == patches.len(),
        regex_matches_model(patches, files)[f][r] == regex_match_starts(patches[r].regex@, files[f].content@),
{
}

/// Applies compiled rules to the files: each pattern is searched in every
/// file, then the rules are applied as `plan_patches` says. An id with
/// more matches than its `u32` counter holds gives an internal error.
pub fn apply_compiled(patches: &Vec<PatchRule>, compiled: &Vec<CompiledPattern>, files: &Vec<JsFile>) -> (r:
    Result<PatchOutcome, AppError>)
    requires
        compiled@.len() == patches@.len(),
        forall|i: int| 0 <= i < compiled@.len() ==> (#[trigger] compiled@[i]).pattern() == patches@[i].regex@,
    ensures
        ({
            let m = regex_matches_model(patches@, files@);
            if counts_fit(patches@, m) {
                plan_matches(r, files@, patches@, m)
            } else {
                r matches Err(AppError::Internal(_))
            }
        }),
{
    let n = patches.len();
    let ghost mm = regex_matches_model(patches@, files@);
    let mut matches: Vec<Vec<Vec<usize>>> = Vec::new();
    for f in 0..files.len()
        invariant
            n == patches@.len(),
            compiled@.len() == n,
            forall|i: int| 0 <= i < compiled@.len() ==> (#[trigger] compiled@[i]).pattern() == patches@[i].regex@,
            mm == regex_matches_model(patches@, files@),
            matches@.len() == f,
            forall|g: int| 0 <= g < f ==> #[trigger] file_starts_view(matches@[g]) == mm[g],
            forall|g: int, q: int, k: int|
                0 <= g < f && 0 <= q < n && 0 <= k < matches@[g]@[q]@.len() ==> #[trigger] matches@[g]@[q]@[k]
                    <= files@[g].content@.len(),
            forall|g: int| 0 <= g < f ==> (#[trigger] matches@[g])@.len() == n,
    {
        let mut per_rule: Vec<Vec<usize>> = Vec::new();
        for q in 0..n
            invariant
                n == patches@.len(),
                compiled@.len() == n,
                forall|i: int| 0 <= i < compiled@.len() ==> (#[trigger] compiled@[i]).pattern() == patches@[i].regex@,
                f < files@.len(),
                per_rule@.len() == q,
                forall|j: int| 0 <= j < q ==> (#[trigger] per_rule@[j])@ == regex_match_starts(
                    patches@[j].regex@,
                    files@[f as int].content@,
                ),
                forall|j: int, k: int|
                    0 <= j < q && 0 <= k < per_rule@[j]@.len() ==> #[trigger] per_rule@[j]@[k]
                        <= files@[f as int].content@.len(),
        {
            let starts = regex_find_starts(&compiled[q], files[f].content.as_slice());
            per_rule.push(starts);
        }
        let ghost old_m = matches@;
        matches.push(per_rule);
        proof {
            assert(file_starts_view(matches@[f as int]) =~= mm[f as int]);
            assert forall|g: int| 0 <= g < f implies #[trigger] file_starts_view(matches@[g]) == mm[g] by {
                assert(matches@[g] == old_m[g]);
            }
        }
    }
    proof {
        assert(matches_view(matches@) =~= mm);
    }
    // count each id's matches, stopping at the first id whose count does
    // not fit its counter
    let ghost ids = rule_ids(patches@);
    for q in 0..n
        invariant
            n == patches@.len(),
            ids == rule_ids(patches@),
            mm == matches_view(matches@),
            mm == regex_matches_model(patches@, files@),
            mm.len() == files@.len(),
            matches@.len() == files@.len(),
            forall|g: int| 0 <= g < matches@.len() ==> (#[trigger] matches@[g])@.len() == n,
            forall|j: int| 0 <= j < q ==> #[trigger] id_hits(ids, mm, patches@[j].id@, n as int) <= u32::MAX,
    {
        let idq = chars_of(patches[q].id.as_str());
        let mut t: u64 = 0;
        proof {
            assert(ids[q as int] == patches@[q as int].id@);
        }
        for s in 0..n
            invariant
                n == patches@.len(),
                q < n,
                ids == rule_ids(patches@),
                idq@ == ids[q as int],
                ids[q as int] == patches@[q as int].id@,
                mm == matches_view(matches@),
                mm == regex_matches_model(patches@, files@),
                mm.len() == matches@.len(),
                forall|g: int| 0 <= g < matches@.len() ==> (#[trigger] matches@[g])@.len() == n,
                t as nat == id_hits(ids, mm, ids[q as int], s as int),
                t <= u32::MAX,
        {
            let ids_ = chars_of(patches[s].id.as_str());
            proof {
                assert(ids[s as int] == patches@[s as int].id@);
            }
            if chars_eq(&ids_, &idq) {
                let mut h: u64 = 0;
                proof {
                    assert(mm.take(0) =~= Seq::<Seq<Seq<usize>>>::empty());
                }
                for f in 0..matches.len()
                    invariant
                        n == patches@.len(),
                        q < n,
                        s < n,
                        ids[s as int] == ids[q as int],
                        ids[q as int] == patches@[q as int].id@,
                        ids == rule_ids(patches@),
                        mm == matches_view(matches@),
                        mm == regex_matches_model(patches@, files@),
                        mm.len() == matches@.len(),
                        forall|g: int| 0 <= g < matches@.len() ==> (#[trigger] matches@[g])@.len() == n,
                        t as nat == id_hits(ids, mm, ids[q as int], s as int),
                        h as nat == rule_hits(mm.take(f as int), s as int),
                        t + h <= u32::MAX,
                {
                    proof {
                        lemma_rule_hits_step(mm, f as int, s as int);
                        assert(mm[f as int] == file_starts_view(matches@[f as int]));
                        assert(mm[f as int][s as int] == matches@[f as int]@[s as int]@);
                    }
                    let len = matches[f][s].len() as u64;
                    if len > u32::MAX as u64 - t - h {
                        proof {
                            lemma_rule_hits_prefix(mm, f + 1, s as int);
                            assert(id_hits(ids, mm, ids[q as int], s + 1) == id_hits(ids, mm, ids[q as int], s as int)
                                + rule_hits(mm, s as int));
                            lemma_id_hits_mono(ids, mm, ids[q as int], s + 1, n as int);
                            assert(id_hits(ids, mm, patches@[q as int].id@, n as int) > u32::MAX);
                            if counts_fit(patches@, mm) {
                                assert(id_hits(rule_ids(patches@), mm, patches@[q as int].id@, patches@.len() as int)
                                    <= u32::MAX);
                            }
                        }
                        return Err(AppError::Internal(String::from_str("补丁命中次数超出 u32 范围")));
                    }
                    h = h + len;
                }
                proof {
                    assert(mm.take(mm.len() as int) =~= mm);
                }
                t = t + h;
            }
        }
    }
    proof {
        assert(counts_fit(patches@, mm));
    }
    plan_patches(files, patches, &matches)
}

/// What applying the rules to the files gives: an internal error naming
/// the first rule whose pattern does not compile; otherwise, the rules
/// applied at all their matches in the files' whole contents (see
/// `plan_matches`), or an internal error when an id has more matches than
/// its `u32` counter holds.
pub open spec fn patch_result(r: Result<PatchOutcome, AppError>, files: Seq<JsFile>, patches: Seq<PatchRule>) -> bool {
    match first_bad_regex(patches, patches.len() as int) {
        Some(q) => r matches Err(AppError::Internal(msg)) && msg@ == compile_error_message(patches[q]),
        None => {
            let m = regex_matches_model(patches, files);
            if counts_fit(patches, m) {
                plan_matches(r, files, patches, m)
            } else {
                r matches Err(AppError::Internal(_))
            }
        },
    }
}

/// Compiles the rules and applies them to the files.
pub fn apply_patches(files: &Vec<JsFile>, patches: &Vec<PatchRule>) -> (r: Result<PatchOutcome, AppError>)
    ensures
        patch_result(r, files@, patches@),
{
    let compiled = compile_patches(patches)?;
    apply_compiled(patches, &compiled, files)
}

} // verus!
