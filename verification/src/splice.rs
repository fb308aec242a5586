//! Why inserting the payloads from the last offset to the first is right:
//! each insertion then leaves the offsets of the ones still to come where
//! they were, so the result is every payload right before its match.
use crate::error::AppError;
use crate::patcher::{
    anchors_of, counts_fit, counts_model, first_bad_regex, first_short, id_hits, inserts_at, patch_result,
    patched, patched_prefix, payload_bytes, per_patch_view, regex_compile_error, regex_match_starts,
    regex_matches_model, rule_hits, rule_ids, rule_payloads, tag_with, touched, JsFile, PatchOutcome, PatchRule,
};
use vstd::prelude::*;

verus! {

/// The content with one payload inserted at an offset.
pub open spec fn splice(c: Seq<u8>, a: (usize, Seq<u8>)) -> Seq<u8> {
    c.take(a.0 as int) + a.1 + c.skip(a.0 as int)
}

/// The content after inserting the payloads one at a time, in the order
/// given, each at its offset in the content as it is by then.
pub open spec fn splice_all(c: Seq<u8>, s: Seq<(usize, Seq<u8>)>) -> Seq<u8>
    decreases s.len(),
{
    if s.len() == 0 {
        c
    } else {
        splice_all(splice(c, s[0]), s.drop_first())
    }
}

/// The offsets never grow along the sequence.
pub open spec fn non_increasing(s: Seq<(usize, Seq<u8>)>) -> bool {
    forall|i: int, j: int| 0 <= i < j < s.len() ==> #[trigger] s[i].0 >= #[trigger] s[j].0
}

/// Every offset lies within the content.
pub open spec fn within(s: Seq<(usize, Seq<u8>)>, n: nat) -> bool {
    forall|i: int| 0 <= i < s.len() ==> #[trigger] s[i].0 <= n
}

/// Every offset is at most `p`.
pub open spec fn all_at_most(s: Seq<(usize, Seq<u8>)>, p: int) -> bool {
    forall|i: int| 0 <= i < s.len() ==> #[trigger] s[i].0 <= p
}

proof fn lemma_inserts_none(a: Seq<(usize, Seq<u8>)>, q: int)
    requires
        forall|i: int| 0 <= i < a.len() ==> #[trigger] a[i].0 != q,
    ensures
        inserts_at(a, q) == Seq::<u8>::empty(),
    decreases a.len(),
{
    if a.len() > 0 {
        assert forall|i: int| 0 <= i < a.drop_first().len() implies #[trigger] a.drop_first()[i].0 != q by {
            assert(a.drop_first()[i] == a[i + 1]);
        }
        lemma_inserts_none(a.drop_first(), q);
    }
}

/// The first `k` bytes with their insertions depend on nothing else.
proof fn lemma_prefix_ext(c1: Seq<u8>, a1: Seq<(usize, Seq<u8>)>, c2: Seq<u8>, a2: Seq<(usize, Seq<u8>)>, k: int)
    requires
        0 <= k <= c1.len(),
        k <= c2.len(),
        forall|i: int| 0 <= i < k ==> c1[i] == c2[i],
        forall|i: int| 0 <= i < k ==> #[trigger] inserts_at(a1, i) == inserts_at(a2, i),
    ensures
        patched_prefix(c1, a1, k) == patched_prefix(c2, a2, k),
    decreases k,
{
    if k > 0 {
        lemma_prefix_ext(c1, a1, c2, a2, k - 1);
        assert(inserts_at(a1, k - 1) == inserts_at(a2, k - 1));
    }
}

/// With no offset past `p`, the bytes from `p + 1` on get no insertions.
proof fn lemma_prefix_tail(c: Seq<u8>, a: Seq<(usize, Seq<u8>)>, p: int, k: int)
    requires
        0 <= p < k <= c.len(),
        all_at_most(a, p),
    ensures
        patched_prefix(c, a, k) == patched_prefix(c, a, p) + inserts_at(a, p) + c.subrange(p, k),
    decreases k,
{
    if k == p + 1 {
        assert(c.subrange(p, k) =~= seq![c[p]]);
    } else {
        lemma_prefix_tail(c, a, p, k - 1);
        assert forall|i: int| 0 <= i < a.len() implies #[trigger] a[i].0 != k - 1 by {}
        lemma_inserts_none(a, k - 1);
        assert(c.subrange(p, k) =~= c.subrange(p, k - 1) + seq![c[k - 1]]);
    }
}

/// With no offset past `p`, the patched content is the patched bytes
/// before `p`, the insertions at `p`, and the content from `p` on.
proof fn lemma_patched_split(c: Seq<u8>, a: Seq<(usize, Seq<u8>)>, p: int)
    requires
        0 <= p <= c.len(),
        all_at_most(a, p),
    ensures
        patched(c, a) == patched_prefix(c, a, p) + inserts_at(a, p) + c.skip(p),
{
    let n = c.len() as int;
    if p < n {
        lemma_prefix_tail(c, a, p, n);
        assert forall|i: int| 0 <= i < a.len() implies #[trigger] a[i].0 != n by {}
        lemma_inserts_none(a, n);
        assert(c.subrange(p, n) =~= c.skip(p));
        assert(patched(c, a) =~= patched_prefix(c, a, p) + inserts_at(a, p) + c.skip(p));
    } else {
        assert(c.skip(p) =~= Seq::<u8>::empty());
        assert(patched(c, a) =~= patched_prefix(c, a, p) + inserts_at(a, p) + c.skip(p));
    }
}

/// Inserting the payloads one at a time, from the last offset to the
/// first, gives the content with every payload right before its offset;
/// payloads at one offset end up with the one inserted last first.
pub proof fn lemma_splice_descending(c: Seq<u8>, s: Seq<(usize, Seq<u8>)>)
    requires
        non_increasing(s),
        within(s, c.len()),
    ensures
        splice_all(c, s) == patched(c, s),
    decreases s.len(),
{
    if s.len() == 0 {
        lemma_no_insertions(c, s, c.len() as int);
        assert(patched(c, s) =~= c);
    } else {
        let a = s[0];
        let p = a.0 as int;
        let rest = s.drop_first();
        let c2 = splice(c, a);
        assert forall|i: int, j: int| 0 <= i < j < rest.len() implies #[trigger] rest[i].0 >= #[trigger] rest[j].0 by {
            assert(s[i + 1].0 >= s[j + 1].0);
        }
        assert forall|i: int| 0 <= i < rest.len() implies #[trigger] rest[i].0 <= c2.len() by {
            assert(s[0].0 >= s[i + 1].0);
        }
        lemma_splice_descending(c2, rest);
        assert(all_at_most(rest, p)) by {
            assert forall|i: int| 0 <= i < rest.len() implies #[trigger] rest[i].0 <= p by {
                assert(s[0].0 >= s[i + 1].0);
            }
        }
        assert(all_at_most(s, p)) by {
            assert forall|i: int| 0 <= i < s.len() implies #[trigger] s[i].0 <= p by {
                if i > 0 {
                    assert(s[0].0 >= s[i].0);
                }
            }
        }
        lemma_patched_split(c2, rest, p);
        lemma_patched_split(c, s, p);
        assert forall|i: int| 0 <= i < p implies #[trigger] inserts_at(rest, i) == inserts_at(s, i) by {
            assert(s.drop_first() == rest);
        }
        assert forall|i: int| 0 <= i < p implies c2[i] == c[i] by {}
        lemma_prefix_ext(c2, rest, c, s, p);
        assert(inserts_at(s, p) == inserts_at(rest, p) + a.1);
        assert(c2.skip(p) =~= a.1 + c.skip(p));
        assert(patched(c2, rest) =~= patched(c, s));
    }
}

/// Without insertions, the first `k` bytes stay as they are.
pub proof fn lemma_no_insertions(c: Seq<u8>, a: Seq<(usize, Seq<u8>)>, k: int)
    requires
        0 <= k <= c.len(),
        a.len() == 0,
    ensures
        patched_prefix(c, a, k) == c.take(k),
    decreases k,
{
    if k > 0 {
        lemma_no_insertions(c, a, k - 1);
        assert(c.take(k) =~= c.take(k - 1) + seq![c[k - 1]]);
    }
}

/// The patched content depends on the insertions only through which
/// payloads go before each offset, in which order.
pub proof fn lemma_patched_by_offsets(c: Seq<u8>, a: Seq<(usize, Seq<u8>)>, b: Seq<(usize, Seq<u8>)>)
    requires
        forall|i: int| 0 <= i <= c.len() ==> #[trigger] inserts_at(a, i) == inserts_at(b, i),
    ensures
        patched(c, a) == patched(c, b),
{
    lemma_prefix_ext(c, a, c, b, c.len() as int);
    assert(inserts_at(a, c.len() as int) == inserts_at(b, c.len() as int));
}

/// Sorting the insertions by offset from the last to the first, keeping
/// those at one offset in the order they were found, and inserting them
/// one at a time gives the content with every payload right before its
/// match.
pub proof fn lemma_reverse_order_insertion(c: Seq<u8>, found: Seq<(usize, Seq<u8>)>, sorted: Seq<(usize, Seq<u8>)>)
    requires
        non_increasing(sorted),
        within(sorted, c.len()),
        forall|i: int| 0 <= i <= c.len() ==> #[trigger] inserts_at(sorted, i) == inserts_at(found, i),
    ensures
        splice_all(c, sorted) == patched(c, found),
{
    lemma_splice_descending(c, sorted);
    lemma_patched_by_offsets(c, sorted, found);
}

/// A rule that matches a file once, anywhere in its contents, inserts its
/// payload right there, and nothing else: the file is reported patched,
/// its new contents are the bytes before the match, the payload, and the
/// bytes from the match on, and the rule's id is counted once.
pub proof fn lemma_single_match_inserted(r: Result<PatchOutcome, AppError>, file: JsFile, rule: PatchRule, p: usize)
    requires
        patch_result(r, seq![file], seq![rule]),
        regex_compile_error(rule.regex@) is None,
        regex_match_starts(rule.regex@, file.content@) == seq![p],
        p <= file.content@.len(),
        rule.required_hits <= 1,
    ensures
        r matches Ok(o) && o.patched@.len() == 1 && o.patched@[0].path@ == file.path@ && o.patched@[0].content@
            == file.content@.take(p as int) + payload_bytes(rule) + file.content@.skip(p as int)
            && per_patch_view(o.report.per_patch@) == seq![(rule.id@, 1u32)],
{
    let files = seq![file];
    let patches = seq![rule];
    let m = regex_matches_model(patches, files);
    let pl = rule_payloads(patches);
    let ids = rule_ids(patches);
    assert(first_bad_regex(patches, 0) is None);
    assert(first_bad_regex(patches, 1) is None);
    assert(m.len() == 1 && m[0].len() == 1);
    assert(m[0][0] == seq![p]);
    assert(m.drop_last().len() == 0);
    assert(rule_hits(m.drop_last(), 0) == 0);
    assert(rule_hits(m, 0) == 1);
    assert(ids[0] == rule.id@);
    assert(id_hits(ids, m, rule.id@, 0) == 0);
    assert(id_hits(ids, m, rule.id@, 1) == 1);
    assert(counts_fit(patches, m));
    assert(first_short(patches, m, 0) is None);
    assert(first_short(patches, m, 1) is None);
    let a = seq![(p, payload_bytes(rule))];
    assert(pl[0] == payload_bytes(rule));
    assert(m[0].drop_last().len() == 0);
    assert(anchors_of(m[0].drop_last(), pl) == Seq::<(usize, Seq<u8>)>::empty());
    assert(tag_with(m[0].last(), pl[0]) =~= a);
    assert(anchors_of(m[0], pl) =~= a);
    assert(touched(m, pl, 0) == Seq::<int>::empty());
    assert(touched(m, pl, 1) =~= seq![0int]);
    // inserting the one payload
    assert(non_increasing(a));
    assert(within(a, file.content@.len()));
    lemma_splice_descending(file.content@, a);
    assert(a.drop_first() =~= Seq::<(usize, Seq<u8>)>::empty());
    let once = splice(file.content@, a[0]);
    assert(splice_all(once, a.drop_first()) == once);
    assert(splice_all(file.content@, a) == once);
    // the per-id table
    let empty = Seq::<(Seq<char>, u32)>::empty();
    assert(counts_model(ids, m, 0) == empty);
    crate::keyed::lemma_key_index(crate::keyed::keys_of(empty), rule.id@);
    assert(crate::keyed::keys_of(empty) =~= Seq::<Seq<char>>::empty());
    assert(crate::keyed::key_index(crate::keyed::keys_of(empty), rule.id@) == -1);
    assert(crate::keyed::key_insert_pos(crate::keyed::keys_of(empty), rule.id@) == 0);
    assert(counts_model(ids, m, 1) =~= seq![(rule.id@, 1u32)]);
}

} // verus!
