//! Dedup mode: emit each record whose identity has not been seen before.
//!
//! The engine keeps only the 64-bit identities of the records it has seen.
//! Two distinct records with colliding identities are treated as the same
//! record; the seeded hash makes that astronomically unlikely but the
//! contracts here do not exclude it. The dedup output is therefore stated
//! over the identity sequence, and `lemma_dedup_first_occurrences`
//! says that whenever the identity assignment is injective, the output is
//! exactly the distinct records in order of first occurrence.

use crate::hashing::HashSeeds;
use crate::hashing::RecordHasher;
use crate::hashing::hash;
use crate::hashing::record_id;
use crate::records::append_bytes;
use crate::records::lemma_split_records_last_unterminated;
use crate::records::lemma_split_records_no_delim;
use crate::records::lemma_split_records_nonempty;
use crate::records::lemma_split_records_prepend;
use crate::records::lemma_split_records_single;
use crate::records::rec_views;
use crate::records::split_all;
use crate::records::split_records;
use std::collections::HashSet;
use vstd::prelude::*;

verus! {

/// The identities of the records under the given seeds.
pub open spec fn ids_of(seeds: HashSeeds, recs: Seq<Seq<u8>>) -> Seq<u64> {
    Seq::new(recs.len(), |i: int| record_id(seeds, recs[i]))
}

/// Position `k` carries an id that no earlier position carries.
pub open spec fn fresh_at(ids: Seq<u64>, k: int) -> bool {
    !ids.take(k).contains(ids[k])
}

/// The subsequence of `recs` at the positions whose id is fresh there.
pub open spec fn select_firsts(recs: Seq<Seq<u8>>, ids: Seq<u64>) -> Seq<Seq<u8>>
    decreases recs.len(),
{
    if recs.len() == 0 {
        Seq::empty()
    } else {
        let prev = select_firsts(recs.drop_last(), ids.take(recs.len() - 1));
        if fresh_at(ids, recs.len() - 1) {
            prev.push(recs.last())
        } else {
            prev
        }
    }
}

/// The records dedup mode keeps, in order.
pub open spec fn dedup_records(seeds: HashSeeds, recs: Seq<Seq<u8>>) -> Seq<Seq<u8>> {
    select_firsts(recs, ids_of(seeds, recs))
}

/// Each record followed by one delimiter byte.
pub open spec fn render_records(recs: Seq<Seq<u8>>, delim: u8) -> Seq<u8>
    decreases recs.len(),
{
    if recs.len() == 0 {
        Seq::empty()
    } else {
        render_records(recs.drop_last(), delim) + recs.last() + seq![delim]
    }
}

/// The final record's id occurs at no earlier position.
pub open spec fn last_record_new(seeds: HashSeeds, recs: Seq<Seq<u8>>) -> bool {
    recs.len() > 0 && fresh_at(ids_of(seeds, recs), recs.len() - 1)
}

/// Dedup-mode output for a whole input: the first-seen records, each
/// delimiter-terminated — except a final record that reached the end of the
/// input without a delimiter, which is terminated only when
/// `include_trailing` asks for it.
pub open spec fn spec_dedup(
    seeds: HashSeeds,
    input: Seq<u8>,
    delim: u8,
    include_trailing: bool,
) -> Seq<u8> {
    let recs = split_records(input, delim);
    let full = render_records(dedup_records(seeds, recs), delim);
    if input.len() == 0 || input.last() == delim || include_trailing {
        full
    } else if last_record_new(seeds, recs) {
        full.drop_last()
    } else {
        full
    }
}

/// The membership structure of dedup mode: the set of identities seen so
/// far, with the ghost history of the records themselves.
pub struct Deduper {
    hasher: RecordHasher,
    seen: HashSet<u64>,
    recs: Ghost<Seq<Seq<u8>>>,
}

impl Deduper {
    pub closed spec fn seeds(self) -> HashSeeds {
        self.hasher.seeds()
    }

    /// Every record handed to `process`, in order.
    pub closed spec fn records(self) -> Seq<Seq<u8>> {
        self.recs@
    }

    /// The seen-set holds exactly the identities of the processed records.
    pub closed spec fn wf(self) -> bool {
        forall|y: u64|
            self.seen@.contains(y) <==> ids_of(self.hasher.seeds(), self.recs@).contains(y)
    }

    pub fn new(hasher: RecordHasher) -> (r: Deduper)
        ensures
            r.wf(),
            r.records() == Seq::<Seq<u8>>::empty(),
            r.seeds() == hasher.seeds(),
    {
        Deduper { hasher, seen: HashSet::new(), recs: Ghost(Seq::empty()) }
    }

    /// Record one record; true means its identity was not seen before, so
    /// the record is to be emitted.
    pub fn process(&mut self, record: &Vec<u8>) -> (fresh: bool)
        requires
            old(self).wf(),
        ensures
            final(self).wf(),
            final(self).seeds() == old(self).seeds(),
            final(self).records() == old(self).records().push(record@),
            fresh == !ids_of(old(self).seeds(), old(self).records()).contains(
                record_id(old(self).seeds(), record@),
            ),
    {
        let id = hash(&self.hasher, record.as_slice());
        let fresh = self.seen.insert(id);
        proof {
            let seeds = self.hasher.seeds();
            let a = ids_of(seeds, self.recs@);
            let b = ids_of(seeds, self.recs@.push(record@));
            assert(b =~= a.push(id));
            assert forall|y: u64| b.contains(y) implies (a.contains(y) || y == id) by {
                let j = choose|j: int| 0 <= j < b.len() && b[j] == y;
                if j < a.len() {
                    assert(a[j] == y);
                }
            }
            assert forall|y: u64| a.contains(y) || y == id implies b.contains(y) by {
                if a.contains(y) {
                    let j = choose|j: int| 0 <= j < a.len() && a[j] == y;
                    assert(b[j] == y);
                } else {
                    assert(b[a.len() as int] == id);
                }
            }
        }
        self.recs = Ghost(self.recs@.push(record@));
        fresh
    }
}

/// Remove duplicate records from `input` in one pass.
pub fn dedup_bytes(seeds: HashSeeds, input: &[u8], delim: u8, include_trailing: bool) -> (out: Vec<
    u8,
>)
    ensures
        out@ == spec_dedup(seeds, input@, delim, include_trailing),
{
    let ghost all = split_records(input@, delim);
    let recs = split_all(input, delim);
    let had_tail = input.len() > 0 && input[input.len() - 1] != delim;
    let hasher = RecordHasher::from_seeds(seeds);
    let mut dd = Deduper::new(hasher);
    let mut out: Vec<u8> = Vec::new();
    let mut last_fresh = false;
    let mut idx: usize = 0;
    while idx < recs.len()
        invariant
            idx <= recs.len(),
            rec_views(recs@) == all,
            dd.wf(),
            dd.seeds() == seeds,
            dd.records() == all.take(idx as int),
            out@ == render_records(dedup_records(seeds, all.take(idx as int)), delim),
            idx > 0 ==> last_fresh == last_record_new(seeds, all.take(idx as int)),
        decreases recs.len() - idx,
    {
        let ghost prefix = all.take(idx as int);
        let ghost next = all.take(idx + 1);
        let fresh = dd.process(&recs[idx]);
        proof {
            assert(recs@[idx as int]@ == all[idx as int]);
            assert(next.drop_last() =~= prefix);
            assert(ids_of(seeds, next).take(idx as int) =~= ids_of(seeds, prefix));
            assert(fresh == fresh_at(ids_of(seeds, next), idx as int)) by {
                assert(ids_of(seeds, next)[idx as int] == record_id(seeds, all[idx as int]));
            }
            if fresh {
                assert(dedup_records(seeds, next) == dedup_records(seeds, prefix).push(
                    all[idx as int],
                ));
            } else {
                assert(dedup_records(seeds, next) == dedup_records(seeds, prefix));
            }
        }
        if fresh {
            append_bytes(&mut out, &recs[idx]);
            out.push(delim);
            proof {
                let sel = dedup_records(seeds, prefix);
                let sel2 = dedup_records(seeds, next);
                assert(sel2.drop_last() =~= sel);
                assert(out@ =~= render_records(sel, delim) + all[idx as int] + seq![delim]);
            }
        }
        last_fresh = fresh;
        idx = idx + 1;
    }
    proof {
        assert(all.take(recs@.len() as int) =~= all);
    }
    if had_tail && !include_trailing && last_fresh {
        proof {
            lemma_split_records_nonempty(input@, delim);
            let sel = dedup_records(seeds, all);
            assert(sel.len() > 0);
            lemma_render_records_last(sel, delim);
        }
        let _ = out.pop();
    }
    out
}

/// A non-empty rendering ends with the delimiter.
proof fn lemma_render_records_last(recs: Seq<Seq<u8>>, delim: u8)
    requires
        recs.len() > 0,
    ensures
        render_records(recs, delim).len() > 0,
        render_records(recs, delim).last() == delim,
{
}

/// Dedup by byte equality: the first occurrence of each distinct record.
pub open spec fn first_occurrences(recs: Seq<Seq<u8>>) -> Seq<Seq<u8>>
    decreases recs.len(),
{
    if recs.len() == 0 {
        Seq::empty()
    } else {
        let prev = first_occurrences(recs.drop_last());
        if recs.drop_last().contains(recs.last()) {
            prev
        } else {
            prev.push(recs.last())
        }
    }
}

/// Position of the first occurrence of `r` in `recs`.
pub open spec fn first_index(recs: Seq<Seq<u8>>, r: Seq<u8>) -> int
    decreases recs.len(),
{
    if recs.len() == 0 {
        0
    } else if recs[0] == r {
        0
    } else {
        1 + first_index(recs.drop_first(), r)
    }
}

proof fn lemma_first_index(recs: Seq<Seq<u8>>, r: Seq<u8>)
    requires
        recs.contains(r),
    ensures
        0 <= first_index(recs, r) < recs.len(),
        recs[first_index(recs, r)] == r,
        forall|j: int| 0 <= j < first_index(recs, r) ==> recs[j] != r,
    decreases recs.len(),
{
    if recs[0] != r {
        let d = recs.drop_first();
        assert(d.contains(r)) by {
            let k = choose|k: int| 0 <= k < recs.len() && recs[k] == r;
            assert(d[k - 1] == r);
        }
        lemma_first_index(d, r);
        assert(forall|j: int| 1 <= j < recs.len() ==> recs[j] == d[j - 1]);
    }
}

/// The first occurrence inside a strict prefix is the first occurrence.
proof fn lemma_first_index_prefix(recs: Seq<Seq<u8>>, r: Seq<u8>)
    requires
        recs.len() > 0,
        recs.drop_last().contains(r),
    ensures
        first_index(recs, r) == first_index(recs.drop_last(), r),
    decreases recs.len(),
{
    let dl = recs.drop_last();
    if recs[0] != r {
        let k = choose|k: int| 0 <= k < dl.len() && dl[k] == r;
        assert(k >= 1);
        assert(recs.drop_first().drop_last() =~= dl.drop_first());
        assert(dl.drop_first()[k - 1] == r);
        assert(recs.drop_first().drop_last().contains(r));
        lemma_first_index_prefix(recs.drop_first(), r);
    }
}

/// A record seen nowhere earlier has its first occurrence at the end.
proof fn lemma_first_index_last(recs: Seq<Seq<u8>>, r: Seq<u8>)
    requires
        recs.len() > 0,
        recs.last() == r,
        !recs.drop_last().contains(r),
    ensures
        first_index(recs, r) == recs.len() - 1,
    decreases recs.len(),
{
    let dl = recs.drop_last();
    if recs.len() == 1 {
    } else {
        assert(recs[0] == dl[0]);
        assert(recs[0] != r) by {
            if recs[0] == r {
                assert(dl[0] == r);
                assert(dl.contains(r));
            }
        }
        let d = recs.drop_first();
        assert(d.drop_last() =~= dl.drop_first());
        assert(d.last() == r);
        assert(!d.drop_last().contains(r)) by {
            if d.drop_last().contains(r) {
                let k = choose|k: int| 0 <= k < d.drop_last().len() && d.drop_last()[k] == r;
                assert(dl[k + 1] == r);
                assert(dl.contains(r));
            }
        }
        lemma_first_index_last(d, r);
    }
}

proof fn lemma_first_occurrences_complete(recs: Seq<Seq<u8>>)
    ensures
        forall|r: Seq<u8>| first_occurrences(recs).contains(r) <==> recs.contains(r),
    decreases recs.len(),
{
    broadcast use vstd::seq_lib::lemma_seq_contains_after_push;

    if recs.len() > 0 {
        let dl = recs.drop_last();
        lemma_first_occurrences_complete(dl);
        assert forall|r: Seq<u8>| recs.contains(r) implies (dl.contains(r) || r == recs.last()) by {
            let k = choose|k: int| 0 <= k < recs.len() && recs[k] == r;
            if k < dl.len() {
                assert(dl[k] == r);
            }
        }
        assert forall|r: Seq<u8>| dl.contains(r) implies recs.contains(r) by {
            let k = choose|k: int| 0 <= k < dl.len() && dl[k] == r;
            assert(recs[k] == r);
        }
        assert(recs.contains(recs.last())) by {
            assert(recs[recs.len() - 1] == recs.last());
        }
    }
}

proof fn lemma_first_occurrences_distinct(recs: Seq<Seq<u8>>)
    ensures
        forall|a: int, b: int|
            0 <= a < b < first_occurrences(recs).len() ==> first_occurrences(recs)[a]
                != first_occurrences(recs)[b],
    decreases recs.len(),
{
    if recs.len() > 0 {
        let dl = recs.drop_last();
        let fo = first_occurrences(recs);
        let prev = first_occurrences(dl);
        lemma_first_occurrences_distinct(dl);
        lemma_first_occurrences_complete(dl);
        if !dl.contains(recs.last()) {
            assert forall|a: int, b: int| 0 <= a < b < fo.len() implies fo[a] != fo[b] by {
                if b < prev.len() {
                    assert(prev[a] != prev[b]);
                } else {
                    assert(fo[b] == recs.last());
                    assert(fo[a] == prev[a]);
                    assert(prev.contains(prev[a])) by {
                        assert(prev[a] == prev[a]);
                    }
                    assert(dl.contains(prev[a]));
                }
            }
        }
    }
}

/// First occurrences come out in the order they first occur.
proof fn lemma_first_occurrences_order(recs: Seq<Seq<u8>>)
    ensures
        forall|a: int, b: int|
            0 <= a < b < first_occurrences(recs).len() ==> first_index(
                recs,
                first_occurrences(recs)[a],
            ) < first_index(recs, first_occurrences(recs)[b]),
    decreases recs.len(),
{
    if recs.len() > 0 {
        let dl = recs.drop_last();
        let fo = first_occurrences(recs);
        let prev = first_occurrences(dl);
        lemma_first_occurrences_order(dl);
        lemma_first_occurrences_complete(dl);
        assert forall|a: int, b: int| 0 <= a < b < fo.len() implies first_index(recs, fo[a])
            < first_index(recs, fo[b]) by {
            assert(prev.contains(prev[a])) by {
                assert(prev[a] == prev[a]);
            }
            assert(dl.contains(prev[a]));
            lemma_first_index_prefix(recs, prev[a]);
            lemma_first_index(dl, prev[a]);
            if b < prev.len() {
                assert(prev.contains(prev[b])) by {
                    assert(prev[b] == prev[b]);
                }
                assert(dl.contains(prev[b]));
                lemma_first_index_prefix(recs, prev[b]);
                assert(first_index(dl, prev[a]) < first_index(dl, prev[b]));
            } else {
                assert(!dl.contains(recs.last()));
                assert(fo[b] == recs.last());
                lemma_first_index_last(recs, recs.last());
                assert(first_index(recs, fo[a]) == first_index(dl, prev[a]));
                assert(first_index(dl, prev[a]) < dl.len());
            }
        }
    }
}

/// The heart of dedup mode: whenever the identity assignment separates the
/// records — equal identities only for equal records — dedup keeps exactly
/// the first occurrence of each distinct record: every distinct record once,
/// in the order the records first occur.
pub proof fn lemma_dedup_first_occurrences(recs: Seq<Seq<u8>>, ids: Seq<u64>)
    requires
        ids.len() == recs.len(),
        forall|i: int, j: int|
            0 <= i < recs.len() && 0 <= j < recs.len() ==> ((#[trigger] ids[i] == #[trigger] ids[j])
                <==> recs[i] == recs[j]),
    ensures
        select_firsts(recs, ids) == first_occurrences(recs),
        forall|r: Seq<u8>| select_firsts(recs, ids).contains(r) <==> recs.contains(r),
        forall|a: int, b: int|
            0 <= a < b < select_firsts(recs, ids).len() ==> select_firsts(recs, ids)[a]
                != select_firsts(recs, ids)[b],
        forall|a: int, b: int|
            0 <= a < b < select_firsts(recs, ids).len() ==> first_index(
                recs,
                select_firsts(recs, ids)[a],
            ) < first_index(recs, select_firsts(recs, ids)[b]),
    decreases recs.len(),
{
    lemma_first_occurrences_complete(recs);
    lemma_first_occurrences_distinct(recs);
    lemma_first_occurrences_order(recs);
    if recs.len() > 0 {
        let n = recs.len() - 1;
        let dl = recs.drop_last();
        let dlids = ids.take(n);
        assert(forall|i: int| 0 <= i < dl.len() ==> dl[i] == recs[i]);
        assert(forall|i: int| 0 <= i < dlids.len() ==> dlids[i] == ids[i]);
        lemma_dedup_first_occurrences(dl, dlids);
        assert(fresh_at(ids, n) <==> !dl.contains(recs[n])) by {
            if ids.take(n).contains(ids[n]) {
                let k = choose|k: int| 0 <= k < n && ids.take(n)[k] == ids[n];
                assert(ids[k] == ids[n]);
                assert(recs[k] == recs[n]);
                assert(dl[k] == recs[n]);
                assert(dl.contains(recs[n]));
            }
            if dl.contains(recs[n]) {
                let k = choose|k: int| 0 <= k < dl.len() && dl[k] == recs[n];
                assert(recs[k] == recs[n]);
                assert(ids[k] == ids[n]);
                assert(ids.take(n)[k] == ids[n]);
                assert(ids.take(n).contains(ids[n]));
            }
        }
        assert(recs.last() == recs[n]);
    }
}

/// Front decomposition of the rendering.
proof fn lemma_render_records_front(recs: Seq<Seq<u8>>, delim: u8)
    requires
        recs.len() > 0,
    ensures
        render_records(recs, delim) == recs.first() + seq![delim] + render_records(
            recs.drop_first(),
            delim,
        ),
    decreases recs.len(),
{
    if recs.len() == 1 {
        assert(recs.drop_last() =~= Seq::<Seq<u8>>::empty());
        assert(recs.drop_first() =~= Seq::<Seq<u8>>::empty());
        assert(recs.first() == recs.last());
        assert(Seq::<u8>::empty() + recs.last() + seq![delim] =~= recs.first() + seq![delim]
            + Seq::<u8>::empty());
    } else {
        let dl = recs.drop_last();
        lemma_render_records_front(dl, delim);
        assert(recs.drop_first().drop_last() =~= dl.drop_first());
        assert(recs.drop_first().last() == recs.last());
        assert(render_records(recs.drop_first(), delim) == render_records(dl.drop_first(), delim)
            + recs.last() + seq![delim]);
        assert(dl.first() == recs.first());
        assert((recs.first() + seq![delim] + render_records(dl.drop_first(), delim)) + recs.last()
            + seq![delim] =~= recs.first() + seq![delim] + (render_records(dl.drop_first(), delim)
            + recs.last() + seq![delim]));
    }
}

/// Re-splitting a fully terminated rendering gives the records back.
proof fn lemma_split_render(sel: Seq<Seq<u8>>, delim: u8)
    requires
        forall|k: int| 0 <= k < sel.len() ==> !(#[trigger] sel[k]).contains(delim),
    ensures
        split_records(render_records(sel, delim), delim) == sel,
    decreases sel.len(),
{
    if sel.len() > 0 {
        lemma_render_records_front(sel, delim);
        let rest = render_records(sel.drop_first(), delim);
        lemma_split_records_prepend(sel.first(), delim, rest);
        assert(forall|k: int| 0 <= k < sel.drop_first().len() ==> sel.drop_first()[k] == sel[k
            + 1]);
        lemma_split_render(sel.drop_first(), delim);
        assert(seq![sel.first()] + sel.drop_first() =~= sel);
    }
}

/// The same with the final record left unterminated.
proof fn lemma_split_render_unterminated(sel: Seq<Seq<u8>>, delim: u8)
    requires
        sel.len() > 0,
        sel.last().len() > 0,
        forall|k: int| 0 <= k < sel.len() ==> !(#[trigger] sel[k]).contains(delim),
    ensures
        split_records(render_records(sel.drop_last(), delim) + sel.last(), delim) == sel,
    decreases sel.len(),
{
    if sel.len() == 1 {
        assert(sel.drop_last() =~= Seq::<Seq<u8>>::empty());
        assert(render_records(sel.drop_last(), delim) + sel.last() =~= sel.last());
        lemma_split_records_single(sel.last(), delim);
        assert(seq![sel.last()] =~= sel);
    } else {
        let dl = sel.drop_last();
        let sdf = sel.drop_first();
        lemma_render_records_front(dl, delim);
        assert((dl.first() + seq![delim] + render_records(dl.drop_first(), delim)) + sel.last()
            =~= dl.first() + seq![delim] + (render_records(dl.drop_first(), delim) + sel.last()));
        assert(sdf.drop_last() =~= dl.drop_first());
        assert(sdf.last() == sel.last());
        assert(forall|k: int| 0 <= k < sdf.len() ==> sdf[k] == sel[k + 1]);
        lemma_split_render_unterminated(sdf, delim);
        lemma_split_records_prepend(
            dl.first(),
            delim,
            render_records(dl.drop_first(), delim) + sel.last(),
        );
        assert(dl.first() == sel.first());
        assert(seq![sel.first()] + sdf =~= sel);
    }
}

/// Everything dedup emits is one of the input records.
proof fn lemma_select_firsts_elements(recs: Seq<Seq<u8>>, ids: Seq<u64>)
    ensures
        forall|k: int|
            0 <= k < select_firsts(recs, ids).len() ==> recs.contains(
                #[trigger] select_firsts(recs, ids)[k],
            ),
    decreases recs.len(),
{
    if recs.len() > 0 {
        let dl = recs.drop_last();
        let prev = select_firsts(dl, ids.take(recs.len() - 1));
        lemma_select_firsts_elements(dl, ids.take(recs.len() - 1));
        let sel = select_firsts(recs, ids);
        assert forall|k: int| 0 <= k < sel.len() implies recs.contains(#[trigger] sel[k]) by {
            if k < prev.len() {
                assert(dl.contains(prev[k]));
                let j = choose|j: int| 0 <= j < dl.len() && dl[j] == prev[k];
                assert(recs[j] == prev[k]);
            } else {
                assert(sel[k] == recs.last());
                assert(recs[recs.len() - 1] == recs.last());
            }
        }
    }
}

/// The identities of the dedup output are pairwise distinct.
proof fn lemma_dedup_records_distinct_ids(seeds: HashSeeds, recs: Seq<Seq<u8>>)
    ensures
        forall|a: int, b: int|
            0 <= a < b < dedup_records(seeds, recs).len() ==> record_id(
                seeds,
                #[trigger] dedup_records(seeds, recs)[a],
            ) != record_id(seeds, #[trigger] dedup_records(seeds, recs)[b]),
    decreases recs.len(),
{
    if recs.len() > 0 {
        let n = recs.len() - 1;
        let dl = recs.drop_last();
        let ids = ids_of(seeds, recs);
        assert(ids_of(seeds, dl) =~= ids.take(n));
        lemma_dedup_records_distinct_ids(seeds, dl);
        lemma_select_firsts_elements(dl, ids.take(n));
        let prev = dedup_records(seeds, dl);
        let sel = dedup_records(seeds, recs);
        if fresh_at(ids, n) {
            assert forall|a: int, b: int| 0 <= a < b < sel.len() implies record_id(
                seeds,
                #[trigger] sel[a],
            ) != record_id(seeds, #[trigger] sel[b]) by {
                if b < prev.len() {
                    assert(prev[a] == sel[a] && prev[b] == sel[b]);
                } else {
                    assert(sel[b] == recs.last());
                    assert(sel[a] == prev[a]);
                    assert(dl.contains(prev[a]));
                    let j = choose|j: int| 0 <= j < dl.len() && dl[j] == prev[a];
                    assert(ids[j] == record_id(seeds, prev[a]));
                    if record_id(seeds, sel[a]) == record_id(seeds, sel[b]) {
                        assert(ids[n] == record_id(seeds, recs.last()));
                        assert(ids.take(n)[j] == ids[n]);
                        assert(ids.take(n).contains(ids[n]));
                    }
                }
            }
        }
    }
}

/// Records with pairwise distinct identities all pass dedup unchanged.
proof fn lemma_dedup_records_all_fresh(seeds: HashSeeds, recs: Seq<Seq<u8>>)
    requires
        forall|a: int, b: int|
            0 <= a < b < recs.len() ==> record_id(seeds, #[trigger] recs[a]) != record_id(
                seeds,
                #[trigger] recs[b],
            ),
    ensures
        dedup_records(seeds, recs) == recs,
    decreases recs.len(),
{
    if recs.len() > 0 {
        let n = recs.len() - 1;
        let dl = recs.drop_last();
        let ids = ids_of(seeds, recs);
        assert(ids_of(seeds, dl) =~= ids.take(n));
        assert(forall|k: int| 0 <= k < dl.len() ==> dl[k] == recs[k]);
        lemma_dedup_records_all_fresh(seeds, dl);
        assert(fresh_at(ids, n)) by {
            if ids.take(n).contains(ids[n]) {
                let k = choose|k: int| 0 <= k < n && ids.take(n)[k] == ids[n];
                assert(record_id(seeds, recs[k]) == ids[k]);
                assert(record_id(seeds, recs[n]) == ids[n]);
            }
        }
        assert(dl.push(recs.last()) =~= recs);
    }
}

/// Non-empty input leaves at least the very first record in the output.
proof fn lemma_dedup_records_nonempty(seeds: HashSeeds, recs: Seq<Seq<u8>>)
    requires
        recs.len() > 0,
    ensures
        dedup_records(seeds, recs).len() > 0,
    decreases recs.len(),
{
    let ids = ids_of(seeds, recs);
    if recs.len() == 1 {
        assert(fresh_at(ids, 0)) by {
            assert(ids.take(0) =~= Seq::<u64>::empty());
        }
    } else {
        lemma_dedup_records_nonempty(seeds, recs.drop_last());
        assert(ids_of(seeds, recs.drop_last()) =~= ids.take(recs.len() - 1));
    }
}

/// Idempotence: dedup mode applied to its own output changes nothing.
pub proof fn lemma_dedup_idempotent(
    seeds: HashSeeds,
    input: Seq<u8>,
    delim: u8,
    include_trailing: bool,
)
    ensures
        spec_dedup(seeds, spec_dedup(seeds, input, delim, include_trailing), delim,
            include_trailing,
        ) == spec_dedup(seeds, input, delim, include_trailing),
{
    if input.len() == 0 {
        lemma_dedup_empty_input(seeds, delim, include_trailing);
        lemma_dedup_empty_input(seeds, delim, include_trailing);
    } else {
        let recs = split_records(input, delim);
        let ids = ids_of(seeds, recs);
        let sel = dedup_records(seeds, recs);
        let out1 = spec_dedup(seeds, input, delim, include_trailing);
        lemma_split_records_nonempty(input, delim);
        lemma_dedup_records_nonempty(seeds, recs);
        lemma_select_firsts_elements(recs, ids);
        lemma_split_records_no_delim(input, delim);
        assert forall|k: int| 0 <= k < sel.len() implies !(#[trigger] sel[k]).contains(delim) by {
            assert(recs.contains(sel[k]));
            let j = choose|j: int| 0 <= j < recs.len() && recs[j] == sel[k];
            assert(!recs[j].contains(delim));
        }
        lemma_dedup_records_distinct_ids(seeds, recs);
        assert forall|a: int, b: int| 0 <= a < b < sel.len() implies record_id(
            seeds,
            #[trigger] sel[a],
        ) != record_id(seeds, #[trigger] sel[b]) by {}
        lemma_dedup_records_all_fresh(seeds, sel);
        if input.last() == delim || include_trailing {
            assert(out1 == render_records(sel, delim));
            lemma_render_records_last(sel, delim);
            assert(out1.len() > 0 && out1.last() == delim);
            lemma_split_render(sel, delim);
            assert(split_records(out1, delim) == sel);
            assert(spec_dedup(seeds, out1, delim, include_trailing) == render_records(
                dedup_records(seeds, sel),
                delim,
            ));
        } else if last_record_new(seeds, recs) {
            lemma_split_records_last_unterminated(input, delim);
            assert(sel.last() == recs.last()) by {
                assert(fresh_at(ids, recs.len() - 1));
            }
            assert(sel.last().len() > 0);
            assert(out1 == render_records(sel, delim).drop_last());
            assert(render_records(sel, delim) == render_records(sel.drop_last(), delim)
                + sel.last() + seq![delim]);
            assert(out1 =~= render_records(sel.drop_last(), delim) + sel.last());
            assert(out1.len() > 0);
            assert(out1.last() == sel.last().last());
            assert(out1.last() != delim) by {
                if sel.last().last() == delim {
                    assert(sel.last()[sel.last().len() - 1] == delim);
                    assert(sel.last().contains(delim));
                }
            }
            lemma_split_render_unterminated(sel, delim);
            assert(split_records(out1, delim) == sel);
            assert(last_record_new(seeds, sel)) by {
                let sids = ids_of(seeds, sel);
                let m = sel.len() - 1;
                if sids.take(m).contains(sids[m]) {
                    let k = choose|k: int| 0 <= k < m && sids.take(m)[k] == sids[m];
                    assert(sids[k] == record_id(seeds, sel[k]));
                    assert(sids[m] == record_id(seeds, sel[m]));
                }
            }
            assert(spec_dedup(seeds, out1, delim, include_trailing) == render_records(
                dedup_records(seeds, sel),
                delim,
            ).drop_last());
        } else {
            assert(out1 == render_records(sel, delim));
            lemma_render_records_last(sel, delim);
            assert(out1.len() > 0 && out1.last() == delim);
            lemma_split_render(sel, delim);
            assert(spec_dedup(seeds, out1, delim, include_trailing) == render_records(
                dedup_records(seeds, sel),
                delim,
            ));
        }
    }
}

/// Dedup mode on empty input emits nothing.
pub proof fn lemma_dedup_empty_input(seeds: HashSeeds, delim: u8, include_trailing: bool)
    ensures
        spec_dedup(seeds, Seq::<u8>::empty(), delim, include_trailing) == Seq::<u8>::empty(),
{
    assert(split_records(Seq::<u8>::empty(), delim) == Seq::<Seq<u8>>::empty());
    assert(dedup_records(seeds, Seq::<Seq<u8>>::empty()) == Seq::<Seq<u8>>::empty());
}

} // verus!

