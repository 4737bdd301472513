//! Count mode: every distinct record with the number of times it occurred.
//!
//! The table keys by the full record bytes, so unlike dedup mode no hash
//! collision can merge two distinct records. Entries keep the order of first
//! occurrence; an optional stable sort orders them by count alone, so equal
//! counts keep their table order. Each emitted line is the decimal count, a
//! space, the record bytes, and the delimiter.

use crate::records::append_bytes;
use crate::records::rec_views;
use crate::records::split_all;
use crate::records::split_records;
use vstd::pervasive::VecAdditionalExecFns;
use vstd::prelude::*;

verus! {

/// Direction of the optional sort by count.
#[derive(Clone, Copy, Debug, PartialEq, Eq)]
pub enum Sort {
    Ascending,
    Descending,
}

/// Position of `key` in the table, `-1` when absent.
pub open spec fn find_key(t: Seq<(Seq<u8>, int)>, key: Seq<u8>) -> int
    decreases t.len(),
{
    if t.len() == 0 {
        -1
    } else if t[0].0 == key {
        0
    } else {
        let r = find_key(t.drop_first(), key);
        if r == -1 {
            -1
        } else {
            1 + r
        }
    }
}

pub proof fn lemma_find_key(t: Seq<(Seq<u8>, int)>, key: Seq<u8>)
    ensures
        find_key(t, key) == -1 || 0 <= find_key(t, key) < t.len(),
        find_key(t, key) == -1 <==> (forall|j: int| 0 <= j < t.len() ==> (#[trigger] t[j]).0
            != key),
        find_key(t, key) != -1 ==> t[find_key(t, key)].0 == key,
    decreases t.len(),
{
    if t.len() > 0 && t[0].0 != key {
        lemma_find_key(t.drop_first(), key);
        let d = t.drop_first();
        assert(forall|j: int| 1 <= j < t.len() ==> t[j] == d[j - 1]);
        if find_key(d, key) == -1 {
            assert(forall|j: int| 0 <= j < t.len() ==> (#[trigger] t[j]).0 != key) by {
                assert(forall|j: int| 1 <= j < t.len() ==> t[j].0 == d[j - 1].0);
            }
        }
    }
}

/// If `key` first occurs at `i`, then `find_key` returns `i`.
pub proof fn lemma_find_key_is(t: Seq<(Seq<u8>, int)>, key: Seq<u8>, i: int)
    requires
        0 <= i < t.len(),
        t[i].0 == key,
        forall|j: int| 0 <= j < i ==> (#[trigger] t[j]).0 != key,
    ensures
        find_key(t, key) == i,
    decreases t.len(),
{
    if i > 0 {
        let d = t.drop_first();
        assert(forall|j: int| 0 <= j < i - 1 ==> (#[trigger] d[j]) == t[j + 1]);
        lemma_find_key_is(d, key, i - 1);
    }
}

/// One more occurrence of `rec`: bump its count, or append it with count 1.
pub open spec fn add_record(t: Seq<(Seq<u8>, int)>, rec: Seq<u8>) -> Seq<(Seq<u8>, int)> {
    let k = find_key(t, rec);
    if k == -1 {
        t.push((rec, 1))
    } else {
        t.update(k, (rec, t[k].1 + 1))
    }
}

/// The count table of a record sequence, keys in first-occurrence order.
pub open spec fn table_of(recs: Seq<Seq<u8>>) -> Seq<(Seq<u8>, int)>
    decreases recs.len(),
{
    if recs.len() == 0 {
        Seq::empty()
    } else {
        add_record(table_of(recs.drop_last()), recs.last())
    }
}

pub open spec fn sum_counts(t: Seq<(Seq<u8>, int)>) -> int
    decreases t.len(),
{
    if t.len() == 0 {
        0
    } else {
        sum_counts(t.drop_last()) + t.last().1
    }
}

pub open spec fn le_val(a: int, b: int, ascending: bool) -> bool {
    if ascending {
        a <= b
    } else {
        a >= b
    }
}

pub open spec fn le_count(a: (Seq<u8>, int), b: (Seq<u8>, int), ascending: bool) -> bool {
    le_val(a.1, b.1, ascending)
}

/// Stable insertion: `e` goes after every entry it compares equal to.
pub open spec fn insert_sorted(
    s: Seq<(Seq<u8>, int)>,
    e: (Seq<u8>, int),
    ascending: bool,
) -> Seq<(Seq<u8>, int)>
    decreases s.len(),
{
    if s.len() == 0 {
        seq![e]
    } else if le_count(s.last(), e, ascending) {
        s.push(e)
    } else {
        insert_sorted(s.drop_last(), e, ascending).push(s.last())
    }
}

/// Stable insertion sort by count alone.
pub open spec fn sort_counts(s: Seq<(Seq<u8>, int)>, ascending: bool) -> Seq<(Seq<u8>, int)>
    decreases s.len(),
{
    if s.len() == 0 {
        Seq::empty()
    } else {
        insert_sorted(sort_counts(s.drop_last(), ascending), s.last(), ascending)
    }
}

pub open spec fn sorted_by_count(t: Seq<(Seq<u8>, int)>, ascending: bool) -> bool {
    forall|i: int| 0 <= i && i + 1 < t.len() ==> le_count(#[trigger] t[i], t[i + 1], ascending)
}

/// Decimal digits of `n`, most significant first.
pub open spec fn decimal(n: int) -> Seq<u8>
    decreases n,
{
    if n < 10 {
        seq![(48 + n) as u8]
    } else {
        decimal(n / 10).push((48 + n % 10) as u8)
    }
}

/// Count-mode lines: decimal count, one space, the record, the delimiter.
pub open spec fn render_counts(t: Seq<(Seq<u8>, int)>, delim: u8) -> Seq<u8>
    decreases t.len(),
{
    if t.len() == 0 {
        Seq::empty()
    } else {
        render_counts(t.drop_last(), delim) + decimal(t.last().1) + seq![32u8] + t.last().0
            + seq![delim]
    }
}

pub open spec fn apply_sort(t: Seq<(Seq<u8>, int)>, sort: Option<Sort>) -> Seq<(Seq<u8>, int)> {
    match sort {
        Option::None => t,
        Option::Some(Sort::Ascending) => sort_counts(t, true),
        Option::Some(Sort::Descending) => sort_counts(t, false),
    }
}

/// Count-mode output for a whole input.
pub open spec fn spec_count(input: Seq<u8>, delim: u8, sort: Option<Sort>) -> Seq<u8> {
    render_counts(apply_sort(table_of(split_records(input, delim)), sort), delim)
}

/// The table entries two parallel columns stand for.
pub open spec fn pair_model(ks: Seq<Vec<u8>>, cs: Seq<u64>) -> Seq<(Seq<u8>, int)> {
    Seq::new(ks.len(), |i: int| (ks[i]@, cs[i] as int))
}

/// Byte-wise equality of two records.
fn bytes_eq(a: &Vec<u8>, b: &Vec<u8>) -> (r: bool)
    ensures
        r == (a@ == b@),
{
    if a.len() != b.len() {
        return false;
    }
    let mut i: usize = 0;
    while i < a.len()
        invariant
            i <= a.len(),
            a@.len() == b@.len(),
            forall|j: int| 0 <= j < i ==> a@[j] == b@[j],
        decreases a.len() - i,
    {
        if a[i] != b[i] {
            return false;
        }
        i = i + 1;
    }
    proof {
        assert(a@ =~= b@);
    }
    true
}

/// The occurrence counts of the records seen so far, keyed by the full
/// record bytes, in first-occurrence order.
pub struct CountTable {
    keys: Vec<Vec<u8>>,
    counts: Vec<u64>,
    total: u64,
}

impl CountTable {
    /// Keys and counts, paired.
    pub closed spec fn model(self) -> Seq<(Seq<u8>, int)> {
        pair_model(self.keys@, self.counts@)
    }

    /// How many records have been added.
    pub closed spec fn total_spec(self) -> int {
        self.total as int
    }

    pub closed spec fn wf(self) -> bool {
        self.keys@.len() == self.counts@.len()
    }

    /// No single count can exceed the number of records added.
    pub closed spec fn bounded(self) -> bool {
        forall|j: int| 0 <= j < self.counts@.len() ==> #[trigger] self.counts@[j] <= self.total
    }

    pub fn new() -> (r: CountTable)
        ensures
            r.wf(),
            r.bounded(),
            r.model() == Seq::<(Seq<u8>, int)>::empty(),
            r.total_spec() == 0,
    {
        let r = CountTable { keys: Vec::new(), counts: Vec::new(), total: 0 };
        proof {
            assert(r.model() =~= Seq::<(Seq<u8>, int)>::empty());
        }
        r
    }

    pub fn total(&self) -> (r: u64)
        ensures
            r as int == self.total_spec(),
    {
        self.total
    }

    /// Record one occurrence of `rec`.
    pub fn add(&mut self, rec: &Vec<u8>)
        requires
            old(self).wf(),
            old(self).bounded(),
            old(self).total_spec() < u64::MAX,
        ensures
            final(self).wf(),
            final(self).bounded(),
            final(self).model() == add_record(old(self).model(), rec@),
            final(self).total_spec() == old(self).total_spec() + 1,
    {
        let n = self.keys.len();
        let mut i: usize = 0;
        while i < n
            invariant
                i <= n,
                *self == *old(self),
                n == self.keys@.len(),
                self.wf(),
                self.bounded(),
                self.total < u64::MAX,
                forall|j: int| 0 <= j < i ==> (#[trigger] self.keys@[j])@ != rec@,
            decreases n - i,
        {
            if bytes_eq(&self.keys[i], rec) {
                proof {
                    let m = old(self).model();
                    assert(m.len() == self.keys@.len());
                    assert(m[i as int] == (self.keys@[i as int]@, self.counts@[i as int] as int));
                    assert forall|j: int| 0 <= j < i implies (#[trigger] m[j]).0 != rec@ by {
                        assert(self.keys@[j]@ != rec@);
                        assert(m[j] == (self.keys@[j]@, self.counts@[j] as int));
                    }
                    lemma_find_key_is(m, rec@, i as int);
                }
                let c = self.counts[i];
                self.counts.set(i, c + 1);
                self.total = self.total + 1;
                proof {
                    let m = old(self).model();
                    assert(self.model() =~= m.update(i as int, (rec@, m[i as int].1 + 1)));
                }
                return ;
            }
            i = i + 1;
        }
        proof {
            let m = old(self).model();
            assert forall|j: int| 0 <= j < m.len() implies (#[trigger] m[j]).0 != rec@ by {
                assert(m[j] == (self.keys@[j]@, self.counts@[j] as int));
                assert(self.keys@[j]@ != rec@);
            }
            lemma_find_key(m, rec@);
        }
        let mut key: Vec<u8> = Vec::new();
        let mut j: usize = 0;
        while j < rec.len()
            invariant
                j <= rec.len(),
                key@ == rec@.take(j as int),
                *self == *old(self),
            decreases rec.len() - j,
        {
            key.push(rec[j]);
            assert(key@ =~= rec@.take(j + 1));
            j = j + 1;
        }
        assert(key@ =~= rec@);
        self.keys.push(key);
        self.counts.push(1);
        self.total = self.total + 1;
        proof {
            assert(self.model() =~= old(self).model().push((rec@, 1)));
        }
    }

    /// Stable-sort the table by count alone.
    pub fn sort_by_count(&mut self, ascending: bool)
        requires
            old(self).wf(),
        ensures
            final(self).wf(),
            final(self).model() == sort_counts(old(self).model(), ascending),
            final(self).total_spec() == old(self).total_spec(),
    {
        let mut skeys: Vec<Vec<u8>> = Vec::new();
        let mut scounts: Vec<u64> = Vec::new();
        let ghost mut i: int = 0;
        while self.keys.len() > 0
            invariant
                0 <= i <= old(self).model().len(),
                self.keys@.len() == self.counts@.len(),
                skeys@.len() == scounts@.len(),
                self.total == old(self).total,
                pair_model(self.keys@, self.counts@) == old(self).model().skip(i),
                pair_model(skeys@, scounts@) == sort_counts(old(self).model().take(i), ascending),
            decreases self.keys@.len(),
        {
            let ghost m = old(self).model();
            proof {
                assert(m.skip(i).len() == self.keys@.len());
                assert(m.skip(i)[0] == (self.keys@[0]@, self.counts@[0] as int));
            }
            let k = self.keys.remove(0);
            let c = self.counts.remove(0);
            sorted_insert(&mut skeys, &mut scounts, k, c, ascending);
            proof {
                assert(pair_model(self.keys@, self.counts@) =~= m.skip(i + 1)) by {
                    assert(m.skip(i).remove(0) =~= m.skip(i + 1));
                    assert(pair_model(self.keys@, self.counts@) =~= m.skip(i).remove(0));
                }
                assert(m.take(i + 1).drop_last() =~= m.take(i));
                assert(m.take(i + 1).last() == m[i]);
                assert((k@, c as int) == m[i]);
                assert(sort_counts(m.take(i + 1), ascending) == insert_sorted(
                    sort_counts(m.take(i), ascending),
                    m[i],
                    ascending,
                ));
                i = i + 1;
            }
        }
        proof {
            let m = old(self).model();
            assert(m.skip(i).len() == 0);
            assert(i == m.len());
            assert(m.take(i) =~= m);
        }
        self.keys = skeys;
        self.counts = scounts;
    }

    /// Render every entry as `<count> <record><delimiter>`, in table order.
    pub fn render(&self, delim: u8) -> (out: Vec<u8>)
        requires
            self.wf(),
        ensures
            out@ == render_counts(self.model(), delim),
    {
        let mut out: Vec<u8> = Vec::new();
        let n = self.keys.len();
        let mut idx: usize = 0;
        while idx < n
            invariant
                idx <= n,
                self.wf(),
                n == self.keys@.len(),
                out@ == render_counts(self.model().take(idx as int), delim),
            decreases n - idx,
        {
            let ghost m = self.model();
            let digits = u64_to_decimal(self.counts[idx]);
            append_bytes(&mut out, &digits);
            out.push(32);
            append_bytes(&mut out, &self.keys[idx]);
            out.push(delim);
            proof {
                assert(m.take(idx + 1).drop_last() =~= m.take(idx as int));
                assert(m.take(idx + 1).last() == m[idx as int]);
                assert(m[idx as int] == (self.keys@[idx as int]@, self.counts@[idx as int] as int));
                assert(out@ =~= render_counts(m.take(idx as int), delim) + decimal(
                    m[idx as int].1,
                ) + seq![32u8] + m[idx as int].0 + seq![delim]);
            }
            idx = idx + 1;
        }
        proof {
            assert(self.model().take(n as int) =~= self.model());
        }
        out
    }
}

/// Where the new entry goes: after every entry ordered no later than it.
proof fn lemma_insert_sorted_position(
    s: Seq<(Seq<u8>, int)>,
    e: (Seq<u8>, int),
    ascending: bool,
    j: int,
)
    requires
        0 <= j <= s.len(),
        j > 0 ==> le_count(s[j - 1], e, ascending),
        forall|t: int| j <= t < s.len() ==> !le_count(#[trigger] s[t], e, ascending),
    ensures
        insert_sorted(s, e, ascending) == s.insert(j, e),
    decreases s.len(),
{
    if s.len() == 0 {
        assert(s.insert(0, e) =~= seq![e]);
    } else if le_count(s.last(), e, ascending) {
        assert(j == s.len());
        assert(s.insert(j, e) =~= s.push(e));
    } else {
        assert(j < s.len());
        let dl = s.drop_last();
        assert(forall|t: int| 0 <= t < dl.len() ==> dl[t] == s[t]);
        lemma_insert_sorted_position(dl, e, ascending, j);
        assert(dl.insert(j, e).push(s.last()) =~= s.insert(j, e));
    }
}

/// Insert one entry into a column pair sorted by count, keeping it sorted
/// and placing the entry after its equals.
fn sorted_insert(
    skeys: &mut Vec<Vec<u8>>,
    scounts: &mut Vec<u64>,
    key: Vec<u8>,
    count: u64,
    ascending: bool,
)
    requires
        old(skeys)@.len() == old(scounts)@.len(),
    ensures
        final(skeys)@.len() == final(scounts)@.len(),
        pair_model(final(skeys)@, final(scounts)@) == insert_sorted(
            pair_model(old(skeys)@, old(scounts)@),
            (key@, count as int),
            ascending,
        ),
{
    let mut j: usize = scounts.len();
    loop
        invariant
            *skeys == *old(skeys),
            *scounts == *old(scounts),
            j <= scounts@.len(),
            forall|t: int|
                j <= t < scounts@.len() ==> !le_val(
                    #[trigger] scounts@[t] as int,
                    count as int,
                    ascending,
                ),
        ensures
            *skeys == *old(skeys),
            *scounts == *old(scounts),
            j <= scounts@.len(),
            forall|t: int|
                j <= t < scounts@.len() ==> !le_val(
                    #[trigger] scounts@[t] as int,
                    count as int,
                    ascending,
                ),
            j > 0 ==> le_val(scounts@[j - 1] as int, count as int, ascending),
        decreases j,
    {
        if j == 0 {
            break ;
        }
        let prev = scounts[j - 1];
        let le = if ascending {
            prev <= count
        } else {
            prev >= count
        };
        if le {
            break ;
        }
        j = j - 1;
    }
    proof {
        let m = pair_model(skeys@, scounts@);
        let e = (key@, count as int);
        assert forall|t: int| j <= t < m.len() implies !le_count(#[trigger] m[t], e, ascending) by {
            assert(m[t] == (skeys@[t]@, scounts@[t] as int));
        }
        if j > 0 {
            assert(m[j - 1] == (skeys@[j - 1]@, scounts@[j - 1] as int));
        }
        lemma_insert_sorted_position(m, e, ascending, j as int);
    }
    skeys.insert(j, key);
    scounts.insert(j, count);
    proof {
        assert(pair_model(skeys@, scounts@) =~= pair_model(old(skeys)@, old(scounts)@).insert(
            j as int,
            (key@, count as int),
        ));
    }
}

/// The decimal digits of `n`, most significant first.
fn u64_to_decimal(n: u64) -> (r: Vec<u8>)
    ensures
        r@ == decimal(n as int),
{
    let mut digits: Vec<u8> = Vec::new();
    let mut m: u64 = n;
    while m >= 10
        invariant
            decimal(n as int) == decimal(m as int) + digits@.reverse(),
        decreases m,
    {
        let d: u8 = 48 + (m % 10) as u8;
        proof {
            assert(decimal(m as int) == decimal(m as int / 10).push(d));
            assert(digits@.push(d).reverse() =~= seq![d] + digits@.reverse());
            assert(decimal(m as int / 10) + (seq![d] + digits@.reverse()) =~= (decimal(
                m as int / 10,
            ) + seq![d]) + digits@.reverse());
            assert(decimal(m as int / 10).push(d) =~= decimal(m as int / 10) + seq![d]);
        }
        digits.push(d);
        m = m / 10;
    }
    let mut out: Vec<u8> = Vec::new();
    out.push(48 + (m as u8));
    proof {
        assert(out@ =~= seq![(48 + m as int) as u8]);
        assert(decimal(m as int) == seq![(48 + m as int) as u8]);
    }
    while digits.len() > 0
        invariant
            out@ + digits@.reverse() == decimal(n as int),
        decreases digits@.len(),
    {
        proof {
            assert(digits@.reverse() =~= seq![digits@.last()] + digits@.drop_last().reverse());
            assert((out@ + seq![digits@.last()]) + digits@.drop_last().reverse() =~= out@ + (seq![
                digits@.last(),
            ] + digits@.drop_last().reverse()));
        }
        match digits.pop() {
            Some(d) => {
                out.push(d);
            },
            None => {},
        }
        proof {
            assert(out@ + digits@.reverse() =~= decimal(n as int));
        }
    }
    proof {
        assert(out@ =~= out@ + digits@.reverse());
    }
    out
}

/// Count every record of `input` and render the table, optionally sorted.
pub fn count_bytes(input: &[u8], delim: u8, sort: Option<Sort>) -> (out: Vec<u8>)
    ensures
        out@ == spec_count(input@, delim, sort),
{
    let ghost all = split_records(input@, delim);
    let recs = split_all(input, delim);
    let mut table = CountTable::new();
    let mut idx: usize = 0;
    while idx < recs.len()
        invariant
            idx <= recs@.len(),
            rec_views(recs@) == all,
            table.wf(),
            table.bounded(),
            table.total_spec() == idx,
            table.model() == table_of(all.take(idx as int)),
        decreases recs@.len() - idx,
    {
        proof {
            assert(table.total_spec() < u64::MAX);
        }
        table.add(&recs[idx]);
        proof {
            assert(all.take(idx + 1).drop_last() =~= all.take(idx as int));
            assert(all.take(idx + 1).last() == all[idx as int]);
            assert(recs@[idx as int]@ == all[idx as int]);
            assert(table_of(all.take(idx + 1)) == add_record(
                table_of(all.take(idx as int)),
                all[idx as int],
            ));
        }
        idx = idx + 1;
    }
    proof {
        assert(all.take(recs@.len() as int) =~= all);
    }
    match sort {
        Option::None => {},
        Option::Some(Sort::Ascending) => {
            table.sort_by_count(true);
        },
        Option::Some(Sort::Descending) => {
            table.sort_by_count(false);
        },
    }
    table.render(delim)
}

/// The count table holds each distinct input record as a key exactly once,
/// and no other key.
pub proof fn lemma_table_of_keys(recs: Seq<Seq<u8>>)
    ensures
        forall|a: int, b: int|
            0 <= a < b < table_of(recs).len() ==> (#[trigger] table_of(recs)[a]).0 != (
            #[trigger] table_of(recs)[b]).0,
        forall|r: Seq<u8>|
            recs.contains(r) <==> exists|k: int|
                0 <= k < table_of(recs).len() && (#[trigger] table_of(recs)[k]).0 == r,
    decreases recs.len(),
{
    if recs.len() > 0 {
        let dl = recs.drop_last();
        let rec = recs.last();
        let t = table_of(dl);
        let u = table_of(recs);
        lemma_table_of_keys(dl);
        lemma_find_key(t, rec);
        let k = find_key(t, rec);
        assert forall|r: Seq<u8>| recs.contains(r) implies (dl.contains(r) || r == rec) by {
            let j = choose|j: int| 0 <= j < recs.len() && recs[j] == r;
            if j < dl.len() {
                assert(dl[j] == r);
            }
        }
        assert forall|r: Seq<u8>| dl.contains(r) implies recs.contains(r) by {
            let j = choose|j: int| 0 <= j < dl.len() && dl[j] == r;
            assert(recs[j] == r);
        }
        assert(recs.contains(rec)) by {
            assert(recs[recs.len() - 1] == rec);
        }
        if k == -1 {
            assert(u == t.push((rec, 1)));
            assert(forall|a: int| 0 <= a < t.len() ==> (#[trigger] u[a]) == t[a]);
            assert(u[t.len() as int] == (rec, 1int));
            assert forall|r: Seq<u8>|
                recs.contains(r) implies exists|x: int|
                    0 <= x < u.len() && (#[trigger] u[x]).0 == r by {
                if dl.contains(r) {
                    let x = choose|x: int| 0 <= x < t.len() && (#[trigger] t[x]).0 == r;
                    assert(u[x].0 == r);
                } else {
                    assert(u[t.len() as int].0 == r);
                }
            }
            assert forall|r: Seq<u8>|
                exists|x: int| 0 <= x < u.len() && (#[trigger] u[x]).0 == r implies recs.contains(
                r,
            ) by {
                let x = choose|x: int| 0 <= x < u.len() && (#[trigger] u[x]).0 == r;
                if x < t.len() {
                    assert(t[x].0 == r);
                    assert(dl.contains(r));
                } else {
                    assert(r == rec);
                }
            }
        } else {
            assert(u == t.update(k, (rec, t[k].1 + 1)));
            assert(u.len() == t.len());
            assert(forall|a: int| 0 <= a < u.len() ==> (#[trigger] u[a]).0 == t[a].0);
            assert forall|r: Seq<u8>|
                recs.contains(r) implies exists|x: int|
                    0 <= x < u.len() && (#[trigger] u[x]).0 == r by {
                if dl.contains(r) {
                    let x = choose|x: int| 0 <= x < t.len() && (#[trigger] t[x]).0 == r;
                    assert(u[x].0 == r);
                } else {
                    assert(u[k].0 == rec);
                }
            }
            assert forall|r: Seq<u8>|
                exists|x: int| 0 <= x < u.len() && (#[trigger] u[x]).0 == r implies recs.contains(
                r,
            ) by {
                let x = choose|x: int| 0 <= x < u.len() && (#[trigger] u[x]).0 == r;
                assert(t[x].0 == r);
                assert(dl.contains(r));
            }
        }
    }
}

proof fn lemma_sum_update_inc(t: Seq<(Seq<u8>, int)>, k: int)
    requires
        0 <= k < t.len(),
    ensures
        sum_counts(t.update(k, (t[k].0, t[k].1 + 1))) == sum_counts(t) + 1,
    decreases t.len(),
{
    let e = (t[k].0, t[k].1 + 1);
    let u = t.update(k, e);
    if k == t.len() - 1 {
        assert(u.drop_last() =~= t.drop_last());
        assert(u.last() == e);
    } else {
        assert(u.drop_last() =~= t.drop_last().update(k, e));
        assert(t.drop_last()[k] == t[k]);
        lemma_sum_update_inc(t.drop_last(), k);
        assert(u.last() == t.last());
    }
}

/// Every record adds exactly one to the table's counts.
pub proof fn lemma_table_of_sum(recs: Seq<Seq<u8>>)
    ensures
        sum_counts(table_of(recs)) == recs.len(),
    decreases recs.len(),
{
    if recs.len() > 0 {
        lemma_table_of_sum(recs.drop_last());
        let t = table_of(recs.drop_last());
        let rec = recs.last();
        let k = find_key(t, rec);
        lemma_find_key(t, rec);
        if k == -1 {
            assert(t.push((rec, 1)).drop_last() =~= t);
        } else {
            assert((rec, t[k].1 + 1) == (t[k].0, t[k].1 + 1));
            lemma_sum_update_inc(t, k);
        }
    }
}

proof fn lemma_insert_sorted_sum(s: Seq<(Seq<u8>, int)>, e: (Seq<u8>, int), ascending: bool)
    ensures
        sum_counts(insert_sorted(s, e, ascending)) == sum_counts(s) + e.1,
    decreases s.len(),
{
    if s.len() == 0 {
        assert(seq![e].drop_last() =~= Seq::<(Seq<u8>, int)>::empty());
        assert(sum_counts(Seq::<(Seq<u8>, int)>::empty()) == 0);
        assert(sum_counts(seq![e]) == e.1);
    } else if le_count(s.last(), e, ascending) {
        let r = s.push(e);
        assert(r.drop_last() =~= s);
        assert(r.last() == e);
        assert(sum_counts(r) == sum_counts(s) + e.1);
    } else {
        lemma_insert_sorted_sum(s.drop_last(), e, ascending);
        let r0 = insert_sorted(s.drop_last(), e, ascending);
        let r = r0.push(s.last());
        assert(r.drop_last() =~= r0);
        assert(sum_counts(r) == sum_counts(r0) + s.last().1);
        assert(sum_counts(s) == sum_counts(s.drop_last()) + s.last().1);
    }
}

/// Sorting moves entries around but never changes the sum of the counts.
pub proof fn lemma_sort_counts_sum(s: Seq<(Seq<u8>, int)>, ascending: bool)
    ensures
        sum_counts(sort_counts(s, ascending)) == sum_counts(s),
    decreases s.len(),
{
    if s.len() > 0 {
        lemma_sort_counts_sum(s.drop_last(), ascending);
        lemma_insert_sorted_sum(sort_counts(s.drop_last(), ascending), s.last(), ascending);
    }
}

/// The counts of the emitted table, sorted or not, sum to the number of
/// input records.
pub proof fn lemma_count_mode_total(input: Seq<u8>, delim: u8, sort: Option<Sort>)
    ensures
        sum_counts(apply_sort(table_of(split_records(input, delim)), sort)) == split_records(
            input,
            delim,
        ).len(),
{
    let t = table_of(split_records(input, delim));
    lemma_table_of_sum(split_records(input, delim));
    match sort {
        Option::None => {},
        Option::Some(Sort::Ascending) => {
            lemma_sort_counts_sum(t, true);
        },
        Option::Some(Sort::Descending) => {
            lemma_sort_counts_sum(t, false);
        },
    }
}

proof fn lemma_insert_sorted_last(s: Seq<(Seq<u8>, int)>, e: (Seq<u8>, int), ascending: bool)
    ensures
        insert_sorted(s, e, ascending).len() == s.len() + 1,
        insert_sorted(s, e, ascending).last() == e || (s.len() > 0 && insert_sorted(
            s,
            e,
            ascending,
        ).last() == s.last()),
    decreases s.len(),
{
    if s.len() == 0 {
    } else if le_count(s.last(), e, ascending) {
    } else {
        lemma_insert_sorted_last(s.drop_last(), e, ascending);
    }
}

proof fn lemma_insert_sorted_sorted(s: Seq<(Seq<u8>, int)>, e: (Seq<u8>, int), ascending: bool)
    requires
        sorted_by_count(s, ascending),
    ensures
        sorted_by_count(insert_sorted(s, e, ascending), ascending),
    decreases s.len(),
{
    if s.len() == 0 {
    } else if le_count(s.last(), e, ascending) {
        let r = s.push(e);
        assert forall|i: int| 0 <= i && i + 1 < r.len() implies le_count(
            #[trigger] r[i],
            r[i + 1],
            ascending,
        ) by {
            if i + 1 < s.len() {
                assert(le_count(s[i], s[i + 1], ascending));
            }
        }
    } else {
        let dl = s.drop_last();
        assert(sorted_by_count(dl, ascending)) by {
            assert(forall|i: int| 0 <= i < dl.len() ==> dl[i] == s[i]);
        }
        lemma_insert_sorted_sorted(dl, e, ascending);
        lemma_insert_sorted_last(dl, e, ascending);
        let r0 = insert_sorted(dl, e, ascending);
        let r = r0.push(s.last());
        assert(le_count(r0.last(), s.last(), ascending)) by {
            if r0.last() == e {
            } else {
                assert(dl.len() > 0 && r0.last() == dl.last());
                assert(le_count(s[s.len() - 2], s[s.len() - 1], ascending));
            }
        }
        assert forall|i: int| 0 <= i && i + 1 < r.len() implies le_count(
            #[trigger] r[i],
            r[i + 1],
            ascending,
        ) by {
            if i + 1 < r0.len() {
                assert(le_count(r0[i], r0[i + 1], ascending));
            }
        }
    }
}

/// The sorted table is ordered by count: ascending, each count is at most
/// the next; descending, each count is at least the next.
pub proof fn lemma_sort_counts_sorted(s: Seq<(Seq<u8>, int)>, ascending: bool)
    ensures
        sorted_by_count(sort_counts(s, ascending), ascending),
    decreases s.len(),
{
    if s.len() > 0 {
        lemma_sort_counts_sorted(s.drop_last(), ascending);
        lemma_insert_sorted_sorted(sort_counts(s.drop_last(), ascending), s.last(), ascending);
    }
}

/// Sorted count-mode output is monotone in the counts, whatever the input.
pub proof fn lemma_count_mode_sorted(input: Seq<u8>, delim: u8, ascending: bool)
    ensures
        sorted_by_count(
            sort_counts(table_of(split_records(input, delim)), ascending),
            ascending,
        ),
{
    lemma_sort_counts_sorted(table_of(split_records(input, delim)), ascending);
}

/// Count mode on empty input emits nothing.
pub proof fn lemma_count_empty_input(delim: u8, sort: Option<Sort>)
    ensures
        spec_count(Seq::<u8>::empty(), delim, sort) == Seq::<u8>::empty(),
{
    assert(split_records(Seq::<u8>::empty(), delim) == Seq::<Seq<u8>>::empty());
    assert(table_of(Seq::<Seq<u8>>::empty()) == Seq::<(Seq<u8>, int)>::empty());
    assert(apply_sort(Seq::<(Seq<u8>, int)>::empty(), sort) == Seq::<(Seq<u8>, int)>::empty());
}

} // verus!
