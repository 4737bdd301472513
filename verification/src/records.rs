//! Splitting a byte stream into delimiter-terminated records.
//!
//! A record is the span of bytes between two delimiter occurrences, without
//! the delimiter itself. A final span that reaches the end of the input
//! without a delimiter is still a (non-empty) record.

use vstd::prelude::*;

verus! {

/// Position of the first occurrence of `delim` in `s`; `s.len()` when `s`
/// does not contain it.
pub open spec fn first_delim(s: Seq<u8>, delim: u8) -> nat
    decreases s.len(),
{
    if s.len() == 0 {
        0
    } else if s[0] == delim {
        0
    } else {
        1 + first_delim(s.drop_first(), delim)
    }
}

pub proof fn lemma_first_delim(s: Seq<u8>, delim: u8)
    ensures
        first_delim(s, delim) <= s.len(),
        first_delim(s, delim) < s.len() <==> s.contains(delim),
        first_delim(s, delim) < s.len() ==> s[first_delim(s, delim) as int] == delim,
        forall|j: int| 0 <= j < first_delim(s, delim) ==> s[j] != delim,
    decreases s.len(),
{
    if s.len() == 0 {
        assert(!s.contains(delim));
    } else if s[0] == delim {
        assert(s.contains(delim));
    } else {
        lemma_first_delim(s.drop_first(), delim);
        let t = s.drop_first();
        assert(s.contains(delim) <==> t.contains(delim)) by {
            if s.contains(delim) {
                let i = choose|i: int| 0 <= i < s.len() && s[i] == delim;
                assert(t[i - 1] == delim);
                assert(t.contains(delim));
            }
            if t.contains(delim) {
                let i = choose|i: int| 0 <= i < t.len() && t[i] == delim;
                assert(s[i + 1] == delim);
                assert(s.contains(delim));
            }
        }
        assert(forall|j: int| 0 <= j < first_delim(s, delim) ==> s[j] != delim) by {
            assert(forall|j: int| 1 <= j < first_delim(s, delim) ==> s[j] == t[j - 1]);
        }
    }
}

/// If `delim` first occurs at `i`, then `first_delim` returns `i`.
pub proof fn lemma_first_delim_is(s: Seq<u8>, delim: u8, i: int)
    requires
        0 <= i < s.len(),
        s[i] == delim,
        forall|j: int| 0 <= j < i ==> s[j] != delim,
    ensures
        first_delim(s, delim) == i,
    decreases s.len(),
{
    if i > 0 {
        let t = s.drop_first();
        assert(forall|j: int| 0 <= j < i - 1 ==> t[j] == s[j + 1] && t[j] != delim);
        lemma_first_delim_is(t, delim, i - 1);
    }
}

/// The records of `s`: the spans between delimiter occurrences, each without
/// its delimiter. A non-empty trailing span without a delimiter is a record;
/// input ending exactly at a delimiter yields no empty trailing record.
pub open spec fn split_records(s: Seq<u8>, delim: u8) -> Seq<Seq<u8>>
    decreases s.len(),
{
    if s.len() == 0 {
        Seq::empty()
    } else if first_delim(s, delim) < s.len() {
        let i = first_delim(s, delim);
        seq![s.take(i as int)] + split_records(s.skip(i as int + 1), delim)
    } else {
        seq![s]
    }
}

/// No record contains the delimiter.
pub proof fn lemma_split_records_no_delim(s: Seq<u8>, delim: u8)
    ensures
        forall|k: int|
            0 <= k < split_records(s, delim).len() ==> !(#[trigger] split_records(s, delim)[k])
                .contains(delim),
    decreases s.len(),
{
    lemma_first_delim(s, delim);
    if s.len() == 0 {
    } else if first_delim(s, delim) < s.len() {
        let i = first_delim(s, delim);
        lemma_split_records_no_delim(s.skip(i as int + 1), delim);
        assert(!s.take(i as int).contains(delim)) by {
            if s.take(i as int).contains(delim) {
                let j = choose|j: int| 0 <= j < i && s.take(i as int)[j] == delim;
                assert(s[j] == delim);
            }
        }
        assert(forall|k: int|
            1 <= k < split_records(s, delim).len() ==> split_records(s, delim)[k]
                == split_records(s.skip(i as int + 1), delim)[k - 1]);
    } else {
        assert(!s.contains(delim));
    }
}

/// Splitting a delimiter-terminated record off the front.
pub proof fn lemma_split_records_prepend(rec: Seq<u8>, delim: u8, rest: Seq<u8>)
    requires
        !rec.contains(delim),
    ensures
        split_records(rec + seq![delim] + rest, delim) == seq![rec] + split_records(rest, delim),
{
    let s = rec + seq![delim] + rest;
    assert(s[rec.len() as int] == delim);
    assert(forall|j: int| 0 <= j < rec.len() ==> s[j] == rec[j]);
    assert(forall|j: int| 0 <= j < rec.len() ==> s[j] != delim) by {
        if exists|j: int| 0 <= j < rec.len() && s[j] == delim {
            let j = choose|j: int| 0 <= j < rec.len() && s[j] == delim;
            assert(rec[j] == delim);
            assert(rec.contains(delim));
        }
    }
    lemma_first_delim_is(s, delim, rec.len() as int);
    assert(s.take(rec.len() as int) =~= rec);
    assert(s.skip(rec.len() as int + 1) =~= rest);
    assert(split_records(s, delim) == seq![rec] + split_records(rest, delim));
}

/// Non-empty input has at least one record.
pub proof fn lemma_split_records_nonempty(s: Seq<u8>, delim: u8)
    requires
        s.len() > 0,
    ensures
        split_records(s, delim).len() > 0,
{
}

/// When the input does not end at a delimiter, the trailing record is the
/// non-empty span after the last delimiter.
pub proof fn lemma_split_records_last_unterminated(s: Seq<u8>, delim: u8)
    requires
        s.len() > 0,
        s.last() != delim,
    ensures
        split_records(s, delim).last().len() > 0,
    decreases s.len(),
{
    lemma_first_delim(s, delim);
    if first_delim(s, delim) < s.len() {
        let i = first_delim(s, delim);
        let rest = s.skip(i as int + 1);
        assert(i + 1 < s.len()) by {
            if i + 1 == s.len() {
                assert(s.last() == delim);
            }
        }
        assert(rest.last() == s.last());
        lemma_split_records_last_unterminated(rest, delim);
        lemma_split_records_nonempty(rest, delim);
    }
}

/// An input that is one delimiter-free, non-empty record splits into itself.
pub proof fn lemma_split_records_single(rec: Seq<u8>, delim: u8)
    requires
        !rec.contains(delim),
        rec.len() > 0,
    ensures
        split_records(rec, delim) == seq![rec],
{
    lemma_first_delim(rec, delim);
}

/// The views of a sequence of byte vectors.
pub open spec fn rec_views(rs: Seq<Vec<u8>>) -> Seq<Seq<u8>> {
    Seq::new(rs.len(), |i: int| rs[i]@)
}

/// Copy of `v[a..b]`.
fn copy_range(v: &Vec<u8>, a: usize, b: usize) -> (r: Vec<u8>)
    requires
        a <= b <= v.len(),
    ensures
        r@ == v@.subrange(a as int, b as int),
{
    let mut r: Vec<u8> = Vec::new();
    let mut j: usize = a;
    while j < b
        invariant
            a <= j <= b <= v.len(),
            r@ == v@.subrange(a as int, j as int),
        decreases b - j,
    {
        r.push(v[j]);
        assert(r@ =~= v@.subrange(a as int, j + 1 as int));
        j = j + 1;
    }
    r
}

/// Incremental record splitter. Bytes are handed in as chunks; complete
/// records come back as soon as their delimiter has been seen, and the
/// unterminated tail is kept for the next chunk.
pub struct Tokenizer {
    buf: Vec<u8>,
    delim: u8,
}

impl Tokenizer {
    /// The tail kept never contains the delimiter.
    pub closed spec fn wf(self) -> bool {
        !self.buf@.contains(self.delim)
    }

    /// Bytes received but not yet part of a completed record.
    pub closed spec fn pending(self) -> Seq<u8> {
        self.buf@
    }

    pub closed spec fn delim(self) -> u8 {
        self.delim
    }

    pub fn new(delim: u8) -> (r: Tokenizer)
        ensures
            r.wf(),
            r.pending() == Seq::<u8>::empty(),
            r.delim() == delim,
    {
        Tokenizer { buf: Vec::new(), delim }
    }

    /// Append a chunk and return the records completed by it. Exactly the
    /// records of the pending bytes followed by the chunk come out, except a
    /// trailing span that has not seen its delimiter yet: that span stays
    /// pending.
    pub fn push(&mut self, chunk: &[u8]) -> (r: Vec<Vec<u8>>)
        requires
            old(self).wf(),
        ensures
            final(self).wf(),
            final(self).delim() == old(self).delim(),
            ({
                let combined = old(self).pending() + chunk@;
                let rr = split_records(combined, old(self).delim());
                if combined.len() > 0 && combined.last() != old(self).delim() {
                    rec_views(r@) == rr.drop_last() && final(self).pending() == rr.last()
                } else {
                    rec_views(r@) == rr && final(self).pending() == Seq::<u8>::empty()
                }
            }),
    {
        let ghost oldbuf = self.buf@;
        let ghost combined = oldbuf + chunk@;
        let ghost d = self.delim;
        let scan_from: usize = self.buf.len();
        let mut k: usize = 0;
        while k < chunk.len()
            invariant
                k <= chunk.len(),
                oldbuf.len() == scan_from,
                combined == oldbuf + chunk@,
                self.buf@ == combined.take(scan_from + k),
                self.delim == d,
            decreases chunk.len() - k,
        {
            proof {
                assert(combined[scan_from + k] == chunk@[k as int]);
                assert(combined.take(scan_from + (k + 1)) =~= combined.take(scan_from + k).push(
                    chunk@[k as int],
                ));
            }
            self.buf.push(chunk[k]);
            k = k + 1;
        }
        assert(self.buf@ =~= combined);

        let mut out: Vec<Vec<u8>> = Vec::new();
        let mut start: usize = 0;
        let mut i: usize = scan_from;
        proof {
            assert(forall|j: int| 0 <= j < scan_from ==> combined[j] != d) by {
                if exists|j: int| 0 <= j < scan_from && combined[j] == d {
                    let j = choose|j: int| 0 <= j < scan_from && combined[j] == d;
                    assert(oldbuf[j] == d);
                    assert(oldbuf.contains(d));
                }
            }
        }
        while i < self.buf.len()
            invariant
                0 <= start <= i <= self.buf.len(),
                self.buf@ == combined,
                self.delim == d,
                start == 0 || combined[start - 1] == d,
                forall|j: int| start <= j < i ==> combined[j] != d,
                split_records(combined, d) == rec_views(out@) + split_records(
                    combined.skip(start as int),
                    d,
                ),
            decreases self.buf.len() - i,
        {
            if self.buf[i] == self.delim {
                let rec = copy_range(&self.buf, start, i);
                proof {
                    let tail = combined.skip(start as int);
                    assert(!rec@.contains(d)) by {
                        if rec@.contains(d) {
                            let j = choose|j: int| 0 <= j < rec@.len() && rec@[j] == d;
                            assert(combined[start + j] == d);
                        }
                    }
                    assert(tail =~= rec@ + seq![d] + combined.skip(i + 1));
                    lemma_split_records_prepend(rec@, d, combined.skip(i + 1));
                    assert(rec_views(out@.push(rec)) =~= rec_views(out@) + seq![rec@]);
                    assert(rec_views(out@) + (seq![rec@] + split_records(combined.skip(i + 1), d))
                        =~= rec_views(out@.push(rec)) + split_records(combined.skip(i + 1), d));
                }
                out.push(rec);
                start = i + 1;
            }
            i = i + 1;
        }
        let tail = copy_range(&self.buf, start, self.buf.len());
        proof {
            assert(tail@ =~= combined.skip(start as int));
            assert(!tail@.contains(d)) by {
                if tail@.contains(d) {
                    let j = choose|j: int| 0 <= j < tail@.len() && tail@[j] == d;
                    assert(combined[start + j] == d);
                }
            }
            let rr = split_records(combined, d);
            if tail@.len() == 0 {
                assert(rr =~= rec_views(out@));
                if combined.len() > 0 {
                    assert(start == combined.len());
                    assert(combined.last() == d);
                }
            } else {
                lemma_split_records_single(tail@, d);
                assert(rr =~= rec_views(out@) + seq![tail@]);
                assert(rr.last() == tail@);
                assert(rr.drop_last() =~= rec_views(out@));
                assert(combined.last() == tail@.last());
                assert(combined.last() != d);
            }
        }
        self.buf = tail;
        out
    }

    /// End of the stream: the unterminated tail, if any, is the final record.
    pub fn finish(self) -> (r: Option<Vec<u8>>)
        requires
            self.wf(),
        ensures
            match r {
                Some(rec) => self.pending().len() > 0 && rec@ == self.pending(),
                None => self.pending().len() == 0,
            },
    {
        if self.buf.len() == 0 {
            None
        } else {
            Some(self.buf)
        }
    }
}

/// All records of `input` at once: one push of the whole input, with the
/// unterminated tail, if any, closing the sequence as the final record.
pub fn split_all(input: &[u8], delim: u8) -> (r: Vec<Vec<u8>>)
    ensures
        rec_views(r@) == split_records(input@, delim),
{
    let ghost all = split_records(input@, delim);
    let mut tok = Tokenizer::new(delim);
    let mut recs = tok.push(input);
    proof {
        assert(Seq::<u8>::empty() + input@ =~= input@);
    }
    let ghost recs0 = recs@;
    let ghost pend = tok.pending();
    match tok.finish() {
        Some(t) => {
            recs.push(t);
        },
        None => {},
    }
    proof {
        if input@.len() > 0 {
            lemma_split_records_nonempty(input@, delim);
            if input@.last() != delim {
                lemma_split_records_last_unterminated(input@, delim);
            }
        }
        if input@.len() > 0 && input@.last() != delim {
            assert(rec_views(recs0) == all.drop_last());
            assert(pend == all.last());
            assert(recs@.len() == all.len());
        } else {
            assert(rec_views(recs0) == all);
            assert(recs@ == recs0);
        }
        assert forall|i: int| 0 <= i < all.len() implies rec_views(recs@)[i] == all[i] by {
            if input@.len() > 0 && input@.last() != delim {
                if i < recs0.len() {
                    assert(recs@[i] == recs0[i]);
                    assert(rec_views(recs0)[i] == all.drop_last()[i]);
                    assert(all.drop_last()[i] == all[i]);
                } else {
                    assert(recs@[i]@ == pend);
                }
            } else {
                assert(rec_views(recs0)[i] == all[i]);
            }
        }
        assert(rec_views(recs@) =~= all);
    }
    recs
}

/// Append all of `rec` to `out`.
pub(crate) fn append_bytes(out: &mut Vec<u8>, rec: &Vec<u8>)
    ensures
        final(out)@ == old(out)@ + rec@,
{
    let mut j: usize = 0;
    while j < rec.len()
        invariant
            j <= rec.len(),
            out@ == old(out)@ + rec@.take(j as int),
        decreases rec.len() - j,
    {
        out.push(rec[j]);
        assert(out@ =~= old(out)@ + rec@.take(j + 1));
        j = j + 1;
    }
    assert(out@ =~= old(out)@ + rec@);
}

/// Strip one trailing delimiter byte, if the record carries one.
pub fn trim_end<'a>(record: &'a [u8], delim: u8) -> (r: &'a [u8])
    ensures
        r@ == if record@.len() > 0 && record@.last() == delim {
            record@.drop_last()
        } else {
            record@
        },
{
    if record.len() > 0 && record[record.len() - 1] == delim {
        let r = &record[0..record.len() - 1];
        assert(r@ =~= record@.drop_last());
        r
    } else {
        record
    }
}

} // verus!
