use huniq::config::ConfigError;
use huniq::config::delim_byte;
use huniq::config::resolve_sort;
use huniq::count::CountTable;
use huniq::count::Sort;
use huniq::count::count_bytes;
use huniq::dedup::Deduper;
use huniq::dedup::dedup_bytes;
use huniq::hashing::HashSeeds;
use huniq::hashing::RecordHasher;
use huniq::hashing::hash;
use huniq::records::Tokenizer;
use huniq::records::split_all;
use huniq::records::trim_end;

fn seeds() -> HashSeeds {
    HashSeeds { k0: 11, k1: 22, k2: 33, k3: 44 }
}

fn uniq(input: &[u8]) -> Vec<u8> {
    dedup_bytes(seeds(), input, b'\n', true)
}

#[test]
fn noargs() {
    assert_eq!(uniq(b"").as_slice(), b"");
}

#[test]
fn duplicate_line() {
    assert_eq!(uniq(b"a\na\na\n").as_slice(), b"a\n");
}

#[test]
fn unique_lines() {
    assert_eq!(uniq(b"a\nb\nc\n").as_slice(), b"a\nb\nc\n");
}

#[test]
fn count_sort() {
    let out = count_bytes(b"a\na\nb\n", b'\n', Some(Sort::Ascending));
    assert_eq!(out.as_slice(), b"1 b\n2 a\n");
}

#[test]
fn count_sort_descending() {
    let out = count_bytes(b"a\na\nb\n", b'\n', Some(Sort::Descending));
    assert_eq!(out.as_slice(), b"2 a\n1 b\n");
}

#[test]
fn count_empty_input() {
    assert_eq!(count_bytes(b"", b'\n', None).as_slice(), b"");
    assert_eq!(count_bytes(b"", b'\n', Some(Sort::Ascending)).as_slice(), b"");
}

#[test]
fn count_unsorted_keeps_first_seen_order() {
    let out = count_bytes(b"b\na\nb\n", b'\n', None);
    assert_eq!(out.as_slice(), b"2 b\n1 a\n");
}

#[test]
fn count_multi_digit() {
    let mut input = Vec::new();
    for _ in 0..12 {
        input.extend_from_slice(b"x\n");
    }
    let out = count_bytes(&input, b'\n', None);
    assert_eq!(out.as_slice(), b"12 x\n");
}

#[test]
fn trailing_delimiter_appended() {
    assert_eq!(dedup_bytes(seeds(), b"a\nb", b'\n', true).as_slice(), b"a\nb\n");
}

#[test]
fn trailing_delimiter_suppressed() {
    assert_eq!(dedup_bytes(seeds(), b"a\nb", b'\n', false).as_slice(), b"a\nb");
}

#[test]
fn trailing_duplicate_stays_terminated() {
    assert_eq!(dedup_bytes(seeds(), b"a\na", b'\n', false).as_slice(), b"a\n");
}

#[test]
fn empty_records_are_records() {
    assert_eq!(uniq(b"a\n\n\nb\n").as_slice(), b"a\n\nb\n");
}

#[test]
fn null_delimiter() {
    assert_eq!(dedup_bytes(seeds(), b"a\0a\0b\0", 0, true).as_slice(), b"a\0b\0");
}

#[test]
fn dedup_is_idempotent_on_samples() {
    let samples: [&[u8]; 4] = [b"a\na\nb\n", b"a\nb", b"\n\n", b"x"];
    for sample in samples {
        for trailing in [false, true] {
            let once = dedup_bytes(seeds(), sample, b'\n', trailing);
            let twice = dedup_bytes(seeds(), &once, b'\n', trailing);
            assert_eq!(once, twice);
        }
    }
}

#[test]
fn tokenizer_joins_chunks() {
    let mut tok = Tokenizer::new(b'\n');
    let first = tok.push(b"ab");
    assert!(first.is_empty());
    let second = tok.push(b"c\nd\ne");
    assert_eq!(second.len(), 2);
    assert_eq!(second[0].as_slice(), b"abc");
    assert_eq!(second[1].as_slice(), b"d");
    let tail = tok.finish();
    assert_eq!(tail.unwrap().as_slice(), b"e");
}

#[test]
fn tokenizer_no_tail_after_delimiter() {
    let mut tok = Tokenizer::new(b'\n');
    let recs = tok.push(b"a\n");
    assert_eq!(recs.len(), 1);
    assert_eq!(recs[0].as_slice(), b"a");
    assert!(tok.finish().is_none());
}

#[test]
fn split_all_records() {
    let recs = split_all(b"one\ntwo\nthree", b'\n');
    let views: Vec<&[u8]> = recs.iter().map(|r| r.as_slice()).collect();
    assert_eq!(views, vec![b"one".as_slice(), b"two".as_slice(), b"three".as_slice()]);
}

#[test]
fn trim_end_strips_one_delimiter() {
    assert_eq!(trim_end(b"a\n", b'\n'), &b"a"[..]);
    assert_eq!(trim_end(b"a\n\n", b'\n'), &b"a\n"[..]);
    assert_eq!(trim_end(b"a", b'\n'), &b"a"[..]);
    assert_eq!(trim_end(b"", b'\n'), &b""[..]);
}

#[test]
fn hash_depends_on_seeds_and_bytes_alone() {
    let h1 = RecordHasher::from_seeds(seeds());
    let h2 = RecordHasher::from_seeds(seeds());
    assert_eq!(hash(&h1, b"record"), hash(&h2, b"record"));
    assert_eq!(hash(&h1, b""), hash(&h2, b""));
}

#[test]
fn deduper_reports_first_occurrences() {
    let mut dd = Deduper::new(RecordHasher::from_seeds(seeds()));
    assert!(dd.process(&b"a".to_vec()));
    assert!(!dd.process(&b"a".to_vec()));
    assert!(dd.process(&b"b".to_vec()));
    assert!(!dd.process(&b"b".to_vec()));
}

#[test]
fn count_table_counts_and_renders() {
    let mut table = CountTable::new();
    table.add(&b"a".to_vec());
    table.add(&b"b".to_vec());
    table.add(&b"a".to_vec());
    assert_eq!(table.total(), 3);
    assert_eq!(table.render(b'\n').as_slice(), b"2 a\n1 b\n");
}

#[test]
fn count_table_sorts_stably() {
    let mut table = CountTable::new();
    for rec in [&b"c"[..], b"a", b"b", b"a", b"c"] {
        table.add(&rec.to_vec());
    }
    table.sort_by_count(true);
    assert_eq!(table.render(b'\n').as_slice(), b"1 b\n2 c\n2 a\n");
    table.sort_by_count(false);
    assert_eq!(table.render(b'\n').as_slice(), b"2 c\n2 a\n1 b\n");
}

#[test]
fn conflicting_sort_flags_are_rejected() {
    assert_eq!(resolve_sort(true, true), Err(ConfigError::ConflictingSort));
    assert_eq!(resolve_sort(true, false), Ok(Some(Sort::Ascending)));
    assert_eq!(resolve_sort(false, true), Ok(Some(Sort::Descending)));
    assert_eq!(resolve_sort(false, false), Ok(None));
}

#[test]
fn delimiter_must_be_ascii() {
    assert_eq!(delim_byte('\n', false), Ok(b'\n'));
    assert_eq!(delim_byte('a', true), Ok(0));
    assert_eq!(delim_byte('\u{3bb}', false), Err(ConfigError::NonAsciiDelimiter));
    assert!(!delim_byte('\u{3bb}', false).is_ok());
    assert_eq!(ConfigError::NonAsciiDelimiter.message(), "delim is not an ascii char");
}
