use wordfreq::output::emit_lines;
use wordfreq::table::FrequencyTable;
use wordfreq::tokenize::{checked_tokens, normalize, tokenize};

fn count_all(chunks: Vec<Vec<u8>>) -> FrequencyTable {
    let mut t = FrequencyTable::with_capacity(16);
    for c in chunks {
        assert!(t.occurrences() <= usize::MAX - c.len());
        let r = t.consume_chunk(c);
        assert!(r.is_ok());
    }
    t
}

fn parsed(out: &[u8]) -> Vec<(String, usize)> {
    let s = std::str::from_utf8(out).unwrap();
    let mut v = Vec::new();
    for line in s.lines() {
        let mut it = line.rsplitn(2, ' ');
        let n: usize = it.next().unwrap().parse().unwrap();
        let w = it.next().unwrap().to_string();
        v.push((w, n));
    }
    v
}

fn sorted_counts(out: &[u8]) -> Vec<(String, usize)> {
    let mut v = parsed(out);
    v.sort();
    v
}

/// Cuts the input as the chunk reader does: a fixed-size read, then byte by
/// byte until a line terminator has been consumed or the input ends.
fn chunks_of(input: &[u8], size: usize) -> Vec<Vec<u8>> {
    let mut v = Vec::new();
    let mut i = 0;
    while i < input.len() {
        let mut end = (i + size).min(input.len());
        while end < input.len() {
            let b = input[end];
            end += 1;
            if b == b'\n' {
                break;
            }
        }
        v.push(input[i..end].to_vec());
        i = end;
    }
    v
}

#[test]
fn case_folding() {
    let t = count_all(vec![b"The The the".to_vec()]);
    let out = emit_lines(t);
    assert_eq!(out, b"the 3\n".to_vec());
}

#[test]
fn whitespace_variety() {
    let t = count_all(vec![b"a\t\tb\n\nc".to_vec()]);
    let out = emit_lines(t);
    assert_eq!(
        sorted_counts(&out),
        vec![
            ("a".to_string(), 1),
            ("b".to_string(), 1),
            ("c".to_string(), 1)
        ]
    );
}

#[test]
fn empty_input() {
    let t = count_all(Vec::new());
    let out = emit_lines(t);
    assert_eq!(out, Vec::<u8>::new());
}

#[test]
fn whitespace_only_input() {
    let t = count_all(vec![b" \t\r\n \n".to_vec()]);
    let out = emit_lines(t);
    assert_eq!(out, Vec::<u8>::new());
}

#[test]
fn descending_order() {
    let mut t = FrequencyTable::with_capacity(8);
    for _ in 0..5 {
        t.increment(b"x".to_vec());
    }
    for _ in 0..9 {
        t.increment(b"y".to_vec());
    }
    t.increment(b"z".to_vec());
    let out = emit_lines(t);
    assert_eq!(out, b"y 9\nx 5\nz 1\n".to_vec());
}

#[test]
fn boundary_safety_chunk_sizes() {
    let input: &[u8] = b"The quick brown fox\njumps over the lazy dog\n\
                         the dog barks at The fox\nquick quick\nend";
    let whole = sorted_counts(&emit_lines(count_all(vec![input.to_vec()])));
    assert!(!whole.is_empty());
    for size in [1usize, 7, 64, input.len() + 100] {
        let t = count_all(chunks_of(input, size));
        assert_eq!(sorted_counts(&emit_lines(t)), whole, "chunk size {}", size);
    }
}

#[test]
fn doubling_doubles_every_count() {
    let single = sorted_counts(&emit_lines(count_all(vec![b"a b a".to_vec()])));
    let double = sorted_counts(&emit_lines(count_all(vec![b"a b a a b a".to_vec()])));
    assert_eq!(single.len(), double.len());
    for ((w1, n1), (w2, n2)) in single.iter().zip(double.iter()) {
        assert_eq!(w1, w2);
        assert_eq!(2 * n1, *n2);
    }
}

#[test]
fn pipeline_equivalence() {
    let input: &[u8] = b"Pack my box\nwith five dozen\nliquor jugs pack BOX box\n";
    let chunks = chunks_of(input, 9);

    let sequential = count_all(chunks.clone());

    // The two-stage variant: one stage lowercases whole chunks, the next
    // forwards owned tokens one by one, and the aggregator counts them.
    let mut normalized = Vec::new();
    for mut c in chunks {
        normalize(&mut c);
        normalized.push(c);
    }
    let mut stream = Vec::new();
    for c in &normalized {
        let toks = checked_tokens(c);
        assert!(toks.is_ok());
        stream.extend(toks.unwrap());
    }
    let mut pipelined = FrequencyTable::with_capacity(16);
    for w in stream {
        assert!(pipelined.occurrences() < usize::MAX);
        pipelined.increment(w);
    }

    assert_eq!(
        sorted_counts(&emit_lines(sequential)),
        sorted_counts(&emit_lines(pipelined))
    );
}

#[test]
fn malformed_text_is_refused() {
    let mut t = FrequencyTable::with_capacity(8);
    let r = t.consume_chunk(vec![b'o', b'k', b' ', 0xff, 0xfe]);
    assert!(r.is_err());
    // the refused chunk left no trace
    let out = emit_lines(t);
    assert_eq!(out, Vec::<u8>::new());
}

#[test]
fn checked_tokens_refuses_malformed() {
    assert!(checked_tokens(&vec![0xc3]).is_err());
    assert!(checked_tokens(&vec![0xc3, 0xa9]).is_ok());
}

#[test]
fn multibyte_words_pass_through() {
    let t = count_all(vec![vec![0xc3, 0x89, b' ', 0xc3, 0x89]]);
    let out = emit_lines(t);
    let mut expect = vec![0xc3, 0x89];
    expect.extend_from_slice(b" 2\n");
    assert_eq!(out, expect);
}

#[test]
fn multi_digit_counts_render_in_decimal() {
    let mut t = FrequencyTable::with_capacity(8);
    for _ in 0..12345 {
        t.increment(b"w".to_vec());
    }
    t.increment(b"v".to_vec());
    let out = emit_lines(t);
    assert_eq!(out, b"w 12345\nv 1\n".to_vec());
}

#[test]
fn normalize_folds_only_ascii_uppercase() {
    let mut c = b"HeLLo, World_9!".to_vec();
    normalize(&mut c);
    assert_eq!(c, b"hello, world_9!".to_vec());
    let mut m = vec![0xc3, 0x89, b'A'];
    normalize(&mut m);
    assert_eq!(m, vec![0xc3, 0x89, b'a']);
}

#[test]
fn tokenize_splits_on_runs_of_whitespace() {
    let toks = tokenize(&b"  foo\t bar\r\nbaz ".to_vec());
    assert_eq!(toks, vec![b"foo".to_vec(), b"bar".to_vec(), b"baz".to_vec()]);
    assert_eq!(tokenize(&Vec::new()), Vec::<Vec<u8>>::new());
}

#[test]
fn tie_counts_both_emitted() {
    let t = count_all(vec![b"left right left right\n".to_vec()]);
    let out = emit_lines(t);
    assert_eq!(
        sorted_counts(&out),
        vec![("left".to_string(), 2), ("right".to_string(), 2)]
    );
}
