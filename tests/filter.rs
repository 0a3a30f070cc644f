use fzf_filter::field::{
    chars_of, corpus_lines, fields, string_of, nth_field, Extractor, IndexExtractor, PartitionExtractor, ThroughExtractor,
};
use fzf_filter::fzf::{CaseMode, Pattern, Positions, Slab};
use fzf_filter::query::{coalesce, is_blank_pattern, parse_query, respond, Query};
use fzf_filter::select::{select_top, sort_ranked};

fn corpus(lines: &[&str]) -> Vec<String> {
    lines.iter().map(|l| l.to_string()).collect()
}

/// A stand-in for the fzf scorer: a positive score when the pattern's
/// characters occur in the candidate in order, higher for shorter candidates.
fn fake_score(candidate: &str, pattern: &str) -> i32 {
    let mut want = pattern.chars().peekable();
    for c in candidate.chars() {
        if want.peek() == Some(&c) {
            want.next();
        }
    }
    if want.peek().is_none() {
        100 - candidate.chars().count() as i32
    } else {
        0
    }
}

fn scores_for<E: Extractor>(corpus: &Vec<String>, e: &E, pattern: &str) -> Vec<Option<i32>> {
    fields(corpus, e)
        .iter()
        .map(|f| f.map(|field| fake_score(field, pattern)))
        .collect()
}

fn answer<E: Extractor>(corpus: &Vec<String>, e: &E, q: &Query, limit: Option<usize>) -> Vec<String> {
    let scores = if is_blank_pattern(&q.pattern) {
        Vec::new()
    } else {
        scores_for(corpus, e, &q.pattern)
    };
    respond(corpus, q, limit, &scores)
}

fn query(sequence: &str, pattern: &str) -> Query {
    Query {
        sequence: sequence.to_string(),
        pattern: pattern.to_string(),
    }
}

#[test]
fn field_index_one_of_three() {
    let e = IndexExtractor {
        index: 1,
        delimiter: '\t',
    };
    assert_eq!(e.extract("a\tb\tc"), Some("b"));
    assert_eq!(nth_field("a\tb\tc", '\t', 1, None), Some("b"));
}

#[test]
fn field_index_out_of_range() {
    let e = IndexExtractor {
        index: 5,
        delimiter: '\t',
    };
    assert_eq!(e.extract("a\tb"), None);
}

#[test]
fn field_first_and_last_pieces() {
    assert_eq!(nth_field("a\tb\tc", '\t', 0, None), Some("a"));
    assert_eq!(nth_field("a\tb\tc", '\t', 2, None), Some("c"));
    assert_eq!(nth_field("a\tb\tc", '\t', 3, None), None);
    assert_eq!(nth_field("", '\t', 0, None), Some(""));
    assert_eq!(nth_field("a\t\tc", '\t', 1, None), Some(""));
    assert_eq!(nth_field("a\t", '\t', 1, None), Some(""));
}

#[test]
fn field_partitions_keep_rest() {
    let e = PartitionExtractor {
        index: 1,
        partitions: 2,
        delimiter: ':',
    };
    assert_eq!(e.extract("a:b:c"), Some("b:c"));
    let e = PartitionExtractor {
        index: 2,
        partitions: 2,
        delimiter: ':',
    };
    assert_eq!(e.extract("a:b:c"), None);
    let e = PartitionExtractor {
        index: 0,
        partitions: 0,
        delimiter: ':',
    };
    assert_eq!(e.extract("a:b:c"), None);
    let e = PartitionExtractor {
        index: 0,
        partitions: 1,
        delimiter: ':',
    };
    assert_eq!(e.extract("a:b:c"), Some("a:b:c"));
}

#[test]
fn field_multibyte_text() {
    assert_eq!(nth_field("é→ü", '→', 1, None), Some("ü"));
    assert_eq!(nth_field("é→ü", '→', 0, None), Some("é"));
}

#[test]
fn field_through_is_whole_line() {
    assert_eq!(ThroughExtractor.extract("a\tb"), Some("a\tb"));
}

#[test]
fn lines_of_command_output() {
    assert_eq!(
        corpus_lines("apple\nbanana\ngrape\n"),
        vec!["apple", "banana", "grape"]
    );
    assert_eq!(corpus_lines("a\r\nb"), vec!["a", "b"]);
    assert_eq!(corpus_lines("a\n\nb\r"), vec!["a", "", "b\r"]);
    assert!(corpus_lines("").is_empty());
    assert_eq!(corpus_lines("\n"), vec![""]);
}

#[test]
fn select_unlimited_sorts_all() {
    let items = vec![(5, 0), (9, 1), (5, 2), (7, 3)];
    assert_eq!(
        select_top(items.clone(), None),
        vec![(9, 1), (7, 3), (5, 0), (5, 2)]
    );
    assert_eq!(sort_ranked(items), vec![(9, 1), (7, 3), (5, 0), (5, 2)]);
}

#[test]
fn select_limited_keeps_best() {
    let items = vec![(5, 0), (9, 1), (5, 2), (7, 3)];
    assert_eq!(select_top(items.clone(), Some(2)), vec![(9, 1), (7, 3)]);
    assert_eq!(select_top(items.clone(), Some(3)), vec![(9, 1), (7, 3), (5, 0)]);
    assert_eq!(select_top(items.clone(), Some(0)), vec![]);
    assert_eq!(
        select_top(items, Some(10)),
        vec![(9, 1), (7, 3), (5, 0), (5, 2)]
    );
    assert_eq!(select_top(vec![], Some(3)), vec![]);
}

#[test]
fn select_bounded_matches_truncated_full_sort() {
    let mut items = Vec::new();
    let mut x: i64 = 17;
    for i in 0..200usize {
        x = (x * 1103515245 + 12345) % 2147483648;
        items.push(((x % 23) as i32 - 5, i));
    }
    let full = select_top(items.clone(), None);
    for w in full.windows(2) {
        assert!(w[0].0 > w[1].0 || (w[0].0 == w[1].0 && w[0].1 < w[1].1));
    }
    for k in 0..=items.len() {
        assert_eq!(select_top(items.clone(), Some(k)), full[..k].to_vec());
    }
}

#[test]
fn slab_sizes() {
    let s = Slab::new(3, 4);
    assert_eq!((s.size_16, s.size_32), (3, 4));
    let d = Slab::default();
    assert_eq!((d.size_16, d.size_32), (102400, 2048));
}

#[test]
fn parse_request_lines() {
    let q = parse_query("7 ap\n").unwrap();
    assert_eq!((q.sequence.as_str(), q.pattern.as_str()), ("7", "ap"));
    let q = parse_query("3 a b\n\n").unwrap();
    assert_eq!((q.sequence.as_str(), q.pattern.as_str()), ("3", "a b"));
    let q = parse_query("5 \n").unwrap();
    assert_eq!((q.sequence.as_str(), q.pattern.as_str()), ("5", ""));
    assert!(parse_query("noseparator\n").is_none());
    assert!(parse_query("").is_none());
}

#[test]
fn coalesce_keeps_latest() {
    let queued = vec!["2 b\n".to_string(), "3 c\n".to_string()];
    assert_eq!(coalesce("1 a\n".to_string(), queued), "3 c\n");
    assert_eq!(coalesce("1 a\n".to_string(), vec![]), "1 a\n");
}

#[test]
fn decode_and_copy_characters() {
    let cs = chars_of("héllo");
    assert_eq!(cs, vec!['h', 'é', 'l', 'l', 'o']);
    assert_eq!(string_of(&cs, 1, 4), "éll");
    assert_eq!(string_of(&cs, 2, 2), "");
}

#[test]
fn fields_once_per_line() {
    let c = corpus(&["a\tb", "c", "d\te\tf"]);
    let e = IndexExtractor {
        index: 1,
        delimiter: '\t',
    };
    assert_eq!(fields(&c, &e), vec![Some("b"), None, Some("e")]);
    assert_eq!(fields(&c, &ThroughExtractor), vec![Some("a\tb"), Some("c"), Some("d\te\tf")]);
}

#[test]
fn respond_ranks_given_scores() {
    let c = corpus(&["w", "x", "y", "z"]);
    let scores = vec![Some(3), None, Some(7), Some(0)];
    let out = respond(&c, &query("4", "q"), None, &scores);
    assert_eq!(out, vec!["4 y", "4 w", "4"]);
    let out = respond(&c, &query("4", "q"), Some(1), &scores);
    assert_eq!(out, vec!["4 y", "4"]);
    let negative = vec![Some(-2), Some(-1), None, Some(0)];
    assert_eq!(respond(&c, &query("4", "q"), None, &negative), vec!["4"]);
}

#[test]
fn coalesce_answers_only_last_of_three() {
    let c = corpus(&["apple", "banana"]);
    let line = coalesce(
        "1 a\n".to_string(),
        vec!["2 b\n".to_string(), "3 an\n".to_string()],
    );
    let q = parse_query(&line).unwrap();
    let out = answer(&c, &ThroughExtractor, &q, None);
    assert_eq!(out, vec!["3 banana", "3"]);
    assert!(out.iter().all(|l| l.starts_with('3')));
}

#[test]
fn end_to_end_apple() {
    let c = corpus_lines("apple\nbanana\ngrape\n");
    let q = parse_query("7 ap").unwrap();
    let out = answer(&c, &ThroughExtractor, &q, None);
    assert_eq!(out, vec!["7 apple", "7 grape", "7"]);
    assert!(!out.contains(&"7 banana".to_string()));
}

#[test]
fn empty_pattern_passthrough() {
    let c = corpus(&["zeta", "alpha", "mid"]);
    let out = respond(&c, &query("9", ""), Some(2), &Vec::new());
    assert_eq!(out, vec!["9 zeta", "9 alpha", "9"]);
    let out = respond(&c, &query("9", "  "), None, &Vec::new());
    assert_eq!(out, vec!["9 zeta", "9 alpha", "9 mid", "9"]);
    let out = respond(&c, &query("9", "\u{a0}\u{3000}"), Some(1), &Vec::new());
    assert_eq!(out, vec!["9 zeta", "9"]);
}

#[test]
fn blank_patterns() {
    assert!(is_blank_pattern(""));
    assert!(is_blank_pattern(" \t\r\u{85}\u{a0}\u{2003}\u{3000}"));
    assert!(!is_blank_pattern(" a "));
    assert!(!is_blank_pattern("\u{200b}"));
}

#[test]
fn no_match_still_ends_response() {
    let c = corpus(&["apple"]);
    let out = answer(&c, &ThroughExtractor, &query("4", "zz"), None);
    assert_eq!(out, vec!["4"]);
    let out = respond(&Vec::new(), &query("4", "a"), Some(3), &Vec::new());
    assert_eq!(out, vec!["4"]);
}

#[test]
fn ranked_response_with_limit() {
    let c = corpus(&["a long line with x", "x", "xx", "nothing"]);
    let out = answer(&c, &ThroughExtractor, &query("2", "x"), Some(2));
    assert_eq!(out, vec!["2 x", "2 xx", "2"]);
    let out = answer(&c, &ThroughExtractor, &query("2", "x"), None);
    assert_eq!(out, vec!["2 x", "2 xx", "2 a long line with x", "2"]);
}

#[test]
fn equal_scores_keep_corpus_order() {
    let c = corpus(&["cab", "abc", "bca"]);
    let out = answer(&c, &ThroughExtractor, &query("1", "a"), None);
    assert_eq!(out, vec!["1 cab", "1 abc", "1 bca", "1"]);
}

#[test]
fn response_scores_field_only() {
    let c = corpus(&["apple\tx", "x\tapple", "apple"]);
    let e = IndexExtractor {
        index: 1,
        delimiter: '\t',
    };
    let out = answer(&c, &e, &query("5", "ap"), None);
    assert_eq!(out, vec!["5 x\tapple", "5"]);
}

#[test]
fn same_request_twice_same_response() {
    let c = corpus(&["apple", "grape", "pear"]);
    let q = query("8", "pe");
    let first = answer(&c, &ThroughExtractor, &q, Some(2));
    let second = answer(&c, &ThroughExtractor, &q, Some(2));
    assert_eq!(first, second);
    assert_eq!(first, vec!["8 pear", "8 apple", "8"]);
}

#[test]
fn pattern_and_positions_hold_values() {
    let p = Pattern::new("ab", CaseMode::Ignore, false);
    assert_eq!(p.text, "ab");
    assert_eq!(p.case_mode, CaseMode::Ignore);
    assert!(!p.fuzzy);
    let pos = Positions { data: vec![0, 3] };
    assert_eq!(pos.as_slice(), &[0, 3]);
}
