use core::ops::Range;

use dwatch::{
    chunks_fingerprint, complement_ranges, parse_numbers, parse_strings, LineError, RangeParser,
};

fn whitespace() -> Vec<char> {
    vec![' ', '\t', '\n', '\r', '\x0c']
}

#[test]
fn test_immutable_strings() {
    let rp = RangeParser::new(whitespace());
    let ranges = rp.get_numeric_ranges("1234 hello 5678 world");
    let strings = parse_strings("1234 hello 5678 world", &ranges);
    assert_eq!(strings.len(), 2);
    assert_eq!(strings[0], " hello ");
    assert_eq!(strings[1], " world");
}

#[test]
fn test_mutable_numbers() {
    let rp = RangeParser::new(whitespace());
    let ranges = rp.get_numeric_ranges("1234 hello 5678 world");
    let numbers = parse_numbers("1234 hello 5678 world", &ranges).unwrap();
    assert_eq!(numbers.len(), 2);
    assert_eq!(numbers[0], 1234);
    assert_eq!(numbers[1], 5678);
}

#[test]
fn test_complement_ranges() {
    let ranges = vec![Range { start: 0, end: 4 }, Range { start: 10, end: 14 }];
    let complement = complement_ranges(&ranges, 20);

    assert_eq!(complement.len(), 2);
    assert_eq!(complement[0], Range { start: 4, end: 10 });
    assert_eq!(complement[1], Range { start: 14, end: 20 });

    // Edge case: no ranges
    let complement = complement_ranges(&[], 10);
    assert_eq!(complement.len(), 1);
    assert_eq!(complement[0], Range { start: 0, end: 10 });

    // Edge case: ranges cover entire string
    let ranges = vec![Range { start: 0, end: 10 }];
    let complement = complement_ranges(&ranges, 10);
    assert_eq!(complement.len(), 0);
}

#[test]
fn test_chunks_fingerprint() {
    let chunks1: Vec<String> = vec!["hello".into(), " ".into(), "world".into()];
    let chunks2: Vec<String> = vec!["hello".into(), " ".into(), "world".into()];
    let chunks3: Vec<String> = vec!["hello".into(), "".into(), "world".into()];
    let chunks4: Vec<String> = vec!["goodbye".into(), " ".into(), "world".into()];

    let fp1 = chunks_fingerprint(&chunks1);
    let fp2 = chunks_fingerprint(&chunks2);
    let fp3 = chunks_fingerprint(&chunks3);
    let fp4 = chunks_fingerprint(&chunks4);

    // Same chunks should produce same fingerprint
    assert_eq!(fp1, fp2);

    // Different chunks should produce different fingerprints
    assert_ne!(fp1, fp3);
    assert_ne!(fp1, fp4);
    assert_ne!(fp3, fp4);
}

#[test]
fn test_range_parser() {
    let rp = RangeParser::new(vec![' ', ',', ';']);
    let ranges = rp.get_numeric_ranges("1 2 3 4 5 6 7 8 9 10");
    assert_eq!(ranges.len(), 10);
    assert_eq!(ranges[0], Range { start: 0, end: 1 });
    assert_eq!(ranges[1], Range { start: 2, end: 3 });
    assert_eq!(ranges[2], Range { start: 4, end: 5 });
    assert_eq!(ranges[3], Range { start: 6, end: 7 });
    assert_eq!(ranges[4], Range { start: 8, end: 9 });
    assert_eq!(ranges[5], Range { start: 10, end: 11 });
    assert_eq!(ranges[6], Range { start: 12, end: 13 });
    assert_eq!(ranges[7], Range { start: 14, end: 15 });
    assert_eq!(ranges[8], Range { start: 16, end: 17 });
    assert_eq!(ranges[9], Range { start: 18, end: 20 });
}

#[test]
fn digit_run_glued_to_letters_is_not_numeric() {
    let rp = RangeParser::new(whitespace());
    assert_eq!(rp.get_numeric_ranges("v2").len(), 0);

    let ranges = rp.get_numeric_ranges("2 v3");
    assert_eq!(ranges.len(), 1);
    assert_eq!(ranges[0], Range { start: 0, end: 1 });
}

#[test]
fn signed_tokens_split_on_custom_separators() {
    let rp = RangeParser::new(vec![',', ';']);
    let ranges = rp.get_numeric_ranges("-5,6");
    assert_eq!(ranges.len(), 2);
    assert_eq!(ranges[0], Range { start: 0, end: 2 });
    assert_eq!(ranges[1], Range { start: 3, end: 4 });

    let numbers = parse_numbers("-5,6", &ranges).unwrap();
    assert_eq!(numbers, vec![-5, 6]);
}

#[test]
fn lone_sign_is_not_a_token() {
    let rp = RangeParser::new(whitespace());
    assert_eq!(rp.get_numeric_ranges("+").len(), 0);
    assert_eq!(rp.get_numeric_ranges("-").len(), 0);
    assert_eq!(rp.get_numeric_ranges("a + b - c").len(), 0);
}

#[test]
fn complement_and_tokens_reconstruct_the_line() {
    let line = "load: 12 34 end";
    let rp = RangeParser::new(whitespace());
    let ranges = rp.get_numeric_ranges(line);
    let gaps = complement_ranges(&ranges, line.len());

    let mut pieces: Vec<(usize, &str)> = Vec::new();
    for r in &ranges {
        pieces.push((r.start, &line[r.clone()]));
    }
    for g in &gaps {
        pieces.push((g.start, &line[g.clone()]));
    }
    pieces.sort_by_key(|p| p.0);
    let rebuilt: String = pieces.iter().map(|p| p.1).collect();
    assert_eq!(rebuilt, line);
}

#[test]
fn oversized_token_fails_the_line() {
    let rp = RangeParser::new(whitespace());
    let line = "99999999999999999999999";
    let ranges = rp.get_numeric_ranges(line);
    assert_eq!(ranges.len(), 1);
    let err = parse_numbers(line, &ranges).unwrap_err();
    assert_eq!(err, LineError::TokenParse { start: 0, end: 23 });
}

#[test]
fn out_of_bounds_range_fails_the_line() {
    let err = parse_numbers("12", &[Range { start: 0, end: 5 }]).unwrap_err();
    assert_eq!(err, LineError::TokenParse { start: 0, end: 5 });
}
