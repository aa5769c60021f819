use engine::corpus::count_corpus;
use engine::csv::{parse_csv, CsvError};
use engine::lexicon::{katakana_to_hiragana, read_lexicon, should_penalize_orthographic_variant, LexiconError};
use engine::matrix_source::{parse_matrix, MatrixSourceError};
use engine::numbers::{parse_i32, parse_usize, IntErrorKind};
use engine::scan::{split_fields, split_lines, trim};

fn chars(s: &str) -> Vec<char> {
    s.chars().collect()
}

#[test]
fn parses_integers_as_str_parse_does() {
    assert_eq!(parse_i32(&chars("42")), Ok(42));
    assert_eq!(parse_i32(&chars("-7")), Ok(-7));
    assert_eq!(parse_i32(&chars("+5")), Ok(5));
    assert_eq!(parse_i32(&chars("-2147483648")), Ok(i32::MIN));
    assert_eq!(parse_i32(&chars("")), Err(IntErrorKind::Empty));
    assert_eq!(parse_i32(&chars("-")), Err(IntErrorKind::InvalidDigit));
    assert_eq!(parse_i32(&chars("1a")), Err(IntErrorKind::InvalidDigit));
    assert_eq!(parse_i32(&chars(" 1")), Err(IntErrorKind::InvalidDigit));
    assert_eq!(parse_i32(&chars("2147483648")), Err(IntErrorKind::PosOverflow));
    assert_eq!(parse_i32(&chars("-2147483649")), Err(IntErrorKind::NegOverflow));
    assert_eq!(parse_usize(&chars("18")), Ok(18));
    assert_eq!(parse_usize(&chars("-1")), Err(IntErrorKind::InvalidDigit));
    for text in ["0", "17", "-3", "+9", "99999999999", "x", "", "+", "2147483647"] {
        let ours = parse_i32(&chars(text)).ok();
        let std = text.parse::<i32>().ok();
        assert_eq!(ours, std, "{text}");
    }
}

#[test]
fn splits_lines_fields_and_trims() {
    let lines: Vec<String> = split_lines(&chars("a\r\nb\n\nc\r"))
        .into_iter()
        .map(|l| l.into_iter().collect())
        .collect();
    assert_eq!(lines, vec!["a", "b", "", "c\r"]);
    let fields: Vec<String> = split_fields(&chars("  1\u{3000}2\t 3  "), false)
        .into_iter()
        .map(|f| f.into_iter().collect())
        .collect();
    assert_eq!(fields, vec!["1", "2", "3"]);
    let tabbed: Vec<String> = split_fields(&chars("a\t\tb c\t"), true)
        .into_iter()
        .map(|f| f.into_iter().collect())
        .collect();
    assert_eq!(tabbed, vec!["a", "b c"]);
    let trimmed: String = trim(&chars(" \t x y \n")).into_iter().collect();
    assert_eq!(trimmed, "x y");
    assert!(trim(&chars("   ")).is_empty());
}

#[test]
fn reads_quoted_csv() {
    let rows = parse_csv("a,b\n\"c,d\",e\r\n,\n\"x\"\"y\"").expect("well-formed rows");
    assert_eq!(rows, vec![vec!["a", "b"], vec!["c,d", "e"], vec!["x\"y"]]);
    let blank_lines = parse_csv("\n\nz\n").expect("well-formed rows");
    assert_eq!(blank_lines, vec![vec!["z"]]);
    assert_eq!(parse_csv("\"open"), Err(CsvError::UnterminatedQuote));
    assert_eq!(parse_csv("").expect("no rows").len(), 0);
}

#[test]
fn writes_katakana_as_hiragana() {
    assert_eq!(katakana_to_hiragana("キョウ"), "きょう");
    assert_eq!(katakana_to_hiragana("ヴァイオリン"), "ゔぁいおりん");
    assert_eq!(katakana_to_hiragana("ヶ"), "ゖ");
    assert_eq!(katakana_to_hiragana("ヷー漢字abc"), "ヷー漢字abc");
}

#[test]
fn penalizes_spelled_variants_with_kanji() {
    assert!(should_penalize_orthographic_variant("來る", "来る"));
    assert!(!should_penalize_orthographic_variant("来る", "来る"));
    assert!(!should_penalize_orthographic_variant("来る", ""));
    assert!(!should_penalize_orthographic_variant("来る", "*"));
    assert!(!should_penalize_orthographic_variant("くる", "来る"));
    assert!(!should_penalize_orthographic_variant("クル", "来る"));
}

#[test]
fn reads_lexicon_rows() {
    let text = "今日,5,6,100,今日,名詞,普通名詞,副詞可能,*,*,*,キョウ,今日\n\
                本日,5,6,200,本日,名詞,普通名詞,副詞可能,*,*,*,ホンジツ,今日\n\
                記号,-1,6,1,記号,*,*,*,*,*,*,キゴウ,*\n\
                京,7,8,32000,京,名詞,*,*,*,*,*,,亰\n";
    let entries = read_lexicon(text).expect("valid rows");
    let summary: Vec<(&str, &str, u16, u16, i16)> = entries
        .iter()
        .map(|e| (e.reading.as_str(), e.surface.as_str(), e.left_id, e.right_id, e.cost))
        .collect();
    assert_eq!(
        summary,
        vec![("きょう", "今日", 5, 6, 100), ("ほんじつ", "本日", 5, 6, 4200), ("京", "京", 7, 8, 32767)]
    );
}

#[test]
fn rejects_bad_lexicon_rows() {
    assert_eq!(read_lexicon("a,b\n"), Err(LexiconError::MissingColumns { line: 1, found: 2 }));
    assert_eq!(
        read_lexicon("a,1,1,1,a,*,*,*,*,*,*,ア\nb,x,1,1,b,*,*,*,*,*,*,イ\n"),
        Err(LexiconError::InvalidLeftId { line: 2 })
    );
    assert_eq!(read_lexicon("a,1,y,1,a,*,*,*,*,*,*,ア\n"), Err(LexiconError::InvalidRightId { line: 1 }));
    assert_eq!(read_lexicon("a,1,1,z,a,*,*,*,*,*,*,ア\n"), Err(LexiconError::InvalidWordCost { line: 1 }));
    assert_eq!(read_lexicon("a,70000,1,1,a,*,*,*,*,*,*,ア\n"), Err(LexiconError::OutOfRange { line: 1 }));
    assert_eq!(read_lexicon("a,1,1,40000,a,*,*,*,*,*,*,ア\n"), Err(LexiconError::OutOfRange { line: 1 }));
    assert_eq!(read_lexicon("\"a,1"), Err(LexiconError::UnterminatedQuote));
    assert_eq!(read_lexicon("a,1,1,1,,*,*,*,*,*,*,ア\n").expect("a skipped row").len(), 0);
}

#[test]
fn reads_connection_costs() {
    let (previous, next, costs) =
        parse_matrix("2 2\n0 0 10\n1 1 -5\n# comment\n\n  0 1 7  \r\n").expect("a valid table");
    assert_eq!((previous, next), (2, 2));
    assert_eq!(costs, vec![10, 7, 0, -5]);
    assert_eq!(parse_matrix(""), Err(MatrixSourceError::Empty));
    assert_eq!(parse_matrix("\n"), Err(MatrixSourceError::MissingPreviousSize));
    assert_eq!(parse_matrix("2\n"), Err(MatrixSourceError::MissingNextSize));
    assert_eq!(parse_matrix("2 x\n"), Err(MatrixSourceError::InvalidNumber(IntErrorKind::InvalidDigit)));
    assert_eq!(parse_matrix("2 2\n0\n"), Err(MatrixSourceError::MissingNextId { line: 2 }));
    assert_eq!(parse_matrix("2 2\n0 1\n"), Err(MatrixSourceError::MissingCost { line: 2 }));
    assert_eq!(parse_matrix("2 2\n0 0 1\n2 0 1\n"), Err(MatrixSourceError::OutOfRange { line: 3 }));
    assert_eq!(parse_matrix("2 2\n0 0 40000\n"), Err(MatrixSourceError::OutOfRange { line: 2 }));
    assert_eq!(
        parse_matrix("18446744073709551615 2\n"),
        Err(MatrixSourceError::DimensionsOverflow)
    );
}

#[test]
fn counts_corpus_ngrams() {
    let counts = count_corpus("a\tb\na\n", 1, 1, 1);
    assert_eq!(counts.vocabulary, vec!["</s>", "<s>", "<unk>", "a", "b"]);
    assert_eq!(counts.total_unigrams, 7);
    assert_eq!(counts.unigrams, vec![(0, 2), (1, 2), (3, 2), (4, 1)]);
    assert_eq!(counts.bigrams, vec![(1, 3, 2, 2), (3, 0, 1, 2), (3, 4, 1, 2), (4, 0, 1, 1)]);
    assert_eq!(counts.trigrams, vec![(1, 3, 0, 1, 2), (1, 3, 4, 1, 2), (3, 4, 0, 1, 1)]);
}

#[test]
fn rare_words_become_unknown() {
    let counts = count_corpus("a\tb\na\n", 2, 2, 2);
    assert_eq!(counts.vocabulary, vec!["</s>", "<s>", "<unk>", "a"]);
    assert_eq!(counts.total_unigrams, 7);
    assert_eq!(counts.unigrams, vec![(0, 2), (1, 2), (2, 1), (3, 2)]);
    assert_eq!(counts.bigrams, vec![(1, 3, 2, 2)]);
    assert!(counts.trigrams.is_empty());
}
