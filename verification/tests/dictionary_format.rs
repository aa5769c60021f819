use engine::dictionary::{ConnectionMatrix, Dictionary, DictionaryEntry};
use engine::mime::{read_i16, read_i32, read_u16, read_u32, read_u64};
use engine::writer::{encode_mime, Interner, LanguageModelSource};
use engine::{Engine, Error, LanguageModelOrder};

fn entry(reading: &str, surface: &str, left_id: u16, right_id: u16, cost: i16) -> DictionaryEntry {
    DictionaryEntry {
        reading: reading.to_string(),
        surface: surface.to_string(),
        left_id,
        right_id,
        cost,
    }
}

fn no_language_model() -> LanguageModelSource {
    LanguageModelSource {
        vocabulary: Vec::new(),
        unigrams: Vec::new(),
        bigrams: Vec::new(),
        trigrams: Vec::new(),
    }
}

#[test]
fn reads_little_endian_fields() {
    let bytes = [0x34u8, 0x12, 0xff, 0xff, 0x78, 0x56, 0x34, 0x12, 1, 0, 0, 0];
    assert_eq!(read_u16(&bytes, 0), Some(0x1234));
    assert_eq!(read_i16(&bytes, 2), Some(-1));
    assert_eq!(read_u32(&bytes, 4), Some(0x1234_5678));
    assert_eq!(read_i32(&bytes, 2), Some(0x5678_ffffu32 as i32));
    assert_eq!(read_u64(&bytes, 4), Some(0x0000_0001_1234_5678));
    assert_eq!(read_u16(&bytes, 11), None);
    assert_eq!(read_u32(&bytes, 9), None);
    assert_eq!(read_u64(&bytes, 5), None);
}

#[test]
fn connection_matrix_checks_its_shape() {
    let matrix = ConnectionMatrix::new(2, 3, vec![1, 2, 3, 4, 5, 6]).expect("a 2 by 3 matrix");
    assert_eq!(matrix.previous_size(), 2);
    assert_eq!(matrix.next_size(), 3);
    assert_eq!(matrix.cost(1, 2), 6);
    assert_eq!(matrix.cost(0, 1), 2);
    assert_eq!(matrix.cost(2, 0), 0);
    assert_eq!(matrix.cost(0, 3), 0);
    assert!(matches!(
        ConnectionMatrix::new(2, 2, vec![1, 2, 3]),
        Err(Error::InvalidDictionary("connection matrix size does not match dimensions"))
    ));
    assert!(matches!(
        ConnectionMatrix::new(usize::MAX, 2, Vec::new()),
        Err(Error::InvalidDictionary("connection matrix dimensions overflow"))
    ));
}

#[test]
fn dictionary_orders_entries_by_reading_then_cost() {
    let dictionary = Dictionary::new(vec![
        entry("き", "木", 0, 0, 30),
        entry("あ", "亜", 0, 0, 5),
        entry("き", "気", 0, 0, 10),
        entry("あい", "愛", 0, 0, 1),
    ]);
    let order: Vec<(&str, &str)> = dictionary
        .entries()
        .iter()
        .map(|e| (e.reading.as_str(), e.surface.as_str()))
        .collect();
    assert_eq!(order, vec![("あ", "亜"), ("あい", "愛"), ("き", "気"), ("き", "木")]);
}

#[test]
fn prefix_lookup_finds_every_prefix_reading() {
    let dictionary = Dictionary::new(vec![
        entry("き", "木", 0, 0, 30),
        entry("きょう", "今日", 0, 0, 5),
        entry("きょうと", "京都", 0, 0, 10),
        entry("きょ", "巨", 0, 0, 1),
        entry("と", "都", 0, 0, 1),
    ]);
    let input: Vec<char> = "きょうと".chars().collect();
    let found: Vec<&str> = dictionary
        .lookup_prefix(&input)
        .into_iter()
        .map(|i| dictionary.entries()[i].surface.as_str())
        .collect();
    assert_eq!(found, vec!["木", "巨", "今日", "京都"]);
    let none: Vec<char> = "ぬ".chars().collect();
    assert!(dictionary.lookup_prefix(&none).is_empty());
}

#[test]
fn written_dictionary_reads_back() {
    let entries = vec![
        entry("きょう", "今日", 1, 2, 100),
        entry("きょう", "京", 1, 1, 3000),
        entry("の", "の", 0, 0, 50),
    ];
    let source = LanguageModelSource {
        vocabulary: vec!["</s>".to_string(), "<s>".to_string(), "<unk>".to_string(), "今日".to_string()],
        unigrams: vec![(3, 100)],
        bigrams: vec![(1, 3, 50)],
        trigrams: Vec::new(),
    };
    let bytes = encode_mime(&entries, 2, 3, &[0, 1, 2, 3, 4, -5], &source).expect("small tables fit");
    assert_eq!(&bytes[0..4], b"MIME");
    let strings = "きょう".len() + "今日".len() + "京".len() + "の".len() + "</s><s><unk>".len();
    assert_eq!(bytes.len(), 104 + 24 * 3 + strings + 2 * 6 + 8 * 4 + 8 + 12);
    let dictionary = Dictionary::from_mime_bytes(&bytes).expect("the written bytes read back");
    assert_eq!(dictionary.entries(), &entries[..]);
    assert_eq!(dictionary.matrix().previous_size(), 2);
    assert_eq!(dictionary.matrix().next_size(), 3);
    assert_eq!(dictionary.matrix().cost(1, 2), -5);
    let model = dictionary.language_model();
    assert_eq!(model.word_id(&"今日".to_string()), Some(3));
    assert_eq!(model.word_id(&"京".to_string()), None);
    assert_eq!(model.initial_context(), (None, Some(1)));
    let details = model.cost_details(None, Some(1), Some(3));
    assert_eq!(details.cost, 550);
    assert_eq!(details.order, LanguageModelOrder::Bigram);
    let unigram = model.cost_details(None, None, Some(3));
    assert_eq!(unigram.cost, 1100);
    assert_eq!(unigram.order, LanguageModelOrder::Unigram);
    let unknown = model.cost_details(None, Some(1), None);
    assert_eq!(unknown.cost, 12_000);
    assert!(unknown.unknown);
}

#[test]
fn engine_opens_written_bytes() {
    let entries = vec![entry("の", "の", 0, 0, 50), entry("ねこ", "猫", 0, 0, 100)];
    let bytes = encode_mime(&entries, 1, 1, &[0], &no_language_model()).expect("small tables fit");
    let engine = Engine::open(&bytes).expect("the written bytes read back");
    let best = engine.convert("ねこのねこ").expect("a conversion");
    assert_eq!(best.text, "猫の猫");
}

#[test]
fn strings_are_stored_once() {
    let entries = vec![entry("あ", "亜", 0, 0, 1), entry("あ", "阿", 0, 0, 2)];
    let source = LanguageModelSource {
        vocabulary: vec!["亜".to_string()],
        unigrams: Vec::new(),
        bigrams: Vec::new(),
        trigrams: Vec::new(),
    };
    let bytes = encode_mime(&entries, 0, 0, &[], &source).expect("small tables fit");
    assert_eq!(bytes.len(), 104 + 24 * 2 + 3 * 3 + 8);
    let dictionary = Dictionary::from_mime_bytes(&bytes).expect("the written bytes read back");
    assert_eq!(dictionary.entries(), &entries[..]);
}

#[test]
fn rejects_malformed_dictionaries() {
    assert!(matches!(
        Dictionary::from_mime_bytes(&[0u8; 20]),
        Err(Error::InvalidDictionary("file is smaller than the header"))
    ));
    let good = encode_mime(&[], 0, 0, &[], &no_language_model()).expect("an empty dictionary");
    let mut bad_magic = good.clone();
    bad_magic[0] = b'X';
    assert!(matches!(
        Dictionary::from_mime_bytes(&bad_magic),
        Err(Error::InvalidDictionary("bad magic"))
    ));
    let mut newer = good.clone();
    newer[4] = 2;
    assert!(matches!(Dictionary::from_mime_bytes(&newer), Err(Error::UnsupportedVersion(2))));
    let mut truncated = good.clone();
    truncated[96] = 200;
    assert!(matches!(
        Dictionary::from_mime_bytes(&truncated),
        Err(Error::InvalidDictionary(_))
    ));
    let empty = Dictionary::from_mime_bytes(&good).expect("an empty dictionary reads back");
    assert!(empty.entries().is_empty());
}

#[test]
fn invalid_utf8_in_strings_is_an_error() {
    let entries = vec![entry("あ", "亜", 0, 0, 1)];
    let mut bytes = encode_mime(&entries, 0, 0, &[], &no_language_model()).expect("small tables fit");
    let string_start = 104 + 24;
    bytes[string_start] = 0xff;
    assert!(matches!(Dictionary::from_mime_bytes(&bytes), Err(Error::InvalidUtf8)));
}

#[test]
fn interning_twice_gives_the_same_place() {
    let mut interner = Interner::new();
    assert_eq!(interner.intern_string("ねこ"), Ok((0, 6)));
    assert_eq!(interner.intern_string("猫"), Ok((6, 3)));
    assert_eq!(interner.intern_string("ねこ"), Ok((0, 6)));
    assert_eq!(interner.into_table(), "ねこ猫".as_bytes().to_vec());
}
