use engine::{Dictionary, DictionaryEntry, Engine, LanguageModelOrder};

fn entry(reading: &str, surface: &str, cost: i16) -> DictionaryEntry {
    DictionaryEntry {
        reading: reading.to_string(),
        surface: surface.to_string(),
        left_id: 0,
        right_id: 0,
        cost,
    }
}

fn weather_engine() -> Engine {
    Engine::new(Dictionary::new(vec![
        entry("てんき", "転記", 2000),
        entry("きょう", "京", 3000),
        entry("の", "の", 50),
        entry("きょう", "今日", 100),
        entry("てんき", "天気", 200),
    ]))
}

#[test]
fn ranks_cheapest_segmentation_first() {
    let engine = weather_engine();
    let candidates = engine.candidates("きょうのてんき", 10);
    let texts: Vec<&str> = candidates.iter().map(|c| c.text.as_str()).collect();
    assert_eq!(texts, vec!["今日の天気", "今日の転記", "京の天気", "京の転記"]);
    let costs: Vec<i32> = candidates.iter().map(|c| c.cost).collect();
    assert_eq!(costs, vec![2850, 4650, 5750, 7550]);
}

#[test]
fn convert_returns_the_best_candidate() {
    let engine = weather_engine();
    let best = engine.convert("きょうのてんき").expect("a conversion");
    assert_eq!(best.text, "今日の天気");
    assert_eq!(best.cost, 2850);
    let segments: Vec<(&str, &str)> = best
        .segments
        .iter()
        .map(|s| (s.reading.as_str(), s.surface.as_str()))
        .collect();
    assert_eq!(segments, vec![("きょう", "今日"), ("の", "の"), ("てんき", "天気")]);
}

#[test]
fn limit_caps_the_candidates() {
    let engine = weather_engine();
    let candidates = engine.candidates("きょうのてんき", 2);
    assert_eq!(candidates.len(), 2);
    assert_eq!(candidates[0].text, "今日の天気");
    assert_eq!(candidates[1].text, "今日の転記");
    assert!(engine.candidates("きょうのてんき", 0).is_empty());
}

#[test]
fn empty_reading_has_no_conversion() {
    let engine = weather_engine();
    assert!(engine.candidates("", 5).is_empty());
    assert!(engine.convert("").is_none());
}

#[test]
fn unknown_kana_stays_as_written() {
    let engine = weather_engine();
    let candidates = engine.candidates("ぬ", 5);
    assert_eq!(candidates.len(), 1);
    assert_eq!(candidates[0].text, "ぬ");
    assert_eq!(candidates[0].cost, 12_500);
}

#[test]
fn ascii_runs_become_one_segment() {
    let engine = weather_engine();
    let candidates = engine.candidates("xyz", 5);
    assert_eq!(candidates.len(), 1);
    assert_eq!(candidates[0].text, "xyz");
    assert_eq!(candidates[0].cost, 2500);
    assert_eq!(candidates[0].segments.len(), 1);
    assert_eq!(candidates[0].segments[0].reading, "xyz");
}

#[test]
fn candidates_are_sorted_distinct_and_cover_the_reading() {
    let engine = weather_engine();
    for reading in ["きょうのてんき", "てんきのきょう", "のの", "きょうxyzてんき", "ぬきょう"] {
        let candidates = engine.candidates(reading, 8);
        assert!(!candidates.is_empty(), "{reading}");
        for pair in candidates.windows(2) {
            assert!(pair[0].cost <= pair[1].cost, "{reading}");
        }
        for (i, a) in candidates.iter().enumerate() {
            for b in &candidates[i + 1..] {
                assert_ne!(a.text, b.text, "{reading}");
            }
            let read: String = a.segments.iter().map(|s| s.reading.as_str()).collect();
            let written: String = a.segments.iter().map(|s| s.surface.as_str()).collect();
            assert_eq!(read, reading);
            assert_eq!(written, a.text);
        }
    }
}

#[test]
fn cost_breakdown_matches_the_candidates() {
    let engine = weather_engine();
    let plain = engine.candidates("きょうのてんき", 10);
    let detailed = engine.candidate_costs("きょうのてんき", 10);
    assert_eq!(plain.len(), detailed.len());
    for (p, d) in plain.iter().zip(detailed.iter()) {
        assert_eq!(p.text, d.text);
        assert_eq!(p.cost, d.cost);
        assert_eq!(p.segments.len(), d.segments.len());
        for (s, c) in p.segments.iter().zip(d.segments.iter()) {
            assert_eq!(s.reading, c.reading);
            assert_eq!(s.surface, c.surface);
        }
    }
    let best = &detailed[0];
    assert_eq!(best.base_cost, 2850);
    assert_eq!(best.language_cost, 0);
    assert_eq!(best.eos_connection_cost, 0);
    assert_eq!(best.eos_language_cost, 0);
    let first = &best.segments[0];
    assert_eq!(first.word_cost, 100);
    assert_eq!(first.connection_cost, 0);
    assert_eq!(first.surface_penalty, 0);
    assert_eq!(first.segment_penalty, 500);
    assert_eq!(first.language_order, LanguageModelOrder::Disabled);
    assert_eq!(first.base_cost, 600);
    assert_eq!(first.total_cost, 600);
    let particle = &best.segments[1];
    assert_eq!(particle.surface_penalty, -1000);
    assert_eq!(particle.segment_penalty, 2500);
    assert_eq!(particle.base_cost, 2150);
}

#[test]
fn a_narrow_beam_still_finds_a_conversion() {
    let engine = weather_engine();
    let candidates = engine.candidates_with_beam("きょうのてんき", 1, 1);
    assert_eq!(candidates.len(), 1);
    assert_eq!(candidates[0].text, "今日の天気");
    let detailed = engine.candidate_costs_with_beam("きょうのてんき", 3, 1);
    assert!(!detailed.is_empty());
    assert_eq!(detailed[0].text, "今日の天気");
}
