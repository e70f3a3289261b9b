use zwcd::models::{DictEntry, SearchParams};
use zwcd::score::Score;
use zwcd::search::SearchEngine;
use zwcd::sort::stable_sort;

fn entry(traditional: &str, simplified: &str, pinyin: &str, definitions: &[&str]) -> DictEntry {
    DictEntry {
        traditional: traditional.to_string(),
        simplified: simplified.to_string(),
        pinyin: pinyin.to_string(),
        definitions: definitions.iter().map(|d| d.to_string()).collect(),
    }
}

fn lexicon() -> Vec<DictEntry> {
    vec![
        entry("你好", "你好", "ni3 hao3", &["hello", "hi"]),
        entry("學習", "学习", "xue2 xi2", &["to learn", "to study"]),
        entry("貓", "猫", "mao1", &["cat"]),
        entry("你", "你", "ni3", &["you (informal)"]),
        entry("中文", "中文", "Zhong1 wen2", &["Chinese language"]),
    ]
}

fn value(s: &Score) -> f64 {
    s.num() as f64 / s.den() as f64
}

#[test]
fn similarity_of_a_string_to_itself_is_one() {
    for text in ["a", "cat", "你好", "hello world"] {
        let s = SearchEngine::similarity(text, text);
        assert_eq!((s.num(), s.den()), (1, 1));
    }
}

#[test]
fn similarity_with_an_empty_string_is_zero() {
    assert_eq!(SearchEngine::similarity("", "cat").num(), 0);
    assert_eq!(SearchEngine::similarity("cat", "").num(), 0);
    assert_eq!(SearchEngine::similarity("", "").num(), 0);
}

#[test]
fn similarity_is_not_symmetric() {
    let inside = SearchEngine::similarity("cat", "category");
    let around = SearchEngine::similarity("category", "cat");
    assert_eq!((inside.num(), inside.den()), (60, 80));
    assert_eq!((around.num(), around.den()), (49, 80));
    assert_eq!(value(&inside), 0.75);
    assert_eq!(value(&around), 0.6125);
    assert!(!inside.is_same(&around));
    assert!(inside.is_gt(&around));
}

#[test]
fn containment_counts_bytes() {
    // One ideograph of three bytes in a string of six.
    let s = SearchEngine::similarity("你", "你好");
    assert_eq!((s.num(), s.den()), (6 * 6 + 4 * 3, 60));
    assert_eq!(value(&s), 0.8);
    // One letter in an ideograph and a letter: one byte of four.
    let t = SearchEngine::similarity("a", "好a");
    assert_eq!((t.num(), t.den()), (6 * 4 + 4, 40));
}

#[test]
fn containment_is_tried_before_likeness() {
    let s = SearchEngine::similarity_from("cat", "category", 0x3FF0_0000_0000_0000);
    assert_eq!((s.num(), s.den()), (60, 80));
    let t = SearchEngine::similarity_from("category", "cat", 0x3FF0_0000_0000_0000);
    assert_eq!((t.num(), t.den()), (49, 80));
    let e = SearchEngine::similarity_from("cat", "cat", 0);
    assert_eq!((e.num(), e.den()), (1, 1));
    let n = SearchEngine::similarity_from("", "cat", 0x3FF0_0000_0000_0000);
    assert_eq!((n.num(), n.den()), (0, 1));
}

#[test]
fn confident_jaro_winkler_is_the_score() {
    let jw = strsim::jaro_winkler("martha", "marhta");
    assert!(jw > 0.85);
    let s = SearchEngine::similarity("martha", "marhta");
    assert_eq!(s.den(), 1u128 << 53);
    assert_eq!(value(&s), jw);
}

#[test]
fn low_jaro_winkler_falls_back_to_lengths() {
    let s = SearchEngine::similarity("abc", "xyz");
    assert_eq!((s.num(), s.den()), (18, 60));
    let t = SearchEngine::similarity("ab", "wxyz");
    // (1 - 2/6) * 0.3 = 0.2
    assert_eq!((t.num(), t.den()), (3 * (6 - 2), 60));
    assert_eq!(value(&t), 0.2);
}

#[test]
fn likeness_must_exceed_the_threshold() {
    let at = SearchEngine::similarity_from("abc", "xyz", (0.85f64).to_bits());
    assert_eq!((at.num(), at.den()), (18, 60));
    let above = SearchEngine::similarity_from("abc", "xyz", 0x3FEB_3333_3333_3334);
    assert_eq!(above.den(), 1u128 << 53);
    assert_eq!(value(&above), f64::from_bits(0x3FEB_3333_3333_3334));
    let nine = SearchEngine::similarity_from("abc", "xyz", (0.9f64).to_bits());
    assert_eq!(value(&nine), 0.9);
    let one = SearchEngine::similarity_from("abc", "xyz", (1.0f64).to_bits());
    assert_eq!(value(&one), 1.0);
    let half = SearchEngine::similarity_from("abc", "xyz", (0.5f64).to_bits());
    assert_eq!((half.num(), half.den()), (18, 60));
}

#[test]
fn patterns_that_are_no_unit_number_count_as_unlike() {
    for bits in [(2.0f64).to_bits(), f64::NAN.to_bits(), (-0.9f64).to_bits(), f64::INFINITY.to_bits()] {
        let s = SearchEngine::similarity_from("ab", "wxyz", bits);
        assert_eq!((s.num(), s.den()), (12, 60));
    }
}

#[test]
fn max_similarity_takes_the_best_option() {
    let best = SearchEngine::max_similarity("cat", &["dog", "category", "cat", "ca"]);
    assert_eq!((best.num(), best.den()), (1, 1));
    let partial = SearchEngine::max_similarity("cat", &["category", "xyz"]);
    assert_eq!((partial.num(), partial.den()), (60, 80));
    let none = SearchEngine::max_similarity("cat", &[]);
    assert_eq!((none.num(), none.den()), (0, 1));
}

#[test]
fn scores_compare_exactly() {
    let a = Score::new(3, 4).unwrap();
    let b = Score::new(6, 8).unwrap();
    let c = Score::new(4, 5).unwrap();
    assert!(a.is_same(&b));
    assert!(!a.is_lt(&b));
    assert!(a.is_lt(&c));
    assert!(c.is_gt(&a));
    assert!(Score::new(5, 4).is_none());
    assert!(Score::new(0, 0).is_none());
    let big = Score::new(u64::MAX - 1, u64::MAX).unwrap();
    let bigger = Score::new(u64::MAX, u64::MAX).unwrap();
    assert!(big.is_lt(&bigger));
    assert!(!bigger.is_lt(&big));
    assert!(bigger.is_same(&Score::one()));
    let close = Score::new(u64::MAX - 2, u64::MAX - 1).unwrap();
    assert!(close.is_lt(&big));
    assert!(Score::cutoff().is_same(&Score::new(8, 10).unwrap()));
    assert!(Score::zero().is_lt(&Score::cutoff()));
}

#[test]
fn search_finds_exact_script_matches() {
    let dict = lexicon();
    let found = SearchEngine::search_entries("你好", &dict, None);
    assert_eq!(found.len(), 1);
    assert_eq!(found[0].0.simplified, "你好");
    assert_eq!((found[0].1.num(), found[0].1.den()), (1, 1));
}

#[test]
fn search_matches_romanisation_without_tones() {
    let dict = lexicon();
    let found = SearchEngine::search_entries("Ni Hao", &dict, Some("chinese"));
    assert_eq!(found.len(), 1);
    assert_eq!(found[0].0.pinyin, "ni3 hao3");
    let other = SearchEngine::search_entries("zhongwen", &dict, None);
    assert_eq!(other.len(), 1);
    assert_eq!(other[0].0.simplified, "中文");
}

#[test]
fn search_by_definitions() {
    let dict = lexicon();
    let found = SearchEngine::search_entries("cat", &dict, Some("english"));
    assert_eq!(found.len(), 1);
    assert_eq!(found[0].0.simplified, "猫");
    let study = SearchEngine::search_entries("To Study!", &dict, Some("english"));
    assert_eq!(study.len(), 1);
    assert_eq!(study[0].0.simplified, "学习");
    // By script the same word finds nothing.
    assert!(SearchEngine::search_entries("cat", &dict, None).is_empty());
}

#[test]
fn search_never_returns_a_score_at_or_below_the_cutoff() {
    let dict = lexicon();
    let cutoff = Score::cutoff();
    for query in ["ni", "你", "hao", "xue", "mao", "n", "zhong", "x", ""] {
        for lang in [None, Some("chinese"), Some("english")] {
            let found = SearchEngine::search_entries(query, &dict, lang);
            for (_, score) in &found {
                assert!(score.is_gt(&cutoff));
            }
        }
    }
    // "你" in "你好" scores exactly 0.8 and is left out.
    let found = SearchEngine::search_entries("你", &dict, None);
    assert_eq!(found.len(), 1);
    assert_eq!(found[0].0.simplified, "你");
}

#[test]
fn search_orders_by_score_and_keeps_ties_in_order() {
    let dict = vec![
        entry("b", "b", "ma3 li4", &[]),
        entry("a", "a", "ma3", &[]),
        entry("c", "c", "ma", &[]),
        entry("d", "d", "ma3 l", &[]),
    ];
    let found = SearchEngine::search_entries("ma", &dict, None);
    let names: Vec<&str> = found.iter().map(|(e, _)| e.simplified.as_str()).collect();
    // "ma" equals the toneless key of a and c; it lies in "mal" (0.6 + 0.4 * 2/3) and in
    // "mali" (0.8, left out).
    assert_eq!(names, vec!["a", "c", "d"]);
    for pair in found.windows(2) {
        assert!(!pair[0].1.is_lt(&pair[1].1));
    }
}

#[test]
fn search_of_nothing_finds_nothing() {
    let dict = lexicon();
    assert!(SearchEngine::search_entries("", &dict, None).is_empty());
    assert!(SearchEngine::search_entries("!!!", &dict, None).is_empty());
    assert!(SearchEngine::search_entries("cat", &[], None).is_empty());
}

#[test]
fn search_api_truncates_to_fifteen() {
    let mut dict = Vec::new();
    for i in 0..20 {
        dict.push(entry("貓", "猫", "mao1", &[&format!("cat {}", i)]));
    }
    let reply = SearchEngine::search_api(
        SearchParams { q: "猫".to_string(), lang: None },
        &dict,
    );
    assert_eq!(reply.query, "猫");
    assert_eq!(reply.results.len(), 15);
    assert_eq!(reply.results[14].definitions, vec!["cat 14".to_string()]);
    let few = SearchEngine::search_api(
        SearchParams { q: "hello".to_string(), lang: Some("english".to_string()) },
        &lexicon(),
    );
    assert_eq!(few.results.len(), 1);
    assert_eq!(few.results[0].simplified, "你好");
}

#[test]
fn cloned_entries_are_equal_in_text() {
    let e = entry("學習", "学习", "xue2 xi2", &["to learn", "to study"]);
    let c = e.clone();
    assert_eq!(c.traditional, e.traditional);
    assert_eq!(c.simplified, e.simplified);
    assert_eq!(c.pinyin, e.pinyin);
    assert_eq!(c.definitions, e.definitions);
}

#[test]
fn scored_entries_sort_stably() {
    let scored = |name: &str, num: u64, den: u64| {
        (entry(name, name, "", &[]), Score::new(num, den).unwrap())
    };
    let sorted = stable_sort(vec![
        scored("a", 9, 10),
        scored("b", 1, 1),
        scored("c", 18, 20),
        scored("d", 85, 100),
        scored("e", 2, 2),
        scored("f", 90, 100),
    ]);
    let names: Vec<&str> = sorted.iter().map(|(e, _)| e.simplified.as_str()).collect();
    assert_eq!(names, vec!["b", "e", "a", "c", "f", "d"]);
    assert!(stable_sort(Vec::<(DictEntry, Score)>::new()).is_empty());
}

fn float_similarity(a: &str, b: &str) -> f32 {
    if a.is_empty() || b.is_empty() {
        return 0.0;
    }
    if a == b {
        return 1.0;
    }
    if b.contains(a) {
        let ratio = a.len() as f32 / b.len() as f32;
        return 0.6 + (ratio * 0.4);
    }
    if a.contains(b) {
        let ratio = b.len() as f32 / a.len() as f32;
        return 0.5 + (ratio * 0.3);
    }
    let jaro_winkler = strsim::jaro_winkler(a, b);
    if jaro_winkler > 0.85 {
        return jaro_winkler as f32;
    }
    let len_sim = 1.0 - ((a.len() as f32 - b.len() as f32).abs() / (a.len() + b.len()) as f32);
    len_sim * 0.3
}

#[test]
fn similarity_agrees_with_float_arithmetic() {
    let words = [
        "", "a", "ab", "abc", "cat", "category", "cart", "martha", "marhta", "dixon", "dicksonx",
        "nihao", "nihaoma", "ni", "hao", "你", "你好", "你好吗", "好", "学习", "xuexi", "xue",
        "zhongwen", "zhongwem", "zhonwgen", "hello", "hallo", "help", "to study", "tostudy",
        "study", "cheeseburger", "cheese fries", "好a", "a好",
    ];
    for a in words {
        for b in words {
            let s = SearchEngine::similarity(a, b);
            assert!(s.num() <= s.den());
            let expected = float_similarity(a, b) as f64;
            assert!((value(&s) - expected).abs() < 1e-6);
        }
    }
}
