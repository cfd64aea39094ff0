use fast_disambig::analyzer::ScoredAnalysis;
use fast_disambig::resources::progress_shown;
use fast_disambig::stemmer::{cache_keys, stem, stem_accepts, stem_tagged, AnalysisCache};
use fast_disambig::utils::{apply_diacritics, dediac_ar, has_diacritics, levenshtein, merge_tokens, normalize_ar, simple_word_tokenize};

#[test]
fn dediacritizing_and_normalizing_twice_changes_nothing() {
    for w in ["وَالْكِتَابُ", "إِلَى", "مَدْرَسَةٌ", "ٱلْعِلْم", "plain"] {
        let d = dediac_ar(w);
        assert_eq!(dediac_ar(&d), d);
        let n = normalize_ar(w);
        assert_eq!(normalize_ar(&n), n);
        assert!(!has_diacritics(&n));
    }
}

#[test]
fn edit_distance_laws_on_examples() {
    assert_eq!(levenshtein("كتاب", "كتاب"), 0);
    assert_eq!(levenshtein("kitten", "sitting"), levenshtein("sitting", "kitten"));
    assert!(levenshtein("abc", "uvwxyz") <= 6);
}

#[test]
fn stemming_without_analyses_gives_the_tokens_back() {
    let cache = AnalysisCache::new();
    let text = "والكتاب، الجميل! 123";
    let tokens: String = simple_word_tokenize(text, "full").concat();
    assert_eq!(stem(text, &cache, "[+]", "d3tok", false, &[]), tokens);
}

#[test]
fn cut_segments_spell_the_word() {
    let mut a = ScoredAnalysis::default();
    a.d3tok = "و+_ال+_كتاب".into();
    let mut cache = AnalysisCache::new();
    cache.insert("والكتاب".into(), vec![a]);
    let pieces = stem_tagged("والكتاب", &cache, "[+]", "d3tok", false, &[]);
    let segments: Vec<String> = vec![
        format!("{}{}", pieces[0].text, pieces[1].text),
        format!("{}{}", pieces[2].text, pieces[3].text),
        pieces[4].text.clone(),
    ];
    assert_eq!(merge_tokens(&segments, "[+]"), "والكتاب");
}

#[test]
fn the_keys_are_the_words_looked_up() {
    let text = "كِتاب كتاب، قلم! كتاب";
    let keys = cache_keys(text);
    assert_eq!(keys, vec!["كتاب", "،", "قلم"]);
    let mut cache = AnalysisCache::new();
    for k in &keys {
        cache.insert(k.clone(), vec![]);
    }
    assert!(cache.missing(&keys).is_empty());
}

fn two_word_cache() -> AnalysisCache {
    let mut a = ScoredAnalysis::default();
    a.d3tok = "و+_ال+_كتاب".to_string();
    a.ud = "CCONJ+DET+NOUN".to_string();
    a.pos = "noun".to_string();
    let mut b = ScoredAnalysis::default();
    b.d3tok = "ال+_جميل".to_string();
    b.ud = "NOUN".to_string();
    b.pos = "adj".to_string();
    let mut cache = AnalysisCache::new();
    cache.insert("والكتاب".to_string(), vec![a]);
    cache.insert("الجميل".to_string(), vec![b]);
    cache
}

#[test]
fn stemming_only_adds_separators() {
    let cache = two_word_cache();
    let text = "والكتاب الجميل، قلم!";
    let out = stem(text, &cache, "[+]", "d3tok", false, &[]);
    assert_eq!(out, "و[+]ال[+]كتاب ال[+]جميل، قلم!");
    assert_eq!(out.replace("[+]", ""), text);
    let text = "snake_case والكتاب_الجميل";
    let out = stem(text, &cache, "[+]", "d3tok", false, &[]);
    assert_eq!(out, "snake_case و[+]ال[+]كتاب_ال[+]جميل");
    assert_eq!(out.replace("[+]", ""), text);
}

#[test]
fn tagged_pieces_carry_their_words_tags() {
    let cache = two_word_cache();
    let pieces = stem_tagged("والكتاب الجميل، قلم", &cache, "[+]", "d3tok", false, &[]);
    let got: Vec<(&str, &str, &str)> =
        pieces.iter().map(|p| (p.text.as_str(), p.ud.as_str(), p.pos.as_str())).collect();
    assert_eq!(
        got,
        vec![
            ("و", "CCONJ", "noun"),
            ("[+]", "SPEC_TOK", "noun"),
            ("ال", "DET", "noun"),
            ("[+]", "SPEC_TOK", "noun"),
            ("كتاب", "NOUN", "noun"),
            (" ", "UNK", "UNK"),
            ("ال", "NOUN", "adj"),
            ("[+]", "SPEC_TOK", "adj"),
            ("جميل", "NOUN", "adj"),
            ("،", "UNK", "UNK"),
            (" ", "UNK", "UNK"),
            ("قلم", "UNK", "UNK"),
        ]
    );
}

#[test]
fn diacritized_segments_spell_the_diacritized_word() {
    let segs = vec!["و[+]".to_string(), "ال[+]".to_string(), "كتاب".to_string()];
    let word = "وَالْكِتَابُ";
    let out = apply_diacritics(&segs, word, "[+]");
    assert_eq!(out.len(), segs.len());
    assert_eq!(out.concat().replace("[+]", ""), word);
    let with_sep = vec!["و".to_string(), "[+]".to_string(), "الكتاب".to_string()];
    let out = apply_diacritics(&with_sep, word, "[+]");
    assert_eq!(out[1], "[+]");
    assert_eq!(out.concat().replace("[+]", ""), word);
    // A separator that runs across two segments.
    let split_sep = vec!["و[".to_string(), "+]ال[+]".to_string(), "كتاب".to_string()];
    let out = apply_diacritics(&split_sep, word, "[+]");
    assert_eq!(out.len(), 3);
    assert_eq!(out.concat().replace("[+]", ""), word);
}

#[test]
fn stemming_with_an_empty_separator_and_kept_diacritics() {
    let cache = two_word_cache();
    // Words without diacritics are cut as usual.
    assert!(stem_accepts("والكتاب الجميل", &cache, "", "d3tok", true, &[]));
    assert_eq!(stem("والكتاب الجميل", &cache, "", "d3tok", true, &[]), "والكتاب الجميل");
    // A text without Arabic words is copied.
    assert!(stem_accepts("abc 123", &cache, "", "d3tok", true, &[]));
    assert_eq!(stem("abc 123", &cache, "", "d3tok", true, &[]), "abc 123");
    // A cut word that carries diacritics cannot be given them back.
    assert!(!stem_accepts("وَالْكِتَابُ", &cache, "", "d3tok", true, &[]));
    assert!(stem_accepts("وَالْكِتَابُ", &cache, "", "d3tok", false, &[]));
    assert!(stem_accepts("وَالْكِتَابُ", &cache, "+", "d3tok", true, &[]));
}

#[test]
fn cache_admission_keeps_the_cache_within_its_limit() {
    assert_eq!(AnalysisCache::admission(3, 2, 10), (false, 2));
    assert_eq!(AnalysisCache::admission(9, 2, 10), (true, 2));
    assert_eq!(AnalysisCache::admission(0, 20, 10), (true, 10));
    assert_eq!(AnalysisCache::admission(0, 5, 0), (true, 0));
    assert_eq!(AnalysisCache::admission(0, 0, 0), (false, 0));
}

#[test]
fn progress_follows_the_setting_then_the_terminal() {
    assert!(progress_shown(Some("always"), false));
    assert!(!progress_shown(Some("never"), true));
    assert!(progress_shown(None, true));
    assert!(!progress_shown(None, false));
    assert!(progress_shown(Some("sometimes"), true));
    assert!(!progress_shown(Some("sometimes"), false));
}
