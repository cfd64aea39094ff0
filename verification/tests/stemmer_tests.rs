use fast_disambig::analyzer::ScoredAnalysis;
use fast_disambig::stemmer::{cache_keys, stem, stem_tagged, AnalysisCache, Piece};

fn analysis(d3tok: &str, ud: &str, pos: &str) -> ScoredAnalysis {
    let mut a = ScoredAnalysis::default();
    a.d3tok = d3tok.to_string();
    a.d3seg = d3tok.to_string();
    a.ud = ud.to_string();
    a.pos = pos.to_string();
    a
}

fn readme_cache() -> AnalysisCache {
    let mut cache = AnalysisCache::new();
    cache.insert("والكتاب".to_string(), vec![analysis("و+_ال+_كتاب", "CCONJ+NOUN", "noun")]);
    cache.insert("الجميل".to_string(), vec![analysis("ال+_جميل", "NOUN", "noun")]);
    cache
}

fn texts(pieces: &[Piece]) -> String {
    pieces.iter().map(|p| p.text.as_str()).collect()
}

#[test]
fn stem_readme_examples() {
    let cache = readme_cache();
    assert_eq!(stem("والكتاب الجميل", &cache, "[+]", "d3tok", false, &[]), "و[+]ال[+]كتاب ال[+]جميل");
    assert_eq!(stem("والكتاب الجميل", &cache, "_", "d3tok", false, &[]), "و_ال_كتاب ال_جميل");
    assert_eq!(stem("والكتاب الجميل", &cache, "[+]", "d3seg", false, &[]), "و[+]ال[+]كتاب ال[+]جميل");
    assert_eq!(
        stem("والكتاب الجميل", &cache, "[+]", "bwtok", false, &["d3seg", "bwtok"]),
        "و[+]ال[+]كتاب ال[+]جميل"
    );
}

#[test]
fn stem_preserves_diacritics() {
    let cache = readme_cache();
    assert_eq!(
        stem("وَالْكِتَابُ الْجَمِيلُ", &cache, "[+]", "d3tok", true, &[]),
        "وَ[+]الْ[+]كِتَابُ الْ[+]جَمِيلُ"
    );
}

#[test]
fn stem_tagged_readme_example() {
    let cache = readme_cache();
    let pieces = stem_tagged("والكتاب الجميل", &cache, "[+]", "d3tok", false, &[]);
    let got: Vec<(&str, &str, &str)> =
        pieces.iter().map(|p| (p.text.as_str(), p.ud.as_str(), p.pos.as_str())).collect();
    assert_eq!(
        got,
        vec![
            ("و", "CCONJ", "noun"),
            ("[+]", "SPEC_TOK", "noun"),
            ("ال", "NOUN", "noun"),
            ("[+]", "SPEC_TOK", "noun"),
            ("كتاب", "NOUN", "noun"),
            (" ", "UNK", "UNK"),
            ("ال", "NOUN", "noun"),
            ("[+]", "SPEC_TOK", "noun"),
            ("جميل", "NOUN", "noun"),
        ]
    );
    assert_eq!(texts(&pieces), stem("والكتاب الجميل", &cache, "[+]", "d3tok", false, &[]));
}

#[test]
fn stem_tagged_spells_stem_on_mixed_text() {
    let cache = readme_cache();
    let text = "والكتاب، الجميل! foo  ٣";
    let pieces = stem_tagged(text, &cache, "[+]", "d3tok", false, &[]);
    assert_eq!(texts(&pieces), stem(text, &cache, "[+]", "d3tok", false, &[]));
    assert!(pieces.iter().any(|p| p.text == "!" && p.ud == "PUNCT" && p.pos == "punc"));
    assert!(pieces.iter().any(|p| p.text == "،" && p.ud == "UNK" && p.pos == "UNK"));
    assert!(pieces.iter().any(|p| p.text == "foo" && p.ud == "UNK" && p.pos == "UNK"));
}

#[test]
fn stem_keeps_words_without_analysis_or_cut() {
    let mut cache = AnalysisCache::new();
    cache.insert("كتاب".to_string(), vec![analysis("كتاب", "NOUN", "noun")]);
    cache.insert("قلم".to_string(), vec![analysis("NOAN", "X+NOUN", "noun")]);
    assert_eq!(stem("كتاب قلم بيت", &cache, "[+]", "d3tok", false, &[]), "كتاب قلم بيت");
    let pieces = stem_tagged("كتاب قلم", &cache, "[+]", "d3tok", false, &[]);
    assert_eq!(pieces[0].ud, "NOUN");
    assert_eq!(pieces[2].ud, "X");
}

#[test]
fn stem_drops_tatweel_and_zero_width() {
    let cache = readme_cache();
    assert_eq!(stem("والكـتاب\u{200B} الجميل", &cache, "[+]", "d3tok", false, &[]), "و[+]ال[+]كتاب ال[+]جميل");
}

#[test]
fn cache_keys_are_dediacritized_and_unique() {
    assert_eq!(cache_keys("وَالْكِتَابُ والكتاب! الجميل"), vec!["والكتاب", "الجميل"]);
    assert_eq!(cache_keys("والكتاب، الجميل"), vec!["والكتاب", "،", "الجميل"]);
    assert_eq!(cache_keys("!! ..."), Vec::<String>::new());
}

#[test]
fn cache_missing_and_prune() {
    let mut cache = readme_cache();
    let keys = vec!["والكتاب".to_string(), "بيت".to_string()];
    assert_eq!(cache.missing(&keys), vec!["بيت"]);
    assert_eq!(cache.len(), 2);
    cache.prune(5);
    assert_eq!(cache.len(), 2);
    cache.prune(0);
    assert_eq!(cache.len(), 2);
    cache.prune(1);
    assert_eq!(cache.len(), 0);
    assert!(!cache.contains("والكتاب"));
}
