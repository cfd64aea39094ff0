use fast_disambig::analyzer::ScoredAnalysis;
use fast_disambig::mle::{distance_parts, feature_matches};
use fast_disambig::options::{
    analyzer_config, disambiguate_config, model_config, stemmer_config, AnalyzerOptions, DisambiguateOptions,
    MleOptions, ResolvedStemOptions, StemOptions, StemmerOptions,
};

#[test]
fn configs_fill_in_defaults() {
    assert_eq!(stemmer_config(None), ("calima-msa-r13".to_string(), 100_000, true));
    assert_eq!(
        stemmer_config(Some(StemmerOptions { name: Some("x".into()), cache_size: Some(3), allow_download: Some(false) })),
        ("x".to_string(), 3, false)
    );
    assert_eq!(model_config(None), ("calima-msa-r13".to_string(), true));
    assert_eq!(model_config(Some(MleOptions { name: None, allow_download: Some(false) })), ("calima-msa-r13".to_string(), false));
    assert_eq!(disambiguate_config(None), ("NOAN_PROP".to_string(), 1));
    assert_eq!(disambiguate_config(Some(DisambiguateOptions { backoff: Some("NONE".into()), top: Some(5) })), ("NONE".to_string(), 5));
    assert_eq!(analyzer_config(None), ("calima-msa-r13".to_string(), "NOAN_PROP".to_string(), false, true));
    assert_eq!(
        analyzer_config(Some(AnalyzerOptions { name: None, backoff: None, strict_digit: Some(true), allow_download: None })),
        ("calima-msa-r13".to_string(), "NOAN_PROP".to_string(), true, true)
    );
}

#[test]
fn stem_options_fill_in_defaults() {
    let r = ResolvedStemOptions::from_options(None);
    assert_eq!((r.sep.as_str(), r.scheme.as_str(), r.preserve_diacritics, r.backoff.as_str()), ("[+]", "d3tok", false, "NOAN_PROP"));
    assert!(r.fallback.is_empty());
    let r = ResolvedStemOptions::from_options(Some(StemOptions {
        sep: Some("_".into()),
        scheme: None,
        preserve_diacritics: Some(true),
        backoff: None,
        fallback: Some(vec!["d3seg".into()]),
    }));
    assert_eq!((r.sep.as_str(), r.scheme.as_str(), r.preserve_diacritics), ("_", "d3tok", true));
    assert_eq!(r.fallback, vec!["d3seg".to_string()]);
}

#[test]
fn feature_agreement_counts_equal_features() {
    let mut a = ScoredAnalysis::default();
    let mut r = ScoredAnalysis::default();
    assert_eq!(feature_matches(&a, &r), 16);
    a.pos = "noun".into();
    r.pos = "verb".into();
    a.asp = "na".into();
    assert_eq!(feature_matches(&a, &r), 14);
    a.diac = "x".into();
    assert_eq!(feature_matches(&a, &r), 14);
}

#[test]
fn distance_parts_give_length_and_edits() {
    assert_eq!(distance_parts("kitten", "sitting"), (7, 3));
    assert_eq!(distance_parts("كتاب", "كتب"), (3, 1));
    assert_eq!(distance_parts("abc", ""), (0, 3));
}
