use fast_disambig::analyzer::{analyze, analyze_words, feature_keys, merge_features, AnalyzeError, ScoredAnalysis};
use fast_disambig::morphology_db::MorphologyDB;
use fast_disambig::noan_stemmer;
use fast_disambig::stemmer::AnalysisCache;

const DB: &str = "###DEFINES###\n\
DEFINE diac diac:*open*\n\
DEFINE bw bw:*open*\n\
DEFINE pos pos:noun pos:verb\n\
###STEMBACKOFF###\n\
STEMBACKOFF PROP NP\n\
###DEFAULTS###\n\
DEFAULT pos:digit\n\
DEFAULT pos:punc\n\
DEFAULT pos:foreign\n\
###PREFIXES###\n\
\tPref-0\tdiac: bw:\n\
و\tPref-Wa\tdiac:وَ bw:wa/CONJ prc2:wa_conj\n\
###SUFFIXES###\n\
\tSuff-0\tdiac: bw:\n\
###STEMS###\n\
كتاب\tN\tdiac:كِتاب bw:kitAb/NOUN pos:noun lex:كِتاب_1\n\
NOAN\tNP\tdiac:NOAN bw:NOAN/NOUN_PROP pos:noun_prop lex:NOAN\n\
###TABLE AB###\n\
Pref-0 N\n\
Pref-Wa N\n\
Pref-0 NP\n\
###TABLE BC###\n\
N Suff-0\n\
NP Suff-0\n\
###TABLE AC###\n\
Pref-0 Suff-0\n\
Pref-Wa Suff-0\n";

fn db() -> MorphologyDB {
    MorphologyDB::load(DB, &[], &[], &[]).unwrap()
}

#[test]
fn analyze_splits_prefix_stem_suffix() {
    let db = db();
    let analyses = analyze("وكتاب", &db, false, "NOAN_PROP").unwrap();
    assert_eq!(analyses.len(), 1);
    let a = &analyses[0];
    assert_eq!(a.bw, "wa/CONJ+kitAb/NOUN");
    assert_eq!(a.stem, "كِتاب");
    assert_eq!(a.lex, "كِتاب");
    assert_eq!(a.prc2, "wa_conj");
    assert_eq!(a.pos, "noun");
    assert_eq!(a.category, "N");
    let plain = analyze("كتاب", &db, false, "NOAN_PROP").unwrap();
    assert_eq!(plain.len(), 1);
    assert_eq!(plain[0].bw, "kitAb/NOUN");
}

#[test]
fn analyze_handles_digits_and_punctuation() {
    let db = db();
    let d = analyze("123", &db, false, "NOAN_PROP").unwrap();
    assert_eq!(d.len(), 1);
    assert_eq!(d[0].diac, "123");
    assert_eq!(d[0].source, "digit");
    assert_eq!(d[0].root, "DIGIT");
    assert_eq!(d[0].pos_logprob, "-99");
    assert_eq!(d[0].d3tok, "123");
    let p = analyze("!!", &db, false, "NOAN_PROP").unwrap();
    assert_eq!(p.len(), 1);
    assert_eq!(p[0].source, "punc");
    assert!(analyze("   ", &db, false, "NOAN_PROP").unwrap().is_empty());
}

#[test]
fn analyze_backs_off_to_proper_nouns() {
    let db = db();
    let b = analyze("زيد", &db, false, "NOAN_PROP").unwrap();
    assert!(!b.is_empty());
    assert!(b.iter().all(|a| a.pos == "noun_prop"));
    assert!(b.iter().any(|a| a.diac == "زيد" && a.bw == "زيد/NOUN_PROP" && a.source == "backoff"));
    assert!(analyze("زيد", &db, false, "NONE_PROP").unwrap().is_empty());
}

#[test]
fn analyze_reports_errors() {
    let db = db();
    assert_eq!(analyze("كتاب", &db, false, "NOAN").err(), Some(AnalyzeError::InvalidBackoff));
    assert_eq!(analyze("زيد", &db, false, "NOAN_OTHER").err(), Some(AnalyzeError::UnknownBackoffAction));
    let empty = MorphologyDB::new();
    assert_eq!(analyze("123", &empty, false, "NOAN_PROP").err(), Some(AnalyzeError::MissingDefault));
}

#[test]
fn analyze_words_keeps_one_list_per_word() {
    let db = db();
    let all = analyze_words(&["وكتاب", "123", "كتاب"], &db).unwrap();
    assert_eq!(all.len(), 3);
    assert_eq!(all[1][0].source, "digit");
}

#[test]
fn merge_features_joins_and_overrides() {
    let db = db();
    let mut p = ScoredAnalysis::default();
    p.bw = "wa/CONJ".into();
    p.prc2 = "wa_conj".into();
    let mut s = ScoredAnalysis::default();
    s.bw = "kitAb/NOUN".into();
    s.prc2 = "0".into();
    s.pos = "noun".into();
    s.diac = "كِتاب".into();
    let x = ScoredAnalysis::default();
    let m = merge_features(&db, &p, &s, &x, "+", "AF");
    assert_eq!(m.bw, "wa/CONJ+kitAb/NOUN");
    assert_eq!(m.prc2, "wa_conj");
    assert_eq!(m.pos, "noun");
    assert_eq!(m.stem, "كِتاب");
}

#[test]
fn fields_are_read_by_name() {
    let mut a = ScoredAnalysis::default();
    a.gen_ = "m".into();
    a.mod_ = "i".into();
    assert_eq!(a.get_field("gen").unwrap(), "m");
    assert_eq!(a.get_field("mod").unwrap(), "i");
    assert_eq!(a.get_field("score"), None);
    assert_eq!(feature_keys().len(), 43);
    assert!(feature_keys().iter().all(|k| a.get_field(k).is_some()));
}

#[test]
fn noan_words_are_cut_by_the_lists() {
    let mut cache = AnalysisCache::new();
    let mut noan = ScoredAnalysis::default();
    noan.d3tok = "NOAN".into();
    let mut uncut = ScoredAnalysis::default();
    uncut.d3tok = String::new();
    cache.insert("المكتبة".to_string(), vec![uncut]);
    cache.insert("الكتاب".to_string(), vec![noan.duplicate()]);
    cache.insert("مدرس".to_string(), vec![noan.duplicate()]);
    let mut cut = ScoredAnalysis::default();
    cut.d3tok = "و+_كتاب".into();
    cache.insert("وكتاب".to_string(), vec![cut]);
    let out = noan_stemmer::stem(
        "الكتاب مدرس وكتاب بيت",
        &cache,
        "[+]",
        "d3tok",
        false,
        &[],
        &["المكتبة"],
        &["الكتاب"],
        &["مدرسة"],
    );
    assert_eq!(out, "ال[+]كتاب مدرس و[+]كتاب بيت");
    let out = noan_stemmer::stem("المكتبة", &cache, "[+]", "d3tok", false, &[], &["المكتبة"], &[], &[]);
    assert_eq!(out, "ال[+]مكتب[+]ة");
    let mut noan_ta = AnalysisCache::new();
    noan_ta.insert("المكتبة".to_string(), vec![noan.duplicate()]);
    let out = noan_stemmer::stem("المكتبة", &noan_ta, "[+]", "d3tok", false, &[], &["المكتبة"], &[], &[]);
    assert_eq!(out, "المكتبة");
}

const READINGS_DB: &str = "###DEFINES###\n\
DEFINE diac diac:*open*\n\
DEFINE bw bw:*open*\n\
DEFINE pos pos:noun pos:verb\n\
###STEMBACKOFF###\n\
STEMBACKOFF PROP NP\n\
###DEFAULTS###\n\
DEFAULT pos:digit\n\
###PREFIXES###\n\
\tPref-0\tdiac: bw:\n\
و\tPref-Wa\tdiac:وَ bw:wa/CONJ\n\
###SUFFIXES###\n\
\tSuff-0\tdiac: bw:\n\
###STEMS###\n\
كتاب\tN\tdiac:كِتاب bw:kitAb/NOUN pos:noun\n\
كتاب\tV\tdiac:كَتّاب bw:kat~Ab/NOUN pos:noun\n\
كتاب\tX\tdiac:كُتّاب bw:kut~Ab/NOUN pos:noun\n\
###TABLE AB###\n\
Pref-0 N\n\
Pref-Wa N\n\
Pref-Wa V\n\
###TABLE BC###\n\
N Suff-0\n\
V Suff-0\n\
X Suff-0\n\
###TABLE AC###\n\
Pref-0 Suff-0\n\
Pref-Wa Suff-0\n";

#[test]
fn analyses_are_one_per_allowed_reading() {
    let db = MorphologyDB::load(READINGS_DB, &[], &[], &[]).unwrap();
    // With the prefix: two stems combine with it, the third does not.
    let with_prefix = analyze("وكتاب", &db, false, "NONE_PROP").unwrap();
    let cats: Vec<&str> = with_prefix.iter().map(|a| a.stemcat.as_str()).collect();
    assert_eq!(cats, vec!["N", "V"]);
    // Without it only the stem that the empty prefix takes.
    let plain = analyze("كتاب", &db, false, "NONE_PROP").unwrap();
    let cats: Vec<&str> = plain.iter().map(|a| a.stemcat.as_str()).collect();
    assert_eq!(cats, vec!["N"]);
}

#[test]
fn noan_stemming_with_an_empty_separator() {
    let mut cache = AnalysisCache::new();
    let mut cut = ScoredAnalysis::default();
    cut.d3tok = "و+_كتاب".into();
    cache.insert("وكتاب".to_string(), vec![cut]);
    assert!(noan_stemmer::stem_accepts("وكتاب", &cache, "", "d3tok", true, &[], &[], &[], &[]));
    assert_eq!(noan_stemmer::stem("وكتاب", &cache, "", "d3tok", true, &[], &[], &[], &[]), "وكتاب");
    assert!(!noan_stemmer::stem_accepts("وَكِتَاب", &cache, "", "d3tok", true, &[], &[], &[], &[]));
    assert!(noan_stemmer::stem_accepts("وَكِتَاب", &cache, "[+]", "d3tok", true, &[], &[], &[], &[]));
}
