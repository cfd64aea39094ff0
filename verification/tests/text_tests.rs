use fast_disambig::analyzer::{combine_analyses, combine_backoff_analyses, ScoredAnalysis};
use fast_disambig::morphology_db::MorphologyDB;
use fast_disambig::utils::{
    apply_override, has_diacritics, has_punc, is_ar, is_diacritic, is_digit, is_strict_digit, join_non_empty,
    merge_alef_lam, normalize_alef_ar, normalize_alef_maksura_ar, normalize_tanwyn, normalize_teh_marbuta_ar,
    pick_override, replace_noan, rewrite_pattern, rewrite_tok_1, rewrite_tok_2, simple_ar_to_caphi,
    split_token_on_t, strip_lex,
};

fn strings(v: &[&str]) -> Vec<String> {
    v.iter().map(|s| s.to_string()).collect()
}

#[test]
fn normalizers_each_do_one_thing() {
    assert_eq!(normalize_alef_ar("أحمد إلى آخر ٱلكتاب"), "احمد الى اخر الكتاب");
    assert_eq!(normalize_alef_maksura_ar("على"), "علي");
    assert_eq!(normalize_teh_marbuta_ar("مدرسة"), "مدرسه");
    assert_eq!(normalize_tanwyn("كتاباً", "AF"), "كتاباً");
    assert_eq!(normalize_tanwyn("كتابًا", "FA"), "كتابًا");
}

#[test]
fn character_tests() {
    assert!(is_diacritic('\u{064E}'));
    assert!(is_diacritic('\u{0670}'));
    assert!(!is_diacritic('ب'));
    assert!(has_diacritics("كِتاب"));
    assert!(!has_diacritics("كتاب"));
    assert!(is_digit("a1b"));
    assert!(is_digit("٣"));
    assert!(!is_digit("abc"));
    assert!(is_strict_digit("١٢٣"));
    assert!(!is_strict_digit("12a"));
    assert!(!is_strict_digit(""));
    assert!(has_punc("a!b"));
    assert!(!has_punc("ab"));
    assert!(is_ar("كِتاب"));
    assert!(!is_ar("kitab"));
    assert!(!is_ar(""));
}

#[test]
fn caphi_of_a_word() {
    assert_eq!(simple_ar_to_caphi("باب"), "b_aa_b");
    assert_eq!(simple_ar_to_caphi("اب"), "2_b");
    assert_eq!(simple_ar_to_caphi("xب"), "b");
}

#[test]
fn rewrites_of_forms() {
    assert_eq!(rewrite_pattern("ا#+ل"), "ال");
    assert_eq!(rewrite_tok_2("كا\u{064E}ة"), "كاة");
    assert_eq!(rewrite_tok_1("ا#+لشمس"), "ال\u{0651}شمس");
    assert_eq!(rewrite_tok_1("ا#+بيت"), "ابيت");
    assert_eq!(replace_noan("NOAN/NOUN_PROP", "زيد"), "زيد/NOUN_PROP");
    assert_eq!(strip_lex("كِتاب_1"), "كِتاب");
    assert_eq!(strip_lex("a-b_c"), "a");
    assert_eq!(strip_lex("plain"), "plain");
}

#[test]
fn joining_and_overriding() {
    assert_eq!(join_non_empty(&["a", "", "b", ""], "+"), "a+b");
    assert_eq!(join_non_empty(&["", ""], "+"), "");
    assert_eq!(pick_override("x", "-"), "x");
    assert_eq!(pick_override("x", ""), "x");
    assert_eq!(pick_override("x", "y"), "y");
    let mut f = "x".to_string();
    apply_override(&mut f, "-");
    assert_eq!(f, "x");
    apply_override(&mut f, "y");
    assert_eq!(f, "y");
}

#[test]
fn teh_marbuta_and_article_segments() {
    assert_eq!(split_token_on_t(strings(&["مدرسة"]), "+"), strings(&["مدرس", "+ة"]));
    assert_eq!(split_token_on_t(strings(&["ه"]), "+"), strings(&["+ة"]));
    assert_eq!(split_token_on_t(strings(&["كتاب"]), "+"), strings(&["كتاب"]));
    assert_eq!(merge_alef_lam(strings(&["ل+", "ال+", "بيت"]), "+"), strings(&["لل+", "بيت"]));
    assert_eq!(merge_alef_lam(strings(&["و+", "ال+", "بيت"]), "+"), strings(&["و+", "ال+", "بيت"]));
}

fn entry(cat: &str, bw: &str) -> ScoredAnalysis {
    let mut a = ScoredAnalysis::default();
    a.category = cat.to_string();
    a.bw = bw.to_string();
    a
}

#[test]
fn combinations_follow_the_tables() {
    let db = MorphologyDB::load(
        "###DEFINES###\nDEFINE bw bw:*open*\n###TABLE AB###\nP N\n###TABLE BC###\nN S\n###TABLE AC###\nP S\n",
        &[],
        &[],
        &[],
    )
    .unwrap();
    let p = vec![entry("P", "p"), entry("Q", "q")];
    let s = vec![entry("N", "n"), entry("M", "m")];
    let x = vec![entry("S", "s")];
    let c = combine_analyses("word", &db, &p, &s, &x);
    assert_eq!(c.len(), 1);
    assert_eq!(c[0].bw, "p+n+s");
    let noan = vec![entry("N", "NOAN/NOUN_PROP"), entry("N", "NOAN/NOUN")];
    let b = combine_backoff_analyses("زيد", &db, &p, &noan, &x, "PROP");
    assert_eq!(b.len(), 1);
    assert_eq!(b[0].bw, "p+زيد/NOUN_PROP+s");
    assert_eq!(b[0].source, "backoff");
    assert_eq!(b[0].stemcat, "N");
    let all = combine_backoff_analyses("زيد", &db, &p, &noan, &x, "ALL");
    assert_eq!(all.len(), 2);
}

#[test]
fn analysis_setters() {
    let mut a = ScoredAnalysis::default();
    a.set_tok_all("t");
    assert_eq!((a.d1seg.as_str(), a.bwtok.as_str(), a.d3tok.as_str()), ("t", "t", "t"));
    a.set_lex_feats_all("DIGIT");
    assert_eq!((a.root.as_str(), a.pattern.as_str(), a.caphi.as_str()), ("DIGIT", "DIGIT", "DIGIT"));
    a.set_logprobs_all("-99");
    assert_eq!(a.lex_logprob, "-99");
}
