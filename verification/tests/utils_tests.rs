use fast_disambig::utils::{
    apply_diacritics, dediac_ar, is_punc, levenshtein, merge_tokens, normalize_ar, rewrite_caphi,
    rewrite_diac, simple_word_tokenize, split_and_replace_sep,
};

#[test]
fn tokenize_full_readme_example() {
    assert_eq!(
        simple_word_tokenize("Hello عالم 123!", "full"),
        vec!["Hello", " ", "عالم", " ", "123", "!"]
    );
    assert_eq!(
        simple_word_tokenize("والكتاب الجميل", "full"),
        vec!["والكتاب", " ", "الجميل"]
    );
}

#[test]
fn dediac_removes_marks() {
    assert_eq!(dediac_ar("وَالْكِتَابُ"), "والكتاب");
    assert_eq!(normalize_ar("أَحْمَد"), "احمد");
}

#[test]
fn punctuation_and_distance() {
    assert!(is_punc("!?"));
    assert!(!is_punc("a!"));
    assert_eq!(levenshtein("kitten", "sitting"), 3);
}

#[test]
fn segments_and_merge() {
    let toks = split_and_replace_sep("و+_ال+_كتاب", "[+]");
    assert_eq!(toks, vec!["و[+]", "ال[+]", "كتاب"]);
    assert_eq!(merge_tokens(&toks, "[+]"), "والكتاب");
    let d = apply_diacritics(&toks, "وَالْكِتَابُ", "[+]");
    assert_eq!(d, vec!["وَ[+]", "الْ[+]", "كِتَابُ"]);
}

#[test]
fn diac_and_caphi_rewrites() {
    assert_eq!(rewrite_diac("ا#+لشَّمْس"), "ال\u{651}ش\u{64e}\u{651}م\u{652}س");
    assert_eq!(rewrite_caphi("b_a_b"), "b_a_b");
}

#[test]
fn hash_and_sizes() {
    assert_eq!(
        fast_disambig::utils::hash(b"abc"),
        "ba7816bf8f01cfea414140de5dae2223b00361a396177a9cb410ff61f20015ad"
    );
    assert_eq!(fast_disambig::utils::bytes_to_mib_human_readable(3 * 1048576 + 5), "3 MB");
    assert_eq!(fast_disambig::utils::bytes_to_mib_human_readable(1048575), "0 MB");
}
