//! Text utilities for Arabic: dediacritization and normalization, character
//! tests, the rewriting of the database's diacritized and phonetic forms,
//! tokenization, and the splitting and merging of segmented tokens.
use vstd::prelude::*;

use crate::chars::{
    chars_occur_at, occurs_at,
    chars_ends_with, chars_eq, chars_of, chars_slice, chars_starts_with,
    copy_chars, extend_chars, string_of,
};
use crate::outside::{
    char_in_class, in_class, is_white_space, is_whitespace, regex_replace_all,
    regex_replace_outcome, sha256_digest, sha256_of,
};
use crate::text_rules::{
    concat_seqs, split_on,
    apply_char_rule, apply_diac_rule, apply_diac_rule_chars, apply_rule, decimal, dedup_chars,
    dedup_spec, hex_bytes, hex_of, is_diac, join_seqs, lemma_apply_rule_concat,
    lemma_join_push, lemma_replace_literal_identity, push_decimal, replace_literal,
    replace_literal_chars, CharRule, DiacRule, lemma_apply_rule_idempotent, lemma_apply_rule_single,
    rule_image,
};

verus! {

/// Teh marbuta.
pub const TAA_MARBOUTA: char = '\u{0629}';

/// The isolated presentation form of teh marbuta.
pub const TAA_MARBOUTA_DETACHED: char = '\u{FE93}';

/// Heh.
pub const HAA: char = '\u{0647}';

/// The regex class of punctuation and symbols.
pub const PUNC_SYM_CLASS: &'static str = "[\\p{P}\\p{S}]";

// ---------------------------------------------------------------------------
// Dediacritization and normalization

/// `s` without its diacritics and alef wasla.
pub open spec fn dediac(s: Seq<char>) -> Seq<char> {
    apply_rule(CharRule::DropMarks, s)
}

/// `s` dediacritized, with alef forms, alef maksura and teh marbuta normalized.
pub open spec fn normalize(s: Seq<char>) -> Seq<char> {
    apply_rule(
        CharRule::TehMarbutaToHa,
        apply_rule(CharRule::MaksuraToYa, apply_rule(CharRule::UnifyAlef, dediac(s))),
    )
}

/// Dediacritizing a dediacritized text changes nothing.
pub proof fn lemma_dediac_idempotent(s: Seq<char>)
    ensures
        dediac(dediac(s)) == dediac(s),
{
    lemma_apply_rule_idempotent(CharRule::DropMarks, s);
}

/// A short vowel, tanwin, shadda or sukun (U+064B to U+0652), the
/// superscript alef (U+0670) or the alef wasla (U+0671).
pub open spec fn diacritic_or_wasla(c: char) -> bool {
    ('\u{064B}' <= c && c <= '\u{0652}') || c == '\u{0670}' || c == '\u{0671}'
}

/// Dediacritizing leaves no diacritic and no alef wasla, keeps every other
/// character, in order, and works piece by piece: a text with none is left
/// as it is, and dediacritizing two texts one after the other is
/// dediacritizing each.
pub proof fn lemma_dediac_drops_exactly_the_marks(s: Seq<char>, t: Seq<char>)
    ensures
        forall|i: int| 0 <= i < dediac(s).len() ==> !diacritic_or_wasla(#[trigger] dediac(s)[i]),
        (forall|i: int| 0 <= i < s.len() ==> !diacritic_or_wasla(#[trigger] s[i])) ==> dediac(s) == s,
        dediac(s + t) == dediac(s) + dediac(t),
        dediac(s).len() <= s.len(),
    decreases s.len(),
{
    lemma_apply_rule_concat(CharRule::DropMarks, s, t);
    if s.len() > 0 {
        let a = s.drop_last();
        let c = s.last();
        lemma_dediac_drops_exactly_the_marks(a, t);
        let da = dediac(a);
        let img = rule_image(CharRule::DropMarks, c);
        assert(dediac(s) == da + img);
        assert forall|i: int| 0 <= i < dediac(s).len() implies !diacritic_or_wasla(#[trigger] dediac(s)[i]) by {
            if i < da.len() {
                assert(dediac(s)[i] == da[i]);
            } else {
                assert(dediac(s)[i] == img[i - da.len()]);
            }
        }
        if forall|i: int| 0 <= i < s.len() ==> !diacritic_or_wasla(#[trigger] s[i]) {
            assert forall|i: int| 0 <= i < a.len() implies !diacritic_or_wasla(#[trigger] a[i]) by {
                assert(a[i] == s[i]);
            }
            assert(!diacritic_or_wasla(s[s.len() - 1]));
            assert(da == a);
            assert(a + seq![c] =~= s);
        }
    }
}

/// Normalizing two texts one after the other is normalizing each.
pub proof fn lemma_normalize_concat(a: Seq<char>, b: Seq<char>)
    ensures
        normalize(a + b) == normalize(a) + normalize(b),
{
    lemma_apply_rule_concat(CharRule::DropMarks, a, b);
    lemma_apply_rule_concat(CharRule::UnifyAlef, dediac(a), dediac(b));
    lemma_apply_rule_concat(
        CharRule::MaksuraToYa,
        apply_rule(CharRule::UnifyAlef, dediac(a)),
        apply_rule(CharRule::UnifyAlef, dediac(b)),
    );
    lemma_apply_rule_concat(
        CharRule::TehMarbutaToHa,
        apply_rule(CharRule::MaksuraToYa, apply_rule(CharRule::UnifyAlef, dediac(a))),
        apply_rule(CharRule::MaksuraToYa, apply_rule(CharRule::UnifyAlef, dediac(b))),
    );
}

/// What normalization makes of each character: a diacritic or the alef
/// wasla is dropped; alef with hamza below or above and alef with madda
/// become the bare alef; alef maksura becomes yeh; teh marbuta becomes heh;
/// any other character stays.
pub proof fn lemma_normalize_each_char(c: char)
    ensures
        normalize(seq![c]) == if diacritic_or_wasla(c) {
            seq![]
        } else if c == '\u{0625}' || c == '\u{0623}' || c == '\u{0622}' {
            seq!['\u{0627}']
        } else if c == '\u{0649}' {
            seq!['\u{064A}']
        } else if c == '\u{0629}' {
            seq!['\u{0647}']
        } else {
            seq![c]
        },
{
    lemma_apply_rule_single(CharRule::DropMarks, c);
    let d = rule_image(CharRule::DropMarks, c);
    if d.len() == 0 {
        assert(apply_rule(CharRule::UnifyAlef, d) =~= Seq::<char>::empty());
        assert(apply_rule(CharRule::MaksuraToYa, Seq::<char>::empty()) =~= Seq::<char>::empty());
        assert(apply_rule(CharRule::TehMarbutaToHa, Seq::<char>::empty()) =~= Seq::<char>::empty());
        assert(normalize(seq![c]) =~= Seq::<char>::empty());
    } else {
        assert(d =~= seq![c]);
        lemma_apply_rule_single(CharRule::UnifyAlef, c);
        let u = rule_image(CharRule::UnifyAlef, c)[0];
        assert(rule_image(CharRule::UnifyAlef, c) =~= seq![u]);
        lemma_apply_rule_single(CharRule::MaksuraToYa, u);
        let m = rule_image(CharRule::MaksuraToYa, u)[0];
        assert(rule_image(CharRule::MaksuraToYa, u) =~= seq![m]);
        lemma_apply_rule_single(CharRule::TehMarbutaToHa, m);
        let t = rule_image(CharRule::TehMarbutaToHa, m)[0];
        assert(rule_image(CharRule::TehMarbutaToHa, m) =~= seq![t]);
        assert(normalize(seq![c]) =~= seq![t]);
    }
}

/// A normalized text holds no diacritic, alef wasla, alef with hamza or
/// madda, alef maksura or teh marbuta.
pub proof fn lemma_normalized_chars(s: Seq<char>)
    ensures
        forall|i: int|
            0 <= i < normalize(s).len() ==> {
                let c = #[trigger] normalize(s)[i];
                &&& !diacritic_or_wasla(c)
                &&& c != '\u{0625}' && c != '\u{0623}' && c != '\u{0622}'
                &&& c != '\u{0649}' && c != '\u{0629}'
            },
    decreases s.len(),
{
    if s.len() > 0 {
        let a = s.drop_last();
        let c = s.last();
        assert(s =~= a + seq![c]);
        lemma_normalize_concat(a, seq![c]);
        lemma_normalized_chars(a);
        lemma_normalize_each_char(c);
        let na = normalize(a);
        let nc = normalize(seq![c]);
        assert forall|i: int| 0 <= i < (na + nc).len() implies {
            let c = #[trigger] (na + nc)[i];
            &&& !diacritic_or_wasla(c)
            &&& c != '\u{0625}' && c != '\u{0623}' && c != '\u{0622}'
            &&& c != '\u{0649}' && c != '\u{0629}'
        } by {
            if i < na.len() {
                assert((na + nc)[i] == na[i]);
            } else {
                assert((na + nc)[i] == nc[i - na.len()]);
            }
        }
    } else {
        assert(normalize(s) =~= Seq::<char>::empty());
    }
}

/// What normalization makes of one character: nothing for a diacritic or
/// the alef wasla, else one character that normalization keeps.
proof fn lemma_normalize_char(c: char)
    ensures
        normalize(seq![c]).len() <= 1,
        normalize(normalize(seq![c])) == normalize(seq![c]),
{
    lemma_apply_rule_single(CharRule::DropMarks, c);
    let d = rule_image(CharRule::DropMarks, c);
    if d.len() == 0 {
        assert(apply_rule(CharRule::UnifyAlef, d) =~= Seq::<char>::empty());
        assert(apply_rule(CharRule::MaksuraToYa, Seq::<char>::empty()) =~= Seq::<char>::empty());
        assert(apply_rule(CharRule::TehMarbutaToHa, Seq::<char>::empty()) =~= Seq::<char>::empty());
        assert(normalize(seq![c]) =~= Seq::<char>::empty());
        assert(dediac(Seq::<char>::empty()) =~= Seq::<char>::empty());
    } else {
        assert(d =~= seq![c]);
        lemma_apply_rule_single(CharRule::UnifyAlef, c);
        let u = rule_image(CharRule::UnifyAlef, c)[0];
        assert(rule_image(CharRule::UnifyAlef, c) =~= seq![u]);
        lemma_apply_rule_single(CharRule::MaksuraToYa, u);
        let m = rule_image(CharRule::MaksuraToYa, u)[0];
        assert(rule_image(CharRule::MaksuraToYa, u) =~= seq![m]);
        lemma_apply_rule_single(CharRule::TehMarbutaToHa, m);
        let t = rule_image(CharRule::TehMarbutaToHa, m)[0];
        assert(rule_image(CharRule::TehMarbutaToHa, m) =~= seq![t]);
        assert(normalize(seq![c]) =~= seq![t]);
        lemma_apply_rule_single(CharRule::DropMarks, t);
        lemma_apply_rule_single(CharRule::UnifyAlef, t);
        lemma_apply_rule_single(CharRule::MaksuraToYa, t);
        lemma_apply_rule_single(CharRule::TehMarbutaToHa, t);
        assert(rule_image(CharRule::DropMarks, t) =~= seq![t]);
        assert(rule_image(CharRule::UnifyAlef, t) =~= seq![t]);
        assert(rule_image(CharRule::MaksuraToYa, t) =~= seq![t]);
        assert(rule_image(CharRule::TehMarbutaToHa, t) =~= seq![t]);
    }
}

/// Normalizing a normalized text changes nothing.
pub proof fn lemma_normalize_idempotent(s: Seq<char>)
    ensures
        normalize(normalize(s)) == normalize(s),
    decreases s.len(),
{
    if s.len() > 0 {
        let a = s.drop_last();
        let c = s.last();
        assert(s =~= a + seq![c]);
        lemma_normalize_concat(a, seq![c]);
        lemma_normalize_idempotent(a);
        lemma_normalize_char(c);
        lemma_normalize_concat(normalize(a), normalize(seq![c]));
    } else {
        assert(normalize(s) =~= Seq::<char>::empty());
    }
}

/// A normalized text holds no diacritic.
pub proof fn lemma_normalize_drops_diacritics(s: Seq<char>)
    ensures
        dediac(normalize(s)) == normalize(s),
    decreases s.len(),
{
    if s.len() > 0 {
        let a = s.drop_last();
        let c = s.last();
        assert(s =~= a + seq![c]);
        lemma_normalize_concat(a, seq![c]);
        lemma_normalize_drops_diacritics(a);
        lemma_normalize_char(c);
        lemma_apply_rule_concat(CharRule::DropMarks, normalize(a), normalize(seq![c]));
        let n = normalize(seq![c]);
        if n.len() == 1 {
            assert(n =~= seq![n[0]]);
            lemma_apply_rule_single(CharRule::DropMarks, n[0]);
        } else {
            assert(n =~= Seq::<char>::empty());
            assert(dediac(n) =~= Seq::<char>::empty());
        }
    } else {
        assert(normalize(s) =~= Seq::<char>::empty());
    }
}

/// Removes the diacritics (fathatan to sukun, superscript alef) and alef wasla.
pub fn dediac_ar(s: &str) -> (r: String)
    ensures
        r@ == dediac(s@),
{
    let cs = chars_of(s);
    let out = apply_char_rule(CharRule::DropMarks, &cs);
    string_of(&out)
}

/// The characters of a text before its first `_` or `-`, from position `i`.
pub open spec fn lex_cut(s: Seq<char>, i: int) -> int
    decreases s.len() - i,
{
    if i < 0 || i >= s.len() || s[i] == '_' || s[i] == '-' {
        i
    } else {
        lex_cut(s, i + 1)
    }
}

/// Strips a lexeme's sense index: the text before the first `_` or `-`.
pub fn strip_lex(s: &str) -> (r: String)
    ensures
        r@ == s@.take(lex_cut(s@, 0)),
{
    let cs = chars_of(s);
    let mut i: usize = 0;
    while i < cs.len() && cs[i] != '_' && cs[i] != '-'
        invariant
            i <= cs@.len(),
            lex_cut(cs@, 0) == lex_cut(cs@, i as int),
        decreases cs@.len() - i,
    {
        i += 1;
    }
    let out = chars_slice(&cs, 0, i);
    assert(out@ =~= cs@.take(i as int));
    string_of(&out)
}

/// Turns hamzated alefs, alef madda and alef wasla into the bare alef.
pub fn normalize_alef_ar(s: &str) -> (r: String)
    ensures
        r@ == apply_rule(CharRule::UnifyAlef, s@),
{
    let cs = chars_of(s);
    string_of(&apply_char_rule(CharRule::UnifyAlef, &cs))
}

/// Turns alef maksura into yeh.
pub fn normalize_alef_maksura_ar(s: &str) -> (r: String)
    ensures
        r@ == apply_rule(CharRule::MaksuraToYa, s@),
{
    let cs = chars_of(s);
    string_of(&apply_char_rule(CharRule::MaksuraToYa, &cs))
}

/// Turns teh marbuta into heh.
pub fn normalize_teh_marbuta_ar(s: &str) -> (r: String)
    ensures
        r@ == apply_rule(CharRule::TehMarbutaToHa, s@),
{
    let cs = chars_of(s);
    string_of(&apply_char_rule(CharRule::TehMarbutaToHa, &cs))
}

/// Dediacritizes, then normalizes alef forms, alef maksura and teh marbuta.
pub fn normalize_ar(s: &str) -> (r: String)
    ensures
        r@ == normalize(s@),
{
    let cs = chars_of(s);
    let a = apply_char_rule(CharRule::DropMarks, &cs);
    let b = apply_char_rule(CharRule::UnifyAlef, &a);
    let c = apply_char_rule(CharRule::MaksuraToYa, &b);
    let d = apply_char_rule(CharRule::TehMarbutaToHa, &c);
    string_of(&d)
}

// ---------------------------------------------------------------------------
// Character tests

/// A Western or Arabic-Indic digit.
pub open spec fn is_digit_char(c: char) -> bool {
    ('0' <= c && c <= '9') || ('\u{0660}' <= c && c <= '\u{0669}')
}

/// The letters and marks of the Arabic script that a word of the analyzer may hold.
pub open spec fn is_ar_char(c: char) -> bool {
    ||| ('\u{0621}' <= c && c <= '\u{063A}')
    ||| ('\u{0640}' <= c && c <= '\u{0652}')
    ||| c == '\u{0670}'
    ||| c == '\u{0671}'
    ||| c == '\u{067E}'
    ||| c == '\u{0686}'
    ||| c == '\u{06A4}'
    ||| c == '\u{06AF}'
}

/// A punctuation mark or symbol, as the regex class `[\p{P}\p{S}]` decides.
pub open spec fn is_punc_char(c: char) -> bool {
    in_class(PUNC_SYM_CLASS@, c)
}

/// A line that holds a digit (the regex `^.*[0-9\u{0660}-\u{0669}]+.*$`, whose
/// `.` does not match a line feed).
pub open spec fn digit_word(w: Seq<char>) -> bool {
    !w.contains('\n') && exists|i: int| 0 <= i < w.len() && is_digit_char(#[trigger] w[i])
}

/// A non-empty text of digits only.
pub open spec fn strict_digit_word(w: Seq<char>) -> bool {
    w.len() > 0 && forall|i: int| 0 <= i < w.len() ==> is_digit_char(#[trigger] w[i])
}

/// A non-empty text of punctuation marks and symbols only.
pub open spec fn punc_word(w: Seq<char>) -> bool {
    w.len() > 0 && forall|i: int| 0 <= i < w.len() ==> is_punc_char(#[trigger] w[i])
}

/// A non-empty text of Arabic letters and marks only.
pub open spec fn ar_word(w: Seq<char>) -> bool {
    w.len() > 0 && forall|i: int| 0 <= i < w.len() ==> is_ar_char(#[trigger] w[i])
}

/// Whether `c` is a diacritic.
pub fn is_diacritic(c: char) -> (r: bool)
    ensures
        r == is_diac(c),
{
    ('\u{064B}' <= c && c <= '\u{0652}') || c == '\u{0670}'
}

/// Whether `word` holds a diacritic.
pub fn has_diacritics(word: &str) -> (r: bool)
    ensures
        r == exists|i: int| 0 <= i < word@.len() && is_diac(#[trigger] word@[i]),
{
    let cs = chars_of(word);
    let mut i: usize = 0;
    while i < cs.len()
        invariant
            i <= cs@.len(),
            cs@ == word@,
            forall|j: int| 0 <= j < i ==> !is_diac(#[trigger] cs@[j]),
        decreases cs@.len() - i,
    {
        if is_diacritic(cs[i]) {
            return true;
        }
        i += 1;
    }
    false
}

/// Whether `word` is a line that holds a digit (the regex `^.*[0-9\u{0660}-\u{0669}]+.*$`,
/// whose `.` does not match a line feed).
pub fn is_digit(word: &str) -> (r: bool)
    ensures
        r == digit_word(word@),
{
    let cs = chars_of(word);
    let mut found = false;
    let mut i: usize = 0;
    while i < cs.len()
        invariant
            i <= cs@.len(),
            cs@ == word@,
            forall|j: int| 0 <= j < i ==> cs@[j] != '\n',
            found == exists|j: int| 0 <= j < i && is_digit_char(#[trigger] cs@[j]),
        decreases cs@.len() - i,
    {
        let c = cs[i];
        if c == '\n' {
            assert(word@[i as int] == '\n');
            return false;
        }
        if ('0' <= c && c <= '9') || ('\u{0660}' <= c && c <= '\u{0669}') {
            assert(is_digit_char(cs@[i as int]));
            found = true;
        }
        i += 1;
    }
    found
}

/// Whether `word` is non-empty and made of digits only.
pub fn is_strict_digit(word: &str) -> (r: bool)
    ensures
        r == strict_digit_word(word@),
{
    let cs = chars_of(word);
    if cs.len() == 0 {
        return false;
    }
    let mut i: usize = 0;
    while i < cs.len()
        invariant
            i <= cs@.len(),
            cs@ == word@,
            forall|j: int| 0 <= j < i ==> is_digit_char(#[trigger] cs@[j]),
        decreases cs@.len() - i,
    {
        let c = cs[i];
        if !(('0' <= c && c <= '9') || ('\u{0660}' <= c && c <= '\u{0669}')) {
            return false;
        }
        i += 1;
    }
    true
}

/// Whether `word` is non-empty and made of punctuation and symbols only.
pub fn is_punc(word: &str) -> (r: bool)
    ensures
        r == punc_word(word@),
        word@.len() > 0 && is_ar_char(word@[0]) ==> !r,
{
    let cs = chars_of(word);
    if cs.len() == 0 {
        return false;
    }
    let mut i: usize = 0;
    while i < cs.len()
        invariant
            i <= cs@.len(),
            cs@ == word@,
            forall|j: int| 0 <= j < i ==> is_punc_char(#[trigger] cs@[j]),
            i > 0 ==> !is_ar_char(cs@[0]),
        decreases cs@.len() - i,
    {
        if !char_in_class(PUNC_SYM_CLASS, cs[i]) {
            return false;
        }
        i += 1;
    }
    true
}

/// Whether `word` holds a punctuation mark or symbol.
pub fn has_punc(word: &str) -> (r: bool)
    ensures
        r == exists|i: int| 0 <= i < word@.len() && is_punc_char(#[trigger] word@[i]),
{
    let cs = chars_of(word);
    let mut i: usize = 0;
    while i < cs.len()
        invariant
            i <= cs@.len(),
            cs@ == word@,
            forall|j: int| 0 <= j < i ==> !is_punc_char(#[trigger] cs@[j]),
        decreases cs@.len() - i,
    {
        if char_in_class(PUNC_SYM_CLASS, cs[i]) {
            return true;
        }
        i += 1;
    }
    false
}

/// Whether `word` is non-empty and written in Arabic letters and marks only.
pub fn is_ar(word: &str) -> (r: bool)
    ensures
        r == ar_word(word@),
{
    let cs = chars_of(word);
    if cs.len() == 0 {
        return false;
    }
    let mut i: usize = 0;
    while i < cs.len()
        invariant
            i <= cs@.len(),
            cs@ == word@,
            forall|j: int| 0 <= j < i ==> is_ar_char(#[trigger] cs@[j]),
        decreases cs@.len() - i,
    {
        let c = cs[i];
        let ok = ('\u{0621}' <= c && c <= '\u{063A}') || ('\u{0640}' <= c && c <= '\u{0652}') || c
            == '\u{0670}' || c == '\u{0671}' || c == '\u{067E}' || c == '\u{0686}' || c == '\u{06A4}'
            || c == '\u{06AF}';
        if !ok {
            return false;
        }
        i += 1;
    }
    true
}


// ---------------------------------------------------------------------------
// Phonetic forms

/// The phonetic (CAPHI) symbols of an Arabic letter.
pub open spec fn caphi_of(c: char) -> Option<Seq<char>> {
    if c == '\u{0621}' {
        Some(seq!['2'])
    } else if c == '\u{0622}' {
        Some(seq!['2', '_', 'a', 'a'])
    } else if c == '\u{0623}' {
        Some(seq!['2'])
    } else if c == '\u{0624}' {
        Some(seq!['2'])
    } else if c == '\u{0625}' {
        Some(seq!['2'])
    } else if c == '\u{0626}' {
        Some(seq!['2'])
    } else if c == '\u{0627}' {
        Some(seq!['a', 'a'])
    } else if c == '\u{0628}' {
        Some(seq!['b'])
    } else if c == '\u{062A}' {
        Some(seq!['t'])
    } else if c == '\u{062B}' {
        Some(seq!['t', 'h'])
    } else if c == '\u{062C}' {
        Some(seq!['j'])
    } else if c == '\u{062D}' {
        Some(seq!['7'])
    } else if c == '\u{062E}' {
        Some(seq!['k', 'h'])
    } else if c == '\u{062F}' {
        Some(seq!['d'])
    } else if c == '\u{0630}' {
        Some(seq!['d', 'h'])
    } else if c == '\u{0631}' {
        Some(seq!['r'])
    } else if c == '\u{0632}' {
        Some(seq!['z'])
    } else if c == '\u{0633}' {
        Some(seq!['s'])
    } else if c == '\u{0634}' {
        Some(seq!['s', 'h'])
    } else if c == '\u{0635}' {
        Some(seq!['s', '.'])
    } else if c == '\u{0636}' {
        Some(seq!['d', '.'])
    } else if c == '\u{0637}' {
        Some(seq!['t', '.'])
    } else if c == '\u{0638}' {
        Some(seq!['d', 'h', '.'])
    } else if c == '\u{0639}' {
        Some(seq!['3'])
    } else if c == '\u{063A}' {
        Some(seq!['g', 'h'])
    } else if c == '\u{0641}' {
        Some(seq!['f'])
    } else if c == '\u{0642}' {
        Some(seq!['q'])
    } else if c == '\u{0643}' {
        Some(seq!['k'])
    } else if c == '\u{0644}' {
        Some(seq!['l'])
    } else if c == '\u{0645}' {
        Some(seq!['m'])
    } else if c == '\u{0646}' {
        Some(seq!['n'])
    } else if c == '\u{0647}' {
        Some(seq!['h'])
    } else if c == '\u{0648}' {
        Some(seq!['w'])
    } else if c == '\u{0649}' {
        Some(seq!['a', 'a'])
    } else if c == '\u{064A}' {
        Some(seq!['y'])
    } else {
        None
    }
}

/// The phonetic (CAPHI) symbols of an Arabic letter.
fn ar_to_caphi_char(c: char) -> (r: Option<Vec<char>>)
    ensures
        match r {
            Some(v) => caphi_of(c) == Some(v@),
            None => caphi_of(c) is None,
        },
{
    let v = match c {
        '\u{0621}' => vec!['2'],
        '\u{0622}' => vec!['2', '_', 'a', 'a'],
        '\u{0623}' => vec!['2'],
        '\u{0624}' => vec!['2'],
        '\u{0625}' => vec!['2'],
        '\u{0626}' => vec!['2'],
        '\u{0627}' => vec!['a', 'a'],
        '\u{0628}' => vec!['b'],
        '\u{062A}' => vec!['t'],
        '\u{062B}' => vec!['t', 'h'],
        '\u{062C}' => vec!['j'],
        '\u{062D}' => vec!['7'],
        '\u{062E}' => vec!['k', 'h'],
        '\u{062F}' => vec!['d'],
        '\u{0630}' => vec!['d', 'h'],
        '\u{0631}' => vec!['r'],
        '\u{0632}' => vec!['z'],
        '\u{0633}' => vec!['s'],
        '\u{0634}' => vec!['s', 'h'],
        '\u{0635}' => vec!['s', '.'],
        '\u{0636}' => vec!['d', '.'],
        '\u{0637}' => vec!['t', '.'],
        '\u{0638}' => vec!['d', 'h', '.'],
        '\u{0639}' => vec!['3'],
        '\u{063A}' => vec!['g', 'h'],
        '\u{0641}' => vec!['f'],
        '\u{0642}' => vec!['q'],
        '\u{0643}' => vec!['k'],
        '\u{0644}' => vec!['l'],
        '\u{0645}' => vec!['m'],
        '\u{0646}' => vec!['n'],
        '\u{0647}' => vec!['h'],
        '\u{0648}' => vec!['w'],
        '\u{0649}' => vec!['a', 'a'],
        '\u{064A}' => vec!['y'],
        _ => {
            return None;
        },
    };
    proof {
        assert(caphi_of(c) matches Some(x) && x =~= v@);
    }
    Some(v)
}

/// The phonetic symbols of the letters of `s` that have some, in order.
pub open spec fn caphi_parts(s: Seq<char>) -> Seq<Seq<char>>
    decreases s.len(),
{
    if s.len() == 0 {
        seq![]
    } else {
        let p = caphi_parts(s.drop_last());
        match caphi_of(s.last()) {
            Some(x) => p.push(x),
            None => p,
        }
    }
}

/// `s` with an initial bare alef read as alef with hamza above.
pub open spec fn initial_alef_hamza(s: Seq<char>) -> Seq<char> {
    if s.len() > 0 && s[0] == '\u{0627}' {
        s.update(0, '\u{0623}')
    } else {
        s
    }
}

/// The phonetic form of an Arabic word, letter by letter, joined with `_`.
pub fn simple_ar_to_caphi(ar_str: &str) -> (r: String)
    ensures
        r@ == join_seqs(caphi_parts(initial_alef_hamza(ar_str@)), seq!['_']),
{
    let mut cs = chars_of(ar_str);
    if cs.len() > 0 && cs[0] == '\u{0627}' {
        cs.set(0, '\u{0623}');
    }
    assert(cs@ =~= initial_alef_hamza(ar_str@));
    let ghost s = cs@;
    let mut out: Vec<char> = Vec::new();
    let mut any = false;
    let mut i: usize = 0;
    while i < cs.len()
        invariant
            cs@ == s,
            i <= s.len(),
            out@ == join_seqs(caphi_parts(s.take(i as int)), seq!['_']),
            any == (caphi_parts(s.take(i as int)).len() > 0),
        decreases s.len() - i,
    {
        assert(s.take(i + 1).drop_last() =~= s.take(i as int));
        let ghost prev = caphi_parts(s.take(i as int));
        match ar_to_caphi_char(cs[i]) {
            Some(v) => {
                proof {
                    lemma_join_push(prev, seq!['_'], v@);
                }
                if any {
                    out.push('_');
                }
                let ghost mid = out@;
                extend_chars(&mut out, &v);
                assert(any ==> out@ =~= join_seqs(prev, seq!['_']) + seq!['_'] + v@);
                assert(!any ==> out@ =~= v@);
                any = true;
            },
            None => {},
        }
        i += 1;
    }
    assert(s.take(s.len() as int) =~= s);
    string_of(&out)
}

/// The tanwin spelling is kept as it is written in either mode (`FA`, fathatan
/// then alef or alef maksura; any other mode, the letter then fathatan): each
/// spelling is rewritten to itself.
pub fn normalize_tanwyn(word: &str, mode: &str) -> (r: String)
    ensures
        r@ == word@,
{
    let w = chars_of(word);
    let fa = vec!['F', 'A'];
    let m = chars_of(mode);
    let out = if chars_eq(&m, &fa) {
        let p1 = vec!['\u{064B}', '\u{0627}'];
        let p2 = vec!['\u{064B}', '\u{0649}'];
        let a = replace_literal_chars(&w, &p1, &p1);
        let b = replace_literal_chars(&a, &p2, &p2);
        proof {
            lemma_replace_literal_identity(w@, p1@);
            lemma_replace_literal_identity(a@, p2@);
        }
        b
    } else {
        let p1 = vec!['\u{0627}', '\u{064B}'];
        let p2 = vec!['\u{0649}', '\u{064B}'];
        let a = replace_literal_chars(&w, &p1, &p1);
        let b = replace_literal_chars(&a, &p2, &p2);
        proof {
            lemma_replace_literal_identity(w@, p1@);
            lemma_replace_literal_identity(a@, p2@);
        }
        b
    };
    string_of(&out)
}

// ---------------------------------------------------------------------------
// The database's diacritized, segmented and pattern forms

/// The three diacritic rules, in order: doubled sun letters, dropped markers,
/// alef with fatha before teh.
pub open spec fn diac_rules(w: Seq<char>) -> Seq<char> {
    apply_diac_rule(
        DiacRule::AlefFatha,
        apply_diac_rule(DiacRule::DropMark, apply_diac_rule(DiacRule::ShaddaMark, w)),
    )
}

/// The diacritized form: the diacritic rules, alef wasla as alef, no `+`, no doubled shadda.
pub open spec fn rewritten_diac(w: Seq<char>) -> Seq<char> {
    dedup_spec(apply_rule(CharRule::DropPlus, apply_rule(CharRule::WaslaToAlef, diac_rules(w))), '\u{0651}')
}

/// Rewrites a diacritized form as the database spells it into plain text.
pub fn rewrite_diac(word: &str) -> (r: String)
    ensures
        r@ == rewritten_diac(word@),
{
    let w = chars_of(word);
    let a = apply_diac_rule_chars(DiacRule::ShaddaMark, &w);
    let b = apply_diac_rule_chars(DiacRule::DropMark, &a);
    let c = apply_diac_rule_chars(DiacRule::AlefFatha, &b);
    let d = apply_char_rule(CharRule::WaslaToAlef, &c);
    let e = apply_char_rule(CharRule::DropPlus, &d);
    let f = dedup_chars(&e, '\u{0651}');
    string_of(&f)
}

/// Rewrites a segmented form: the three diacritic rules.
pub fn rewrite_tok_1(word: &str) -> (r: String)
    ensures
        r@ == diac_rules(word@),
{
    let w = chars_of(word);
    let a = apply_diac_rule_chars(DiacRule::ShaddaMark, &w);
    let b = apply_diac_rule_chars(DiacRule::DropMark, &a);
    let c = apply_diac_rule_chars(DiacRule::AlefFatha, &b);
    string_of(&c)
}

/// Rewrites a `d3tok` form: alef with fatha before teh.
pub fn rewrite_tok_2(word: &str) -> (r: String)
    ensures
        r@ == apply_diac_rule(DiacRule::AlefFatha, word@),
{
    let w = chars_of(word);
    string_of(&apply_diac_rule_chars(DiacRule::AlefFatha, &w))
}

/// Rewrites a pattern: the `#` markers and the `+` after them are dropped.
pub fn rewrite_pattern(word: &str) -> (r: String)
    ensures
        r@ == apply_diac_rule(DiacRule::DropMark, word@),
{
    let w = chars_of(word);
    string_of(&apply_diac_rule_chars(DiacRule::DropMark, &w))
}

/// Fills the `NOAN` placeholders of a backoff stem with `replacement`.
pub fn replace_noan(s: &str, replacement: &str) -> (r: String)
    ensures
        r@ == replace_literal(s@, seq!['N', 'O', 'A', 'N'], replacement@),
{
    let t = chars_of(s);
    let p = vec!['N', 'O', 'A', 'N'];
    assert(p@ =~= seq!['N', 'O', 'A', 'N']);
    let rep = chars_of(replacement);
    string_of(&replace_literal_chars(&t, &p, &rep))
}

// The phonetic rewriting rules, as regexes and their replacements.
pub const CAPHI_GEMINATION: &'static str = r"(l-)\+(t\_|th\_|d\_|th\.\_|r\_|z\_|s\_|sh\_|s\.\_|d\.\_|t\.\_|dh\.\_|l\_|n\_|dh\_)";
pub const CAPHI_GEMINATION_REP: &'static str = "${2}${2}";
pub const CAPHI_SHADDA: &'static str = r"(\S)[-]*\+~";
pub const CAPHI_SHADDA_REP: &'static str = "${1}_${1}";
pub const CAPHI_LONG_I: &'static str = r"i\_y-\+([^iau]+|$)";
pub const CAPHI_LONG_I_REP: &'static str = "ii_${1}";
pub const CAPHI_LONG_U: &'static str = r"u\_w-\+([^iau]+|$)";
pub const CAPHI_LONG_U_REP: &'static str = "uu_${1}";
pub const CAPHI_VOWEL_HAMZA: &'static str = r"([iua])\+-2_[iua]";
pub const CAPHI_VOWEL_HAMZA_REP: &'static str = "${1}";
pub const CAPHI_HAMZA: &'static str = r"(.+)\+-2_([iua])";
pub const CAPHI_HAMZA_REP: &'static str = "${1}_${2}";
pub const CAPHI_UW: &'static str = r"u\+w(_+[^ioua])";
pub const CAPHI_UW_REP: &'static str = "uu${1}";
pub const CAPHI_TAA: &'static str = r"p-\+([iua])";
pub const CAPHI_TAA_REP: &'static str = "t_${1}";
pub const CAPHI_AA: &'static str = r"aa\+a[_]*";
pub const CAPHI_AA_REP: &'static str = "aa_";
pub const CAPHI_EDGES: &'static str = r"((^_+)|(_p?_*$))";
pub const CAPHI_EDGES_REP: &'static str = "";

/// One regex rewriting step: what `replace_all` gives, or the text as it was
/// when the pattern does not compile.
pub open spec fn regex_step(text: Seq<char>, pattern: Seq<char>, rep: Seq<char>) -> Seq<char> {
    match regex_replace_outcome(pattern, text, rep) {
        Some(r) => r,
        None => text,
    }
}

fn regex_step_exec(text: String, pattern: &str, rep: &str) -> (r: String)
    ensures
        r@ == regex_step(text@, pattern@, rep@),
{
    match regex_replace_all(pattern, text.as_str(), rep) {
        Some(s) => s,
        None => text,
    }
}

/// The nine phonetic rewriting rules, in order.
pub open spec fn caphi_rules(w: Seq<char>) -> Seq<char> {
    let a = regex_step(w, CAPHI_GEMINATION@, CAPHI_GEMINATION_REP@);
    let b = regex_step(a, CAPHI_SHADDA@, CAPHI_SHADDA_REP@);
    let c = regex_step(b, CAPHI_LONG_I@, CAPHI_LONG_I_REP@);
    let d = regex_step(c, CAPHI_LONG_U@, CAPHI_LONG_U_REP@);
    let e = regex_step(d, CAPHI_VOWEL_HAMZA@, CAPHI_VOWEL_HAMZA_REP@);
    let f = regex_step(e, CAPHI_HAMZA@, CAPHI_HAMZA_REP@);
    let g = regex_step(f, CAPHI_UW@, CAPHI_UW_REP@);
    let h = regex_step(g, CAPHI_TAA@, CAPHI_TAA_REP@);
    regex_step(h, CAPHI_AA@, CAPHI_AA_REP@)
}

/// `+` and `-` as `_`, and runs of `_` collapsed.
pub open spec fn caphi_separators_spec(s: Seq<char>) -> Seq<char> {
    dedup_spec(apply_rule(CharRule::MinusToUnderscore, apply_rule(CharRule::PlusToUnderscore, s)), '_')
}

/// The phonetic form as the rules leave it: every `+` and `-` becomes `_` and
/// runs of `_` are collapsed.
pub fn caphi_separators(s: &str) -> (r: String)
    ensures
        r@ == caphi_separators_spec(s@),
{
    let w = chars_of(s);
    let a = apply_char_rule(CharRule::PlusToUnderscore, &w);
    let b = apply_char_rule(CharRule::MinusToUnderscore, &a);
    string_of(&dedup_chars(&b, '_'))
}

/// Rewrites a phonetic form: the nine rules, the separators, then leading
/// and trailing `_` (and a final `_p`) dropped.
pub fn rewrite_caphi(word: &str) -> (r: String)
    ensures
        r@ == regex_step(caphi_separators_spec(caphi_rules(word@)), CAPHI_EDGES@, CAPHI_EDGES_REP@),
{
    let w = string_of(&chars_of(word));
    let a = regex_step_exec(w, CAPHI_GEMINATION, CAPHI_GEMINATION_REP);
    let b = regex_step_exec(a, CAPHI_SHADDA, CAPHI_SHADDA_REP);
    let c = regex_step_exec(b, CAPHI_LONG_I, CAPHI_LONG_I_REP);
    let d = regex_step_exec(c, CAPHI_LONG_U, CAPHI_LONG_U_REP);
    let e = regex_step_exec(d, CAPHI_VOWEL_HAMZA, CAPHI_VOWEL_HAMZA_REP);
    let f = regex_step_exec(e, CAPHI_HAMZA, CAPHI_HAMZA_REP);
    let g = regex_step_exec(f, CAPHI_UW, CAPHI_UW_REP);
    let h = regex_step_exec(g, CAPHI_TAA, CAPHI_TAA_REP);
    let i = regex_step_exec(h, CAPHI_AA, CAPHI_AA_REP);
    let j = caphi_separators(i.as_str());
    regex_step_exec(j, CAPHI_EDGES, CAPHI_EDGES_REP)
}

// ---------------------------------------------------------------------------
// Feature values

/// The views of a sequence of strings.
pub open spec fn str_views(parts: Seq<&str>) -> Seq<Seq<char>> {
    parts.map_values(|p: &str| p@)
}

/// The views of a sequence of owned strings.
pub open spec fn string_views(parts: Seq<String>) -> Seq<Seq<char>> {
    parts.map_values(|p: String| p@)
}

/// The non-empty parts, in order.
pub open spec fn nonempty_parts(ps: Seq<Seq<char>>) -> Seq<Seq<char>>
    decreases ps.len(),
{
    if ps.len() == 0 {
        seq![]
    } else {
        let p = nonempty_parts(ps.drop_last());
        if ps.last().len() > 0 {
            p.push(ps.last())
        } else {
            p
        }
    }
}

/// Joins the non-empty parts with `sep`.
pub fn join_non_empty(parts: &[&str], sep: &str) -> (r: String)
    ensures
        r@ == join_seqs(nonempty_parts(str_views(parts@)), sep@),
{
    let sepc = chars_of(sep);
    let ghost vs = str_views(parts@);
    let mut out: Vec<char> = Vec::new();
    let mut any = false;
    let mut i: usize = 0;
    while i < parts.len()
        invariant
            vs == str_views(parts@),
            sepc@ == sep@,
            i <= parts@.len(),
            out@ == join_seqs(nonempty_parts(vs.take(i as int)), sep@),
            any == (nonempty_parts(vs.take(i as int)).len() > 0),
        decreases parts@.len() - i,
    {
        assert(vs.take(i + 1).drop_last() =~= vs.take(i as int));
        assert(vs.take(i + 1).last() == parts@[i as int]@);
        let ghost prev = nonempty_parts(vs.take(i as int));
        let p = chars_of(parts[i]);
        if p.len() > 0 {
            proof {
                lemma_join_push(prev, sep@, p@);
            }
            if any {
                extend_chars(&mut out, &sepc);
            }
            extend_chars(&mut out, &p);
            assert(any ==> out@ =~= join_seqs(prev, sep@) + sep@ + p@);
            assert(!any ==> out@ =~= p@);
            any = true;
        }
        i += 1;
    }
    assert(vs.take(parts@.len() as int) =~= vs);
    string_of(&out)
}

/// The feature value that an affix's value overrides: the candidate unless it
/// is empty or `-`.
pub open spec fn overridden(base: Seq<char>, candidate: Seq<char>) -> Seq<char> {
    if candidate != seq!['-'] && candidate.len() > 0 {
        candidate
    } else {
        base
    }
}

/// Whether a candidate value overrides: it is neither empty nor `-`.
fn overrides(candidate: &str) -> (r: bool)
    ensures
        r == (candidate@ != seq!['-'] && candidate@.len() > 0),
{
    let c = chars_of(candidate);
    if c.len() == 0 {
        return false;
    }
    if c.len() == 1 && c[0] == '-' {
        assert(c@ =~= seq!['-']);
        return false;
    }
    assert(c@ != seq!['-']) by {
        if c@ == seq!['-'] {
            assert(c@.len() == 1 && c@[0] == '-');
        }
    }
    true
}

/// The candidate value when it overrides, else the base value.
pub fn pick_override<'a>(base: &'a str, candidate: &'a str) -> (r: &'a str)
    ensures
        r@ == overridden(base@, candidate@),
{
    if overrides(candidate) {
        candidate
    } else {
        base
    }
}

/// Sets `field` to the candidate value when it overrides.
pub fn apply_override(field: &mut String, candidate: &str)
    ensures
        final(field)@ == overridden(old(field)@, candidate@),
{
    if overrides(candidate) {
        *field = string_of(&chars_of(candidate));
    }
}

/// A byte count in whole mebibytes, as `N MB`.
pub fn bytes_to_mib_human_readable(num: usize) -> (r: String)
    ensures
        r@ == decimal((num / 1048576) as nat) + seq![' ', 'M', 'B'],
{
    let mut out: Vec<char> = Vec::new();
    push_decimal(&mut out, (num / 1048576) as u64);
    out.push(' ');
    out.push('M');
    out.push('B');
    assert(out@ =~= decimal((num / 1048576) as nat) + seq![' ', 'M', 'B']);
    string_of(&out)
}

/// The SHA-256 digest of the bytes, in lower-case hexadecimal.
pub fn hash(inp: &[u8]) -> (r: String)
    ensures
        r@ == hex_bytes(sha256_of(inp@)),
        r@.len() == 64,
{
    let d = sha256_digest(inp);
    let h = hex_of(&d);
    proof {
        lemma_hex_len(d@);
    }
    string_of(&h)
}

pub proof fn lemma_hex_len(b: Seq<u8>)
    ensures
        hex_bytes(b).len() == 2 * b.len(),
    decreases b.len(),
{
    if b.len() > 0 {
        lemma_hex_len(b.drop_last());
    }
}

// ---------------------------------------------------------------------------
// Segmented tokens

/// The views of a sequence of character vectors.
pub open spec fn vec_views(parts: Seq<Vec<char>>) -> Seq<Seq<char>> {
    parts.map_values(|p: Vec<char>| p@)
}

/// A piece of a segmented token with its `+` markers turned into `sep`: a
/// leading `+` becomes `sep`, and then a trailing `+` becomes `sep`.
pub open spec fn fix_part(p: Seq<char>, sep: Seq<char>) -> Seq<char> {
    let a = if p.len() > 0 && p[0] == '+' {
        sep + p.drop_first()
    } else {
        p
    };
    if a.len() > 0 && a.last() == '+' {
        a.drop_last() + sep
    } else {
        a
    }
}

fn fix_part_exec(p: &[char], sep: &[char]) -> (r: Vec<char>)
    ensures
        r@ == fix_part(p@, sep@),
{
    let a = if p.len() > 0 && p[0] == '+' {
        let mut a = copy_chars(sep);
        let rest = chars_slice(p, 1, p.len());
        extend_chars(&mut a, &rest);
        assert(rest@ =~= p@.drop_first());
        a
    } else {
        copy_chars(p)
    };
    if a.len() > 0 && a[a.len() - 1] == '+' {
        let mut b = chars_slice(&a, 0, a.len() - 1);
        assert(b@ =~= a@.drop_last());
        extend_chars(&mut b, sep);
        b
    } else {
        a
    }
}

/// Cuts `t` at every `c`.
pub fn split_chars(t: &[char], c: char) -> (r: Vec<Vec<char>>)
    ensures
        vec_views(r@) == split_on(t@, c),
{
    let mut parts: Vec<Vec<char>> = Vec::new();
    let mut cur: Vec<char> = Vec::new();
    let mut i: usize = 0;
    assert(t@.take(0) =~= Seq::<char>::empty());
    assert(vec_views(parts@).push(cur@) =~= seq![Seq::<char>::empty()]);
    while i < t.len()
        invariant
            i <= t@.len(),
            vec_views(parts@).push(cur@) == split_on(t@.take(i as int), c),
        decreases t@.len() - i,
    {
        assert(t@.take(i + 1).drop_last() =~= t@.take(i as int));
        let ghost prev = split_on(t@.take(i as int), c);
        let ghost pv = vec_views(parts@);
        if t[i] == c {
            parts.push(cur);
            cur = Vec::new();
            assert(vec_views(parts@) =~= pv.push(prev.last()));
            assert(vec_views(parts@).push(cur@) =~= prev.push(seq![]));
        } else {
            cur.push(t[i]);
            assert(vec_views(parts@) =~= pv);
            assert(vec_views(parts@).push(cur@) =~= prev.update(prev.len() - 1, prev.last().push(t@[i as int])));
        }
        i += 1;
    }
    assert(t@.take(t@.len() as int) =~= t@);
    let ghost pv = vec_views(parts@);
    parts.push(cur);
    assert(vec_views(parts@) =~= pv.push(cur@));
    parts
}

/// The pieces of a segmented token: cut at `_`, each with its `+` markers as `sep`.
pub fn split_and_replace_sep(tok: &str, sep: &str) -> (r: Vec<String>)
    ensures
        string_views(r@) == split_on(tok@, '_').map_values(|p: Seq<char>| fix_part(p, sep@)),
{
    let t = chars_of(tok);
    let s = chars_of(sep);
    let parts = split_chars(&t, '_');
    let ghost want = split_on(tok@, '_').map_values(|p: Seq<char>| fix_part(p, sep@));
    let mut result: Vec<String> = Vec::new();
    let mut i: usize = 0;
    while i < parts.len()
        invariant
            s@ == sep@,
            vec_views(parts@) == split_on(tok@, '_'),
            want == split_on(tok@, '_').map_values(|p: Seq<char>| fix_part(p, sep@)),
            i <= parts@.len(),
            string_views(result@) == want.take(i as int),
        decreases parts@.len() - i,
    {
        let f = fix_part_exec(&parts[i], &s);
        assert(parts@[i as int]@ == vec_views(parts@)[i as int]);
        let ghost rv = string_views(result@);
        result.push(string_of(&f));
        assert(string_views(result@) =~= rv.push(f@));
        assert(want.take(i + 1) =~= want.take(i as int).push(want[i as int]));
        i += 1;
    }
    assert(want.take(parts@.len() as int) =~= want);
    result
}

/// Teh marbuta (attached or isolated) or heh.
pub open spec fn is_t_letter(c: char) -> bool {
    c == TAA_MARBOUTA || c == TAA_MARBOUTA_DETACHED || c == HAA
}

/// A token ending in teh marbuta or heh split before that letter: the rest,
/// then `sep` and the letter; a lone heh becomes `sep` and teh marbuta.
pub open spec fn t_split(tok: Seq<char>, sep: Seq<char>) -> Seq<Seq<char>> {
    if tok.len() > 0 && is_t_letter(tok.last()) {
        if tok.len() == 1 && tok.last() == HAA {
            seq![sep.push(TAA_MARBOUTA)]
        } else {
            seq![tok.drop_last(), sep.push(tok.last())]
        }
    } else {
        seq![tok]
    }
}

/// Every token split as `t_split` says, in order.
pub open spec fn t_split_all(toks: Seq<Seq<char>>, sep: Seq<char>) -> Seq<Seq<char>>
    decreases toks.len(),
{
    if toks.len() == 0 {
        seq![]
    } else {
        t_split_all(toks.drop_last(), sep) + t_split(toks.last(), sep)
    }
}

/// Splits each token that ends in teh marbuta or heh before that letter.
pub fn split_token_on_t(toks: Vec<String>, sep: &str) -> (r: Vec<String>)
    ensures
        string_views(r@) == t_split_all(string_views(toks@), sep@),
{
    let s = chars_of(sep);
    let ghost tv = string_views(toks@);
    let mut result: Vec<String> = Vec::new();
    let mut i: usize = 0;
    while i < toks.len()
        invariant
            s@ == sep@,
            tv == string_views(toks@),
            i <= toks@.len(),
            string_views(result@) == t_split_all(tv.take(i as int), sep@),
        decreases toks@.len() - i,
    {
        assert(tv.take(i + 1).drop_last() =~= tv.take(i as int));
        let t = chars_of(toks[i].as_str());
        assert(t@ == tv.take(i + 1).last());
        let ghost before = string_views(result@);
        let n = t.len();
        if n > 0 && (t[n - 1] == TAA_MARBOUTA || t[n - 1] == TAA_MARBOUTA_DETACHED || t[n - 1] == HAA) {
            let last = t[n - 1];
            if n == 1 && last == HAA {
                let mut v = copy_chars(&s);
                v.push(TAA_MARBOUTA);
                result.push(string_of(&v));
                assert(string_views(result@) =~= before + seq![s@.push(TAA_MARBOUTA)]);
            } else {
                let head = chars_slice(&t, 0, n - 1);
                assert(head@ =~= t@.drop_last());
                let mut v = copy_chars(&s);
                v.push(last);
                result.push(string_of(&head));
                result.push(string_of(&v));
                assert(string_views(result@) =~= before + seq![t@.drop_last(), s@.push(last)]);
            }
        } else {
            result.push(string_of(&t));
            assert(string_views(result@) =~= before + seq![t@]);
        }
        i += 1;
    }
    assert(tv.take(toks@.len() as int) =~= tv);
    result
}

/// Lam followed by the separator.
pub open spec fn lam_plus(sep: Seq<char>) -> Seq<char> {
    seq!['\u{0644}'] + sep
}

/// The definite article followed by the separator.
pub open spec fn alef_lam_plus(sep: Seq<char>) -> Seq<char> {
    seq!['\u{0627}', '\u{0644}'] + sep
}

/// The preposition lam fused with the article, followed by the separator.
pub open spec fn lam_lam_plus(sep: Seq<char>) -> Seq<char> {
    seq!['\u{0644}', '\u{0644}'] + sep
}

/// The tokens from position `i` on, with every lam token directly followed by
/// an article token merged into one lam-lam token.
pub open spec fn alef_lam_from(toks: Seq<Seq<char>>, sep: Seq<char>, i: int) -> Seq<Seq<char>>
    decreases toks.len() - i,
{
    if i < 0 || i >= toks.len() {
        seq![]
    } else if i + 1 < toks.len() && toks[i] == lam_plus(sep) && toks[i + 1] == alef_lam_plus(sep) {
        seq![lam_lam_plus(sep)] + alef_lam_from(toks, sep, i + 2)
    } else {
        seq![toks[i]] + alef_lam_from(toks, sep, i + 1)
    }
}

/// Merges a lam token followed by an article token into one lam-lam token.
pub fn merge_alef_lam(toks: Vec<String>, sep: &str) -> (r: Vec<String>)
    ensures
        string_views(r@) == alef_lam_from(string_views(toks@), sep@, 0),
{
    let s = chars_of(sep);
    let mut lam = vec!['\u{0644}'];
    extend_chars(&mut lam, &s);
    let mut alef_lam = vec!['\u{0627}', '\u{0644}'];
    extend_chars(&mut alef_lam, &s);
    let mut lam_lam = vec!['\u{0644}', '\u{0644}'];
    extend_chars(&mut lam_lam, &s);
    assert(lam@ =~= lam_plus(sep@));
    assert(alef_lam@ =~= alef_lam_plus(sep@));
    assert(lam_lam@ =~= lam_lam_plus(sep@));
    let ghost tv = string_views(toks@);
    let mut result: Vec<String> = Vec::new();
    let mut i: usize = 0;
    while i < toks.len()
        invariant
            tv == string_views(toks@),
            lam@ == lam_plus(sep@),
            alef_lam@ == alef_lam_plus(sep@),
            lam_lam@ == lam_lam_plus(sep@),
            i <= toks@.len(),
            string_views(result@) + alef_lam_from(tv, sep@, i as int) == alef_lam_from(tv, sep@, 0),
        decreases toks@.len() - i,
    {
        let ghost before = string_views(result@);
        let cur = chars_of(toks[i].as_str());
        assert(cur@ == tv[i as int]);
        let mut merged = false;
        if i + 1 < toks.len() {
            let next = chars_of(toks[i + 1].as_str());
            assert(next@ == tv[i + 1]);
            if chars_eq(&cur, &lam) && chars_eq(&next, &alef_lam) {
                result.push(string_of(&lam_lam));
                assert(string_views(result@) + alef_lam_from(tv, sep@, i + 2) =~= before + (seq![
                    lam_lam_plus(sep@),
                ] + alef_lam_from(tv, sep@, i + 2)));
                i += 2;
                merged = true;
            }
        }
        if !merged {
            result.push(string_of(&cur));
            assert(string_views(result@) + alef_lam_from(tv, sep@, i + 1) =~= before + (seq![tv[i as int]]
                + alef_lam_from(tv, sep@, i + 1)));
            i += 1;
        }
    }
    assert(string_views(result@) + alef_lam_from(tv, sep@, i as int) =~= string_views(result@));
    result
}

/// A token as it stands in the merged word: `_` for a lone separator, else
/// the token without a trailing, or else a leading, separator.
pub open spec fn merge_piece(tok: Seq<char>, sep: Seq<char>) -> Seq<char> {
    if tok == sep {
        seq!['_']
    } else if sep.len() <= tok.len() && tok.skip(tok.len() - sep.len()) == sep {
        tok.take(tok.len() - sep.len())
    } else if sep.len() <= tok.len() && tok.take(sep.len() as int) == sep {
        tok.skip(sep.len() as int)
    } else {
        tok
    }
}

/// The merged pieces of the tokens, concatenated.
pub open spec fn merge_all(toks: Seq<Seq<char>>, sep: Seq<char>) -> Seq<char>
    decreases toks.len(),
{
    if toks.len() == 0 {
        seq![]
    } else {
        merge_all(toks.drop_last(), sep) + merge_piece(toks.last(), sep)
    }
}

/// `s` with the occurrences of `sep` taken out, found left to right.
pub open spec fn remove_all(s: Seq<char>, sep: Seq<char>) -> Seq<char>
    decreases s.len(),
{
    if s.len() == 0 {
        seq![]
    } else if sep.len() > 0 && occurs_at(s, sep, 0) {
        remove_all(s.skip(sep.len() as int), sep)
    } else {
        seq![s[0]] + remove_all(s.skip(1), sep)
    }
}

/// No character of `sep` occurs in `s`.
pub open spec fn sep_free(s: Seq<char>, sep: Seq<char>) -> bool {
    forall|i: int| 0 <= i < s.len() ==> !sep.contains(#[trigger] s[i])
}

pub proof fn lemma_sep_free_split(a: Seq<char>, b: Seq<char>, sep: Seq<char>)
    requires
        sep_free(a + b, sep),
    ensures
        sep_free(a, sep),
        sep_free(b, sep),
{
    assert forall|i: int| 0 <= i < a.len() implies !sep.contains(#[trigger] a[i]) by {
        assert((a + b)[i] == a[i]);
    }
    assert forall|i: int| 0 <= i < b.len() implies !sep.contains(#[trigger] b[i]) by {
        assert((a + b)[a.len() + i] == b[i]);
    }
}

/// Taking the separators out of a text that starts with a part free of
/// separator characters keeps that part.
pub proof fn lemma_remove_free_prefix(x: Seq<char>, y: Seq<char>, sep: Seq<char>)
    requires
        sep.len() > 0,
        sep_free(x, sep),
    ensures
        remove_all(x + y, sep) == x + remove_all(y, sep),
    decreases x.len(),
{
    if x.len() == 0 {
        assert(x + y =~= y);
        assert(x + remove_all(y, sep) =~= remove_all(y, sep));
    } else {
        let s = x + y;
        assert(s[0] == x[0]);
        assert(!occurs_at(s, sep, 0)) by {
            if occurs_at(s, sep, 0) {
                assert(s.subrange(0, sep.len() as int)[0] == s[0]);
                assert(sep[0] == x[0]);
                assert(sep.contains(sep[0]));
                assert(!sep.contains(x[0]));
            }
        }
        assert(s.skip(1) =~= x.skip(1) + y);
        assert(sep_free(x.skip(1), sep)) by {
            assert forall|i: int| 0 <= i < x.skip(1).len() implies !sep.contains(#[trigger] x.skip(1)[i]) by {
                assert(x.skip(1)[i] == x[i + 1]);
            }
        }
        lemma_remove_free_prefix(x.skip(1), y, sep);
        assert(seq![x[0]] + (x.skip(1) + remove_all(y, sep)) =~= x + remove_all(y, sep));
    }
}

/// A separator at the start is taken out.
pub proof fn lemma_remove_sep_prefix(y: Seq<char>, sep: Seq<char>)
    requires
        sep.len() > 0,
    ensures
        remove_all(sep + y, sep) == remove_all(y, sep),
{
    let s = sep + y;
    assert(s.subrange(0, sep.len() as int) =~= sep);
    assert(s.skip(sep.len() as int) =~= y);
}

/// A token that is not the lone separator and whose merged form holds no
/// separator character loses just its separator when they are taken out.
pub proof fn lemma_remove_merge_piece(x: Seq<char>, rest: Seq<char>, sep: Seq<char>)
    requires
        sep.len() > 0,
        x != sep,
        sep_free(merge_piece(x, sep), sep),
    ensures
        remove_all(x + rest, sep) == merge_piece(x, sep) + remove_all(rest, sep),
{
    if sep.len() <= x.len() && x.skip(x.len() - sep.len()) == sep {
        let y = x.take(x.len() - sep.len());
        assert(x + rest =~= y + (sep + rest));
        lemma_remove_free_prefix(y, sep + rest, sep);
        lemma_remove_sep_prefix(rest, sep);
    } else if sep.len() <= x.len() && x.take(sep.len() as int) == sep {
        let y = x.skip(sep.len() as int);
        assert(x + rest =~= sep + (y + rest));
        lemma_remove_sep_prefix(y + rest, sep);
        lemma_remove_free_prefix(y, rest, sep);
    } else {
        lemma_remove_free_prefix(x, rest, sep);
    }
}

/// Tokens whose merged form holds neither a separator character nor `_`,
/// written one after another, give their merged form when the separators
/// are taken out.
pub proof fn lemma_remove_merged(t: Seq<Seq<char>>, rest: Seq<char>, sep: Seq<char>)
    requires
        sep.len() > 0,
        sep_free(merge_all(t, sep), sep),
        !merge_all(t, sep).contains('_'),
    ensures
        remove_all(concat_seqs(t) + rest, sep) == merge_all(t, sep) + remove_all(rest, sep),
    decreases t.len(),
{
    if t.len() == 0 {
        assert(concat_seqs(t) + rest =~= rest);
        assert(merge_all(t, sep) + remove_all(rest, sep) =~= remove_all(rest, sep));
    } else {
        let t0 = t.drop_last();
        let l = t.last();
        let m0 = merge_all(t0, sep);
        let ml = merge_piece(l, sep);
        assert(merge_all(t, sep) == m0 + ml);
        lemma_sep_free_split(m0, ml, sep);
        assert(!m0.contains('_')) by {
            if m0.contains('_') {
                let i = choose|i: int| 0 <= i < m0.len() && m0[i] == '_';
                assert((m0 + ml)[i] == '_');
            }
        }
        assert(l != sep) by {
            if l == sep {
                assert((m0 + ml)[m0.len() as int] == '_');
            }
        }
        assert(concat_seqs(t) + rest =~= concat_seqs(t0) + (l + rest));
        lemma_remove_merged(t0, l + rest, sep);
        lemma_remove_merge_piece(l, rest, sep);
        assert(m0 + (ml + remove_all(rest, sep)) =~= (m0 + ml) + remove_all(rest, sep));
    }
}

fn merge_piece_exec(tok: &[char], sep: &[char]) -> (r: Vec<char>)
    ensures
        r@ == merge_piece(tok@, sep@),
{
    if chars_eq(tok, sep) {
        let v = vec!['_'];
        assert(v@ =~= seq!['_']);
        v
    } else if chars_ends_with(tok, sep) {
        let v = chars_slice(tok, 0, tok.len() - sep.len());
        assert(v@ =~= tok@.take(tok@.len() - sep@.len()));
        v
    } else if chars_starts_with(tok, sep) {
        let v = chars_slice(tok, sep.len(), tok.len());
        assert(v@ =~= tok@.skip(sep@.len() as int));
        v
    } else {
        copy_chars(tok)
    }
}

/// Joins segmented tokens back into a word, dropping their separators (a lone
/// separator stands for `_`).
pub fn merge_tokens(toks: &[String], sep: &str) -> (r: String)
    ensures
        r@ == merge_all(string_views(toks@), sep@),
{
    let s = chars_of(sep);
    let ghost tv = string_views(toks@);
    let mut out: Vec<char> = Vec::new();
    let mut i: usize = 0;
    while i < toks.len()
        invariant
            s@ == sep@,
            tv == string_views(toks@),
            i <= toks@.len(),
            out@ == merge_all(tv.take(i as int), sep@),
        decreases toks@.len() - i,
    {
        assert(tv.take(i + 1).drop_last() =~= tv.take(i as int));
        let t = chars_of(toks[i].as_str());
        assert(t@ == tv.take(i + 1).last());
        let p = merge_piece_exec(&t, &s);
        extend_chars(&mut out, &p);
        i += 1;
    }
    assert(tv.take(toks@.len() as int) =~= tv);
    string_of(&out)
}

// ---------------------------------------------------------------------------
// Tokenization

/// The regex class of letters, marks and numbers.
pub const WORD_CLASS: &'static str = "[\\p{L}\\p{M}\\p{N}]";
/// The regex class of numbers.
pub const NUMBER_CLASS: &'static str = "[\\p{N}]";
/// The regex class of letters and marks.
pub const LETTER_MARK_CLASS: &'static str = "[\\p{L}\\p{M}]";
/// The regex class of marks.
pub const MARK_CLASS: &'static str = "[\\p{M}]";
/// The regex class of letters.
pub const LETTER_CLASS: &'static str = "[\\p{L}]";

/// The Arabic blocks: Arabic, Arabic Supplement, Arabic Extended-A and the
/// presentation forms.
pub open spec fn is_arabic_block(c: char) -> bool {
    ||| ('\u{0600}' <= c && c <= '\u{06FF}')
    ||| ('\u{0750}' <= c && c <= '\u{077F}')
    ||| ('\u{08A0}' <= c && c <= '\u{08FF}')
    ||| ('\u{FB50}' <= c && c <= '\u{FDFF}')
    ||| ('\u{FE70}' <= c && c <= '\u{FEFF}')
}

/// The tokenization mode that a mode name selects: `full` (0): punctuation,
/// runs of letters, marks and numbers, runs of whitespace; `full_split_digits`
/// (1): numbers apart from letters; any other name (2, compact): numbers,
/// Arabic, and other letters apart.
pub open spec fn tok_mode(mode: Seq<char>) -> nat {
    if mode == seq!['f', 'u', 'l', 'l'] {
        0
    } else if mode == seq!['f', 'u', 'l', 'l', '_', 's', 'p', 'l', 'i', 't', '_', 'd', 'i', 'g', 'i', 't', 's'] {
        1
    } else {
        2
    }
}

/// How many alternatives the tokenizer of a mode tries.
pub open spec fn tok_alternatives(mode: nat) -> nat {
    if mode == 0 {
        3
    } else if mode == 1 {
        4
    } else {
        5
    }
}

/// The characters that alternative `k` of the tokenizer of a mode takes. The
/// first alternative takes one punctuation mark or symbol; the others take runs.
pub open spec fn tok_class(mode: nat, k: nat, c: char) -> bool {
    if k == 0 {
        is_punc_char(c)
    } else if mode == 0 {
        if k == 1 {
            in_class(WORD_CLASS@, c)
        } else {
            is_white_space(c)
        }
    } else if mode == 1 {
        if k == 1 {
            in_class(NUMBER_CLASS@, c)
        } else if k == 2 {
            in_class(LETTER_MARK_CLASS@, c)
        } else {
            is_white_space(c)
        }
    } else {
        if k == 1 {
            in_class(NUMBER_CLASS@, c)
        } else if k == 2 {
            is_arabic_block(c) || in_class(MARK_CLASS@, c)
        } else if k == 3 {
            in_class(LETTER_CLASS@, c)
        } else {
            is_white_space(c)
        }
    }
}

/// The end of the run of characters of alternative `k` that starts at `j`.
pub open spec fn run_end(mode: nat, k: nat, t: Seq<char>, j: int) -> int
    decreases t.len() - j,
{
    if j < 0 || j >= t.len() || !tok_class(mode, k, t[j]) {
        j
    } else {
        run_end(mode, k, t, j + 1)
    }
}

/// Where the token that starts at `i` ends, trying alternatives from `k` on.
pub open spec fn match_end(mode: nat, t: Seq<char>, i: int, k: nat) -> Option<int>
    decreases tok_alternatives(mode) - k,
{
    if k >= tok_alternatives(mode) || i < 0 || i >= t.len() {
        None
    } else if tok_class(mode, k, t[i]) {
        Some(if k == 0 { i + 1 } else { run_end(mode, k, t, i + 1) })
    } else {
        match_end(mode, t, i, k + 1)
    }
}

/// The tokens of `t` from position `i` on, found leftmost first; characters
/// that no alternative takes are skipped. The tokenizer's pattern is an
/// alternation of one punctuation mark and runs of single character
/// classes, so its leftmost-first, greedy matching is stated here; whether
/// a character belongs to a class is asked of the regex crate.
pub open spec fn tokens_from(mode: nat, t: Seq<char>, i: int) -> Seq<Seq<char>>
    decreases t.len() - i,
{
    if i < 0 || i >= t.len() {
        seq![]
    } else {
        match match_end(mode, t, i, 0) {
            Some(e) => if i < e <= t.len() {
                seq![t.subrange(i, e)] + tokens_from(mode, t, e)
            } else {
                seq![]
            },
            None => tokens_from(mode, t, i + 1),
        }
    }
}

pub proof fn lemma_run_end(mode: nat, k: nat, t: Seq<char>, j: int)
    requires
        0 <= j <= t.len(),
    ensures
        j <= run_end(mode, k, t, j) <= t.len(),
        forall|x: int| j <= x < run_end(mode, k, t, j) ==> tok_class(mode, k, #[trigger] t[x]),
    decreases t.len() - j,
{
    if j < t.len() && tok_class(mode, k, t[j]) {
        lemma_run_end(mode, k, t, j + 1);
    }
}

/// Every character of `t` from `i` up to `e` belongs to alternative `k`.
pub open spec fn all_in_class(mode: nat, k: nat, t: Seq<char>, i: int, e: int) -> bool {
    forall|x: int| i <= x < e ==> tok_class(mode, k, #[trigger] t[x])
}

pub proof fn lemma_match_end(mode: nat, t: Seq<char>, i: int, k: nat)
    requires
        0 <= i < t.len(),
    ensures
        match match_end(mode, t, i, k) {
            Some(e) => i < e <= t.len() && exists|kk: nat|
                k <= kk < tok_alternatives(mode) && #[trigger] all_in_class(mode, kk, t, i, e),
            None => forall|kk: nat| k <= kk < tok_alternatives(mode) ==> !tok_class(mode, kk, t[i]),
        },
    decreases tok_alternatives(mode) - k,
{
    if k >= tok_alternatives(mode) {
    } else if tok_class(mode, k, t[i]) {
        lemma_run_end(mode, k, t, i + 1);
        assert(all_in_class(mode, k, t, i, match_end(mode, t, i, k)->0));
    } else {
        lemma_match_end(mode, t, i, k + 1);
    }
}

fn tok_class_exec(mode: u8, k: usize, c: char) -> (r: bool)
    requires
        mode <= 2,
    ensures
        r == tok_class(mode as nat, k as nat, c),
{
    if k == 0 {
        char_in_class(PUNC_SYM_CLASS, c)
    } else if mode == 0 {
        if k == 1 {
            char_in_class(WORD_CLASS, c)
        } else {
            is_whitespace(c)
        }
    } else if mode == 1 {
        if k == 1 {
            char_in_class(NUMBER_CLASS, c)
        } else if k == 2 {
            char_in_class(LETTER_MARK_CLASS, c)
        } else {
            is_whitespace(c)
        }
    } else {
        if k == 1 {
            char_in_class(NUMBER_CLASS, c)
        } else if k == 2 {
            (('\u{0600}' <= c && c <= '\u{06FF}') || ('\u{0750}' <= c && c <= '\u{077F}') || ('\u{08A0}'
                <= c && c <= '\u{08FF}') || ('\u{FB50}' <= c && c <= '\u{FDFF}') || ('\u{FE70}' <= c
                && c <= '\u{FEFF}')) || char_in_class(MARK_CLASS, c)
        } else if k == 3 {
            char_in_class(LETTER_CLASS, c)
        } else {
            is_whitespace(c)
        }
    }
}

fn match_end_exec(mode: u8, t: &[char], i: usize) -> (r: Option<usize>)
    requires
        mode <= 2,
        i < t@.len(),
    ensures
        match r {
            Some(e) => match_end(mode as nat, t@, i as int, 0) == Some(e as int),
            None => match_end(mode as nat, t@, i as int, 0) is None,
        },
{
    let count: usize = if mode == 0 {
        3
    } else if mode == 1 {
        4
    } else {
        5
    };
    let mut k: usize = 0;
    while k < count
        invariant
            mode <= 2,
            i < t@.len(),
            count == tok_alternatives(mode as nat),
            k <= count,
            match_end(mode as nat, t@, i as int, 0) == match_end(mode as nat, t@, i as int, k as nat),
        decreases count - k,
    {
        if tok_class_exec(mode, k, t[i]) {
            if k == 0 {
                return Some(i + 1);
            }
            let mut j = i + 1;
            while j < t.len() && tok_class_exec(mode, k, t[j])
                invariant
                    mode <= 2,
                    i < j <= t@.len(),
                    run_end(mode as nat, k as nat, t@, (i + 1) as int) == run_end(mode as nat, k as nat, t@, j as int),
                decreases t@.len() - j,
            {
                j += 1;
            }
            return Some(j);
        }
        k += 1;
    }
    None
}

/// Splits a sentence into tokens: punctuation marks and symbols one by one,
/// and runs of word characters and of whitespace, as the mode says.
pub fn simple_word_tokenize(sentence: &str, mode: &str) -> (r: Vec<String>)
    ensures
        string_views(r@) == tokens_from(tok_mode(mode@), sentence@, 0),
{
    let m = chars_of(mode);
    let full = vec!['f', 'u', 'l', 'l'];
    let split = vec!['f', 'u', 'l', 'l', '_', 's', 'p', 'l', 'i', 't', '_', 'd', 'i', 'g', 'i', 't', 's'];
    assert(full@ =~= seq!['f', 'u', 'l', 'l']);
    assert(split@ =~= seq!['f', 'u', 'l', 'l', '_', 's', 'p', 'l', 'i', 't', '_', 'd', 'i', 'g', 'i', 't', 's']);
    let md: u8 = if chars_eq(&m, &full) {
        0
    } else if chars_eq(&m, &split) {
        1
    } else {
        2
    };
    assert(md as nat == tok_mode(mode@));
    let t = chars_of(sentence);
    let mut result: Vec<String> = Vec::new();
    let mut i: usize = 0;
    while i < t.len()
        invariant
            md <= 2,
            md as nat == tok_mode(mode@),
            t@ == sentence@,
            i <= t@.len(),
            string_views(result@) + tokens_from(md as nat, t@, i as int) == tokens_from(md as nat, t@, 0),
        decreases t@.len() - i,
    {
        proof {
            lemma_match_end(md as nat, t@, i as int, 0);
        }
        let ghost before = string_views(result@);
        match match_end_exec(md, &t, i) {
            Some(e) => {
                let tok = chars_slice(&t, i, e);
                result.push(string_of(&tok));
                assert(string_views(result@) + tokens_from(md as nat, t@, e as int) =~= before + (seq![
                    t@.subrange(i as int, e as int),
                ] + tokens_from(md as nat, t@, e as int)));
                i = e;
            },
            None => {
                i += 1;
            },
        }
    }
    assert(string_views(result@) + tokens_from(md as nat, t@, i as int) =~= string_views(result@));
    result
}

/// Whether some alternative of the tokenizer takes `c`.
pub open spec fn tok_matched(mode: nat, c: char) -> bool {
    exists|k: nat| k < tok_alternatives(mode) && tok_class(mode, k, c)
}

/// The characters of `t` from position `i` on that some alternative takes.
pub open spec fn matched_from(mode: nat, t: Seq<char>, i: int) -> Seq<char>
    decreases t.len() - i,
{
    if i < 0 || i >= t.len() {
        seq![]
    } else {
        (if tok_matched(mode, t[i]) {
            seq![t[i]]
        } else {
            seq![]
        }) + matched_from(mode, t, i + 1)
    }
}

proof fn lemma_matched_run(mode: nat, t: Seq<char>, i: int, e: int, k: nat)
    requires
        0 <= i <= e <= t.len(),
        k < tok_alternatives(mode),
        forall|x: int| i <= x < e ==> tok_class(mode, k, #[trigger] t[x]),
    ensures
        matched_from(mode, t, i) == t.subrange(i, e) + matched_from(mode, t, e),
    decreases e - i,
{
    if i == e {
        assert(t.subrange(i, e) + matched_from(mode, t, e) =~= matched_from(mode, t, e));
    } else {
        lemma_matched_run(mode, t, i + 1, e, k);
        assert(tok_class(mode, k, t[i]));
        assert(tok_matched(mode, t[i]));
        assert(t.subrange(i, e) =~= seq![t[i]] + t.subrange(i + 1, e));
    }
}

proof fn lemma_concat_prepend(x: Seq<char>, r: Seq<Seq<char>>)
    ensures
        concat_seqs(seq![x] + r) == x + concat_seqs(r),
{
    crate::text_rules::lemma_concat_append(seq![x], r);
    assert(seq![x].drop_last() =~= Seq::<Seq<char>>::empty());
    assert(concat_seqs(seq![x]) == concat_seqs(seq![x].drop_last()) + seq![x].last());
    assert(concat_seqs(Seq::<Seq<char>>::empty()) + x =~= x);
}

/// Every token is non-empty, and the tokens put together give back the
/// sentence without the characters that no alternative of the tokenizer takes.
pub proof fn lemma_tokens_cover(mode: nat, t: Seq<char>, i: int)
    requires
        0 <= i <= t.len(),
    ensures
        concat_seqs(tokens_from(mode, t, i)) == matched_from(mode, t, i),
        forall|j: int| 0 <= j < tokens_from(mode, t, i).len() ==> #[trigger] tokens_from(mode, t, i)[j].len() > 0,
    decreases t.len() - i,
{
    if i >= t.len() {
    } else {
        lemma_match_end(mode, t, i, 0);
        match match_end(mode, t, i, 0) {
            Some(e) => {
                lemma_tokens_cover(mode, t, e);
                let kk = choose|kk: nat| 0 <= kk < tok_alternatives(mode) && #[trigger] all_in_class(mode, kk, t, i, e);
                lemma_matched_run(mode, t, i, e, kk);
                lemma_concat_prepend(t.subrange(i, e), tokens_from(mode, t, e));
                let ts = tokens_from(mode, t, i);
                assert(ts == seq![t.subrange(i, e)] + tokens_from(mode, t, e));
                assert forall|j: int| 0 <= j < ts.len() implies #[trigger] ts[j].len() > 0 by {
                    if j > 0 {
                        assert(ts[j] == tokens_from(mode, t, e)[j - 1]);
                    }
                }
            },
            None => {
                lemma_tokens_cover(mode, t, i + 1);
                assert(!tok_matched(mode, t[i]));
                assert(matched_from(mode, t, i) =~= matched_from(mode, t, i + 1));
            },
        }
    }
}

// ---------------------------------------------------------------------------
// Edit distance

/// The smallest of three numbers.
pub open spec fn min3(x: nat, y: nat, z: nat) -> nat {
    if x <= y && x <= z {
        x
    } else if y <= z {
        y
    } else {
        z
    }
}

/// The Levenshtein distance: the fewest insertions, deletions and
/// substitutions of characters that turn `a` into `b`.
pub open spec fn lev(a: Seq<char>, b: Seq<char>) -> nat
    decreases a.len() + b.len(),
{
    if a.len() == 0 {
        b.len()
    } else if b.len() == 0 {
        a.len()
    } else {
        min3(
            lev(a.drop_last(), b) + 1,
            lev(a, b.drop_last()) + 1,
            lev(a.drop_last(), b.drop_last()) + if a.last() == b.last() {
                0nat
            } else {
                1nat
            },
        )
    }
}

/// The distance is at most the length of the longer text.
pub proof fn lemma_lev_bound(a: Seq<char>, b: Seq<char>)
    ensures
        lev(a, b) <= if a.len() >= b.len() { a.len() } else { b.len() },
    decreases a.len() + b.len(),
{
    if a.len() > 0 && b.len() > 0 {
        lemma_lev_bound(a.drop_last(), b.drop_last());
    }
}

/// A text is at distance 0 from itself.
pub proof fn lemma_lev_self(a: Seq<char>)
    ensures
        lev(a, a) == 0,
    decreases a.len(),
{
    if a.len() > 0 {
        lemma_lev_self(a.drop_last());
    }
}

/// The distance does not depend on the order of the two texts.
pub proof fn lemma_lev_symmetric(a: Seq<char>, b: Seq<char>)
    ensures
        lev(a, b) == lev(b, a),
    decreases a.len() + b.len(),
{
    if a.len() > 0 && b.len() > 0 {
        lemma_lev_symmetric(a.drop_last(), b);
        lemma_lev_symmetric(a, b.drop_last());
        lemma_lev_symmetric(a.drop_last(), b.drop_last());
    }
}

/// The Levenshtein distance between two texts, counted in characters.
pub fn levenshtein(a: &str, b: &str) -> (r: usize)
    requires
        a@.len() < usize::MAX,
        b@.len() < usize::MAX,
    ensures
        r == lev(a@, b@),
{
    let a = chars_of(a);
    let b = chars_of(b);
    let n = a.len();
    let m = b.len();
    let mut prev: Vec<usize> = Vec::new();
    let mut j: usize = 0;
    while j <= m
        invariant
            m == b@.len(),
            m < usize::MAX,
            j <= m + 1,
            prev@.len() == j,
            forall|x: int| 0 <= x < j ==> prev@[x] == lev(a@.take(0), b@.take(x)),
        decreases m + 1 - j,
    {
        assert(a@.take(0).len() == 0);
        prev.push(j);
        j += 1;
    }
    let mut i: usize = 1;
    while i <= n
        invariant
            n == a@.len(),
            m == b@.len(),
            n < usize::MAX,
            m < usize::MAX,
            1 <= i <= n + 1,
            prev@.len() == m + 1,
            forall|x: int| 0 <= x <= m ==> prev@[x] == lev(a@.take(i - 1), b@.take(x)),
        decreases n + 1 - i,
    {
        let ghost ai = a@.take(i as int);
        let ghost ap = a@.take(i - 1);
        assert(ai.drop_last() =~= ap);
        let mut cur: Vec<usize> = Vec::new();
        cur.push(i);
        proof {
            assert(b@.take(0).len() == 0);
        }
        let mut j: usize = 1;
        while j <= m
            invariant
                n == a@.len(),
                m == b@.len(),
                n < usize::MAX,
                m < usize::MAX,
                1 <= i <= n,
                1 <= j <= m + 1,
                ai == a@.take(i as int),
                ap == a@.take(i - 1),
                ai.drop_last() == ap,
                prev@.len() == m + 1,
                forall|x: int| 0 <= x <= m ==> prev@[x] == lev(ap, b@.take(x)),
                cur@.len() == j,
                forall|x: int| 0 <= x < j ==> cur@[x] == lev(ai, b@.take(x)),
            decreases m + 1 - j,
        {
            let ghost bj = b@.take(j as int);
            assert(bj.drop_last() =~= b@.take(j - 1));
            proof {
                lemma_lev_bound(ap, b@.take(j as int));
                lemma_lev_bound(ai, b@.take(j - 1));
                lemma_lev_bound(ap, b@.take(j - 1));
            }
            let cost: usize = if a[i - 1] == b[j - 1] {
                0
            } else {
                1
            };
            let del = prev[j] + 1;
            let ins = cur[j - 1] + 1;
            let sub = prev[j - 1] + cost;
            let best = if del <= ins && del <= sub {
                del
            } else if ins <= sub {
                ins
            } else {
                sub
            };
            assert(ai.last() == a@[i - 1]);
            assert(bj.last() == b@[j - 1]);
            cur.push(best);
            j += 1;
        }
        prev = cur;
        i += 1;
    }
    assert(a@.take(n as int) =~= a@);
    assert(b@.take(m as int) =~= b@);
    prev[m]
}

// ---------------------------------------------------------------------------
// Carrying diacritics over to segments

/// The end of the run of diacritics of `src` that starts at `p`.
pub open spec fn diac_run_end(src: Seq<char>, p: int) -> int
    decreases src.len() - p,
{
    if p < 0 || p >= src.len() || !is_diac(src[p]) {
        p
    } else {
        diac_run_end(src, p + 1)
    }
}

pub proof fn lemma_diac_run_end(src: Seq<char>, p: int)
    requires
        0 <= p <= src.len(),
    ensures
        p <= diac_run_end(src, p) <= src.len(),
        diac_run_end(src, p) < src.len() ==> !is_diac(src[diac_run_end(src, p)]),
    decreases src.len() - p,
{
    if p < src.len() && is_diac(src[p]) {
        lemma_diac_run_end(src, p + 1);
    }
}

/// One character `c` of a segment written out: the diacritics that stand at
/// `p` in the diacritized word, then `c`, then, when the word has `c` there,
/// the diacritics after it. Gives the output and where the word is read next.
pub open spec fn diac_char_step(src: Seq<char>, p: int, c: char) -> (Seq<char>, int) {
    let q = diac_run_end(src, p);
    if 0 <= q < src.len() && src[q] == c {
        let r = diac_run_end(src, q + 1);
        (src.subrange(p, q) + seq![c] + src.subrange(q + 1, r), r)
    } else {
        (src.subrange(p, q).push(c), q)
    }
}

/// A segment from position `pos` on, written out with the diacritics read
/// from `src` at `p`; separators inside the segment are copied as they are.
pub open spec fn diac_seg_from(seg: Seq<char>, sep: Seq<char>, src: Seq<char>, pos: int, p: int) -> (Seq<char>, int)
    decreases seg.len() - pos,
{
    if pos < 0 || pos >= seg.len() {
        (seq![], p)
    } else if sep.len() > 0 && occurs_at(seg, sep, pos) {
        let (o, p2) = diac_seg_from(seg, sep, src, pos + sep.len(), p);
        (sep + o, p2)
    } else {
        let (o1, p1) = diac_char_step(src, p, seg[pos]);
        let (o2, p2) = diac_seg_from(seg, sep, src, pos + 1, p1);
        (o1 + o2, p2)
    }
}

/// The segments from index `idx` on, written out with the diacritics read
/// from `src` at `p`; a segment equal to the separator is copied, and the
/// word's leading diacritics go before the first segment.
pub open spec fn diac_segs_from(segs: Seq<Seq<char>>, sep: Seq<char>, src: Seq<char>, idx: int, p: int, leading: Seq<char>) -> Seq<Seq<char>>
    decreases segs.len() - idx,
{
    if idx < 0 || idx >= segs.len() {
        seq![]
    } else if segs[idx] == sep {
        seq![sep] + diac_segs_from(segs, sep, src, idx + 1, p, leading)
    } else {
        let pre = if idx == 0 { leading } else { seq![] };
        let (o, p2) = diac_seg_from(segs[idx], sep, src, 0, p);
        seq![pre + o] + diac_segs_from(segs, sep, src, idx + 1, p2, leading)
    }
}

/// The segments of a word carrying the diacritics of its diacritized form.
pub open spec fn diacritized_segments(segs: Seq<Seq<char>>, diacritized: Seq<char>, sep: Seq<char>) -> Seq<Seq<char>> {
    let q = diac_run_end(diacritized, 0);
    diac_segs_from(segs, sep, diacritized, 0, q, diacritized.take(q))
}

proof fn lemma_diac_char_step(src: Seq<char>, p: int, c: char)
    requires
        0 <= p <= src.len(),
    ensures
        p <= diac_char_step(src, p, c).1 <= src.len(),
{
    lemma_diac_run_end(src, p);
    let q = diac_run_end(src, p);
    if 0 <= q < src.len() && src[q] == c {
        lemma_diac_run_end(src, q + 1);
    }
}

/// Appends the diacritics of `src` from `p` on; gives where the run ends.
fn copy_diac_run(src: &[char], p: usize, out: &mut Vec<char>) -> (q: usize)
    requires
        p <= src@.len(),
    ensures
        q == diac_run_end(src@, p as int),
        final(out)@ == old(out)@ + src@.subrange(p as int, q as int),
{
    let mut q = p;
    while q < src.len() && is_diacritic(src[q])
        invariant
            p <= q <= src@.len(),
            diac_run_end(src@, p as int) == diac_run_end(src@, q as int),
            out@ == old(out)@ + src@.subrange(p as int, q as int),
        decreases src@.len() - q,
    {
        out.push(src[q]);
        assert(src@.subrange(p as int, q + 1) =~= src@.subrange(p as int, q as int).push(src@[q as int]));
        q += 1;
    }
    q
}

fn diac_char_exec(src: &[char], p: usize, c: char, out: &mut Vec<char>) -> (p2: usize)
    requires
        p <= src@.len(),
    ensures
        final(out)@ == old(out)@ + diac_char_step(src@, p as int, c).0,
        p2 == diac_char_step(src@, p as int, c).1,
        p2 <= src@.len(),
{
    proof {
        lemma_diac_char_step(src@, p as int, c);
        lemma_diac_run_end(src@, p as int);
    }
    let ghost start = out@;
    let q = copy_diac_run(src, p, out);
    if q < src.len() && src[q] == c {
        out.push(c);
        proof {
            lemma_diac_run_end(src@, q + 1);
        }
        let ghost mid = out@;
        let r = copy_diac_run(src, q + 1, out);
        assert(out@ =~= start + (src@.subrange(p as int, q as int) + seq![c] + src@.subrange(q + 1, r as int)));
        r
    } else {
        out.push(c);
        assert(out@ =~= start + src@.subrange(p as int, q as int).push(c));
        q
    }
}

fn diac_seg_exec(seg: &[char], sep: &[char], src: &[char], p0: usize, out: &mut Vec<char>) -> (p: usize)
    requires
        p0 <= src@.len(),
        sep@.len() > 0 || seg@.len() == 0,
    ensures
        final(out)@ == old(out)@ + diac_seg_from(seg@, sep@, src@, 0, p0 as int).0,
        p == diac_seg_from(seg@, sep@, src@, 0, p0 as int).1,
        p <= src@.len(),
{
    let mut pos: usize = 0;
    let mut p = p0;
    let ghost whole = diac_seg_from(seg@, sep@, src@, 0, p0 as int);
    let ghost start = out@;
    while pos < seg.len()
        invariant
            sep@.len() > 0 || seg@.len() == 0,
            pos <= seg@.len(),
            p <= src@.len(),
            whole == diac_seg_from(seg@, sep@, src@, 0, p0 as int),
            out@ + diac_seg_from(seg@, sep@, src@, pos as int, p as int).0 == start + whole.0,
            diac_seg_from(seg@, sep@, src@, pos as int, p as int).1 == whole.1,
        decreases seg@.len() - pos,
    {
        let ghost before = out@;
        if chars_occur_at(seg, sep, pos) {
            extend_chars(out, sep);
            let ghost rest = diac_seg_from(seg@, sep@, src@, pos + sep@.len(), p as int);
            assert(out@ + rest.0 =~= before + (sep@ + rest.0));
            pos += sep.len();
        } else {
            let c = seg[pos];
            let p1 = diac_char_exec(src, p, c, out);
            let ghost rest = diac_seg_from(seg@, sep@, src@, pos + 1, p1 as int);
            assert(out@ + rest.0 =~= before + (diac_char_step(src@, p as int, c).0 + rest.0));
            p = p1;
            pos += 1;
        }
    }
    assert(out@ + diac_seg_from(seg@, sep@, src@, pos as int, p as int).0 =~= out@);
    p
}

/// Gives segmented tokens the diacritics of the word's diacritized form:
/// each character of a segment takes the diacritics around the same character
/// in `diacritized`, read left to right; separators are copied, and the
/// word's leading diacritics go before the first segment.
pub fn apply_diacritics(segments: &[String], diacritized: &str, sep: &str) -> (r: Vec<String>)
    requires
        sep@.len() > 0 || forall|i: int| 0 <= i < segments@.len() ==> #[trigger] segments@[i]@.len() == 0,
    ensures
        string_views(r@) == diacritized_segments(string_views(segments@), diacritized@, sep@),
{
    let src = chars_of(diacritized);
    let sepc = chars_of(sep);
    let mut leading: Vec<char> = Vec::new();
    proof {
        lemma_diac_run_end(src@, 0);
    }
    let q = copy_diac_run(&src, 0, &mut leading);
    assert(leading@ =~= src@.take(q as int));
    let ghost sv = string_views(segments@);
    let ghost whole = diac_segs_from(sv, sep@, src@, 0, q as int, leading@);
    let mut result: Vec<String> = Vec::new();
    let mut p = q;
    let mut idx: usize = 0;
    while idx < segments.len()
        invariant
            sep@.len() > 0 || forall|i: int| 0 <= i < segments@.len() ==> #[trigger] segments@[i]@.len() == 0,
            sv == string_views(segments@),
            sepc@ == sep@,
            idx <= segments@.len(),
            p <= src@.len(),
            whole == diac_segs_from(sv, sep@, src@, 0, q as int, leading@),
            string_views(result@) + diac_segs_from(sv, sep@, src@, idx as int, p as int, leading@) == whole,
        decreases segments@.len() - idx,
    {
        let ghost before = string_views(result@);
        let seg = chars_of(segments[idx].as_str());
        assert(seg@ == sv[idx as int]);
        if chars_eq(&seg, &sepc) {
            result.push(string_of(&sepc));
            let ghost rest = diac_segs_from(sv, sep@, src@, idx + 1, p as int, leading@);
            assert(string_views(result@) + rest =~= before + (seq![sep@] + rest));
        } else {
            let mut out: Vec<char> = if idx == 0 {
                copy_chars(&leading)
            } else {
                Vec::new()
            };
            let ghost pre = out@;
            assert(sep@.len() > 0 || seg@.len() == 0);
            let p2 = diac_seg_exec(&seg, &sepc, &src, p, &mut out);
            result.push(string_of(&out));
            let ghost rest = diac_segs_from(sv, sep@, src@, idx + 1, p2 as int, leading@);
            assert(string_views(result@) + rest =~= before + (seq![out@] + rest));
            p = p2;
        }
        idx += 1;
    }
    assert(string_views(result@) + diac_segs_from(sv, sep@, src@, idx as int, p as int, leading@) =~= string_views(result@));
    result
}

// ---------------------------------------------------------------------------
// The diacritized segments spell the diacritized word

/// `s` without its diacritics.
pub open spec fn without_diacs(s: Seq<char>) -> Seq<char>
    decreases s.len(),
{
    if s.len() == 0 {
        seq![]
    } else if is_diac(s[0]) {
        without_diacs(s.skip(1))
    } else {
        seq![s[0]] + without_diacs(s.skip(1))
    }
}

/// `s`, read left to right, is made of whole separators and of characters
/// that occur in no separator.
pub open spec fn sep_blocks(s: Seq<char>, sep: Seq<char>) -> bool
    decreases s.len(),
{
    if s.len() == 0 {
        true
    } else if sep.len() > 0 && occurs_at(s, sep, 0) {
        sep_blocks(s.skip(sep.len() as int), sep)
    } else {
        !sep.contains(s[0]) && sep_blocks(s.skip(1), sep)
    }
}

proof fn lemma_without_diacs_run(src: Seq<char>, p: int)
    requires
        0 <= p <= src.len(),
    ensures
        without_diacs(src.skip(p)) == without_diacs(src.skip(diac_run_end(src, p))),
    decreases src.len() - p,
{
    if p < src.len() && is_diac(src[p]) {
        assert(src.skip(p)[0] == src[p]);
        assert(src.skip(p).skip(1) =~= src.skip(p + 1));
        lemma_without_diacs_run(src, p + 1);
    }
}

proof fn lemma_without_diacs_at(src: Seq<char>, q: int)
    requires
        0 <= q < src.len(),
        !is_diac(src[q]),
    ensures
        without_diacs(src.skip(q)) == seq![src[q]] + without_diacs(src.skip(q + 1)),
{
    assert(src.skip(q)[0] == src[q]);
    assert(src.skip(q).skip(1) =~= src.skip(q + 1));
}

proof fn lemma_sep_free_sub(src: Seq<char>, a: int, b: int, sep: Seq<char>)
    requires
        sep_free(src, sep),
        0 <= a <= b <= src.len(),
    ensures
        sep_free(src.subrange(a, b), sep),
{
    assert forall|i: int| 0 <= i < src.subrange(a, b).len() implies !sep.contains(#[trigger] src.subrange(a, b)[i]) by {
        assert(src.subrange(a, b)[i] == src[a + i]);
    }
}

proof fn lemma_concat_skip(segs: Seq<Seq<char>>, idx: int)
    requires
        0 <= idx < segs.len(),
    ensures
        concat_seqs(segs.skip(idx)) == segs[idx] + concat_seqs(segs.skip(idx + 1)),
{
    assert(segs.skip(idx) =~= seq![segs[idx]] + segs.skip(idx + 1));
    lemma_concat_prepend(segs[idx], segs.skip(idx + 1));
}

/// `s` without the characters that occur in the separator.
pub open spec fn nonsep(s: Seq<char>, sep: Seq<char>) -> Seq<char>
    decreases s.len(),
{
    if s.len() == 0 {
        seq![]
    } else if sep.contains(s[0]) {
        nonsep(s.skip(1), sep)
    } else {
        seq![s[0]] + nonsep(s.skip(1), sep)
    }
}

/// The characters of `s` written out one by one, each with the diacritics
/// read from `src` at `p`, as `apply_diacritics` writes the characters of a
/// segment; gives the output and where `src` is read next.
pub open spec fn diac_expand(s: Seq<char>, src: Seq<char>, p: int) -> (Seq<char>, int)
    decreases s.len(),
{
    if s.len() == 0 {
        (seq![], p)
    } else {
        let (o1, p1) = diac_char_step(src, p, s[0]);
        let (o2, p2) = diac_expand(s.skip(1), src, p1);
        (o1 + o2, p2)
    }
}

/// Every character of `x` occurs in the separator.
pub open spec fn all_sep_chars(x: Seq<char>, sep: Seq<char>) -> bool {
    forall|i: int| 0 <= i < x.len() ==> sep.contains(#[trigger] x[i])
}

proof fn lemma_sep_chars_of_sep(sep: Seq<char>)
    ensures
        all_sep_chars(sep, sep),
{
    assert forall|i: int| 0 <= i < sep.len() implies sep.contains(#[trigger] sep[i]) by {
        assert(sep[i] == sep[i]);
    }
}

proof fn lemma_without_diacs_free(s: Seq<char>, sep: Seq<char>)
    requires
        sep_free(s, sep),
    ensures
        sep_free(without_diacs(s), sep),
    decreases s.len(),
{
    if s.len() > 0 {
        assert(sep_free(s.skip(1), sep)) by {
            assert forall|i: int| 0 <= i < s.skip(1).len() implies !sep.contains(#[trigger] s.skip(1)[i]) by {
                assert(s.skip(1)[i] == s[i + 1]);
            }
        }
        lemma_without_diacs_free(s.skip(1), sep);
        let w1 = without_diacs(s.skip(1));
        if !is_diac(s[0]) {
            assert(!sep.contains(s[0]));
            assert forall|i: int| 0 <= i < (seq![s[0]] + w1).len() implies !sep.contains(#[trigger] (seq![s[0]]
                + w1)[i]) by {
                if i > 0 {
                    assert((seq![s[0]] + w1)[i] == w1[i - 1]);
                }
            }
        }
    }
}

/// One character written out from a place of `src` where no diacritic
/// stands: a separator character comes out alone, another character holds no
/// separator character; the next character of `src` (diacritics aside)
/// comes out with its diacritics, and reading goes on past them.
proof fn lemma_char_step_facts(src: Seq<char>, p: int, c: char, sep: Seq<char>)
    requires
        0 <= p <= src.len(),
        diac_run_end(src, p) == p,
        sep_free(src, sep),
    ensures
        p <= diac_char_step(src, p, c).1 <= src.len(),
        diac_run_end(src, diac_char_step(src, p, c).1) == diac_char_step(src, p, c).1,
        sep.contains(c) ==> diac_char_step(src, p, c) == (seq![c], p),
        !sep.contains(c) ==> sep_free(diac_char_step(src, p, c).0, sep),
        without_diacs(src.skip(p)).len() > 0 && without_diacs(src.skip(p))[0] == c ==> {
            &&& diac_char_step(src, p, c).0 == src.subrange(p, diac_char_step(src, p, c).1)
            &&& without_diacs(src.skip(diac_char_step(src, p, c).1)) == without_diacs(src.skip(p)).skip(1)
        },
{
    let (o, p1) = diac_char_step(src, p, c);
    lemma_diac_run_end(src, p);
    if p < src.len() {
        lemma_diac_run_end(src, p + 1);
        lemma_without_diacs_run(src, p + 1);
        lemma_without_diacs_at(src, p);
        let r = diac_run_end(src, p + 1);
        lemma_diac_run_end(src, r);
        lemma_sep_free_sub(src, p + 1, r, sep);
    }
    if sep.contains(c) {
        if p < src.len() && src[p] == c {
            assert(!sep.contains(src[p]));
        }
        assert(src.subrange(p, p).push(c) =~= seq![c]);
    }
    if !sep.contains(c) {
        if p < src.len() && src[p] == c {
            let r = diac_run_end(src, p + 1);
            assert(o == src.subrange(p, p) + seq![c] + src.subrange(p + 1, r));
            assert forall|i: int| 0 <= i < o.len() implies !sep.contains(#[trigger] o[i]) by {
                if i == 0 {
                    assert(o[i] == c);
                } else {
                    assert(o[i] == src.subrange(p + 1, r)[i - 1]);
                }
            }
        } else {
            assert(o =~= seq![c]);
            assert forall|i: int| 0 <= i < o.len() implies !sep.contains(#[trigger] o[i]) by {
                assert(o[i] == c);
            }
        }
    }
    if without_diacs(src.skip(p)).len() > 0 && without_diacs(src.skip(p))[0] == c {
        assert(p < src.len()) by {
            if p >= src.len() {
                assert(src.skip(p) =~= Seq::<char>::empty());
            }
        }
        assert(src[p] == c);
        let r = diac_run_end(src, p + 1);
        assert(src.subrange(p, p) + seq![c] + src.subrange(p + 1, r) =~= src.subrange(p, r));
    }
}

/// Characters of the separator written out come out as they are, and
/// reading `src` does not move.
proof fn lemma_expand_sep_chars(x: Seq<char>, y: Seq<char>, src: Seq<char>, p: int, sep: Seq<char>)
    requires
        0 <= p <= src.len(),
        diac_run_end(src, p) == p,
        sep_free(src, sep),
        all_sep_chars(x, sep),
    ensures
        diac_expand(x + y, src, p) == (x + diac_expand(y, src, p).0, diac_expand(y, src, p).1),
    decreases x.len(),
{
    if x.len() == 0 {
        assert(x + y =~= y);
        assert(x + diac_expand(y, src, p).0 =~= diac_expand(y, src, p).0);
    } else {
        assert((x + y)[0] == x[0]);
        assert(sep.contains(x[0]));
        lemma_char_step_facts(src, p, x[0], sep);
        assert((x + y).skip(1) =~= x.skip(1) + y);
        assert(all_sep_chars(x.skip(1), sep)) by {
            assert forall|i: int| 0 <= i < x.skip(1).len() implies sep.contains(#[trigger] x.skip(1)[i]) by {
                assert(x.skip(1)[i] == x[i + 1]);
            }
        }
        lemma_expand_sep_chars(x.skip(1), y, src, p, sep);
        assert(seq![x[0]] + (x.skip(1) + diac_expand(y, src, p).0) =~= x + diac_expand(y, src, p).0);
    }
}

/// Writing out two texts one after the other.
proof fn lemma_expand_append(a: Seq<char>, b: Seq<char>, src: Seq<char>, p: int)
    ensures
        diac_expand(a + b, src, p) == (
            diac_expand(a, src, p).0 + diac_expand(b, src, diac_expand(a, src, p).1).0,
            diac_expand(b, src, diac_expand(a, src, p).1).1,
        ),
    decreases a.len(),
{
    if a.len() == 0 {
        assert(a + b =~= b);
        assert(Seq::<char>::empty() + diac_expand(b, src, p).0 =~= diac_expand(b, src, p).0);
    } else {
        assert((a + b)[0] == a[0]);
        assert((a + b).skip(1) =~= a.skip(1) + b);
        let p1 = diac_char_step(src, p, a[0]).1;
        lemma_expand_append(a.skip(1), b, src, p1);
        let o1 = diac_char_step(src, p, a[0]).0;
        let e = diac_expand(a.skip(1), src, p1);
        assert(o1 + (e.0 + diac_expand(b, src, e.1).0) =~= (o1 + e.0) + diac_expand(b, src, e.1).0);
    }
}

/// What writing out reads of `src`: from a place where no diacritic stands
/// to another; when the characters of `s` other than separator characters
/// come next in `src` (diacritics aside), they come out as the stretch of
/// `src` that holds them with their diacritics.
proof fn lemma_expand_reads(s: Seq<char>, src: Seq<char>, p: int, sep: Seq<char>)
    requires
        0 <= p <= src.len(),
        diac_run_end(src, p) == p,
        sep_free(src, sep),
    ensures
        p <= diac_expand(s, src, p).1 <= src.len(),
        diac_run_end(src, diac_expand(s, src, p).1) == diac_expand(s, src, p).1,
        nonsep(s, sep).len() <= without_diacs(src.skip(p)).len() && without_diacs(src.skip(p)).take(
            nonsep(s, sep).len() as int,
        ) == nonsep(s, sep) ==> {
            &&& nonsep(diac_expand(s, src, p).0, sep) == src.subrange(p, diac_expand(s, src, p).1)
            &&& without_diacs(src.skip(diac_expand(s, src, p).1)) == without_diacs(src.skip(p)).skip(
                nonsep(s, sep).len() as int,
            )
        },
    decreases s.len(),
{
    let w = without_diacs(src.skip(p));
    if s.len() == 0 {
        assert(src.subrange(p, p) =~= Seq::<char>::empty());
        assert(w.skip(0) =~= w);
    } else {
        let c = s[0];
        lemma_char_step_facts(src, p, c, sep);
        let (o1, p1) = diac_char_step(src, p, c);
        lemma_expand_reads(s.skip(1), src, p1, sep);
        let (o2, p2) = diac_expand(s.skip(1), src, p1);
        let n = nonsep(s, sep);
        let n1 = nonsep(s.skip(1), sep);
        assert(diac_expand(s, src, p) == (o1 + o2, p2));
        if n.len() <= w.len() && w.take(n.len() as int) == n {
            if sep.contains(c) {
                assert(n == n1);
                assert(o1 == seq![c]);
                assert(p1 == p);
                assert(all_sep_chars(seq![c], sep)) by {
                    assert forall|i: int| 0 <= i < seq![c].len() implies sep.contains(#[trigger] seq![c][i]) by {
                        assert(seq![c][i] == c);
                    }
                }
                lemma_nonsep_sep_chars(seq![c], o2, sep);
                assert(without_diacs(src.skip(p1)) == w);
                assert(n1.len() <= without_diacs(src.skip(p1)).len());
                assert(without_diacs(src.skip(p1)).take(n1.len() as int) == n1);
                assert(nonsep(o2, sep) == src.subrange(p1, p2));
                assert(nonsep(o1 + o2, sep) == nonsep(o2, sep));
                assert(nonsep(o1 + o2, sep) == src.subrange(p, p2));
                assert(without_diacs(src.skip(p2)) == w.skip(n.len() as int));
            } else {
                assert(n == seq![c] + n1);
                assert(w[0] == c) by {
                    assert(w.take(n.len() as int)[0] == w[0]);
                }
                let w1 = without_diacs(src.skip(p1));
                assert(w1 == w.skip(1));
                assert(n1.len() <= w1.len());
                assert(w1.take(n1.len() as int) =~= w.take(n.len() as int).skip(1));
                assert((seq![c] + n1).skip(1) =~= n1);
                assert(w1.take(n1.len() as int) == n1);
                assert(w.len() > 0 && w[0] == c);
                assert(o1 == src.subrange(p, p1));
                assert(nonsep(o2, sep) == src.subrange(p1, p2));
                assert(w1.skip(n1.len() as int) =~= w.skip(n.len() as int));
                lemma_sep_free_sub(src, p, p1, sep);
                lemma_nonsep_free_prefix(o1, o2, sep);
                assert(src.subrange(p, p1) + src.subrange(p1, p2) =~= src.subrange(p, p2));
                assert(nonsep(o1 + o2, sep) == src.subrange(p, p2));
                assert(without_diacs(src.skip(p2)) == w.skip(n.len() as int));
            }
        }
    }
}

proof fn lemma_nonsep_sep_chars(x: Seq<char>, y: Seq<char>, sep: Seq<char>)
    requires
        all_sep_chars(x, sep),
    ensures
        nonsep(x + y, sep) == nonsep(y, sep),
    decreases x.len(),
{
    if x.len() > 0 {
        assert((x + y)[0] == x[0]);
        assert(sep.contains(x[0]));
        assert((x + y).skip(1) =~= x.skip(1) + y);
        assert(all_sep_chars(x.skip(1), sep)) by {
            assert forall|i: int| 0 <= i < x.skip(1).len() implies sep.contains(#[trigger] x.skip(1)[i]) by {
                assert(x.skip(1)[i] == x[i + 1]);
            }
        }
        lemma_nonsep_sep_chars(x.skip(1), y, sep);
    } else {
        assert(x + y =~= y);
    }
}

proof fn lemma_nonsep_free_prefix(x: Seq<char>, y: Seq<char>, sep: Seq<char>)
    requires
        sep_free(x, sep),
    ensures
        nonsep(x + y, sep) == x + nonsep(y, sep),
    decreases x.len(),
{
    if x.len() > 0 {
        assert((x + y)[0] == x[0]);
        assert((x + y).skip(1) =~= x.skip(1) + y);
        assert(sep_free(x.skip(1), sep)) by {
            assert forall|i: int| 0 <= i < x.skip(1).len() implies !sep.contains(#[trigger] x.skip(1)[i]) by {
                assert(x.skip(1)[i] == x[i + 1]);
            }
        }
        lemma_nonsep_free_prefix(x.skip(1), y, sep);
        assert(seq![x[0]] + (x.skip(1) + nonsep(y, sep)) =~= x + nonsep(y, sep));
    } else {
        assert(x + y =~= y);
        assert(x + nonsep(y, sep) =~= nonsep(y, sep));
    }
}

proof fn lemma_blocks_free_prefix(x: Seq<char>, y: Seq<char>, sep: Seq<char>)
    requires
        sep.len() > 0,
        sep_free(x, sep),
        sep_blocks(y, sep),
    ensures
        sep_blocks(x + y, sep),
    decreases x.len(),
{
    if x.len() > 0 {
        let s = x + y;
        assert(s[0] == x[0]);
        assert(!occurs_at(s, sep, 0)) by {
            if occurs_at(s, sep, 0) {
                assert(s.subrange(0, sep.len() as int)[0] == s[0]);
                assert(sep.contains(sep[0]));
            }
        }
        assert(s.skip(1) =~= x.skip(1) + y);
        assert(sep_free(x.skip(1), sep)) by {
            assert forall|i: int| 0 <= i < x.skip(1).len() implies !sep.contains(#[trigger] x.skip(1)[i]) by {
                assert(x.skip(1)[i] == x[i + 1]);
            }
        }
        lemma_blocks_free_prefix(x.skip(1), y, sep);
    } else {
        assert(x + y =~= y);
    }
}

/// Writing out a text made of whole separators and other characters gives
/// such a text again.
proof fn lemma_expand_blocks(s: Seq<char>, src: Seq<char>, p: int, sep: Seq<char>)
    requires
        sep.len() > 0,
        0 <= p <= src.len(),
        diac_run_end(src, p) == p,
        sep_free(src, sep),
        sep_blocks(s, sep),
    ensures
        sep_blocks(diac_expand(s, src, p).0, sep),
    decreases s.len(),
{
    if s.len() > 0 {
        if occurs_at(s, sep, 0) {
            let y = s.skip(sep.len() as int);
            assert(s =~= sep + y) by {
                assert(s.subrange(0, sep.len() as int) == sep);
            }
            lemma_sep_chars_of_sep(sep);
            lemma_expand_sep_chars(sep, y, src, p, sep);
            lemma_expand_blocks(y, src, p, sep);
            let e = diac_expand(y, src, p).0;
            assert((sep + e).subrange(0, sep.len() as int) =~= sep);
            assert((sep + e).skip(sep.len() as int) =~= e);
        } else {
            lemma_char_step_facts(src, p, s[0], sep);
            let (o1, p1) = diac_char_step(src, p, s[0]);
            lemma_expand_blocks(s.skip(1), src, p1, sep);
            lemma_blocks_free_prefix(o1, diac_expand(s.skip(1), src, p1).0, sep);
        }
    }
}

/// Taking the separators out of a text made of whole separators and other
/// characters leaves its characters that occur in no separator.
proof fn lemma_blocks_remove(s: Seq<char>, sep: Seq<char>)
    requires
        sep.len() > 0,
        sep_blocks(s, sep),
    ensures
        remove_all(s, sep) == nonsep(s, sep),
    decreases s.len(),
{
    if s.len() > 0 {
        if occurs_at(s, sep, 0) {
            let y = s.skip(sep.len() as int);
            assert(s =~= sep + y) by {
                assert(s.subrange(0, sep.len() as int) == sep);
            }
            lemma_blocks_remove(y, sep);
            lemma_sep_chars_of_sep(sep);
            lemma_nonsep_sep_chars(sep, y, sep);
        } else {
            lemma_blocks_remove(s.skip(1), sep);
        }
    }
}

/// A text from which taking the separators out leaves no separator
/// character is made of whole separators and other characters, and taking
/// the separators out leaves its characters that occur in no separator.
proof fn lemma_remove_free_blocks(s: Seq<char>, sep: Seq<char>)
    requires
        sep.len() > 0,
        sep_free(remove_all(s, sep), sep),
    ensures
        sep_blocks(s, sep),
        remove_all(s, sep) == nonsep(s, sep),
    decreases s.len(),
{
    if s.len() > 0 {
        if occurs_at(s, sep, 0) {
            let y = s.skip(sep.len() as int);
            assert(s =~= sep + y) by {
                assert(s.subrange(0, sep.len() as int) == sep);
            }
            lemma_remove_free_blocks(y, sep);
            lemma_sep_chars_of_sep(sep);
            lemma_nonsep_sep_chars(sep, y, sep);
        } else {
            let r = remove_all(s.skip(1), sep);
            assert(remove_all(s, sep) == seq![s[0]] + r);
            assert(!sep.contains(s[0])) by {
                assert((seq![s[0]] + r)[0] == s[0]);
            }
            lemma_sep_free_split(seq![s[0]], r, sep);
            lemma_remove_free_blocks(s.skip(1), sep);
        }
    }
}

/// A segment written out by `apply_diacritics` is the segment's characters
/// written out one by one: a separator found in it is made of separator
/// characters, which come out as they are.
proof fn lemma_diac_seg_expand(seg: Seq<char>, sep: Seq<char>, src: Seq<char>, pos: int, p: int)
    requires
        sep.len() > 0,
        sep_free(src, sep),
        0 <= pos <= seg.len(),
        0 <= p <= src.len(),
        diac_run_end(src, p) == p,
    ensures
        diac_seg_from(seg, sep, src, pos, p) == diac_expand(seg.skip(pos), src, p),
    decreases seg.len() - pos,
{
    if pos >= seg.len() {
        assert(seg.skip(pos) =~= Seq::<char>::empty());
    } else if occurs_at(seg, sep, pos) {
        let y = seg.skip(pos + sep.len());
        assert(seg.skip(pos) =~= sep + y) by {
            assert(seg.subrange(pos, pos + sep.len()) == sep);
        }
        lemma_sep_chars_of_sep(sep);
        lemma_expand_sep_chars(sep, y, src, p, sep);
        lemma_diac_seg_expand(seg, sep, src, pos + sep.len(), p);
    } else {
        lemma_char_step_facts(src, p, seg[pos], sep);
        let p1 = diac_char_step(src, p, seg[pos]).1;
        assert(seg.skip(pos)[0] == seg[pos]);
        assert(seg.skip(pos).skip(1) =~= seg.skip(pos + 1));
        lemma_diac_seg_expand(seg, sep, src, pos + 1, p1);
    }
}

/// The segments from `idx` on (past the first), written out by
/// `apply_diacritics`: as many, a lone separator where there was one, and
/// all together the segments' characters written out one by one.
proof fn lemma_diac_segs_expand(segs: Seq<Seq<char>>, sep: Seq<char>, src: Seq<char>, idx: int, p: int, leading: Seq<char>)
    requires
        sep.len() > 0,
        sep_free(src, sep),
        1 <= idx <= segs.len(),
        0 <= p <= src.len(),
        diac_run_end(src, p) == p,
    ensures
        diac_segs_from(segs, sep, src, idx, p, leading).len() == segs.len() - idx,
        forall|k: int|
            0 <= k < segs.len() - idx && segs[idx + k] == sep ==> #[trigger] diac_segs_from(
                segs,
                sep,
                src,
                idx,
                p,
                leading,
            )[k] == sep,
        concat_seqs(diac_segs_from(segs, sep, src, idx, p, leading)) == diac_expand(
            concat_seqs(segs.skip(idx)),
            src,
            p,
        ).0,
    decreases segs.len() - idx,
{
    let res = diac_segs_from(segs, sep, src, idx, p, leading);
    if idx >= segs.len() {
        assert(segs.skip(idx) =~= Seq::<Seq<char>>::empty());
    } else {
        lemma_concat_skip(segs, idx);
        let seg = segs[idx];
        let rest = concat_seqs(segs.skip(idx + 1));
        lemma_expand_append(seg, rest, src, p);
        if seg == sep {
            lemma_sep_chars_of_sep(sep);
            lemma_expand_sep_chars(sep, seq![], src, p, sep);
            assert(sep + Seq::<char>::empty() =~= sep);
            assert(diac_expand(Seq::<char>::empty(), src, p) == (Seq::<char>::empty(), p));
            lemma_diac_segs_expand(segs, sep, src, idx + 1, p, leading);
            let tail = diac_segs_from(segs, sep, src, idx + 1, p, leading);
            assert(res == seq![sep] + tail);
            lemma_concat_prepend(sep, tail);
            assert forall|k: int| 0 <= k < segs.len() - idx && segs[idx + k] == sep implies #[trigger] res[k] == sep by {
                if k > 0 {
                    assert(res[k] == tail[k - 1]);
                    assert(segs[idx + 1 + (k - 1)] == segs[idx + k]);
                }
            }
        } else {
            lemma_diac_seg_expand(seg, sep, src, 0, p);
            assert(seg.skip(0) =~= seg);
            lemma_expand_reads(seg, src, p, sep);
            let (o, p2) = diac_seg_from(seg, sep, src, 0, p);
            lemma_diac_segs_expand(segs, sep, src, idx + 1, p2, leading);
            let tail = diac_segs_from(segs, sep, src, idx + 1, p2, leading);
            assert(res == seq![Seq::<char>::empty() + o] + tail);
            assert(Seq::<char>::empty() + o =~= o);
            lemma_concat_prepend(o, tail);
            assert forall|k: int| 0 <= k < segs.len() - idx && segs[idx + k] == sep implies #[trigger] res[k] == sep by {
                if k > 0 {
                    assert(res[k] == tail[k - 1]);
                    assert(segs[idx + 1 + (k - 1)] == segs[idx + k]);
                }
            }
        }
    }
}

/// The diacritized segments spell the diacritized word: when the separator
/// is not empty and none of its characters occurs in the diacritized word,
/// and the segments, the first not a lone separator, spell the word without
/// its diacritics once the separators are taken out, then `apply_diacritics`
/// gives as many segments, a lone separator where there was one, which with
/// the separators taken out spell the diacritized word.
pub proof fn lemma_diacritized_segments_spell(segs: Seq<Seq<char>>, diacritized: Seq<char>, sep: Seq<char>)
    requires
        sep.len() > 0,
        sep_free(diacritized, sep),
        segs.len() > 0,
        segs[0] != sep,
        remove_all(concat_seqs(segs), sep) == without_diacs(diacritized),
    ensures
        diacritized_segments(segs, diacritized, sep).len() == segs.len(),
        forall|k: int|
            0 <= k < segs.len() && segs[k] == sep ==> #[trigger] diacritized_segments(segs, diacritized, sep)[k] == sep,
        remove_all(concat_seqs(diacritized_segments(segs, diacritized, sep)), sep) == diacritized,
{
    let src = diacritized;
    let all = concat_seqs(segs);
    // The segments are whole separators and characters of the word.
    assert(src.skip(0) =~= src);
    lemma_without_diacs_free(src, sep);
    lemma_remove_free_blocks(all, sep);
    lemma_diac_run_end(src, 0);
    let q = diac_run_end(src, 0);
    let leading = src.take(q);
    lemma_without_diacs_run(src, 0);
    lemma_diac_run_end(src, q);
    assert(diac_run_end(src, q) == q) by {
        if q < src.len() {
            assert(!is_diac(src[q]));
        }
    }
    // The segments written out one after the other are their characters
    // written out.
    let seg = segs[0];
    let (o, p2) = diac_seg_from(seg, sep, src, 0, q);
    let tail = diac_segs_from(segs, sep, src, 1, p2, leading);
    let res = diacritized_segments(segs, diacritized, sep);
    assert(res == seq![leading + o] + tail);
    assert(concat_seqs(res) == leading + diac_expand(all, src, q).0) by {
        lemma_concat_skip(segs, 0);
        assert(segs.skip(0) =~= segs);
        let rest = concat_seqs(segs.skip(1));
        lemma_expand_append(seg, rest, src, q);
        lemma_diac_seg_expand(seg, sep, src, 0, q);
        assert(seg.skip(0) =~= seg);
        lemma_expand_reads(seg, src, q, sep);
        lemma_diac_segs_expand(segs, sep, src, 1, p2, leading);
        lemma_concat_prepend(leading + o, tail);
        assert(leading + o + concat_seqs(tail) =~= leading + (o + concat_seqs(tail)));
    }
    assert(res.len() == segs.len() && forall|k: int| 0 <= k < segs.len() && segs[k] == sep ==> #[trigger] res[k] == sep) by {
        lemma_diac_seg_expand(seg, sep, src, 0, q);
        assert(seg.skip(0) =~= seg);
        lemma_expand_reads(seg, src, q, sep);
        lemma_diac_segs_expand(segs, sep, src, 1, p2, leading);
        assert forall|k: int| 0 <= k < segs.len() && segs[k] == sep implies #[trigger] res[k] == sep by {
            if k > 0 {
                assert(res[k] == tail[k - 1]);
                assert(segs[1 + (k - 1)] == segs[k]);
            }
        }
    }
    lemma_whole_word_written(src, all, q, sep);
}

/// The characters of the segments written out after the word's leading
/// diacritics, with the separators taken out, spell the diacritized word.
proof fn lemma_whole_word_written(src: Seq<char>, all: Seq<char>, q: int, sep: Seq<char>)
    requires
        sep.len() > 0,
        sep_free(src, sep),
        q == diac_run_end(src, 0),
        0 <= q <= src.len(),
        diac_run_end(src, q) == q,
        sep_blocks(all, sep),
        nonsep(all, sep) == without_diacs(src.skip(q)),
    ensures
        remove_all(src.take(q) + diac_expand(all, src, q).0, sep) == src,
{
    let leading = src.take(q);
    let x = diac_expand(all, src, q);
    lemma_expand_reads(all, src, q, sep);
    let w = without_diacs(src.skip(q));
    assert(w.take(nonsep(all, sep).len() as int) =~= w);
    assert(w.skip(nonsep(all, sep).len() as int) =~= Seq::<char>::empty());
    // Reading ends at the end of the word.
    assert(x.1 == src.len()) by {
        if x.1 < src.len() {
            lemma_diac_run_end(src, x.1 + 1);
            assert(!is_diac(src[x.1]));
            lemma_without_diacs_at(src, x.1);
        }
    }
    lemma_expand_blocks(all, src, q, sep);
    lemma_sep_free_sub(src, 0, q, sep);
    assert(src.subrange(0, q) =~= leading);
    lemma_blocks_free_prefix(leading, x.0, sep);
    lemma_blocks_remove(leading + x.0, sep);
    lemma_nonsep_free_prefix(leading, x.0, sep);
    assert(leading + src.subrange(q, src.len() as int) =~= src);
}

} // verus!
