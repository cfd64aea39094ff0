//! A stemmer that reads the text in compact tokens and also cuts the words
//! that the analysis leaves uncut (`NOAN`), by the supplementary word lists:
//! the article `ال` and a final teh marbuta become segments of their own.
use vstd::prelude::*;

use crate::analyzer::{AnalysisView, ScoredAnalysis};
use crate::chars::{chars_contain_sub, chars_of, contains_sub, extend_chars, str_eq, string_of};
use crate::stemmer::{
    all_empty, diacs_fit, ends_with_ta, has_diac, is_word_token, resolved_toks, scheme_field, settings, stem_clean, word_token,
    AnalysisCache, StemSettings,
};
use crate::text_rules::{concat_seqs, join_seqs, lemma_concat_push, lemma_join_push, split_on};
use crate::utils::{
    alef_lam_from, apply_diacritics, dediac, dediac_ar, diacritized_segments, fix_part, has_diacritics,
    merge_alef_lam, merge_all, merge_tokens, simple_word_tokenize, split_and_replace_sep, split_chars,
    split_token_on_t, str_views, string_views, t_split_all, tok_mode, tokens_from, vec_views, TAA_MARBOUTA,
    TAA_MARBOUTA_DETACHED,
};

verus! {

/// The supplementary word lists: words written with the article and a final
/// teh marbuta, with the article, and with a final teh marbuta.
pub struct NoanLists {
    pub al_t: Seq<Seq<char>>,
    pub al: Seq<Seq<char>>,
    pub t: Seq<Seq<char>>,
}

/// The lists given as arguments.
pub open spec fn noan_lists(al_t: Seq<&str>, al: Seq<&str>, t: Seq<&str>) -> NoanLists {
    NoanLists { al_t: str_views(al_t), al: str_views(al), t: str_views(t) }
}

/// The article `ال`.
pub open spec fn article() -> Seq<char> {
    seq!['\u{627}', '\u{644}']
}

/// The segments of a word that the analysis leaves uncut: the article, the
/// rest, and a final teh marbuta, each cut off when the word is on the list
/// that says so; the word whole otherwise.
pub open spec fn noan_parts(w: Seq<char>, sep: Seq<char>, lists: NoanLists) -> Seq<Seq<char>> {
    let al = w.len() >= 2 && w[0] == '\u{627}' && w[1] == '\u{644}';
    let ta = ends_with_ta(w);
    if al && ta && lists.al_t.contains(w) {
        seq![article() + sep, w.subrange(2, w.len() - 1), sep.push(w.last())]
    } else if al && lists.al.contains(w) {
        seq![article() + sep, w.skip(2)]
    } else if ta && lists.t.contains(w) {
        seq![w.drop_last(), sep.push(w.last())]
    } else {
        seq![w]
    }
}

/// The segments of a scheme's value for a word that ends with a teh
/// marbuta: the teh marbuta cut off first, then the `+` markers made `sep`
/// and a split article joined back.
pub open spec fn ta_toks(t: Seq<char>, sep: Seq<char>) -> Seq<Seq<char>> {
    let joined = join_seqs(t_split_all(split_on(t, '_'), sep), "_"@);
    alef_lam_from(split_on(joined, '_').map_values(|p: Seq<char>| fix_part(p, sep)), sep, 0)
}

/// The segments with the word's diacritics put back, when they are kept.
pub open spec fn with_diacs(toks: Seq<Seq<char>>, tok: Seq<char>, st: StemSettings) -> Seq<Seq<char>> {
    if st.preserve && has_diac(tok) {
        diacritized_segments(toks, tok, st.sep)
    } else {
        toks
    }
}

/// The segments that the stemmer cuts a word into, before any diacritics are
/// put back: for a word that ends with a teh marbuta and has a value in the
/// scheme, the value's segments when they spell the word; for a word whose
/// value is empty or `NOAN`, the segments that the lists give; else the
/// segments of the first scheme that cuts the word. `None` when the word is
/// written as it is.
pub open spec fn noan_cut(tok: Seq<char>, an: Map<Seq<char>, Seq<AnalysisView>>, st: StemSettings, lists: NoanLists) -> Option<Seq<Seq<char>>> {
    let d = dediac(tok);
    if !(an.contains_key(d) && an[d].len() > 0) {
        None
    } else {
        let a = an[d][0];
        let ta = ends_with_ta(d);
        let raw = scheme_field(a, st.scheme);
        if ta && raw.len() > 0 {
            let toks = ta_toks(dediac(raw), st.sep);
            if merge_all(toks, st.sep) == d && toks.len() > 1 {
                Some(toks)
            } else {
                None
            }
        } else if raw.len() == 0 || contains_sub(dediac(raw), "NOAN"@) {
            Some(noan_parts(d, st.sep, lists))
        } else {
            resolved_toks(a, st, d, ta)
        }
    }
}

/// What the stemmer writes for a word: its segments, with its diacritics
/// put back when they are kept, or the word itself when it is not cut.
pub open spec fn noan_word_text(tok: Seq<char>, an: Map<Seq<char>, Seq<AnalysisView>>, st: StemSettings, lists: NoanLists) -> Seq<char> {
    match noan_cut(tok, an, st, lists) {
        Some(t) => concat_seqs(with_diacs(t, tok, st)),
        None => tok,
    }
}

/// The stemmer comes to an end on a word: it is not cut, or the diacritics
/// can be put back on its segments.
pub open spec fn noan_word_returns(tok: Seq<char>, an: Map<Seq<char>, Seq<AnalysisView>>, st: StemSettings, lists: NoanLists) -> bool {
    match noan_cut(tok, an, st, lists) {
        None => true,
        Some(t) => diacs_fit(t, tok, st),
    }
}

/// The stemmer comes to an end on a text: on each of its word tokens.
pub open spec fn noan_returns(text: Seq<char>, an: Map<Seq<char>, Seq<AnalysisView>>, st: StemSettings, lists: NoanLists) -> bool {
    let toks = compact_tokens(text);
    forall|i: int| 0 <= i < toks.len() && word_token(toks[i]) ==> #[trigger] noan_word_returns(toks[i], an, st, lists)
}

/// What the stemmer writes for a list of tokens: other tokens as they are.
pub open spec fn noan_tokens_text(toks: Seq<Seq<char>>, an: Map<Seq<char>, Seq<AnalysisView>>, st: StemSettings, lists: NoanLists) -> Seq<char>
    decreases toks.len(),
{
    if toks.len() == 0 {
        seq![]
    } else {
        noan_tokens_text(toks.drop_last(), an, st, lists) + if word_token(toks.last()) {
            noan_word_text(toks.last(), an, st, lists)
        } else {
            toks.last()
        }
    }
}

/// The compact tokens of a text as the stemmer reads them.
pub open spec fn compact_tokens(text: Seq<char>) -> Seq<Seq<char>> {
    tokens_from(tok_mode("compact"@), stem_clean(text), 0)
}

/// Whether a list holds a word.
fn list_has(ws: &[&str], w: &[char]) -> (r: bool)
    ensures
        r == str_views(ws@).contains(w@),
{
    let ghost vs = str_views(ws@);
    let s = string_of(w);
    let mut i: usize = 0;
    while i < ws.len()
        invariant
            vs == str_views(ws@),
            s@ == w@,
            i <= ws@.len(),
            forall|k: int| 0 <= k < i ==> vs[k] != w@,
        decreases ws@.len() - i,
    {
        assert(vs[i as int] == ws@[i as int]@);
        if str_eq(ws[i], s.as_str()) {
            assert(vs[i as int] == w@);
            return true;
        }
        i += 1;
    }
    false
}

/// The segments of a word that the analysis leaves uncut.
fn process_noan_word(w: &[char], sep: &str, al_t: &[&str], al: &[&str], t: &[&str]) -> (r: Vec<String>)
    ensures
        string_views(r@) == noan_parts(w@, sep@, noan_lists(al_t@, al@, t@)),
{
    let s = chars_of(sep);
    let n = w.len();
    let starts_al = n >= 2 && w[0] == '\u{627}' && w[1] == '\u{644}';
    let ends_ta = n > 0 && (w[n - 1] == TAA_MARBOUTA || w[n - 1] == TAA_MARBOUTA_DETACHED);
    let mut art = vec!['\u{627}', '\u{644}'];
    extend_chars(&mut art, s.as_slice());
    assert(art@ =~= article() + sep@);
    if starts_al && ends_ta && list_has(al_t, w) {
        let mut last = crate::chars::copy_chars(s.as_slice());
        last.push(w[n - 1]);
        let mid = crate::chars::chars_slice(w, 2, n - 1);
        let r = vec![string_of(art.as_slice()), string_of(mid.as_slice()), string_of(last.as_slice())];
        assert(string_views(r@) =~= seq![article() + sep@, w@.subrange(2, n - 1), sep@.push(w@.last())]);
        return r;
    }
    if starts_al && list_has(al, w) {
        let rest = crate::chars::chars_slice(w, 2, n);
        let r = vec![string_of(art.as_slice()), string_of(rest.as_slice())];
        assert(string_views(r@) =~= seq![article() + sep@, w@.skip(2)]);
        return r;
    }
    if ends_ta && list_has(t, w) {
        let mut last = crate::chars::copy_chars(s.as_slice());
        last.push(w[n - 1]);
        let head = crate::chars::chars_slice(w, 0, n - 1);
        let r = vec![string_of(head.as_slice()), string_of(last.as_slice())];
        assert(string_views(r@) =~= seq![w@.drop_last(), sep@.push(w@.last())]);
        return r;
    }
    let r = vec![string_of(w)];
    assert(string_views(r@) =~= seq![w@]);
    r
}

/// The parts joined with `sep`.
fn join_strings(parts: &Vec<String>, sep: &str) -> (r: String)
    ensures
        r@ == join_seqs(string_views(parts@), sep@),
{
    let ghost ps = string_views(parts@);
    let s = chars_of(sep);
    let mut out: Vec<char> = Vec::new();
    let mut i: usize = 0;
    assert(ps.take(0) =~= Seq::<Seq<char>>::empty());
    while i < parts.len()
        invariant
            ps == string_views(parts@),
            s@ == sep@,
            i <= parts@.len(),
            out@ == join_seqs(ps.take(i as int), sep@),
        decreases parts@.len() - i,
    {
        let p = chars_of(parts[i].as_str());
        proof {
            assert(ps.take(i + 1) =~= ps.take(i as int).push(p@));
            lemma_join_push(ps.take(i as int), sep@, p@);
        }
        if i > 0 {
            extend_chars(&mut out, s.as_slice());
        }
        extend_chars(&mut out, p.as_slice());
        i += 1;
    }
    assert(ps.take(parts@.len() as int) =~= ps);
    string_of(out.as_slice())
}

fn strings_of_pieces(pieces: &Vec<Vec<char>>) -> (r: Vec<String>)
    ensures
        string_views(r@) == vec_views(pieces@),
{
    let mut r: Vec<String> = Vec::new();
    let mut i: usize = 0;
    while i < pieces.len()
        invariant
            i <= pieces@.len(),
            string_views(r@) == vec_views(pieces@).take(i as int),
        decreases pieces@.len() - i,
    {
        let ghost before = string_views(r@);
        let p = string_of(pieces[i].as_slice());
        r.push(p);
        assert(string_views(r@) =~= before.push(p@));
        assert(vec_views(pieces@).take(i + 1) =~= vec_views(pieces@).take(i as int).push(p@));
        i += 1;
    }
    assert(vec_views(pieces@).take(pieces@.len() as int) =~= vec_views(pieces@));
    r
}

/// The segments of a scheme's value for a word that ends with a teh marbuta.
fn ta_segments(t: &str, sep: &str) -> (r: Vec<String>)
    ensures
        string_views(r@) == ta_toks(t@, sep@),
{
    let tc = chars_of(t);
    let parts = split_chars(tc.as_slice(), '_');
    let toks = strings_of_pieces(&parts);
    let toks = split_token_on_t(toks, sep);
    let joined = join_strings(&toks, "_");
    let toks = split_and_replace_sep(joined.as_str(), sep);
    merge_alef_lam(toks, sep)
}

/// Appends the characters of strings to a vector.
fn push_all(out: &mut Vec<char>, parts: &Vec<String>)
    ensures
        final(out)@ == old(out)@ + concat_seqs(string_views(parts@)),
{
    let ghost ps = string_views(parts@);
    let mut i: usize = 0;
    assert(ps.take(0) =~= Seq::<Seq<char>>::empty());
    assert(out@ =~= old(out)@ + concat_seqs(ps.take(0)));
    while i < parts.len()
        invariant
            ps == string_views(parts@),
            i <= parts@.len(),
            out@ == old(out)@ + concat_seqs(ps.take(i as int)),
        decreases parts@.len() - i,
    {
        let cs = chars_of(parts[i].as_str());
        proof {
            assert(ps.take(i + 1) =~= ps.take(i as int).push(cs@));
            lemma_concat_push(ps.take(i as int), cs@);
        }
        extend_chars(out, cs.as_slice());
        i += 1;
    }
    assert(ps.take(parts@.len() as int) =~= ps);
}

/// The segments with the word's diacritics put back when they are kept.
fn diacritize(toks: Vec<String>, tok: &str, sep: &str, preserve: bool) -> (r: Vec<String>)
    requires
        sep@.len() > 0 || !(preserve && has_diac(tok@)) || all_empty(string_views(toks@)),
    ensures
        string_views(r@) == if preserve && has_diac(tok@) {
            diacritized_segments(string_views(toks@), tok@, sep@)
        } else {
            string_views(toks@)
        },
{
    if preserve && has_diacritics(tok) {
        assert(sep@.len() > 0 || forall|i: int| 0 <= i < toks@.len() ==> #[trigger] toks@[i]@.len() == 0) by {
            if sep@.len() == 0 {
                assert forall|i: int| 0 <= i < toks@.len() implies #[trigger] toks@[i]@.len() == 0 by {
                    assert(string_views(toks@)[i] == toks@[i]@);
                }
            }
        }
        apply_diacritics(toks.as_slice(), tok, sep)
    } else {
        toks
    }
}

/// The segments that the stemmer cuts a word into, before any diacritics
/// are put back.
fn cut_noan_word(
    tok: &str,
    cache: &AnalysisCache,
    sep: &str,
    scheme: &str,
    preserve: bool,
    fallback: &[&str],
    al_t: &[&str],
    al: &[&str],
    t: &[&str],
) -> (r: Option<Vec<String>>)
    ensures
        match noan_cut(tok@, cache@, settings(sep, scheme, preserve, fallback@), noan_lists(al_t@, al@, t@)) {
            None => r is None,
            Some(c) => r is Some && string_views(r->Some_0@) == c,
        },
{
    let d = dediac_ar(tok);
    let list = match cache.entries.get(d.as_str()) {
        None => {
            return None;
        },
        Some(l) => l,
    };
    if list.len() == 0 {
        return None;
    }
    let a: &ScoredAnalysis = &list[0];
    assert(cache@[d@][0] == a@);
    let dc = chars_of(d.as_str());
    let ta = dc.len() > 0 && (dc[dc.len() - 1] == TAA_MARBOUTA || dc[dc.len() - 1] == TAA_MARBOUTA_DETACHED);
    let raw = crate::stemmer::scheme_field_of(a, scheme);
    let rc = chars_of(raw.as_str());
    if ta && rc.len() > 0 {
        let t0 = dediac_ar(raw.as_str());
        let toks = ta_segments(t0.as_str(), sep);
        let merged = merge_tokens(toks.as_slice(), sep);
        if str_eq(merged.as_str(), d.as_str()) && toks.len() > 1 {
            return Some(toks);
        } else {
            return None;
        }
    }
    let dr = dediac_ar(raw.as_str());
    let drc = chars_of(dr.as_str());
    let noan = chars_of("NOAN");
    if rc.len() == 0 || chars_contain_sub(drc.as_slice(), noan.as_slice()) {
        return Some(process_noan_word(dc.as_slice(), sep, al_t, al, t));
    }
    crate::stemmer::resolve(a, scheme, fallback, d.as_str(), sep, ta)
}

/// Writes one word.
fn stem_word(
    out: &mut Vec<char>,
    tok: &str,
    cache: &AnalysisCache,
    sep: &str,
    scheme: &str,
    preserve: bool,
    fallback: &[&str],
    al_t: &[&str],
    al: &[&str],
    t: &[&str],
)
    requires
        noan_word_returns(tok@, cache@, settings(sep, scheme, preserve, fallback@), noan_lists(al_t@, al@, t@)),
    ensures
        final(out)@ == old(out)@ + noan_word_text(
            tok@,
            cache@,
            settings(sep, scheme, preserve, fallback@),
            noan_lists(al_t@, al@, t@),
        ),
{
    match cut_noan_word(tok, cache, sep, scheme, preserve, fallback, al_t, al, t) {
        Some(toks) => {
            let toks = diacritize(toks, tok, sep, preserve);
            push_all(out, &toks);
        },
        None => {
            let tc = chars_of(tok);
            extend_chars(out, tc.as_slice());
        },
    }
}

/// Whether `stem` comes to an end on these arguments: it does unless
/// diacritics are kept with an empty separator and a word that carries
/// diacritics is cut into segments that are not all empty.
pub fn stem_accepts(
    text: &str,
    cache: &AnalysisCache,
    sep: &str,
    scheme: &str,
    preserve_diacritics: bool,
    fallback: &[&str],
    al_t_words: &[&str],
    al_words: &[&str],
    t_words: &[&str],
) -> (r: bool)
    ensures
        r == noan_returns(
            text@,
            cache@,
            settings(sep, scheme, preserve_diacritics, fallback@),
            noan_lists(al_t_words@, al_words@, t_words@),
        ),
{
    let ghost st = settings(sep, scheme, preserve_diacritics, fallback@);
    let ghost lists = noan_lists(al_t_words@, al_words@, t_words@);
    let clean = crate::stemmer::clean_text(text);
    let cs = string_of(clean.as_slice());
    let tokens = simple_word_tokenize(cs.as_str(), "compact");
    let ghost tv = string_views(tokens@);
    let sepc = chars_of(sep);
    let mut i: usize = 0;
    while i < tokens.len()
        invariant
            tv == string_views(tokens@),
            tv == compact_tokens(text@),
            st == settings(sep, scheme, preserve_diacritics, fallback@),
            lists == noan_lists(al_t_words@, al_words@, t_words@),
            sepc@ == sep@,
            i <= tokens@.len(),
            forall|k: int| 0 <= k < i && word_token(tv[k]) ==> #[trigger] noan_word_returns(tv[k], cache@, st, lists),
        decreases tokens@.len() - i,
    {
        let tok = &tokens[i];
        assert(tv[i as int] == tok@);
        let tc = chars_of(tok.as_str());
        if is_word_token(tc.as_slice()) && preserve_diacritics && sepc.len() == 0 && has_diacritics(tok.as_str()) {
            match cut_noan_word(
                tok.as_str(),
                cache,
                sep,
                scheme,
                preserve_diacritics,
                fallback,
                al_t_words,
                al_words,
                t_words,
            ) {
                Some(c) => {
                    if crate::stemmer::any_nonempty(&c) {
                        assert(!noan_word_returns(tv[i as int], cache@, st, lists));
                        return false;
                    }
                },
                None => {},
            }
        }
        assert(word_token(tv[i as int]) ==> noan_word_returns(tv[i as int], cache@, st, lists));
        i += 1;
    }
    true
}

/// Cuts each word of `text`, read in compact tokens, into the segments of
/// its best analysis in `cache` under scheme `scheme` (or the first of
/// `fallback` that cuts it), with `sep` marking the cuts; a word whose
/// analysis has no segmentation is cut by the supplementary word lists
/// (`al_t_words`, `al_words`, `t_words`). Tatweel and zero-width characters
/// are dropped; other tokens and words without an analysis are written as
/// they are.
pub fn stem(
    text: &str,
    cache: &AnalysisCache,
    sep: &str,
    scheme: &str,
    preserve_diacritics: bool,
    fallback: &[&str],
    al_t_words: &[&str],
    al_words: &[&str],
    t_words: &[&str],
) -> (r: String)
    requires
        noan_returns(
            text@,
            cache@,
            settings(sep, scheme, preserve_diacritics, fallback@),
            noan_lists(al_t_words@, al_words@, t_words@),
        ),
    ensures
        r@ == noan_tokens_text(
            compact_tokens(text@),
            cache@,
            settings(sep, scheme, preserve_diacritics, fallback@),
            noan_lists(al_t_words@, al_words@, t_words@),
        ),
{
    let ghost st = settings(sep, scheme, preserve_diacritics, fallback@);
    let ghost lists = noan_lists(al_t_words@, al_words@, t_words@);
    let clean = crate::stemmer::clean_text(text);
    let cs = string_of(clean.as_slice());
    let tokens = simple_word_tokenize(cs.as_str(), "compact");
    let ghost tv = string_views(tokens@);
    let mut out: Vec<char> = Vec::new();
    let mut i: usize = 0;
    assert(tv.take(0) =~= Seq::<Seq<char>>::empty());
    while i < tokens.len()
        invariant
            tv == string_views(tokens@),
            tv == compact_tokens(text@),
            st == settings(sep, scheme, preserve_diacritics, fallback@),
            lists == noan_lists(al_t_words@, al_words@, t_words@),
            noan_returns(text@, cache@, st, lists),
            i <= tokens@.len(),
            out@ == noan_tokens_text(tv.take(i as int), cache@, st, lists),
        decreases tokens@.len() - i,
    {
        assert(tv.take(i + 1).drop_last() =~= tv.take(i as int));
        let tok = &tokens[i];
        assert(tv.take(i + 1).last() == tok@);
        let tc = chars_of(tok.as_str());
        if !is_word_token(tc.as_slice()) {
            extend_chars(&mut out, tc.as_slice());
        } else {
            assert(tv[i as int] == tok@);
            assert(noan_word_returns(tv[i as int], cache@, st, lists));
            stem_word(
                &mut out,
                tok.as_str(),
                cache,
                sep,
                scheme,
                preserve_diacritics,
                fallback,
                al_t_words,
                al_words,
                t_words,
            );
        }
        i += 1;
    }
    assert(tv.take(tokens@.len() as int) =~= tv);
    string_of(out.as_slice())
}

} // verus!
