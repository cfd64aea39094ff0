//! The stemmer: it cuts each word of a text into the segments of its best
//! analysis, and gives the result as a string or as tagged pieces.
use vstd::hash_map::StringHashMap;
use vstd::hash_set::StringHashSet;
use vstd::prelude::*;

use crate::analyzer::{analysis_views, trim_chars, trimmed, AnalysisView, ScoredAnalysis};
use crate::chars::{
    chars_contain_sub, chars_ends_with, chars_of, chars_slice, chars_starts_with, contains_sub, str_eq,
    string_of,
};
use crate::morphology_db::entry_views;
use crate::outside::{alphanumeric, char_in_class, in_class, is_alphanumeric};
use crate::text_rules::{concat_seqs, is_dediac_mark, is_diac, lemma_concat_append, lemma_concat_push, split_on};
use crate::utils::{
    alef_lam_from, apply_diacritics, dediac, lemma_remove_free_prefix, merge_piece, lemma_remove_merged, lemma_tokens_cover,
    matched_from, remove_all, sep_free, tok_matched, dediac_ar, diacritized_segments, fix_part, has_diacritics,
    merge_alef_lam, merge_all, merge_tokens, nonempty_parts, simple_word_tokenize, split_and_replace_sep,
    split_chars, split_token_on_t, str_views, string_views, t_split_all, tok_mode, tokens_from, vec_views,
    TAA_MARBOUTA, TAA_MARBOUTA_DETACHED, WORD_CLASS, match_end, run_end, lemma_run_end, tok_class, tok_alternatives,
};

verus! {

// ---------------------------------------------------------------------------
// Settings and the analyses of words

/// How the stemmer cuts words.
pub struct StemSettings {
    /// The separator written between segments.
    pub sep: Seq<char>,
    /// The tokenization scheme read first.
    pub scheme: Seq<char>,
    /// Whether a word's diacritics are put back on its segments.
    pub preserve: bool,
    /// The schemes tried, in order, when the first gives no cut.
    pub fallback: Seq<Seq<char>>,
}

/// The settings given as arguments.
pub open spec fn settings(sep: &str, scheme: &str, preserve: bool, fallback: Seq<&str>) -> StemSettings {
    StemSettings { sep: sep@, scheme: scheme@, preserve, fallback: str_views(fallback) }
}

/// The best analyses of words, by their dediacritized form.
pub struct AnalysisCache {
    pub entries: StringHashMap<Vec<ScoredAnalysis>>,
}

impl View for AnalysisCache {
    type V = Map<Seq<char>, Seq<AnalysisView>>;

    open spec fn view(&self) -> Map<Seq<char>, Seq<AnalysisView>> {
        entry_views(self.entries@)
    }
}

/// The keys of a list that a map does not hold, in order.
pub open spec fn missing_from(keys: Seq<Seq<char>>, m: Map<Seq<char>, Seq<AnalysisView>>) -> Seq<Seq<char>>
    decreases keys.len(),
{
    if keys.len() == 0 {
        seq![]
    } else {
        let p = missing_from(keys.drop_last(), m);
        if m.contains_key(keys.last()) {
            p
        } else {
            p.push(keys.last())
        }
    }
}

impl AnalysisCache {
    /// An empty cache.
    pub fn new() -> (c: Self)
        ensures
            c@ == Map::<Seq<char>, Seq<AnalysisView>>::empty(),
    {
        let c = AnalysisCache { entries: StringHashMap::new() };
        assert(c@ =~= Map::<Seq<char>, Seq<AnalysisView>>::empty());
        c
    }

    /// The number of words in the cache.
    pub fn len(&self) -> (n: usize)
        ensures
            n == self.entries@.len(),
    {
        self.entries.len()
    }

    /// Whether the cache holds the analyses of `word`.
    pub fn contains(&self, word: &str) -> (r: bool)
        ensures
            r == self@.contains_key(word@),
    {
        self.entries.contains_key(word)
    }

    /// Records the analyses of `word`.
    pub fn insert(&mut self, word: String, analyses: Vec<ScoredAnalysis>)
        ensures
            final(self)@ == old(self)@.insert(word@, analysis_views(analyses@)),
    {
        let ghost w = word@;
        let ghost av = analysis_views(analyses@);
        self.entries.insert(word, analyses);
        assert(self@ =~= old(self)@.insert(w, av));
    }

    /// Empties the cache.
    pub fn clear(&mut self)
        ensures
            final(self)@ == Map::<Seq<char>, Seq<AnalysisView>>::empty(),
    {
        self.entries.clear();
        assert(self@ =~= Map::<Seq<char>, Seq<AnalysisView>>::empty());
    }

    /// Empties the cache when a limit is set (`max_cache_size > 0`) and the
    /// cache holds more words than it.
    pub fn prune(&mut self, max_cache_size: usize)
        ensures
            if max_cache_size > 0 && old(self).entries@.len() > max_cache_size {
                final(self)@ == Map::<Seq<char>, Seq<AnalysisView>>::empty()
            } else {
                *final(self) == *old(self)
            },
    {
        if max_cache_size > 0 && self.entries.len() > max_cache_size {
            self.clear();
        }
    }

    /// What a cache of at most `max_cache_size` words that holds `cached`
    /// words does when `incoming` more words come: it is emptied first when
    /// they would not all fit, and it takes at most `max_cache_size` of them.
    /// Either way it then holds no more than `max_cache_size` words, none
    /// when that is 0.
    pub fn admission(cached: usize, incoming: usize, max_cache_size: usize) -> (r: (bool, usize))
        ensures
            r.0 == (cached + incoming > max_cache_size),
            r.1 == if incoming < max_cache_size {
                incoming
            } else {
                max_cache_size
            },
            (if r.0 {
                0
            } else {
                cached as int
            }) + r.1 <= max_cache_size,
            max_cache_size == 0 ==> r.1 == 0 && (r.0 || cached == 0),
    {
        let clear = incoming > max_cache_size || cached > max_cache_size - incoming;
        let take = if incoming < max_cache_size {
            incoming
        } else {
            max_cache_size
        };
        (clear, take)
    }

    /// The words of `keys` that the cache does not hold, in order.
    pub fn missing(&self, keys: &[String]) -> (r: Vec<String>)
        ensures
            string_views(r@) == missing_from(string_views(keys@), self@),
    {
        let ghost ks = string_views(keys@);
        let mut r: Vec<String> = Vec::new();
        let mut i: usize = 0;
        assert(ks.take(0) =~= Seq::<Seq<char>>::empty());
        while i < keys.len()
            invariant
                ks == string_views(keys@),
                i <= keys@.len(),
                string_views(r@) == missing_from(ks.take(i as int), self@),
            decreases keys@.len() - i,
        {
            assert(ks.take(i + 1).drop_last() =~= ks.take(i as int));
            assert(ks.take(i + 1).last() == keys@[i as int]@);
            if !self.contains(keys[i].as_str()) {
                let ghost before = string_views(r@);
                let k = keys[i].clone();
                r.push(k);
                assert(string_views(r@) =~= before.push(keys@[i as int]@));
            }
            i += 1;
        }
        assert(ks.take(keys@.len() as int) =~= ks);
        r
    }
}

// ---------------------------------------------------------------------------
// Words and schemes

/// A token that is a word: its first character is alphanumeric or lies in
/// the Arabic blocks, U+0600 to U+FEFF.
pub open spec fn word_token(t: Seq<char>) -> bool {
    t.len() > 0 && (alphanumeric(t[0]) || ('\u{600}' <= t[0] && t[0] <= '\u{feff}'))
}

/// Whether a token is a word.
pub fn is_word_token(t: &[char]) -> (r: bool)
    ensures
        r == word_token(t@),
{
    t.len() > 0 && (is_alphanumeric(t[0]) || ('\u{600}' <= t[0] && t[0] <= '\u{feff}'))
}

/// A zero-width character: the zero-width space, non-joiner and joiner,
/// the left-to-right and right-to-left marks, and the byte order mark.
pub open spec fn zero_width(c: char) -> bool {
    ('\u{200B}' <= c && c <= '\u{200F}') || c == '\u{FEFF}'
}

/// A character that the stemmer drops: tatweel or a zero-width character.
pub open spec fn dropped_char(c: char) -> bool {
    c == '\u{640}' || zero_width(c)
}

/// A text without the characters that the stemmer drops.
pub open spec fn stem_clean(s: Seq<char>) -> Seq<char>
    decreases s.len(),
{
    if s.len() == 0 {
        seq![]
    } else if dropped_char(s.last()) {
        stem_clean(s.drop_last())
    } else {
        stem_clean(s.drop_last()).push(s.last())
    }
}

/// Drops tatweel and the zero-width characters.
pub(crate) fn clean_text(text: &str) -> (r: Vec<char>)
    ensures
        r@ == stem_clean(text@),
{
    let cs = chars_of(text);
    let mut r: Vec<char> = Vec::new();
    let mut i: usize = 0;
    assert(cs@.take(0) =~= Seq::<char>::empty());
    while i < cs.len()
        invariant
            cs@ == text@,
            i <= cs@.len(),
            r@ == stem_clean(cs@.take(i as int)),
        decreases cs@.len() - i,
    {
        assert(cs@.take(i + 1).drop_last() =~= cs@.take(i as int));
        let c = cs[i];
        if !(c == '\u{640}' || ('\u{200B}' <= c && c <= '\u{200F}') || c == '\u{FEFF}') {
            r.push(c);
        }
        i += 1;
    }
    assert(cs@.take(cs@.len() as int) =~= cs@);
    r
}

/// The tokens of a text as the stemmer reads them.
pub open spec fn stem_tokens(text: Seq<char>) -> Seq<Seq<char>> {
    tokens_from(tok_mode("full"@), stem_clean(text), 0)
}

/// The value of a tokenization scheme in an analysis (`d3tok` for a scheme
/// it does not know).
pub open spec fn scheme_field(a: AnalysisView, scheme: Seq<char>) -> Seq<char> {
    if scheme == "d1seg"@ {
        a.d1seg
    } else if scheme == "d2seg"@ {
        a.d2seg
    } else if scheme == "d3seg"@ {
        a.d3seg
    } else if scheme == "atbseg"@ {
        a.atbseg
    } else if scheme == "d1tok"@ {
        a.d1tok
    } else if scheme == "d2tok"@ {
        a.d2tok
    } else if scheme == "d3tok"@ {
        a.d3tok
    } else if scheme == "atbtok"@ {
        a.atbtok
    } else if scheme == "bwtok"@ {
        a.bwtok
    } else {
        a.d3tok
    }
}

/// A scheme reads the field of the analysis that has its name: the cut
/// that scheme `d1seg`, `d2seg`, `d3seg`, `atbseg`, `d1tok`, `d2tok`,
/// `d3tok`, `atbtok` or `bwtok` gives depends on that field alone (two
/// analyses that agree on it are cut alike), and any other scheme name
/// reads `d3tok`.
pub proof fn lemma_scheme_reads_its_field(a: AnalysisView, b: AnalysisView, scheme: Seq<char>, d: Seq<char>, sep: Seq<char>, ta: bool)
    ensures
        a.d1seg == b.d1seg ==> scheme_toks(a, "d1seg"@, d, sep, ta) == scheme_toks(b, "d1seg"@, d, sep, ta),
        scheme_field(a, "d1seg"@) == a.d1seg,
        a.d2seg == b.d2seg ==> scheme_toks(a, "d2seg"@, d, sep, ta) == scheme_toks(b, "d2seg"@, d, sep, ta),
        scheme_field(a, "d2seg"@) == a.d2seg,
        a.d3seg == b.d3seg ==> scheme_toks(a, "d3seg"@, d, sep, ta) == scheme_toks(b, "d3seg"@, d, sep, ta),
        scheme_field(a, "d3seg"@) == a.d3seg,
        a.atbseg == b.atbseg ==> scheme_toks(a, "atbseg"@, d, sep, ta) == scheme_toks(b, "atbseg"@, d, sep, ta),
        scheme_field(a, "atbseg"@) == a.atbseg,
        a.d1tok == b.d1tok ==> scheme_toks(a, "d1tok"@, d, sep, ta) == scheme_toks(b, "d1tok"@, d, sep, ta),
        scheme_field(a, "d1tok"@) == a.d1tok,
        a.d2tok == b.d2tok ==> scheme_toks(a, "d2tok"@, d, sep, ta) == scheme_toks(b, "d2tok"@, d, sep, ta),
        scheme_field(a, "d2tok"@) == a.d2tok,
        a.d3tok == b.d3tok ==> scheme_toks(a, "d3tok"@, d, sep, ta) == scheme_toks(b, "d3tok"@, d, sep, ta),
        scheme_field(a, "d3tok"@) == a.d3tok,
        a.atbtok == b.atbtok ==> scheme_toks(a, "atbtok"@, d, sep, ta) == scheme_toks(b, "atbtok"@, d, sep, ta),
        scheme_field(a, "atbtok"@) == a.atbtok,
        a.bwtok == b.bwtok ==> scheme_toks(a, "bwtok"@, d, sep, ta) == scheme_toks(b, "bwtok"@, d, sep, ta),
        scheme_field(a, "bwtok"@) == a.bwtok,
        scheme != "d1seg"@ && scheme != "d2seg"@ && scheme != "d3seg"@ && scheme != "atbseg"@ && scheme != "d1tok"@
            && scheme != "d2tok"@ && scheme != "d3tok"@ && scheme != "atbtok"@ && scheme != "bwtok"@ ==> scheme_field(a, scheme)
            == a.d3tok,
{
    reveal_strlit("d1seg");
    reveal_strlit("d2seg");
    reveal_strlit("d3seg");
    reveal_strlit("atbseg");
    reveal_strlit("d1tok");
    reveal_strlit("d2tok");
    reveal_strlit("d3tok");
    reveal_strlit("atbtok");
    reveal_strlit("bwtok");
    assert("d2seg"@[1] != "d1seg"@[1]);
    assert("d3seg"@[1] != "d1seg"@[1]);
    assert("d3seg"@[1] != "d2seg"@[1]);
    assert("atbseg"@.len() != "d1seg"@.len());
    assert("atbseg"@.len() != "d2seg"@.len());
    assert("atbseg"@.len() != "d3seg"@.len());
    assert("d1tok"@[2] != "d1seg"@[2]);
    assert("d1tok"@[1] != "d2seg"@[1]);
    assert("d1tok"@[1] != "d3seg"@[1]);
    assert("d1tok"@.len() != "atbseg"@.len());
    assert("d2tok"@[1] != "d1seg"@[1]);
    assert("d2tok"@[2] != "d2seg"@[2]);
    assert("d2tok"@[1] != "d3seg"@[1]);
    assert("d2tok"@.len() != "atbseg"@.len());
    assert("d2tok"@[1] != "d1tok"@[1]);
    assert("d3tok"@[1] != "d1seg"@[1]);
    assert("d3tok"@[1] != "d2seg"@[1]);
    assert("d3tok"@[2] != "d3seg"@[2]);
    assert("d3tok"@.len() != "atbseg"@.len());
    assert("d3tok"@[1] != "d1tok"@[1]);
    assert("d3tok"@[1] != "d2tok"@[1]);
    assert("atbtok"@.len() != "d1seg"@.len());
    assert("atbtok"@.len() != "d2seg"@.len());
    assert("atbtok"@.len() != "d3seg"@.len());
    assert("atbtok"@[3] != "atbseg"@[3]);
    assert("atbtok"@.len() != "d1tok"@.len());
    assert("atbtok"@.len() != "d2tok"@.len());
    assert("atbtok"@.len() != "d3tok"@.len());
    assert("bwtok"@[0] != "d1seg"@[0]);
    assert("bwtok"@[0] != "d2seg"@[0]);
    assert("bwtok"@[0] != "d3seg"@[0]);
    assert("bwtok"@.len() != "atbseg"@.len());
    assert("bwtok"@[0] != "d1tok"@[0]);
    assert("bwtok"@[0] != "d2tok"@[0]);
    assert("bwtok"@[0] != "d3tok"@[0]);
    assert("bwtok"@.len() != "atbtok"@.len());
}

pub(crate) fn scheme_field_of<'a>(a: &'a ScoredAnalysis, scheme: &str) -> (r: &'a String)
    ensures
        r@ == scheme_field(a@, scheme@),
{
    if str_eq(scheme, "d1seg") {
        &a.d1seg
    } else if str_eq(scheme, "d2seg") {
        &a.d2seg
    } else if str_eq(scheme, "d3seg") {
        &a.d3seg
    } else if str_eq(scheme, "atbseg") {
        &a.atbseg
    } else if str_eq(scheme, "d1tok") {
        &a.d1tok
    } else if str_eq(scheme, "d2tok") {
        &a.d2tok
    } else if str_eq(scheme, "d3tok") {
        &a.d3tok
    } else if str_eq(scheme, "atbtok") {
        &a.atbtok
    } else if str_eq(scheme, "bwtok") {
        &a.bwtok
    } else {
        &a.d3tok
    }
}

/// The segments that scheme `scheme` of an analysis cuts a word into, when
/// they put back together give the word (dediacritized, `d`) and there are
/// at least two of them. The scheme's value is dediacritized and cut at `_`,
/// its `+` markers become `sep`; a final teh marbuta is cut off when the word
/// ends with one (`ta`); a split article is joined back.
pub open spec fn scheme_toks(a: AnalysisView, scheme: Seq<char>, d: Seq<char>, sep: Seq<char>, ta: bool) -> Option<Seq<Seq<char>>> {
    let raw = scheme_field(a, scheme);
    if raw.len() == 0 || contains_sub(raw, "NOAN"@) {
        None
    } else {
        let t0 = split_on(dediac(raw), '_').map_values(|p: Seq<char>| fix_part(p, sep));
        let t1 = if ta {
            t_split_all(t0, sep)
        } else {
            t0
        };
        let t2 = alef_lam_from(t1, sep, 0);
        if merge_all(t2, sep) == d && t2.len() > 1 {
            Some(t2)
        } else {
            None
        }
    }
}

fn try_scheme(a: &ScoredAnalysis, scheme: &str, d: &str, sep: &str, ta: bool) -> (r: Option<Vec<String>>)
    ensures
        match scheme_toks(a@, scheme@, d@, sep@, ta) {
            None => r is None,
            Some(t) => r is Some && string_views(r->Some_0@) == t,
        },
{
    let raw = scheme_field_of(a, scheme);
    let rc = chars_of(raw.as_str());
    let noan = chars_of("NOAN");
    if rc.len() == 0 || chars_contain_sub(rc.as_slice(), noan.as_slice()) {
        return None;
    }
    let tok = dediac_ar(raw.as_str());
    let mut toks = split_and_replace_sep(tok.as_str(), sep);
    if ta {
        toks = split_token_on_t(toks, sep);
    }
    toks = merge_alef_lam(toks, sep);
    let merged = merge_tokens(toks.as_slice(), sep);
    if str_eq(merged.as_str(), d) && toks.len() > 1 {
        Some(toks)
    } else {
        None
    }
}

/// The first of the fallback schemes from `i` on that cuts the word.
pub open spec fn fallback_toks(a: AnalysisView, fb: Seq<Seq<char>>, i: int, d: Seq<char>, sep: Seq<char>, ta: bool) -> Option<Seq<Seq<char>>>
    decreases fb.len() - i,
{
    if i < 0 || i >= fb.len() {
        None
    } else {
        match scheme_toks(a, fb[i], d, sep, ta) {
            Some(t) => Some(t),
            None => fallback_toks(a, fb, i + 1, d, sep, ta),
        }
    }
}

/// The segments of the first scheme that cuts the word: the chosen scheme,
/// then the fallback schemes in order.
pub open spec fn resolved_toks(a: AnalysisView, st: StemSettings, d: Seq<char>, ta: bool) -> Option<Seq<Seq<char>>> {
    match scheme_toks(a, st.scheme, d, st.sep, ta) {
        Some(t) => Some(t),
        None => fallback_toks(a, st.fallback, 0, d, st.sep, ta),
    }
}

pub(crate) fn resolve(a: &ScoredAnalysis, scheme: &str, fallback: &[&str], d: &str, sep: &str, ta: bool) -> (r: Option<Vec<String>>)
    ensures
        match resolved_toks(a@, settings(sep, scheme, true, fallback@), d@, ta) {
            None => r is None,
            Some(t) => r is Some && string_views(r->Some_0@) == t,
        },
{
    let first = try_scheme(a, scheme, d, sep, ta);
    if first.is_some() {
        return first;
    }
    let ghost fb = str_views(fallback@);
    let mut i: usize = 0;
    while i < fallback.len()
        invariant
            fb == str_views(fallback@),
            scheme_toks(a@, scheme@, d@, sep@, ta) is None,
            i <= fallback@.len(),
            fallback_toks(a@, fb, 0, d@, sep@, ta) == fallback_toks(a@, fb, i as int, d@, sep@, ta),
        decreases fallback@.len() - i,
    {
        assert(fb[i as int] == fallback@[i as int]@);
        let r = try_scheme(a, fallback[i], d, sep, ta);
        if r.is_some() {
            return r;
        }
        i += 1;
    }
    None
}

/// A text holds a diacritic.
pub open spec fn has_diac(s: Seq<char>) -> bool {
    exists|i: int| 0 <= i < s.len() && is_diac(#[trigger] s[i])
}

/// The dediacritized word ends with a teh marbuta.
pub open spec fn ends_with_ta(d: Seq<char>) -> bool {
    d.len() > 0 && (d.last() == TAA_MARBOUTA || d.last() == TAA_MARBOUTA_DETACHED)
}

/// The analysis of a word that the stemmer uses, the first of the word's
/// analyses, with the word's segments when a scheme cuts it (with the word's
/// diacritics put back when they are preserved); `None` when the word has no
/// analysis.
pub open spec fn word_result(tok: Seq<char>, an: Map<Seq<char>, Seq<AnalysisView>>, st: StemSettings) -> Option<(AnalysisView, Option<Seq<Seq<char>>>)> {
    let d = dediac(tok);
    if an.contains_key(d) && an[d].len() > 0 {
        let a = an[d][0];
        Some(
            (
                a,
                match resolved_toks(a, st, d, ends_with_ta(d)) {
                    None => None,
                    Some(t) => Some(
                        if st.preserve && has_diac(tok) {
                            diacritized_segments(t, tok, st.sep)
                        } else {
                            t
                        },
                    ),
                },
            ),
        )
    } else {
        None
    }
}

/// The segments that a scheme cuts a word into, before any diacritics are
/// put back; `None` when the word has no analysis or no scheme cuts it.
pub open spec fn word_cut(tok: Seq<char>, an: Map<Seq<char>, Seq<AnalysisView>>, st: StemSettings) -> Option<Seq<Seq<char>>> {
    let d = dediac(tok);
    if an.contains_key(d) && an[d].len() > 0 {
        resolved_toks(an[d][0], st, d, ends_with_ta(d))
    } else {
        None
    }
}

/// Every part is empty.
pub open spec fn all_empty(parts: Seq<Seq<char>>) -> bool {
    forall|i: int| 0 <= i < parts.len() ==> #[trigger] parts[i].len() == 0
}

/// Putting a word's diacritics back on its segments `t` comes to an end: the
/// diacritics are not kept or the word has none, or the separator is not
/// empty, or every segment is empty. (With an empty separator the copy
/// finds the separator at every place of a segment and never moves on.)
pub open spec fn diacs_fit(t: Seq<Seq<char>>, tok: Seq<char>, st: StemSettings) -> bool {
    !(st.preserve && has_diac(tok)) || st.sep.len() > 0 || all_empty(t)
}

/// The stemmer comes to an end on a word: no scheme cuts it, or the
/// diacritics can be put back on its segments.
pub open spec fn word_returns(tok: Seq<char>, an: Map<Seq<char>, Seq<AnalysisView>>, st: StemSettings) -> bool {
    match word_cut(tok, an, st) {
        None => true,
        Some(t) => diacs_fit(t, tok, st),
    }
}

/// The stemmer comes to an end on a text: on each of its word tokens.
pub open spec fn stem_returns(text: Seq<char>, an: Map<Seq<char>, Seq<AnalysisView>>, st: StemSettings) -> bool {
    let toks = stem_tokens(text);
    forall|i: int| 0 <= i < toks.len() && word_token(toks[i]) ==> #[trigger] word_returns(toks[i], an, st)
}

/// The segments that a scheme cuts a word into, before any diacritics are
/// put back.
fn cut_word(tok: &str, cache: &AnalysisCache, sep: &str, scheme: &str, preserve: bool, fallback: &[&str]) -> (r: Option<Vec<String>>)
    ensures
        match word_cut(tok@, cache@, settings(sep, scheme, preserve, fallback@)) {
            None => r is None,
            Some(t) => r is Some && string_views(r->Some_0@) == t,
        },
{
    let d = dediac_ar(tok);
    let list = match cache.entries.get(d.as_str()) {
        None => {
            return None;
        },
        Some(l) => l,
    };
    if list.len() == 0 {
        return None;
    }
    let a = &list[0];
    assert(cache@[d@] == analysis_views(list@));
    assert(cache@[d@][0] == a@);
    let dc = chars_of(d.as_str());
    let ta = dc.len() > 0 && (dc[dc.len() - 1] == TAA_MARBOUTA || dc[dc.len() - 1] == TAA_MARBOUTA_DETACHED);
    resolve(a, scheme, fallback, d.as_str(), sep, ta)
}

/// Whether a segment is not empty.
pub(crate) fn any_nonempty(parts: &Vec<String>) -> (r: bool)
    ensures
        r == !all_empty(string_views(parts@)),
{
    let ghost ps = string_views(parts@);
    let mut i: usize = 0;
    while i < parts.len()
        invariant
            ps == string_views(parts@),
            i <= parts@.len(),
            forall|k: int| 0 <= k < i ==> #[trigger] ps[k].len() == 0,
        decreases parts@.len() - i,
    {
        let cs = chars_of(parts[i].as_str());
        assert(ps[i as int] == cs@);
        if cs.len() > 0 {
            return true;
        }
        i += 1;
    }
    false
}

/// Whether `stem` and `stem_tagged` come to an end on these arguments: they
/// do unless diacritics are kept with an empty separator and a word that
/// carries diacritics is cut into segments that are not all empty.
pub fn stem_accepts(text: &str, cache: &AnalysisCache, sep: &str, scheme: &str, preserve_diacritics: bool, fallback: &[&str]) -> (r: bool)
    ensures
        r == stem_returns(text@, cache@, settings(sep, scheme, preserve_diacritics, fallback@)),
{
    let ghost st = settings(sep, scheme, preserve_diacritics, fallback@);
    let clean = clean_text(text);
    let cs = string_of(clean.as_slice());
    let tokens = simple_word_tokenize(cs.as_str(), "full");
    let ghost tv = string_views(tokens@);
    let sepc = chars_of(sep);
    let mut i: usize = 0;
    while i < tokens.len()
        invariant
            tv == string_views(tokens@),
            tv == stem_tokens(text@),
            st == settings(sep, scheme, preserve_diacritics, fallback@),
            sepc@ == sep@,
            i <= tokens@.len(),
            forall|k: int| 0 <= k < i && word_token(tv[k]) ==> #[trigger] word_returns(tv[k], cache@, st),
        decreases tokens@.len() - i,
    {
        let tok = &tokens[i];
        assert(tv[i as int] == tok@);
        let tc = chars_of(tok.as_str());
        if is_word_token(tc.as_slice()) && preserve_diacritics && sepc.len() == 0 && has_diacritics(tok.as_str()) {
            match cut_word(tok.as_str(), cache, sep, scheme, preserve_diacritics, fallback) {
                Some(t) => {
                    if any_nonempty(&t) {
                        assert(!word_returns(tv[i as int], cache@, st));
                        return false;
                    }
                },
                None => {},
            }
        }
        assert(word_token(tv[i as int]) ==> word_returns(tv[i as int], cache@, st));
        i += 1;
    }
    true
}

fn analyse_word<'a>(
    tok: &str,
    cache: &'a AnalysisCache,
    sep: &str,
    scheme: &str,
    preserve: bool,
    fallback: &[&str],
) -> (r: Option<(&'a ScoredAnalysis, Option<Vec<String>>)>)
    requires
        word_returns(tok@, cache@, settings(sep, scheme, preserve, fallback@)),
    ensures
        match word_result(tok@, cache@, settings(sep, scheme, preserve, fallback@)) {
            None => r is None,
            Some((a, t)) => r is Some && r->Some_0.0@ == a && match t {
                None => r->Some_0.1 is None,
                Some(t) => r->Some_0.1 is Some && string_views(r->Some_0.1->Some_0@) == t,
            },
        },
{
    let d = dediac_ar(tok);
    let list = match cache.entries.get(d.as_str()) {
        None => {
            return None;
        },
        Some(l) => l,
    };
    if list.len() == 0 {
        return None;
    }
    let a = &list[0];
    assert(cache@[d@] == analysis_views(list@));
    assert(cache@[d@][0] == a@);
    let dc = chars_of(d.as_str());
    let ta = dc.len() > 0 && (dc[dc.len() - 1] == TAA_MARBOUTA || dc[dc.len() - 1] == TAA_MARBOUTA_DETACHED);
    let toks = resolve(a, scheme, fallback, d.as_str(), sep, ta);
    match toks {
        None => Some((a, None)),
        Some(t) => {
            if preserve && has_diacritics(tok) {
                assert(word_cut(tok@, cache@, settings(sep, scheme, preserve, fallback@)) == Some(string_views(t@)));
                assert(sep@.len() > 0 || forall|i: int| 0 <= i < t@.len() ==> #[trigger] t@[i]@.len() == 0) by {
                    if sep@.len() == 0 {
                        assert forall|i: int| 0 <= i < t@.len() implies #[trigger] t@[i]@.len() == 0 by {
                            assert(string_views(t@)[i] == t@[i]@);
                        }
                    }
                }
                let dt = apply_diacritics(t.as_slice(), tok, sep);
                Some((a, Some(dt)))
            } else {
                Some((a, Some(t)))
            }
        },
    }
}

// ---------------------------------------------------------------------------
// The stemmed text

/// What the stemmer writes for a token: the token itself, unless it is a
/// word that a scheme cuts, whose segments it writes in its place.
pub open spec fn token_text(tok: Seq<char>, an: Map<Seq<char>, Seq<AnalysisView>>, st: StemSettings) -> Seq<char> {
    if !word_token(tok) {
        tok
    } else {
        match word_result(tok, an, st) {
            Some((_, Some(t))) => concat_seqs(t),
            _ => tok,
        }
    }
}

/// What the stemmer writes for a list of tokens.
pub open spec fn tokens_text(toks: Seq<Seq<char>>, an: Map<Seq<char>, Seq<AnalysisView>>, st: StemSettings) -> Seq<char>
    decreases toks.len(),
{
    if toks.len() == 0 {
        seq![]
    } else {
        tokens_text(toks.drop_last(), an, st) + token_text(toks.last(), an, st)
    }
}

/// Appends the characters of strings to a vector.
fn push_all(out: &mut Vec<char>, parts: &Vec<String>)
    ensures
        final(out)@ == old(out)@ + concat_seqs(string_views(parts@)),
{
    let ghost ps = string_views(parts@);
    let mut i: usize = 0;
    assert(ps.take(0) =~= Seq::<Seq<char>>::empty());
    assert(out@ =~= old(out)@ + concat_seqs(ps.take(0)));
    while i < parts.len()
        invariant
            ps == string_views(parts@),
            i <= parts@.len(),
            out@ == old(out)@ + concat_seqs(ps.take(i as int)),
        decreases parts@.len() - i,
    {
        let cs = chars_of(parts[i].as_str());
        proof {
            assert(ps.take(i + 1) =~= ps.take(i as int).push(cs@));
            lemma_concat_push(ps.take(i as int), cs@);
        }
        crate::chars::extend_chars(out, cs.as_slice());
        i += 1;
    }
    assert(ps.take(parts@.len() as int) =~= ps);
}

/// Cuts each word of `text` into the segments of its best analysis in
/// `cache` under scheme `scheme` (or the first of `fallback` that cuts it),
/// with `sep` marking the cuts. Tatweel and zero-width characters are
/// dropped; other tokens, words without an analysis and words that no
/// scheme cuts are written as they are.
pub fn stem(text: &str, cache: &AnalysisCache, sep: &str, scheme: &str, preserve_diacritics: bool, fallback: &[&str]) -> (r: String)
    requires
        stem_returns(text@, cache@, settings(sep, scheme, preserve_diacritics, fallback@)),
    ensures
        r@ == tokens_text(stem_tokens(text@), cache@, settings(sep, scheme, preserve_diacritics, fallback@)),
        // Stemming only adds separators.
        sep@.len() > 0 && (forall|i: int| 0 <= i < text@.len() ==> plain_char(#[trigger] text@[i], sep@)) && (forall|i: int|
            0 <= i < text@.len() ==> tok_matched(tok_mode("full"@), #[trigger] text@[i])) ==> remove_all(r@, sep@) == text@,
{
    let ghost st = settings(sep, scheme, preserve_diacritics, fallback@);
    underscore_is_no_word_char();
    proof {
        if sep@.len() > 0 && (forall|i: int| 0 <= i < text@.len() ==> plain_char(#[trigger] text@[i], sep@)) && (forall|
            i: int,
        | 0 <= i < text@.len() ==> tok_matched(tok_mode("full"@), #[trigger] text@[i])) {
            lemma_stem_only_adds_separators(text@, cache@, st);
        }
    }
    let clean = clean_text(text);
    let cs = string_of(clean.as_slice());
    let tokens = simple_word_tokenize(cs.as_str(), "full");
    let ghost tv = string_views(tokens@);
    let mut out: Vec<char> = Vec::new();
    let mut i: usize = 0;
    assert(tv.take(0) =~= Seq::<Seq<char>>::empty());
    while i < tokens.len()
        invariant
            tv == string_views(tokens@),
            tv == stem_tokens(text@),
            st == settings(sep, scheme, preserve_diacritics, fallback@),
            stem_returns(text@, cache@, st),
            i <= tokens@.len(),
            out@ == tokens_text(tv.take(i as int), cache@, st),
        decreases tokens@.len() - i,
    {
        assert(tv.take(i + 1).drop_last() =~= tv.take(i as int));
        let tok = &tokens[i];
        assert(tv.take(i + 1).last() == tok@);
        let tc = chars_of(tok.as_str());
        if !is_word_token(tc.as_slice()) {
            crate::chars::extend_chars(&mut out, tc.as_slice());
        } else {
            assert(tv[i as int] == tok@);
            assert(word_returns(tv[i as int], cache@, st));
            match analyse_word(tok.as_str(), cache, sep, scheme, preserve_diacritics, fallback) {
                Some((_, Some(t))) => {
                    push_all(&mut out, &t);
                },
                _ => {
                    crate::chars::extend_chars(&mut out, tc.as_slice());
                },
            }
        }
        i += 1;
    }
    assert(tv.take(tokens@.len() as int) =~= tv);
    string_of(out.as_slice())
}

// ---------------------------------------------------------------------------
// The tagged pieces

/// One output unit of `stem_tagged`: a segment, a separator, whitespace or
/// punctuation. `ud` is the Universal Dependencies tag of the piece
/// (`SPEC_TOK` for separators, `UNK` for whitespace or words without an
/// analysis); `pos` is the part of speech of the word the piece came from.
#[derive(Debug, Clone, PartialEq, Eq)]
pub struct Piece {
    pub text: String,
    pub ud: String,
    pub pos: String,
}

/// A piece as text.
pub struct PieceView {
    pub text: Seq<char>,
    pub ud: Seq<char>,
    pub pos: Seq<char>,
}

impl View for Piece {
    type V = PieceView;

    open spec fn view(&self) -> PieceView {
        PieceView { text: self.text@, ud: self.ud@, pos: self.pos@ }
    }
}

/// The views of pieces.
pub open spec fn piece_views(ps: Seq<Piece>) -> Seq<PieceView> {
    ps.map_values(|p: Piece| p@)
}

/// The texts of pieces.
pub open spec fn piece_texts(ps: Seq<PieceView>) -> Seq<Seq<char>> {
    ps.map_values(|p: PieceView| p.text)
}

/// A piece.
pub open spec fn piece(text: Seq<char>, ud: Seq<char>, pos: Seq<char>) -> PieceView {
    PieceView { text, ud, pos }
}

/// The tags of an analysis's `ud` feature: its non-empty parts between `+`.
pub open spec fn ud_tags(ud: Seq<char>) -> Seq<Seq<char>> {
    nonempty_parts(split_on(ud, '+'))
}

/// The tag of the `i`-th segment: the `i`-th tag, the last tag once they
/// run out, `UNK` when there is none.
pub open spec fn tag_at(tags: Seq<Seq<char>>, i: int) -> Seq<char> {
    if 0 <= i < tags.len() {
        tags[i]
    } else if tags.len() > 0 {
        tags.last()
    } else {
        "UNK"@
    }
}

/// The tag of a word that no scheme cuts: its first tag, `X` when it has none.
pub open spec fn first_tag(ud: Seq<char>) -> Seq<char> {
    if ud_tags(ud).len() > 0 {
        ud_tags(ud)[0]
    } else {
        "X"@
    }
}

/// The pieces of one segment: a separator that starts it, its core, and a
/// separator that ends it; the separators are tagged `SPEC_TOK` and an empty
/// core gives no piece.
pub open spec fn tok_pieces(tok: Seq<char>, tag: Seq<char>, pos: Seq<char>, sep: Seq<char>) -> Seq<PieceView> {
    let leading = sep.len() <= tok.len() && tok.take(sep.len() as int) == sep;
    let core1 = if leading {
        tok.skip(sep.len() as int)
    } else {
        tok
    };
    let trailing = sep.len() <= core1.len() && core1.skip(core1.len() - sep.len()) == sep;
    let core = if trailing {
        core1.take(core1.len() - sep.len())
    } else {
        core1
    };
    (if leading {
        seq![piece(sep, "SPEC_TOK"@, pos)]
    } else {
        seq![]
    }) + (if core.len() > 0 {
        seq![piece(core, tag, pos)]
    } else {
        seq![]
    }) + (if trailing {
        seq![piece(sep, "SPEC_TOK"@, pos)]
    } else {
        seq![]
    })
}

/// The pieces of a word's segments, the segments tagged in order.
pub open spec fn tagged_toks(toks: Seq<Seq<char>>, tags: Seq<Seq<char>>, pos: Seq<char>, sep: Seq<char>) -> Seq<PieceView>
    decreases toks.len(),
{
    if toks.len() == 0 {
        seq![]
    } else {
        tagged_toks(toks.drop_last(), tags, pos, sep) + tok_pieces(toks.last(), tag_at(tags, toks.len() - 1), pos, sep)
    }
}

/// The pieces of a token: whitespace is tagged `UNK`, other tokens that are
/// no words `PUNCT`; a word without an analysis is tagged `UNK`; a word that
/// no scheme cuts takes its first tag; a cut word gives its segments' pieces.
pub open spec fn token_pieces(tok: Seq<char>, an: Map<Seq<char>, Seq<AnalysisView>>, st: StemSettings) -> Seq<PieceView> {
    if !word_token(tok) {
        if trimmed(tok).len() > 0 {
            seq![piece(tok, "PUNCT"@, "punc"@)]
        } else {
            seq![piece(tok, "UNK"@, "UNK"@)]
        }
    } else {
        match word_result(tok, an, st) {
            None => seq![piece(tok, "UNK"@, "UNK"@)],
            Some((a, None)) => seq![piece(tok, first_tag(a.ud), a.pos)],
            Some((a, Some(t))) => tagged_toks(t, ud_tags(a.ud), a.pos, st.sep),
        }
    }
}

/// The pieces of a list of tokens.
pub open spec fn tokens_pieces(toks: Seq<Seq<char>>, an: Map<Seq<char>, Seq<AnalysisView>>, st: StemSettings) -> Seq<PieceView>
    decreases toks.len(),
{
    if toks.len() == 0 {
        seq![]
    } else {
        tokens_pieces(toks.drop_last(), an, st) + token_pieces(toks.last(), an, st)
    }
}

/// The non-empty pieces, in order.
fn nonempty_pieces(parts: &Vec<Vec<char>>) -> (r: Vec<Vec<char>>)
    ensures
        vec_views(r@) == nonempty_parts(vec_views(parts@)),
{
    let ghost ps = vec_views(parts@);
    let mut r: Vec<Vec<char>> = Vec::new();
    let mut i: usize = 0;
    assert(ps.take(0) =~= Seq::<Seq<char>>::empty());
    while i < parts.len()
        invariant
            ps == vec_views(parts@),
            i <= parts@.len(),
            vec_views(r@) == nonempty_parts(ps.take(i as int)),
        decreases parts@.len() - i,
    {
        assert(ps.take(i + 1).drop_last() =~= ps.take(i as int));
        assert(ps.take(i + 1).last() == parts@[i as int]@);
        if parts[i].len() > 0 {
            let ghost before = vec_views(r@);
            let c = crate::chars::copy_chars(parts[i].as_slice());
            r.push(c);
            assert(vec_views(r@) =~= before.push(parts@[i as int]@));
        }
        i += 1;
    }
    assert(ps.take(parts@.len() as int) =~= ps);
    r
}

fn make_piece(text: &[char], ud: &str, pos: &str) -> (p: Piece)
    ensures
        p@ == piece(text@, ud@, pos@),
{
    Piece { text: string_of(text), ud: ud.to_owned(), pos: pos.to_owned() }
}

/// Appends the pieces of one segment.
fn emit_tok(out: &mut Vec<Piece>, tok: &str, tag: &[char], pos: &str, sep: &str)
    ensures
        piece_views(final(out)@) == piece_views(old(out)@) + tok_pieces(tok@, tag@, pos@, sep@),
{
    let t = chars_of(tok);
    let s = chars_of(sep);
    let leading = chars_starts_with(t.as_slice(), s.as_slice());
    let core1 = if leading {
        chars_slice(t.as_slice(), s.len(), t.len())
    } else {
        crate::chars::copy_chars(t.as_slice())
    };
    let trailing = chars_ends_with(core1.as_slice(), s.as_slice());
    let core = if trailing {
        chars_slice(core1.as_slice(), 0, core1.len() - s.len())
    } else {
        crate::chars::copy_chars(core1.as_slice())
    };
    let ghost v0 = piece_views(out@);
    let ghost pv = pos@;
    let ghost sv = sep@;
    if leading {
        out.push(make_piece(s.as_slice(), "SPEC_TOK", pos));
    }
    let ghost v1 = piece_views(out@);
    assert(v1 =~= v0 + if leading {
        seq![piece(sv, "SPEC_TOK"@, pv)]
    } else {
        seq![]
    });
    if core.len() > 0 {
        let tag_s = string_of(tag);
        out.push(make_piece(core.as_slice(), tag_s.as_str(), pos));
    }
    let ghost v2 = piece_views(out@);
    assert(v2 =~= v1 + if core@.len() > 0 {
        seq![piece(core@, tag@, pv)]
    } else {
        seq![]
    });
    if trailing {
        out.push(make_piece(s.as_slice(), "SPEC_TOK", pos));
    }
    assert(piece_views(out@) =~= v2 + if trailing {
        seq![piece(sv, "SPEC_TOK"@, pv)]
    } else {
        seq![]
    });
    assert(piece_views(out@) =~= v0 + tok_pieces(tok@, tag@, pv, sv));
}

/// Appends the pieces of a word's segments.
fn emit_tagged(out: &mut Vec<Piece>, toks: &Vec<String>, ud: &str, pos: &str, sep: &str)
    ensures
        piece_views(final(out)@) == piece_views(old(out)@) + tagged_toks(string_views(toks@), ud_tags(ud@), pos@, sep@),
{
    let udc = chars_of(ud);
    let parts = split_chars(udc.as_slice(), '+');
    let tags = nonempty_pieces(&parts);
    let ghost tg = ud_tags(ud@);
    assert(vec_views(tags@) == tg);
    let ghost tv = string_views(toks@);
    let unk = chars_of("UNK");
    let mut i: usize = 0;
    assert(tv.take(0) =~= Seq::<Seq<char>>::empty());
    assert(piece_views(out@) =~= piece_views(old(out)@) + tagged_toks(tv.take(0), tg, pos@, sep@));
    while i < toks.len()
        invariant
            tv == string_views(toks@),
            tg == ud_tags(ud@),
            vec_views(tags@) == tg,
            unk@ == "UNK"@,
            i <= toks@.len(),
            piece_views(out@) == piece_views(old(out)@) + tagged_toks(tv.take(i as int), tg, pos@, sep@),
        decreases toks@.len() - i,
    {
        assert(tv.take(i + 1).drop_last() =~= tv.take(i as int));
        assert(tv.take(i + 1).last() == toks@[i as int]@);
        let tag: &Vec<char> = if i < tags.len() {
            &tags[i]
        } else if tags.len() > 0 {
            &tags[tags.len() - 1]
        } else {
            &unk
        };
        assert(tag@ == tag_at(tg, i as int));
        let ghost before = piece_views(out@);
        emit_tok(out, toks[i].as_str(), tag.as_slice(), pos, sep);
        assert(piece_views(out@) =~= piece_views(old(out)@) + tagged_toks(tv.take(i + 1), tg, pos@, sep@));
        i += 1;
    }
    assert(tv.take(toks@.len() as int) =~= tv);
}

/// Cuts each word of `text` as `stem` does and gives the result as tagged
/// pieces: each segment with the word's tags taken in order, separators as
/// `SPEC_TOK`, other tokens as `PUNCT` or, when they are whitespace, `UNK`.
pub fn stem_tagged(
    text: &str,
    cache: &AnalysisCache,
    sep: &str,
    scheme: &str,
    preserve_diacritics: bool,
    fallback: &[&str],
) -> (r: Vec<Piece>)
    requires
        stem_returns(text@, cache@, settings(sep, scheme, preserve_diacritics, fallback@)),
    ensures
        piece_views(r@) == tokens_pieces(stem_tokens(text@), cache@, settings(sep, scheme, preserve_diacritics, fallback@)),
        // Separators are tagged `SPEC_TOK`.
        sep@.len() > 0 && (forall|i: int| 0 <= i < text@.len() ==> plain_char(#[trigger] text@[i], sep@)) ==> forall|k: int|
            0 <= k < r@.len() && (#[trigger] r@[k]).text@ == sep@ ==> r@[k].ud@ == "SPEC_TOK"@,
{
    let ghost st = settings(sep, scheme, preserve_diacritics, fallback@);
    underscore_is_no_word_char();
    proof {
        if sep@.len() > 0 && (forall|i: int| 0 <= i < text@.len() ==> plain_char(#[trigger] text@[i], sep@)) {
            lemma_separator_pieces(text@, cache@, st);
        }
    }
    let clean = clean_text(text);
    let cs = string_of(clean.as_slice());
    let tokens = simple_word_tokenize(cs.as_str(), "full");
    let ghost tv = string_views(tokens@);
    let mut out: Vec<Piece> = Vec::new();
    let mut i: usize = 0;
    assert(tv.take(0) =~= Seq::<Seq<char>>::empty());
    assert(piece_views(out@) =~= Seq::<PieceView>::empty());
    while i < tokens.len()
        invariant
            tv == string_views(tokens@),
            tv == stem_tokens(text@),
            st == settings(sep, scheme, preserve_diacritics, fallback@),
            stem_returns(text@, cache@, st),
            i <= tokens@.len(),
            piece_views(out@) == tokens_pieces(tv.take(i as int), cache@, st),
        decreases tokens@.len() - i,
    {
        assert(tv.take(i + 1).drop_last() =~= tv.take(i as int));
        let tok = &tokens[i];
        assert(tv.take(i + 1).last() == tok@);
        let tc = chars_of(tok.as_str());
        let ghost before = piece_views(out@);
        if !is_word_token(tc.as_slice()) {
            let tr = trim_chars(tc.as_slice());
            if tr.len() > 0 {
                out.push(make_piece(tc.as_slice(), "PUNCT", "punc"));
            } else {
                out.push(make_piece(tc.as_slice(), "UNK", "UNK"));
            }
        } else {
            assert(tv[i as int] == tok@);
            assert(word_returns(tv[i as int], cache@, st));
            match analyse_word(tok.as_str(), cache, sep, scheme, preserve_diacritics, fallback) {
                None => {
                    out.push(make_piece(tc.as_slice(), "UNK", "UNK"));
                },
                Some((a, None)) => {
                    let udc = chars_of(a.ud.as_str());
                    let parts = split_chars(udc.as_slice(), '+');
                    let tags = nonempty_pieces(&parts);
                    let tag = if tags.len() > 0 {
                        string_of(tags[0].as_slice())
                    } else {
                        "X".to_owned()
                    };
                    out.push(make_piece(tc.as_slice(), tag.as_str(), a.pos.as_str()));
                },
                Some((a, Some(t))) => {
                    emit_tagged(&mut out, &t, a.ud.as_str(), a.pos.as_str(), sep);
                },
            }
        }
        assert(piece_views(out@) =~= before + token_pieces(tok@, cache@, st));
        i += 1;
    }
    assert(tv.take(tokens@.len() as int) =~= tv);
    proof {
        if sep@.len() > 0 && (forall|i: int| 0 <= i < text@.len() ==> plain_char(#[trigger] text@[i], sep@)) {
            assert forall|k: int| 0 <= k < out@.len() && (#[trigger] out@[k]).text@ == sep@ implies out@[k].ud@
                == "SPEC_TOK"@ by {
                assert(piece_views(out@)[k] == out@[k]@);
            }
        }
    }
    out
}

// ---------------------------------------------------------------------------
// The pieces spell the stemmed text

proof fn lemma_piece_texts_append(a: Seq<PieceView>, b: Seq<PieceView>)
    ensures
        piece_texts(a + b) == piece_texts(a) + piece_texts(b),
{
    assert(piece_texts(a + b) =~= piece_texts(a) + piece_texts(b));
}

proof fn lemma_concat_single(x: Seq<char>)
    ensures
        concat_seqs(seq![x]) == x,
{
    assert(seq![x].drop_last() =~= Seq::<Seq<char>>::empty());
    assert(concat_seqs(Seq::<Seq<char>>::empty()) =~= Seq::<char>::empty());
    assert(seq![x].last() == x);
    assert(Seq::<char>::empty() + x =~= x);
}

proof fn lemma_concat_opt(b: bool, x: Seq<char>, tag: Seq<char>, pos: Seq<char>)
    ensures
        concat_seqs(piece_texts(if b {
            seq![piece(x, tag, pos)]
        } else {
            seq![]
        })) == if b {
            x
        } else {
            seq![]
        },
{
    if b {
        assert(piece_texts(seq![piece(x, tag, pos)]) =~= seq![x]);
        lemma_concat_single(x);
    } else {
        assert(piece_texts(Seq::<PieceView>::empty()) =~= Seq::<Seq<char>>::empty());
    }
}

/// The pieces of a segment spell the segment.
proof fn lemma_tok_pieces_text(tok: Seq<char>, tag: Seq<char>, pos: Seq<char>, sep: Seq<char>)
    ensures
        concat_seqs(piece_texts(tok_pieces(tok, tag, pos, sep))) == tok,
{
    let leading = sep.len() <= tok.len() && tok.take(sep.len() as int) == sep;
    let core1 = if leading {
        tok.skip(sep.len() as int)
    } else {
        tok
    };
    let trailing = sep.len() <= core1.len() && core1.skip(core1.len() - sep.len()) == sep;
    let core = if trailing {
        core1.take(core1.len() - sep.len())
    } else {
        core1
    };
    let a = if leading {
        seq![piece(sep, "SPEC_TOK"@, pos)]
    } else {
        seq![]
    };
    let b = if core.len() > 0 {
        seq![piece(core, tag, pos)]
    } else {
        seq![]
    };
    let c = if trailing {
        seq![piece(sep, "SPEC_TOK"@, pos)]
    } else {
        seq![]
    };
    let ta = if leading {
        sep
    } else {
        seq![]
    };
    let tb = if core.len() > 0 {
        core
    } else {
        seq![]
    };
    let tc = if trailing {
        sep
    } else {
        seq![]
    };
    assert(concat_seqs(piece_texts(tok_pieces(tok, tag, pos, sep))) == ta + tb + tc) by {
        assert(tok_pieces(tok, tag, pos, sep) == a + b + c);
        lemma_piece_texts_append(a + b, c);
        lemma_piece_texts_append(a, b);
        lemma_concat_append(piece_texts(a) + piece_texts(b), piece_texts(c));
        lemma_concat_append(piece_texts(a), piece_texts(b));
        lemma_concat_opt(leading, sep, "SPEC_TOK"@, pos);
        lemma_concat_opt(core.len() > 0, core, tag, pos);
        lemma_concat_opt(trailing, sep, "SPEC_TOK"@, pos);
    }
    assert(tb == core) by {
        if core.len() == 0 {
            assert(core =~= Seq::<char>::empty());
        }
    }
    assert(tb + tc == core1) by {
        if trailing {
            assert(core1 =~= core + sep);
        }
    }
    assert(ta + tb + tc =~= tok) by {
        assert(ta + tb + tc =~= ta + (tb + tc));
        if leading {
            assert(tok =~= sep + core1);
        } else {
            assert(ta + core1 =~= core1);
        }
    }
}

/// The pieces of a word's segments spell the segments one after another.
proof fn lemma_tagged_text(toks: Seq<Seq<char>>, tags: Seq<Seq<char>>, pos: Seq<char>, sep: Seq<char>)
    ensures
        concat_seqs(piece_texts(tagged_toks(toks, tags, pos, sep))) == concat_seqs(toks),
    decreases toks.len(),
{
    if toks.len() == 0 {
        assert(piece_texts(Seq::<PieceView>::empty()) =~= Seq::<Seq<char>>::empty());
    } else {
        let head = tagged_toks(toks.drop_last(), tags, pos, sep);
        let tail = tok_pieces(toks.last(), tag_at(tags, toks.len() - 1), pos, sep);
        lemma_tagged_text(toks.drop_last(), tags, pos, sep);
        lemma_piece_texts_append(head, tail);
        lemma_concat_append(piece_texts(head), piece_texts(tail));
        lemma_tok_pieces_text(toks.last(), tag_at(tags, toks.len() - 1), pos, sep);
    }
}

/// The pieces of a token spell what the stemmer writes for it.
proof fn lemma_token_pieces_text(tok: Seq<char>, an: Map<Seq<char>, Seq<AnalysisView>>, st: StemSettings)
    ensures
        concat_seqs(piece_texts(token_pieces(tok, an, st))) == token_text(tok, an, st),
{
    match word_result(tok, an, st) {
        Some((a, Some(t))) => {
            if word_token(tok) {
                lemma_tagged_text(t, ud_tags(a.ud), a.pos, st.sep);
            } else {
                lemma_concat_opt(true, tok, if trimmed(tok).len() > 0 { "PUNCT"@ } else { "UNK"@ }, if trimmed(tok).len() > 0 { "punc"@ } else { "UNK"@ });
            }
        },
        Some((a, None)) => {
            if word_token(tok) {
                lemma_concat_opt(true, tok, first_tag(a.ud), a.pos);
            } else {
                lemma_concat_opt(true, tok, if trimmed(tok).len() > 0 { "PUNCT"@ } else { "UNK"@ }, if trimmed(tok).len() > 0 { "punc"@ } else { "UNK"@ });
            }
        },
        None => {
            if word_token(tok) {
                lemma_concat_opt(true, tok, "UNK"@, "UNK"@);
            } else {
                lemma_concat_opt(true, tok, if trimmed(tok).len() > 0 { "PUNCT"@ } else { "UNK"@ }, if trimmed(tok).len() > 0 { "punc"@ } else { "UNK"@ });
            }
        },
    }
}

/// The texts of the pieces of a list of tokens, one after another, are what
/// the stemmer writes for the list.
proof fn lemma_tokens_pieces_text(toks: Seq<Seq<char>>, an: Map<Seq<char>, Seq<AnalysisView>>, st: StemSettings)
    ensures
        concat_seqs(piece_texts(tokens_pieces(toks, an, st))) == tokens_text(toks, an, st),
    decreases toks.len(),
{
    if toks.len() == 0 {
        assert(piece_texts(Seq::<PieceView>::empty()) =~= Seq::<Seq<char>>::empty());
    } else {
        let head = tokens_pieces(toks.drop_last(), an, st);
        let tail = token_pieces(toks.last(), an, st);
        lemma_tokens_pieces_text(toks.drop_last(), an, st);
        lemma_piece_texts_append(head, tail);
        lemma_concat_append(piece_texts(head), piece_texts(tail));
        lemma_token_pieces_text(toks.last(), an, st);
    }
}

/// Concatenating the texts of the pieces that `stem_tagged` gives reproduces
/// what `stem` gives, for every text, cache and setting.
pub proof fn lemma_stem_tagged_spells_stem(text: Seq<char>, an: Map<Seq<char>, Seq<AnalysisView>>, st: StemSettings)
    ensures
        concat_seqs(piece_texts(tokens_pieces(stem_tokens(text), an, st))) == tokens_text(stem_tokens(text), an, st),
{
    lemma_tokens_pieces_text(stem_tokens(text), an, st);
}

// ---------------------------------------------------------------------------
// Stemming only adds separators

/// A character of a text that the stemmer gives back, separators aside, as
/// it is: not dropped, no diacritic or alef wasla, no character of the
/// separator.
pub open spec fn plain_char(c: char, sep: Seq<char>) -> bool {
    !dropped_char(c) && !is_dediac_mark(c) && !sep.contains(c)
}

/// No word token holds `_` (which a lone separator segment stands for in a
/// word).
pub open spec fn words_without_underscore(toks: Seq<Seq<char>>) -> bool {
    forall|j: int| 0 <= j < toks.len() && word_token(#[trigger] toks[j]) ==> !toks[j].contains('_')
}

/// `_` is neither alphanumeric nor in the tokenizer's class of letters,
/// marks and numbers.
fn underscore_is_no_word_char()
    ensures
        !alphanumeric('_'),
        !in_class(WORD_CLASS@, '_'),
{
    let _alnum = is_alphanumeric('_');
    let _word = char_in_class(WORD_CLASS, '_');
}

proof fn lemma_match_no_underscore(t: Seq<char>, i: int, k: nat)
    requires
        0 <= i < t.len(),
        !alphanumeric('_'),
        !in_class(WORD_CLASS@, '_'),
    ensures
        match_end(0, t, i, k) matches Some(e) ==> (word_token(t.subrange(i, e)) ==> !t.subrange(i, e).contains('_')),
    decreases tok_alternatives(0) - k,
{
    if k < tok_alternatives(0) {
        if tok_class(0, k, t[i]) {
            if k == 0 {
                let sub = t.subrange(i, i + 1);
                assert(sub[0] == t[i]);
                if sub.contains('_') {
                    let x = choose|x: int| 0 <= x < sub.len() && sub[x] == '_';
                    assert(x == 0);
                }
            } else {
                lemma_run_end(0, k, t, i + 1);
                let e = run_end(0, k, t, i + 1);
                let sub = t.subrange(i, e);
                if sub.contains('_') {
                    let x = choose|x: int| 0 <= x < sub.len() && sub[x] == '_';
                    assert(sub[x] == t[i + x]);
                    assert(tok_class(0, k, t[i + x]));
                }
            }
        } else {
            lemma_match_no_underscore(t, i, k + 1);
        }
    }
}

proof fn lemma_tokens_no_underscore(t: Seq<char>, i: int)
    requires
        0 <= i,
        !alphanumeric('_'),
        !in_class(WORD_CLASS@, '_'),
    ensures
        words_without_underscore(tokens_from(0, t, i)),
    decreases t.len() - i,
{
    if i < t.len() {
        lemma_match_no_underscore(t, i, 0);
        match match_end(0, t, i, 0) {
            Some(e) => {
                if i < e <= t.len() {
                    lemma_tokens_no_underscore(t, e);
                    let ts = tokens_from(0, t, i);
                    let rest = tokens_from(0, t, e);
                    assert(ts == seq![t.subrange(i, e)] + rest);
                    assert forall|j: int| 0 <= j < ts.len() && word_token(#[trigger] ts[j]) implies !ts[j].contains('_') by {
                        if j > 0 {
                            assert(ts[j] == rest[j - 1]);
                        }
                    }
                }
            },
            None => {
                lemma_tokens_no_underscore(t, i + 1);
            },
        }
    }
}

/// The word tokens of a text hold no `_`.
proof fn lemma_stem_tokens_no_underscore(text: Seq<char>)
    requires
        !alphanumeric('_'),
        !in_class(WORD_CLASS@, '_'),
    ensures
        words_without_underscore(stem_tokens(text)),
{
    reveal_strlit("full");
    assert("full"@ =~= seq!['f', 'u', 'l', 'l']);
    assert(tok_mode("full"@) == 0);
    lemma_tokens_no_underscore(stem_clean(text), 0);
}

/// Every character of `s` is plain.
pub open spec fn all_plain(s: Seq<char>, sep: Seq<char>) -> bool {
    forall|i: int| 0 <= i < s.len() ==> plain_char(#[trigger] s[i], sep)
}

proof fn lemma_all_plain_split(a: Seq<char>, b: Seq<char>, sep: Seq<char>)
    requires
        all_plain(a + b, sep),
    ensures
        all_plain(a, sep),
        all_plain(b, sep),
{
    assert forall|i: int| 0 <= i < a.len() implies plain_char(#[trigger] a[i], sep) by {
        assert((a + b)[i] == a[i]);
    }
    assert forall|i: int| 0 <= i < b.len() implies plain_char(#[trigger] b[i], sep) by {
        assert((a + b)[a.len() + i] == b[i]);
    }
}

proof fn lemma_stem_clean_plain(s: Seq<char>, sep: Seq<char>)
    requires
        all_plain(s, sep),
    ensures
        stem_clean(s) == s,
    decreases s.len(),
{
    if s.len() > 0 {
        assert(s =~= s.drop_last() + seq![s.last()]);
        lemma_all_plain_split(s.drop_last(), seq![s.last()], sep);
        assert(plain_char(s[s.len() - 1], sep));
        lemma_stem_clean_plain(s.drop_last(), sep);
        assert(s.drop_last().push(s.last()) =~= s);
    }
}

proof fn lemma_dediac_plain(s: Seq<char>, sep: Seq<char>)
    requires
        all_plain(s, sep),
    ensures
        dediac(s) == s,
    decreases s.len(),
{
    if s.len() > 0 {
        assert(s =~= s.drop_last() + seq![s.last()]);
        lemma_all_plain_split(s.drop_last(), seq![s.last()], sep);
        assert(plain_char(s[s.len() - 1], sep));
        lemma_dediac_plain(s.drop_last(), sep);
        assert(s.drop_last() + seq![s.last()] =~= s);
    }
}

proof fn lemma_matched_all(mode: nat, t: Seq<char>, i: int)
    requires
        0 <= i <= t.len(),
        forall|j: int| 0 <= j < t.len() ==> tok_matched(mode, #[trigger] t[j]),
    ensures
        matched_from(mode, t, i) == t.skip(i),
    decreases t.len() - i,
{
    if i < t.len() {
        lemma_matched_all(mode, t, i + 1);
        assert(tok_matched(mode, t[i]));
        assert(seq![t[i]] + t.skip(i + 1) =~= t.skip(i));
    } else {
        assert(t.skip(i) =~= Seq::<char>::empty());
    }
}

proof fn lemma_plain_no_sep(s: Seq<char>, sep: Seq<char>)
    requires
        all_plain(s, sep),
    ensures
        sep_free(s, sep),
        !has_diac(s),
{
    assert forall|i: int| 0 <= i < s.len() implies !sep.contains(#[trigger] s[i]) by {
        assert(plain_char(s[i], sep));
    }
    if has_diac(s) {
        let i = choose|i: int| 0 <= i < s.len() && is_diac(#[trigger] s[i]);
        assert(plain_char(s[i], sep));
    }
}

/// What the stemmer writes for a plain token, with the separators taken
/// out, is the token.
proof fn lemma_token_text_plain(tok: Seq<char>, rest: Seq<char>, an: Map<Seq<char>, Seq<AnalysisView>>, st: StemSettings)
    requires
        st.sep.len() > 0,
        all_plain(tok, st.sep),
        word_token(tok) ==> !tok.contains('_'),
    ensures
        remove_all(token_text(tok, an, st) + rest, st.sep) == tok + remove_all(rest, st.sep),
{
    lemma_plain_no_sep(tok, st.sep);
    lemma_cuts_spell_the_word(tok, an, st);
    lemma_dediac_plain(tok, st.sep);
    if word_token(tok) {
        if let Some((_, Some(t))) = word_result(tok, an, st) {
            lemma_remove_merged(t, rest, st.sep);
        } else {
            lemma_remove_free_prefix(tok, rest, st.sep);
        }
    } else {
        lemma_remove_free_prefix(tok, rest, st.sep);
    }
}

proof fn lemma_tokens_text_plain(toks: Seq<Seq<char>>, rest: Seq<char>, an: Map<Seq<char>, Seq<AnalysisView>>, st: StemSettings)
    requires
        st.sep.len() > 0,
        all_plain(concat_seqs(toks), st.sep),
        words_without_underscore(toks),
    ensures
        remove_all(tokens_text(toks, an, st) + rest, st.sep) == concat_seqs(toks) + remove_all(rest, st.sep),
    decreases toks.len(),
{
    if toks.len() == 0 {
        assert(tokens_text(toks, an, st) + rest =~= rest);
        assert(concat_seqs(toks) + remove_all(rest, st.sep) =~= remove_all(rest, st.sep));
    } else {
        let t0 = toks.drop_last();
        let l = toks.last();
        lemma_all_plain_split(concat_seqs(t0), l, st.sep);
        assert(words_without_underscore(t0)) by {
            assert forall|j: int| 0 <= j < t0.len() && word_token(#[trigger] t0[j]) implies !t0[j].contains('_') by {
                assert(t0[j] == toks[j]);
            }
        }
        assert(word_token(l) ==> !l.contains('_')) by {
            assert(toks[toks.len() - 1] == l);
        }
        assert(tokens_text(toks, an, st) + rest =~= tokens_text(t0, an, st) + (token_text(l, an, st) + rest));
        lemma_tokens_text_plain(t0, token_text(l, an, st) + rest, an, st);
        lemma_token_text_plain(l, rest, an, st);
        assert(concat_seqs(t0) + (l + remove_all(rest, st.sep)) =~= concat_seqs(toks) + remove_all(rest, st.sep));
    }
}

/// Stemming only adds separators: for a text whose characters the tokenizer
/// all takes and that holds no tatweel, zero-width character, diacritic,
/// alef wasla or character of a non-empty separator, taking the separators
/// out of what `stem` writes gives the text back, whatever the cache and the
/// schemes. (`_` being no word character, which `stem` learns from std and
/// the regex crate, keeps it out of words.)
proof fn lemma_stem_only_adds_separators(text: Seq<char>, an: Map<Seq<char>, Seq<AnalysisView>>, st: StemSettings)
    requires
        !alphanumeric('_'),
        !in_class(WORD_CLASS@, '_'),
        st.sep.len() > 0,
        forall|i: int| 0 <= i < text.len() ==> plain_char(#[trigger] text[i], st.sep),
        forall|i: int| 0 <= i < text.len() ==> tok_matched(tok_mode("full"@), #[trigger] text[i]),
    ensures
        remove_all(tokens_text(stem_tokens(text), an, st), st.sep) == text,
{
    let mode = tok_mode("full"@);
    lemma_stem_clean_plain(text, st.sep);
    lemma_tokens_cover(mode, text, 0);
    lemma_matched_all(mode, text, 0);
    assert(text.skip(0) =~= text);
    let toks = stem_tokens(text);
    assert(concat_seqs(toks) == text);
    lemma_stem_tokens_no_underscore(text);
    lemma_tokens_text_plain(toks, seq![], an, st);
    assert(tokens_text(toks, an, st) + Seq::<char>::empty() =~= tokens_text(toks, an, st));
    assert(remove_all(Seq::<char>::empty(), st.sep) =~= Seq::<char>::empty());
    assert(text + Seq::<char>::empty() =~= text);
}

// ---------------------------------------------------------------------------
// The tags of the pieces

/// A piece of a cut word: it carries the word's part of speech `pos` and is
/// either a separator tagged `SPEC_TOK` or a non-empty text tagged with one
/// of the word's tags `tags` (`UNK` when the word has none).
pub open spec fn cut_piece(p: PieceView, tags: Seq<Seq<char>>, pos: Seq<char>, sep: Seq<char>) -> bool {
    p.pos == pos && ((p.text == sep && p.ud == "SPEC_TOK"@) || (p.text.len() > 0 && (tags.contains(p.ud) || (
    tags.len() == 0 && p.ud == "UNK"@))))
}

proof fn lemma_tag_at(tags: Seq<Seq<char>>, i: int)
    ensures
        tags.contains(tag_at(tags, i)) || (tags.len() == 0 && tag_at(tags, i) == "UNK"@),
{
    if 0 <= i < tags.len() {
        assert(tags[i] == tag_at(tags, i));
    } else if tags.len() > 0 {
        assert(tags[tags.len() - 1] == tag_at(tags, i));
    }
}

proof fn lemma_tok_pieces_cut(tok: Seq<char>, tags: Seq<Seq<char>>, i: int, pos: Seq<char>, sep: Seq<char>)
    ensures
        forall|k: int|
            0 <= k < tok_pieces(tok, tag_at(tags, i), pos, sep).len() ==> cut_piece(
                #[trigger] tok_pieces(tok, tag_at(tags, i), pos, sep)[k],
                tags,
                pos,
                sep,
            ),
{
    lemma_tag_at(tags, i);
}

proof fn lemma_tagged_cut(toks: Seq<Seq<char>>, tags: Seq<Seq<char>>, pos: Seq<char>, sep: Seq<char>)
    ensures
        forall|k: int|
            0 <= k < tagged_toks(toks, tags, pos, sep).len() ==> cut_piece(
                #[trigger] tagged_toks(toks, tags, pos, sep)[k],
                tags,
                pos,
                sep,
            ),
    decreases toks.len(),
{
    if toks.len() > 0 {
        let head = tagged_toks(toks.drop_last(), tags, pos, sep);
        let tail = tok_pieces(toks.last(), tag_at(tags, toks.len() - 1), pos, sep);
        lemma_tagged_cut(toks.drop_last(), tags, pos, sep);
        lemma_tok_pieces_cut(toks.last(), tags, toks.len() - 1, pos, sep);
        assert forall|k: int| 0 <= k < (head + tail).len() implies cut_piece(#[trigger] (head + tail)[k], tags, pos, sep) by {
            if k < head.len() {
                assert((head + tail)[k] == head[k]);
            } else {
                assert((head + tail)[k] == tail[k - head.len()]);
            }
        }
    }
}

/// The tags of the pieces that `stem_tagged` gives for a token: whitespace
/// is tagged (`UNK`, `UNK`) and other tokens that are no words (`PUNCT`,
/// `punc`), each as one piece; a word without an analysis is one piece
/// tagged (`UNK`, `UNK`); a word that no scheme cuts is one piece with its
/// first tag and its part of speech; each piece of a cut word carries the
/// word's part of speech and is a separator tagged `SPEC_TOK` or a non-empty
/// text tagged with one of the word's tags.
pub proof fn lemma_token_piece_tags(tok: Seq<char>, an: Map<Seq<char>, Seq<AnalysisView>>, st: StemSettings)
    ensures
        !word_token(tok) && trimmed(tok).len() == 0 ==> token_pieces(tok, an, st) == seq![piece(tok, "UNK"@, "UNK"@)],
        !word_token(tok) && trimmed(tok).len() > 0 ==> token_pieces(tok, an, st) == seq![
            piece(tok, "PUNCT"@, "punc"@),
        ],
        word_token(tok) && word_result(tok, an, st) is None ==> token_pieces(tok, an, st) == seq![
            piece(tok, "UNK"@, "UNK"@),
        ],
        word_token(tok) ==> (word_result(tok, an, st) matches Some((a, None)) ==> token_pieces(tok, an, st) == seq![
            piece(tok, first_tag(a.ud), a.pos),
        ]),
        word_token(tok) ==> (word_result(tok, an, st) matches Some((a, Some(t))) ==> forall|k: int|
            0 <= k < token_pieces(tok, an, st).len() ==> cut_piece(
                #[trigger] token_pieces(tok, an, st)[k],
                ud_tags(a.ud),
                a.pos,
                st.sep,
            )),
{
    if word_token(tok) {
        if let Some((a, Some(t))) = word_result(tok, an, st) {
            lemma_tagged_cut(t, ud_tags(a.ud), a.pos, st.sep);
        }
    }
}

/// The tags of the pieces that `stem_tagged` gives for a text, token by
/// token, as `lemma_token_piece_tags` states them; the pieces of the text
/// are those of its tokens one after another.
pub proof fn lemma_stem_tagged_tags(text: Seq<char>, an: Map<Seq<char>, Seq<AnalysisView>>, st: StemSettings)
    ensures
        forall|i: int|
            0 <= i < stem_tokens(text).len() ==> {
                let tok = #[trigger] stem_tokens(text)[i];
                &&& !word_token(tok) && trimmed(tok).len() == 0 ==> token_pieces(tok, an, st) == seq![
                    piece(tok, "UNK"@, "UNK"@),
                ]
                &&& !word_token(tok) && trimmed(tok).len() > 0 ==> token_pieces(tok, an, st) == seq![
                    piece(tok, "PUNCT"@, "punc"@),
                ]
                &&& word_token(tok) && word_result(tok, an, st) is None ==> token_pieces(tok, an, st) == seq![
                    piece(tok, "UNK"@, "UNK"@),
                ]
                &&& word_token(tok) ==> (word_result(tok, an, st) matches Some((a, None)) ==> token_pieces(
                    tok,
                    an,
                    st,
                ) == seq![piece(tok, first_tag(a.ud), a.pos)])
                &&& word_token(tok) ==> (word_result(tok, an, st) matches Some((a, Some(t))) ==> forall|k: int|
                    0 <= k < token_pieces(tok, an, st).len() ==> cut_piece(
                        #[trigger] token_pieces(tok, an, st)[k],
                        ud_tags(a.ud),
                        a.pos,
                        st.sep,
                    ))
            },
        forall|n: int|
            0 < n <= stem_tokens(text).len() ==> #[trigger] tokens_pieces(stem_tokens(text).take(n), an, st)
                == tokens_pieces(stem_tokens(text).take(n - 1), an, st) + token_pieces(stem_tokens(text)[n - 1], an, st),
{
    let toks = stem_tokens(text);
    assert forall|i: int| 0 <= i < toks.len() implies {
        let tok = #[trigger] toks[i];
        &&& !word_token(tok) && trimmed(tok).len() == 0 ==> token_pieces(tok, an, st) == seq![
            piece(tok, "UNK"@, "UNK"@),
        ]
        &&& !word_token(tok) && trimmed(tok).len() > 0 ==> token_pieces(tok, an, st) == seq![
            piece(tok, "PUNCT"@, "punc"@),
        ]
        &&& word_token(tok) && word_result(tok, an, st) is None ==> token_pieces(tok, an, st) == seq![
            piece(tok, "UNK"@, "UNK"@),
        ]
        &&& word_token(tok) ==> (word_result(tok, an, st) matches Some((a, None)) ==> token_pieces(tok, an, st)
            == seq![piece(tok, first_tag(a.ud), a.pos)])
        &&& word_token(tok) ==> (word_result(tok, an, st) matches Some((a, Some(t))) ==> forall|k: int|
            0 <= k < token_pieces(tok, an, st).len() ==> cut_piece(
                #[trigger] token_pieces(tok, an, st)[k],
                ud_tags(a.ud),
                a.pos,
                st.sep,
            ))
    } by {
        lemma_token_piece_tags(toks[i], an, st);
    }
    assert forall|n: int| 0 < n <= toks.len() implies #[trigger] tokens_pieces(toks.take(n), an, st)
        == tokens_pieces(toks.take(n - 1), an, st) + token_pieces(toks[n - 1], an, st) by {
        assert(toks.take(n).drop_last() =~= toks.take(n - 1));
        assert(toks.take(n).last() == toks[n - 1]);
    }
}

/// In the pieces of a segment that is not the lone separator and whose
/// merged form holds no separator character, only the separators tagged
/// `SPEC_TOK` have the separator as their text.
proof fn lemma_tok_pieces_sep(x: Seq<char>, tag: Seq<char>, pos: Seq<char>, sep: Seq<char>)
    requires
        sep.len() > 0,
        x != sep,
        sep_free(merge_piece(x, sep), sep),
    ensures
        forall|k: int|
            0 <= k < tok_pieces(x, tag, pos, sep).len() && (#[trigger] tok_pieces(x, tag, pos, sep)[k]).text == sep
                ==> tok_pieces(x, tag, pos, sep)[k].ud == "SPEC_TOK"@,
{
    let leading = sep.len() <= x.len() && x.take(sep.len() as int) == sep;
    let core1 = if leading {
        x.skip(sep.len() as int)
    } else {
        x
    };
    let trailing = sep.len() <= core1.len() && core1.skip(core1.len() - sep.len()) == sep;
    let core = if trailing {
        core1.take(core1.len() - sep.len())
    } else {
        core1
    };
    assert(sep.contains(sep[0]));
    // The core holds no separator character, so it is not the separator.
    assert(sep_free(core, sep)) by {
        let m = merge_piece(x, sep);
        if sep.len() <= x.len() && x.skip(x.len() - sep.len()) == sep {
            let y = x.take(x.len() - sep.len());
            assert(m == y);
            if leading {
                assert(y.len() > 0) by {
                    if y.len() == 0 {
                        assert(x =~= sep);
                    }
                }
                assert(x[0] == y[0]);
                assert(x.take(sep.len() as int)[0] == x[0]);
                assert(!sep.contains(y[0]));
            }
            assert(core1 == x);
            assert(trailing);
            assert(core =~= y);
        } else if sep.len() <= x.len() && x.take(sep.len() as int) == sep {
            let y = x.skip(sep.len() as int);
            assert(m == y);
            assert(leading);
            assert(core1 == y);
            if trailing {
                assert(core1.skip(core1.len() - sep.len())[0] == y[y.len() - sep.len()]);
                assert(!sep.contains(y[y.len() - sep.len()]));
            }
            assert(core == y);
        } else {
            assert(m == x);
            assert(!leading);
            assert(!trailing);
            assert(core == x);
        }
    }
    assert(core != sep) by {
        if core == sep {
            assert(core[0] == sep[0]);
        }
    }
}

/// In the pieces of cut segments whose merged form holds neither a
/// separator character nor `_`, only the separators tagged `SPEC_TOK` have
/// the separator as their text.
proof fn lemma_tagged_sep(t: Seq<Seq<char>>, tags: Seq<Seq<char>>, pos: Seq<char>, sep: Seq<char>)
    requires
        sep.len() > 0,
        sep_free(merge_all(t, sep), sep),
        !merge_all(t, sep).contains('_'),
    ensures
        forall|k: int|
            0 <= k < tagged_toks(t, tags, pos, sep).len() && (#[trigger] tagged_toks(t, tags, pos, sep)[k]).text == sep
                ==> tagged_toks(t, tags, pos, sep)[k].ud == "SPEC_TOK"@,
    decreases t.len(),
{
    if t.len() > 0 {
        let t0 = t.drop_last();
        let l = t.last();
        let m0 = merge_all(t0, sep);
        let ml = merge_piece(l, sep);
        assert(merge_all(t, sep) == m0 + ml);
        crate::utils::lemma_sep_free_split(m0, ml, sep);
        assert(!m0.contains('_')) by {
            if m0.contains('_') {
                let i = choose|i: int| 0 <= i < m0.len() && m0[i] == '_';
                assert((m0 + ml)[i] == '_');
            }
        }
        assert(l != sep) by {
            if l == sep {
                assert((m0 + ml)[m0.len() as int] == '_');
            }
        }
        lemma_tagged_sep(t0, tags, pos, sep);
        let tag = tag_at(tags, t.len() - 1);
        lemma_tok_pieces_sep(l, tag, pos, sep);
        let head = tagged_toks(t0, tags, pos, sep);
        let tail = tok_pieces(l, tag, pos, sep);
        assert forall|k: int| 0 <= k < (head + tail).len() && (#[trigger] (head + tail)[k]).text == sep implies (head
            + tail)[k].ud == "SPEC_TOK"@ by {
            if k < head.len() {
                assert((head + tail)[k] == head[k]);
            } else {
                assert((head + tail)[k] == tail[k - head.len()]);
            }
        }
    }
}

proof fn lemma_token_pieces_sep(tok: Seq<char>, an: Map<Seq<char>, Seq<AnalysisView>>, st: StemSettings)
    requires
        st.sep.len() > 0,
        tok.len() > 0,
        all_plain(tok, st.sep),
        word_token(tok) ==> !tok.contains('_'),
    ensures
        forall|k: int|
            0 <= k < token_pieces(tok, an, st).len() && (#[trigger] token_pieces(tok, an, st)[k]).text == st.sep
                ==> token_pieces(tok, an, st)[k].ud == "SPEC_TOK"@,
{
    lemma_plain_no_sep(tok, st.sep);
    lemma_cuts_spell_the_word(tok, an, st);
    lemma_dediac_plain(tok, st.sep);
    assert(st.sep.contains(st.sep[0]));
    assert(tok != st.sep) by {
        if tok == st.sep {
            assert(tok[0] == st.sep[0]);
        }
    }
    if word_token(tok) {
        if let Some((a, Some(t))) = word_result(tok, an, st) {
            lemma_tagged_sep(t, ud_tags(a.ud), a.pos, st.sep);
        }
    }
}

/// Separators are tagged `SPEC_TOK`: in the pieces that `stem_tagged` gives
/// for a text that holds no tatweel, zero-width character, diacritic, alef
/// wasla or character of a non-empty separator, each piece whose text is
/// the separator is tagged `SPEC_TOK`.
proof fn lemma_separator_pieces(text: Seq<char>, an: Map<Seq<char>, Seq<AnalysisView>>, st: StemSettings)
    requires
        !alphanumeric('_'),
        !in_class(WORD_CLASS@, '_'),
        st.sep.len() > 0,
        forall|i: int| 0 <= i < text.len() ==> plain_char(#[trigger] text[i], st.sep),
    ensures
        forall|k: int|
            0 <= k < tokens_pieces(stem_tokens(text), an, st).len() && (#[trigger] tokens_pieces(
                stem_tokens(text),
                an,
                st,
            )[k]).text == st.sep ==> tokens_pieces(stem_tokens(text), an, st)[k].ud == "SPEC_TOK"@,
{
    let mode = tok_mode("full"@);
    lemma_stem_clean_plain(text, st.sep);
    lemma_tokens_cover(mode, text, 0);
    lemma_matched_plain(mode, text, 0, st.sep);
    lemma_stem_tokens_no_underscore(text);
    lemma_tokens_pieces_sep(stem_tokens(text), an, st);
}

proof fn lemma_matched_plain(mode: nat, t: Seq<char>, i: int, sep: Seq<char>)
    requires
        0 <= i <= t.len(),
        all_plain(t, sep),
    ensures
        all_plain(matched_from(mode, t, i), sep),
    decreases t.len() - i,
{
    if i < t.len() {
        lemma_matched_plain(mode, t, i + 1, sep);
        let h: Seq<char> = if tok_matched(mode, t[i]) {
            seq![t[i]]
        } else {
            seq![]
        };
        let r = matched_from(mode, t, i + 1);
        assert(plain_char(t[i], sep));
        assert forall|k: int| 0 <= k < (h + r).len() implies plain_char(#[trigger] (h + r)[k], sep) by {
            if k < h.len() {
                assert((h + r)[k] == t[i]);
            } else {
                assert((h + r)[k] == r[k - h.len()]);
            }
        }
    }
}

proof fn lemma_tokens_pieces_sep(toks: Seq<Seq<char>>, an: Map<Seq<char>, Seq<AnalysisView>>, st: StemSettings)
    requires
        st.sep.len() > 0,
        all_plain(concat_seqs(toks), st.sep),
        words_without_underscore(toks),
        forall|j: int| 0 <= j < toks.len() ==> #[trigger] toks[j].len() > 0,
    ensures
        forall|k: int|
            0 <= k < tokens_pieces(toks, an, st).len() && (#[trigger] tokens_pieces(toks, an, st)[k]).text == st.sep
                ==> tokens_pieces(toks, an, st)[k].ud == "SPEC_TOK"@,
    decreases toks.len(),
{
    if toks.len() > 0 {
        let t0 = toks.drop_last();
        let l = toks.last();
        lemma_all_plain_split(concat_seqs(t0), l, st.sep);
        assert forall|j: int| 0 <= j < t0.len() implies #[trigger] t0[j].len() > 0 by {
            assert(t0[j] == toks[j]);
        }
        assert(l.len() > 0) by {
            assert(toks[toks.len() - 1].len() > 0);
        }
        assert(words_without_underscore(t0)) by {
            assert forall|j: int| 0 <= j < t0.len() && word_token(#[trigger] t0[j]) implies !t0[j].contains('_') by {
                assert(t0[j] == toks[j]);
            }
        }
        assert(word_token(l) ==> !l.contains('_')) by {
            assert(toks[toks.len() - 1] == l);
        }
        lemma_tokens_pieces_sep(t0, an, st);
        lemma_token_pieces_sep(l, an, st);
        let head = tokens_pieces(t0, an, st);
        let tail = token_pieces(l, an, st);
        assert forall|k: int| 0 <= k < (head + tail).len() && (#[trigger] (head + tail)[k]).text == st.sep implies (head
            + tail)[k].ud == "SPEC_TOK"@ by {
            if k < head.len() {
                assert((head + tail)[k] == head[k]);
            } else {
                assert((head + tail)[k] == tail[k - head.len()]);
            }
        }
    }
}

// ---------------------------------------------------------------------------
// The words to analyse

/// The dediacritized words of a list of tokens, each once, in the order they
/// first come.
pub open spec fn word_keys(toks: Seq<Seq<char>>) -> Seq<Seq<char>>
    decreases toks.len(),
{
    if toks.len() == 0 {
        seq![]
    } else {
        let k = word_keys(toks.drop_last());
        let t = toks.last();
        if word_token(t) && !k.contains(dediac(t)) {
            k.push(dediac(t))
        } else {
            k
        }
    }
}

proof fn lemma_contains_push(q: Seq<Seq<char>>, x: Seq<char>, s: Seq<char>)
    ensures
        q.push(x).contains(s) <==> (q.contains(s) || s == x),
{
    if q.contains(s) {
        let i = choose|i: int| 0 <= i < q.len() && q[i] == s;
        assert(q.push(x)[i] == s);
    }
    if s == x {
        assert(q.push(x)[q.len() as int] == s);
    }
    if q.push(x).contains(s) {
        let j = choose|j: int| 0 <= j < q.push(x).len() && q.push(x)[j] == s;
        if j < q.len() {
            assert(q[j] == s);
        }
    }
}

/// The dediacritized words of a text that the stemmer looks up, each once,
/// in the order they first come.
pub fn cache_keys(text: &str) -> (r: Vec<String>)
    ensures
        string_views(r@) == word_keys(stem_tokens(text@)),
{
    let clean = clean_text(text);
    let cs = string_of(clean.as_slice());
    let tokens = simple_word_tokenize(cs.as_str(), "full");
    let ghost tv = string_views(tokens@);
    let mut seen = StringHashSet::new();
    let mut r: Vec<String> = Vec::new();
    let mut i: usize = 0;
    assert(tv.take(0) =~= Seq::<Seq<char>>::empty());
    assert(string_views(r@) =~= Seq::<Seq<char>>::empty());
    while i < tokens.len()
        invariant
            tv == string_views(tokens@),
            tv == stem_tokens(text@),
            i <= tokens@.len(),
            string_views(r@) == word_keys(tv.take(i as int)),
            forall|s: Seq<char>| seen@.contains(s) <==> string_views(r@).contains(s),
        decreases tokens@.len() - i,
    {
        assert(tv.take(i + 1).drop_last() =~= tv.take(i as int));
        let tok = &tokens[i];
        assert(tv.take(i + 1).last() == tok@);
        let tc = chars_of(tok.as_str());
        if is_word_token(tc.as_slice()) {
            let d = dediac_ar(tok.as_str());
            if !seen.contains(d.as_str()) {
                let ghost before = string_views(r@);
                seen.insert(d.clone());
                r.push(d);
                assert(string_views(r@) =~= before.push(dediac(tok@)));
                assert forall|s: Seq<char>| seen@.contains(s) <==> string_views(r@).contains(s) by {
                    lemma_contains_push(before, dediac(tok@), s);
                }
            }
        }
        i += 1;
    }
    assert(tv.take(tokens@.len() as int) =~= tv);
    r
}

/// The words that `cache_keys` gives are all different.
pub proof fn lemma_word_keys_distinct(toks: Seq<Seq<char>>)
    ensures
        forall|i: int, j: int|
            0 <= i < j < word_keys(toks).len() ==> word_keys(toks)[i] != word_keys(toks)[j],
    decreases toks.len(),
{
    if toks.len() > 0 {
        lemma_word_keys_distinct(toks.drop_last());
        let k = word_keys(toks.drop_last());
        let t = toks.last();
        if word_token(t) && !k.contains(dediac(t)) {
            let k2 = k.push(dediac(t));
            assert forall|i: int, j: int| 0 <= i < j < k2.len() implies k2[i] != k2[j] by {
                assert(k2[i] == k[i]);
                if j == k.len() {
                    if k[i] == dediac(t) {
                        assert(k.contains(dediac(t)));
                    }
                } else {
                    assert(k2[j] == k[j]);
                }
            }
        }
    }
}

/// With no analyses at hand the stemmer writes every token as it is.
pub proof fn lemma_stem_without_analyses(toks: Seq<Seq<char>>, st: StemSettings)
    ensures
        tokens_text(toks, Map::empty(), st) == concat_seqs(toks),
    decreases toks.len(),
{
    if toks.len() > 0 {
        lemma_stem_without_analyses(toks.drop_last(), st);
        assert(word_result(toks.last(), Map::empty(), st) is None);
    }
}

proof fn lemma_fallback_spells(a: AnalysisView, fb: Seq<Seq<char>>, i: int, d: Seq<char>, sep: Seq<char>, ta: bool)
    ensures
        fallback_toks(a, fb, i, d, sep, ta) matches Some(t) ==> merge_all(t, sep) == d && t.len() > 1,
    decreases fb.len() - i,
{
    if 0 <= i < fb.len() && scheme_toks(a, fb[i], d, sep, ta) is None {
        lemma_fallback_spells(a, fb, i + 1, d, sep, ta);
    }
}

/// The segments that the stemmer cuts a word into, at least two, put back
/// together without their separators, spell the word without its
/// diacritics, unless the word's diacritics are put back on them.
pub proof fn lemma_cuts_spell_the_word(tok: Seq<char>, an: Map<Seq<char>, Seq<AnalysisView>>, st: StemSettings)
    requires
        !(st.preserve && has_diac(tok)),
    ensures
        word_result(tok, an, st) matches Some((_, Some(t))) ==> merge_all(t, st.sep) == dediac(tok) && t.len() > 1,
{
    let d = dediac(tok);
    if an.contains_key(d) && an[d].len() > 0 {
        lemma_fallback_spells(an[d][0], st.fallback, 0, d, st.sep, ends_with_ta(d));
    }
}

/// The words that `cache_keys` gives are exactly the dediacritized words
/// that the stemmer looks up: each word token's dediacritized form is among
/// them, and each of them is the dediacritized form of a word token.
pub proof fn lemma_word_keys_are_the_lookups(toks: Seq<Seq<char>>)
    ensures
        forall|i: int|
            0 <= i < toks.len() && word_token(#[trigger] toks[i]) ==> word_keys(toks).contains(dediac(toks[i])),
        forall|k: Seq<char>|
            word_keys(toks).contains(k) ==> exists|i: int|
                0 <= i < toks.len() && word_token(#[trigger] toks[i]) && dediac(toks[i]) == k,
    decreases toks.len(),
{
    if toks.len() > 0 {
        let head = toks.drop_last();
        let t = toks.last();
        lemma_word_keys_are_the_lookups(head);
        let k0 = word_keys(head);
        let k1 = word_keys(toks);
        assert forall|x: Seq<char>| k0.contains(x) implies k1.contains(x) by {
            if word_token(t) && !k0.contains(dediac(t)) {
                lemma_contains_push(k0, dediac(t), x);
            }
        }
        assert forall|i: int| 0 <= i < toks.len() && word_token(#[trigger] toks[i]) implies k1.contains(
            dediac(toks[i]),
        ) by {
            if i < head.len() {
                assert(head[i] == toks[i]);
            } else if !k0.contains(dediac(t)) {
                lemma_contains_push(k0, dediac(t), dediac(t));
            }
        }
        assert forall|x: Seq<char>| k1.contains(x) implies exists|i: int|
            0 <= i < toks.len() && word_token(#[trigger] toks[i]) && dediac(toks[i]) == x by {
            if word_token(t) && !k0.contains(dediac(t)) {
                lemma_contains_push(k0, dediac(t), x);
            }
            if k0.contains(x) {
                let i = choose|i: int| 0 <= i < head.len() && word_token(#[trigger] head[i]) && dediac(head[i]) == x;
                assert(toks[i] == head[i]);
            } else {
                assert(toks[toks.len() - 1] == t);
            }
        }
    }
}

} // verus!
