//! Morphological analyses and the analyzer that builds them from the
//! prefixes, stems and suffixes of the morphology database.
use vstd::hash_map::StringHashMap;
use vstd::prelude::*;

use std::collections::VecDeque;

use crate::chars::{chars_eq, chars_of, str_eq, str_is_empty, string_of};
use crate::text_rules::{apply_char_rule, apply_rule, CharRule};
use crate::chars::{chars_contain_sub, chars_slice, char_width, contains_sub, lemma_utf8_len_take_step, utf8_len};
use crate::outside::{is_white_space, is_whitespace};
use crate::text_rules::split_on;
use crate::readings::{lemma_readings_are_the_allowed_ones, readings, readings_analyses};
use crate::utils::{ar_word, is_ar_char, is_digit_char, str_views, digit_word, is_ar, is_digit, is_punc, is_strict_digit, normalize, punc_word, split_chars, strict_digit_word};
use crate::text_rules::replace_literal;
use crate::utils::{caphi_parts, dediac, dediac_ar, initial_alef_hamza, replace_noan, simple_ar_to_caphi};
use crate::morphology_db::MorphologyDB;
use crate::db_format::text_fields;
use crate::text_rules::{apply_diac_rule, join_seqs, DiacRule};
use crate::utils::{
    diac_rules, join_non_empty, nonempty_parts, overridden, pick_override, regex_step, rewrite_caphi,
    rewrite_diac, rewrite_pattern, rewrite_tok_1, rewrite_tok_2, rewritten_diac, CAPHI_EDGES,
    CAPHI_EDGES_REP, caphi_rules, caphi_separators_spec,
};

verus! {

/// One morphological analysis of a word: its features as text. The log
/// probabilities are kept as the text the database or model gives, which a
/// reader parses as a number (`0` when it is empty or not a number).
#[derive(Debug)]
pub struct ScoredAnalysis {
    pub category: String,
    pub source: String,
    pub diac: String,
    pub lex: String,
    pub bw: String,
    pub gloss: String,
    pub stem: String,
    pub stemcat: String,
    pub stemgloss: String,
    pub catib6: String,
    pub ud: String,
    pub per: String,
    pub asp: String,
    pub vox: String,
    pub mod_: String,
    pub gen_: String,
    pub num: String,
    pub stt: String,
    pub cas: String,
    pub rat: String,
    pub form_gen: String,
    pub form_num: String,
    pub pos: String,
    pub prc3: String,
    pub prc2: String,
    pub prc1: String,
    pub prc0: String,
    pub enc0: String,
    pub d1seg: String,
    pub d2seg: String,
    pub d3seg: String,
    pub atbseg: String,
    pub d1tok: String,
    pub d2tok: String,
    pub d3tok: String,
    pub atbtok: String,
    pub bwtok: String,
    pub root: String,
    pub pattern: String,
    pub caphi: String,
    pub pos_logprob: String,
    pub lex_logprob: String,
    pub pos_lex_logprob: String,
}

/// The features of an analysis as character sequences.
#[verifier::ext_equal]
pub struct AnalysisView {
    pub category: Seq<char>,
    pub source: Seq<char>,
    pub diac: Seq<char>,
    pub lex: Seq<char>,
    pub bw: Seq<char>,
    pub gloss: Seq<char>,
    pub stem: Seq<char>,
    pub stemcat: Seq<char>,
    pub stemgloss: Seq<char>,
    pub catib6: Seq<char>,
    pub ud: Seq<char>,
    pub per: Seq<char>,
    pub asp: Seq<char>,
    pub vox: Seq<char>,
    pub mod_: Seq<char>,
    pub gen_: Seq<char>,
    pub num: Seq<char>,
    pub stt: Seq<char>,
    pub cas: Seq<char>,
    pub rat: Seq<char>,
    pub form_gen: Seq<char>,
    pub form_num: Seq<char>,
    pub pos: Seq<char>,
    pub prc3: Seq<char>,
    pub prc2: Seq<char>,
    pub prc1: Seq<char>,
    pub prc0: Seq<char>,
    pub enc0: Seq<char>,
    pub d1seg: Seq<char>,
    pub d2seg: Seq<char>,
    pub d3seg: Seq<char>,
    pub atbseg: Seq<char>,
    pub d1tok: Seq<char>,
    pub d2tok: Seq<char>,
    pub d3tok: Seq<char>,
    pub atbtok: Seq<char>,
    pub bwtok: Seq<char>,
    pub root: Seq<char>,
    pub pattern: Seq<char>,
    pub caphi: Seq<char>,
    pub pos_logprob: Seq<char>,
    pub lex_logprob: Seq<char>,
    pub pos_lex_logprob: Seq<char>,
}

impl View for ScoredAnalysis {
    type V = AnalysisView;

    open spec fn view(&self) -> AnalysisView {
        AnalysisView {
            category: self.category@,
            source: self.source@,
            diac: self.diac@,
            lex: self.lex@,
            bw: self.bw@,
            gloss: self.gloss@,
            stem: self.stem@,
            stemcat: self.stemcat@,
            stemgloss: self.stemgloss@,
            catib6: self.catib6@,
            ud: self.ud@,
            per: self.per@,
            asp: self.asp@,
            vox: self.vox@,
            mod_: self.mod_@,
            gen_: self.gen_@,
            num: self.num@,
            stt: self.stt@,
            cas: self.cas@,
            rat: self.rat@,
            form_gen: self.form_gen@,
            form_num: self.form_num@,
            pos: self.pos@,
            prc3: self.prc3@,
            prc2: self.prc2@,
            prc1: self.prc1@,
            prc0: self.prc0@,
            enc0: self.enc0@,
            d1seg: self.d1seg@,
            d2seg: self.d2seg@,
            d3seg: self.d3seg@,
            atbseg: self.atbseg@,
            d1tok: self.d1tok@,
            d2tok: self.d2tok@,
            d3tok: self.d3tok@,
            atbtok: self.atbtok@,
            bwtok: self.bwtok@,
            root: self.root@,
            pattern: self.pattern@,
            caphi: self.caphi@,
            pos_logprob: self.pos_logprob@,
            lex_logprob: self.lex_logprob@,
            pos_lex_logprob: self.pos_lex_logprob@,
        }
    }
}

/// The analysis with every feature empty.
pub open spec fn empty_analysis() -> AnalysisView {
    AnalysisView {
        category: seq![],
        source: seq![],
        diac: seq![],
        lex: seq![],
        bw: seq![],
        gloss: seq![],
        stem: seq![],
        stemcat: seq![],
        stemgloss: seq![],
        catib6: seq![],
        ud: seq![],
        per: seq![],
        asp: seq![],
        vox: seq![],
        mod_: seq![],
        gen_: seq![],
        num: seq![],
        stt: seq![],
        cas: seq![],
        rat: seq![],
        form_gen: seq![],
        form_num: seq![],
        pos: seq![],
        prc3: seq![],
        prc2: seq![],
        prc1: seq![],
        prc0: seq![],
        enc0: seq![],
        d1seg: seq![],
        d2seg: seq![],
        d3seg: seq![],
        atbseg: seq![],
        d1tok: seq![],
        d2tok: seq![],
        d3tok: seq![],
        atbtok: seq![],
        bwtok: seq![],
        root: seq![],
        pattern: seq![],
        caphi: seq![],
        pos_logprob: seq![],
        lex_logprob: seq![],
        pos_lex_logprob: seq![],
    }
}

impl Default for ScoredAnalysis {
    fn default() -> (r: Self)
        ensures
            r@ == empty_analysis(),
    {
        ScoredAnalysis {
            category: String::new(),
            source: String::new(),
            diac: String::new(),
            lex: String::new(),
            bw: String::new(),
            gloss: String::new(),
            stem: String::new(),
            stemcat: String::new(),
            stemgloss: String::new(),
            catib6: String::new(),
            ud: String::new(),
            per: String::new(),
            asp: String::new(),
            vox: String::new(),
            mod_: String::new(),
            gen_: String::new(),
            num: String::new(),
            stt: String::new(),
            cas: String::new(),
            rat: String::new(),
            form_gen: String::new(),
            form_num: String::new(),
            pos: String::new(),
            prc3: String::new(),
            prc2: String::new(),
            prc1: String::new(),
            prc0: String::new(),
            enc0: String::new(),
            d1seg: String::new(),
            d2seg: String::new(),
            d3seg: String::new(),
            atbseg: String::new(),
            d1tok: String::new(),
            d2tok: String::new(),
            d3tok: String::new(),
            atbtok: String::new(),
            bwtok: String::new(),
            root: String::new(),
            pattern: String::new(),
            caphi: String::new(),
            pos_logprob: String::new(),
            lex_logprob: String::new(),
            pos_lex_logprob: String::new(),
        }
    }
}

/// The value of `key` in a feature map as an analysis reads it: missing
/// keys and the placeholder `*` read as empty.
pub open spec fn map_field(m: Map<Seq<char>, Seq<char>>, key: Seq<char>) -> Seq<char> {
    if m.contains_key(key) && m[key] != "*"@ {
        m[key]
    } else {
        seq![]
    }
}

/// The text of a log probability in a feature map (the placeholder included).
pub open spec fn map_raw(m: Map<Seq<char>, Seq<char>>, key: Seq<char>) -> Seq<char> {
    if m.contains_key(key) {
        m[key]
    } else {
        seq![]
    }
}

/// Whether a feature map holds a score, which no text value can give.
pub open spec fn map_has_score(m: Map<Seq<char>, Seq<char>>) -> bool {
    m.contains_key("score"@) && m["score"@] != "*"@
}

/// The analysis that a feature map describes.
pub open spec fn analysis_from_map(m: Map<Seq<char>, Seq<char>>) -> AnalysisView {
    AnalysisView {
        category: map_field(m, "category"@),
        source: map_field(m, "source"@),
        diac: map_field(m, "diac"@),
        lex: map_field(m, "lex"@),
        bw: map_field(m, "bw"@),
        gloss: map_field(m, "gloss"@),
        stem: map_field(m, "stem"@),
        stemcat: map_field(m, "stemcat"@),
        stemgloss: map_field(m, "stemgloss"@),
        catib6: map_field(m, "catib6"@),
        ud: map_field(m, "ud"@),
        per: map_field(m, "per"@),
        asp: map_field(m, "asp"@),
        vox: map_field(m, "vox"@),
        mod_: map_field(m, "mod"@),
        gen_: map_field(m, "gen"@),
        num: map_field(m, "num"@),
        stt: map_field(m, "stt"@),
        cas: map_field(m, "cas"@),
        rat: map_field(m, "rat"@),
        form_gen: map_field(m, "form_gen"@),
        form_num: map_field(m, "form_num"@),
        pos: map_field(m, "pos"@),
        prc3: map_field(m, "prc3"@),
        prc2: map_field(m, "prc2"@),
        prc1: map_field(m, "prc1"@),
        prc0: map_field(m, "prc0"@),
        enc0: map_field(m, "enc0"@),
        d1seg: map_field(m, "d1seg"@),
        d2seg: map_field(m, "d2seg"@),
        d3seg: map_field(m, "d3seg"@),
        atbseg: map_field(m, "atbseg"@),
        d1tok: map_field(m, "d1tok"@),
        d2tok: map_field(m, "d2tok"@),
        d3tok: map_field(m, "d3tok"@),
        atbtok: map_field(m, "atbtok"@),
        bwtok: map_field(m, "bwtok"@),
        root: map_field(m, "root"@),
        pattern: map_field(m, "pattern"@),
        caphi: map_field(m, "caphi"@),
        pos_logprob: map_raw(m, "pos_logprob"@),
        lex_logprob: map_raw(m, "lex_logprob"@),
        pos_lex_logprob: map_raw(m, "pos_lex_logprob"@),
    }
}

fn read_field(map: &StringHashMap<String>, key: &str) -> (r: String)
    ensures
        r@ == map_field(text_fields(map@), key@),
{
    match map.get(key) {
        Some(v) => if str_eq(v.as_str(), "*") {
            String::new()
        } else {
            v.clone()
        },
        None => String::new(),
    }
}

fn read_raw(map: &StringHashMap<String>, key: &str) -> (r: String)
    ensures
        r@ == map_raw(text_fields(map@), key@),
{
    match map.get(key) {
        Some(v) => v.clone(),
        None => String::new(),
    }
}

/// Why a feature map does not describe an analysis.
#[derive(Clone, Copy, Debug, PartialEq, Eq)]
pub enum FromMapError {
    /// The map gives the score as text; the score is a number.
    ScoreNotANumber,
}

impl ScoredAnalysis {
    /// A copy of the analysis.
    pub fn duplicate(&self) -> (r: Self)
        ensures
            r == *self,
    {
        ScoredAnalysis {
            category: self.category.clone(),
            source: self.source.clone(),
            diac: self.diac.clone(),
            lex: self.lex.clone(),
            bw: self.bw.clone(),
            gloss: self.gloss.clone(),
            stem: self.stem.clone(),
            stemcat: self.stemcat.clone(),
            stemgloss: self.stemgloss.clone(),
            catib6: self.catib6.clone(),
            ud: self.ud.clone(),
            per: self.per.clone(),
            asp: self.asp.clone(),
            vox: self.vox.clone(),
            mod_: self.mod_.clone(),
            gen_: self.gen_.clone(),
            num: self.num.clone(),
            stt: self.stt.clone(),
            cas: self.cas.clone(),
            rat: self.rat.clone(),
            form_gen: self.form_gen.clone(),
            form_num: self.form_num.clone(),
            pos: self.pos.clone(),
            prc3: self.prc3.clone(),
            prc2: self.prc2.clone(),
            prc1: self.prc1.clone(),
            prc0: self.prc0.clone(),
            enc0: self.enc0.clone(),
            d1seg: self.d1seg.clone(),
            d2seg: self.d2seg.clone(),
            d3seg: self.d3seg.clone(),
            atbseg: self.atbseg.clone(),
            d1tok: self.d1tok.clone(),
            d2tok: self.d2tok.clone(),
            d3tok: self.d3tok.clone(),
            atbtok: self.atbtok.clone(),
            bwtok: self.bwtok.clone(),
            root: self.root.clone(),
            pattern: self.pattern.clone(),
            caphi: self.caphi.clone(),
            pos_logprob: self.pos_logprob.clone(),
            lex_logprob: self.lex_logprob.clone(),
            pos_lex_logprob: self.pos_lex_logprob.clone(),
        }
    }

    /// The analysis that a feature map describes: each feature takes the
    /// map's value unless it is missing or `*`; the log probabilities keep
    /// their text. Fails when the map gives a score.
    pub fn from_map(map: &StringHashMap<String>) -> (r: Result<Self, FromMapError>)
        ensures
            map_has_score(text_fields(map@)) <==> r is Err,
            r is Ok ==> r->Ok_0@ == analysis_from_map(text_fields(map@)),
    {
        if let Some(v) = map.get("score") {
            if !str_eq(v.as_str(), "*") {
                return Err(FromMapError::ScoreNotANumber);
            }
        }
        Ok(ScoredAnalysis {
            category: read_field(map, "category"),
            source: read_field(map, "source"),
            diac: read_field(map, "diac"),
            lex: read_field(map, "lex"),
            bw: read_field(map, "bw"),
            gloss: read_field(map, "gloss"),
            stem: read_field(map, "stem"),
            stemcat: read_field(map, "stemcat"),
            stemgloss: read_field(map, "stemgloss"),
            catib6: read_field(map, "catib6"),
            ud: read_field(map, "ud"),
            per: read_field(map, "per"),
            asp: read_field(map, "asp"),
            vox: read_field(map, "vox"),
            mod_: read_field(map, "mod"),
            gen_: read_field(map, "gen"),
            num: read_field(map, "num"),
            stt: read_field(map, "stt"),
            cas: read_field(map, "cas"),
            rat: read_field(map, "rat"),
            form_gen: read_field(map, "form_gen"),
            form_num: read_field(map, "form_num"),
            pos: read_field(map, "pos"),
            prc3: read_field(map, "prc3"),
            prc2: read_field(map, "prc2"),
            prc1: read_field(map, "prc1"),
            prc0: read_field(map, "prc0"),
            enc0: read_field(map, "enc0"),
            d1seg: read_field(map, "d1seg"),
            d2seg: read_field(map, "d2seg"),
            d3seg: read_field(map, "d3seg"),
            atbseg: read_field(map, "atbseg"),
            d1tok: read_field(map, "d1tok"),
            d2tok: read_field(map, "d2tok"),
            d3tok: read_field(map, "d3tok"),
            atbtok: read_field(map, "atbtok"),
            bwtok: read_field(map, "bwtok"),
            root: read_field(map, "root"),
            pattern: read_field(map, "pattern"),
            caphi: read_field(map, "caphi"),
            pos_logprob: read_raw(map, "pos_logprob"),
            lex_logprob: read_raw(map, "lex_logprob"),
            pos_lex_logprob: read_raw(map, "pos_lex_logprob"),
        })
    }

    /// Sets every tokenization feature to `val`.
    pub fn set_tok_all(&mut self, val: &str)
        ensures
            final(self)@ == (AnalysisView {
                d1seg: val@,
                d2seg: val@,
                d3seg: val@,
                atbseg: val@,
                d1tok: val@,
                d2tok: val@,
                d3tok: val@,
                atbtok: val@,
                bwtok: val@,
                ..old(self)@
            }),
    {
        self.d1seg = val.to_owned();
        self.d2seg = val.to_owned();
        self.d3seg = val.to_owned();
        self.atbseg = val.to_owned();
        self.d1tok = val.to_owned();
        self.d2tok = val.to_owned();
        self.d3tok = val.to_owned();
        self.atbtok = val.to_owned();
        self.bwtok = val.to_owned();
    }

    /// Sets the root, pattern and phonetic features to `val`.
    pub fn set_lex_feats_all(&mut self, val: &str)
        ensures
            final(self)@ == (AnalysisView { root: val@, pattern: val@, caphi: val@, ..old(self)@ }),
    {
        self.root = val.to_owned();
        self.pattern = val.to_owned();
        self.caphi = val.to_owned();
    }

    /// Sets the three log probabilities to the number written `val`.
    pub fn set_logprobs_all(&mut self, val: &str)
        ensures
            final(self)@ == (AnalysisView {
                pos_logprob: val@,
                lex_logprob: val@,
                pos_lex_logprob: val@,
                ..old(self)@
            }),
    {
        self.pos_logprob = val.to_owned();
        self.lex_logprob = val.to_owned();
        self.pos_lex_logprob = val.to_owned();
    }
}

/// A database-defined feature.
pub open spec fn defines(db: MorphologyDB, name: Seq<char>) -> bool {
    db.defines@.contains_key(name)
}

/// Three feature values joined with `sep`, empty ones left out.
pub open spec fn join3(a: Seq<char>, b: Seq<char>, c: Seq<char>, sep: Seq<char>) -> Seq<char> {
    join_seqs(nonempty_parts(seq![a, b, c]), sep)
}

/// A stem's tokenization value, or its diacritized form when it has none.
pub open spec fn stem_or_diac(v: Seq<char>, diac: Seq<char>) -> Seq<char> {
    if v.len() == 0 {
        diac
    } else {
        v
    }
}

/// The features that the suffix, then the prefix, override where they say something.
pub open spec fn with_overrides(r: AnalysisView, p: AnalysisView, x: AnalysisView) -> AnalysisView {
    AnalysisView {
        pos: overridden(overridden(r.pos, x.pos), p.pos),
        per: overridden(overridden(r.per, x.per), p.per),
        asp: overridden(overridden(r.asp, x.asp), p.asp),
        vox: overridden(overridden(r.vox, x.vox), p.vox),
        mod_: overridden(overridden(r.mod_, x.mod_), p.mod_),
        gen_: overridden(overridden(r.gen_, x.gen_), p.gen_),
        num: overridden(overridden(r.num, x.num), p.num),
        stt: overridden(overridden(r.stt, x.stt), p.stt),
        cas: overridden(overridden(r.cas, x.cas), p.cas),
        rat: overridden(overridden(r.rat, x.rat), p.rat),
        form_gen: overridden(overridden(r.form_gen, x.form_gen), p.form_gen),
        form_num: overridden(overridden(r.form_num, x.form_num), p.form_num),
        prc3: overridden(overridden(r.prc3, x.prc3), p.prc3),
        prc2: overridden(overridden(r.prc2, x.prc2), p.prc2),
        prc1: overridden(overridden(r.prc1, x.prc1), p.prc1),
        prc0: overridden(overridden(r.prc0, x.prc0), p.prc0),
        enc0: overridden(overridden(r.enc0, x.enc0), p.enc0),
        source: overridden(overridden(r.source, x.source), p.source),
        lex: overridden(overridden(r.lex, x.lex), p.lex),
        root: overridden(overridden(r.root, x.root), p.root),
        ..r
    }
}

/// The glosses, forms and tags of the three parts joined.
pub open spec fn with_joins(db: MorphologyDB, r: AnalysisView, p: AnalysisView, s: AnalysisView, x: AnalysisView, j: Seq<char>) -> AnalysisView {
    AnalysisView {
        gloss: if defines(db, "gloss"@) { join3(p.gloss, s.gloss, x.gloss, j) } else { r.gloss },
        bw: if defines(db, "bw"@) { join3(p.bw, s.bw, x.bw, j) } else { r.bw },
        diac: if defines(db, "diac"@) { join3(p.diac, s.diac, x.diac, j) } else { r.diac },
        catib6: if defines(db, "catib6"@) { join3(p.catib6, s.catib6, x.catib6, j) } else { r.catib6 },
        ud: if defines(db, "ud"@) { join3(p.ud, s.ud, x.ud, j) } else { r.ud },
        caphi: if defines(db, "caphi"@) { join3(p.caphi, s.caphi, x.caphi, j) } else { r.caphi },
        ..r
    }
}

/// The tokenizations of the three parts put together.
pub open spec fn with_toks(db: MorphologyDB, r: AnalysisView, p: AnalysisView, s: AnalysisView, x: AnalysisView) -> AnalysisView {
    AnalysisView {
        d1seg: if defines(db, "d1seg"@) { p.d1seg + stem_or_diac(s.d1seg, s.diac) + x.d1seg } else { r.d1seg },
        d2seg: if defines(db, "d2seg"@) { p.d2seg + stem_or_diac(s.d2seg, s.diac) + x.d2seg } else { r.d2seg },
        d3seg: if defines(db, "d3seg"@) { p.d3seg + stem_or_diac(s.d3seg, s.diac) + x.d3seg } else { r.d3seg },
        atbseg: if defines(db, "atbseg"@) { p.atbseg + stem_or_diac(s.atbseg, s.diac) + x.atbseg } else { r.atbseg },
        d1tok: if defines(db, "d1tok"@) { p.d1tok + stem_or_diac(s.d1tok, s.diac) + x.d1tok } else { r.d1tok },
        d2tok: if defines(db, "d2tok"@) { p.d2tok + stem_or_diac(s.d2tok, s.diac) + x.d2tok } else { r.d2tok },
        d3tok: if defines(db, "d3tok"@) { p.d3tok + stem_or_diac(s.d3tok, s.diac) + x.d3tok } else { r.d3tok },
        atbtok: if defines(db, "atbtok"@) { p.atbtok + stem_or_diac(s.atbtok, s.diac) + x.atbtok } else { r.atbtok },
        bwtok: if defines(db, "bwtok"@) { p.bwtok + stem_or_diac(s.bwtok, s.diac) + x.bwtok } else { r.bwtok },
        ..r
    }
}

/// The diacritized form, the segmentations and the phonetic form rewritten.
pub open spec fn with_rewrites(db: MorphologyDB, r: AnalysisView) -> AnalysisView {
    AnalysisView {
        d1tok: if defines(db, "d1tok"@) { diac_rules(r.d1tok) } else { r.d1tok },
        d2tok: if defines(db, "d2tok"@) { diac_rules(r.d2tok) } else { r.d2tok },
        atbtok: if defines(db, "atbtok"@) { diac_rules(r.atbtok) } else { r.atbtok },
        d1seg: if defines(db, "d1seg"@) { diac_rules(r.d1seg) } else { r.d1seg },
        d2seg: if defines(db, "d2seg"@) { diac_rules(r.d2seg) } else { r.d2seg },
        d3seg: if defines(db, "d3seg"@) { diac_rules(r.d3seg) } else { r.d3seg },
        atbseg: if defines(db, "atbseg"@) { diac_rules(r.atbseg) } else { r.atbseg },
        d3tok: if defines(db, "d3tok"@) { apply_diac_rule(DiacRule::AlefFatha, r.d3tok) } else { r.d3tok },
        caphi: if defines(db, "caphi"@) {
            regex_step(caphi_separators_spec(caphi_rules(r.caphi)), CAPHI_EDGES@, CAPHI_EDGES_REP@)
        } else {
            r.caphi
        },
        diac: rewritten_diac(r.diac),
        ..r
    }
}

/// Gender and number from their form values when unset, and the pattern when computed.
pub open spec fn with_forms(db: MorphologyDB, r: AnalysisView, p: AnalysisView, s: AnalysisView, x: AnalysisView) -> AnalysisView {
    AnalysisView {
        gen_: if defines(db, "form_gen"@) && r.gen_ == "-"@ { r.form_gen } else { r.gen_ },
        num: if defines(db, "form_num"@) && r.num == "-"@ { r.form_num } else { r.num },
        pattern: if db.compute_feats@.contains("pattern"@) {
            apply_diac_rule(DiacRule::DropMark, p.diac + stem_or_diac(s.pattern, s.diac) + x.diac)
        } else {
            r.pattern
        },
        ..r
    }
}

/// What the merge of a prefix, a stem and a suffix analysis gives: the stem's
/// features, overridden by the suffix and then the prefix where those say
/// something; the joined glosses, forms and tags; the tokenizations put
/// together; the stem's diacritized form and gloss as stem and stem gloss;
/// the rewrites; gender and number from their form values when unset; and
/// the pattern when it is computed.
pub open spec fn merged_features(db: MorphologyDB, p: AnalysisView, s: AnalysisView, x: AnalysisView, j: Seq<char>) -> AnalysisView {
    let a = with_overrides(s, p, x);
    let b = with_joins(db, a, p, s, x, j);
    let c = with_toks(db, b, p, s, x);
    let d = AnalysisView { stem: s.diac, stemgloss: s.gloss, ..c };
    with_forms(db, with_rewrites(db, d), p, s, x)
}

/// A feature value that says something: neither empty nor `-`.
pub open spec fn says(v: Seq<char>) -> bool {
    v.len() > 0 && v != seq!['-']
}

/// Which part decides a feature that affixes may set (part of speech,
/// person, aspect, voice, mood, gender, number, state, case, rationality,
/// the form features, the clitics, source, lemma and root): the prefix
/// when its value says something, else the suffix when its value says
/// something, else the stem (for gender and number, a stem value `-` may be
/// filled from the form value).
pub proof fn lemma_affixes_override(db: MorphologyDB, p: AnalysisView, s: AnalysisView, x: AnalysisView, j: Seq<char>)
    ensures
        says(p.pos) ==> merged_features(db, p, s, x, j).pos == p.pos,
        !says(p.pos) && says(x.pos) ==> merged_features(db, p, s, x, j).pos == x.pos,
        !says(p.pos) && !says(x.pos) ==> merged_features(db, p, s, x, j).pos == s.pos,
        says(p.per) ==> merged_features(db, p, s, x, j).per == p.per,
        !says(p.per) && says(x.per) ==> merged_features(db, p, s, x, j).per == x.per,
        !says(p.per) && !says(x.per) ==> merged_features(db, p, s, x, j).per == s.per,
        says(p.asp) ==> merged_features(db, p, s, x, j).asp == p.asp,
        !says(p.asp) && says(x.asp) ==> merged_features(db, p, s, x, j).asp == x.asp,
        !says(p.asp) && !says(x.asp) ==> merged_features(db, p, s, x, j).asp == s.asp,
        says(p.vox) ==> merged_features(db, p, s, x, j).vox == p.vox,
        !says(p.vox) && says(x.vox) ==> merged_features(db, p, s, x, j).vox == x.vox,
        !says(p.vox) && !says(x.vox) ==> merged_features(db, p, s, x, j).vox == s.vox,
        says(p.mod_) ==> merged_features(db, p, s, x, j).mod_ == p.mod_,
        !says(p.mod_) && says(x.mod_) ==> merged_features(db, p, s, x, j).mod_ == x.mod_,
        !says(p.mod_) && !says(x.mod_) ==> merged_features(db, p, s, x, j).mod_ == s.mod_,
        says(p.gen_) ==> merged_features(db, p, s, x, j).gen_ == p.gen_,
        !says(p.gen_) && says(x.gen_) ==> merged_features(db, p, s, x, j).gen_ == x.gen_,
        !says(p.gen_) && !says(x.gen_) && s.gen_ != seq!['-'] ==> merged_features(db, p, s, x, j).gen_ == s.gen_,
        says(p.num) ==> merged_features(db, p, s, x, j).num == p.num,
        !says(p.num) && says(x.num) ==> merged_features(db, p, s, x, j).num == x.num,
        !says(p.num) && !says(x.num) && s.num != seq!['-'] ==> merged_features(db, p, s, x, j).num == s.num,
        says(p.stt) ==> merged_features(db, p, s, x, j).stt == p.stt,
        !says(p.stt) && says(x.stt) ==> merged_features(db, p, s, x, j).stt == x.stt,
        !says(p.stt) && !says(x.stt) ==> merged_features(db, p, s, x, j).stt == s.stt,
        says(p.cas) ==> merged_features(db, p, s, x, j).cas == p.cas,
        !says(p.cas) && says(x.cas) ==> merged_features(db, p, s, x, j).cas == x.cas,
        !says(p.cas) && !says(x.cas) ==> merged_features(db, p, s, x, j).cas == s.cas,
        says(p.rat) ==> merged_features(db, p, s, x, j).rat == p.rat,
        !says(p.rat) && says(x.rat) ==> merged_features(db, p, s, x, j).rat == x.rat,
        !says(p.rat) && !says(x.rat) ==> merged_features(db, p, s, x, j).rat == s.rat,
        says(p.form_gen) ==> merged_features(db, p, s, x, j).form_gen == p.form_gen,
        !says(p.form_gen) && says(x.form_gen) ==> merged_features(db, p, s, x, j).form_gen == x.form_gen,
        !says(p.form_gen) && !says(x.form_gen) ==> merged_features(db, p, s, x, j).form_gen == s.form_gen,
        says(p.form_num) ==> merged_features(db, p, s, x, j).form_num == p.form_num,
        !says(p.form_num) && says(x.form_num) ==> merged_features(db, p, s, x, j).form_num == x.form_num,
        !says(p.form_num) && !says(x.form_num) ==> merged_features(db, p, s, x, j).form_num == s.form_num,
        says(p.prc3) ==> merged_features(db, p, s, x, j).prc3 == p.prc3,
        !says(p.prc3) && says(x.prc3) ==> merged_features(db, p, s, x, j).prc3 == x.prc3,
        !says(p.prc3) && !says(x.prc3) ==> merged_features(db, p, s, x, j).prc3 == s.prc3,
        says(p.prc2) ==> merged_features(db, p, s, x, j).prc2 == p.prc2,
        !says(p.prc2) && says(x.prc2) ==> merged_features(db, p, s, x, j).prc2 == x.prc2,
        !says(p.prc2) && !says(x.prc2) ==> merged_features(db, p, s, x, j).prc2 == s.prc2,
        says(p.prc1) ==> merged_features(db, p, s, x, j).prc1 == p.prc1,
        !says(p.prc1) && says(x.prc1) ==> merged_features(db, p, s, x, j).prc1 == x.prc1,
        !says(p.prc1) && !says(x.prc1) ==> merged_features(db, p, s, x, j).prc1 == s.prc1,
        says(p.prc0) ==> merged_features(db, p, s, x, j).prc0 == p.prc0,
        !says(p.prc0) && says(x.prc0) ==> merged_features(db, p, s, x, j).prc0 == x.prc0,
        !says(p.prc0) && !says(x.prc0) ==> merged_features(db, p, s, x, j).prc0 == s.prc0,
        says(p.enc0) ==> merged_features(db, p, s, x, j).enc0 == p.enc0,
        !says(p.enc0) && says(x.enc0) ==> merged_features(db, p, s, x, j).enc0 == x.enc0,
        !says(p.enc0) && !says(x.enc0) ==> merged_features(db, p, s, x, j).enc0 == s.enc0,
        says(p.source) ==> merged_features(db, p, s, x, j).source == p.source,
        !says(p.source) && says(x.source) ==> merged_features(db, p, s, x, j).source == x.source,
        !says(p.source) && !says(x.source) ==> merged_features(db, p, s, x, j).source == s.source,
        says(p.lex) ==> merged_features(db, p, s, x, j).lex == p.lex,
        !says(p.lex) && says(x.lex) ==> merged_features(db, p, s, x, j).lex == x.lex,
        !says(p.lex) && !says(x.lex) ==> merged_features(db, p, s, x, j).lex == s.lex,
        says(p.root) ==> merged_features(db, p, s, x, j).root == p.root,
        !says(p.root) && says(x.root) ==> merged_features(db, p, s, x, j).root == x.root,
        !says(p.root) && !says(x.root) ==> merged_features(db, p, s, x, j).root == s.root,
{
    reveal_strlit("-");
    assert("-"@ =~= seq!['-']);
}

/// The other parts of a merge: the stem form and stem gloss are the stem's
/// diacritized form and gloss; a joined feature (gloss, Buckwalter form,
/// CATiB tag, UD tag) that the database defines is the prefix's, the
/// stem's and the suffix's values joined with `j`, empty ones left out (so
/// the stem's alone when the affixes have none), and the stem's when it is
/// not defined; the Buckwalter tokenization is the prefix's, the stem's (its
/// diacritized form when it has none) and the suffix's one after another;
/// and a gender or number left `-` by the stem and the affixes is taken
/// from the merged form value.
pub proof fn lemma_merge_parts(db: MorphologyDB, p: AnalysisView, s: AnalysisView, x: AnalysisView, j: Seq<char>)
    ensures
        merged_features(db, p, s, x, j).stem == s.diac,
        merged_features(db, p, s, x, j).stemgloss == s.gloss,
        !defines(db, "gloss"@) ==> merged_features(db, p, s, x, j).gloss == s.gloss,
        defines(db, "gloss"@) && p.gloss.len() == 0 && x.gloss.len() == 0 ==> merged_features(db, p, s, x, j).gloss == s.gloss,
        defines(db, "gloss"@) && p.gloss.len() > 0 && s.gloss.len() > 0 && x.gloss.len() > 0 ==> merged_features(db, p, s, x, j).gloss == p.gloss + j + s.gloss + j + x.gloss,
        !defines(db, "bw"@) ==> merged_features(db, p, s, x, j).bw == s.bw,
        defines(db, "bw"@) && p.bw.len() == 0 && x.bw.len() == 0 ==> merged_features(db, p, s, x, j).bw == s.bw,
        defines(db, "bw"@) && p.bw.len() > 0 && s.bw.len() > 0 && x.bw.len() > 0 ==> merged_features(db, p, s, x, j).bw == p.bw + j + s.bw + j + x.bw,
        !defines(db, "catib6"@) ==> merged_features(db, p, s, x, j).catib6 == s.catib6,
        defines(db, "catib6"@) && p.catib6.len() == 0 && x.catib6.len() == 0 ==> merged_features(db, p, s, x, j).catib6 == s.catib6,
        defines(db, "catib6"@) && p.catib6.len() > 0 && s.catib6.len() > 0 && x.catib6.len() > 0 ==> merged_features(db, p, s, x, j).catib6 == p.catib6 + j + s.catib6 + j + x.catib6,
        !defines(db, "ud"@) ==> merged_features(db, p, s, x, j).ud == s.ud,
        defines(db, "ud"@) && p.ud.len() == 0 && x.ud.len() == 0 ==> merged_features(db, p, s, x, j).ud == s.ud,
        defines(db, "ud"@) && p.ud.len() > 0 && s.ud.len() > 0 && x.ud.len() > 0 ==> merged_features(db, p, s, x, j).ud == p.ud + j + s.ud + j + x.ud,
        defines(db, "bwtok"@) ==> merged_features(db, p, s, x, j).bwtok == p.bwtok + (if s.bwtok.len() == 0 {
            s.diac
        } else {
            s.bwtok
        }) + x.bwtok,
        !defines(db, "bwtok"@) ==> merged_features(db, p, s, x, j).bwtok == s.bwtok,
        defines(db, "form_gen"@) && !says(p.gen_) && !says(x.gen_) && s.gen_ == seq!['-'] ==> merged_features(
            db,
            p,
            s,
            x,
            j,
        ).gen_ == merged_features(db, p, s, x, j).form_gen,
        defines(db, "form_num"@) && !says(p.num) && !says(x.num) && s.num == seq!['-'] ==> merged_features(
            db,
            p,
            s,
            x,
            j,
        ).num == merged_features(db, p, s, x, j).form_num,
{
    reveal_strlit("-");
    assert("-"@ =~= seq!['-']);
    reveal_with_fuel(crate::utils::nonempty_parts, 4);
    reveal_with_fuel(join_seqs, 4);
    assert forall|a: Seq<char>, b: Seq<char>, c: Seq<char>| a.len() > 0 && b.len() > 0 && c.len() > 0 implies #[trigger] join3(a, b, c, j)
        == a + j + b + j + c by {
        let q = seq![a, b, c];
        assert(q.drop_last() =~= seq![a, b]);
        assert(q.drop_last().drop_last() =~= seq![a]);
        assert(seq![a].drop_last() =~= Seq::<Seq<char>>::empty());
        assert(crate::utils::nonempty_parts(q) =~= seq![a, b, c]);
        assert(seq![a, b, c].drop_last() =~= seq![a, b]);
        assert(seq![a, b].drop_last() =~= seq![a]);
    }
    assert forall|a: Seq<char>, b: Seq<char>, c: Seq<char>| a.len() == 0 && c.len() == 0 implies #[trigger] join3(a, b, c, j)
        == b by {
        let q = seq![a, b, c];
        assert(q.drop_last() =~= seq![a, b]);
        assert(q.drop_last().drop_last() =~= seq![a]);
        assert(seq![a].drop_last() =~= Seq::<Seq<char>>::empty());
        if b.len() > 0 {
            assert(crate::utils::nonempty_parts(q) =~= seq![b]);
        } else {
            assert(crate::utils::nonempty_parts(q) =~= Seq::<Seq<char>>::empty());
            assert(b =~= Seq::<char>::empty());
        }
    }
}

fn apply_overrides(r: &mut ScoredAnalysis, prefix: &ScoredAnalysis, suffix: &ScoredAnalysis)
    ensures
        final(r)@ == with_overrides(old(r)@, prefix@, suffix@),
{
    r.pos = pick_override(pick_override(r.pos.as_str(), suffix.pos.as_str()), prefix.pos.as_str()).to_owned();
    r.per = pick_override(pick_override(r.per.as_str(), suffix.per.as_str()), prefix.per.as_str()).to_owned();
    r.asp = pick_override(pick_override(r.asp.as_str(), suffix.asp.as_str()), prefix.asp.as_str()).to_owned();
    r.vox = pick_override(pick_override(r.vox.as_str(), suffix.vox.as_str()), prefix.vox.as_str()).to_owned();
    r.mod_ = pick_override(pick_override(r.mod_.as_str(), suffix.mod_.as_str()), prefix.mod_.as_str()).to_owned();
    r.gen_ = pick_override(pick_override(r.gen_.as_str(), suffix.gen_.as_str()), prefix.gen_.as_str()).to_owned();
    r.num = pick_override(pick_override(r.num.as_str(), suffix.num.as_str()), prefix.num.as_str()).to_owned();
    r.stt = pick_override(pick_override(r.stt.as_str(), suffix.stt.as_str()), prefix.stt.as_str()).to_owned();
    r.cas = pick_override(pick_override(r.cas.as_str(), suffix.cas.as_str()), prefix.cas.as_str()).to_owned();
    r.rat = pick_override(pick_override(r.rat.as_str(), suffix.rat.as_str()), prefix.rat.as_str()).to_owned();
    r.form_gen = pick_override(pick_override(r.form_gen.as_str(), suffix.form_gen.as_str()), prefix.form_gen.as_str()).to_owned();
    r.form_num = pick_override(pick_override(r.form_num.as_str(), suffix.form_num.as_str()), prefix.form_num.as_str()).to_owned();
    r.prc3 = pick_override(pick_override(r.prc3.as_str(), suffix.prc3.as_str()), prefix.prc3.as_str()).to_owned();
    r.prc2 = pick_override(pick_override(r.prc2.as_str(), suffix.prc2.as_str()), prefix.prc2.as_str()).to_owned();
    r.prc1 = pick_override(pick_override(r.prc1.as_str(), suffix.prc1.as_str()), prefix.prc1.as_str()).to_owned();
    r.prc0 = pick_override(pick_override(r.prc0.as_str(), suffix.prc0.as_str()), prefix.prc0.as_str()).to_owned();
    r.enc0 = pick_override(pick_override(r.enc0.as_str(), suffix.enc0.as_str()), prefix.enc0.as_str()).to_owned();
    r.source = pick_override(pick_override(r.source.as_str(), suffix.source.as_str()), prefix.source.as_str()).to_owned();
    r.lex = pick_override(pick_override(r.lex.as_str(), suffix.lex.as_str()), prefix.lex.as_str()).to_owned();
    r.root = pick_override(pick_override(r.root.as_str(), suffix.root.as_str()), prefix.root.as_str()).to_owned();
    proof {
        assert(r@ =~= with_overrides(old(r)@, prefix@, suffix@));
    }
}

fn apply_joins(db: &MorphologyDB, r: &mut ScoredAnalysis, prefix: &ScoredAnalysis, stem: &ScoredAnalysis, suffix: &ScoredAnalysis, join_char: &str)
    ensures
        final(r)@ == with_joins(*db, old(r)@, prefix@, stem@, suffix@, join_char@),
{
    if db.defines.contains_key("gloss") {
        let parts = [prefix.gloss.as_str(), stem.gloss.as_str(), suffix.gloss.as_str()];
        assert(crate::utils::str_views(parts@) =~= seq![prefix.gloss@, stem.gloss@, suffix.gloss@]);
        r.gloss = join_non_empty(&parts, join_char);
    }
    if db.defines.contains_key("bw") {
        let parts = [prefix.bw.as_str(), stem.bw.as_str(), suffix.bw.as_str()];
        assert(crate::utils::str_views(parts@) =~= seq![prefix.bw@, stem.bw@, suffix.bw@]);
        r.bw = join_non_empty(&parts, join_char);
    }
    if db.defines.contains_key("diac") {
        let parts = [prefix.diac.as_str(), stem.diac.as_str(), suffix.diac.as_str()];
        assert(crate::utils::str_views(parts@) =~= seq![prefix.diac@, stem.diac@, suffix.diac@]);
        r.diac = join_non_empty(&parts, join_char);
    }
    if db.defines.contains_key("catib6") {
        let parts = [prefix.catib6.as_str(), stem.catib6.as_str(), suffix.catib6.as_str()];
        assert(crate::utils::str_views(parts@) =~= seq![prefix.catib6@, stem.catib6@, suffix.catib6@]);
        r.catib6 = join_non_empty(&parts, join_char);
    }
    if db.defines.contains_key("ud") {
        let parts = [prefix.ud.as_str(), stem.ud.as_str(), suffix.ud.as_str()];
        assert(crate::utils::str_views(parts@) =~= seq![prefix.ud@, stem.ud@, suffix.ud@]);
        r.ud = join_non_empty(&parts, join_char);
    }
    if db.defines.contains_key("caphi") {
        let parts = [prefix.caphi.as_str(), stem.caphi.as_str(), suffix.caphi.as_str()];
        assert(crate::utils::str_views(parts@) =~= seq![prefix.caphi@, stem.caphi@, suffix.caphi@]);
        r.caphi = join_non_empty(&parts, join_char);
    }
    proof {
        assert(r@ =~= with_joins(*db, old(r)@, prefix@, stem@, suffix@, join_char@));
    }
}

fn joined3(a: &str, b: &str, c: &str) -> (r: String)
    ensures
        r@ == a@ + b@ + c@,
{
    let mut v = chars_of(a);
    crate::chars::extend_chars(&mut v, &chars_of(b));
    crate::chars::extend_chars(&mut v, &chars_of(c));
    string_of(&v)
}

fn apply_toks(db: &MorphologyDB, r: &mut ScoredAnalysis, prefix: &ScoredAnalysis, stem: &ScoredAnalysis, suffix: &ScoredAnalysis)
    ensures
        final(r)@ == with_toks(*db, old(r)@, prefix@, stem@, suffix@),
{
    if db.defines.contains_key("d1seg") {
        let mid = if str_is_empty(stem.d1seg.as_str()) { stem.diac.as_str() } else { stem.d1seg.as_str() };
        r.d1seg = joined3(prefix.d1seg.as_str(), mid, suffix.d1seg.as_str());
    }
    if db.defines.contains_key("d2seg") {
        let mid = if str_is_empty(stem.d2seg.as_str()) { stem.diac.as_str() } else { stem.d2seg.as_str() };
        r.d2seg = joined3(prefix.d2seg.as_str(), mid, suffix.d2seg.as_str());
    }
    if db.defines.contains_key("d3seg") {
        let mid = if str_is_empty(stem.d3seg.as_str()) { stem.diac.as_str() } else { stem.d3seg.as_str() };
        r.d3seg = joined3(prefix.d3seg.as_str(), mid, suffix.d3seg.as_str());
    }
    if db.defines.contains_key("atbseg") {
        let mid = if str_is_empty(stem.atbseg.as_str()) { stem.diac.as_str() } else { stem.atbseg.as_str() };
        r.atbseg = joined3(prefix.atbseg.as_str(), mid, suffix.atbseg.as_str());
    }
    if db.defines.contains_key("d1tok") {
        let mid = if str_is_empty(stem.d1tok.as_str()) { stem.diac.as_str() } else { stem.d1tok.as_str() };
        r.d1tok = joined3(prefix.d1tok.as_str(), mid, suffix.d1tok.as_str());
    }
    if db.defines.contains_key("d2tok") {
        let mid = if str_is_empty(stem.d2tok.as_str()) { stem.diac.as_str() } else { stem.d2tok.as_str() };
        r.d2tok = joined3(prefix.d2tok.as_str(), mid, suffix.d2tok.as_str());
    }
    if db.defines.contains_key("d3tok") {
        let mid = if str_is_empty(stem.d3tok.as_str()) { stem.diac.as_str() } else { stem.d3tok.as_str() };
        r.d3tok = joined3(prefix.d3tok.as_str(), mid, suffix.d3tok.as_str());
    }
    if db.defines.contains_key("atbtok") {
        let mid = if str_is_empty(stem.atbtok.as_str()) { stem.diac.as_str() } else { stem.atbtok.as_str() };
        r.atbtok = joined3(prefix.atbtok.as_str(), mid, suffix.atbtok.as_str());
    }
    if db.defines.contains_key("bwtok") {
        let mid = if str_is_empty(stem.bwtok.as_str()) { stem.diac.as_str() } else { stem.bwtok.as_str() };
        r.bwtok = joined3(prefix.bwtok.as_str(), mid, suffix.bwtok.as_str());
    }
    proof {
        assert(r@ =~= with_toks(*db, old(r)@, prefix@, stem@, suffix@));
    }
}

fn apply_rewrites(db: &MorphologyDB, r: &mut ScoredAnalysis, diac_mode: &str)
    ensures
        final(r)@ == with_rewrites(*db, old(r)@),
{
    r.diac = crate::utils::normalize_tanwyn(rewrite_diac(r.diac.as_str()).as_str(), diac_mode);
    if db.defines.contains_key("d1tok") {
        r.d1tok = rewrite_tok_1(r.d1tok.as_str());
    }
    if db.defines.contains_key("d2tok") {
        r.d2tok = rewrite_tok_1(r.d2tok.as_str());
    }
    if db.defines.contains_key("atbtok") {
        r.atbtok = rewrite_tok_1(r.atbtok.as_str());
    }
    if db.defines.contains_key("d1seg") {
        r.d1seg = rewrite_tok_1(r.d1seg.as_str());
    }
    if db.defines.contains_key("d2seg") {
        r.d2seg = rewrite_tok_1(r.d2seg.as_str());
    }
    if db.defines.contains_key("d3seg") {
        r.d3seg = rewrite_tok_1(r.d3seg.as_str());
    }
    if db.defines.contains_key("atbseg") {
        r.atbseg = rewrite_tok_1(r.atbseg.as_str());
    }
    if db.defines.contains_key("d3tok") {
        r.d3tok = rewrite_tok_2(r.d3tok.as_str());
    }
    if db.defines.contains_key("caphi") {
        r.caphi = rewrite_caphi(r.caphi.as_str());
    }
    proof {
        assert(r@ =~= with_rewrites(*db, old(r)@));
    }
}

fn apply_forms(db: &MorphologyDB, r: &mut ScoredAnalysis, prefix: &ScoredAnalysis, stem: &ScoredAnalysis, suffix: &ScoredAnalysis)
    ensures
        final(r)@ == with_forms(*db, old(r)@, prefix@, stem@, suffix@),
{
    if db.defines.contains_key("form_gen") && str_eq(r.gen_.as_str(), "-") {
        r.gen_ = r.form_gen.clone();
    }
    if db.defines.contains_key("form_num") && str_eq(r.num.as_str(), "-") {
        r.num = r.form_num.clone();
    }
    if db.compute_feats.contains("pattern") {
        let mid = if str_is_empty(stem.pattern.as_str()) { stem.diac.as_str() } else { stem.pattern.as_str() };
        let v = joined3(prefix.diac.as_str(), mid, suffix.diac.as_str());
        r.pattern = rewrite_pattern(v.as_str());
    }
    proof {
        assert(r@ =~= with_forms(*db, old(r)@, prefix@, stem@, suffix@));
    }
}

/// Merges the analyses of a prefix, a stem and a suffix into the analysis of
/// a word.
pub fn merge_features(
    db: &MorphologyDB,
    prefix: &ScoredAnalysis,
    stem: &ScoredAnalysis,
    suffix: &ScoredAnalysis,
    join_char: &str,
    diac_mode: &str,
) -> (r: ScoredAnalysis)
    ensures
        r@ == merged_features(*db, prefix@, stem@, suffix@, join_char@),
{
    let mut result = stem.duplicate();
    apply_overrides(&mut result, prefix, suffix);
    apply_joins(db, &mut result, prefix, stem, suffix, join_char);
    apply_toks(db, &mut result, prefix, stem, suffix);
    result.stem = stem.diac.clone();
    result.stemgloss = stem.gloss.clone();
    apply_rewrites(db, &mut result, diac_mode);
    apply_forms(db, &mut result, prefix, stem, suffix);
    result
}


// ---------------------------------------------------------------------------
// Combining the analyses of a split word

/// The views of a sequence of analyses.
pub open spec fn analysis_views(v: Seq<ScoredAnalysis>) -> Seq<AnalysisView> {
    v.map_values(|a: ScoredAnalysis| a@)
}

/// The prefix category combines with the stem category (table AB).
pub open spec fn prefix_stem_ok(db: MorphologyDB, pcat: Seq<char>, scat: Seq<char>) -> bool {
    db.prefix_stem_compat@.contains_key(pcat) && db.prefix_stem_compat@[pcat]@.contains(scat)
}

/// The suffix category combines with the stem category (table BC) and with
/// the prefix category (table AC).
pub open spec fn suffix_ok(db: MorphologyDB, pcat: Seq<char>, scat: Seq<char>, xcat: Seq<char>) -> bool {
    &&& db.stem_suffix_compat@.contains_key(scat)
    &&& db.stem_suffix_compat@[scat]@.contains(xcat)
    &&& db.prefix_suffix_compat@.contains_key(pcat)
    &&& db.prefix_suffix_compat@[pcat]@.contains(xcat)
}

/// The analysis of a word split into a prefix, a stem and a suffix: the
/// merged features with the stem's form and category; marked as a spelling
/// variant when its dediacritized form differs from the word's (tatweel aside).
pub open spec fn combined_one(db: MorphologyDB, wd: Seq<char>, p: AnalysisView, s: AnalysisView, x: AnalysisView) -> AnalysisView {
    let m = merged_features(db, p, s, x, "+"@);
    let m2 = AnalysisView { stem: s.diac, stemcat: s.category, ..m };
    if apply_rule(CharRule::DropTatweel, wd) != dediac(m2.diac) {
        AnalysisView { source: "spvar"@, ..m2 }
    } else {
        m2
    }
}

/// The analyses of one prefix and stem with each compatible suffix, in order.
pub open spec fn combine_sfx(db: MorphologyDB, wd: Seq<char>, p: AnalysisView, s: AnalysisView, xs: Seq<AnalysisView>) -> Seq<AnalysisView>
    decreases xs.len(),
{
    if xs.len() == 0 {
        seq![]
    } else {
        combine_sfx(db, wd, p, s, xs.drop_last()) + if suffix_ok(db, p.category, s.category, xs.last().category) {
            seq![combined_one(db, wd, p, s, xs.last())]
        } else {
            seq![]
        }
    }
}

/// The analyses of one prefix with each compatible stem and suffix, in order.
pub open spec fn combine_stm(db: MorphologyDB, wd: Seq<char>, p: AnalysisView, ss: Seq<AnalysisView>, xs: Seq<AnalysisView>) -> Seq<AnalysisView>
    decreases ss.len(),
{
    if ss.len() == 0 {
        seq![]
    } else {
        combine_stm(db, wd, p, ss.drop_last(), xs) + if prefix_stem_ok(db, p.category, ss.last().category) {
            combine_sfx(db, wd, p, ss.last(), xs)
        } else {
            seq![]
        }
    }
}

/// The analyses of every compatible prefix, stem and suffix, prefixes outermost.
pub open spec fn combine_all(db: MorphologyDB, wd: Seq<char>, ps: Seq<AnalysisView>, ss: Seq<AnalysisView>, xs: Seq<AnalysisView>) -> Seq<AnalysisView>
    decreases ps.len(),
{
    if ps.len() == 0 {
        seq![]
    } else {
        combine_all(db, wd, ps.drop_last(), ss, xs) + combine_stm(db, wd, ps.last(), ss, xs)
    }
}

pub proof fn lemma_views_push(v: Seq<ScoredAnalysis>, a: ScoredAnalysis)
    ensures
        analysis_views(v.push(a)) == analysis_views(v).push(a@),
{
    assert(analysis_views(v.push(a)) =~= analysis_views(v).push(a@));
}

pub proof fn lemma_views_take(v: Seq<ScoredAnalysis>, i: int)
    requires
        0 <= i < v.len(),
    ensures
        analysis_views(v).take(i + 1).drop_last() == analysis_views(v).take(i),
        analysis_views(v).take(i + 1).last() == v[i]@,
{
    assert(analysis_views(v).take(i + 1).drop_last() =~= analysis_views(v).take(i));
}

fn prefix_stem_compatible(db: &MorphologyDB, pcat: &str, scat: &str) -> (r: bool)
    ensures
        r == prefix_stem_ok(*db, pcat@, scat@),
{
    match db.prefix_stem_compat.get(pcat) {
        Some(set) => set.contains(scat),
        None => false,
    }
}

fn suffix_compatible(db: &MorphologyDB, pcat: &str, scat: &str, xcat: &str) -> (r: bool)
    ensures
        r == suffix_ok(*db, pcat@, scat@, xcat@),
{
    let a = match db.stem_suffix_compat.get(scat) {
        Some(set) => set.contains(xcat),
        None => false,
    };
    let b = match db.prefix_suffix_compat.get(pcat) {
        Some(set) => set.contains(xcat),
        None => false,
    };
    a && b
}

fn combine_one(db: &MorphologyDB, wd: &[char], p: &ScoredAnalysis, s: &ScoredAnalysis, x: &ScoredAnalysis) -> (r: ScoredAnalysis)
    ensures
        r@ == combined_one(*db, wd@, p@, s@, x@),
{
    let mut m = merge_features(db, p, s, x, "+", "AF");
    m.stem = s.diac.clone();
    m.stemcat = s.category.clone();
    let md = chars_of(dediac_ar(m.diac.as_str()).as_str());
    let plain = apply_char_rule(CharRule::DropTatweel, wd);
    if !chars_eq(&plain, &md) {
        m.source = "spvar".to_owned();
    }
    proof {
        assert(m@ =~= combined_one(*db, wd@, p@, s@, x@));
    }
    m
}

fn combine_suffixes(db: &MorphologyDB, wd: &[char], p: &ScoredAnalysis, s: &ScoredAnalysis, xs: &[ScoredAnalysis], out: &mut Vec<ScoredAnalysis>)
    ensures
        analysis_views(final(out)@) == analysis_views(old(out)@) + combine_sfx(*db, wd@, p@, s@, analysis_views(xs@)),
{
    let ghost xv = analysis_views(xs@);
    let mut i: usize = 0;
    while i < xs.len()
        invariant
            xv == analysis_views(xs@),
            i <= xs@.len(),
            analysis_views(out@) == analysis_views(old(out)@) + combine_sfx(*db, wd@, p@, s@, xv.take(i as int)),
        decreases xs@.len() - i,
    {
        proof {
            lemma_views_take(xs@, i as int);
        }
        let ghost before = analysis_views(out@);
        if suffix_compatible(db, p.category.as_str(), s.category.as_str(), xs[i].category.as_str()) {
            let a = combine_one(db, wd, p, s, &xs[i]);
            proof {
                lemma_views_push(out@, a);
            }
            out.push(a);
        }
        assert(analysis_views(out@) =~= analysis_views(old(out)@) + combine_sfx(*db, wd@, p@, s@, xv.take(i + 1)));
        i += 1;
    }
    assert(xv.take(xs@.len() as int) =~= xv);
}

fn combine_stems(db: &MorphologyDB, wd: &[char], p: &ScoredAnalysis, ss: &[ScoredAnalysis], xs: &[ScoredAnalysis], out: &mut Vec<ScoredAnalysis>)
    ensures
        analysis_views(final(out)@) == analysis_views(old(out)@) + combine_stm(*db, wd@, p@, analysis_views(ss@), analysis_views(xs@)),
{
    let ghost sv = analysis_views(ss@);
    let mut i: usize = 0;
    while i < ss.len()
        invariant
            sv == analysis_views(ss@),
            i <= ss@.len(),
            analysis_views(out@) == analysis_views(old(out)@) + combine_stm(*db, wd@, p@, sv.take(i as int), analysis_views(xs@)),
        decreases ss@.len() - i,
    {
        proof {
            lemma_views_take(ss@, i as int);
        }
        if prefix_stem_compatible(db, p.category.as_str(), ss[i].category.as_str()) {
            combine_suffixes(db, wd, p, &ss[i], xs, out);
        }
        assert(analysis_views(out@) =~= analysis_views(old(out)@) + combine_stm(*db, wd@, p@, sv.take(i + 1), analysis_views(xs@)));
        i += 1;
    }
    assert(sv.take(ss@.len() as int) =~= sv);
}

/// Collects analyses into a double-ended queue, in order.
fn to_deque(v: Vec<ScoredAnalysis>) -> (r: VecDeque<ScoredAnalysis>)
    ensures
        r@ == v@,
{
    let ghost orig = v@;
    let mut r: VecDeque<ScoredAnalysis> = VecDeque::new();
    for a in it: v
        invariant
            it.seq() == orig,
            r@ == it.seq().take(it.index() as int),
    {
        r.push_back(a);
    }
    r
}

/// The analyses of a word split into a prefix, a stem and a suffix: every
/// compatible choice of their analyses, merged.
pub fn combine_analyses(
    word_dediac: &str,
    db: &MorphologyDB,
    prefix_analyses: &[ScoredAnalysis],
    stem_analyses: &[ScoredAnalysis],
    suffix_analyses: &[ScoredAnalysis],
) -> (r: VecDeque<ScoredAnalysis>)
    ensures
        analysis_views(r@) == combine_all(*db, word_dediac@, analysis_views(prefix_analyses@), analysis_views(stem_analyses@), analysis_views(suffix_analyses@)),
{
    let wd = chars_of(word_dediac);
    let ghost pv = analysis_views(prefix_analyses@);
    let mut out: Vec<ScoredAnalysis> = Vec::new();
    let mut i: usize = 0;
    assert(analysis_views(out@) =~= Seq::<AnalysisView>::empty());
    while i < prefix_analyses.len()
        invariant
            wd@ == word_dediac@,
            pv == analysis_views(prefix_analyses@),
            i <= prefix_analyses@.len(),
            analysis_views(out@) == combine_all(*db, word_dediac@, pv.take(i as int), analysis_views(stem_analyses@), analysis_views(suffix_analyses@)),
        decreases prefix_analyses@.len() - i,
    {
        proof {
            lemma_views_take(prefix_analyses@, i as int);
        }
        combine_stems(db, &wd, &prefix_analyses[i], stem_analyses, suffix_analyses, &mut out);
        i += 1;
    }
    assert(pv.take(prefix_analyses@.len() as int) =~= pv);
    to_deque(out)
}

/// The placeholder that backoff stems hold for the stem's text.
pub open spec fn noan() -> Seq<char> {
    seq!['N', 'O', 'A', 'N']
}

/// The tag of proper nouns in a Buckwalter analysis.
pub open spec fn noun_prop() -> Seq<char> {
    seq!['N', 'O', 'U', 'N', '_', 'P', 'R', 'O', 'P']
}

/// A backoff stem entry filled in with the text taken as its stem: the
/// placeholder replaced in its analysis, form and lexeme, and the phonetic
/// form read off the text.
pub open spec fn filled_backoff_stem(se: AnalysisView, stem_str: Seq<char>) -> AnalysisView {
    AnalysisView {
        bw: replace_literal(se.bw, noan(), stem_str),
        diac: replace_literal(se.diac, noan(), stem_str),
        lex: replace_literal(se.lex, noan(), stem_str),
        caphi: join_seqs(caphi_parts(initial_alef_hamza(stem_str)), seq!['_']),
        ..se
    }
}

/// The backoff analysis of a prefix, a backoff stem and a suffix.
pub open spec fn backoff_one(db: MorphologyDB, stem_str: Seq<char>, p: AnalysisView, se: AnalysisView, x: AnalysisView) -> AnalysisView {
    let sf = filled_backoff_stem(se, stem_str);
    let m = merged_features(db, p, sf, x, "+"@);
    AnalysisView {
        stem: sf.diac,
        stemcat: se.category,
        source: "backoff"@,
        pattern: "backoff"@,
        gloss: sf.gloss,
        ..m
    }
}

/// A backoff stem entry that the action allows: any for actions other than
/// `PROP`, proper nouns only for `PROP`.
pub open spec fn backoff_allows(action: Seq<char>, se: AnalysisView) -> bool {
    !(action == "PROP"@ && !contains_sub(se.bw, noun_prop()))
}

/// The backoff analyses of one prefix and backoff stem with each compatible suffix.
pub open spec fn backoff_sfx(db: MorphologyDB, stem_str: Seq<char>, action: Seq<char>, p: AnalysisView, se: AnalysisView, xs: Seq<AnalysisView>) -> Seq<AnalysisView>
    decreases xs.len(),
{
    if xs.len() == 0 {
        seq![]
    } else {
        backoff_sfx(db, stem_str, action, p, se, xs.drop_last()) + if suffix_ok(db, p.category, se.category, xs.last().category)
            && backoff_allows(action, se) {
            seq![backoff_one(db, stem_str, p, se, xs.last())]
        } else {
            seq![]
        }
    }
}

/// The backoff analyses of one prefix with each compatible backoff stem and suffix.
pub open spec fn backoff_stm(db: MorphologyDB, stem_str: Seq<char>, action: Seq<char>, p: AnalysisView, ss: Seq<AnalysisView>, xs: Seq<AnalysisView>) -> Seq<AnalysisView>
    decreases ss.len(),
{
    if ss.len() == 0 {
        seq![]
    } else {
        backoff_stm(db, stem_str, action, p, ss.drop_last(), xs) + if prefix_stem_ok(db, p.category, ss.last().category) {
            backoff_sfx(db, stem_str, action, p, ss.last(), xs)
        } else {
            seq![]
        }
    }
}

/// The backoff analyses of every compatible prefix, backoff stem and suffix.
pub open spec fn backoff_all(db: MorphologyDB, stem_str: Seq<char>, action: Seq<char>, ps: Seq<AnalysisView>, ss: Seq<AnalysisView>, xs: Seq<AnalysisView>) -> Seq<AnalysisView>
    decreases ps.len(),
{
    if ps.len() == 0 {
        seq![]
    } else {
        backoff_all(db, stem_str, action, ps.drop_last(), ss, xs) + backoff_stm(db, stem_str, action, ps.last(), ss, xs)
    }
}

fn backoff_one_exec(db: &MorphologyDB, stem_str: &str, p: &ScoredAnalysis, se: &ScoredAnalysis, x: &ScoredAnalysis) -> (r: ScoredAnalysis)
    ensures
        r@ == backoff_one(*db, stem_str@, p@, se@, x@),
{
    let mut sf = se.duplicate();
    sf.bw = replace_noan(se.bw.as_str(), stem_str);
    sf.diac = replace_noan(se.diac.as_str(), stem_str);
    sf.lex = replace_noan(se.lex.as_str(), stem_str);
    sf.caphi = simple_ar_to_caphi(stem_str);
    assert(sf@ =~= filled_backoff_stem(se@, stem_str@));
    let mut m = merge_features(db, p, &sf, x, "+", "AF");
    m.stem = sf.diac.clone();
    m.stemcat = se.category.clone();
    m.source = "backoff".to_owned();
    m.pattern = "backoff".to_owned();
    m.gloss = sf.gloss.clone();
    proof {
        assert(m@ =~= backoff_one(*db, stem_str@, p@, se@, x@));
    }
    m
}

fn backoff_allowed(action: &str, se: &ScoredAnalysis) -> (r: bool)
    ensures
        r == backoff_allows(action@, se@),
{
    let np = vec!['N', 'O', 'U', 'N', '_', 'P', 'R', 'O', 'P'];
    assert(np@ =~= noun_prop());
    !(str_eq(action, "PROP") && !chars_contain_sub(&chars_of(se.bw.as_str()), &np))
}

fn backoff_suffixes(db: &MorphologyDB, stem_str: &str, action: &str, p: &ScoredAnalysis, se: &ScoredAnalysis, xs: &[ScoredAnalysis], out: &mut Vec<ScoredAnalysis>)
    ensures
        analysis_views(final(out)@) == analysis_views(old(out)@) + backoff_sfx(*db, stem_str@, action@, p@, se@, analysis_views(xs@)),
{
    let ghost xv = analysis_views(xs@);
    let mut i: usize = 0;
    while i < xs.len()
        invariant
            xv == analysis_views(xs@),
            i <= xs@.len(),
            analysis_views(out@) == analysis_views(old(out)@) + backoff_sfx(*db, stem_str@, action@, p@, se@, xv.take(i as int)),
        decreases xs@.len() - i,
    {
        proof {
            lemma_views_take(xs@, i as int);
        }
        if suffix_compatible(db, p.category.as_str(), se.category.as_str(), xs[i].category.as_str())
            && backoff_allowed(action, se) {
            let a = backoff_one_exec(db, stem_str, p, se, &xs[i]);
            proof {
                lemma_views_push(out@, a);
            }
            out.push(a);
        }
        assert(analysis_views(out@) =~= analysis_views(old(out)@) + backoff_sfx(*db, stem_str@, action@, p@, se@, xv.take(i + 1)));
        i += 1;
    }
    assert(xv.take(xs@.len() as int) =~= xv);
}

fn backoff_stems(db: &MorphologyDB, stem_str: &str, action: &str, p: &ScoredAnalysis, ss: &[ScoredAnalysis], xs: &[ScoredAnalysis], out: &mut Vec<ScoredAnalysis>)
    ensures
        analysis_views(final(out)@) == analysis_views(old(out)@) + backoff_stm(*db, stem_str@, action@, p@, analysis_views(ss@), analysis_views(xs@)),
{
    let ghost sv = analysis_views(ss@);
    let mut i: usize = 0;
    while i < ss.len()
        invariant
            sv == analysis_views(ss@),
            i <= ss@.len(),
            analysis_views(out@) == analysis_views(old(out)@) + backoff_stm(*db, stem_str@, action@, p@, sv.take(i as int), analysis_views(xs@)),
        decreases ss@.len() - i,
    {
        proof {
            lemma_views_take(ss@, i as int);
        }
        if prefix_stem_compatible(db, p.category.as_str(), ss[i].category.as_str()) {
            backoff_suffixes(db, stem_str, action, p, &ss[i], xs, out);
        }
        assert(analysis_views(out@) =~= analysis_views(old(out)@) + backoff_stm(*db, stem_str@, action@, p@, sv.take(i + 1), analysis_views(xs@)));
        i += 1;
    }
    assert(sv.take(ss@.len() as int) =~= sv);
}

/// The backoff analyses of a word split into a prefix, a stem text and a
/// suffix: every compatible prefix, backoff stem entry and suffix, with the
/// stem entry filled in with the stem text.
pub fn combine_backoff_analyses(
    stem_str: &str,
    db: &MorphologyDB,
    prefix_analyses: &[ScoredAnalysis],
    stem_analyses: &[ScoredAnalysis],
    suffix_analyses: &[ScoredAnalysis],
    backoff_action: &str,
) -> (r: VecDeque<ScoredAnalysis>)
    ensures
        analysis_views(r@) == backoff_all(*db, stem_str@, backoff_action@, analysis_views(prefix_analyses@), analysis_views(stem_analyses@), analysis_views(suffix_analyses@)),
{
    let ghost pv = analysis_views(prefix_analyses@);
    let mut out: Vec<ScoredAnalysis> = Vec::new();
    let mut i: usize = 0;
    assert(analysis_views(out@) =~= Seq::<AnalysisView>::empty());
    while i < prefix_analyses.len()
        invariant
            pv == analysis_views(prefix_analyses@),
            i <= prefix_analyses@.len(),
            analysis_views(out@) == backoff_all(*db, stem_str@, backoff_action@, pv.take(i as int), analysis_views(stem_analyses@), analysis_views(suffix_analyses@)),
        decreases prefix_analyses@.len() - i,
    {
        proof {
            lemma_views_take(prefix_analyses@, i as int);
        }
        backoff_stems(db, stem_str, backoff_action, &prefix_analyses[i], stem_analyses, suffix_analyses, &mut out);
        i += 1;
    }
    assert(pv.take(prefix_analyses@.len() as int) =~= pv);
    to_deque(out)
}

// ---------------------------------------------------------------------------
// The analyzer

/// The first position at or after `i` that does not hold whitespace.
pub open spec fn ws_lead(s: Seq<char>, i: int) -> int
    decreases s.len() - i,
{
    if i < 0 || i >= s.len() || !is_white_space(s[i]) {
        i
    } else {
        ws_lead(s, i + 1)
    }
}

/// The end of `s` up to `j`, its trailing whitespace left out.
pub open spec fn ws_trail(s: Seq<char>, j: int) -> int
    decreases j,
{
    if j <= 0 || j > s.len() || !is_white_space(s[j - 1]) {
        j
    } else {
        ws_trail(s, j - 1)
    }
}

/// `s` without its leading and trailing whitespace (`str::trim`).
pub open spec fn trimmed(s: Seq<char>) -> Seq<char> {
    let a = ws_lead(s, 0);
    if a >= s.len() {
        seq![]
    } else {
        s.subrange(a, ws_trail(s, s.len() as int))
    }
}

/// Trims leading and trailing whitespace.
pub fn trim_chars(s: &[char]) -> (r: Vec<char>)
    ensures
        r@ == trimmed(s@),
{
    let n = s.len();
    let mut a: usize = 0;
    while a < n && is_whitespace(s[a])
        invariant
            n == s@.len(),
            a <= n,
            ws_lead(s@, 0) == ws_lead(s@, a as int),
        decreases n - a,
    {
        a += 1;
    }
    if a >= n {
        return Vec::new();
    }
    let mut b: usize = n;
    while b > a + 1 && is_whitespace(s[b - 1])
        invariant
            n == s@.len(),
            a < n,
            !is_white_space(s@[a as int]),
            a < b <= n,
            ws_trail(s@, n as int) == ws_trail(s@, b as int),
        decreases b,
    {
        b -= 1;
    }
    assert(b == a + 1 ==> ws_trail(s@, b as int) == b);
    chars_slice(s, a, b)
}

/// The database's fallback analyses for words it cannot split.
#[derive(Clone, Copy)]
pub enum SpecialKind {
    Digit,
    Punc,
    Foreign,
}

/// The default analysis that a fallback kind starts from.
pub open spec fn special_default_key(k: SpecialKind) -> Seq<char> {
    match k {
        SpecialKind::Digit => "digit"@,
        SpecialKind::Punc => "punc"@,
        SpecialKind::Foreign => "latin"@,
    }
}

/// The root, pattern and phonetic form of a fallback kind.
pub open spec fn special_lex_feat(k: SpecialKind) -> Seq<char> {
    match k {
        SpecialKind::Digit => "DIGIT"@,
        SpecialKind::Punc => "PUNC"@,
        SpecialKind::Foreign => "FOREIGN"@,
    }
}

/// The source of a fallback kind.
pub open spec fn special_source(k: SpecialKind) -> Seq<char> {
    match k {
        SpecialKind::Digit => "digit"@,
        SpecialKind::Punc => "punc"@,
        SpecialKind::Foreign => "foreign"@,
    }
}

/// The CATiB tag of a fallback kind.
pub open spec fn special_catib(k: SpecialKind) -> Seq<char> {
    match k {
        SpecialKind::Digit => "NOM"@,
        SpecialKind::Punc => "PNX"@,
        SpecialKind::Foreign => "FOREIGN"@,
    }
}

/// The Universal Dependencies tag of a fallback kind.
pub open spec fn special_ud(k: SpecialKind) -> Seq<char> {
    match k {
        SpecialKind::Digit => "NOM"@,
        SpecialKind::Punc => "PUNCT"@,
        SpecialKind::Foreign => "X"@,
    }
}

/// The Buckwalter analysis of a fallback kind.
pub open spec fn special_bw(k: SpecialKind, w: Seq<char>) -> Seq<char> {
    match k {
        SpecialKind::Digit => w,
        SpecialKind::Punc => w + "/PUNC"@,
        SpecialKind::Foreign => w + "/FOREIGN"@,
    }
}

/// The fallback analysis of a word: the kind's default analysis with the word
/// as its forms, lexeme and tokenizations, and the kind's tags.
pub open spec fn special_analysis(db: MorphologyDB, d: AnalysisView, w: Seq<char>, k: SpecialKind) -> AnalysisView {
    let r = AnalysisView {
        diac: w,
        stem: w,
        stemgloss: w,
        lex: w,
        bw: special_bw(k, w),
        gloss: if k is Digit { w } else { d.gloss },
        source: special_source(k),
        d1seg: w,
        d2seg: w,
        d3seg: w,
        atbseg: w,
        d1tok: w,
        d2tok: w,
        d3tok: w,
        atbtok: w,
        bwtok: w,
        root: special_lex_feat(k),
        pattern: special_lex_feat(k),
        caphi: special_lex_feat(k),
        pos_logprob: "-99"@,
        lex_logprob: "-99"@,
        pos_lex_logprob: "-99"@,
        catib6: if defines(db, "catib6"@) { special_catib(k) } else { d.catib6 },
        ud: if defines(db, "ud"@) { special_ud(k) } else { d.ud },
        ..d
    };
    AnalysisView {
        gen_: if defines(db, "form_gen"@) && r.gen_ == "-"@ { r.form_gen } else { r.gen_ },
        num: if defines(db, "form_num"@) && r.num == "-"@ { r.form_num } else { r.num },
        ..r
    }
}

fn concat2(a: &str, b: &str) -> (r: String)
    ensures
        r@ == a@ + b@,
{
    let mut v = chars_of(a);
    crate::chars::extend_chars(&mut v, &chars_of(b));
    string_of(&v)
}

fn special_exec(db: &MorphologyDB, d: &ScoredAnalysis, w: &str, k: SpecialKind) -> (r: ScoredAnalysis)
    ensures
        r@ == special_analysis(*db, d@, w@, k),
{
    let mut r = d.duplicate();
    r.diac = w.to_owned();
    r.stem = w.to_owned();
    r.stemgloss = w.to_owned();
    r.lex = w.to_owned();
    match k {
        SpecialKind::Digit => {
            r.bw = w.to_owned();
            r.gloss = w.to_owned();
            r.source = "digit".to_owned();
        },
        SpecialKind::Punc => {
            r.bw = concat2(w, "/PUNC");
            r.source = "punc".to_owned();
        },
        SpecialKind::Foreign => {
            r.bw = concat2(w, "/FOREIGN");
            r.source = "foreign".to_owned();
        },
    }
    r.set_tok_all(w);
    match k {
        SpecialKind::Digit => r.set_lex_feats_all("DIGIT"),
        SpecialKind::Punc => r.set_lex_feats_all("PUNC"),
        SpecialKind::Foreign => r.set_lex_feats_all("FOREIGN"),
    }
    r.set_logprobs_all("-99");
    if db.defines.contains_key("catib6") {
        r.catib6 = match k {
            SpecialKind::Digit => "NOM".to_owned(),
            SpecialKind::Punc => "PNX".to_owned(),
            SpecialKind::Foreign => "FOREIGN".to_owned(),
        };
    }
    if db.defines.contains_key("ud") {
        r.ud = match k {
            SpecialKind::Digit => "NOM".to_owned(),
            SpecialKind::Punc => "PUNCT".to_owned(),
            SpecialKind::Foreign => "X".to_owned(),
        };
    }
    if db.defines.contains_key("form_gen") && str_eq(r.gen_.as_str(), "-") {
        r.gen_ = r.form_gen.clone();
    }
    if db.defines.contains_key("form_num") && str_eq(r.num.as_str(), "-") {
        r.num = r.form_num.clone();
    }
    proof {
        assert(r@ =~= special_analysis(*db, d@, w@, k));
    }
    r
}

/// The analyses that a map holds for a key.
pub open spec fn entries(m: Map<Seq<char>, Vec<ScoredAnalysis>>, k: Seq<char>) -> Seq<AnalysisView> {
    analysis_views(m[k]@)
}

/// The analyses of the word split at character positions `i` and `j` into
/// prefix, stem and suffix, when the database holds all three.
pub open spec fn split_at_analyses(db: MorphologyDB, wd: Seq<char>, wn: Seq<char>, i: int, j: int) -> Seq<AnalysisView> {
    let pre = wn.take(i);
    let stem = wn.subrange(i, j);
    let suf = wn.skip(j);
    if db.prefix_hash@.contains_key(pre) && db.suffix_hash@.contains_key(suf) && db.stem_hash@.contains_key(stem) {
        combine_all(db, wd, entries(db.prefix_hash@, pre), entries(db.stem_hash@, stem), entries(db.suffix_hash@, suf))
    } else {
        seq![]
    }
}

/// The prefix before position `i` is no longer than the longest prefix, in bytes.
pub open spec fn prefix_fits(db: MorphologyDB, wn: Seq<char>, i: int) -> bool {
    utf8_len(wn.take(i)) <= db.max_prefix_size
}

/// The suffix from position `j` on is no longer than the longest suffix, in bytes.
pub open spec fn suffix_fits(db: MorphologyDB, wn: Seq<char>, j: int) -> bool {
    utf8_len(wn) - utf8_len(wn.take(j)) <= db.max_suffix_size
}

/// The analyses of the splits with the stem starting at `i` and the suffix at `j` or later.
pub open spec fn split_inner(db: MorphologyDB, wd: Seq<char>, wn: Seq<char>, i: int, j: int) -> Seq<AnalysisView>
    decreases wn.len() + 1 - j,
{
    if j < 0 || j > wn.len() {
        seq![]
    } else {
        (if suffix_fits(db, wn, j) {
            split_at_analyses(db, wd, wn, i, j)
        } else {
            seq![]
        }) + split_inner(db, wd, wn, i, j + 1)
    }
}

/// The analyses of the splits with the stem starting at `i` or later; shorter
/// prefixes first, then shorter stems.
pub open spec fn split_outer(db: MorphologyDB, wd: Seq<char>, wn: Seq<char>, i: int) -> Seq<AnalysisView>
    decreases wn.len() + 1 - i,
{
    if i < 0 || i > wn.len() {
        seq![]
    } else {
        (if prefix_fits(db, wn, i) {
            split_inner(db, wd, wn, i, i + 1)
        } else {
            seq![]
        }) + split_outer(db, wd, wn, i + 1)
    }
}

/// The backoff analyses of the word split at `i` and `j`, when the database
/// holds the prefix and the suffix; the text between them is the stem.
pub open spec fn backoff_at(db: MorphologyDB, wn: Seq<char>, action: Seq<char>, bs: Seq<AnalysisView>, i: int, j: int) -> Seq<AnalysisView> {
    let pre = wn.take(i);
    let suf = wn.skip(j);
    if db.prefix_hash@.contains_key(pre) && db.suffix_hash@.contains_key(suf) {
        backoff_all(db, wn.subrange(i, j), action, entries(db.prefix_hash@, pre), bs, entries(db.suffix_hash@, suf))
    } else {
        seq![]
    }
}

/// The backoff analyses with the stem starting at `i` and the suffix at `j` or later.
pub open spec fn backoff_inner(db: MorphologyDB, wn: Seq<char>, action: Seq<char>, bs: Seq<AnalysisView>, i: int, j: int) -> Seq<AnalysisView>
    decreases wn.len() + 1 - j,
{
    if j < 0 || j > wn.len() {
        seq![]
    } else {
        (if suffix_fits(db, wn, j) {
            backoff_at(db, wn, action, bs, i, j)
        } else {
            seq![]
        }) + backoff_inner(db, wn, action, bs, i, j + 1)
    }
}

/// The backoff analyses with the stem starting at `i` or later.
pub open spec fn backoff_outer(db: MorphologyDB, wn: Seq<char>, action: Seq<char>, bs: Seq<AnalysisView>, i: int) -> Seq<AnalysisView>
    decreases wn.len() + 1 - i,
{
    if i < 0 || i > wn.len() {
        seq![]
    } else {
        (if prefix_fits(db, wn, i) {
            backoff_inner(db, wn, action, bs, i, i + 1)
        } else {
            seq![]
        }) + backoff_outer(db, wn, action, bs, i + 1)
    }
}

/// A category that the list names.
pub open spec fn cat_in(cats: Seq<String>, c: Seq<char>) -> bool {
    exists|k: int| 0 <= k < cats.len() && #[trigger] cats[k]@ == c
}

/// The entries whose category the list names, in order.
pub open spec fn with_cats(ents: Seq<AnalysisView>, cats: Seq<String>) -> Seq<AnalysisView>
    decreases ents.len(),
{
    if ents.len() == 0 {
        seq![]
    } else {
        with_cats(ents.drop_last(), cats) + if cat_in(cats, ents.last().category) {
            seq![ents.last()]
        } else {
            seq![]
        }
    }
}

/// The backoff stem entries of the database whose category the list names.
pub open spec fn backoff_stem_entries(db: MorphologyDB, cats: Seq<String>) -> Seq<AnalysisView> {
    if db.stem_hash@.contains_key("NOAN"@) {
        with_cats(entries(db.stem_hash@, "NOAN"@), cats)
    } else {
        seq![]
    }
}

/// Why a word cannot be analyzed.
#[derive(Clone, Copy, Debug, PartialEq, Eq)]
pub enum AnalyzeError {
    /// The backoff mode is not written as a condition and an action joined by `_`.
    InvalidBackoff,
    /// The database has no default analysis for digits, punctuation or foreign words.
    MissingDefault,
    /// The database has no stem categories for the backoff action.
    UnknownBackoffAction,
}

/// The fallback kind of a word, if any: digits (strictly or loosely),
/// punctuation, or anything not written in Arabic letters.
pub open spec fn special_kind(w: Seq<char>, strict_digit: bool) -> Option<SpecialKind> {
    if (strict_digit && strict_digit_word(w)) || (!strict_digit && digit_word(w)) {
        Some(SpecialKind::Digit)
    } else if punc_word(w) {
        Some(SpecialKind::Punc)
    } else if !ar_word(w) {
        Some(SpecialKind::Foreign)
    } else {
        None
    }
}

/// What analyzing a word gives. A trimmed empty word has no analyses. The
/// backoff mode is a condition and an action joined by `_`. Digits,
/// punctuation and foreign words get one fallback analysis. An Arabic word
/// gets the analyses of every split of its normalized form into a known
/// prefix, stem and suffix; and, when the condition is `ADD`, or `NOAN` and
/// there are none, the backoff analyses of the splits into a known prefix and
/// suffix around any stem.
pub open spec fn analyze_result(word: Seq<char>, db: MorphologyDB, strict_digit: bool, backoff: Seq<char>) -> Result<Seq<AnalysisView>, AnalyzeError> {
    let w = trimmed(word);
    let parts = split_on(backoff, '_');
    if w.len() == 0 {
        Ok(seq![])
    } else if parts.len() < 2 {
        Err(AnalyzeError::InvalidBackoff)
    } else {
        match special_kind(w, strict_digit) {
            Some(k) => if db.defaults@.contains_key(special_default_key(k)) {
                Ok(seq![special_analysis(db, db.defaults@[special_default_key(k)]@, w, k)])
            } else {
                Err(AnalyzeError::MissingDefault)
            },
            None => {
                let wn = normalize(w);
                let found = split_outer(db, dediac(w), wn, 0);
                if (parts[0] == "NOAN"@ && found.len() == 0) || parts[0] == "ADD"@ {
                    if db.stem_backoffs@.contains_key(parts[1]) {
                        let bs = backoff_stem_entries(db, db.stem_backoffs@[parts[1]]@);
                        Ok(found + backoff_outer(db, wn, parts[1], bs, 0))
                    } else {
                        Err(AnalyzeError::UnknownBackoffAction)
                    }
                } else {
                    Ok(found)
                }
            },
        }
    }
}

/// The byte offsets of the character positions of `wn`.
fn char_offsets(wn: &[char]) -> (offs: Vec<u128>)
    ensures
        offs@.len() == wn@.len() + 1,
        forall|k: int| 0 <= k <= wn@.len() ==> #[trigger] offs@[k] == utf8_len(wn@.take(k)),
{
    let mut offs: Vec<u128> = Vec::new();
    let mut cur: u128 = 0;
    offs.push(0);
    assert(wn@.take(0) =~= Seq::<char>::empty());
    let mut i: usize = 0;
    while i < wn.len()
        invariant
            i <= wn@.len(),
            offs@.len() == i + 1,
            cur == utf8_len(wn@.take(i as int)),
            cur <= 4 * i,
            forall|k: int| 0 <= k <= i ==> #[trigger] offs@[k] == utf8_len(wn@.take(k)),
        decreases wn@.len() - i,
    {
        proof {
            lemma_utf8_len_take_step(wn@, i as int);
        }
        cur = cur + char_width(wn[i]) as u128;
        offs.push(cur);
        i += 1;
    }
    offs
}

pub proof fn lemma_utf8_len_take_mono(s: Seq<char>, j: int, k: int)
    requires
        0 <= j <= k <= s.len(),
    ensures
        utf8_len(s.take(j)) <= utf8_len(s.take(k)),
    decreases k - j,
{
    if j < k {
        lemma_utf8_len_take_mono(s, j, k - 1);
        lemma_utf8_len_take_step(s, k - 1);
    }
}

fn lookup<'a>(m: &'a StringHashMap<Vec<ScoredAnalysis>>, k: &[char]) -> (r: Option<&'a Vec<ScoredAnalysis>>)
    ensures
        match r {
            Some(v) => m@.contains_key(k@) && *v == m@[k@],
            None => !m@.contains_key(k@),
        },
{
    let s = string_of(k);
    m.get(s.as_str())
}

fn split_inner_exec(db: &MorphologyDB, wd: &str, wn: &[char], offs: &Vec<u128>, i: usize, out: &mut VecDeque<ScoredAnalysis>)
    requires
        i < wn@.len(),
        offs@.len() == wn@.len() + 1,
        forall|k: int| 0 <= k <= wn@.len() ==> #[trigger] offs@[k] == utf8_len(wn@.take(k)),
    ensures
        analysis_views(final(out)@) == analysis_views(old(out)@) + split_inner(*db, wd@, wn@, i as int, i + 1),
{
    let n = wn.len();
    let m = offs.len();
    let pre = chars_slice(wn, 0, i);
    assert(pre@ =~= wn@.take(i as int));
    assert(wn@.take(n as int) =~= wn@);
    let mut j: usize = i + 1;
    let ghost whole = split_inner(*db, wd@, wn@, i as int, i + 1);
    let ghost start = analysis_views(out@);
    while j < m
        invariant
            n == wn@.len(),
            m == n + 1,
            i < j <= n + 1,
            offs@.len() == wn@.len() + 1,
            forall|k: int| 0 <= k <= wn@.len() ==> #[trigger] offs@[k] == utf8_len(wn@.take(k)),
            pre@ == wn@.take(i as int),
            wn@.take(n as int) == wn@,
            whole == split_inner(*db, wd@, wn@, i as int, i + 1),
            analysis_views(out@) + split_inner(*db, wd@, wn@, i as int, j as int) == start + whole,
        decreases n + 1 - j,
    {
        let ghost before = analysis_views(out@);
        proof {
            lemma_utf8_len_take_mono(wn@, j as int, n as int);
        }
        if offs[n] - offs[j] <= db.max_suffix_size as u128 {
            let stem = chars_slice(wn, i, j);
            let suf = chars_slice(wn, j, n);
            assert(suf@ =~= wn@.skip(j as int));
            match (lookup(&db.prefix_hash, &pre), lookup(&db.suffix_hash, &suf), lookup(&db.stem_hash, &stem)) {
                (Some(pv), Some(xv), Some(sv)) => {
                    let mut c = combine_analyses(wd, db, pv.as_slice(), sv.as_slice(), xv.as_slice());
                    let ghost cv = c@;
                    out.append(&mut c);
                    assert(analysis_views(out@) =~= before + analysis_views(cv));
                },
                _ => {},
            }
        }
        let ghost rest = split_inner(*db, wd@, wn@, i as int, j + 1);
        assert(analysis_views(out@) + rest =~= before + split_inner(*db, wd@, wn@, i as int, j as int));
        j += 1;
    }
    assert(analysis_views(out@) + split_inner(*db, wd@, wn@, i as int, j as int) =~= analysis_views(out@));
}

fn split_outer_exec(db: &MorphologyDB, wd: &str, wn: &[char], out: &mut VecDeque<ScoredAnalysis>)
    ensures
        analysis_views(final(out)@) == analysis_views(old(out)@) + split_outer(*db, wd@, wn@, 0),
{
    let n = wn.len();
    let offs = char_offsets(wn);
    let ghost whole = split_outer(*db, wd@, wn@, 0);
    let ghost start = analysis_views(out@);
    let mut i: usize = 0;
    while i < n
        invariant
            n == wn@.len(),
            i <= n,
            offs@.len() == wn@.len() + 1,
            forall|k: int| 0 <= k <= wn@.len() ==> #[trigger] offs@[k] == utf8_len(wn@.take(k)),
            whole == split_outer(*db, wd@, wn@, 0),
            analysis_views(out@) + split_outer(*db, wd@, wn@, i as int) == start + whole,
        decreases n + 1 - i,
    {
        let ghost before = analysis_views(out@);
        if offs[i] <= db.max_prefix_size as u128 {
            split_inner_exec(db, wd, wn, &offs, i, out);
        }
        let ghost rest = split_outer(*db, wd@, wn@, i + 1);
        assert(analysis_views(out@) + rest =~= before + split_outer(*db, wd@, wn@, i as int));
        i += 1;
    }
    assert(split_outer(*db, wd@, wn@, n as int) =~= Seq::<AnalysisView>::empty()) by {
        assert(split_inner(*db, wd@, wn@, n as int, n + 1) =~= Seq::<AnalysisView>::empty());
        assert(split_outer(*db, wd@, wn@, n + 1) =~= Seq::<AnalysisView>::empty());
    }
    assert(analysis_views(out@) + split_outer(*db, wd@, wn@, n as int) =~= analysis_views(out@));
}

fn backoff_inner_exec(db: &MorphologyDB, wn: &[char], action: &str, bs: &Vec<ScoredAnalysis>, offs: &Vec<u128>, i: usize, out: &mut VecDeque<ScoredAnalysis>)
    requires
        i < wn@.len(),
        offs@.len() == wn@.len() + 1,
        forall|k: int| 0 <= k <= wn@.len() ==> #[trigger] offs@[k] == utf8_len(wn@.take(k)),
    ensures
        analysis_views(final(out)@) == analysis_views(old(out)@) + backoff_inner(*db, wn@, action@, analysis_views(bs@), i as int, i + 1),
{
    let n = wn.len();
    let m = offs.len();
    let pre = chars_slice(wn, 0, i);
    assert(pre@ =~= wn@.take(i as int));
    assert(wn@.take(n as int) =~= wn@);
    let ghost bv = analysis_views(bs@);
    let mut j: usize = i + 1;
    let ghost whole = backoff_inner(*db, wn@, action@, bv, i as int, i + 1);
    let ghost start = analysis_views(out@);
    while j < m
        invariant
            n == wn@.len(),
            m == n + 1,
            i < j <= n + 1,
            offs@.len() == wn@.len() + 1,
            forall|k: int| 0 <= k <= wn@.len() ==> #[trigger] offs@[k] == utf8_len(wn@.take(k)),
            pre@ == wn@.take(i as int),
            wn@.take(n as int) == wn@,
            bv == analysis_views(bs@),
            whole == backoff_inner(*db, wn@, action@, bv, i as int, i + 1),
            analysis_views(out@) + backoff_inner(*db, wn@, action@, bv, i as int, j as int) == start + whole,
        decreases n + 1 - j,
    {
        let ghost before = analysis_views(out@);
        proof {
            lemma_utf8_len_take_mono(wn@, j as int, n as int);
        }
        if offs[n] - offs[j] <= db.max_suffix_size as u128 {
            let stem = string_of(&chars_slice(wn, i, j));
            let suf = chars_slice(wn, j, n);
            assert(suf@ =~= wn@.skip(j as int));
            match (lookup(&db.prefix_hash, &pre), lookup(&db.suffix_hash, &suf)) {
                (Some(pv), Some(xv)) => {
                    let mut c = combine_backoff_analyses(stem.as_str(), db, pv.as_slice(), bs.as_slice(), xv.as_slice(), action);
                    let ghost cv = c@;
                    out.append(&mut c);
                    assert(analysis_views(out@) =~= before + analysis_views(cv));
                },
                _ => {},
            }
        }
        let ghost rest = backoff_inner(*db, wn@, action@, bv, i as int, j + 1);
        assert(analysis_views(out@) + rest =~= before + backoff_inner(*db, wn@, action@, bv, i as int, j as int));
        j += 1;
    }
    assert(analysis_views(out@) + backoff_inner(*db, wn@, action@, bv, i as int, j as int) =~= analysis_views(out@));
}

fn backoff_outer_exec(db: &MorphologyDB, wn: &[char], action: &str, bs: &Vec<ScoredAnalysis>, out: &mut VecDeque<ScoredAnalysis>)
    ensures
        analysis_views(final(out)@) == analysis_views(old(out)@) + backoff_outer(*db, wn@, action@, analysis_views(bs@), 0),
{
    let n = wn.len();
    let offs = char_offsets(wn);
    let ghost bv = analysis_views(bs@);
    let ghost whole = backoff_outer(*db, wn@, action@, bv, 0);
    let ghost start = analysis_views(out@);
    let mut i: usize = 0;
    while i < n
        invariant
            n == wn@.len(),
            i <= n,
            offs@.len() == wn@.len() + 1,
            forall|k: int| 0 <= k <= wn@.len() ==> #[trigger] offs@[k] == utf8_len(wn@.take(k)),
            bv == analysis_views(bs@),
            whole == backoff_outer(*db, wn@, action@, bv, 0),
            analysis_views(out@) + backoff_outer(*db, wn@, action@, bv, i as int) == start + whole,
        decreases n - i,
    {
        let ghost before = analysis_views(out@);
        if offs[i] <= db.max_prefix_size as u128 {
            backoff_inner_exec(db, wn, action, bs, &offs, i, out);
        }
        let ghost rest = backoff_outer(*db, wn@, action@, bv, i + 1);
        assert(analysis_views(out@) + rest =~= before + backoff_outer(*db, wn@, action@, bv, i as int));
        i += 1;
    }
    assert(backoff_outer(*db, wn@, action@, bv, n as int) =~= Seq::<AnalysisView>::empty()) by {
        assert(backoff_inner(*db, wn@, action@, bv, n as int, n + 1) =~= Seq::<AnalysisView>::empty());
        assert(backoff_outer(*db, wn@, action@, bv, n + 1) =~= Seq::<AnalysisView>::empty());
    }
    assert(analysis_views(out@) + backoff_outer(*db, wn@, action@, bv, n as int) =~= analysis_views(out@));
}

fn names_cat(cats: &Vec<String>, c: &str) -> (r: bool)
    ensures
        r == cat_in(cats@, c@),
{
    let mut k: usize = 0;
    while k < cats.len()
        invariant
            k <= cats@.len(),
            forall|x: int| 0 <= x < k ==> cats@[x]@ != c@,
        decreases cats@.len() - k,
    {
        if str_eq(cats[k].as_str(), c) {
            return true;
        }
        k += 1;
    }
    false
}

fn backoff_stems_exec(db: &MorphologyDB, cats: &Vec<String>) -> (r: Vec<ScoredAnalysis>)
    ensures
        analysis_views(r@) == backoff_stem_entries(*db, cats@),
{
    let mut out: Vec<ScoredAnalysis> = Vec::new();
    match db.stem_hash.get("NOAN") {
        Some(ents) => {
            let ghost ev = analysis_views(ents@);
            let mut i: usize = 0;
            assert(analysis_views(out@) =~= Seq::<AnalysisView>::empty());
            while i < ents.len()
                invariant
                    ev == analysis_views(ents@),
                    i <= ents@.len(),
                    analysis_views(out@) == with_cats(ev.take(i as int), cats@),
                decreases ents@.len() - i,
            {
                proof {
                    lemma_views_take(ents@, i as int);
                }
                if names_cat(cats, ents[i].category.as_str()) {
                    let a = ents[i].duplicate();
                    proof {
                        lemma_views_push(out@, a);
                    }
                    out.push(a);
                }
                assert(analysis_views(out@) =~= with_cats(ev.take(i + 1), cats@));
                i += 1;
            }
            assert(ev.take(ents@.len() as int) =~= ev);
        },
        None => {
            assert(analysis_views(out@) =~= Seq::<AnalysisView>::empty());
        },
    }
    out
}

/// Analyzes a word: the analyses of its splits into a prefix, a stem and a
/// suffix that the database knows, its fallback analysis when it is digits,
/// punctuation or foreign, and backoff analyses as the backoff mode says.
pub fn analyze(word: &str, db: &MorphologyDB, strict_digit: bool, backoff: &str) -> (r: Result<VecDeque<ScoredAnalysis>, AnalyzeError>)
    ensures
        match r {
            Ok(v) => analyze_result(word@, *db, strict_digit, backoff@) == Ok::<Seq<AnalysisView>, AnalyzeError>(analysis_views(v@)),
            Err(e) => analyze_result(word@, *db, strict_digit, backoff@) == Err::<Seq<AnalysisView>, AnalyzeError>(e),
        },
        // An Arabic word without backoff gets one analysis for each reading
        // of its normalized form that the database allows, and no other
        // (`lemma_readings_are_the_allowed_ones` says what the readings are).
        ({
            let w = trimmed(word@);
            let parts = split_on(backoff@, '_');
            &&& ar_word(w)
            &&& parts.len() >= 2
            &&& parts[0] != "ADD"@
            &&& parts[0] != "NOAN"@ || readings(*db, normalize(w)).len() > 0
        }) ==> (r is Ok && analysis_views(r->Ok_0@) == readings_analyses(
            *db,
            dediac(trimmed(word@)),
            normalize(trimmed(word@)),
            readings(*db, normalize(trimmed(word@))),
        )),
{
    let wc = chars_of(word);
    let w = trim_chars(&wc);
    if w.len() == 0 {
        let v: VecDeque<ScoredAnalysis> = VecDeque::new();
        assert(analysis_views(v@) =~= Seq::<AnalysisView>::empty());
        return Ok(v);
    }
    let bc = chars_of(backoff);
    let parts = split_chars(&bc, '_');
    if parts.len() < 2 {
        return Err(AnalyzeError::InvalidBackoff);
    }
    assert(parts@[0]@ == crate::utils::vec_views(parts@)[0]);
    assert(parts@[1]@ == crate::utils::vec_views(parts@)[1]);
    let ws = string_of(&w);
    let wss = ws.as_str();
    let kind = if (strict_digit && is_strict_digit(wss)) || (!strict_digit && is_digit(wss)) {
        Some(SpecialKind::Digit)
    } else if is_punc(wss) {
        Some(SpecialKind::Punc)
    } else if !is_ar(wss) {
        Some(SpecialKind::Foreign)
    } else {
        None
    };
    proof {
        if ar_word(w@) {
            lemma_ar_word_no_digit(w@);
            assert(kind is None);
        }
        lemma_readings_are_the_allowed_ones(*db, dediac(w@), normalize(w@));
    }
    match kind {
        Some(k) => {
            let key: &str = match k {
                SpecialKind::Digit => "digit",
                SpecialKind::Punc => "punc",
                SpecialKind::Foreign => "latin",
            };
            match db.defaults.get(key) {
                Some(d) => {
                    let a = special_exec(db, d, wss, k);
                    let mut v: VecDeque<ScoredAnalysis> = VecDeque::new();
                    v.push_back(a);
                    assert(analysis_views(v@) =~= seq![a@]);
                    Ok(v)
                },
                None => Err(AnalyzeError::MissingDefault),
            }
        },
        None => {
            let wd = dediac_ar(wss);
            let wn = chars_of(crate::utils::normalize_ar(wss).as_str());
            let mut out: VecDeque<ScoredAnalysis> = VecDeque::new();
            assert(analysis_views(out@) =~= Seq::<AnalysisView>::empty());
            split_outer_exec(db, wd.as_str(), &wn, &mut out);
            assert(analysis_views(out@) =~= split_outer(*db, dediac(w@), wn@, 0));
            let cond = string_of(&parts[0]);
            let action = string_of(&parts[1]);
            let wanted = (str_eq(cond.as_str(), "NOAN") && out.len() == 0) || str_eq(cond.as_str(), "ADD");
            if wanted {
                match db.stem_backoffs.get(action.as_str()) {
                    Some(cats) => {
                        let bs = backoff_stems_exec(db, cats);
                        let ghost found = analysis_views(out@);
                        backoff_outer_exec(db, &wn, action.as_str(), &bs, &mut out);
                        Ok(out)
                    },
                    None => Err(AnalyzeError::UnknownBackoffAction),
                }
            } else {
                Ok(out)
            }
        },
    }
}

proof fn lemma_ar_word_no_digit(w: Seq<char>)
    requires
        ar_word(w),
    ensures
        !digit_word(w),
        !strict_digit_word(w),
{
    assert(is_ar_char(w[0]));
    if digit_word(w) {
        let i = choose|i: int| 0 <= i < w.len() && is_digit_char(#[trigger] w[i]);
        assert(is_ar_char(w[i]));
    }
}

/// What analyzing each word in turn gives, with the default backoff mode
/// (`NOAN_PROP`) and strict digits; the first failure ends it.
pub open spec fn analyze_all(words: Seq<&str>, db: MorphologyDB) -> Result<Seq<Seq<AnalysisView>>, AnalyzeError>
    decreases words.len(),
{
    if words.len() == 0 {
        Ok(seq![])
    } else {
        match analyze_all(words.drop_last(), db) {
            Ok(prev) => match analyze_result(words.last()@, db, true, "NOAN_PROP"@) {
                Ok(a) => Ok(prev.push(a)),
                Err(e) => Err(e),
            },
            Err(e) => Err(e),
        }
    }
}

/// The views of a sequence of analysis lists.
pub open spec fn deque_views(v: Seq<VecDeque<ScoredAnalysis>>) -> Seq<Seq<AnalysisView>> {
    v.map_values(|d: VecDeque<ScoredAnalysis>| analysis_views(d@))
}

/// Analyzes each word in turn, with the default backoff mode and strict digits.
pub fn analyze_words(words: &[&str], db: &MorphologyDB) -> (r: Result<Vec<VecDeque<ScoredAnalysis>>, AnalyzeError>)
    ensures
        match r {
            Ok(v) => analyze_all(words@, *db) == Ok::<Seq<Seq<AnalysisView>>, AnalyzeError>(deque_views(v@)),
            Err(e) => analyze_all(words@, *db) == Err::<Seq<Seq<AnalysisView>>, AnalyzeError>(e),
        },
{
    let mut out: Vec<VecDeque<ScoredAnalysis>> = Vec::new();
    let mut i: usize = 0;
    assert(words@.take(0) =~= Seq::<&str>::empty());
    assert(deque_views(out@) =~= Seq::<Seq<AnalysisView>>::empty());
    while i < words.len()
        invariant
            i <= words@.len(),
            analyze_all(words@.take(i as int), *db) == Ok::<Seq<Seq<AnalysisView>>, AnalyzeError>(deque_views(out@)),
        decreases words@.len() - i,
    {
        assert(words@.take(i + 1).drop_last() =~= words@.take(i as int));
        let r = analyze(words[i], db, true, "NOAN_PROP");
        match r {
            Ok(a) => {
                let ghost prev = deque_views(out@);
                out.push(a);
                assert(deque_views(out@) =~= prev.push(analysis_views(a@)));
            },
            Err(e) => {
                proof {
                    lemma_analyze_all_err(words@, *db, i as int, e);
                }
                return Err(e);
            },
        }
        i += 1;
    }
    assert(words@.take(words@.len() as int) =~= words@);
    Ok(out)
}

proof fn lemma_analyze_all_err(words: Seq<&str>, db: MorphologyDB, i: int, e: AnalyzeError)
    requires
        0 <= i < words.len(),
        analyze_all(words.take(i), db) is Ok,
        analyze_result(words[i]@, db, true, "NOAN_PROP"@) == Err::<Seq<AnalysisView>, AnalyzeError>(e),
    ensures
        analyze_all(words, db) == Err::<Seq<Seq<AnalysisView>>, AnalyzeError>(e),
    decreases words.len() - i,
{
    assert(words.take(i + 1).drop_last() =~= words.take(i));
    if i + 1 == words.len() {
        assert(words.take(i + 1) =~= words);
    } else {
        lemma_analyze_all_err_tail(words, db, i + 1, e);
    }
}

proof fn lemma_analyze_all_err_tail(words: Seq<&str>, db: MorphologyDB, k: int, e: AnalyzeError)
    requires
        0 < k <= words.len(),
        analyze_all(words.take(k), db) == Err::<Seq<Seq<AnalysisView>>, AnalyzeError>(e),
    ensures
        analyze_all(words, db) == Err::<Seq<Seq<AnalysisView>>, AnalyzeError>(e),
    decreases words.len() - k,
{
    if k == words.len() {
        assert(words.take(k) =~= words);
    } else {
        assert(words.take(k + 1).drop_last() =~= words.take(k));
        lemma_analyze_all_err_tail(words, db, k + 1, e);
    }
}


/// The feature of an analysis that a name reads (`mod` and `gen` for mood
/// and gender); `None` for a name that reads no feature.
pub open spec fn feature_of(a: AnalysisView, key: Seq<char>) -> Option<Seq<char>> {
    if key == "category"@ {
        Some(a.category)
    } else if key == "source"@ {
        Some(a.source)
    } else if key == "diac"@ {
        Some(a.diac)
    } else if key == "lex"@ {
        Some(a.lex)
    } else if key == "bw"@ {
        Some(a.bw)
    } else if key == "gloss"@ {
        Some(a.gloss)
    } else if key == "stem"@ {
        Some(a.stem)
    } else if key == "stemcat"@ {
        Some(a.stemcat)
    } else if key == "stemgloss"@ {
        Some(a.stemgloss)
    } else if key == "catib6"@ {
        Some(a.catib6)
    } else if key == "ud"@ {
        Some(a.ud)
    } else if key == "per"@ {
        Some(a.per)
    } else if key == "asp"@ {
        Some(a.asp)
    } else if key == "vox"@ {
        Some(a.vox)
    } else if key == "mod"@ {
        Some(a.mod_)
    } else if key == "gen"@ {
        Some(a.gen_)
    } else if key == "num"@ {
        Some(a.num)
    } else if key == "stt"@ {
        Some(a.stt)
    } else if key == "cas"@ {
        Some(a.cas)
    } else if key == "rat"@ {
        Some(a.rat)
    } else if key == "form_gen"@ {
        Some(a.form_gen)
    } else if key == "form_num"@ {
        Some(a.form_num)
    } else if key == "pos"@ {
        Some(a.pos)
    } else if key == "prc3"@ {
        Some(a.prc3)
    } else if key == "prc2"@ {
        Some(a.prc2)
    } else if key == "prc1"@ {
        Some(a.prc1)
    } else if key == "prc0"@ {
        Some(a.prc0)
    } else if key == "enc0"@ {
        Some(a.enc0)
    } else if key == "d1seg"@ {
        Some(a.d1seg)
    } else if key == "d2seg"@ {
        Some(a.d2seg)
    } else if key == "d3seg"@ {
        Some(a.d3seg)
    } else if key == "atbseg"@ {
        Some(a.atbseg)
    } else if key == "d1tok"@ {
        Some(a.d1tok)
    } else if key == "d2tok"@ {
        Some(a.d2tok)
    } else if key == "d3tok"@ {
        Some(a.d3tok)
    } else if key == "atbtok"@ {
        Some(a.atbtok)
    } else if key == "bwtok"@ {
        Some(a.bwtok)
    } else if key == "root"@ {
        Some(a.root)
    } else if key == "pattern"@ {
        Some(a.pattern)
    } else if key == "caphi"@ {
        Some(a.caphi)
    } else if key == "pos_logprob"@ {
        Some(a.pos_logprob)
    } else if key == "lex_logprob"@ {
        Some(a.lex_logprob)
    } else if key == "pos_lex_logprob"@ {
        Some(a.pos_lex_logprob)
    } else {
        None
    }
}

impl ScoredAnalysis {
    /// The feature that a name reads, `None` for a name that reads none.
    pub fn get_field(&self, key: &str) -> (r: Option<&String>)
        ensures
            match feature_of(self@, key@) {
                Some(v) => r is Some && r->Some_0@ == v,
                None => r is None,
            },
    {
        if str_eq(key, "category") {
            Some(&self.category)
        } else if str_eq(key, "source") {
            Some(&self.source)
        } else if str_eq(key, "diac") {
            Some(&self.diac)
        } else if str_eq(key, "lex") {
            Some(&self.lex)
        } else if str_eq(key, "bw") {
            Some(&self.bw)
        } else if str_eq(key, "gloss") {
            Some(&self.gloss)
        } else if str_eq(key, "stem") {
            Some(&self.stem)
        } else if str_eq(key, "stemcat") {
            Some(&self.stemcat)
        } else if str_eq(key, "stemgloss") {
            Some(&self.stemgloss)
        } else if str_eq(key, "catib6") {
            Some(&self.catib6)
        } else if str_eq(key, "ud") {
            Some(&self.ud)
        } else if str_eq(key, "per") {
            Some(&self.per)
        } else if str_eq(key, "asp") {
            Some(&self.asp)
        } else if str_eq(key, "vox") {
            Some(&self.vox)
        } else if str_eq(key, "mod") {
            Some(&self.mod_)
        } else if str_eq(key, "gen") {
            Some(&self.gen_)
        } else if str_eq(key, "num") {
            Some(&self.num)
        } else if str_eq(key, "stt") {
            Some(&self.stt)
        } else if str_eq(key, "cas") {
            Some(&self.cas)
        } else if str_eq(key, "rat") {
            Some(&self.rat)
        } else if str_eq(key, "form_gen") {
            Some(&self.form_gen)
        } else if str_eq(key, "form_num") {
            Some(&self.form_num)
        } else if str_eq(key, "pos") {
            Some(&self.pos)
        } else if str_eq(key, "prc3") {
            Some(&self.prc3)
        } else if str_eq(key, "prc2") {
            Some(&self.prc2)
        } else if str_eq(key, "prc1") {
            Some(&self.prc1)
        } else if str_eq(key, "prc0") {
            Some(&self.prc0)
        } else if str_eq(key, "enc0") {
            Some(&self.enc0)
        } else if str_eq(key, "d1seg") {
            Some(&self.d1seg)
        } else if str_eq(key, "d2seg") {
            Some(&self.d2seg)
        } else if str_eq(key, "d3seg") {
            Some(&self.d3seg)
        } else if str_eq(key, "atbseg") {
            Some(&self.atbseg)
        } else if str_eq(key, "d1tok") {
            Some(&self.d1tok)
        } else if str_eq(key, "d2tok") {
            Some(&self.d2tok)
        } else if str_eq(key, "d3tok") {
            Some(&self.d3tok)
        } else if str_eq(key, "atbtok") {
            Some(&self.atbtok)
        } else if str_eq(key, "bwtok") {
            Some(&self.bwtok)
        } else if str_eq(key, "root") {
            Some(&self.root)
        } else if str_eq(key, "pattern") {
            Some(&self.pattern)
        } else if str_eq(key, "caphi") {
            Some(&self.caphi)
        } else if str_eq(key, "pos_logprob") {
            Some(&self.pos_logprob)
        } else if str_eq(key, "lex_logprob") {
            Some(&self.lex_logprob)
        } else if str_eq(key, "pos_lex_logprob") {
            Some(&self.pos_lex_logprob)
        } else {
            None
        }
    }
}

/// The names of the features, in order.
pub fn feature_keys() -> (r: Vec<&'static str>)
    ensures
        str_views(r@) == seq!["category"@, "source"@, "diac"@, "lex"@, "bw"@, "gloss"@, "stem"@, "stemcat"@, "stemgloss"@, "catib6"@, "ud"@, "per"@, "asp"@, "vox"@, "mod"@, "gen"@, "num"@, "stt"@, "cas"@, "rat"@, "form_gen"@, "form_num"@, "pos"@, "prc3"@, "prc2"@, "prc1"@, "prc0"@, "enc0"@, "d1seg"@, "d2seg"@, "d3seg"@, "atbseg"@, "d1tok"@, "d2tok"@, "d3tok"@, "atbtok"@, "bwtok"@, "root"@, "pattern"@, "caphi"@, "pos_logprob"@, "lex_logprob"@, "pos_lex_logprob"@],
{
    let r = vec!["category", "source", "diac", "lex", "bw", "gloss", "stem", "stemcat", "stemgloss", "catib6", "ud", "per", "asp", "vox", "mod", "gen", "num", "stt", "cas", "rat", "form_gen", "form_num", "pos", "prc3", "prc2", "prc1", "prc0", "enc0", "d1seg", "d2seg", "d3seg", "atbseg", "d1tok", "d2tok", "d3tok", "atbtok", "bwtok", "root", "pattern", "caphi", "pos_logprob", "lex_logprob", "pos_lex_logprob"];
    assert(str_views(r@) =~= seq!["category"@, "source"@, "diac"@, "lex"@, "bw"@, "gloss"@, "stem"@, "stemcat"@, "stemgloss"@, "catib6"@, "ud"@, "per"@, "asp"@, "vox"@, "mod"@, "gen"@, "num"@, "stt"@, "cas"@, "rat"@, "form_gen"@, "form_num"@, "pos"@, "prc3"@, "prc2"@, "prc1"@, "prc0"@, "enc0"@, "d1seg"@, "d2seg"@, "d3seg"@, "atbseg"@, "d1tok"@, "d2tok"@, "d3tok"@, "atbtok"@, "bwtok"@, "root"@, "pattern"@, "caphi"@, "pos_logprob"@, "lex_logprob"@, "pos_lex_logprob"@]);
    r
}

} // verus!

