//! The morphology database: prefixes, stems and suffixes with their
//! analyses, the compatibility tables between their categories, and the
//! defaults and backoff rules of the analyzer; and the reader of its text
//! format.
use vstd::hash_map::StringHashMap;
use vstd::hash_set::StringHashSet;
use vstd::prelude::*;
use vstd::utf8::{char_is_scalar, encode_utf8};

use crate::analyzer::{
    analysis_from_map, analysis_views, empty_analysis, lemma_utf8_len_take_mono, map_has_score, trim_chars, trimmed,
    AnalysisView, ScoredAnalysis,
};
use crate::chars::{char_width, chars_of, lemma_utf8_len_take_step, str_eq, string_of, utf8_len, utf8_width};
use crate::db_format::{
    feature_map, features, is_header, line_is_header, lines_of, section_name, section_of,
    split_once, split_once_chars, text_fields, text_lines, headers_ok, sep_index,
};
use crate::text_rules::{join_seqs, split_on};
use crate::utils::{lex_cut, normalize, normalize_ar, split_chars, str_views, string_views, strip_lex, vec_views};

verus! {

/// A loaded morphology database.
pub struct MorphologyDB {
    /// The features the database defines, with their closed value lists
    /// (`None` for an open feature).
    pub defines: StringHashMap<Option<Vec<String>>>,
    /// The default analyses, by part of speech.
    pub defaults: StringHashMap<ScoredAnalysis>,
    /// The feature order.
    pub order: Vec<String>,
    /// The tokenization schemes.
    pub tokenizations: StringHashSet,
    /// The features that are computed rather than stored.
    pub compute_feats: StringHashSet,
    /// The stem categories of each backoff action.
    pub stem_backoffs: StringHashMap<Vec<String>>,
    /// The analyses of each prefix.
    pub prefix_hash: StringHashMap<Vec<ScoredAnalysis>>,
    /// The analyses of each suffix.
    pub suffix_hash: StringHashMap<Vec<ScoredAnalysis>>,
    /// The analyses of each stem.
    pub stem_hash: StringHashMap<Vec<ScoredAnalysis>>,
    pub prefix_cat_hash: StringHashMap<String>,
    pub suffix_cat_hash: StringHashMap<String>,
    pub lemma_hash: StringHashMap<String>,
    /// The stem categories each prefix category combines with.
    pub prefix_stem_compat: StringHashMap<StringHashSet>,
    /// The suffix categories each stem category combines with.
    pub stem_suffix_compat: StringHashMap<StringHashSet>,
    /// The suffix categories each prefix category combines with.
    pub prefix_suffix_compat: StringHashMap<StringHashSet>,
    /// The length in bytes of the longest prefix.
    pub max_prefix_size: usize,
    /// The length in bytes of the longest suffix.
    pub max_suffix_size: usize,
}

impl MorphologyDB {
    /// An empty database.
    pub fn new() -> (db: Self)
        ensures
            db.defines@ == Map::<Seq<char>, Option<Vec<String>>>::empty(),
            db.defaults@ == Map::<Seq<char>, ScoredAnalysis>::empty(),
            db.order@ == Seq::<String>::empty(),
            db.tokenizations@ == Set::<Seq<char>>::empty(),
            db.compute_feats@ == Set::<Seq<char>>::empty(),
            db.stem_backoffs@ == Map::<Seq<char>, Vec<String>>::empty(),
            db.prefix_hash@ == Map::<Seq<char>, Vec<ScoredAnalysis>>::empty(),
            db.suffix_hash@ == Map::<Seq<char>, Vec<ScoredAnalysis>>::empty(),
            db.stem_hash@ == Map::<Seq<char>, Vec<ScoredAnalysis>>::empty(),
            db.prefix_cat_hash@ == Map::<Seq<char>, String>::empty(),
            db.suffix_cat_hash@ == Map::<Seq<char>, String>::empty(),
            db.lemma_hash@ == Map::<Seq<char>, String>::empty(),
            db.prefix_stem_compat@ == Map::<Seq<char>, StringHashSet>::empty(),
            db.stem_suffix_compat@ == Map::<Seq<char>, StringHashSet>::empty(),
            db.prefix_suffix_compat@ == Map::<Seq<char>, StringHashSet>::empty(),
            db.max_prefix_size == 0,
            db.max_suffix_size == 0,
    {
        MorphologyDB {
            defines: StringHashMap::new(),
            defaults: StringHashMap::new(),
            order: Vec::new(),
            tokenizations: StringHashSet::new(),
            compute_feats: StringHashSet::new(),
            stem_backoffs: StringHashMap::new(),
            prefix_hash: StringHashMap::new(),
            suffix_hash: StringHashMap::new(),
            stem_hash: StringHashMap::new(),
            prefix_cat_hash: StringHashMap::new(),
            suffix_cat_hash: StringHashMap::new(),
            lemma_hash: StringHashMap::new(),
            prefix_stem_compat: StringHashMap::new(),
            stem_suffix_compat: StringHashMap::new(),
            prefix_suffix_compat: StringHashMap::new(),
            max_prefix_size: 0,
            max_suffix_size: 0,
        }
    }
}


// ---------------------------------------------------------------------------
// The database as values

/// What a database holds, as values: the maps and lists of the database with
/// each string taken as its characters and each analysis as its view.
#[verifier::ext_equal]
pub struct DbModel {
    pub defines: Map<Seq<char>, Option<Seq<Seq<char>>>>,
    pub defaults: Map<Seq<char>, AnalysisView>,
    pub order: Seq<Seq<char>>,
    pub tokenizations: Set<Seq<char>>,
    pub compute_feats: Set<Seq<char>>,
    pub stem_backoffs: Map<Seq<char>, Seq<Seq<char>>>,
    pub prefix_hash: Map<Seq<char>, Seq<AnalysisView>>,
    pub suffix_hash: Map<Seq<char>, Seq<AnalysisView>>,
    pub stem_hash: Map<Seq<char>, Seq<AnalysisView>>,
    pub prefix_stem_compat: Map<Seq<char>, Set<Seq<char>>>,
    pub stem_suffix_compat: Map<Seq<char>, Set<Seq<char>>>,
    pub prefix_suffix_compat: Map<Seq<char>, Set<Seq<char>>>,
}

/// A closed value list as text, or `None` for an open feature.
pub open spec fn opt_views(o: Option<Vec<String>>) -> Option<Seq<Seq<char>>> {
    match o {
        Some(v) => Some(string_views(v@)),
        None => None,
    }
}

/// The defined features as text.
pub open spec fn define_views(m: Map<Seq<char>, Option<Vec<String>>>) -> Map<Seq<char>, Option<Seq<Seq<char>>>> {
    m.map_values(|o: Option<Vec<String>>| opt_views(o))
}

/// A map of analyses as views.
pub open spec fn default_views(m: Map<Seq<char>, ScoredAnalysis>) -> Map<Seq<char>, AnalysisView> {
    m.map_values(|a: ScoredAnalysis| a@)
}

/// A map of string lists as text.
pub open spec fn list_views(m: Map<Seq<char>, Vec<String>>) -> Map<Seq<char>, Seq<Seq<char>>> {
    m.map_values(|v: Vec<String>| string_views(v@))
}

/// A map of analysis lists as views.
pub open spec fn entry_views(m: Map<Seq<char>, Vec<ScoredAnalysis>>) -> Map<Seq<char>, Seq<AnalysisView>> {
    m.map_values(|v: Vec<ScoredAnalysis>| analysis_views(v@))
}

/// A map of string sets as sets of text.
pub open spec fn set_views(m: Map<Seq<char>, StringHashSet>) -> Map<Seq<char>, Set<Seq<char>>> {
    m.map_values(|s: StringHashSet| s@)
}

/// What a database holds.
pub open spec fn db_model(db: MorphologyDB) -> DbModel {
    DbModel {
        defines: define_views(db.defines@),
        defaults: default_views(db.defaults@),
        order: string_views(db.order@),
        tokenizations: db.tokenizations@,
        compute_feats: db.compute_feats@,
        stem_backoffs: list_views(db.stem_backoffs@),
        prefix_hash: entry_views(db.prefix_hash@),
        suffix_hash: entry_views(db.suffix_hash@),
        stem_hash: entry_views(db.stem_hash@),
        prefix_stem_compat: set_views(db.prefix_stem_compat@),
        stem_suffix_compat: set_views(db.stem_suffix_compat@),
        prefix_suffix_compat: set_views(db.prefix_suffix_compat@),
    }
}

/// The database with nothing in it.
pub open spec fn empty_model() -> DbModel {
    DbModel {
        defines: Map::empty(),
        defaults: Map::empty(),
        order: seq![],
        tokenizations: Set::empty(),
        compute_feats: Set::empty(),
        stem_backoffs: Map::empty(),
        prefix_hash: Map::empty(),
        suffix_hash: Map::empty(),
        stem_hash: Map::empty(),
        prefix_stem_compat: Map::empty(),
        stem_suffix_compat: Map::empty(),
        prefix_suffix_compat: Map::empty(),
    }
}

/// The set of the items of a list.
pub open spec fn set_of(s: Seq<Seq<char>>) -> Set<Seq<char>>
    decreases s.len(),
{
    if s.len() == 0 {
        Set::empty()
    } else {
        set_of(s.drop_last()).insert(s.last())
    }
}

/// The length in bytes of a key, as `str::len` gives it.
pub open spec fn key_bytes(k: Seq<char>) -> usize {
    utf8_len(k) as usize
}

/// `n` is the length in bytes of the longest key, 0 when there is none.
pub open spec fn longest_key(keys: Set<Seq<char>>, n: usize) -> bool {
    &&& forall|k: Seq<char>| keys.contains(k) ==> key_bytes(k) <= n
    &&& (n == 0 || exists|k: Seq<char>| keys.contains(k) && key_bytes(k) == n)
}

// ---------------------------------------------------------------------------
// The lines of the text format

/// The words after the first space of a line (`None` when it has no space).
pub open spec fn line_words(line: Seq<char>) -> Option<Seq<Seq<char>>> {
    match split_once(line, ' ').1 {
        Some(rest) => Some(split_on(rest, ' ')),
        None => None,
    }
}

/// The value list of a feature from value `i` on: the values written
/// `name:value` up to the first that names another feature; `Some(None)`
/// when the list is open (`*open*`); `None` when a value lacks its `:`.
pub open spec fn define_scan(name: Seq<char>, vals: Seq<Seq<char>>, i: int, acc: Seq<Seq<char>>) -> Option<Option<Seq<Seq<char>>>>
    decreases vals.len() - i,
{
    if i < 0 || i >= vals.len() {
        Some(Some(acc))
    } else if split_once(vals[i], ':').0 != name {
        Some(Some(acc))
    } else {
        match split_once(vals[i], ':').1 {
            None => None,
            Some(t) => if t == "*open*"@ {
                Some(None)
            } else {
                define_scan(name, vals, i + 1, acc.push(t))
            },
        }
    }
}

/// A line of the `DEFINES` section, `DEFINE name name:value ...`: the
/// feature and its value list.
pub open spec fn define_entry(line: Seq<char>) -> Option<(Seq<char>, Option<Seq<Seq<char>>>)> {
    match split_once(line, ' ').1 {
        None => None,
        Some(rest) => {
            let name = split_once(rest, ' ').0;
            match split_once(rest, ' ').1 {
                None => None,
                Some(vals) => match define_scan(name, split_on(vals, ' '), 0, seq![]) {
                    None => None,
                    Some(d) => Some((name, d)),
                },
            }
        },
    }
}

/// A line of the `STEMBACKOFF` section, `STEMBACKOFF action category ...`:
/// the action and its stem categories.
pub open spec fn backoff_entry(line: Seq<char>) -> Option<(Seq<char>, Seq<Seq<char>>)> {
    match split_once(line, ' ').1 {
        None => None,
        Some(rest) => match split_once(rest, ' ').1 {
            None => None,
            Some(vals) => Some((split_once(rest, ' ').0, split_on(vals, ' '))),
        },
    }
}

proof fn lemma_sep_index(s: Seq<char>, c: char, i: int)
    requires
        0 <= i <= s.len(),
    ensures
        i <= sep_index(s, c, i) <= s.len(),
        sep_index(s, c, i) < s.len() ==> s[sep_index(s, c, i)] == c,
        forall|j: int| i <= j < sep_index(s, c, i) ==> s[j] != c,
    decreases s.len() - i,
{
    if i < s.len() && s[i] != c {
        lemma_sep_index(s, c, i + 1);
    }
}

/// Cutting at the first `c`: the text before it holds no `c`, and with `c`
/// and the text after it gives back the whole.
proof fn lemma_split_once_spells(s: Seq<char>, c: char)
    ensures
        !split_once(s, c).0.contains(c),
        split_once(s, c).1 matches Some(b) ==> s == split_once(s, c).0 + seq![c] + b,
{
    lemma_sep_index(s, c, 0);
    let k = sep_index(s, c, 0);
    let a = split_once(s, c).0;
    if a.contains(c) {
        let j = choose|j: int| 0 <= j < a.len() && a[j] == c;
        assert(a[j] == s[j]);
    }
    if 0 <= k < s.len() {
        assert(s =~= s.take(k) + seq![c] + s.skip(k + 1));
    }
}

/// Cutting at every `c` gives pieces without `c` that, joined with `c`,
/// give back the whole.
proof fn lemma_split_on_spells(s: Seq<char>, c: char)
    ensures
        join_seqs(split_on(s, c), seq![c]) == s,
        forall|k: int| 0 <= k < split_on(s, c).len() ==> !(#[trigger] split_on(s, c)[k]).contains(c),
    decreases s.len(),
{
    crate::text_rules::lemma_split_on_nonempty(s, c);
    if s.len() == 0 {
        assert(split_on(s, c)[0] =~= Seq::<char>::empty());
    } else {
        let a = s.drop_last();
        let x = s.last();
        let prev = split_on(a, c);
        lemma_split_on_spells(a, c);
        crate::text_rules::lemma_split_on_nonempty(a, c);
        let cur = split_on(s, c);
        if x == c {
            assert(cur == prev.push(seq![]));
            assert(cur.drop_last() =~= prev);
            assert(join_seqs(cur, seq![c]) =~= s);
            assert forall|k: int| 0 <= k < cur.len() implies !(#[trigger] cur[k]).contains(c) by {
                if k < prev.len() {
                    assert(cur[k] == prev[k]);
                }
            }
        } else {
            let l = prev.last().push(x);
            assert(cur == prev.update(prev.len() - 1, l));
            if prev.len() == 1 {
                assert(join_seqs(cur, seq![c]) == cur[0]);
                assert(prev.last() == join_seqs(prev, seq![c]));
                assert(l =~= s);
            } else {
                assert(cur.drop_last() =~= prev.drop_last());
                assert(join_seqs(cur, seq![c]) == join_seqs(prev.drop_last(), seq![c]) + seq![c] + l);
                assert(join_seqs(prev, seq![c]) == join_seqs(prev.drop_last(), seq![c]) + seq![c] + prev.last());
                let jj = join_seqs(prev.drop_last(), seq![c]);
                assert(jj + seq![c] + l =~= (jj + seq![c] + prev.last()).push(x));
                assert(s =~= a.push(x));
                assert(join_seqs(cur, seq![c]) =~= s);
            }
            assert forall|k: int| 0 <= k < cur.len() implies !(#[trigger] cur[k]).contains(c) by {
                if k < prev.len() - 1 {
                    assert(cur[k] == prev[k]);
                } else {
                    assert(!prev[prev.len() - 1].contains(c));
                    if l.contains(c) {
                        let j = choose|j: int| 0 <= j < l.len() && l[j] == c;
                        if j < prev.last().len() {
                            assert(prev.last()[j] == c);
                        }
                    }
                }
            }
        }
    }
}

/// A `STEMBACKOFF` line is read back from what it gives: its first word,
/// the action and the categories, one space apart; the categories are all
/// the words after the action, and no word holds a space.
pub proof fn lemma_backoff_entry_spells_line(line: Seq<char>)
    ensures
        backoff_entry(line) matches Some((action, cats)) ==> {
            &&& line == split_once(line, ' ').0 + seq![' '] + action + seq![' '] + join_seqs(cats, seq![' '])
            &&& !split_once(line, ' ').0.contains(' ')
            &&& !action.contains(' ')
            &&& forall|k: int| 0 <= k < cats.len() ==> !(#[trigger] cats[k]).contains(' ')
        },
{
    lemma_split_once_spells(line, ' ');
    if let Some(rest) = split_once(line, ' ').1 {
        lemma_split_once_spells(rest, ' ');
        if let Some(vals) = split_once(rest, ' ').1 {
            lemma_split_on_spells(vals, ' ');
            let w0 = split_once(line, ' ').0;
            let action = split_once(rest, ' ').0;
            assert(line =~= w0 + seq![' '] + action + seq![' '] + vals);
        }
    }
}

/// Adding an entry under a form keeps the form's earlier entries, in order,
/// puts the new one last, and leaves every other form as it was.
pub proof fn lemma_push_entry_appends(h: Map<Seq<char>, Seq<AnalysisView>>, k: Seq<char>, a: AnalysisView, k2: Seq<char>)
    ensures
        push_entry(h, k, a).contains_key(k),
        push_entry(h, k, a)[k].len() == (if h.contains_key(k) {
            h[k].len() as int
        } else {
            0
        }) + 1,
        push_entry(h, k, a)[k].last() == a,
        h.contains_key(k) ==> push_entry(h, k, a)[k].take(h[k].len() as int) == h[k],
        k2 != k ==> push_entry(h, k, a).contains_key(k2) == h.contains_key(k2),
        k2 != k && h.contains_key(k2) ==> push_entry(h, k, a)[k2] == h[k2],
{
    if h.contains_key(k) {
        assert(h[k].push(a).take(h[k].len() as int) =~= h[k]);
    }
}

/// A line of the `DEFAULTS` section, `DEFAULT key:value ...`: the default
/// analysis with its part of speech, `Some(None)` when the line gives no
/// part of speech or `*`.
pub open spec fn default_entry(line: Seq<char>) -> Option<Option<(Seq<char>, AnalysisView)>> {
    match line_words(line) {
        None => None,
        Some(words) => match features(words, false) {
            None => None,
            Some(f) => if f.contains_key("pos"@) && f["pos"@] != "*"@ {
                if map_has_score(f) {
                    None
                } else {
                    Some(Some((f["pos"@], analysis_from_map(f))))
                }
            } else {
                Some(None)
            },
        },
    }
}

/// The features of a stem with the lexeme's sense index stripped.
pub open spec fn strip_lex_field(f: Map<Seq<char>, Seq<char>>) -> Map<Seq<char>, Seq<char>> {
    if f.contains_key("lex"@) {
        f.insert("lex"@, f["lex"@].take(lex_cut(f["lex"@], 0)))
    } else {
        f
    }
}

/// A line of the prefix, suffix or stem section,
/// `form<TAB>category<TAB>key:value ...`: the form, trimmed, and its
/// analysis with the line's category; a stem's lexeme loses its sense index.
pub open spec fn entry_line(line: Seq<char>, stem: bool) -> Option<(Seq<char>, AnalysisView)> {
    let parts = split_on(line, '\t');
    if parts.len() < 3 {
        None
    } else {
        match features(split_on(parts[2], ' '), true) {
            None => None,
            Some(f0) => {
                let f = if stem {
                    strip_lex_field(f0)
                } else {
                    f0
                };
                if map_has_score(f) {
                    None
                } else {
                    Some((trimmed(parts[0]), AnalysisView { category: parts[1], ..analysis_from_map(f) }))
                }
            },
        }
    }
}

/// A line of a compatibility table, `category category`: the first,
/// trimmed, and the second.
pub open spec fn pair_line(line: Seq<char>) -> Option<(Seq<char>, Seq<char>)> {
    let parts = split_on(line, ' ');
    if parts.len() < 2 {
        None
    } else {
        Some((trimmed(parts[0]), parts[1]))
    }
}

/// The map with `a` added at the end of the analyses of `k`.
pub open spec fn push_entry(h: Map<Seq<char>, Seq<AnalysisView>>, k: Seq<char>, a: AnalysisView) -> Map<Seq<char>, Seq<AnalysisView>> {
    h.insert(
        k,
        if h.contains_key(k) {
            h[k].push(a)
        } else {
            seq![a]
        },
    )
}

/// The table with `b` added to the categories of `a`.
pub open spec fn add_pair(t: Map<Seq<char>, Set<Seq<char>>>, a: Seq<char>, b: Seq<char>) -> Map<Seq<char>, Set<Seq<char>>> {
    t.insert(
        a,
        if t.contains_key(a) {
            t[a].insert(b)
        } else {
            Set::empty().insert(b)
        },
    )
}

/// What one line of section `sec` makes of the database; `None` when the
/// line cannot be read. Lines of other sections leave it as it is.
pub open spec fn parse_line(m: DbModel, sec: Seq<char>, line: Seq<char>) -> Option<DbModel> {
    if sec == "DEFINES"@ {
        match define_entry(line) {
            None => None,
            Some((name, d)) => Some(DbModel { defines: m.defines.insert(name, d), ..m }),
        }
    } else if sec == "ORDER"@ {
        match line_words(line) {
            None => None,
            Some(words) => Some(DbModel { order: m.order + words, ..m }),
        }
    } else if sec == "TOKENIZATIONS"@ {
        match line_words(line) {
            None => None,
            Some(words) => Some(
                DbModel {
                    compute_feats: set_of(m.order),
                    tokenizations: m.tokenizations.union(set_of(words)),
                    ..m
                },
            ),
        }
    } else if sec == "STEMBACKOFF"@ {
        match backoff_entry(line) {
            None => None,
            Some((action, cats)) => Some(DbModel { stem_backoffs: m.stem_backoffs.insert(action, cats), ..m }),
        }
    } else if sec == "DEFAULTS"@ {
        match default_entry(line) {
            None => None,
            Some(None) => Some(m),
            Some(Some((pos, a))) => Some(DbModel { defaults: m.defaults.insert(pos, a), ..m }),
        }
    } else if sec == "PREFIXES"@ {
        match entry_line(line, false) {
            None => None,
            Some((k, a)) => Some(DbModel { prefix_hash: push_entry(m.prefix_hash, k, a), ..m }),
        }
    } else if sec == "SUFFIXES"@ {
        match entry_line(line, false) {
            None => None,
            Some((k, a)) => Some(DbModel { suffix_hash: push_entry(m.suffix_hash, k, a), ..m }),
        }
    } else if sec == "STEMS"@ {
        match entry_line(line, true) {
            None => None,
            Some((k, a)) => Some(DbModel { stem_hash: push_entry(m.stem_hash, k, a), ..m }),
        }
    } else if sec == "TABLE AB"@ {
        match pair_line(line) {
            None => None,
            Some((a, b)) => Some(DbModel { prefix_stem_compat: add_pair(m.prefix_stem_compat, a, b), ..m }),
        }
    } else if sec == "TABLE BC"@ {
        match pair_line(line) {
            None => None,
            Some((a, b)) => Some(DbModel { stem_suffix_compat: add_pair(m.stem_suffix_compat, a, b), ..m }),
        }
    } else if sec == "TABLE AC"@ {
        match pair_line(line) {
            None => None,
            Some((a, b)) => Some(DbModel { prefix_suffix_compat: add_pair(m.prefix_suffix_compat, a, b), ..m }),
        }
    } else {
        Some(m)
    }
}

/// What the lines from `i` on make of `m`, section `sec` being open: a
/// header opens its section; `Err` gives the index of the first line that
/// cannot be read.
pub open spec fn parse_from(lines: Seq<Seq<char>>, i: int, m: DbModel, sec: Seq<char>) -> Result<DbModel, int>
    decreases lines.len() - i,
{
    if i < 0 || i >= lines.len() {
        Ok(m)
    } else if is_header(lines[i]) {
        parse_from(lines, i + 1, m, section_name(lines[i]))
    } else {
        match parse_line(m, sec, lines[i]) {
            None => Err(i),
            Some(m2) => parse_from(lines, i + 1, m2, sec),
        }
    }
}

/// The database that a text describes, read from its first line with no
/// section open.
pub open spec fn text_model(text: Seq<char>) -> Result<DbModel, int> {
    parse_from(text_lines(text), 0, empty_model(), seq![])
}

// ---------------------------------------------------------------------------
// Reading the lines

/// The strings made of character pieces.
fn strings_of(pieces: &Vec<Vec<char>>) -> (r: Vec<String>)
    ensures
        string_views(r@) == vec_views(pieces@),
{
    let mut r: Vec<String> = Vec::new();
    let mut i: usize = 0;
    while i < pieces.len()
        invariant
            i <= pieces@.len(),
            string_views(r@) == vec_views(pieces@).take(i as int),
        decreases pieces@.len() - i,
    {
        let ghost before = string_views(r@);
        let piece = string_of(pieces[i].as_slice());
        assert(piece@ == vec_views(pieces@)[i as int]);
        r.push(piece);
        assert(string_views(r@) =~= before.push(piece@));
        assert(vec_views(pieces@).take(i + 1) =~= vec_views(pieces@).take(i as int).push(piece@));
        i += 1;
    }
    assert(vec_views(pieces@).take(pieces@.len() as int) =~= vec_views(pieces@));
    r
}

/// The words after the first space of a line.
fn read_words(line: &[char]) -> (r: Option<Vec<Vec<char>>>)
    ensures
        match line_words(line@) {
            None => r is None,
            Some(w) => r is Some && vec_views(r->Some_0@) == w,
        },
{
    let (_, rest) = split_once_chars(line, ' ');
    match rest {
        None => None,
        Some(rest) => Some(split_chars(rest.as_slice(), ' ')),
    }
}

/// Reads a line of the `DEFINES` section.
fn read_define(line: &[char]) -> (r: Option<(String, Option<Vec<String>>)>)
    ensures
        match define_entry(line@) {
            None => r is None,
            Some((name, d)) => r is Some && r->Some_0.0@ == name && opt_views(r->Some_0.1) == d,
        },
{
    let (_, rest) = split_once_chars(line, ' ');
    let rest = match rest {
        None => {
            return None;
        },
        Some(rest) => rest,
    };
    let (name, vals) = split_once_chars(rest.as_slice(), ' ');
    let vals = match vals {
        None => {
            return None;
        },
        Some(vals) => vals,
    };
    let pieces = split_chars(vals.as_slice(), ' ');
    let ghost ps = vec_views(pieces@);
    let ghost whole = define_entry(line@);
    assert(whole == match define_scan(name@, ps, 0, seq![]) {
        None => None,
        Some(d) => Some((name@, d)),
    });
    let open = chars_of("*open*");
    let mut acc: Vec<String> = Vec::new();
    assert(string_views(acc@) =~= Seq::<Seq<char>>::empty());
    let mut i: usize = 0;
    while i < pieces.len()
        invariant
            ps == vec_views(pieces@),
            whole == define_entry(line@),
            whole == match define_scan(name@, ps, 0, seq![]) {
                None => None,
                Some(d) => Some((name@, d)),
            },
            open@ == "*open*"@,
            i <= pieces@.len(),
            define_scan(name@, ps, 0, seq![]) == define_scan(name@, ps, i as int, string_views(acc@)),
        decreases pieces@.len() - i,
    {
        assert(pieces@[i as int]@ == ps[i as int]);
        let (cur, tok) = split_once_chars(pieces[i].as_slice(), ':');
        if !crate::chars::chars_eq(cur.as_slice(), name.as_slice()) {
            return Some((string_of(name.as_slice()), Some(acc)));
        }
        match tok {
            None => {
                return None;
            },
            Some(t) => {
                if crate::chars::chars_eq(t.as_slice(), open.as_slice()) {
                    return Some((string_of(name.as_slice()), None));
                }
                let ghost before = string_views(acc@);
                acc.push(string_of(t.as_slice()));
                assert(string_views(acc@) =~= before.push(t@));
            },
        }
        i += 1;
    }
    Some((string_of(name.as_slice()), Some(acc)))
}

/// Reads a line of the `STEMBACKOFF` section.
fn read_backoff(line: &[char]) -> (r: Option<(String, Vec<String>)>)
    ensures
        match backoff_entry(line@) {
            None => r is None,
            Some((action, cats)) => r is Some && r->Some_0.0@ == action && string_views(r->Some_0.1@) == cats,
        },
{
    let (_, rest) = split_once_chars(line, ' ');
    let rest = match rest {
        None => {
            return None;
        },
        Some(rest) => rest,
    };
    let (action, vals) = split_once_chars(rest.as_slice(), ' ');
    match vals {
        None => None,
        Some(vals) => {
            let pieces = split_chars(vals.as_slice(), ' ');
            Some((string_of(action.as_slice()), strings_of(&pieces)))
        },
    }
}

/// Reads a line of the `DEFAULTS` section.
fn read_default(line: &[char]) -> (r: Option<Option<(String, ScoredAnalysis)>>)
    ensures
        match default_entry(line@) {
            None => r is None,
            Some(None) => r == Some(None::<(String, ScoredAnalysis)>),
            Some(Some((pos, a))) => r is Some && r->Some_0 is Some && r->Some_0->Some_0.0@ == pos
                && r->Some_0->Some_0.1@ == a,
        },
{
    let words = match read_words(line) {
        None => {
            return None;
        },
        Some(w) => w,
    };
    let map = match feature_map(&words, false) {
        None => {
            return None;
        },
        Some(m) => m,
    };
    let pos = match map.get("pos") {
        None => {
            return Some(None);
        },
        Some(p) => p,
    };
    if str_eq(pos.as_str(), "*") {
        return Some(None);
    }
    let pos = pos.clone();
    match ScoredAnalysis::from_map(&map) {
        Err(_) => None,
        Ok(a) => Some(Some((pos, a))),
    }
}

/// Reads a line of the prefix, suffix or stem section.
fn read_entry(line: &[char], stem: bool) -> (r: Option<(String, ScoredAnalysis)>)
    ensures
        match entry_line(line@, stem) {
            None => r is None,
            Some((k, a)) => r is Some && r->Some_0.0@ == k && r->Some_0.1@ == a,
        },
{
    let parts = split_chars(line, '\t');
    if parts.len() < 3 {
        return None;
    }
    assert(parts@[2]@ == split_on(line@, '\t')[2]);
    assert(parts@[1]@ == split_on(line@, '\t')[1]);
    assert(parts@[0]@ == split_on(line@, '\t')[0]);
    let words = split_chars(parts[2].as_slice(), ' ');
    let mut map = match feature_map(&words, true) {
        None => {
            return None;
        },
        Some(m) => m,
    };
    if stem {
        let stripped = match map.get("lex") {
            Some(v) => Some(strip_lex(v.as_str())),
            None => None,
        };
        match stripped {
            Some(lx) => {
                let ghost before = text_fields(map@);
                map.insert("lex".to_owned(), lx);
                assert(text_fields(map@) =~= before.insert("lex"@, lx@));
            },
            None => {},
        }
    }
    match ScoredAnalysis::from_map(&map) {
        Err(_) => None,
        Ok(mut a) => {
            a.category = string_of(parts[1].as_slice());
            let form = trim_chars(parts[0].as_slice());
            Some((string_of(form.as_slice()), a))
        },
    }
}

/// Reads a line of a compatibility table.
fn read_pair(line: &[char]) -> (r: Option<(String, String)>)
    ensures
        match pair_line(line@) {
            None => r is None,
            Some((a, b)) => r is Some && r->Some_0.0@ == a && r->Some_0.1@ == b,
        },
{
    let parts = split_chars(line, ' ');
    if parts.len() < 2 {
        return None;
    }
    assert(parts@[1]@ == split_on(line@, ' ')[1]);
    assert(parts@[0]@ == split_on(line@, ' ')[0]);
    let a = trim_chars(parts[0].as_slice());
    Some((string_of(a.as_slice()), string_of(parts[1].as_slice())))
}

// ---------------------------------------------------------------------------
// Building the database

/// A compatibility table while it is read: the categories of each key in the
/// order they came, and the keys in the order they came.
struct PairTable {
    lists: StringHashMap<Vec<String>>,
    keys: Vec<String>,
}

impl PairTable {
    spec fn table(&self) -> Map<Seq<char>, Set<Seq<char>>> {
        self.lists@.map_values(|v: Vec<String>| set_of(string_views(v@)))
    }

    spec fn wf(&self) -> bool {
        &&& forall|k: Seq<char>|
            self.lists@.contains_key(k) ==> exists|j: int|
                0 <= j < self.keys@.len() && (#[trigger] self.keys@[j])@ == k
        &&& forall|j: int| 0 <= j < self.keys@.len() ==> self.lists@.contains_key((#[trigger] self.keys@[j])@)
    }

    fn new() -> (t: Self)
        ensures
            t.wf(),
            t.table() == Map::<Seq<char>, Set<Seq<char>>>::empty(),
    {
        let t = PairTable { lists: StringHashMap::new(), keys: Vec::new() };
        assert(t.table() =~= Map::<Seq<char>, Set<Seq<char>>>::empty());
        t
    }

    fn add(&mut self, a: String, b: String)
        requires
            old(self).wf(),
        ensures
            final(self).wf(),
            final(self).table() == add_pair(old(self).table(), a@, b@),
    {
        let ghost t0 = self.table();
        match self.lists.get(a.as_str()) {
            Some(v) => {
                let mut v2 = clone_strings(v);
                let ghost sv = string_views(v2@);
                v2.push(b);
                assert(string_views(v2@) =~= sv.push(b@));
                assert(string_views(v2@).drop_last() =~= sv);
                self.lists.insert(a, v2);
                assert(self.table() =~= add_pair(t0, a@, b@));
            },
            None => {
                let ghost k0 = self.keys@;
                self.keys.push(a.clone());
                let mut v2: Vec<String> = Vec::new();
                v2.push(b);
                assert(string_views(v2@) =~= seq![b@]);
                assert(seq![b@].drop_last() =~= Seq::<Seq<char>>::empty());
                assert(set_of(Seq::<Seq<char>>::empty()) == Set::<Seq<char>>::empty());
                assert(set_of(seq![b@]) =~= Set::<Seq<char>>::empty().insert(b@));
                self.lists.insert(a, v2);
                assert(self.table() =~= add_pair(t0, a@, b@));
                assert forall|k: Seq<char>| self.lists@.contains_key(k) implies exists|j: int|
                    0 <= j < self.keys@.len() && (#[trigger] self.keys@[j])@ == k by {
                    if k == a@ {
                        assert(self.keys@[k0.len() as int]@ == k);
                    } else {
                        let j = choose|j: int| 0 <= j < k0.len() && (#[trigger] k0[j])@ == k;
                        assert(self.keys@[j] == k0[j]);
                    }
                }
                assert forall|j: int| 0 <= j < self.keys@.len() implies self.lists@.contains_key(
                    (#[trigger] self.keys@[j])@,
                ) by {
                    if j < k0.len() {
                        assert(self.keys@[j] == k0[j]);
                    }
                }
            },
        }
    }

    fn finish(self) -> (r: StringHashMap<StringHashSet>)
        requires
            self.wf(),
        ensures
            set_views(r@) == self.table(),
    {
        let mut out: StringHashMap<StringHashSet> = StringHashMap::new();
        let mut i: usize = 0;
        while i < self.keys.len()
            invariant
                self.wf(),
                i <= self.keys@.len(),
                forall|k: Seq<char>|
                    #[trigger] out@.contains_key(k) ==> self.lists@.contains_key(k) && out@[k]@ == self.table()[k],
                forall|j: int| 0 <= j < i ==> out@.contains_key((#[trigger] self.keys@[j])@),
            decreases self.keys@.len() - i,
        {
            let key = &self.keys[i];
            let list = match self.lists.get(key.as_str()) {
                Some(l) => l,
                None => {
                    proof {
                        assert(false);
                    }
                    return out;
                },
            };
            let set = set_of_strings(list);
            assert(set@ == self.table()[key@]);
            let ghost o0 = out@;
            out.insert(key.clone(), set);
            assert forall|k: Seq<char>| out@.contains_key(k) implies self.lists@.contains_key(k) && out@[k]@ == self.table()[k] by {
                if k != key@ {
                    assert(out@[k] == o0[k]);
                }
            }
            i += 1;
        }
        assert forall|k: Seq<char>| self.lists@.contains_key(k) implies out@.contains_key(k) by {
            let j = choose|j: int| 0 <= j < self.keys@.len() && (#[trigger] self.keys@[j])@ == k;
        }
        assert(set_views(out@) =~= self.table());
        out
    }
}

/// A copy of a list of strings.
fn clone_strings(v: &Vec<String>) -> (r: Vec<String>)
    ensures
        string_views(r@) == string_views(v@),
{
    let mut r: Vec<String> = Vec::new();
    let mut i: usize = 0;
    while i < v.len()
        invariant
            i <= v@.len(),
            string_views(r@) == string_views(v@).take(i as int),
        decreases v@.len() - i,
    {
        let ghost before = string_views(r@);
        let c = v[i].clone();
        r.push(c);
        assert(string_views(r@) =~= before.push(c@));
        assert(string_views(v@).take(i + 1) =~= string_views(v@).take(i as int).push(c@));
        i += 1;
    }
    assert(string_views(v@).take(v@.len() as int) =~= string_views(v@));
    r
}

/// The set of the strings of a list.
fn set_of_strings(v: &Vec<String>) -> (r: StringHashSet)
    ensures
        r@ == set_of(string_views(v@)),
{
    let mut r = StringHashSet::new();
    let mut i: usize = 0;
    assert(string_views(v@).take(0) =~= Seq::<Seq<char>>::empty());
    while i < v.len()
        invariant
            i <= v@.len(),
            r@ == set_of(string_views(v@).take(i as int)),
        decreases v@.len() - i,
    {
        assert(string_views(v@).take(i + 1).drop_last() =~= string_views(v@).take(i as int));
        r.insert(v[i].clone());
        i += 1;
    }
    assert(string_views(v@).take(v@.len() as int) =~= string_views(v@));
    r
}

/// A copy of a list of analyses.
fn clone_analyses(v: &Vec<ScoredAnalysis>) -> (r: Vec<ScoredAnalysis>)
    ensures
        r@ == v@,
{
    let mut r: Vec<ScoredAnalysis> = Vec::new();
    let mut i: usize = 0;
    while i < v.len()
        invariant
            i <= v@.len(),
            r@ == v@.take(i as int),
        decreases v@.len() - i,
    {
        r.push(v[i].duplicate());
        assert(r@ =~= v@.take(i + 1));
        i += 1;
    }
    assert(v@.take(v@.len() as int) =~= v@);
    r
}

/// Adds an analysis at the end of the analyses of `k`.
fn push_analysis(h: &mut StringHashMap<Vec<ScoredAnalysis>>, k: String, a: ScoredAnalysis)
    ensures
        entry_views(final(h)@) == push_entry(entry_views(old(h)@), k@, a@),
        final(h)@.dom() == old(h)@.dom().insert(k@),
{
    let ghost e0 = entry_views(h@);
    let ghost av = a@;
    let v2 = match h.get(k.as_str()) {
        Some(v) => {
            let mut v2 = clone_analyses(v);
            v2.push(a);
            v2
        },
        None => {
            let mut v2: Vec<ScoredAnalysis> = Vec::new();
            v2.push(a);
            v2
        },
    };
    assert(analysis_views(v2@) =~= if e0.contains_key(k@) {
        e0[k@].push(av)
    } else {
        seq![av]
    });
    h.insert(k, v2);
    assert(entry_views(h@) =~= push_entry(e0, k@, av));
    assert(h@.dom() =~= old(h)@.dom().insert(k@));
}

/// The longest key stays the longest, or `k` becomes it.
proof fn lemma_longest_insert(keys: Set<Seq<char>>, n: usize, k: Seq<char>, m: usize)
    requires
        longest_key(keys, n),
        m == if key_bytes(k) > n {
            key_bytes(k)
        } else {
            n
        },
    ensures
        longest_key(keys.insert(k), m),
{
    if m != 0 {
        if key_bytes(k) > n {
            assert(keys.insert(k).contains(k) && key_bytes(k) == m);
        } else if n != 0 {
            let w = choose|w: Seq<char>| keys.contains(w) && key_bytes(w) == n;
            assert(keys.insert(k).contains(w) && key_bytes(w) == m);
        }
    }
}

/// The length in bytes of a text is that of its first character and the rest.
proof fn lemma_utf8_len_first(s: Seq<char>)
    requires
        s.len() > 0,
    ensures
        utf8_len(s) == utf8_width(s[0]) + utf8_len(s.drop_first()),
    decreases s.len(),
{
    if s.len() > 1 {
        lemma_utf8_len_first(s.drop_last());
        assert(s.drop_last().drop_first() =~= s.drop_first().drop_last());
    } else {
        assert(s.drop_first() =~= Seq::<char>::empty());
        assert(s.drop_last() =~= Seq::<char>::empty());
    }
}

/// The UTF-8 encoding of a text has `utf8_len` bytes.
proof fn lemma_encode_utf8_len(s: Seq<char>)
    ensures
        encode_utf8(s).len() == utf8_len(s),
    decreases s.len(),
{
    if s.len() > 0 {
        lemma_encode_utf8_len(s.drop_first());
        lemma_utf8_len_first(s);
        char_is_scalar(s[0]);
    }
}

/// The length in bytes of a key.
fn key_len(k: &String) -> (n: usize)
    ensures
        n == key_bytes(k@),
{
    proof {
        lemma_encode_utf8_len(k@);
    }
    k.as_str().len()
}

/// A database while it is read: the compatibility tables are kept apart
/// until the end.
struct Builder {
    db: MorphologyDB,
    ab: PairTable,
    bc: PairTable,
    ac: PairTable,
}

spec fn builder_model(b: Builder) -> DbModel {
    DbModel {
        defines: define_views(b.db.defines@),
        defaults: default_views(b.db.defaults@),
        order: string_views(b.db.order@),
        tokenizations: b.db.tokenizations@,
        compute_feats: b.db.compute_feats@,
        stem_backoffs: list_views(b.db.stem_backoffs@),
        prefix_hash: entry_views(b.db.prefix_hash@),
        suffix_hash: entry_views(b.db.suffix_hash@),
        stem_hash: entry_views(b.db.stem_hash@),
        prefix_stem_compat: b.ab.table(),
        stem_suffix_compat: b.bc.table(),
        prefix_suffix_compat: b.ac.table(),
    }
}

/// The parts of a database that reading its text leaves empty.
pub open spec fn unread_parts_empty(db: MorphologyDB) -> bool {
    &&& db.prefix_cat_hash@ == Map::<Seq<char>, String>::empty()
    &&& db.suffix_cat_hash@ == Map::<Seq<char>, String>::empty()
    &&& db.lemma_hash@ == Map::<Seq<char>, String>::empty()
}

spec fn builder_wf(b: Builder) -> bool {
    &&& b.ab.wf()
    &&& b.bc.wf()
    &&& b.ac.wf()
    &&& longest_key(b.db.prefix_hash@.dom(), b.db.max_prefix_size)
    &&& longest_key(b.db.suffix_hash@.dom(), b.db.max_suffix_size)
    &&& unread_parts_empty(b.db)
}

impl Builder {
    fn new() -> (b: Self)
        ensures
            builder_wf(b),
            builder_model(b) == empty_model(),
    {
        let b = Builder { db: MorphologyDB::new(), ab: PairTable::new(), bc: PairTable::new(), ac: PairTable::new() };
        assert(define_views(b.db.defines@) =~= Map::<Seq<char>, Option<Seq<Seq<char>>>>::empty());
        assert(default_views(b.db.defaults@) =~= Map::<Seq<char>, AnalysisView>::empty());
        assert(string_views(b.db.order@) =~= Seq::<Seq<char>>::empty());
        assert(list_views(b.db.stem_backoffs@) =~= Map::<Seq<char>, Seq<Seq<char>>>::empty());
        assert(entry_views(b.db.prefix_hash@) =~= Map::<Seq<char>, Seq<AnalysisView>>::empty());
        assert(entry_views(b.db.suffix_hash@) =~= Map::<Seq<char>, Seq<AnalysisView>>::empty());
        assert(entry_views(b.db.stem_hash@) =~= Map::<Seq<char>, Seq<AnalysisView>>::empty());
        assert(builder_model(b) =~= empty_model());
        b
    }

    fn finish(self) -> (db: MorphologyDB)
        requires
            builder_wf(self),
        ensures
            db_model(db) == builder_model(self),
            longest_key(db.prefix_hash@.dom(), db.max_prefix_size),
            longest_key(db.suffix_hash@.dom(), db.max_suffix_size),
            unread_parts_empty(db),
    {
        let Builder { mut db, ab, bc, ac } = self;
        db.prefix_stem_compat = ab.finish();
        db.stem_suffix_compat = bc.finish();
        db.prefix_suffix_compat = ac.finish();
        db
    }
}

/// Whether a section name is `name`.
fn section_is(sec: &[char], name: &str) -> (r: bool)
    ensures
        r == (sec@ == name@),
{
    let n = chars_of(name);
    crate::chars::chars_eq(sec, n.as_slice())
}

/// Appends strings made of the pieces to a list.
fn append_strings(v: &mut Vec<String>, pieces: &Vec<Vec<char>>)
    ensures
        string_views(final(v)@) == string_views(old(v)@) + vec_views(pieces@),
{
    let mut i: usize = 0;
    assert(vec_views(pieces@).take(0) =~= Seq::<Seq<char>>::empty());
    assert(string_views(v@) =~= string_views(old(v)@) + vec_views(pieces@).take(0));
    while i < pieces.len()
        invariant
            i <= pieces@.len(),
            string_views(v@) == string_views(old(v)@) + vec_views(pieces@).take(i as int),
        decreases pieces@.len() - i,
    {
        let ghost before = string_views(v@);
        let p = string_of(pieces[i].as_slice());
        assert(p@ == vec_views(pieces@)[i as int]);
        v.push(p);
        assert(string_views(v@) =~= before.push(p@));
        assert(vec_views(pieces@).take(i + 1) =~= vec_views(pieces@).take(i as int).push(p@));
        i += 1;
    }
    assert(vec_views(pieces@).take(pieces@.len() as int) =~= vec_views(pieces@));
}

/// Adds strings made of the pieces to a set.
fn insert_strings(set: &mut StringHashSet, pieces: &Vec<Vec<char>>)
    ensures
        final(set)@ == old(set)@.union(set_of(vec_views(pieces@))),
{
    let mut i: usize = 0;
    assert(vec_views(pieces@).take(0) =~= Seq::<Seq<char>>::empty());
    assert(set@ =~= old(set)@.union(set_of(vec_views(pieces@).take(0))));
    while i < pieces.len()
        invariant
            i <= pieces@.len(),
            set@ == old(set)@.union(set_of(vec_views(pieces@).take(i as int))),
        decreases pieces@.len() - i,
    {
        let ghost s0 = set@;
        let p = string_of(pieces[i].as_slice());
        assert(p@ == vec_views(pieces@)[i as int]);
        assert(vec_views(pieces@).take(i + 1).drop_last() =~= vec_views(pieces@).take(i as int));
        set.insert(p);
        assert(set@ =~= old(set)@.union(set_of(vec_views(pieces@).take(i + 1))));
        i += 1;
    }
    assert(vec_views(pieces@).take(pieces@.len() as int) =~= vec_views(pieces@));
}

/// Applies one line of section `sec` to the database being read; `false`
/// when the line cannot be read.
fn apply_line(b: &mut Builder, sec: &[char], line: &[char]) -> (ok: bool)
    requires
        builder_wf(*old(b)),
    ensures
        builder_wf(*final(b)),
        ok == parse_line(builder_model(*old(b)), sec@, line@) is Some,
        ok ==> builder_model(*final(b)) == parse_line(builder_model(*old(b)), sec@, line@)->Some_0,
{
    let ghost m0 = builder_model(*b);
    if section_is(sec, "DEFINES") {
        match read_define(line) {
            None => false,
            Some((name, d)) => {
                let ghost before = define_views(b.db.defines@);
                let ghost dv = opt_views(d);
                b.db.defines.insert(name, d);
                assert(define_views(b.db.defines@) =~= before.insert(name@, dv));
                assert(builder_model(*b) =~= DbModel { defines: m0.defines.insert(name@, dv), ..m0 });
                true
            },
        }
    } else if section_is(sec, "ORDER") {
        match read_words(line) {
            None => false,
            Some(words) => {
                append_strings(&mut b.db.order, &words);
                assert(builder_model(*b) =~= DbModel { order: m0.order + vec_views(words@), ..m0 });
                true
            },
        }
    } else if section_is(sec, "TOKENIZATIONS") {
        match read_words(line) {
            None => false,
            Some(words) => {
                b.db.compute_feats = set_of_strings(&b.db.order);
                insert_strings(&mut b.db.tokenizations, &words);
                assert(builder_model(*b) =~= DbModel {
                    compute_feats: set_of(m0.order),
                    tokenizations: m0.tokenizations.union(set_of(vec_views(words@))),
                    ..m0
                });
                true
            },
        }
    } else if section_is(sec, "STEMBACKOFF") {
        match read_backoff(line) {
            None => false,
            Some((action, cats)) => {
                let ghost before = list_views(b.db.stem_backoffs@);
                let ghost cv = string_views(cats@);
                b.db.stem_backoffs.insert(action, cats);
                assert(list_views(b.db.stem_backoffs@) =~= before.insert(action@, cv));
                assert(builder_model(*b) =~= DbModel { stem_backoffs: m0.stem_backoffs.insert(action@, cv), ..m0 });
                true
            },
        }
    } else if section_is(sec, "DEFAULTS") {
        match read_default(line) {
            None => false,
            Some(None) => true,
            Some(Some((pos, a))) => {
                let ghost before = default_views(b.db.defaults@);
                let ghost av = a@;
                b.db.defaults.insert(pos, a);
                assert(default_views(b.db.defaults@) =~= before.insert(pos@, av));
                assert(builder_model(*b) =~= DbModel { defaults: m0.defaults.insert(pos@, av), ..m0 });
                true
            },
        }
    } else if section_is(sec, "PREFIXES") {
        match read_entry(line, false) {
            None => false,
            Some((k, a)) => {
                let n = key_len(&k);
                let ghost kv = k@;
                let ghost av = a@;
                let ghost d0 = b.db.prefix_hash@.dom();
                push_analysis(&mut b.db.prefix_hash, k, a);
                let m = if n > b.db.max_prefix_size { n } else { b.db.max_prefix_size };
                proof {
                    lemma_longest_insert(d0, b.db.max_prefix_size, kv, m);
                }
                b.db.max_prefix_size = m;
                assert(builder_model(*b) =~= DbModel { prefix_hash: push_entry(m0.prefix_hash, kv, av), ..m0 });
                true
            },
        }
    } else if section_is(sec, "SUFFIXES") {
        match read_entry(line, false) {
            None => false,
            Some((k, a)) => {
                let n = key_len(&k);
                let ghost kv = k@;
                let ghost av = a@;
                let ghost d0 = b.db.suffix_hash@.dom();
                push_analysis(&mut b.db.suffix_hash, k, a);
                let m = if n > b.db.max_suffix_size { n } else { b.db.max_suffix_size };
                proof {
                    lemma_longest_insert(d0, b.db.max_suffix_size, kv, m);
                }
                b.db.max_suffix_size = m;
                assert(builder_model(*b) =~= DbModel { suffix_hash: push_entry(m0.suffix_hash, kv, av), ..m0 });
                true
            },
        }
    } else if section_is(sec, "STEMS") {
        match read_entry(line, true) {
            None => false,
            Some((k, a)) => {
                let ghost kv = k@;
                let ghost av = a@;
                push_analysis(&mut b.db.stem_hash, k, a);
                assert(builder_model(*b) =~= DbModel { stem_hash: push_entry(m0.stem_hash, kv, av), ..m0 });
                true
            },
        }
    } else if section_is(sec, "TABLE AB") {
        match read_pair(line) {
            None => false,
            Some((x, y)) => {
                let ghost (xv, yv) = (x@, y@);
                b.ab.add(x, y);
                assert(builder_model(*b) =~= DbModel { prefix_stem_compat: add_pair(m0.prefix_stem_compat, xv, yv), ..m0 });
                true
            },
        }
    } else if section_is(sec, "TABLE BC") {
        match read_pair(line) {
            None => false,
            Some((x, y)) => {
                let ghost (xv, yv) = (x@, y@);
                b.bc.add(x, y);
                assert(builder_model(*b) =~= DbModel { stem_suffix_compat: add_pair(m0.stem_suffix_compat, xv, yv), ..m0 });
                true
            },
        }
    } else if section_is(sec, "TABLE AC") {
        match read_pair(line) {
            None => false,
            Some((x, y)) => {
                let ghost (xv, yv) = (x@, y@);
                b.ac.add(x, y);
                assert(builder_model(*b) =~= DbModel { prefix_suffix_compat: add_pair(m0.prefix_suffix_compat, xv, yv), ..m0 });
                true
            },
        }
    } else {
        true
    }
}

/// A line of the database text that cannot be read.
#[derive(Clone, Copy, Debug, PartialEq, Eq)]
pub struct DbError {
    /// The index of the line, counting from 0.
    pub line: usize,
}

impl MorphologyDB {
    /// Reads a database from its text, section by section: `DEFINES`,
    /// `ORDER`, `TOKENIZATIONS`, `STEMBACKOFF`, `DEFAULTS`, `PREFIXES`,
    /// `SUFFIXES`, `STEMS` and the compatibility tables `TABLE AB`, `TABLE BC`
    /// and `TABLE AC`, each opened by a header `###NAME###`. The longest
    /// prefix and suffix are measured in bytes.
    fn read_text(text: &str) -> (r: Result<MorphologyDB, DbError>)
        requires
            headers_ok(text_lines(text@)),
        ensures
            match text_model(text@) {
                Err(i) => r is Err && r->Err_0.line == i,
                Ok(m) => r is Ok && db_model(r->Ok_0) == m
                    && longest_key(r->Ok_0.prefix_hash@.dom(), r->Ok_0.max_prefix_size)
                    && longest_key(r->Ok_0.suffix_hash@.dom(), r->Ok_0.max_suffix_size)
                    && unread_parts_empty(r->Ok_0),
            },
    {
        let cs = chars_of(text);
        let lines = lines_of(cs.as_slice());
        let ghost ls = text_lines(text@);
        let mut b = Builder::new();
        let mut sec: Vec<char> = Vec::new();
        assert(sec@ =~= Seq::<char>::empty());
        let mut i: usize = 0;
        while i < lines.len()
            invariant
                vec_views(lines@) == ls,
                ls == text_lines(text@),
                headers_ok(ls),
                builder_wf(b),
                i <= lines@.len(),
                text_model(text@) == parse_from(ls, i as int, builder_model(b), sec@),
            decreases lines@.len() - i,
        {
            let line = &lines[i];
            assert(line@ == ls[i as int]);
            if line_is_header(line.as_slice()) {
                sec = section_of(line.as_slice());
            } else {
                if !apply_line(&mut b, sec.as_slice(), line.as_slice()) {
                    return Err(DbError { line: i });
                }
            }
            i += 1;
        }
        Ok(b.finish())
    }

    /// Reads a database from its text and adds the supplementary stems:
    /// first those of the words written with the article and a final teh
    /// marbuta, then those with the article, then those with a final teh
    /// marbuta. Fails with the index of the first line that cannot be read.
    pub fn load(text: &str, al_t_words: &[&str], al_words: &[&str], t_words: &[&str]) -> (r: Result<MorphologyDB, DbError>)
        requires
            headers_ok(text_lines(text@)),
            words_cut_ok(StemCut::ArticleAndTeh, str_views(al_t_words@)),
            words_cut_ok(StemCut::Article, str_views(al_words@)),
            words_cut_ok(StemCut::Teh, str_views(t_words@)),
        ensures
            match text_model(text@) {
                Err(i) => r is Err && r->Err_0.line == i,
                Ok(m) => r is Ok && db_model(r->Ok_0) == DbModel {
                    stem_hash: supplemented(m.stem_hash, str_views(al_t_words@), str_views(al_words@), str_views(t_words@)),
                    ..m
                } && longest_key(r->Ok_0.prefix_hash@.dom(), r->Ok_0.max_prefix_size)
                    && longest_key(r->Ok_0.suffix_hash@.dom(), r->Ok_0.max_suffix_size)
                    && unread_parts_empty(r->Ok_0),
            },
    {
        match Self::read_text(text) {
            Err(e) => Err(e),
            Ok(mut db) => {
                db.inject_supplementary_stems(al_t_words, al_words, t_words);
                Ok(db)
            },
        }
    }

    /// Adds a stem of category `Nall` for each supplementary word, cut out
    /// of the word's normalized form: after the article `ال` and before the
    /// final `ه` for `al_t_words`, after the article for `al_words`, before
    /// the final `ه` for `t_words` (in bytes: 4 from the start, 2 from the
    /// end). Words no longer than what would be cut are passed over.
    pub fn inject_supplementary_stems(&mut self, al_t_words: &[&str], al_words: &[&str], t_words: &[&str])
        requires
            words_cut_ok(StemCut::ArticleAndTeh, str_views(al_t_words@)),
            words_cut_ok(StemCut::Article, str_views(al_words@)),
            words_cut_ok(StemCut::Teh, str_views(t_words@)),
        ensures
            entry_views(final(self).stem_hash@) == supplemented(
                entry_views(old(self).stem_hash@),
                str_views(al_t_words@),
                str_views(al_words@),
                str_views(t_words@),
            ),
            *final(self) == (MorphologyDB { stem_hash: final(self).stem_hash, ..*old(self) }),
    {
        inject_words(&mut self.stem_hash, al_t_words, StemCut::ArticleAndTeh);
        inject_words(&mut self.stem_hash, al_words, StemCut::Article);
        inject_words(&mut self.stem_hash, t_words, StemCut::Teh);
    }
}

// ---------------------------------------------------------------------------
// Supplementary stems

/// Where a supplementary word is cut.
#[derive(Clone, Copy, Debug, PartialEq, Eq)]
pub enum StemCut {
    /// After the article and before a final haa.
    ArticleAndTeh,
    /// After the article.
    Article,
    /// Before a final haa.
    Teh,
}

/// Some prefix of `s` takes exactly `n` bytes.
pub open spec fn byte_boundary(s: Seq<char>, n: int) -> bool {
    exists|i: int| 0 <= i <= s.len() && utf8_len(s.take(i)) == n
}

/// The number of characters of `s` that take the first `n` bytes.
pub open spec fn char_at_byte(s: Seq<char>, n: int) -> int {
    choose|i: int| 0 <= i <= s.len() && utf8_len(s.take(i)) == n
}

/// The stem cut out of a supplementary word's normalized form, `None` when
/// the form is no longer than what would be cut.
pub open spec fn cut_stem(k: StemCut, w: Seq<char>) -> Option<Seq<char>> {
    let n = normalize(w);
    let b = utf8_len(n) as int;
    match k {
        StemCut::ArticleAndTeh => if b <= 6 {
            None
        } else {
            Some(n.subrange(char_at_byte(n, 4), char_at_byte(n, b - 2)))
        },
        StemCut::Article => if b <= 4 {
            None
        } else {
            Some(n.skip(char_at_byte(n, 4)))
        },
        StemCut::Teh => if b <= 2 {
            None
        } else {
            Some(n.take(char_at_byte(n, b - 2)))
        },
    }
}

/// A supplementary word's normalized form can be cut where its kind says:
/// the cuts fall between characters.
pub open spec fn cut_ok(k: StemCut, w: Seq<char>) -> bool {
    let n = normalize(w);
    let b = utf8_len(n) as int;
    match k {
        StemCut::ArticleAndTeh => b <= 6 || (byte_boundary(n, 4) && byte_boundary(n, b - 2)),
        StemCut::Article => b <= 4 || byte_boundary(n, 4),
        StemCut::Teh => b <= 2 || byte_boundary(n, b - 2),
    }
}

/// Every word of the list can be cut.
pub open spec fn words_cut_ok(k: StemCut, ws: Seq<Seq<char>>) -> bool {
    forall|i: int| 0 <= i < ws.len() ==> cut_ok(k, #[trigger] ws[i])
}

/// The analysis of a supplementary stem: a noun of category `Nall`.
pub open spec fn nall_analysis(s: Seq<char>) -> AnalysisView {
    AnalysisView {
        category: "Nall"@,
        source: "lex"@,
        diac: s,
        lex: s,
        bw: s + "/NOUN"@,
        gloss: "NO_GLOSS"@,
        catib6: "NOM"@,
        ud: "NOUN"@,
        per: "na"@,
        asp: "na"@,
        vox: "na"@,
        mod_: "na"@,
        gen_: "-"@,
        num: "-"@,
        stt: "i"@,
        cas: "u"@,
        rat: "i"@,
        form_gen: "m"@,
        form_num: "s"@,
        pos: "noun"@,
        prc3: "0"@,
        prc2: "0"@,
        prc1: "0"@,
        prc0: "0"@,
        enc0: "0"@,
        d1seg: s,
        d2seg: s,
        d3seg: s,
        atbseg: s,
        d1tok: s,
        d2tok: s,
        d3tok: s,
        atbtok: s,
        bwtok: s,
        pos_logprob: "-99"@,
        lex_logprob: "-99"@,
        pos_lex_logprob: "-99"@,
        ..empty_analysis()
    }
}

/// The stems map with the stems of the words added in order.
pub open spec fn inject_stems(h: Map<Seq<char>, Seq<AnalysisView>>, ws: Seq<Seq<char>>, k: StemCut) -> Map<Seq<char>, Seq<AnalysisView>>
    decreases ws.len(),
{
    if ws.len() == 0 {
        h
    } else {
        let h2 = inject_stems(h, ws.drop_last(), k);
        match cut_stem(k, ws.last()) {
            None => h2,
            Some(st) => push_entry(h2, st, nall_analysis(st)),
        }
    }
}

/// The stems map with the stems of the three lists of supplementary words added.
pub open spec fn supplemented(
    h: Map<Seq<char>, Seq<AnalysisView>>,
    al_t: Seq<Seq<char>>,
    al: Seq<Seq<char>>,
    t: Seq<Seq<char>>,
) -> Map<Seq<char>, Seq<AnalysisView>> {
    inject_stems(inject_stems(inject_stems(h, al_t, StemCut::ArticleAndTeh), al, StemCut::Article), t, StemCut::Teh)
}

/// The analysis of a supplementary stem.
fn make_nall_stem(surface: &str) -> (a: ScoredAnalysis)
    ensures
        a@ == nall_analysis(surface@),
{
    let mut a = ScoredAnalysis::default();
    a.category = "Nall".to_owned();
    a.diac = surface.to_owned();
    a.lex = surface.to_owned();
    let mut bw = chars_of(surface);
    let tail = chars_of("/NOUN");
    crate::chars::extend_chars(&mut bw, tail.as_slice());
    a.bw = string_of(bw.as_slice());
    a.gloss = "NO_GLOSS".to_owned();
    a.pos = "noun".to_owned();
    a.per = "na".to_owned();
    a.asp = "na".to_owned();
    a.vox = "na".to_owned();
    a.mod_ = "na".to_owned();
    a.gen_ = "-".to_owned();
    a.num = "-".to_owned();
    a.stt = "i".to_owned();
    a.cas = "u".to_owned();
    a.rat = "i".to_owned();
    a.enc0 = "0".to_owned();
    a.prc0 = "0".to_owned();
    a.prc1 = "0".to_owned();
    a.prc2 = "0".to_owned();
    a.prc3 = "0".to_owned();
    a.form_gen = "m".to_owned();
    a.form_num = "s".to_owned();
    a.source = "lex".to_owned();
    a.catib6 = "NOM".to_owned();
    a.ud = "NOUN".to_owned();
    a.set_tok_all(surface);
    a.set_logprobs_all("-99");
    assert(a@ =~= nall_analysis(surface@));
    a
}

/// The number of bytes of a prefix grows with its length.
proof fn lemma_utf8_len_take_strict(s: Seq<char>, j: int, k: int)
    requires
        0 <= j < k <= s.len(),
    ensures
        utf8_len(s.take(j)) < utf8_len(s.take(k)),
{
    lemma_utf8_len_take_mono(s, j, k - 1);
    lemma_utf8_len_take_step(s, k - 1);
}

/// Whether `s` takes more than `cap` bytes.
fn bytes_exceed(s: &[char], cap: usize) -> (r: bool)
    requires
        cap <= 1000,
    ensures
        r == (utf8_len(s@) > cap),
{
    let mut acc: usize = 0;
    let mut i: usize = 0;
    while i < s.len() && acc <= cap
        invariant
            i <= s@.len(),
            acc == utf8_len(s@.take(i as int)),
            acc <= cap + 4,
            cap <= 1000,
        decreases s@.len() - i,
    {
        proof {
            lemma_utf8_len_take_step(s@, i as int);
        }
        acc = acc + char_width(s[i]);
        i += 1;
    }
    proof {
        lemma_utf8_len_take_mono(s@, i as int, s@.len() as int);
        assert(s@.take(s@.len() as int) =~= s@);
    }
    acc > cap
}

/// The number of characters of `s` that take its first `n` bytes.
fn front_cut(s: &[char], n: usize) -> (i: usize)
    requires
        n <= 1000,
        byte_boundary(s@, n as int),
    ensures
        i == char_at_byte(s@, n as int),
        0 <= i <= s@.len(),
        utf8_len(s@.take(i as int)) == n,
{
    let ghost w = choose|w: int| 0 <= w <= s@.len() && utf8_len(s@.take(w)) == n;
    let mut acc: usize = 0;
    let mut i: usize = 0;
    while acc < n
        invariant
            0 <= w <= s@.len(),
            utf8_len(s@.take(w)) == n,
            i <= w,
            acc == utf8_len(s@.take(i as int)),
            n <= 1000,
        decreases w - i,
    {
        assert(i < w);
        proof {
            lemma_utf8_len_take_step(s@, i as int);
            lemma_utf8_len_take_mono(s@, i + 1, w);
        }
        acc = acc + char_width(s[i]);
        i += 1;
    }
    proof {
        if i < w {
            lemma_utf8_len_take_strict(s@, i as int, w);
        }
        let c = char_at_byte(s@, n as int);
        if c < i {
            lemma_utf8_len_take_strict(s@, c, i as int);
        } else if c > i {
            lemma_utf8_len_take_strict(s@, i as int, c);
        }
    }
    i
}

/// The number of characters of `s` before its last `n` bytes.
fn back_cut(s: &[char], n: usize) -> (j: usize)
    requires
        n <= 1000,
        byte_boundary(s@, utf8_len(s@) - n),
    ensures
        j == char_at_byte(s@, utf8_len(s@) - n),
        0 <= j <= s@.len(),
        utf8_len(s@.take(j as int)) == utf8_len(s@) - n,
{
    let ghost total = utf8_len(s@);
    let ghost w = choose|w: int| 0 <= w <= s@.len() && utf8_len(s@.take(w)) == total - n;
    assert(s@.take(s@.len() as int) =~= s@);
    let mut acc: usize = 0;
    let mut j: usize = s.len();
    while acc < n
        invariant
            total == utf8_len(s@),
            0 <= w <= s@.len(),
            utf8_len(s@.take(w)) == total - n,
            w <= j <= s@.len(),
            acc == total - utf8_len(s@.take(j as int)),
            n <= 1000,
        decreases j - w,
    {
        assert(j > w);
        proof {
            lemma_utf8_len_take_step(s@, j - 1);
            lemma_utf8_len_take_mono(s@, w, j - 1);
        }
        acc = acc + char_width(s[j - 1]);
        j -= 1;
    }
    proof {
        if j > w {
            lemma_utf8_len_take_strict(s@, w, j as int);
        }
        let c = char_at_byte(s@, total - n);
        if c < j {
            lemma_utf8_len_take_strict(s@, c, j as int);
        } else if c > j {
            lemma_utf8_len_take_strict(s@, j as int, c);
        }
    }
    j
}

/// The stem cut out of a supplementary word.
fn cut_word(k: StemCut, word: &str) -> (r: Option<String>)
    requires
        cut_ok(k, word@),
    ensures
        match cut_stem(k, word@) {
            None => r is None,
            Some(st) => r is Some && r->Some_0@ == st,
        },
{
    let norm = normalize_ar(word);
    let n = chars_of(norm.as_str());
    match k {
        StemCut::ArticleAndTeh => {
            if !bytes_exceed(n.as_slice(), 6) {
                return None;
            }
            let i = front_cut(n.as_slice(), 4);
            let j = back_cut(n.as_slice(), 2);
            proof {
                lemma_utf8_len_take_mono(n@, i as int, n@.len() as int);
                if j < i {
                    lemma_utf8_len_take_strict(n@, j as int, i as int);
                }
            }
            Some(string_of(crate::chars::chars_slice(n.as_slice(), i, j).as_slice()))
        },
        StemCut::Article => {
            if !bytes_exceed(n.as_slice(), 4) {
                return None;
            }
            let i = front_cut(n.as_slice(), 4);
            Some(string_of(crate::chars::chars_slice(n.as_slice(), i, n.len()).as_slice()))
        },
        StemCut::Teh => {
            if !bytes_exceed(n.as_slice(), 2) {
                return None;
            }
            let j = back_cut(n.as_slice(), 2);
            Some(string_of(crate::chars::chars_slice(n.as_slice(), 0, j).as_slice()))
        },
    }
}

/// Adds the stems of a list of supplementary words.
fn inject_words(h: &mut StringHashMap<Vec<ScoredAnalysis>>, words: &[&str], k: StemCut)
    requires
        words_cut_ok(k, str_views(words@)),
    ensures
        entry_views(final(h)@) == inject_stems(entry_views(old(h)@), str_views(words@), k),
{
    let ghost ws = str_views(words@);
    let mut i: usize = 0;
    assert(ws.take(0) =~= Seq::<Seq<char>>::empty());
    while i < words.len()
        invariant
            ws == str_views(words@),
            words_cut_ok(k, ws),
            i <= words@.len(),
            entry_views(h@) == inject_stems(entry_views(old(h)@), ws.take(i as int), k),
        decreases words@.len() - i,
    {
        assert(ws.take(i + 1).drop_last() =~= ws.take(i as int));
        assert(ws[i as int] == words@[i as int]@);
        assert(cut_ok(k, ws[i as int]));
        match cut_word(k, words[i]) {
            None => {},
            Some(st) => {
                let a = make_nall_stem(st.as_str());
                push_analysis(h, st, a);
            },
        }
        i += 1;
    }
    assert(ws.take(words@.len() as int) =~= ws);
}

} // verus!
