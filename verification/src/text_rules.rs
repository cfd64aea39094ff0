//! The rewriting rules on Arabic text that the utilities are made of: rules
//! that map each character to a few characters, rules that rewrite a pattern
//! found while scanning left to right, and decimal and hexadecimal numerals.
use vstd::prelude::*;

use crate::chars::{chars_occur_at, extend_chars, occurs_at};

verus! {

/// The short vowels, tanwin, shadda, sukun and the superscript alef.
pub open spec fn is_diac(c: char) -> bool {
    ('\u{064B}' <= c && c <= '\u{0652}') || c == '\u{0670}'
}

/// What dediacritization removes: the diacritics and the alef wasla.
pub open spec fn is_dediac_mark(c: char) -> bool {
    is_diac(c) || c == '\u{0671}'
}

/// The alef forms that normalization turns into the bare alef.
pub open spec fn is_alef_variant(c: char) -> bool {
    c == '\u{0625}' || c == '\u{0623}' || c == '\u{0671}' || c == '\u{0622}'
}

/// A rule that rewrites each character on its own.
#[derive(Clone, Copy)]
pub enum CharRule {
    DropMarks,
    UnifyAlef,
    MaksuraToYa,
    TehMarbutaToHa,
    WaslaToAlef,
    DropPlus,
    PlusToUnderscore,
    MinusToUnderscore,
    DropTatweel,
}

/// What a character rule makes of one character.
pub open spec fn rule_image(r: CharRule, c: char) -> Seq<char> {
    match r {
        CharRule::DropMarks => if is_dediac_mark(c) { seq![] } else { seq![c] },
        CharRule::UnifyAlef => if is_alef_variant(c) { seq!['\u{0627}'] } else { seq![c] },
        CharRule::MaksuraToYa => if c == '\u{0649}' { seq!['\u{064A}'] } else { seq![c] },
        CharRule::TehMarbutaToHa => if c == '\u{0629}' { seq!['\u{0647}'] } else { seq![c] },
        CharRule::WaslaToAlef => if c == '\u{0671}' { seq!['\u{0627}'] } else { seq![c] },
        CharRule::DropPlus => if c == '+' { seq![] } else { seq![c] },
        CharRule::PlusToUnderscore => if c == '+' { seq!['_'] } else { seq![c] },
        CharRule::MinusToUnderscore => if c == '-' { seq!['_'] } else { seq![c] },
        CharRule::DropTatweel => if c == '\u{0640}' { seq![] } else { seq![c] },
    }
}

/// The text made by applying a character rule to every character of `s`.
pub open spec fn apply_rule(r: CharRule, s: Seq<char>) -> Seq<char>
    decreases s.len(),
{
    if s.len() == 0 {
        seq![]
    } else {
        apply_rule(r, s.drop_last()) + rule_image(r, s.last())
    }
}

pub proof fn lemma_apply_rule_take(r: CharRule, s: Seq<char>, i: int)
    requires
        0 <= i < s.len(),
    ensures
        apply_rule(r, s.take(i + 1)) == apply_rule(r, s.take(i)) + rule_image(r, s[i]),
{
    assert(s.take(i + 1).drop_last() =~= s.take(i));
}

pub proof fn lemma_apply_rule_concat(r: CharRule, a: Seq<char>, b: Seq<char>)
    ensures
        apply_rule(r, a + b) == apply_rule(r, a) + apply_rule(r, b),
    decreases b.len(),
{
    if b.len() == 0 {
        assert(a + b =~= a);
        assert(apply_rule(r, a) + apply_rule(r, b) =~= apply_rule(r, a));
    } else {
        assert((a + b).drop_last() =~= a + b.drop_last());
        lemma_apply_rule_concat(r, a, b.drop_last());
        assert(apply_rule(r, a) + apply_rule(r, b) =~= apply_rule(r, a) + apply_rule(r, b.drop_last())
            + rule_image(r, b.last()));
    }
}

pub proof fn lemma_apply_rule_single(r: CharRule, c: char)
    ensures
        apply_rule(r, seq![c]) == rule_image(r, c),
{
    assert(seq![c].drop_last() =~= Seq::<char>::empty());
    assert(apply_rule(r, Seq::<char>::empty()) =~= Seq::<char>::empty());
    assert(Seq::<char>::empty() + rule_image(r, c) =~= rule_image(r, c));
}

/// Applying a character rule a second time changes nothing.
pub proof fn lemma_apply_rule_idempotent(r: CharRule, s: Seq<char>)
    ensures
        apply_rule(r, apply_rule(r, s)) == apply_rule(r, s),
    decreases s.len(),
{
    if s.len() > 0 {
        let img = rule_image(r, s.last());
        lemma_apply_rule_idempotent(r, s.drop_last());
        lemma_apply_rule_concat(r, apply_rule(r, s.drop_last()), img);
        if img.len() == 1 {
            assert(img =~= seq![img[0]]);
            lemma_apply_rule_single(r, img[0]);
        } else {
            assert(img =~= Seq::<char>::empty());
            assert(apply_rule(r, img) =~= Seq::<char>::empty());
        }
    }
}

/// What a character rule makes of one character.
pub fn rule_char(r: CharRule, c: char, out: &mut Vec<char>)
    ensures
        final(out)@ == old(out)@ + rule_image(r, c),
{
    let hit = match r {
        CharRule::DropMarks => ('\u{064B}' <= c && c <= '\u{0652}') || c == '\u{0670}' || c == '\u{0671}',
        CharRule::UnifyAlef => c == '\u{0625}' || c == '\u{0623}' || c == '\u{0671}' || c == '\u{0622}',
        CharRule::MaksuraToYa => c == '\u{0649}',
        CharRule::TehMarbutaToHa => c == '\u{0629}',
        CharRule::WaslaToAlef => c == '\u{0671}',
        CharRule::DropPlus => c == '+',
        CharRule::PlusToUnderscore => c == '+',
        CharRule::MinusToUnderscore => c == '-',
        CharRule::DropTatweel => c == '\u{0640}',
    };
    if !hit {
        out.push(c);
        assert(old(out)@ + seq![c] =~= old(out)@.push(c));
    } else {
        match r {
            CharRule::DropMarks => {
                assert(old(out)@ + seq![] =~= old(out)@);
            },
            CharRule::DropPlus => {
                assert(old(out)@ + seq![] =~= old(out)@);
            },
            CharRule::DropTatweel => {
                assert(old(out)@ + seq![] =~= old(out)@);
            },
            CharRule::UnifyAlef => {
                out.push('\u{0627}');
                assert(old(out)@ + seq!['\u{0627}'] =~= old(out)@.push('\u{0627}'));
            },
            CharRule::WaslaToAlef => {
                out.push('\u{0627}');
                assert(old(out)@ + seq!['\u{0627}'] =~= old(out)@.push('\u{0627}'));
            },
            CharRule::MaksuraToYa => {
                out.push('\u{064A}');
                assert(old(out)@ + seq!['\u{064A}'] =~= old(out)@.push('\u{064A}'));
            },
            CharRule::TehMarbutaToHa => {
                out.push('\u{0647}');
                assert(old(out)@ + seq!['\u{0647}'] =~= old(out)@.push('\u{0647}'));
            },
            CharRule::PlusToUnderscore => {
                out.push('_');
                assert(old(out)@ + seq!['_'] =~= old(out)@.push('_'));
            },
            CharRule::MinusToUnderscore => {
                out.push('_');
                assert(old(out)@ + seq!['_'] =~= old(out)@.push('_'));
            },
        }
    }
}

/// Applies a character rule to every character of `s`.
pub fn apply_char_rule(r: CharRule, s: &[char]) -> (out: Vec<char>)
    ensures
        out@ == apply_rule(r, s@),
{
    let mut out: Vec<char> = Vec::new();
    let mut i: usize = 0;
    while i < s.len()
        invariant
            i <= s@.len(),
            out@ == apply_rule(r, s@.take(i as int)),
        decreases s@.len() - i,
    {
        proof {
            lemma_apply_rule_take(r, s@, i as int);
        }
        rule_char(r, s[i], &mut out);
        i += 1;
    }
    assert(s@.take(s@.len() as int) =~= s@);
    out
}

// ---------------------------------------------------------------------------
// Literal replacement, scanning left to right

/// `t` from position `i` on, with each occurrence of the non-empty pattern
/// `p` found scanning left to right replaced by `rep`.
pub open spec fn literal_scan(t: Seq<char>, p: Seq<char>, rep: Seq<char>, i: int) -> Seq<char>
    decreases t.len() - i,
{
    if i < 0 || i >= t.len() {
        seq![]
    } else if p.len() > 0 && occurs_at(t, p, i) {
        rep + literal_scan(t, p, rep, i + p.len())
    } else {
        seq![t[i]] + literal_scan(t, p, rep, i + 1)
    }
}

/// `t` with each occurrence of the non-empty pattern `p`, found scanning left
/// to right, replaced by `rep`.
pub open spec fn replace_literal(t: Seq<char>, p: Seq<char>, rep: Seq<char>) -> Seq<char> {
    literal_scan(t, p, rep, 0)
}

/// Replaces each occurrence of `p`, found scanning left to right, by `rep`.
pub fn replace_literal_chars(t: &[char], p: &[char], rep: &[char]) -> (out: Vec<char>)
    requires
        p@.len() > 0,
    ensures
        out@ == replace_literal(t@, p@, rep@),
{
    let mut out: Vec<char> = Vec::new();
    let mut i: usize = 0;
    while i < t.len()
        invariant
            p@.len() > 0,
            i <= t@.len(),
            out@ + literal_scan(t@, p@, rep@, i as int) == literal_scan(t@, p@, rep@, 0),
        decreases t@.len() - i,
    {
        let ghost before = out@;
        if chars_occur_at(t, p, i) {
            extend_chars(&mut out, rep);
            assert(out@ + literal_scan(t@, p@, rep@, i + p@.len()) =~= before + (rep@
                + literal_scan(t@, p@, rep@, i + p@.len())));
            i += p.len();
        } else {
            let c = t[i];
            out.push(c);
            assert(out@ + literal_scan(t@, p@, rep@, i + 1) =~= before + (seq![c] + literal_scan(
                t@,
                p@,
                rep@,
                i + 1,
            )));
            i += 1;
        }
    }
    out
}


pub proof fn lemma_literal_scan_identity(t: Seq<char>, p: Seq<char>, i: int)
    requires
        0 <= i <= t.len(),
    ensures
        literal_scan(t, p, p, i) == t.skip(i),
    decreases t.len() - i,
{
    if i >= t.len() {
        assert(t.skip(i) =~= Seq::<char>::empty());
    } else if p.len() > 0 && occurs_at(t, p, i) {
        lemma_literal_scan_identity(t, p, i + p.len());
        assert(p + t.skip(i + p.len()) =~= t.skip(i));
    } else {
        lemma_literal_scan_identity(t, p, i + 1);
        assert(seq![t[i]] + t.skip(i + 1) =~= t.skip(i));
    }
}

/// Replacing a pattern by itself leaves a text unchanged.
pub proof fn lemma_replace_literal_identity(t: Seq<char>, p: Seq<char>)
    ensures
        replace_literal(t, p, p) == t,
{
    lemma_literal_scan_identity(t, p, 0);
    assert(t.skip(0) =~= t);
}

// ---------------------------------------------------------------------------
// The diacritic rewriting rules of the morphology database

/// The letters before which the database marks a doubled consonant by `#`.
pub open spec fn is_sun_letter(c: char) -> bool {
    ||| ('\u{062A}' <= c && c <= '\u{062B}')
    ||| ('\u{062F}' <= c && c <= '\u{0638}')
    ||| c == '\u{0644}'
    ||| c == '\u{0646}'
}

/// Teh marbuta or teh.
pub open spec fn is_teh(c: char) -> bool {
    c == '\u{0629}' || c == '\u{062A}'
}

/// The first position at or after `j` that does not hold `+` (or the end).
pub open spec fn plus_run_end(t: Seq<char>, j: int) -> int
    decreases t.len() - j,
{
    if j < 0 || j >= t.len() || t[j] != '+' {
        j
    } else {
        plus_run_end(t, j + 1)
    }
}

pub proof fn lemma_plus_run_end(t: Seq<char>, j: int)
    requires
        0 <= j <= t.len(),
    ensures
        j <= plus_run_end(t, j) <= t.len(),
        forall|k: int| j <= k < plus_run_end(t, j) ==> t[k] == '+',
        plus_run_end(t, j) < t.len() ==> t[plus_run_end(t, j)] != '+',
    decreases t.len() - j,
{
    if j < t.len() && t[j] == '+' {
        lemma_plus_run_end(t, j + 1);
    }
}

/// The three rewriting rules written in the database's diacritized forms.
/// Each pattern is made of literal characters, one character set and an
/// optional or repeated `+`, so what replacing its matches left to right
/// does is stated below in a few lines and proved; the phonetic rules, with
/// groups, anchors and alternations, are left to the regex crate.
#[derive(Clone, Copy)]
pub enum DiacRule {
    /// `#`, any `+`, then a sun letter: the letter followed by a shadda.
    ShaddaMark,
    /// `#` and any `+` after it are dropped.
    DropMark,
    /// Alef, an optional `+`, a fatha, then teh or teh marbuta: alef and that letter.
    AlefFatha,
}

/// The match of a rule at position `i` of `t`, if any: where it ends and what
/// replaces it.
pub open spec fn diac_rule_match(r: DiacRule, t: Seq<char>, i: int) -> Option<(int, Seq<char>)> {
    if i < 0 || i >= t.len() {
        None
    } else {
        match r {
            DiacRule::ShaddaMark => {
                let e = plus_run_end(t, i + 1);
                if t[i] == '#' && e < t.len() && is_sun_letter(t[e]) {
                    Some((e + 1, seq![t[e], '\u{0651}']))
                } else {
                    None
                }
            },
            DiacRule::DropMark => {
                if t[i] == '#' {
                    Some((plus_run_end(t, i + 1), seq![]))
                } else {
                    None
                }
            },
            DiacRule::AlefFatha => {
                if t[i] != '\u{0627}' {
                    None
                } else if i + 3 < t.len() && t[i + 1] == '+' && t[i + 2] == '\u{064E}' && is_teh(t[i + 3]) {
                    Some((i + 4, seq!['\u{0627}', t[i + 3]]))
                } else if i + 2 < t.len() && t[i + 1] == '\u{064E}' && is_teh(t[i + 2]) {
                    Some((i + 3, seq!['\u{0627}', t[i + 2]]))
                } else {
                    None
                }
            },
        }
    }
}

/// `t` from position `i` on, with every match of the rule found scanning left
/// to right replaced.
pub open spec fn diac_scan(r: DiacRule, t: Seq<char>, i: int) -> Seq<char>
    decreases t.len() - i,
{
    if i < 0 || i >= t.len() {
        seq![]
    } else {
        match diac_rule_match(r, t, i) {
            Some((e, rep)) => if i < e <= t.len() {
                rep + diac_scan(r, t, e)
            } else {
                seq![]
            },
            None => seq![t[i]] + diac_scan(r, t, i + 1),
        }
    }
}

/// `t` with every match of the rule, found scanning left to right, replaced.
pub open spec fn apply_diac_rule(r: DiacRule, t: Seq<char>) -> Seq<char> {
    diac_scan(r, t, 0)
}

pub proof fn lemma_diac_match_bounds(r: DiacRule, t: Seq<char>, i: int)
    requires
        0 <= i < t.len(),
    ensures
        diac_rule_match(r, t, i) matches Some((e, rep)) ==> i < e <= t.len(),
{
    lemma_plus_run_end(t, i + 1);
}

/// The position after the run of `+` that starts at `j`.
fn skip_plus(t: &[char], j: usize) -> (e: usize)
    requires
        j <= t@.len(),
    ensures
        e == plus_run_end(t@, j as int),
{
    let mut k = j;
    while k < t.len() && t[k] == '+'
        invariant
            j <= k <= t@.len(),
            plus_run_end(t@, j as int) == plus_run_end(t@, k as int),
        decreases t@.len() - k,
    {
        k += 1;
    }
    k
}

/// The match of a rule at position `i`, if any.
fn diac_match_at(r: DiacRule, t: &[char], i: usize) -> (m: Option<(usize, Vec<char>)>)
    requires
        i < t@.len(),
    ensures
        match m {
            Some((e, rep)) => diac_rule_match(r, t@, i as int) == Some((e as int, rep@)),
            None => diac_rule_match(r, t@, i as int) is None,
        },
{
    let n = t.len();
    match r {
        DiacRule::ShaddaMark => {
            if t[i] != '#' {
                return None;
            }
            let e = skip_plus(t, i + 1);
            proof {
                lemma_plus_run_end(t@, i + 1);
            }
            if e < n {
                let c = t[e];
                if ('\u{062A}' <= c && c <= '\u{062B}') || ('\u{062F}' <= c && c <= '\u{0638}') || c
                    == '\u{0644}' || c == '\u{0646}' {
                    let rep = vec![c, '\u{0651}'];
                    assert(rep@ =~= seq![c, '\u{0651}']);
                    return Some((e + 1, rep));
                }
            }
            None
        },
        DiacRule::DropMark => {
            if t[i] != '#' {
                return None;
            }
            proof {
                lemma_plus_run_end(t@, i + 1);
            }
            let e = skip_plus(t, i + 1);
            let rep: Vec<char> = Vec::new();
            assert(rep@ =~= Seq::<char>::empty());
            Some((e, rep))
        },
        DiacRule::AlefFatha => {
            if t[i] != '\u{0627}' {
                return None;
            }
            if n - i > 3 && t[i + 1] == '+' && t[i + 2] == '\u{064E}' && (t[i + 3] == '\u{0629}'
                || t[i + 3] == '\u{062A}') {
                let rep = vec!['\u{0627}', t[i + 3]];
                assert(rep@ =~= seq!['\u{0627}', t@[i + 3]]);
                return Some((i + 4, rep));
            }
            if n - i > 2 && t[i + 1] == '\u{064E}' && (t[i + 2] == '\u{0629}' || t[i + 2]
                == '\u{062A}') {
                let rep = vec!['\u{0627}', t[i + 2]];
                assert(rep@ =~= seq!['\u{0627}', t@[i + 2]]);
                return Some((i + 3, rep));
            }
            None
        },
    }
}

/// Replaces every match of the rule, found scanning left to right.
pub fn apply_diac_rule_chars(r: DiacRule, t: &[char]) -> (out: Vec<char>)
    ensures
        out@ == apply_diac_rule(r, t@),
{
    let mut out: Vec<char> = Vec::new();
    let mut i: usize = 0;
    while i < t.len()
        invariant
            i <= t@.len(),
            out@ + diac_scan(r, t@, i as int) == diac_scan(r, t@, 0),
        decreases t@.len() - i,
    {
        let ghost before = out@;
        proof {
            lemma_diac_match_bounds(r, t@, i as int);
        }
        match diac_match_at(r, t, i) {
            Some((e, rep)) => {
                extend_chars(&mut out, &rep);
                assert(out@ + diac_scan(r, t@, e as int) =~= before + (rep@ + diac_scan(r, t@, e as int)));
                i = e;
            },
            None => {
                let c = t[i];
                out.push(c);
                assert(out@ + diac_scan(r, t@, i + 1) =~= before + (seq![c] + diac_scan(r, t@, i + 1)));
                i += 1;
            },
        }
    }
    assert(out@ + diac_scan(r, t@, i as int) =~= out@);
    out
}

// ---------------------------------------------------------------------------
// Collapsing runs of one character

/// `s` with every run of the character `c` collapsed to one `c`.
pub open spec fn dedup_spec(s: Seq<char>, c: char) -> Seq<char>
    decreases s.len(),
{
    if s.len() == 0 {
        seq![]
    } else if s.last() == c && s.len() >= 2 && s[s.len() - 2] == c {
        dedup_spec(s.drop_last(), c)
    } else {
        dedup_spec(s.drop_last(), c).push(s.last())
    }
}

pub proof fn lemma_dedup_take(s: Seq<char>, c: char, i: int)
    requires
        0 <= i < s.len(),
    ensures
        dedup_spec(s.take(i + 1), c) == if s[i] == c && i >= 1 && s[i - 1] == c {
            dedup_spec(s.take(i), c)
        } else {
            dedup_spec(s.take(i), c).push(s[i])
        },
{
    assert(s.take(i + 1).drop_last() =~= s.take(i));
}

/// Collapses every run of `c` in `s` to one `c`.
pub fn dedup_chars(s: &[char], c: char) -> (out: Vec<char>)
    ensures
        out@ == dedup_spec(s@, c),
{
    let mut out: Vec<char> = Vec::new();
    let mut prev_was_c = false;
    let mut i: usize = 0;
    while i < s.len()
        invariant
            i <= s@.len(),
            out@ == dedup_spec(s@.take(i as int), c),
            prev_was_c == (i >= 1 && s@[i - 1] == c),
        decreases s@.len() - i,
    {
        proof {
            lemma_dedup_take(s@, c, i as int);
        }
        let ch = s[i];
        if ch == c {
            if !prev_was_c {
                out.push(ch);
            }
            prev_was_c = true;
        } else {
            prev_was_c = false;
            out.push(ch);
        }
        i += 1;
    }
    assert(s@.take(s@.len() as int) =~= s@);
    out
}

// ---------------------------------------------------------------------------
// Joining and splitting

/// The parts joined with `sep` between each two of them.
pub open spec fn join_seqs(parts: Seq<Seq<char>>, sep: Seq<char>) -> Seq<char>
    decreases parts.len(),
{
    if parts.len() == 0 {
        seq![]
    } else if parts.len() == 1 {
        parts[0]
    } else {
        join_seqs(parts.drop_last(), sep) + sep + parts.last()
    }
}

/// The concatenation of the parts.
pub open spec fn concat_seqs(parts: Seq<Seq<char>>) -> Seq<char>
    decreases parts.len(),
{
    if parts.len() == 0 {
        seq![]
    } else {
        concat_seqs(parts.drop_last()) + parts.last()
    }
}

pub proof fn lemma_concat_push(parts: Seq<Seq<char>>, x: Seq<char>)
    ensures
        concat_seqs(parts.push(x)) == concat_seqs(parts) + x,
{
    assert(parts.push(x).drop_last() =~= parts);
}

pub proof fn lemma_concat_append(a: Seq<Seq<char>>, b: Seq<Seq<char>>)
    ensures
        concat_seqs(a + b) == concat_seqs(a) + concat_seqs(b),
    decreases b.len(),
{
    if b.len() == 0 {
        assert(a + b =~= a);
        assert(concat_seqs(a) + concat_seqs(b) =~= concat_seqs(a));
    } else {
        assert((a + b).drop_last() =~= a + b.drop_last());
        lemma_concat_append(a, b.drop_last());
        assert(concat_seqs(a) + concat_seqs(b) =~= concat_seqs(a) + concat_seqs(b.drop_last())
            + b.last());
    }
}

pub proof fn lemma_join_push(parts: Seq<Seq<char>>, sep: Seq<char>, x: Seq<char>)
    ensures
        join_seqs(parts.push(x), sep) == if parts.len() == 0 {
            x
        } else {
            join_seqs(parts, sep) + sep + x
        },
{
    assert(parts.push(x).drop_last() =~= parts);
    if parts.len() == 0 {
        assert(parts.push(x)[0] == x);
    }
}

/// `s` cut at every occurrence of `c` (the pieces between them, empty ones
/// included; always at least one piece).
pub open spec fn split_on(s: Seq<char>, c: char) -> Seq<Seq<char>>
    decreases s.len(),
{
    if s.len() == 0 {
        seq![seq![]]
    } else {
        let prev = split_on(s.drop_last(), c);
        if s.last() == c {
            prev.push(seq![])
        } else {
            prev.update(prev.len() - 1, prev.last().push(s.last()))
        }
    }
}

pub proof fn lemma_split_on_nonempty(s: Seq<char>, c: char)
    ensures
        split_on(s, c).len() >= 1,
    decreases s.len(),
{
    if s.len() > 0 {
        lemma_split_on_nonempty(s.drop_last(), c);
    }
}

// ---------------------------------------------------------------------------
// Numerals

/// The decimal digit for `d < 10`.
pub open spec fn digit_char(d: nat) -> char {
    if d == 0 { '0' } else if d == 1 { '1' } else if d == 2 { '2' } else if d == 3 { '3' } else if d == 4 {
        '4'
    } else if d == 5 { '5' } else if d == 6 { '6' } else if d == 7 { '7' } else if d == 8 { '8' } else {
        '9'
    }
}

/// The hexadecimal digit, in lower case, for `d < 16`.
pub open spec fn hex_char(d: nat) -> char {
    if d < 10 {
        digit_char(d)
    } else if d == 10 { 'a' } else if d == 11 { 'b' } else if d == 12 { 'c' } else if d == 13 {
        'd'
    } else if d == 14 { 'e' } else {
        'f'
    }
}

/// The decimal numeral of `n`, without leading zeros.
pub open spec fn decimal(n: nat) -> Seq<char>
    decreases n,
{
    if n < 10 {
        seq![digit_char(n)]
    } else {
        decimal(n / 10).push(digit_char(n % 10))
    }
}

fn digit_of(d: u64) -> (c: char)
    requires
        d < 16,
    ensures
        c == hex_char(d as nat),
{
    if d == 0 { '0' } else if d == 1 { '1' } else if d == 2 { '2' } else if d == 3 { '3' } else if d == 4 {
        '4'
    } else if d == 5 { '5' } else if d == 6 { '6' } else if d == 7 { '7' } else if d == 8 { '8' } else if d
        == 9 { '9' } else if d == 10 { 'a' } else if d == 11 { 'b' } else if d == 12 { 'c' } else if d
        == 13 { 'd' } else if d == 14 { 'e' } else {
        'f'
    }
}

/// Appends the decimal numeral of `n`.
pub fn push_decimal(out: &mut Vec<char>, n: u64)
    ensures
        final(out)@ == old(out)@ + decimal(n as nat),
    decreases n,
{
    if n >= 10 {
        push_decimal(out, n / 10);
    }
    out.push(digit_of(n % 10));
    assert(n < 10 ==> decimal(n as nat) =~= seq![digit_char(n as nat)]);
}

/// The two lower-case hexadecimal digits of each byte, in order.
pub open spec fn hex_bytes(b: Seq<u8>) -> Seq<char>
    decreases b.len(),
{
    if b.len() == 0 {
        seq![]
    } else {
        hex_bytes(b.drop_last()) + seq![hex_char((b.last() / 16) as nat), hex_char((b.last() % 16) as nat)]
    }
}

/// The lower-case hexadecimal text of the bytes.
pub fn hex_of(b: &[u8]) -> (out: Vec<char>)
    ensures
        out@ == hex_bytes(b@),
{
    let mut out: Vec<char> = Vec::new();
    let mut i: usize = 0;
    while i < b.len()
        invariant
            i <= b@.len(),
            out@ == hex_bytes(b@.take(i as int)),
        decreases b@.len() - i,
    {
        let x = b[i] as u64;
        assert(b@.take(i + 1).drop_last() =~= b@.take(i as int));
        let ghost before = out@;
        out.push(digit_of(x / 16));
        out.push(digit_of(x % 16));
        assert(out@ =~= before + seq![hex_char((b@[i as int] / 16) as nat), hex_char((b@[i as int] % 16) as nat)]);
        i += 1;
    }
    assert(b@.take(b@.len() as int) =~= b@);
    out
}

} // verus!
