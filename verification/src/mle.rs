//! The counting part of scoring an analysis against the reference analysis
//! of the disambiguation model: which features agree, and how far apart
//! two texts are.
use vstd::prelude::*;

use crate::analyzer::{AnalysisView, ScoredAnalysis};
use crate::chars::str_eq;
use crate::utils::{lev, levenshtein};

verus! {

/// 1 when two feature values are the same, else 0.
pub open spec fn same(a: Seq<char>, b: Seq<char>) -> nat {
    if a == b {
        1
    } else {
        0
    }
}

/// The number of the scored features on which two analyses agree: aspect,
/// case, enclitic, gender, mood, number, person, part of speech, the four
/// proclitics, form number, form gender, state and voice.
pub open spec fn feature_agreement(a: AnalysisView, r: AnalysisView) -> nat {
    same(a.asp, r.asp) + same(a.cas, r.cas) + same(a.enc0, r.enc0) + same(a.gen_, r.gen_) + same(a.mod_, r.mod_)
        + same(a.num, r.num) + same(a.per, r.per) + same(a.pos, r.pos) + same(a.prc0, r.prc0) + same(
        a.prc1,
        r.prc1,
    ) + same(a.prc2, r.prc2) + same(a.prc3, r.prc3) + same(a.form_num, r.form_num) + same(a.form_gen, r.form_gen)
        + same(a.stt, r.stt) + same(a.vox, r.vox)
}

proof fn lemma_counts_asp(a: AnalysisView, r: AnalysisView, v: Seq<char>)
    ensures
        a.asp != v ==> feature_agreement(a, AnalysisView { asp: a.asp, ..r }) == feature_agreement(a, AnalysisView { asp: v, ..r }) + 1,
{
    let r1 = AnalysisView { asp: a.asp, ..r };
    assert(same(a.asp, r1.asp) == 1);
}

proof fn lemma_counts_cas(a: AnalysisView, r: AnalysisView, v: Seq<char>)
    ensures
        a.cas != v ==> feature_agreement(a, AnalysisView { cas: a.cas, ..r }) == feature_agreement(a, AnalysisView { cas: v, ..r }) + 1,
{
    let r1 = AnalysisView { cas: a.cas, ..r };
    assert(same(a.cas, r1.cas) == 1);
}

proof fn lemma_counts_enc0(a: AnalysisView, r: AnalysisView, v: Seq<char>)
    ensures
        a.enc0 != v ==> feature_agreement(a, AnalysisView { enc0: a.enc0, ..r }) == feature_agreement(a, AnalysisView { enc0: v, ..r }) + 1,
{
    let r1 = AnalysisView { enc0: a.enc0, ..r };
    assert(same(a.enc0, r1.enc0) == 1);
}

proof fn lemma_counts_gen(a: AnalysisView, r: AnalysisView, v: Seq<char>)
    ensures
        a.gen_ != v ==> feature_agreement(a, AnalysisView { gen_: a.gen_, ..r }) == feature_agreement(a, AnalysisView { gen_: v, ..r }) + 1,
{
    let r1 = AnalysisView { gen_: a.gen_, ..r };
    assert(same(a.gen_, r1.gen_) == 1);
}

proof fn lemma_counts_mod(a: AnalysisView, r: AnalysisView, v: Seq<char>)
    ensures
        a.mod_ != v ==> feature_agreement(a, AnalysisView { mod_: a.mod_, ..r }) == feature_agreement(a, AnalysisView { mod_: v, ..r }) + 1,
{
    let r1 = AnalysisView { mod_: a.mod_, ..r };
    assert(same(a.mod_, r1.mod_) == 1);
}

proof fn lemma_counts_num(a: AnalysisView, r: AnalysisView, v: Seq<char>)
    ensures
        a.num != v ==> feature_agreement(a, AnalysisView { num: a.num, ..r }) == feature_agreement(a, AnalysisView { num: v, ..r }) + 1,
{
    let r1 = AnalysisView { num: a.num, ..r };
    assert(same(a.num, r1.num) == 1);
}

proof fn lemma_counts_per(a: AnalysisView, r: AnalysisView, v: Seq<char>)
    ensures
        a.per != v ==> feature_agreement(a, AnalysisView { per: a.per, ..r }) == feature_agreement(a, AnalysisView { per: v, ..r }) + 1,
{
    let r1 = AnalysisView { per: a.per, ..r };
    assert(same(a.per, r1.per) == 1);
}

proof fn lemma_counts_pos(a: AnalysisView, r: AnalysisView, v: Seq<char>)
    ensures
        a.pos != v ==> feature_agreement(a, AnalysisView { pos: a.pos, ..r }) == feature_agreement(a, AnalysisView { pos: v, ..r }) + 1,
{
    let r1 = AnalysisView { pos: a.pos, ..r };
    assert(same(a.pos, r1.pos) == 1);
}

proof fn lemma_counts_prc0(a: AnalysisView, r: AnalysisView, v: Seq<char>)
    ensures
        a.prc0 != v ==> feature_agreement(a, AnalysisView { prc0: a.prc0, ..r }) == feature_agreement(a, AnalysisView { prc0: v, ..r }) + 1,
{
    let r1 = AnalysisView { prc0: a.prc0, ..r };
    assert(same(a.prc0, r1.prc0) == 1);
}

proof fn lemma_counts_prc1(a: AnalysisView, r: AnalysisView, v: Seq<char>)
    ensures
        a.prc1 != v ==> feature_agreement(a, AnalysisView { prc1: a.prc1, ..r }) == feature_agreement(a, AnalysisView { prc1: v, ..r }) + 1,
{
    let r1 = AnalysisView { prc1: a.prc1, ..r };
    assert(same(a.prc1, r1.prc1) == 1);
}

proof fn lemma_counts_prc2(a: AnalysisView, r: AnalysisView, v: Seq<char>)
    ensures
        a.prc2 != v ==> feature_agreement(a, AnalysisView { prc2: a.prc2, ..r }) == feature_agreement(a, AnalysisView { prc2: v, ..r }) + 1,
{
    let r1 = AnalysisView { prc2: a.prc2, ..r };
    assert(same(a.prc2, r1.prc2) == 1);
}

proof fn lemma_counts_prc3(a: AnalysisView, r: AnalysisView, v: Seq<char>)
    ensures
        a.prc3 != v ==> feature_agreement(a, AnalysisView { prc3: a.prc3, ..r }) == feature_agreement(a, AnalysisView { prc3: v, ..r }) + 1,
{
    let r1 = AnalysisView { prc3: a.prc3, ..r };
    assert(same(a.prc3, r1.prc3) == 1);
}

proof fn lemma_counts_form_num(a: AnalysisView, r: AnalysisView, v: Seq<char>)
    ensures
        a.form_num != v ==> feature_agreement(a, AnalysisView { form_num: a.form_num, ..r }) == feature_agreement(a, AnalysisView { form_num: v, ..r }) + 1,
{
    let r1 = AnalysisView { form_num: a.form_num, ..r };
    assert(same(a.form_num, r1.form_num) == 1);
}

proof fn lemma_counts_form_gen(a: AnalysisView, r: AnalysisView, v: Seq<char>)
    ensures
        a.form_gen != v ==> feature_agreement(a, AnalysisView { form_gen: a.form_gen, ..r }) == feature_agreement(a, AnalysisView { form_gen: v, ..r }) + 1,
{
    let r1 = AnalysisView { form_gen: a.form_gen, ..r };
    assert(same(a.form_gen, r1.form_gen) == 1);
}

proof fn lemma_counts_stt(a: AnalysisView, r: AnalysisView, v: Seq<char>)
    ensures
        a.stt != v ==> feature_agreement(a, AnalysisView { stt: a.stt, ..r }) == feature_agreement(a, AnalysisView { stt: v, ..r }) + 1,
{
    let r1 = AnalysisView { stt: a.stt, ..r };
    assert(same(a.stt, r1.stt) == 1);
}

proof fn lemma_counts_vox(a: AnalysisView, r: AnalysisView, v: Seq<char>)
    ensures
        a.vox != v ==> feature_agreement(a, AnalysisView { vox: a.vox, ..r }) == feature_agreement(a, AnalysisView { vox: v, ..r }) + 1,
{
    let r1 = AnalysisView { vox: a.vox, ..r };
    assert(same(a.vox, r1.vox) == 1);
}

/// Each scored feature counts once, exactly when the analysis and the
/// reference agree on it: setting one scored feature of the reference to the
/// analysis's value counts one more than setting it to any other value.
pub proof fn lemma_each_feature_counts_once(a: AnalysisView, r: AnalysisView, v: Seq<char>)
    ensures
        a.asp != v ==> feature_agreement(a, AnalysisView { asp: a.asp, ..r }) == feature_agreement(a, AnalysisView { asp: v, ..r }) + 1,
        a.cas != v ==> feature_agreement(a, AnalysisView { cas: a.cas, ..r }) == feature_agreement(a, AnalysisView { cas: v, ..r }) + 1,
        a.enc0 != v ==> feature_agreement(a, AnalysisView { enc0: a.enc0, ..r }) == feature_agreement(a, AnalysisView { enc0: v, ..r }) + 1,
        a.gen_ != v ==> feature_agreement(a, AnalysisView { gen_: a.gen_, ..r }) == feature_agreement(a, AnalysisView { gen_: v, ..r }) + 1,
        a.mod_ != v ==> feature_agreement(a, AnalysisView { mod_: a.mod_, ..r }) == feature_agreement(a, AnalysisView { mod_: v, ..r }) + 1,
        a.num != v ==> feature_agreement(a, AnalysisView { num: a.num, ..r }) == feature_agreement(a, AnalysisView { num: v, ..r }) + 1,
        a.per != v ==> feature_agreement(a, AnalysisView { per: a.per, ..r }) == feature_agreement(a, AnalysisView { per: v, ..r }) + 1,
        a.pos != v ==> feature_agreement(a, AnalysisView { pos: a.pos, ..r }) == feature_agreement(a, AnalysisView { pos: v, ..r }) + 1,
        a.prc0 != v ==> feature_agreement(a, AnalysisView { prc0: a.prc0, ..r }) == feature_agreement(a, AnalysisView { prc0: v, ..r }) + 1,
        a.prc1 != v ==> feature_agreement(a, AnalysisView { prc1: a.prc1, ..r }) == feature_agreement(a, AnalysisView { prc1: v, ..r }) + 1,
        a.prc2 != v ==> feature_agreement(a, AnalysisView { prc2: a.prc2, ..r }) == feature_agreement(a, AnalysisView { prc2: v, ..r }) + 1,
        a.prc3 != v ==> feature_agreement(a, AnalysisView { prc3: a.prc3, ..r }) == feature_agreement(a, AnalysisView { prc3: v, ..r }) + 1,
        a.form_num != v ==> feature_agreement(a, AnalysisView { form_num: a.form_num, ..r }) == feature_agreement(a, AnalysisView { form_num: v, ..r }) + 1,
        a.form_gen != v ==> feature_agreement(a, AnalysisView { form_gen: a.form_gen, ..r }) == feature_agreement(a, AnalysisView { form_gen: v, ..r }) + 1,
        a.stt != v ==> feature_agreement(a, AnalysisView { stt: a.stt, ..r }) == feature_agreement(a, AnalysisView { stt: v, ..r }) + 1,
        a.vox != v ==> feature_agreement(a, AnalysisView { vox: a.vox, ..r }) == feature_agreement(a, AnalysisView { vox: v, ..r }) + 1,
{
    lemma_counts_asp(a, r, v);
    lemma_counts_cas(a, r, v);
    lemma_counts_enc0(a, r, v);
    lemma_counts_gen(a, r, v);
    lemma_counts_mod(a, r, v);
    lemma_counts_num(a, r, v);
    lemma_counts_per(a, r, v);
    lemma_counts_pos(a, r, v);
    lemma_counts_prc0(a, r, v);
    lemma_counts_prc1(a, r, v);
    lemma_counts_prc2(a, r, v);
    lemma_counts_prc3(a, r, v);
    lemma_counts_form_num(a, r, v);
    lemma_counts_form_gen(a, r, v);
    lemma_counts_stt(a, r, v);
    lemma_counts_vox(a, r, v);
}

/// An analysis agrees with itself on all sixteen scored features, with any
/// other on no more, and agreement does not depend on which side is the
/// reference.
pub proof fn lemma_agreement_bounds(a: AnalysisView, r: AnalysisView)
    ensures
        feature_agreement(a, a) == 16,
        feature_agreement(a, r) <= 16,
        feature_agreement(a, r) == feature_agreement(r, a),
{
}

fn same_exec(a: &String, b: &String) -> (r: u32)
    ensures
        r == same(a@, b@),
{
    if str_eq(a.as_str(), b.as_str()) {
        1
    } else {
        0
    }
}

/// The number of the scored features on which an analysis agrees with the
/// reference analysis.
pub fn feature_matches(a: &ScoredAnalysis, reference: &ScoredAnalysis) -> (n: u32)
    ensures
        n == feature_agreement(a@, reference@),
{
    let r = reference;
    same_exec(&a.asp, &r.asp) + same_exec(&a.cas, &r.cas) + same_exec(&a.enc0, &r.enc0) + same_exec(&a.gen_, &r.gen_)
        + same_exec(&a.mod_, &r.mod_) + same_exec(&a.num, &r.num) + same_exec(&a.per, &r.per) + same_exec(
        &a.pos,
        &r.pos,
    ) + same_exec(&a.prc0, &r.prc0) + same_exec(&a.prc1, &r.prc1) + same_exec(&a.prc2, &r.prc2) + same_exec(
        &a.prc3,
        &r.prc3,
    ) + same_exec(&a.form_num, &r.form_num) + same_exec(&a.form_gen, &r.form_gen) + same_exec(&a.stt, &r.stt)
        + same_exec(&a.vox, &r.vox)
}

/// The length in characters of the reference text and its edit distance to
/// the analysis's text, from which the distance score is computed.
pub fn distance_parts(a: &str, reference: &str) -> (r: (usize, usize))
    requires
        a@.len() < usize::MAX,
        reference@.len() < usize::MAX,
    ensures
        r.0 == reference@.len(),
        r.1 == lev(reference@, a@),
{
    let n = crate::chars::chars_of(reference).len();
    (n, levenshtein(reference, a))
}

} // verus!
