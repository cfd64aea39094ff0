use fast_disambig::db_format::text_headers_ok;
use fast_disambig::morphology_db::{DbError, MorphologyDB};

const DB: &str = "###DEFINES###\n\
DEFINE asp asp:c asp:i asp:p asp:na\n\
DEFINE lex lex:*open*\n\
###ORDER###\n\
ORDER pos asp\n\
###TOKENIZATIONS###\n\
TOKENIZATION d3tok atbtok\n\
###STEMBACKOFF###\n\
STEMBACKOFF NOAN_PROP NP\n\
###DEFAULTS###\n\
DEFAULT pos:digit diac:* lex:*\n\
DEFAULT pos:*\n\
###PREFIXES###\n\
و\tPref-Wa\tdiac:وَ bw:wa/CONJ\n\
###SUFFIXES###\n\
\tSuff-0\tdiac: bw:\n\
###STEMS###\n\
كتاب\tN\tdiac:كِتاب lex:كِتاب_1 pos:noun\n\
كتاب\tN\tdiac:كُتّاب lex:كاتِب_1 pos:noun\n\
###TABLE AB###\n\
Pref-Wa N\n\
###TABLE BC###\n\
N Suff-0\n\
###TABLE AC###\n\
Pref-Wa Suff-0\n";

#[test]
fn load_reads_every_section() {
    assert!(text_headers_ok(DB));
    let db = MorphologyDB::load(DB, &[], &[], &[]).unwrap();
    let asp = db.defines.get("asp").unwrap().as_ref().unwrap();
    assert_eq!(asp, &vec!["c".to_string(), "i".to_string(), "p".to_string(), "na".to_string()]);
    assert!(db.defines.get("lex").unwrap().is_none());
    assert_eq!(db.order, vec!["pos".to_string(), "asp".to_string()]);
    assert!(db.tokenizations.contains("d3tok") && db.tokenizations.contains("atbtok"));
    assert!(db.compute_feats.contains("pos") && db.compute_feats.contains("asp"));
    assert_eq!(db.compute_feats.len(), 2);
    assert_eq!(db.stem_backoffs.get("NOAN_PROP").unwrap(), &vec!["NP".to_string()]);
    assert_eq!(db.defaults.len(), 1);
    let digit = db.defaults.get("digit").unwrap();
    assert_eq!(digit.pos, "digit");
    assert_eq!(digit.diac, "");
    let wa = &db.prefix_hash.get("و").unwrap()[0];
    assert_eq!(wa.category, "Pref-Wa");
    assert_eq!(wa.diac, "وَ");
    assert_eq!(wa.bw, "wa/CONJ");
    assert_eq!(db.suffix_hash.get("").unwrap()[0].category, "Suff-0");
    let stems = db.stem_hash.get("كتاب").unwrap();
    assert_eq!(stems.len(), 2);
    assert_eq!(stems[0].lex, "كِتاب");
    assert_eq!(stems[1].lex, "كاتِب");
    assert!(db.prefix_stem_compat.get("Pref-Wa").unwrap().contains("N"));
    assert!(db.stem_suffix_compat.get("N").unwrap().contains("Suff-0"));
    assert!(db.prefix_suffix_compat.get("Pref-Wa").unwrap().contains("Suff-0"));
    assert_eq!(db.max_prefix_size, 2);
    assert_eq!(db.max_suffix_size, 0);
}

#[test]
fn load_reports_the_first_bad_line() {
    let text = "###PREFIXES###\nو\tPref-Wa\tdiac:وَ\nbad line\n";
    assert_eq!(MorphologyDB::load(text, &[], &[], &[]).err(), Some(DbError { line: 2 }));
    let text = "###DEFAULTS###\nDEFAULT pos:noun score:1\n";
    assert_eq!(MorphologyDB::load(text, &[], &[], &[]).err(), Some(DbError { line: 1 }));
    let text = "###ORDER###\nORDER\n";
    assert_eq!(MorphologyDB::load(text, &[], &[], &[]).err(), Some(DbError { line: 1 }));
}

#[test]
fn lines_outside_sections_are_ignored() {
    let text = "anything at all\n###UNKNOWN###\nmore\r\n###ORDER###\r\nORDER a\r\n";
    let db = MorphologyDB::load(text, &[], &[], &[]).unwrap();
    assert_eq!(db.order, vec!["a".to_string()]);
}

#[test]
fn headers_must_leave_room_to_cut() {
    assert!(!text_headers_ok("###\n"));
    assert!(text_headers_ok("###ORDER###\nno header"));
}

#[test]
fn supplementary_stems_are_cut_from_normalized_words() {
    let db = MorphologyDB::load("", &["المكتبة"], &["الكتاب"], &["مدرسة"]).unwrap();
    let nall = &db.stem_hash.get("مكتب").unwrap()[0];
    assert_eq!(nall.category, "Nall");
    assert_eq!(nall.bw, "مكتب/NOUN");
    assert_eq!(nall.pos_logprob, "-99");
    assert!(db.stem_hash.get("كتاب").is_some());
    assert!(db.stem_hash.get("مدرس").is_some());
    let short = MorphologyDB::load("", &["الة"], &["ال"], &["ة"]).unwrap();
    assert_eq!(short.stem_hash.len(), 0);
}
