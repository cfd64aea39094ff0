//! The options of the stemmer, the disambiguator and the analyzer, and the
//! defaults that fill in what a caller leaves out.
use vstd::prelude::*;

verus! {

/// The resource that the stemmer, the disambiguator and the analyzer load
/// unless told otherwise.
pub const DEFAULT_RESOURCE: &'static str = "calima-msa-r13";

/// The backoff mode used unless told otherwise.
pub const DEFAULT_BACKOFF: &'static str = "NOAN_PROP";

/// A string option, or its default.
pub open spec fn text_or(o: Option<String>, d: Seq<char>) -> Seq<char> {
    match o {
        Some(s) => s@,
        None => d,
    }
}

fn string_or(o: Option<String>, d: &str) -> (r: String)
    ensures
        r@ == text_or(o, d@),
{
    match o {
        Some(s) => s,
        None => d.to_owned(),
    }
}

/// How a stemmer is made.
pub struct StemmerOptions {
    pub name: Option<String>,
    pub cache_size: Option<u32>,
    pub allow_download: Option<bool>,
}

/// How a text is stemmed.
pub struct StemOptions {
    pub sep: Option<String>,
    pub scheme: Option<String>,
    pub preserve_diacritics: Option<bool>,
    pub backoff: Option<String>,
    pub fallback: Option<Vec<String>>,
}

/// How a text is stemmed, with every option given.
pub struct ResolvedStemOptions {
    pub sep: String,
    pub scheme: String,
    pub preserve_diacritics: bool,
    pub backoff: String,
    pub fallback: Vec<String>,
}

/// How a disambiguator is made.
pub struct MleOptions {
    pub name: Option<String>,
    pub allow_download: Option<bool>,
}

/// How words are disambiguated.
pub struct DisambiguateOptions {
    pub backoff: Option<String>,
    pub top: Option<u32>,
}

/// How an analyzer is made.
pub struct AnalyzerOptions {
    pub name: Option<String>,
    pub backoff: Option<String>,
    pub strict_digit: Option<bool>,
    pub allow_download: Option<bool>,
}

impl ResolvedStemOptions {
    /// The stem options with the defaults filled in: separator `[+]`,
    /// scheme `d3tok`, no diacritics kept, backoff `NOAN_PROP`, no fallback.
    pub fn from_options(options: Option<StemOptions>) -> (r: Self)
        ensures
            match options {
                None => r.sep@ == "[+]"@ && r.scheme@ == "d3tok"@ && !r.preserve_diacritics
                    && r.backoff@ == DEFAULT_BACKOFF@ && r.fallback@.len() == 0,
                Some(o) => r.sep@ == text_or(o.sep, "[+]"@) && r.scheme@ == text_or(o.scheme, "d3tok"@)
                    && r.preserve_diacritics == (o.preserve_diacritics == Some(true))
                    && r.backoff@ == text_or(o.backoff, DEFAULT_BACKOFF@) && match o.fallback {
                    Some(f) => r.fallback@ == f@,
                    None => r.fallback@.len() == 0,
                },
            },
    {
        let options = match options {
            Some(o) => o,
            None => StemOptions { sep: None, scheme: None, preserve_diacritics: None, backoff: None, fallback: None },
        };
        ResolvedStemOptions {
            sep: string_or(options.sep, "[+]"),
            scheme: string_or(options.scheme, "d3tok"),
            preserve_diacritics: match options.preserve_diacritics {
                Some(b) => b,
                None => false,
            },
            backoff: string_or(options.backoff, DEFAULT_BACKOFF),
            fallback: match options.fallback {
                Some(f) => f,
                None => Vec::new(),
            },
        }
    }
}

/// The resource name, cache size and download permission of a stemmer:
/// `calima-msa-r13`, 100000 words, downloads allowed, unless given.
pub fn stemmer_config(options: Option<StemmerOptions>) -> (r: (String, usize, bool))
    ensures
        match options {
            None => r.0@ == DEFAULT_RESOURCE@ && r.1 == 100_000 && r.2,
            Some(o) => r.0@ == text_or(o.name, DEFAULT_RESOURCE@) && r.1 == match o.cache_size {
                Some(n) => n as usize,
                None => 100_000,
            } && r.2 == (o.allow_download != Some(false)),
        },
{
    let options = match options {
        Some(o) => o,
        None => StemmerOptions { name: None, cache_size: None, allow_download: None },
    };
    (
        string_or(options.name, DEFAULT_RESOURCE),
        match options.cache_size {
            Some(n) => n as usize,
            None => 100_000,
        },
        match options.allow_download {
            Some(b) => b,
            None => true,
        },
    )
}

/// The resource name and download permission of a disambiguator:
/// `calima-msa-r13` and downloads allowed, unless given.
pub fn model_config(options: Option<MleOptions>) -> (r: (String, bool))
    ensures
        match options {
            None => r.0@ == DEFAULT_RESOURCE@ && r.1,
            Some(o) => r.0@ == text_or(o.name, DEFAULT_RESOURCE@) && r.1 == (o.allow_download != Some(false)),
        },
{
    let options = match options {
        Some(o) => o,
        None => MleOptions { name: None, allow_download: None },
    };
    (string_or(options.name, DEFAULT_RESOURCE), match options.allow_download {
        Some(b) => b,
        None => true,
    })
}

/// The backoff mode and the number of analyses kept per word:
/// `NOAN_PROP` and 1, unless given.
pub fn disambiguate_config(options: Option<DisambiguateOptions>) -> (r: (String, usize))
    ensures
        match options {
            None => r.0@ == DEFAULT_BACKOFF@ && r.1 == 1,
            Some(o) => r.0@ == text_or(o.backoff, DEFAULT_BACKOFF@) && r.1 == match o.top {
                Some(n) => n as usize,
                None => 1,
            },
        },
{
    let options = match options {
        Some(o) => o,
        None => DisambiguateOptions { backoff: None, top: None },
    };
    (string_or(options.backoff, DEFAULT_BACKOFF), match options.top {
        Some(n) => n as usize,
        None => 1,
    })
}

/// The resource name, backoff mode, strict digit test and download
/// permission of an analyzer: `calima-msa-r13`, `NOAN_PROP`, not strict,
/// downloads allowed, unless given.
pub fn analyzer_config(options: Option<AnalyzerOptions>) -> (r: (String, String, bool, bool))
    ensures
        match options {
            None => r.0@ == DEFAULT_RESOURCE@ && r.1@ == DEFAULT_BACKOFF@ && !r.2 && r.3,
            Some(o) => r.0@ == text_or(o.name, DEFAULT_RESOURCE@) && r.1@ == text_or(o.backoff, DEFAULT_BACKOFF@)
                && r.2 == (o.strict_digit == Some(true)) && r.3 == (o.allow_download != Some(false)),
        },
{
    let options = match options {
        Some(o) => o,
        None => AnalyzerOptions { name: None, backoff: None, strict_digit: None, allow_download: None },
    };
    (
        string_or(options.name, DEFAULT_RESOURCE),
        string_or(options.backoff, DEFAULT_BACKOFF),
        match options.strict_digit {
            Some(b) => b,
            None => false,
        },
        match options.allow_download {
            Some(b) => b,
            None => true,
        },
    )
}

} // verus!
