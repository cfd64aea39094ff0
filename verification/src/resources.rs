//! Where the library's data lives: the download addresses of the SINA
//! assets, and the checking of where a downloaded resource may be put.
use vstd::prelude::*;

use crate::chars::{chars_of, str_eq, string_of};
use crate::text_rules::split_on;
use crate::utils::{split_chars, string_views, vec_views};

verus! {

/// The download address of a SINA asset.
pub open spec fn sina_asset(key: Seq<char>) -> Option<Seq<char>> {
    if key == "one_gram"@ {
        Some("https://huggingface.co/datasets/hadikhamoud/fast-disambig-data/resolve/main/sina/one_gram.json?download=true"@)
    } else if key == "five_grams"@ {
        Some("https://huggingface.co/datasets/hadikhamoud/fast-disambig-data/resolve/main/sina/five_grams.json?download=true"@)
    } else if key == "four_grams"@ {
        Some("https://huggingface.co/datasets/hadikhamoud/fast-disambig-data/resolve/main/sina/four_grams.json?download=true"@)
    } else if key == "three_grams"@ {
        Some("https://huggingface.co/datasets/hadikhamoud/fast-disambig-data/resolve/main/sina/three_grams.json?download=true"@)
    } else if key == "two_grams"@ {
        Some("https://huggingface.co/datasets/hadikhamoud/fast-disambig-data/resolve/main/sina/two_grams.json?download=true"@)
    } else if key == "graph_l2"@ {
        Some("https://huggingface.co/datasets/hadikhamoud/fast-disambig-data/resolve/main/sina/graph_l2.json?download=true"@)
    } else if key == "graph_l3"@ {
        Some("https://huggingface.co/datasets/hadikhamoud/fast-disambig-data/resolve/main/sina/graph_l3.json?download=true"@)
    } else if key == "morph"@ {
        Some("https://huggingface.co/datasets/hadikhamoud/fast-disambig-data/resolve/main/sina/morph.json?download=true"@)
    } else if key == "catalogue"@ {
        Some("https://huggingface.co/datasets/hadikhamoud/fast-disambig-data/resolve/main/sina/catalogue.json?download=true"@)
    } else {
        None
    }
}

/// The download address of a SINA asset, `None` for a key with no asset.
pub fn sina_asset_url(key: &str) -> (r: Option<&'static str>)
    ensures
        match sina_asset(key@) {
            Some(u) => r is Some && r->Some_0@ == u,
            None => r is None,
        },
{
    if str_eq(key, "one_gram") {
        Some("https://huggingface.co/datasets/hadikhamoud/fast-disambig-data/resolve/main/sina/one_gram.json?download=true")
    } else if str_eq(key, "five_grams") {
        Some("https://huggingface.co/datasets/hadikhamoud/fast-disambig-data/resolve/main/sina/five_grams.json?download=true")
    } else if str_eq(key, "four_grams") {
        Some("https://huggingface.co/datasets/hadikhamoud/fast-disambig-data/resolve/main/sina/four_grams.json?download=true")
    } else if str_eq(key, "three_grams") {
        Some("https://huggingface.co/datasets/hadikhamoud/fast-disambig-data/resolve/main/sina/three_grams.json?download=true")
    } else if str_eq(key, "two_grams") {
        Some("https://huggingface.co/datasets/hadikhamoud/fast-disambig-data/resolve/main/sina/two_grams.json?download=true")
    } else if str_eq(key, "graph_l2") {
        Some("https://huggingface.co/datasets/hadikhamoud/fast-disambig-data/resolve/main/sina/graph_l2.json?download=true")
    } else if str_eq(key, "graph_l3") {
        Some("https://huggingface.co/datasets/hadikhamoud/fast-disambig-data/resolve/main/sina/graph_l3.json?download=true")
    } else if str_eq(key, "morph") {
        Some("https://huggingface.co/datasets/hadikhamoud/fast-disambig-data/resolve/main/sina/morph.json?download=true")
    } else if str_eq(key, "catalogue") {
        Some("https://huggingface.co/datasets/hadikhamoud/fast-disambig-data/resolve/main/sina/catalogue.json?download=true")
    } else {
        None
    }
}

/// The parts of a destination that name something: neither empty nor `.`.
pub open spec fn named_parts(ps: Seq<Seq<char>>) -> Seq<Seq<char>>
    decreases ps.len(),
{
    if ps.len() == 0 {
        seq![]
    } else {
        let p = named_parts(ps.drop_last());
        if ps.last().len() > 0 && ps.last() != "."@ {
            p.push(ps.last())
        } else {
            p
        }
    }
}

/// The names that a resource destination is made of, read as a relative
/// Unix path (`Path::components`): `None` when the destination is absolute,
/// starts with `.`, holds `..`, or names nothing, since such a destination
/// could lead out of the data directory.
pub open spec fn destination_names(d: Seq<char>) -> Option<Seq<Seq<char>>> {
    let pieces = split_on(d, '/');
    if d.len() > 0 && d[0] == '/' {
        None
    } else if pieces[0] == "."@ {
        None
    } else if exists|i: int| 0 <= i < pieces.len() && #[trigger] pieces[i] == ".."@ {
        None
    } else if named_parts(pieces).len() == 0 {
        None
    } else {
        Some(named_parts(pieces))
    }
}

/// The names that a resource destination is made of, to be joined under the
/// data directory; `None` for a destination that could lead out of it.
pub fn destination_parts(destination: &str) -> (r: Option<Vec<String>>)
    ensures
        match destination_names(destination@) {
            None => r is None,
            Some(ns) => r is Some && string_views(r->Some_0@) == ns,
        },
{
    let d = chars_of(destination);
    if d.len() > 0 && d[0] == '/' {
        return None;
    }
    let pieces = split_chars(d.as_slice(), '/');
    let ghost ps = vec_views(pieces@);
    proof {
        crate::text_rules::lemma_split_on_nonempty(d@, '/');
    }
    let dot = chars_of(".");
    let dotdot = chars_of("..");
    assert(pieces@[0]@ == ps[0]);
    if crate::chars::chars_eq(pieces[0].as_slice(), dot.as_slice()) {
        return None;
    }
    let mut names: Vec<String> = Vec::new();
    let mut i: usize = 0;
    assert(ps.take(0) =~= Seq::<Seq<char>>::empty());
    while i < pieces.len()
        invariant
            ps == vec_views(pieces@),
            ps == split_on(destination@, '/'),
            dot@ == "."@,
            dotdot@ == ".."@,
            i <= pieces@.len(),
            string_views(names@) == named_parts(ps.take(i as int)),
            forall|k: int| 0 <= k < i ==> #[trigger] ps[k] != ".."@,
        decreases pieces@.len() - i,
    {
        assert(ps.take(i + 1).drop_last() =~= ps.take(i as int));
        assert(ps.take(i + 1).last() == pieces@[i as int]@);
        let p = &pieces[i];
        if crate::chars::chars_eq(p.as_slice(), dotdot.as_slice()) {
            assert(ps[i as int] == ".."@);
            return None;
        }
        if p.len() > 0 && !crate::chars::chars_eq(p.as_slice(), dot.as_slice()) {
            let ghost before = string_views(names@);
            names.push(string_of(p.as_slice()));
            assert(string_views(names@) =~= before.push(p@));
        }
        i += 1;
    }
    assert(ps.take(pieces@.len() as int) =~= ps);
    if names.len() == 0 {
        return None;
    }
    Some(names)
}

/// How far the search for a resource has come.
#[derive(Clone, Copy, Debug, PartialEq, Eq)]
pub enum ResolveState {
    /// Nothing looked at yet: the name is first taken as a path.
    Start,
    /// The name is no existing path; it is looked for in the data directory.
    InDataDir,
    /// It is not in the data directory either; the catalogue's dataset path
    /// for it is looked at.
    InCatalogue,
}

/// What the search for a resource does next.
#[derive(Clone, Copy, Debug, PartialEq, Eq)]
pub enum ResolveAction {
    /// The name is a path that exists: use it.
    UseDirect,
    /// Look for the name in the data directory.
    CheckDataDir,
    /// The name exists in the data directory: use that path.
    UseDataDir,
    /// Look at the catalogue's dataset path for the name.
    CheckCatalogue,
    /// The catalogue's dataset path exists: use it.
    UseInstalled,
    /// Download the dataset.
    Download,
    /// The dataset is missing and downloads are disabled: fail.
    Refuse,
}

/// One step of the search for a resource: the name as a path first, then
/// in the data directory, then at the catalogue's dataset path, and only
/// then a download, when downloads are allowed. `found` says whether the
/// path that the state looks at exists.
pub fn resolve_step(state: ResolveState, found: bool, allow_download: bool) -> (a: ResolveAction)
    ensures
        a == match state {
            ResolveState::Start => if found {
                ResolveAction::UseDirect
            } else {
                ResolveAction::CheckDataDir
            },
            ResolveState::InDataDir => if found {
                ResolveAction::UseDataDir
            } else {
                ResolveAction::CheckCatalogue
            },
            ResolveState::InCatalogue => if found {
                ResolveAction::UseInstalled
            } else if allow_download {
                ResolveAction::Download
            } else {
                ResolveAction::Refuse
            },
        },
{
    match state {
        ResolveState::Start => if found {
            ResolveAction::UseDirect
        } else {
            ResolveAction::CheckDataDir
        },
        ResolveState::InDataDir => if found {
            ResolveAction::UseDataDir
        } else {
            ResolveAction::CheckCatalogue
        },
        ResolveState::InCatalogue => if found {
            ResolveAction::UseInstalled
        } else if allow_download {
            ResolveAction::Download
        } else {
            ResolveAction::Refuse
        },
    }
}

// ---------------------------------------------------------------------------
// Download progress

/// Whether download progress is shown: `always` forces it and `never`
/// silences it; otherwise it is shown in interactive terminals only.
pub open spec fn shows_progress(setting: Option<Seq<char>>, interactive: bool) -> bool {
    match setting {
        Some(v) => if v == "always"@ {
            true
        } else if v == "never"@ {
            false
        } else {
            interactive
        },
        None => interactive,
    }
}

/// Decides whether download progress is shown, from the value of the
/// progress setting (`None` when it is not set) and whether the output is
/// an interactive terminal.
pub fn progress_shown(setting: Option<&str>, interactive: bool) -> (r: bool)
    ensures
        r == shows_progress(
            match setting {
                Some(v) => Some(v@),
                None => None,
            },
            interactive,
        ),
{
    match setting {
        Some(v) => if str_eq(v, "always") {
            true
        } else if str_eq(v, "never") {
            false
        } else {
            interactive
        },
        None => interactive,
    }
}

} // verus!
