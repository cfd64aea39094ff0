//! The data catalogue: its tree of components, in which each component
//! names its datasets and its default dataset, and its packages with the
//! destinations they install to.
use vstd::prelude::*;

use crate::chars::str_eq;
use crate::utils::str_views;

verus! {

/// A value of the catalogue's component tree: text, an object with named
/// members, or any other value.
pub enum CatalogueValue {
    Text(String),
    Object(Vec<(String, CatalogueValue)>),
    Other,
}

/// The first member named `key` from member `i` on.
pub open spec fn member_from(ms: Seq<(String, CatalogueValue)>, key: Seq<char>, i: int) -> Option<CatalogueValue>
    decreases ms.len() - i,
{
    if i < 0 || i >= ms.len() {
        None
    } else if ms[i].0@ == key {
        Some(ms[i].1)
    } else {
        member_from(ms, key, i + 1)
    }
}

/// The member named `key` of an object; `None` for a value that is no
/// object or has no such member.
pub open spec fn member(v: CatalogueValue, key: Seq<char>) -> Option<CatalogueValue> {
    match v {
        CatalogueValue::Object(ms) => member_from(ms@, key, 0),
        _ => None,
    }
}

/// The member named `key` of an object.
pub fn get_member<'a>(v: &'a CatalogueValue, key: &str) -> (r: Option<&'a CatalogueValue>)
    ensures
        match member(*v, key@) {
            None => r is None,
            Some(m) => r is Some && *r->Some_0 == m,
        },
{
    match v {
        CatalogueValue::Object(ms) => {
            let mut i: usize = 0;
            while i < ms.len()
                invariant
                    *v == CatalogueValue::Object(*ms),
                    i <= ms@.len(),
                    member_from(ms@, key@, 0) == member_from(ms@, key@, i as int),
                decreases ms@.len() - i,
            {
                if str_eq(ms[i].0.as_str(), key) {
                    return Some(&ms[i].1);
                }
                i += 1;
            }
            None
        },
        _ => None,
    }
}

/// The component reached from `v` by the names of `path` from `i` on.
pub open spec fn component_from(v: CatalogueValue, path: Seq<Seq<char>>, i: int) -> Option<CatalogueValue>
    decreases path.len() - i,
{
    if i < 0 || i >= path.len() {
        Some(v)
    } else {
        match member(v, path[i]) {
            None => None,
            Some(c) => component_from(c, path, i + 1),
        }
    }
}

/// Why the catalogue gives no dataset destination.
#[derive(Clone, Copy, Debug, PartialEq, Eq)]
pub enum CatalogueError {
    /// The component path leads nowhere.
    ComponentNotFound,
    /// The component has no `datasets` member.
    NoDatasets,
    /// No dataset is named and the component has no text `default`.
    NoDefaultDataset,
    /// The dataset does not exist or has no text `path`.
    DatasetNotFound,
}

/// The destination of a component's dataset (`dataset`, or the
/// component's default dataset): the dataset's `path`.
pub open spec fn dataset_destination(
    components: CatalogueValue,
    path: Seq<Seq<char>>,
    dataset: Option<Seq<char>>,
) -> Result<Seq<char>, CatalogueError> {
    match component_from(components, path, 0) {
        None => Err(CatalogueError::ComponentNotFound),
        Some(c) => match member(c, "datasets"@) {
            None => Err(CatalogueError::NoDatasets),
            Some(ds) => {
                let name = match dataset {
                    Some(n) => Some(n),
                    None => match member(c, "default"@) {
                        Some(CatalogueValue::Text(s)) => Some(s@),
                        _ => None,
                    },
                };
                match name {
                    None => Err(CatalogueError::NoDefaultDataset),
                    Some(n) => match member(ds, n) {
                        Some(d) => match member(d, "path"@) {
                            Some(CatalogueValue::Text(p)) => Ok(p@),
                            _ => Err(CatalogueError::DatasetNotFound),
                        },
                        None => Err(CatalogueError::DatasetNotFound),
                    },
                }
            },
        },
    }
}

/// The destination of a component's dataset in the catalogue's component
/// tree.
pub fn component_dataset_destination<'a>(
    components: &'a CatalogueValue,
    component_path: &[&str],
    dataset: Option<&str>,
) -> (r: Result<&'a String, CatalogueError>)
    ensures
        match dataset_destination(
            *components,
            str_views(component_path@),
            match dataset {
                Some(d) => Some(d@),
                None => None,
            },
        ) {
            Ok(p) => r is Ok && r->Ok_0@ == p,
            Err(e) => r == Err::<&String, CatalogueError>(e),
        },
{
    let ghost ps = str_views(component_path@);
    let mut current = components;
    let mut i: usize = 0;
    while i < component_path.len()
        invariant
            ps == str_views(component_path@),
            i <= component_path@.len(),
            component_from(*components, ps, 0) == component_from(*current, ps, i as int),
        decreases component_path@.len() - i,
    {
        assert(ps[i as int] == component_path@[i as int]@);
        match get_member(current, component_path[i]) {
            None => {
                return Err(CatalogueError::ComponentNotFound);
            },
            Some(c) => {
                current = c;
            },
        }
        i += 1;
    }
    let datasets = match get_member(current, "datasets") {
        None => {
            return Err(CatalogueError::NoDatasets);
        },
        Some(d) => d,
    };
    let name: &str = match dataset {
        Some(n) => n,
        None => match get_member(current, "default") {
            Some(CatalogueValue::Text(s)) => s.as_str(),
            _ => {
                return Err(CatalogueError::NoDefaultDataset);
            },
        },
    };
    match get_member(datasets, name) {
        Some(d) => match get_member(d, "path") {
            Some(CatalogueValue::Text(p)) => Ok(p),
            _ => Err(CatalogueError::DatasetNotFound),
        },
        None => Err(CatalogueError::DatasetNotFound),
    }
}

/// The first package, from `i` on, that installs to `destination`.
pub open spec fn package_from(dests: Seq<Option<Seq<char>>>, destination: Seq<char>, i: int) -> Option<int>
    decreases dests.len() - i,
{
    if i < 0 || i >= dests.len() {
        None
    } else if dests[i] == Some(destination) {
        Some(i)
    } else {
        package_from(dests, destination, i + 1)
    }
}

/// The destinations of packages as text.
pub open spec fn destination_views(ds: Seq<Option<String>>) -> Seq<Option<Seq<char>>> {
    ds.map_values(
        |d: Option<String>|
            match d {
                Some(s) => Some(s@),
                None => None,
            },
    )
}

/// The index of the first package, in catalogue order, that installs to
/// `destination`.
pub fn package_for_destination(destinations: &[Option<String>], destination: &str) -> (r: Option<usize>)
    ensures
        match package_from(destination_views(destinations@), destination@, 0) {
            None => r is None,
            Some(i) => r == Some(i as usize),
        },
{
    let ghost dv = destination_views(destinations@);
    let mut i: usize = 0;
    while i < destinations.len()
        invariant
            dv == destination_views(destinations@),
            i <= destinations@.len(),
            package_from(dv, destination@, 0) == package_from(dv, destination@, i as int),
        decreases destinations@.len() - i,
    {
        match &destinations[i] {
            Some(d) => {
                if str_eq(d.as_str(), destination) {
                    return Some(i);
                }
            },
            None => {},
        }
        i += 1;
    }
    None
}

} // verus!
