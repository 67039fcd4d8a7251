//! The pure core of a run: combine the two fetched report bodies with
//! the package-query output.  A failed fetch stands in as `None` and
//! contributes an empty map; the all-updates map is then filtered down to
//! packages that are installed and not already in the maintainer map.
//! Fetching and printing stay outside the library.

use vstd::prelude::*;
use crate::installed::installed_from_output;
use crate::installed::installed_names;
use crate::report::parse_report;
use crate::report::response_to_hashmap;
use crate::update_map::UpdateMap;

verus! {

/// Run configuration: where the reports live and whose maintainer
/// report to read.
pub struct Config {
    pub base_url: String,
    pub email: String,
}

/// The maintainer-report URL: `{base}/updates_{email}.txt`.
pub open spec fn maintainer_url_spec(base: Seq<char>, email: Seq<char>) -> Seq<char> {
    base + "/updates_"@ + email + ".txt"@
}

/// The all-updates URL: `{base}.txt`.
pub open spec fn all_updates_url_spec(base: Seq<char>) -> Seq<char> {
    base + ".txt"@
}

impl Config {
    /// The URL of the maintainer-specific report.
    pub fn maintainer_url(&self) -> (u: String)
        ensures
            u@ == maintainer_url_spec(self.base_url@, self.email@),
    {
        let mut u = self.base_url.as_str().to_owned();
        u.append("/updates_");
        u.append(self.email.as_str());
        u.append(".txt");
        u
    }

    /// The URL of the all-updates report.
    pub fn all_updates_url(&self) -> (u: String)
        ensures
            u@ == all_updates_url_spec(self.base_url@),
    {
        let mut u = self.base_url.as_str().to_owned();
        u.append(".txt");
        u
    }
}

/// The body a fetch produced, as ghost text: `None` for a failed fetch.
pub open spec fn opt_text(body: Option<&str>) -> Option<Seq<char>> {
    match body {
        Some(t) => Some(t@),
        None => None,
    }
}

/// The map a fetched body stands for: a failed fetch contributes an
/// empty map.
pub open spec fn parsed_or_empty(body: Option<Seq<char>>) -> Map<
    Seq<char>,
    (Seq<char>, Seq<char>),
> {
    match body {
        Some(t) => parse_report(t),
        None => Map::empty(),
    }
}

/// The outcome of a run: the maintainer's updates, and the updates for
/// installed packages the maintainer map does not already cover.
pub struct Reconciled {
    pub maintainer: UpdateMap,
    pub installed: UpdateMap,
}

/// Parse both report bodies (substituting an empty map for a failed
/// fetch), read the installed-package set from the query output, and
/// keep of the all-updates map only the entries for packages that are
/// installed and not in the maintainer map.
pub fn reconcile(maintainer_body: Option<&str>, all_body: Option<&str>, query_output: &str) -> (r:
    Reconciled)
    ensures
        r.maintainer.wf(),
        r.installed.wf(),
        r.maintainer@ == parsed_or_empty(opt_text(maintainer_body)),
        r.installed@ == (Map::new(
            |k: Seq<char>|
                parsed_or_empty(opt_text(all_body)).dom().contains(k) && installed_names(
                    query_output@,
                ).contains(k) && !parsed_or_empty(opt_text(maintainer_body)).dom().contains(k),
            |k: Seq<char>| parsed_or_empty(opt_text(all_body))[k],
        )),
{
    let maintainer = match maintainer_body {
        Some(t) => response_to_hashmap(t),
        None => UpdateMap::new(),
    };
    let mut all = match all_body {
        Some(t) => response_to_hashmap(t),
        None => UpdateMap::new(),
    };
    let installed = installed_from_output(query_output);
    all.retain_installed(&installed, &maintainer);
    proof {
        assert(all@ =~= Map::new(
            |k: Seq<char>|
                parsed_or_empty(opt_text(all_body)).dom().contains(k) && installed_names(
                    query_output@,
                ).contains(k) && !parsed_or_empty(opt_text(maintainer_body)).dom().contains(k),
            |k: Seq<char>| parsed_or_empty(opt_text(all_body))[k],
        ));
    }
    Reconciled { maintainer, installed: all }
}

} // verus!
