//! What the surrounding storage layer needs from the core: validation of the
//! sort directive it may interpolate into a query, and the store's
//! connection configuration, an explicit object set once at startup.

use vstd::prelude::*;

use crate::text::{upper_of, uppercase};
use vstd::string::StringExecFns;

verus! {

/// `s` is an accepted sort directive: its uppercase form is exactly `ASC`
/// or `DESC`.
pub open spec fn valid_sort_spec(s: Seq<char>) -> bool {
    upper_of(s) == "ASC"@ || upper_of(s) == "DESC"@
}

/// Whether a sort directive may be passed on to the store.
pub fn is_valid_sort(sort: &str) -> (r: bool)
    ensures
        r == valid_sort_spec(sort@),
{
    let up = uppercase(sort);
    let asc = String::from_str("ASC");
    let desc = String::from_str("DESC");
    up == asc || up == desc
}

/// The catalog store's connection configuration: the path of its database
/// file.  Built once at startup and treated as read-only afterwards.
pub struct SqlPathConfig {
    pub path: String,
}

impl SqlPathConfig {
    /// An empty configuration, to be filled in at startup.
    pub fn new() -> (c: SqlPathConfig)
        ensures
            c.path@ == Seq::<char>::empty(),
    {
        SqlPathConfig { path: String::new() }
    }
}

/// Set the configured database path.
pub fn set_sql_path_val(config: &mut SqlPathConfig, path: &str)
    ensures
        final(config).path@ == path@,
{
    config.path = String::from_str(path);
}

/// Read the configured database path.
pub fn get_sql_path_val(config: &SqlPathConfig) -> (r: String)
    ensures
        r@ == config.path@,
{
    config.path.clone()
}

} // verus!
