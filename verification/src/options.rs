//! The options with which a database is opened.
use vstd::prelude::*;

verus! {

/// The options of a database.
pub struct Options {
    /// Where the files of the database lie.
    pub path: String,
    /// Represent system how to hande `NULL` value.
    /// - nulls_equal: represent all null value is equals (Default setting.).
    /// - nulls_unequal: represent all null value is independent.
    /// - nulls_ignore: represent ignore null value.
    pub stats_null_method: String,
    /// Represent the data of statistic whether persistent to disk.
    pub stats_persistent: bool,
    /// The number of records on each data page.
    pub num_records_per_page: usize,
}

impl Default for Options {
    fn default() -> (r: Self)
        ensures
            r.path@ == ""@,
            r.num_records_per_page == 8,
            r.stats_null_method@ == "nulls_equal"@,
            r.stats_persistent,
    {
        Self {
            path: "".to_owned(),
            num_records_per_page: 8,
            stats_null_method: "nulls_equal".to_owned(),
            stats_persistent: true,
        }
    }
}

} // verus!
