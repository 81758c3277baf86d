//! The user's configuration: the names of the tags, in the catalog's order.

use crate::models::default_names;
use vstd::prelude::*;

verus! {

/// The configuration as the user's file holds it.
#[derive(Debug)]
pub struct Config {
    /// The tag names, in the order in which a form offers them.
    pub tags: Vec<String>,
}

/// The names that a list of strings holds.
pub open spec fn names_of(tags: Seq<String>) -> Seq<Seq<char>> {
    Seq::new(tags.len(), |i: int| tags[i]@)
}

impl Config {
    /// The tag names that the configuration holds.
    pub open spec fn names(&self) -> Seq<Seq<char>> {
        names_of(self.tags@)
    }
}

impl Default for Config {
    /// The configuration of a user who has written none: the six default
    /// tags.
    fn default() -> (config: Config)
        ensures
            config.names() == default_names(),
    {
        let tags = vec![
            "food".to_owned(),
            "travel".to_owned(),
            "shopping".to_owned(),
            "bills".to_owned(),
            "salary".to_owned(),
            "other".to_owned(),
        ];
        assert(names_of(tags@) =~= default_names());
        Config { tags }
    }
}

} // verus!
