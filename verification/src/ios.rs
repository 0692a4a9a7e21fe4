//! Where an iOS build keeps its things.

use vstd::prelude::*;

use crate::manifest::{join, join_path};

verus! {

/// The application's own container on iOS, under `Library/Application
/// Support` in the home directory the platform gives it: the client's one
/// answer there to where its pins, grants and recents go. None without a
/// home directory.
pub fn data_dir(home: Option<&str>) -> (r: Option<String>)
    ensures
        match home {
            Some(h) => r matches Some(p) && p@ == join(join(join(h@, "Library"@), "Application Support"@), "eui"@),
            None => r is None,
        },
{
    match home {
        Some(h) => {
            let a = join_path(h, "Library");
            let b = join_path(a.as_str(), "Application Support");
            Some(join_path(b.as_str(), "eui"))
        },
        None => None,
    }
}

} // verus!
