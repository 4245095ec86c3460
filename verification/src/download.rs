//! The canonical address a crate archive is downloaded from.
#![allow(unused_imports)]
use vstd::prelude::*;
use vstd::string::*;

use crate::CrateVersion;

verus! {

/// The canonical archive address of a crate version,
/// `https://static.crates.io/crates/{name}/{name}-{version}.crate`.
pub fn crate_download_url(crate_version: &CrateVersion) -> (r: String)
    ensures
        r@ == "https://static.crates.io/crates/"@ + crate_version.krate@ + "/"@
            + crate_version.krate@ + "-"@ + crate_version.version@ + ".crate"@,
{
    let mut s = String::from_str("https://static.crates.io/crates/");
    s.append(crate_version.krate.as_str());
    s.append("/");
    s.append(crate_version.krate.as_str());
    s.append("-");
    s.append(crate_version.version.as_str());
    s.append(".crate");
    proof {
        assert(s@ =~= "https://static.crates.io/crates/"@ + crate_version.krate@ + "/"@
            + crate_version.krate@ + "-"@ + crate_version.version@ + ".crate"@);
    }
    s
}

} // verus!
