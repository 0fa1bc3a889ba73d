//! Host names of the service.

use vstd::prelude::*;
use crate::text::{ends_with, has_suffix};

verus! {

/// Whether `s` is the host name of a space of the service: a name that
/// ends in `.backlog.com` or in `.backlog.jp`.
pub open spec fn valid_domain(s: Seq<char>) -> bool {
    has_suffix(s, ".backlog.com"@) || has_suffix(s, ".backlog.jp"@)
}

/// Whether `s` is the host name of a space of the service.
pub fn is_valid_domain(s: &str) -> (valid: bool)
    ensures
        valid == valid_domain(s@),
{
    ends_with(s, ".backlog.com") || ends_with(s, ".backlog.jp")
}

} // verus!
