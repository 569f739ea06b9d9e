//! What the system resolver's lookup tool answers for a domain.
use vstd::prelude::*;

use crate::text::{first_prefixed_value, first_prefixed_value_of, lines};

verus! {

/// The IPv4 address in the answer of `dscacheutil -q host`: the value of
/// the first `ip_address:` line that has one.
pub open spec fn resolved_ipv4(output: Seq<char>) -> Option<Seq<char>> {
    first_prefixed_value(lines(output), "ip_address:"@)
}

/// The IPv4 address that the lookup tool's answer `output` gives, if any.
pub fn parse_resolved_ipv4(output: &str) -> (r: Option<String>)
    ensures
        r matches Some(ip) ==> resolved_ipv4(output@) == Some(ip@),
        r is None ==> resolved_ipv4(output@) is None,
{
    first_prefixed_value_of(output, "ip_address:")
}

} // verus!
