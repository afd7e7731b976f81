//! Host addresses and the uniqueness rule over them: no onion address and
//! no domain may be claimed by two hosts.

use vstd::prelude::*;

use crate::error::ErrorKind;
use crate::gateway::GatewayId;

verus! {

/// How a public domain reaches the host: through which gateway, and with
/// which certificate provider, if any.
#[derive(Debug)]
pub struct PublicDomainConfig {
    pub gateway: GatewayId,
    pub acme: Option<Vec<u8>>,
}

/// One address a host answers under.
#[derive(Debug)]
pub enum HostAddress {
    Onion { address: Vec<u8> },
    Domain { address: Vec<u8>, public: Option<PublicDomainConfig> },
}

/// Two equal byte strings appear at different positions.
pub open spec fn has_duplicate(xs: Seq<Vec<u8>>) -> bool {
    exists|i: int, j: int| 0 <= i < j < xs.len() && (#[trigger] xs[i])@ == (#[trigger] xs[j])@
}

/// Refuse a configuration in which an onion address or a domain appears
/// twice across all hosts. The caller hands in all claimed onion addresses
/// and all claimed domains (public and private together).
pub fn check_duplicates(onions: &Vec<Vec<u8>>, domains: &Vec<Vec<u8>>) -> (r: Result<
    (),
    ErrorKind,
>)
    ensures
        match r {
            Ok(()) => !has_duplicate(onions@) && !has_duplicate(domains@),
            Err(k) => k == ErrorKind::InvalidConfig && (has_duplicate(onions@) || has_duplicate(
                domains@,
            )),
        },
{
    if find_duplicate(onions) {
        return Err(ErrorKind::InvalidConfig);
    }
    if find_duplicate(domains) {
        return Err(ErrorKind::InvalidConfig);
    }
    Ok(())
}

/// Whether any byte string appears twice in the list.
fn find_duplicate(xs: &Vec<Vec<u8>>) -> (r: bool)
    ensures
        r == has_duplicate(xs@),
{
    let n = xs.len();
    let mut i: usize = 0;
    while i < n
        invariant
            i <= n,
            n == xs@.len(),
            forall|a: int, b: int| 0 <= a < b < i ==> (#[trigger] xs@[a])@ != (#[trigger] xs@[b])@,
        decreases n - i,
    {
        let mut j: usize = 0;
        while j < i
            invariant
                j <= i < n,
                n == xs@.len(),
                forall|b: int| 0 <= b < j ==> (#[trigger] xs@[b])@ != xs@[i as int]@,
            decreases i - j,
        {
            if crate::signature::bytes_eq(xs[j].as_slice(), xs[i].as_slice()) {
                proof {
                    assert(xs@[j as int]@ == xs@[i as int]@);
                }
                return true;
            }
            j = j + 1;
        }
        i = i + 1;
    }
    proof {
        if has_duplicate(xs@) {
            let (a, b) = choose|a: int, b: int|
                0 <= a < b < xs@.len() && (#[trigger] xs@[a])@ == (#[trigger] xs@[b])@;
            assert(false);
        }
    }
    false
}

} // verus!
