//! How a wireless network is secured, from what a scan reports of it.
use vstd::prelude::*;
use crate::utils::text::{matches_at, reads_at, to_chars};

verus! {

/// How a wireless network asks for its password.
#[derive(Debug, Clone, Copy, PartialEq, Eq, Structural)]
pub enum Security {
    /// The network uses WEP.
    Wep,
    /// The network uses WPA.
    Wpa,
    /// The network asks for no password.
    NoPassword,
}

/// How the network is secured whose scan reports `security`: WEP where the
/// report starts with `WEP`, WPA where it starts with `WPA` or `RSN`, else
/// no password.
pub open spec fn security_of(security: Seq<char>) -> Security {
    if reads_at(security, 0, "WEP"@) {
        Security::Wep
    } else if reads_at(security, 0, "WPA"@) || reads_at(security, 0, "RSN"@) {
        Security::Wpa
    } else {
        Security::NoPassword
    }
}

/// How the network is secured whose scan reports `security`.
pub fn protocol(security: &str) -> (kind: Security)
    ensures
        kind == security_of(security@),
{
    let chars = to_chars(security);
    let wep = to_chars("WEP");
    let wpa = to_chars("WPA");
    let rsn = to_chars("RSN");
    if matches_at(chars.as_slice(), 0, wep.as_slice()) {
        Security::Wep
    } else if matches_at(chars.as_slice(), 0, wpa.as_slice()) || matches_at(
        chars.as_slice(),
        0,
        rsn.as_slice(),
    ) {
        Security::Wpa
    } else {
        Security::NoPassword
    }
}

} // verus!
