//! Trusted boundary to the threshold secret-sharing scheme.
//!
//! Splitting and recombination are done by the sharks crate: Shamir sharing
//! over GF(256), byte-wise, with a 1-based evaluation point prepended to each
//! share.  Its documentation states that any selection of at least the
//! threshold many distinct shares recovers the secret; the dealer's contract
//! records that fact over the name `sss_combined`.

use vstd::prelude::*;

use crate::error::Error;
use core::convert::TryFrom;

verus! {

/// What sharks' recombination returns for a threshold and a sequence of
/// 33-byte shares (evaluation point first).  A pure function of its
/// arguments.
pub uninterp spec fn sss_combined(threshold: int, shares: Seq<Seq<u8>>) -> Seq<u8>;

/// No two selected shares carry the same evaluation point.
pub open spec fn distinct_points(sel: Seq<Seq<u8>>) -> bool {
    forall|a: int, b: int|
        #![trigger sel[a], sel[b]]
        0 <= a < b < sel.len() ==> sel[a][0] != sel[b][0]
}

/// The share bytes `x` are one of the dealt shares.
pub open spec fn among(x: Seq<u8>, dealt: Seq<Vec<u8>>) -> bool {
    exists|j: int| 0 <= j < dealt.len() && x == #[trigger] dealt[j]@
}

/// Every selected share is one of the dealt shares.
pub open spec fn selection_of(sel: Seq<Seq<u8>>, dealt: Seq<Vec<u8>>) -> bool {
    forall|a: int| 0 <= a < sel.len() ==> among(#[trigger] sel[a], dealt)
}

/// The dealt shares recover `secret`: every at-least-`threshold` selection
/// of them with pairwise distinct evaluation points recombines to it.
pub open spec fn deal_recovers(threshold: int, dealt: Seq<Vec<u8>>, secret: Seq<u8>) -> bool {
    forall|sel: Seq<Seq<u8>>|
        sel.len() >= threshold && distinct_points(sel) && selection_of(sel, dealt)
            ==> #[trigger] sss_combined(threshold, sel) == secret
}

/// Relies on sharks::Sharks::dealer: splits a 32-byte secret into `n` shares
/// of 33 bytes, the i-th carrying evaluation point i+1.  Per the crate's
/// documentation, recombining any at-least-`k` of them with pairwise
/// distinct points yields the secret again.
#[verifier::external_body]
pub fn sss_deal(secret: &Vec<u8>, n: u8, k: u8) -> (r: Vec<Vec<u8>>)
    requires
        secret@.len() == 32,
        1 <= k <= n,
    ensures
        r@.len() == n as int,
        forall|i: int|
            0 <= i < n as int ==> (#[trigger] r@[i])@.len() == 33 && r@[i]@[0] == i + 1,
        deal_recovers(k as int, r@, secret@),
{
    let shares: Vec<Vec<u8>> = sharks::Sharks(k)
        .dealer(secret.as_slice())
        .take(n as usize)
        .map(|s| Vec::from(&s))
        .collect();
    shares
}

/// Relies on sharks::Sharks::recover: deterministic recombination of shares.
/// With at least `k` shares of equal length and pairwise distinct evaluation
/// points the crate's source shows that recombination cannot fail.
#[verifier::external_body]
pub fn sss_combine(shares: &Vec<Vec<u8>>, k: u8) -> (r: Vec<u8>)
    requires
        k >= 1,
        shares@.len() >= k as int,
        forall|i: int| 0 <= i < shares@.len() ==> (#[trigger] shares@[i])@.len() == 33,
        forall|a: int, b: int|
            #![trigger shares@[a], shares@[b]]
            0 <= a < b < shares@.len() ==> shares@[a]@[0] != shares@[b]@[0],
    ensures
        r@ == sss_combined(k as int, shares@.map_values(|v: Vec<u8>| v@)),
        r@.len() == 32,
{
    let parsed: Result<Vec<sharks::Share>, &str> = shares
        .iter()
        .map(|s| sharks::Share::try_from(s.as_slice()))
        .collect();
    let parsed = match parsed {
        Ok(p) => p,
        Err(_) => return Vec::new(),
    };
    match sharks::Sharks(k).recover(parsed.as_slice()) {
        Ok(secret) => secret,
        Err(_) => Vec::new(),
    }
}

} // verus!
