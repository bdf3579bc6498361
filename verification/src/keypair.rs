//! The keys that sign a deployment.

use vstd::prelude::*;

verus! {

/// The public half of a signing key, as bytes.
#[derive(Debug)]
pub struct PublicKey(pub Vec<u8>);

} // verus!
