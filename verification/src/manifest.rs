//! The manifest of a deployed program.
//!
//! Deploying a program creates a root manifest. The manifest names the
//! program by the identifier of its code and carries the public signing key
//! of the deployer; it is signed by the deployer to prevent forged
//! deployments. The identifier of the manifest is the identifier of the
//! program, and makes the address of the program in turn.
//!
//! Identifiers are content identifiers in their text form. Computing them
//! is left to the caller: this module only keeps them.

use vstd::prelude::*;
use vstd::string::StringExecFns;
use crate::keypair::PublicKey;

verus! {

/// The address of a program: the protocol prefix and the identifier, as in
/// `/amb/zdpuAwAdomEUPx54FZVLt33ZeGZ5...`.
#[derive(Debug)]
pub struct Address<'a> {
    protocol: &'a str,
    hash: &'a str,
}

impl<'a> Address<'a> {
    /// The protocol prefix.
    pub closed spec fn protocol_text(&self) -> Seq<char> {
        self.protocol@
    }

    /// The identifier.
    pub closed spec fn hash_text(&self) -> Seq<char> {
        self.hash@
    }

    /// The address of the program `hash` under the protocol `protocol`.
    pub fn new(protocol: &'a str, hash: &'a str) -> (r: Address<'a>)
        ensures
            r.protocol_text() == protocol@,
            r.hash_text() == hash@,
    {
        Address { hash, protocol }
    }

    /// The protocol prefix.
    pub fn protocol(&self) -> (r: &'a str)
        ensures
            r@ == self.protocol_text(),
    {
        self.protocol
    }

    /// The identifier.
    pub fn hash(&self) -> (r: &'a str)
        ensures
            r@ == self.hash_text(),
    {
        self.hash
    }
}

/// The deployer of a program.
#[derive(Debug)]
pub struct Creator<'a> {
    id: &'a str,
    public_key: &'a PublicKey,
}

impl<'a> Creator<'a> {
    /// The identifier of the deployer.
    pub closed spec fn id_text(&self) -> Seq<char> {
        self.id@
    }

    /// The bytes of the deployer's public key.
    pub closed spec fn key_bytes(&self) -> Seq<u8> {
        self.public_key.0@
    }

    /// The deployer `id` with the key `public_key`.
    pub fn new(id: &'a str, public_key: &'a PublicKey) -> (r: Creator<'a>)
        ensures
            r.id_text() == id@,
            r.key_bytes() == public_key.0@,
    {
        Creator { id, public_key }
    }

    /// The identifier of the deployer.
    pub fn id(&self) -> (r: &'a str)
        ensures
            r@ == self.id_text(),
    {
        self.id
    }

    /// The deployer's public key.
    pub fn public_key(&self) -> (r: &'a PublicKey)
        ensures
            r.0@ == self.key_bytes(),
    {
        self.public_key
    }
}

/// The root manifest of a deployed program. A program that is not signed
/// yet has neither keys nor creator nor signature.
#[derive(Debug)]
pub struct Manifest<'a> {
    program_cid: &'a str,
    name: &'a str,
    keys: Option<Address<'a>>,
    creator: Option<Creator<'a>>,
    signature: Option<Vec<u8>>,
}

impl<'a> Manifest<'a> {
    /// The identifier of the program's code.
    pub closed spec fn program_text(&self) -> Seq<char> {
        self.program_cid@
    }

    /// The name of the program.
    pub closed spec fn name_text(&self) -> Seq<char> {
        self.name@
    }

    /// The address of the keys that may write to the program.
    pub closed spec fn keys_of(&self) -> Option<Address<'a>> {
        self.keys
    }

    /// The deployer.
    pub closed spec fn creator_of(&self) -> Option<Creator<'a>> {
        self.creator
    }

    /// The signature of the deployer.
    pub closed spec fn signature_of(&self) -> Option<Vec<u8>> {
        self.signature
    }

    /// The manifest of the program `name` whose code is `program_cid`.
    pub fn new(
        program_cid: &'a str,
        name: &'a str,
        keys: Option<Address<'a>>,
        creator: Option<Creator<'a>>,
        signature: Option<Vec<u8>>,
    ) -> (r: Manifest<'a>)
        ensures
            r.program_text() == program_cid@,
            r.name_text() == name@,
            r.keys_of() == keys,
            r.creator_of() == creator,
            r.signature_of() == signature,
    {
        Manifest { program_cid, name, keys, creator, signature }
    }

    /// The identifier of the program's code.
    pub fn program_cid(&self) -> (r: &'a str)
        ensures
            r@ == self.program_text(),
    {
        self.program_cid
    }

    /// The name of the program.
    pub fn name(&self) -> (r: &'a str)
        ensures
            r@ == self.name_text(),
    {
        self.name
    }

    /// Whether the manifest carries keys, creator and signature.
    pub fn is_signed(&self) -> (r: bool)
        ensures
            r == (self.keys_of() is Some && self.creator_of() is Some && self.signature_of()
                is Some),
    {
        self.keys.is_some() && self.creator.is_some() && self.signature.is_some()
    }

    /// The label under which a manifest is listed, whatever it holds.
    pub fn to_string(&self) -> (r: String)
        ensures
            r@ == "manifest"@,
    {
        String::from_str("manifest")
    }
}

} // verus!
