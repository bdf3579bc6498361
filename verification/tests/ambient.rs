use ambients::ambient::Ambient;
use ambients::deployed;
use ambients::keypair::PublicKey;
use ambients::manifest::{Address, Creator, Manifest};
use ambients::parser::Expected;
use cid::{Cid, Codec, Version};
use multihash::Sha2_256;
use std::str::FromStr;

fn identifier(content: &str) -> String {
    Cid::new(Version::V1, Codec::DagCBOR, Sha2_256::digest(content.as_bytes())).unwrap().to_string()
}

#[test]
fn ambient_hello_world() {
    let program = "string[hello[]]";
    let ambient = Ambient::from_str(program).unwrap();
    println!("{}", ambient.to_string());

    let program_cid = identifier(program);
    let manifest = Manifest::new(&program_cid, "hello-world", None, None, None);
    let ambient = deployed::Ambient::new("hello-world", program, identifier(manifest.name()));
    println!("{}", ambient.to_string())
}

#[test]
fn a_deployed_ambient_keeps_what_it_is_given() {
    let program = "string[hello[]]";
    let cid = identifier(program);
    assert!(cid.starts_with("bafy"));
    let ambient = deployed::Ambient::new("hello-world", program, cid.clone());
    assert_eq!(ambient.cid(), cid);
    assert_eq!(ambient.name(), "hello-world");
    assert_eq!(ambient.program(), program);
    assert_eq!(ambient.to_string(), "\"ambient\"");
    assert_eq!(
        format!("{:?}", ambient.ast().unwrap()),
        r#"Ambient("string", Noop("hello"))"#
    );
    let broken = deployed::Ambient::new("broken", "a[", cid);
    assert_eq!(broken.ast().unwrap_err().position, 2);
}

#[test]
fn a_manifest_keeps_what_it_is_given() {
    let program_cid = identifier("a[]");
    let key = PublicKey(vec![4, 201, 104]);
    let key_cid = identifier("key");

    let unsigned = Manifest::new(&program_cid, "a", None, None, None);
    assert_eq!(unsigned.program_cid(), program_cid);
    assert_eq!(unsigned.name(), "a");
    assert!(!unsigned.is_signed());
    assert_eq!(unsigned.to_string(), "manifest");

    let keys = Address::new("amb", &key_cid);
    assert_eq!(keys.protocol(), "amb");
    assert_eq!(keys.hash(), key_cid);
    let creator = Creator::new(&key_cid, &key);
    assert_eq!(creator.id(), key_cid);
    assert_eq!(creator.public_key().0, vec![4, 201, 104]);

    let half = Manifest::new(&program_cid, "a", Some(Address::new("amb", &key_cid)), None, None);
    assert!(!half.is_signed());
    let signed = Manifest::new(&program_cid, "a", Some(keys), Some(creator), Some(vec![48, 68]));
    assert!(signed.is_signed());
}

#[test]
fn an_ambient_holds_the_term_of_its_program() {
    let ambient = Ambient::from_str("string[hello[]]").unwrap();
    assert_eq!(
        format!("{:?}", ambient.ast()),
        r#"Ambient("string", Noop("hello"))"#
    );
    assert_eq!(ambient.to_string(), "\"ambient\"");
    let parsed: Ambient = "a[] | b[]".parse().unwrap();
    assert_eq!(format!("{:?}", parsed.ast()), r#"Parallel([Noop("a"), Noop("b")])"#);
}

#[test]
fn an_ambient_is_not_made_of_a_broken_program() {
    let e = Ambient::from_str("string[hello[]").unwrap_err();
    assert_eq!(e.position, 14);
    assert_eq!(e.expected, Expected::ClosingBracket);
}
