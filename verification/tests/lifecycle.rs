//! End-to-end exercises of the token lifecycle: build, attenuate, serialize,
//! seal and verify.

use biscuit_token::builder::{fact, rule, symbol, string, integer, variable, Predicate};
use biscuit_token::crypto::KeyPair;
use biscuit_token::token::Biscuit;
use biscuit_token::verification::Verifier;
use biscuit_token::error::{Error, Format, FailedCaveat, Logic};

fn check_right_caveat() -> biscuit_token::builder::Rule {
    // check_right($0, $1) <- right(#authority, $0, $1), resource(#ambient, $0),
    // operation(#ambient, $1)
    rule(
        "check_right",
        vec![variable(0), variable(1)],
        vec![
            Predicate {
                name: "right".to_string(),
                ids: vec![symbol("authority"), variable(0), variable(1)],
            },
            Predicate {
                name: "resource".to_string(),
                ids: vec![symbol("ambient"), variable(0)],
            },
            Predicate {
                name: "operation".to_string(),
                ids: vec![symbol("ambient"), variable(1)],
            },
        ],
    )
}

#[test]
fn basic_scenario_read_allowed_write_denied() {
    let root = KeyPair::new();
    let mut builder = Biscuit::new();
    builder.add_right("file1", "read");
    let token = builder.build(&root).expect("build");

    let mut verifier = Verifier::new();
    verifier.add_resource("file1");
    verifier.add_operation("read");
    verifier.add_caveat(check_right_caveat());
    let res = verifier.verify(&root.public_key(), &token);
    assert!(res.is_ok());

    let mut verifier2 = Verifier::new();
    verifier2.add_resource("file1");
    verifier2.add_operation("write");
    verifier2.add_caveat(check_right_caveat());
    let res2 = verifier2.verify(&root.public_key(), &token);
    match res2 {
        Err(Error::FailedLogic(Logic::FailedCaveats(v))) => {
            assert_eq!(v.len(), 1);
            match &v[0] {
                FailedCaveat::Verifier(fc) => {
                    assert_eq!(fc.caveat_id, 0);
                    assert!(fc.rule.contains("check_right"));
                }
                other => panic!("expected a verifier caveat failure, got {:?}", other),
            }
        }
        other => panic!("expected FailedCaveats, got {:?}", other),
    }
}

#[test]
fn round_trip_preserves_bytes_and_outcome() {
    let root = KeyPair::new();
    let mut builder = Biscuit::new();
    builder.add_right("file1", "read");
    builder.add_right("file2", "read");
    let token = builder.build(&root).expect("build");
    let bytes = token.to_vec();

    let token2 = Biscuit::from(&bytes).expect("from");
    assert_eq!(token2.to_vec(), bytes);
    assert_eq!(token2.blocks.len(), token.blocks.len());

    let mut verifier = Verifier::new();
    verifier.add_resource("file1");
    verifier.add_operation("read");
    verifier.add_caveat(check_right_caveat());
    assert!(verifier.verify(&root.public_key(), &token2).is_ok());
}

#[test]
fn attenuation_caveat_only_block() {
    let root = KeyPair::new();
    let holder = KeyPair::new();
    let mut builder = Biscuit::new();
    builder.add_right("file1", "read");
    builder.add_right("file2", "read");
    let token = builder.build(&root).expect("build");

    // attenuate: only file1 may be read from now on
    let mut block = token.create_block();
    block.add_caveat(rule(
        "resource_check",
        vec![variable(0)],
        vec![Predicate {
            name: "resource".to_string(),
            ids: vec![symbol("ambient"), string("file1")],
        }],
    ));
    let token2 = token.append(&holder, &block).expect("append");
    assert_eq!(token2.blocks.len(), 2);

    let mut v1 = Verifier::new();
    v1.add_resource("file1");
    v1.add_operation("read");
    v1.add_caveat(check_right_caveat());
    assert!(v1.verify(&root.public_key(), &token2).is_ok());

    // the original token still verifies for file2, the attenuated one no longer
    let mut v2 = Verifier::new();
    v2.add_resource("file2");
    v2.add_operation("read");
    v2.add_caveat(check_right_caveat());
    assert!(v2.verify(&root.public_key(), &token).is_ok());
    let denied = v2.verify(&root.public_key(), &token2);
    match denied {
        Err(Error::FailedLogic(Logic::FailedCaveats(v))) => {
            assert!(v.len() >= 1);
            match &v[0] {
                FailedCaveat::Block(fc) => {
                    assert_eq!(fc.block_id, 1);
                    assert_eq!(fc.caveat_id, 0);
                }
                other => panic!("expected a block caveat failure, got {:?}", other),
            }
        }
        other => panic!("expected FailedCaveats, got {:?}", other),
    }
}

#[test]
fn revocation_check_denies_revoked_id() {
    let root = KeyPair::new();
    let holder = KeyPair::new();
    let mut builder = Biscuit::new();
    builder.add_right("file1", "read");
    let token = builder.build(&root).expect("build");

    let mut block = token.create_block();
    block.add_fact(fact("revocation_id", vec![integer(7)]));
    let token2 = token.append(&holder, &block).expect("append");

    let mut verifier = Verifier::new();
    verifier.revocation_check(&vec![1, 2, 3]);
    let res = verifier.verify(&root.public_key(), &token2);
    match res {
        Err(Error::FailedLogic(Logic::FailedCaveats(v))) => {
            assert_eq!(v.len(), 1);
            match &v[0] {
                FailedCaveat::Verifier(fc) => {
                    assert!(fc.rule.contains("revocation_check"));
                }
                other => panic!("expected a verifier caveat failure, got {:?}", other),
            }
        }
        other => panic!("expected FailedCaveats, got {:?}", other),
    }

    let mut verifier2 = Verifier::new();
    verifier2.revocation_check(&vec![1, 2, 3, 7]);
    assert!(verifier2.verify(&root.public_key(), &token2).is_ok());
}

#[test]
fn symbol_isolation_between_tokens() {
    let root = KeyPair::new();
    let mut b1 = Biscuit::new();
    b1.add_right("file2", "read");
    let t1 = b1.build(&root).expect("build");

    let mut b2 = Biscuit::new();
    b2.add_right("file2", "write");
    let t2 = b2.build(&root).expect("build");

    assert_ne!(t1.to_vec(), t2.to_vec());

    // each deserialized token resolves its own symbols correctly
    let r1 = Biscuit::from(&t1.to_vec()).expect("from");
    let mut v1 = Verifier::new();
    v1.add_resource("file2");
    v1.add_operation("read");
    v1.add_caveat(check_right_caveat());
    assert!(v1.verify(&root.public_key(), &r1).is_ok());

    let r2 = Biscuit::from(&t2.to_vec()).expect("from");
    let mut v2 = Verifier::new();
    v2.add_resource("file2");
    v2.add_operation("write");
    v2.add_caveat(check_right_caveat());
    assert!(v2.verify(&root.public_key(), &r2).is_ok());
}

#[test]
fn sealed_token_rejects_append() {
    let root = KeyPair::new();
    let holder = KeyPair::new();
    let mut builder = Biscuit::new();
    builder.add_right("file1", "read");
    let token = builder.build(&root).expect("build");

    let seal_key: Vec<u8> = vec![7u8; 32];
    let sealed_bytes = token.seal(&seal_key).expect("seal");
    let sealed = Biscuit::from_sealed(&sealed_bytes, &seal_key).expect("from_sealed");
    assert!(sealed.sealed);

    let block = sealed.create_block();
    match sealed.append(&holder, &block) {
        Err(Error::Sealed) => {}
        other => panic!("expected Sealed, got {:?}", other),
    }

    // verification still works on the sealed token
    let mut verifier = Verifier::new();
    verifier.add_resource("file1");
    verifier.add_operation("read");
    verifier.add_caveat(check_right_caveat());
    assert!(verifier.verify(&root.public_key(), &sealed).is_ok());

    // a wrong seal key is rejected
    let wrong_key: Vec<u8> = vec![8u8; 32];
    match Biscuit::from_sealed(&sealed_bytes, &wrong_key) {
        Err(Error::Format(Format::SealedSignature)) => {}
        other => panic!("expected SealedSignature, got {:?}", other),
    }
}

#[test]
fn tampering_and_format_errors() {
    let root = KeyPair::new();
    let mut builder = Biscuit::new();
    builder.add_right("file1", "read");
    let token = builder.build(&root).expect("build");
    let bytes = token.to_vec();

    // garbage is a deserialization error
    let garbage: Vec<u8> = vec![1, 2, 3];
    match Biscuit::from(&garbage) {
        Err(Error::Format(Format::DeserializationError(_))) => {}
        other => panic!("expected DeserializationError, got {:?}", other),
    }

    // a flipped byte in the block content breaks the signature chain or the
    // encoding, never yields a usable token silently
    let mut tampered = bytes.clone();
    let mid = tampered.len() / 2;
    tampered[mid] ^= 0xff;
    assert!(Biscuit::from(&tampered).is_err());

    // the wrong root key is refused at verification
    let other_root = KeyPair::new();
    let mut verifier = Verifier::new();
    verifier.add_resource("file1");
    verifier.add_operation("read");
    match verifier.verify(&other_root.public_key(), &token) {
        Err(Error::Format(Format::UnknownPublicKey)) => {}
        other => panic!("expected UnknownPublicKey, got {:?}", other),
    }
}
