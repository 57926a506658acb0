//! Structural validation errors: bad block indices, broken signatures and
//! overlapping symbol ranges.

use biscuit_token::builder::{rule, symbol, string, variable};
use biscuit_token::crypto::KeyPair;
use biscuit_token::datalog::{Predicate, Term};
use biscuit_token::symbols::SymbolTable;
use biscuit_token::token::{Biscuit, Block, enc_block};
use biscuit_token::verification::Verifier;
use biscuit_token::error::{Error, Format, Logic, Signature};

fn simple_token(root: &KeyPair) -> Biscuit {
    let mut builder = Biscuit::new();
    builder.add_right("file1", "read");
    builder.build(root).expect("build")
}

#[test]
fn authority_block_must_have_index_zero() {
    let root = KeyPair::new();
    let mut token = simple_token(&root);
    token.blocks[0].index = 5;
    match Biscuit::from(&token.to_vec()) {
        Err(Error::InvalidAuthorityIndex(found)) => assert_eq!(found, 5),
        other => panic!("expected InvalidAuthorityIndex, got {:?}", other),
    }
}

#[test]
fn block_index_must_match_position() {
    let root = KeyPair::new();
    let holder = KeyPair::new();
    let token = simple_token(&root);
    let block = token.create_block();
    let mut token2 = token.append(&holder, &block).expect("append");
    token2.blocks[1].index = 7;
    match Biscuit::from(&token2.to_vec()) {
        Err(Error::InvalidBlockIndex(e)) => {
            assert_eq!(e.expected, 1);
            assert_eq!(e.found, 7);
        }
        other => panic!("expected InvalidBlockIndex, got {:?}", other),
    }
}

#[test]
fn broken_signature_is_rejected() {
    let root = KeyPair::new();
    let mut token = simple_token(&root);
    token.signatures[0][0] ^= 1;
    match Biscuit::from(&token.to_vec()) {
        Err(Error::Format(Format::Signature(Signature::InvalidSignature))) => {}
        other => panic!("expected InvalidSignature, got {:?}", other),
    }
}

#[test]
fn overlapping_symbol_ranges_are_rejected() {
    // a hand-crafted token whose block re-declares a default symbol: the
    // chain is consistent, so only the symbol check can refuse it
    let signer = KeyPair::new();
    let block = Block {
        index: 0,
        symbols: SymbolTable {
            symbols: vec!["authority".to_string()],
        },
        facts: vec![],
        rules: vec![],
        caveats: vec![],
    };
    let msg = enc_block(&block);
    let sig = signer.sign(&msg).expect("sign");
    let token = Biscuit {
        blocks: vec![block],
        keys: vec![signer.public_key().to_bytes().clone()],
        signatures: vec![sig],
        sealed: false,
    };
    match Biscuit::from(&token.to_vec()) {
        Err(Error::SymbolTableOverlap) => {}
        other => panic!("expected SymbolTableOverlap, got {:?}", other),
    }
}

fn crafted_single_block_token(block: Block) -> (Biscuit, KeyPair) {
    let signer = KeyPair::new();
    let msg = enc_block(&block);
    let sig = signer.sign(&msg).expect("sign");
    let token = Biscuit {
        blocks: vec![block],
        keys: vec![signer.public_key().to_bytes().clone()],
        signatures: vec![sig],
        sealed: false,
    };
    (token, signer)
}

#[test]
fn unresolvable_symbol_index_is_rejected() {
    // a fact referencing a symbol beyond the reconstructed table
    let block = Block {
        index: 0,
        symbols: SymbolTable { symbols: vec![] },
        facts: vec![Predicate {
            name: 4, // "right" in the default table
            args: vec![Term::Symbol(99)],
        }],
        rules: vec![],
        caveats: vec![],
    };
    let (token, signer) = crafted_single_block_token(block);
    let verifier = Verifier::new();
    match verifier.verify(&signer.public_key(), &token) {
        Err(Error::MissingSymbols) => {}
        other => panic!("expected MissingSymbols, got {:?}", other),
    }
}

#[test]
fn non_ground_token_fact_is_rejected() {
    // a crafted authority fact holding a variable is refused at verification
    let block = Block {
        index: 0,
        symbols: SymbolTable { symbols: vec![] },
        facts: vec![Predicate {
            name: 4,
            args: vec![Term::Symbol(0), Term::Variable(0)],
        }],
        rules: vec![],
        caveats: vec![],
    };
    let (token, signer) = crafted_single_block_token(block);
    let verifier = Verifier::new();
    match verifier.verify(&signer.public_key(), &token) {
        Err(Error::FailedLogic(Logic::InvalidAuthorityFact(_))) => {}
        other => panic!("expected InvalidAuthorityFact, got {:?}", other),
    }
}

#[test]
fn forward_symbol_reference_stays_rejected_after_append() {
    // block 0 references a symbol index one past the default table; no block
    // defines it yet, so verification is denied
    let block = Block {
        index: 0,
        symbols: SymbolTable { symbols: vec![] },
        facts: vec![Predicate {
            name: 4,
            args: vec![Term::Symbol(0), Term::Symbol(7)],
        }],
        rules: vec![],
        caveats: vec![],
    };
    let (token, signer) = crafted_single_block_token(block);
    let verifier = Verifier::new();
    match verifier.verify(&signer.public_key(), &token) {
        Err(Error::MissingSymbols) => {}
        other => panic!("expected MissingSymbols, got {:?}", other),
    }

    // a caveat-only append interning a fresh symbol lengthens the table, but
    // block 0 is still checked against its own prefix: the denial stands
    let holder = KeyPair::new();
    let mut bb = token.create_block();
    bb.add_caveat(rule(
        "fresh_check",
        vec![variable(0)],
        vec![biscuit_token::builder::Predicate {
            name: "resource".to_string(),
            ids: vec![symbol("ambient"), symbol("brand_new_symbol")],
        }],
    ));
    let token2 = token.append(&holder, &bb).expect("append");
    match verifier.verify(&signer.public_key(), &token2) {
        Err(Error::MissingSymbols) => {}
        other => panic!("expected MissingSymbols after append, got {:?}", other),
    }
}

#[test]
fn holder_rule_with_variable_head_tag_is_rejected() {
    // a holder-block rule whose head starts with a variable could derive an
    // authority-tagged fact; the scope check refuses it
    let root = KeyPair::new();
    let holder = KeyPair::new();
    let mut builder = Biscuit::new();
    builder.add_right("file1", "read");
    let token = builder.build(&root).expect("build");

    let mut bb = token.create_block();
    bb.add_rule(rule(
        "right",
        vec![variable(0), string("file9"), symbol("write")],
        vec![biscuit_token::builder::Predicate {
            name: "right".to_string(),
            ids: vec![variable(0), string("file1"), symbol("read")],
        }],
    ));
    let token2 = token.append(&holder, &bb).expect("append");

    let verifier = Verifier::new();
    match verifier.verify(&root.public_key(), &token2) {
        Err(Error::FailedLogic(Logic::InvalidBlockRule(r))) => {
            assert_eq!(r.block_id, 1);
        }
        other => panic!("expected InvalidBlockRule, got {:?}", other),
    }
}
