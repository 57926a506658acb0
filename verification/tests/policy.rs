//! Exercises of the policy algebra: rule derivation to a fixpoint, each
//! constraint kind, constraint validation and the symbol table.

use biscuit_token::builder::{fact, rule, constrained_rule, symbol, string, integer, date,
    variable, Predicate, Constraint, ConstraintKind, ConstraintData};
use biscuit_token::crypto::KeyPair;
use biscuit_token::token::Biscuit;
use biscuit_token::verification::Verifier;
use biscuit_token::error::{Error, Logic};
use biscuit_token::symbols::SymbolTable;

#[test]
fn rules_derive_to_a_fixpoint() {
    let root = KeyPair::new();
    let mut builder = Biscuit::new();
    builder.add_right("file1", "read");
    // can_access($0) <- right(#authority, $0, #read)
    builder.add_authority_rule(rule(
        "can_access",
        vec![variable(0)],
        vec![Predicate {
            name: "right".to_string(),
            ids: vec![symbol("authority"), variable(0), symbol("read")],
        }],
    ));
    let token = builder.build(&root).expect("build");

    // the caveat needs the derived fact, not a stored one
    let mut verifier = Verifier::new();
    verifier.add_caveat(rule(
        "derived",
        vec![variable(0)],
        vec![Predicate {
            name: "can_access".to_string(),
            ids: vec![string("file1")],
        }],
    ));
    assert!(verifier.verify(&root.public_key(), &token).is_ok());

    let mut verifier2 = Verifier::new();
    verifier2.add_caveat(rule(
        "derived",
        vec![variable(0)],
        vec![Predicate {
            name: "can_access".to_string(),
            ids: vec![string("file9")],
        }],
    ));
    assert!(verifier2.verify(&root.public_key(), &token).is_err());
}

fn caveat_with_constraint(c: Constraint, body: Predicate) -> biscuit_token::builder::Rule {
    constrained_rule("constrained", vec![variable(0)], vec![body], vec![c]).expect("valid")
}

#[test]
fn integer_and_string_constraints() {
    let root = KeyPair::new();
    let mut builder = Biscuit::new();
    builder.add_right("file1", "read");
    let token = builder.build(&root).expect("build");

    // string prefix on the ambient resource: "file" is a prefix of "file1"
    let mut v = Verifier::new();
    v.add_resource("file1");
    v.add_caveat(caveat_with_constraint(
        Constraint {
            id: 0,
            kind: ConstraintKind::String,
            operation: "prefix".to_string(),
            data: ConstraintData::String("file".to_string()),
        },
        Predicate {
            name: "resource".to_string(),
            ids: vec![symbol("ambient"), variable(0)],
        },
    ));
    assert!(v.verify(&root.public_key(), &token).is_ok());

    // suffix that does not match
    let mut v2 = Verifier::new();
    v2.add_resource("file1");
    v2.add_caveat(caveat_with_constraint(
        Constraint {
            id: 0,
            kind: ConstraintKind::String,
            operation: "suffix".to_string(),
            data: ConstraintData::String("9".to_string()),
        },
        Predicate {
            name: "resource".to_string(),
            ids: vec![symbol("ambient"), variable(0)],
        },
    ));
    assert!(v2.verify(&root.public_key(), &token).is_err());

    // integer bound over a block fact
    let holder = KeyPair::new();
    let mut block = token.create_block();
    block.add_fact(fact("level", vec![integer(4)]));
    let token2 = token.append(&holder, &block).expect("append");
    let mut v3 = Verifier::new();
    v3.add_caveat(caveat_with_constraint(
        Constraint {
            id: 0,
            kind: ConstraintKind::Integer,
            operation: "<".to_string(),
            data: ConstraintData::Integer(5),
        },
        Predicate {
            name: "level".to_string(),
            ids: vec![variable(0)],
        },
    ));
    assert!(v3.verify(&root.public_key(), &token2).is_ok());
    let mut v4 = Verifier::new();
    v4.add_caveat(caveat_with_constraint(
        Constraint {
            id: 0,
            kind: ConstraintKind::Integer,
            operation: ">=".to_string(),
            data: ConstraintData::Integer(5),
        },
        Predicate {
            name: "level".to_string(),
            ids: vec![variable(0)],
        },
    ));
    assert!(v4.verify(&root.public_key(), &token2).is_err());
}

#[test]
fn date_constraint_and_set_time() {
    let root = KeyPair::new();
    let mut builder = Biscuit::new();
    builder.add_right("file1", "read");
    // not_expired($0) <- time(#ambient, $0) @ $0 before 1000
    builder.add_authority_caveat(
        constrained_rule(
            "not_expired",
            vec![variable(0)],
            vec![Predicate {
                name: "time".to_string(),
                ids: vec![symbol("ambient"), variable(0)],
            }],
            vec![Constraint {
                id: 0,
                kind: ConstraintKind::Date,
                operation: "before".to_string(),
                data: ConstraintData::Date(1000),
            }],
        )
        .expect("valid"),
    );
    let token = builder.build(&root).expect("build");

    let mut v = Verifier::new();
    v.set_time(500);
    assert!(v.verify(&root.public_key(), &token).is_ok());

    // a later set_time replaces the earlier fact: only the new time counts
    let mut v2 = Verifier::new();
    v2.set_time(500);
    v2.set_time(2000);
    assert!(v2.verify(&root.public_key(), &token).is_err());
}

#[test]
fn illegal_constraint_combination_is_rejected() {
    let r = constrained_rule(
        "broken",
        vec![variable(0)],
        vec![Predicate {
            name: "level".to_string(),
            ids: vec![variable(0)],
        }],
        vec![Constraint {
            id: 0,
            kind: ConstraintKind::Date,
            operation: "prefix".to_string(),
            data: ConstraintData::String("x".to_string()),
        }],
    );
    match r {
        Err(Error::ParseError) => {}
        other => panic!("expected ParseError, got {:?}", other),
    }
}

#[test]
fn block_scoped_facts_cannot_claim_authority() {
    let root = KeyPair::new();
    let holder = KeyPair::new();
    let mut builder = Biscuit::new();
    builder.add_right("file1", "read");
    let token = builder.build(&root).expect("build");

    let mut block = token.create_block();
    block.add_fact(fact(
        "right",
        vec![symbol("authority"), string("file2"), symbol("read")],
    ));
    let token2 = token.append(&holder, &block).expect("append");

    let verifier = Verifier::new();
    match verifier.verify(&root.public_key(), &token2) {
        Err(Error::FailedLogic(Logic::InvalidBlockFact(f))) => {
            assert_eq!(f.block_id, 1);
        }
        other => panic!("expected InvalidBlockFact, got {:?}", other),
    }
}

#[test]
fn facts_must_be_ground() {
    // a staged fact holding a variable is a construction-time error
    let root = KeyPair::new();
    let mut builder = Biscuit::new();
    builder.add_authority_fact(fact(
        "right",
        vec![symbol("authority"), variable(0), symbol("read")],
    ));
    match builder.build(&root) {
        Err(Error::ParseError) => {}
        other => panic!("expected ParseError, got {:?}", other),
    }

    // the same fact staged for an appended block is rejected too
    let mut builder2 = Biscuit::new();
    builder2.add_right("file1", "read");
    let token = builder2.build(&root).expect("build");
    let holder = KeyPair::new();
    let mut block = token.create_block();
    block.add_fact(fact("level", vec![variable(0)]));
    match token.append(&holder, &block) {
        Err(Error::ParseError) => {}
        other => panic!("expected ParseError, got {:?}", other),
    }
}

#[test]
fn symbol_table_interning() {
    let mut table = SymbolTable::default_table();
    assert_eq!(table.len(), 7);
    let a = table.insert("authority");
    assert_eq!(a, 0);
    let x = table.insert("hello");
    assert_eq!(x, 7);
    let x2 = table.insert("hello");
    assert_eq!(x2, 7);
    assert_eq!(table.resolve(7).unwrap().as_str(), "hello");
    assert!(table.resolve(99).is_none());

    let slice = table.split_at(7);
    assert_eq!(table.len(), 7);
    assert_eq!(slice.len(), 1);
    assert_eq!(slice.resolve(0).unwrap().as_str(), "hello");
}

#[test]
fn print_shows_token_content() {
    let root = KeyPair::new();
    let mut builder = Biscuit::new();
    builder.add_right("file1", "read");
    let token = builder.build(&root).expect("build");
    let s = token.print();
    assert!(s.contains("right"));
    assert!(s.contains("\"file1\""));
    assert!(s.contains("#read"));
}
