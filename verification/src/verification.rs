//! The verification engine: ambient facts, rules and caveats supplied by the
//! verifying party, checked together with a token against the root public
//! key, the fixpoint of the combined fact set, and every declared caveat.

use vstd::prelude::*;
use crate::datalog;
use crate::datalog::{Term, TermV, PredV, RuleV, pred_dup, rule_dup, steps, stable_at,
    caveat_holds, lemma_deep_view_push};
use crate::builder::{Fact, Rule, Predicate, Atom, Constraint, ConstraintKind, ConstraintData,
    BPredV, BRuleV, AtomV, BConstraintV, ConstraintKindV, ConstraintDataV, fact, symbol, string,
    date, variable, convert_staged};
use crate::symbols::SymbolTable;
use crate::token::{Biscuit, TokenV, BlockV, token_table, token_counts_ok, chain_valid,
    token_symbols_ok};
use crate::crypto::PublicKey;
use crate::engine::{compute_world, check_caveat};
use crate::error::{Error, Format, Signature, Logic, FailedCaveat, FailedBlockCaveat,
    FailedVerifierCaveat};

verus! {

/// The facts all blocks of a token carry, in block order.
pub open spec fn token_facts(blocks: Seq<BlockV>) -> Seq<PredV>
    decreases blocks.len(),
{
    if blocks.len() == 0 {
        Seq::empty()
    } else {
        token_facts(blocks.drop_last()) + blocks.last().facts
    }
}

/// The rules all blocks of a token carry, in block order.
pub open spec fn token_rules(blocks: Seq<BlockV>) -> Seq<RuleV>
    decreases blocks.len(),
{
    if blocks.len() == 0 {
        Seq::empty()
    } else {
        token_rules(blocks.drop_last()) + blocks.last().rules
    }
}

/// Taking one more block appends exactly its facts.
pub proof fn lemma_token_facts_take(blocks: Seq<BlockV>, i: int)
    requires
        0 <= i < blocks.len(),
    ensures
        token_facts(blocks.take(i + 1)) == token_facts(blocks.take(i)) + blocks[i].facts,
{
    assert(blocks.take(i + 1).drop_last() =~= blocks.take(i));
    assert(blocks.take(i + 1).last() == blocks[i]);
}

/// Taking one more block appends exactly its rules.
pub proof fn lemma_token_rules_take(blocks: Seq<BlockV>, i: int)
    requires
        0 <= i < blocks.len(),
    ensures
        token_rules(blocks.take(i + 1)) == token_rules(blocks.take(i)) + blocks[i].rules,
{
    assert(blocks.take(i + 1).drop_last() =~= blocks.take(i));
    assert(blocks.take(i + 1).last() == blocks[i]);
}

/// A fact is ground: no argument is a variable.
pub open spec fn predv_ground(p: PredV) -> bool {
    forall|k: int| 0 <= k < p.args.len() ==> !((#[trigger] p.args[k]) is Variable)
}

/// A valid authority fact: ground, with the authority symbol (entry zero of
/// the default table) as its first argument.
pub open spec fn is_authority_fact(f: PredV) -> bool {
    &&& predv_ground(f)
    &&& f.args.len() >= 1
    &&& f.args[0] == TermV::Symbol(0)
}

/// A fact carries the ambient scope: its first argument is the ambient
/// symbol, entry one of the default table.
pub open spec fn is_ambient_fact(f: PredV) -> bool {
    f.args.len() >= 1 && f.args[0] == TermV::Symbol(1)
}

/// A valid holder-block fact: ground and claiming neither authority nor
/// ambient scope.
pub open spec fn block_fact_ok(f: PredV) -> bool {
    &&& predv_ground(f)
    &&& f.args.len() >= 1 ==> f.args[0] != TermV::Symbol(0) && f.args[0] != TermV::Symbol(1)
}

/// A holder-block rule head can never instantiate to an authority- or
/// ambient-scoped fact: its first argument is neither of those symbols, nor
/// a variable (which a binding could map to one).
pub open spec fn head_scope_ok(f: PredV) -> bool {
    f.args.len() >= 1 ==> f.args[0] != TermV::Symbol(0) && f.args[0] != TermV::Symbol(1) && !(
    f.args[0] is Variable)
}

/// Decides [`head_scope_ok`].
pub fn head_scope_ok_exec(p: &datalog::Predicate) -> (r: bool)
    ensures
        r == head_scope_ok(p@),
{
    if p.args.len() < 1 {
        return true;
    }
    match &p.args[0] {
        Term::Symbol(y) => *y != 0 && *y != 1,
        Term::Variable(_) => false,
        _ => true,
    }
}

/// Every authority fact is ground and tagged authority.
pub open spec fn authority_facts_ok(blocks: Seq<BlockV>) -> bool {
    forall|j: int| 0 <= j < blocks[0].facts.len() ==> is_authority_fact(#[trigger] blocks[0].facts[j])
}

/// Every holder-block fact is ground and unscoped, and no holder rule
/// derives a scoped fact.
pub open spec fn holder_blocks_ok(blocks: Seq<BlockV>) -> bool {
    &&& forall|i: int, j: int|
        1 <= i < blocks.len() && 0 <= j < (#[trigger] blocks[i]).facts.len() ==> block_fact_ok(
            #[trigger] blocks[i].facts[j],
        )
    &&& forall|i: int, j: int|
        1 <= i < blocks.len() && 0 <= j < (#[trigger] blocks[i]).rules.len() ==> head_scope_ok(
            (#[trigger] blocks[i].rules[j]).head,
        )
}

/// Every verifier-supplied fact is tagged ambient.
pub open spec fn ambient_facts_ok(vfacts: Seq<PredV>) -> bool {
    forall|j: int| 0 <= j < vfacts.len() ==> is_ambient_fact(#[trigger] vfacts[j])
}

// ---------------------------------------------------------------------------
// Symbol indices must resolve within the reconstructed table
// ---------------------------------------------------------------------------

/// A term's symbol index lies within a table of `n` entries.
pub open spec fn term_in_table(t: TermV, n: int) -> bool {
    t matches TermV::Symbol(ix) ==> ix < n
}

/// A predicate's name and every symbol argument lie within the table.
pub open spec fn pred_in_table(p: PredV, n: int) -> bool {
    &&& p.name < n
    &&& forall|k: int| 0 <= k < p.args.len() ==> term_in_table(#[trigger] p.args[k], n)
}

/// Every symbol index of a list lies within a table of `n` entries.
pub open spec fn syms_in_table(s: Seq<u64>, n: int) -> bool {
    forall|k: int| 0 <= k < s.len() ==> (#[trigger] s[k]) < n
}

/// A check's symbol operands lie within the table.
pub open spec fn check_in_table(c: crate::datalog::CheckV, n: int) -> bool {
    match c {
        crate::datalog::CheckV::SymIn(s) => syms_in_table(s, n),
        crate::datalog::CheckV::SymNotIn(s) => syms_in_table(s, n),
        _ => true,
    }
}

/// Decides [`syms_in_table`].
#[verifier::loop_isolation(false)]
pub fn syms_in_table_exec(s: &Vec<u64>, n: u64) -> (r: bool)
    ensures
        r == syms_in_table(s@, n as int),
{
    let m = s.len();
    for k in 0..m
        invariant
            forall|j: int| 0 <= j < k ==> (#[trigger] s@[j]) < n,
    {
        if s[k] >= n {
            assert(!syms_in_table(s@, n as int)) by {
                assert(!(s@[k as int] < n));
            }
            return false;
        }
    }
    true
}

/// A rule's predicates and constraints lie within the table.
pub open spec fn rule_in_table(r: RuleV, n: int) -> bool {
    &&& pred_in_table(r.head, n)
    &&& forall|j: int| 0 <= j < r.body.len() ==> pred_in_table(#[trigger] r.body[j], n)
    &&& forall|j: int|
        0 <= j < r.constraints.len() ==> check_in_table((#[trigger] r.constraints[j]).check, n)
}

/// Every fact, rule and caveat of one block resolves within a table of `n`
/// entries.
pub open spec fn block_in_table(b: BlockV, n: int) -> bool {
    &&& (forall|j: int| 0 <= j < b.facts.len() ==> pred_in_table(#[trigger] b.facts[j], n))
    &&& (forall|j: int| 0 <= j < b.rules.len() ==> rule_in_table(#[trigger] b.rules[j], n))
    &&& (forall|j: int| 0 <= j < b.caveats.len() ==> rule_in_table(#[trigger] b.caveats[j], n))
}

/// Every block's content resolves within the default table plus the symbol
/// ranges of the blocks up to and including it: a forward reference into a
/// later block's range is illegal.
pub open spec fn token_syms_resolvable(blocks: Seq<BlockV>) -> bool {
    forall|i: int|
        0 <= i < blocks.len() ==> block_in_table(
            #[trigger] blocks[i],
            token_table(blocks.take(i + 1)).len() as int,
        )
}

// ---------------------------------------------------------------------------
// The canonical evaluation a verification run performs
// ---------------------------------------------------------------------------

/// Every caveat of every block holds against the evaluated world.
pub open spec fn block_caveats_hold(blocks: Seq<BlockV>, w: Set<PredV>) -> bool {
    forall|a: int, b: int|
        0 <= a < blocks.len() && 0 <= b < (#[trigger] blocks[a]).caveats.len() ==> caveat_holds(
            #[trigger] blocks[a].caveats[b],
            w,
        )
}

/// Every caveat of a list holds against the evaluated world.
pub open spec fn list_caveats_hold(cs: Seq<RuleV>, w: Set<PredV>) -> bool {
    forall|b: int| 0 <= b < cs.len() ==> caveat_holds(#[trigger] cs[b], w)
}

/// The verifier's staged content interned against the token's table: its
/// facts, rules and caveats in datalog form, and the grown table.
pub open spec fn verifier_converted(
    vf: Seq<BPredV>,
    vr: Seq<BRuleV>,
    vc: Seq<BRuleV>,
    t: TokenV,
) -> (Seq<PredV>, Seq<RuleV>, Seq<RuleV>, Seq<Seq<char>>) {
    crate::builder::spec_convert_staged(vf, vr, vc, token_table(t.blocks))
}

/// The rules the fixpoint runs over: the token's, then the verifier's.
pub open spec fn eval_rules(t: TokenV, vrc: Seq<RuleV>) -> Seq<RuleV> {
    token_rules(t.blocks) + vrc
}

/// The initial fact set: the token's facts, then the verifier's.
pub open spec fn eval_facts(t: TokenV, vfc: Seq<PredV>) -> Set<PredV> {
    (token_facts(t.blocks) + vfc).to_set()
}

/// Some pass below the engine's cap is stable.
pub open spec fn fixpoint_reachable(rules: Seq<RuleV>, f0: Set<PredV>) -> bool {
    exists|n: nat| n < crate::engine::MAX_PASSES && #[trigger] stable_at(rules, f0, n)
}

/// The fixpoint: the fact set at any stable pass. All stable passes agree,
/// so the choice does not matter.
pub open spec fn fixpoint_of(rules: Seq<RuleV>, f0: Set<PredV>) -> Set<PredV> {
    steps(rules, f0, choose|n: nat| stable_at(rules, f0, n))
}

/// Any stable pass yields the fixpoint.
pub proof fn lemma_fixpoint_unique(rules: Seq<RuleV>, f0: Set<PredV>, n: nat)
    requires
        stable_at(rules, f0, n),
    ensures
        fixpoint_of(rules, f0) == steps(rules, f0, n),
{
    let m = choose|m: nat| stable_at(rules, f0, m);
    assert(stable_at(rules, f0, m));
    if n <= m {
        crate::datalog::lemma_steps_stable(rules, f0, n, m);
    } else {
        crate::datalog::lemma_steps_stable(rules, f0, m, n);
    }
}

/// An entry of a failure list names the block caveat `(i, j)`.
pub open spec fn failed_has_block(v: Seq<FailedCaveat>, i: int, j: int) -> bool {
    exists|k: int|
        0 <= k < v.len() && match #[trigger] v[k] {
            FailedCaveat::Block(fb) => fb.block_id == i && fb.caveat_id == j,
            FailedCaveat::Verifier(_) => false,
        }
}

/// An entry of a failure list names the verifier caveat `j`.
pub open spec fn failed_has_verifier(v: Seq<FailedCaveat>, j: int) -> bool {
    exists|k: int|
        0 <= k < v.len() && match #[trigger] v[k] {
            FailedCaveat::Verifier(fv) => fv.caveat_id == j,
            FailedCaveat::Block(_) => false,
        }
}

/// Accumulated ambient facts, rules and caveats; the token is supplied at
/// verification time.
#[derive(Debug)]
pub struct Verifier {
    pub facts: Vec<Fact>,
    pub rules: Vec<Rule>,
    pub caveats: Vec<Rule>,
}

impl Verifier {
    /// An empty verification context.
    pub fn new() -> (r: Verifier)
        ensures
            r.facts.deep_view() == Seq::<BPredV>::empty(),
            r.rules.deep_view() == Seq::<BRuleV>::empty(),
            r.caveats.deep_view() == Seq::<BRuleV>::empty(),
    {
        let r = Verifier { facts: Vec::new(), rules: Vec::new(), caveats: Vec::new() };
        proof {
            assert(r.facts.deep_view() =~= Seq::<BPredV>::empty());
            assert(r.rules.deep_view() =~= Seq::<BRuleV>::empty());
            assert(r.caveats.deep_view() =~= Seq::<BRuleV>::empty());
        }
        r
    }

    /// Supplies one ambient fact.
    pub fn add_fact(&mut self, fact: Fact)
        ensures
            final(self).facts.deep_view() == old(self).facts.deep_view().push(fact@),
            final(self).rules == old(self).rules,
            final(self).caveats == old(self).caveats,
    {
        let ghost prev = self.facts;
        let ghost fg = fact;
        self.facts.push(fact);
        proof {
            lemma_deep_view_push(self.facts, prev, fg);
        }
    }

    /// Supplies one ambient rule.
    pub fn add_rule(&mut self, rule_bind: Rule)
        ensures
            final(self).rules.deep_view() == old(self).rules.deep_view().push(rule_bind@),
            final(self).facts == old(self).facts,
            final(self).caveats == old(self).caveats,
    {
        let ghost prev = self.rules;
        let ghost rg = rule_bind;
        self.rules.push(rule_bind);
        proof {
            lemma_deep_view_push(self.rules, prev, rg);
        }
    }

    /// Supplies one verifier caveat.
    pub fn add_caveat(&mut self, caveat: Rule)
        ensures
            final(self).caveats.deep_view() == old(self).caveats.deep_view().push(caveat@),
            final(self).facts == old(self).facts,
            final(self).rules == old(self).rules,
    {
        let ghost prev = self.caveats;
        let ghost cg = caveat;
        self.caveats.push(caveat);
        proof {
            lemma_deep_view_push(self.caveats, prev, cg);
        }
    }

    /// Supplies the ambient fact `resource(#ambient, name)`.
    pub fn add_resource(&mut self, resource: &str)
        ensures
            final(self).facts.deep_view() == old(self).facts.deep_view().push(
                BPredV {
                    name: "resource"@,
                    ids: seq![AtomV::Symbol("ambient"@), AtomV::Str(resource@)],
                },
            ),
            final(self).rules == old(self).rules,
            final(self).caveats == old(self).caveats,
    {
        let mut ids: Vec<Atom> = Vec::new();
        ids.push(symbol("ambient"));
        ids.push(string(resource));
        let f = fact("resource", ids);
        proof {
            assert(f@.ids =~= seq![AtomV::Symbol("ambient"@), AtomV::Str(resource@)]);
        }
        self.add_fact(f);
    }

    /// Supplies the ambient fact `operation(#ambient, #name)`.
    pub fn add_operation(&mut self, operation: &str)
        ensures
            final(self).facts.deep_view() == old(self).facts.deep_view().push(
                BPredV {
                    name: "operation"@,
                    ids: seq![AtomV::Symbol("ambient"@), AtomV::Symbol(operation@)],
                },
            ),
            final(self).rules == old(self).rules,
            final(self).caveats == old(self).caveats,
    {
        let mut ids: Vec<Atom> = Vec::new();
        ids.push(symbol("ambient"));
        ids.push(symbol(operation));
        let f = fact("operation", ids);
        proof {
            assert(f@.ids =~= seq![AtomV::Symbol("ambient"@), AtomV::Symbol(operation@)]);
        }
        self.add_fact(f);
    }

    /// Replaces any prior time fact by `time(#ambient, i)`: the facts are
    /// exactly the old ones without a `time` name, then the new time fact.
    /// At most one time fact exists at verification.
    #[verifier::loop_isolation(false)]
    pub fn set_time(&mut self, i: u64)
        ensures
            final(self).facts.deep_view() == old(self).facts.deep_view().filter(
                |f: BPredV| f.name != "time"@,
            ).push(
                BPredV { name: "time"@, ids: seq![AtomV::Symbol("ambient"@), AtomV::Date(i)] },
            ),
            final(self).rules == old(self).rules,
            final(self).caveats == old(self).caveats,
    {
        proof {
            reveal(Seq::filter);
        }
        let mut kept: Vec<Fact> = Vec::new();
        let n = self.facts.len();
        let time_name: String = "time".to_owned();
        let ghost pred = |f: BPredV| f.name != "time"@;
        proof {
            assert(old(self).facts.deep_view().take(0).filter(pred) =~= Seq::<BPredV>::empty());
            assert(kept.deep_view() =~= Seq::<BPredV>::empty());
        }
        for j in 0..n
            invariant
                n == self.facts@.len(),
                *self == *old(self),
                time_name@ == "time"@,
                kept.deep_view() == old(self).facts.deep_view().take(j as int).filter(pred),
        {
            let ghost prefix = old(self).facts.deep_view().take(j as int);
            proof {
                assert(old(self).facts.deep_view().take(j as int + 1).drop_last() =~= prefix);
                assert(old(self).facts.deep_view().take(j as int + 1).last() == old(
                    self,
                ).facts.deep_view()[j as int]);
            }
            let is_time = self.facts[j].0.name == time_name;
            if !is_time {
                let f = Fact(crate::builder::Predicate {
                    name: self.facts[j].0.name.clone(),
                    ids: dup_atoms(&self.facts[j].0.ids),
                });
                proof {
                    assert(f@ =~= old(self).facts.deep_view()[j as int]);
                    assert(pred(old(self).facts.deep_view()[j as int]));
                }
                let ghost prev = kept;
                let ghost fg = f;
                kept.push(f);
                proof {
                    lemma_deep_view_push(kept, prev, fg);
                    assert(kept.deep_view() =~= old(self).facts.deep_view().take(
                        j as int + 1,
                    ).filter(pred));
                }
            } else {
                proof {
                    assert(old(self).facts.deep_view()[j as int].name == "time"@);
                    assert(!pred(old(self).facts.deep_view()[j as int]));
                    assert(kept.deep_view() =~= old(self).facts.deep_view().take(
                        j as int + 1,
                    ).filter(pred));
                }
            }
        }
        proof {
            assert(old(self).facts.deep_view().take(n as int) =~= old(self).facts.deep_view());
        }
        let mut ids: Vec<Atom> = Vec::new();
        ids.push(symbol("ambient"));
        ids.push(date(i));
        let tf = fact("time", ids);
        proof {
            assert(tf@.ids =~= seq![AtomV::Symbol("ambient"@), AtomV::Date(i)]);
            assert(tf@ =~= (BPredV {
                name: "time"@,
                ids: seq![AtomV::Symbol("ambient"@), AtomV::Date(i)],
            }));
        }
        let ghost prev = kept;
        let ghost tg = tf;
        kept.push(tf);
        proof {
            lemma_deep_view_push(kept, prev, tg);
        }
        self.facts = kept;
    }

    /// Synthesizes the revocation caveat: every `revocation_id` fact's bound
    /// id must be a member of `ids`.
    pub fn revocation_check(&mut self, ids: &Vec<i64>)
        ensures
            final(self).caveats.deep_view() == old(self).caveats.deep_view().push(
                spec_revocation_caveat(ids@),
            ),
            final(self).facts == old(self).facts,
            final(self).rules == old(self).rules,
    {
        let mut head_ids: Vec<Atom> = Vec::new();
        head_ids.push(variable(0));
        let mut body_ids: Vec<Atom> = Vec::new();
        body_ids.push(variable(0));
        let body_pred = crate::builder::Predicate { name: "revocation_id".to_owned(), ids: body_ids };
        let mut body: Vec<Predicate> = Vec::new();
        body.push(body_pred);
        let mut constraints: Vec<Constraint> = Vec::new();
        constraints.push(
            Constraint {
                id: 0,
                kind: ConstraintKind::Integer,
                operation: "in".to_owned(),
                data: ConstraintData::IntegerSet(datalog::dup_i64s(ids)),
            },
        );
        let caveat = Rule {
            head: crate::builder::Predicate { name: "revocation_check".to_owned(), ids: head_ids },
            body,
            constraints,
        };
        proof {
            assert(caveat@ =~= spec_revocation_caveat(ids@));
            assert(caveat@.head.ids =~= seq![AtomV::Variable(0)]);
            assert(caveat@.body =~= seq![
                BPredV { name: "revocation_id"@, ids: seq![AtomV::Variable(0)] },
            ]);
            assert(caveat@.body[0].ids =~= seq![AtomV::Variable(0)]);
            assert(caveat@.constraints =~= seq![
                BConstraintV {
                    id: 0,
                    kind: ConstraintKindV::Integer,
                    operation: "in"@,
                    data: ConstraintDataV::IntegerSet(ids@),
                },
            ]);
        }
        self.add_caveat(caveat);
    }
}

/// The caveat [`Verifier::revocation_check`] declares.
pub open spec fn spec_revocation_caveat(ids: Seq<i64>) -> BRuleV {
    BRuleV {
        head: BPredV { name: "revocation_check"@, ids: seq![AtomV::Variable(0)] },
        body: seq![BPredV { name: "revocation_id"@, ids: seq![AtomV::Variable(0)] }],
        constraints: seq![
            BConstraintV {
                id: 0,
                kind: ConstraintKindV::Integer,
                operation: "in"@,
                data: ConstraintDataV::IntegerSet(ids),
            },
        ],
    }
}

/// The failure report stores block and caveat positions as 32-bit ids; every
/// position must fit.
pub open spec fn report_ids_fit(t: TokenV, nvc: nat) -> bool {
    &&& t.blocks.len() <= u32::MAX
    &&& (forall|i: int|
        0 <= i < t.blocks.len() ==> (#[trigger] t.blocks[i]).caveats.len() <= u32::MAX)
    &&& nvc <= u32::MAX
}

/// Decides [`report_ids_fit`] for the token side.
#[verifier::loop_isolation(false)]
pub fn report_ids_fit_exec(biscuit: &Biscuit, nvc: usize) -> (r: bool)
    ensures
        r == report_ids_fit(biscuit@, nvc as nat),
{
    if biscuit.blocks.len() > u32::MAX as usize || nvc > u32::MAX as usize {
        return false;
    }
    let n = biscuit.blocks.len();
    for i in 0..n
        invariant
            forall|j: int|
                0 <= j < i ==> (#[trigger] biscuit@.blocks[j]).caveats.len() <= u32::MAX,
    {
        if biscuit.blocks[i].caveats.len() > u32::MAX as usize {
            assert(biscuit@.blocks[i as int].caveats.len() > u32::MAX);
            return false;
        }
        assert(biscuit@.blocks[i as int].caveats.len() <= u32::MAX);
    }
    true
}

/// Decides [`predv_ground`].
#[verifier::loop_isolation(false)]
pub fn predv_is_ground_exec(p: &datalog::Predicate) -> (r: bool)
    ensures
        r == predv_ground(p@),
{
    let n = p.args.len();
    for k in 0..n
        invariant
            forall|j: int| 0 <= j < k ==> !((#[trigger] p@.args[j]) is Variable),
    {
        if let Term::Variable(_) = &p.args[k] {
            assert(p@.args[k as int] is Variable);
            return false;
        }
        assert(!(p@.args[k as int] is Variable));
    }
    true
}

/// Decides [`pred_in_table`].
#[verifier::loop_isolation(false)]
pub fn pred_in_table_exec(p: &datalog::Predicate, n: u64) -> (r: bool)
    ensures
        r == pred_in_table(p@, n as int),
{
    if p.name >= n {
        return false;
    }
    let m = p.args.len();
    for k in 0..m
        invariant
            forall|j: int| 0 <= j < k ==> term_in_table(#[trigger] p@.args[j], n as int),
    {
        if let Term::Symbol(ix) = &p.args[k] {
            if *ix >= n {
                assert(!term_in_table(p@.args[k as int], n as int));
                return false;
            }
        }
        assert(term_in_table(p@.args[k as int], n as int));
    }
    true
}

/// Decides [`check_in_table`].
pub fn check_in_table_exec(c: &crate::datalog::ConstraintCheck, n: u64) -> (r: bool)
    ensures
        r == check_in_table(c@, n as int),
{
    match c {
        crate::datalog::ConstraintCheck::SymIn(s) => syms_in_table_exec(s, n),
        crate::datalog::ConstraintCheck::SymNotIn(s) => syms_in_table_exec(s, n),
        _ => true,
    }
}

/// Decides [`rule_in_table`].
#[verifier::loop_isolation(false)]
pub fn rule_in_table_exec(rl: &datalog::Rule, n: u64) -> (r: bool)
    ensures
        r == rule_in_table(rl@, n as int),
{
    if !pred_in_table_exec(&rl.head, n) {
        return false;
    }
    let nb = rl.body.len();
    for j in 0..nb
        invariant
            forall|k: int| 0 <= k < j ==> pred_in_table(#[trigger] rl@.body[k], n as int),
    {
        if !pred_in_table_exec(&rl.body[j], n) {
            assert(!pred_in_table(rl@.body[j as int], n as int));
            return false;
        }
        assert(pred_in_table(rl@.body[j as int], n as int));
    }
    let nc = rl.constraints.len();
    for j in 0..nc
        invariant
            forall|k: int|
                0 <= k < j ==> check_in_table((#[trigger] rl@.constraints[k]).check, n as int),
    {
        if !check_in_table_exec(&rl.constraints[j].check, n) {
            assert(!check_in_table(rl@.constraints[j as int].check, n as int));
            return false;
        }
        assert(check_in_table(rl@.constraints[j as int].check, n as int));
    }
    true
}

/// Decides [`block_in_table`].
#[verifier::loop_isolation(false)]
pub fn block_in_table_exec(blk: &crate::token::Block, n: u64) -> (r: bool)
    ensures
        r == block_in_table(blk@, n as int),
{
    let nf = blk.facts.len();
    for j in 0..nf
        invariant
            forall|k: int| 0 <= k < j ==> pred_in_table(#[trigger] blk@.facts[k], n as int),
    {
        if !pred_in_table_exec(&blk.facts[j], n) {
            assert(!pred_in_table(blk@.facts[j as int], n as int));
            return false;
        }
        assert(pred_in_table(blk@.facts[j as int], n as int));
    }
    let nr = blk.rules.len();
    for j in 0..nr
        invariant
            nf == blk@.facts.len(),
            forall|k: int| 0 <= k < nf ==> pred_in_table(#[trigger] blk@.facts[k], n as int),
            forall|k: int| 0 <= k < j ==> rule_in_table(#[trigger] blk@.rules[k], n as int),
    {
        if !rule_in_table_exec(&blk.rules[j], n) {
            assert(!rule_in_table(blk@.rules[j as int], n as int));
            return false;
        }
        assert(rule_in_table(blk@.rules[j as int], n as int));
    }
    let ncv = blk.caveats.len();
    for j in 0..ncv
        invariant
            nf == blk@.facts.len(),
            nr == blk@.rules.len(),
            forall|k: int| 0 <= k < nf ==> pred_in_table(#[trigger] blk@.facts[k], n as int),
            forall|k: int| 0 <= k < nr ==> rule_in_table(#[trigger] blk@.rules[k], n as int),
            forall|k: int| 0 <= k < j ==> rule_in_table(#[trigger] blk@.caveats[k], n as int),
    {
        if !rule_in_table_exec(&blk.caveats[j], n) {
            assert(!rule_in_table(blk@.caveats[j as int], n as int));
            return false;
        }
        assert(rule_in_table(blk@.caveats[j as int], n as int));
    }
    true
}

/// Decides [`token_syms_resolvable`], walking the blocks with the prefix
/// table's length: block `i` may reference the default symbols and the
/// ranges of blocks up to and including itself, nothing later.
#[verifier::loop_isolation(false)]
pub fn token_resolvable_exec(biscuit: &Biscuit, total: usize) -> (r: bool)
    requires
        total == token_table(biscuit@.blocks).len(),
    ensures
        r == token_syms_resolvable(biscuit@.blocks),
{
    let mut bound: usize = 7;
    proof {
        assert(crate::symbols::spec_default_symbols().len() == 7);
        assert(crate::token::blocks_symbols(biscuit@.blocks.take(0)) =~= Seq::<Seq<char>>::empty());
        assert(token_table(biscuit@.blocks.take(0)).len() == 7);
        assert(biscuit@.blocks.take(biscuit@.blocks.len() as int) =~= biscuit@.blocks);
    }
    let nb = biscuit.blocks.len();
    for i in 0..nb
        invariant
            bound == token_table(biscuit@.blocks.take(i as int)).len(),
            bound <= total,
            forall|a: int|
                0 <= a < i ==> block_in_table(
                    #[trigger] biscuit@.blocks[a],
                    token_table(biscuit@.blocks.take(a + 1)).len() as int,
                ),
    {
        let bs = biscuit.blocks[i].symbols.symbols.len();
        proof {
            crate::token::lemma_blocks_symbols_take(biscuit@.blocks, i as int);
            assert(token_table(biscuit@.blocks.take(i as int + 1)).len() == bound + bs);
            crate::token::lemma_blocks_symbols_prefix(biscuit@.blocks, i as int + 1);
            assert(token_table(biscuit@.blocks.take(i as int + 1)).len() <= token_table(
                biscuit@.blocks,
            ).len());
        }
        let new_bound = bound + bs;
        if !block_in_table_exec(&biscuit.blocks[i], new_bound as u64) {
            assert(!block_in_table(
                biscuit@.blocks[i as int],
                token_table(biscuit@.blocks.take(i as int + 1)).len() as int,
            ));
            return false;
        }
        proof {
            assert(block_in_table(
                biscuit@.blocks[i as int],
                token_table(biscuit@.blocks.take(i as int + 1)).len() as int,
            ));
        }
        bound = new_bound;
    }
    true
}

/// Whether a fact's first argument is the symbol with index `ix`.
pub fn fact_has_tag(p: &datalog::Predicate, ix: u64) -> (r: bool)
    ensures
        r == (p@.args.len() >= 1 && p@.args[0] == TermV::Symbol(ix)),
{
    if p.args.len() < 1 {
        return false;
    }
    match &p.args[0] {
        Term::Symbol(y) => *y == ix,
        _ => false,
    }
}

/// Byte-string equality.
pub fn bytes_eq(a: &Vec<u8>, b: &Vec<u8>) -> (r: bool)
    ensures
        r == (a@ == b@),
{
    if a.len() != b.len() {
        return false;
    }
    let n = a.len();
    for i in 0..n
        invariant
            n == a@.len() == b@.len(),
            forall|j: int| 0 <= j < i ==> a@[j] == b@[j],
    {
        if a[i] != b[i] {
            return false;
        }
    }
    proof {
        assert(a@ =~= b@);
    }
    true
}

/// Collects the facts and rules of every block, in block order.
#[verifier::loop_isolation(false)]
pub fn collect_token_content(biscuit: &Biscuit) -> (r: (Vec<datalog::Predicate>, Vec<
    datalog::Rule,
>))
    ensures
        r.0.deep_view() == token_facts(biscuit@.blocks),
        r.1.deep_view() == token_rules(biscuit@.blocks),
{
    let mut facts: Vec<datalog::Predicate> = Vec::new();
    let mut rules: Vec<datalog::Rule> = Vec::new();
    let n = biscuit.blocks.len();
    proof {
        assert(facts.deep_view() =~= token_facts(biscuit@.blocks.take(0)));
        assert(rules.deep_view() =~= token_rules(biscuit@.blocks.take(0)));
    }
    for i in 0..n
        invariant
            facts.deep_view() == token_facts(biscuit@.blocks.take(i as int)),
            rules.deep_view() == token_rules(biscuit@.blocks.take(i as int)),
    {
        let b = &biscuit.blocks[i];
        let nf = b.facts.len();
        for j in 0..nf
            invariant
                facts.deep_view() == token_facts(biscuit@.blocks.take(i as int))
                    + biscuit@.blocks[i as int].facts.take(j as int),
        {
            let f = pred_dup(&b.facts[j]);
            let ghost prev = facts;
            let ghost fg = f;
            facts.push(f);
            proof {
                lemma_deep_view_push(facts, prev, fg);
                assert(facts.deep_view() =~= token_facts(biscuit@.blocks.take(i as int))
                    + biscuit@.blocks[i as int].facts.take(j as int + 1));
            }
        }
        let nr = b.rules.len();
        for j in 0..nr
            invariant
                facts.deep_view() == token_facts(biscuit@.blocks.take(i as int))
                    + biscuit@.blocks[i as int].facts.take(nf as int),
                rules.deep_view() == token_rules(biscuit@.blocks.take(i as int))
                    + biscuit@.blocks[i as int].rules.take(j as int),
        {
            let rl = rule_dup(&b.rules[j]);
            let ghost prev = rules;
            let ghost rg = rl;
            rules.push(rl);
            proof {
                lemma_deep_view_push(rules, prev, rg);
                assert(rules.deep_view() =~= token_rules(biscuit@.blocks.take(i as int))
                    + biscuit@.blocks[i as int].rules.take(j as int + 1));
            }
        }
        proof {
            lemma_token_facts_take(biscuit@.blocks, i as int);
            lemma_token_rules_take(biscuit@.blocks, i as int);
            assert(biscuit@.blocks[i as int].facts.take(nf as int)
                =~= biscuit@.blocks[i as int].facts);
            assert(biscuit@.blocks[i as int].rules.take(nr as int)
                =~= biscuit@.blocks[i as int].rules);
            assert(facts.deep_view() =~= token_facts(biscuit@.blocks.take(i as int + 1)));
            assert(rules.deep_view() =~= token_rules(biscuit@.blocks.take(i as int + 1)));
        }
    }
    proof {
        assert(biscuit@.blocks.take(n as int) =~= biscuit@.blocks);
    }
    (facts, rules)
}

/// Appends every element of `extra`, preserving the deep view relation.
pub fn append_preds(base: &mut Vec<datalog::Predicate>, extra: Vec<datalog::Predicate>)
    ensures
        final(base).deep_view() == old(base).deep_view() + extra.deep_view(),
{
    let n = extra.len();
    let ghost extrav = extra.deep_view();
    let mut rest = extra;
    let mut i: usize = 0;
    while i < n
        invariant
            n == extrav.len(),
            rest.deep_view() == extrav,
            i <= n,
            base.deep_view() == old(base).deep_view() + extrav.take(i as int),
        decreases n - i,
    {
        let p = pred_dup(&rest[i]);
        let ghost prev = *base;
        let ghost pg = p;
        base.push(p);
        proof {
            lemma_deep_view_push(*base, prev, pg);
            assert(base.deep_view() =~= old(base).deep_view() + extrav.take(i as int + 1));
        }
        i = i + 1;
    }
    proof {
        assert(extrav.take(n as int) =~= extrav);
    }
}

/// Appends every element of `extra`, preserving the deep view relation.
pub fn append_rules(base: &mut Vec<datalog::Rule>, extra: Vec<datalog::Rule>)
    ensures
        final(base).deep_view() == old(base).deep_view() + extra.deep_view(),
{
    let n = extra.len();
    let ghost extrav = extra.deep_view();
    let rest = extra;
    let mut i: usize = 0;
    while i < n
        invariant
            n == extrav.len(),
            rest.deep_view() == extrav,
            i <= n,
            base.deep_view() == old(base).deep_view() + extrav.take(i as int),
        decreases n - i,
    {
        let p = rule_dup(&rest[i]);
        let ghost prev = *base;
        let ghost pg = p;
        base.push(p);
        proof {
            lemma_deep_view_push(*base, prev, pg);
            assert(base.deep_view() =~= old(base).deep_view() + extrav.take(i as int + 1));
        }
        i = i + 1;
    }
    proof {
        assert(extrav.take(n as int) =~= extrav);
    }
}

/// The whole verification decision: every structural, scope and logic stage
/// passes and every declared caveat holds against the fixpoint.
pub open spec fn structure_pass(t: TokenV, root: Seq<u8>) -> bool {
    &&& token_counts_ok(t)
    &&& t.keys[0] == root
    &&& chain_valid(t)
    &&& token_symbols_ok(t)
    &&& token_syms_resolvable(t.blocks)
}

/// Verification grants the request: all stages pass and all caveats hold.
pub open spec fn verify_grants(
    t: TokenV,
    vf: Seq<BPredV>,
    vr: Seq<BRuleV>,
    vc: Seq<BRuleV>,
    root: Seq<u8>,
) -> bool {
    let sc = verifier_converted(vf, vr, vc, t);
    &&& structure_pass(t, root)
    &&& crate::builder::staged_ok(vf, vr, vc)
    &&& authority_facts_ok(t.blocks)
    &&& ambient_facts_ok(sc.0)
    &&& holder_blocks_ok(t.blocks)
    &&& fixpoint_reachable(eval_rules(t, sc.1), eval_facts(t, sc.0))
    &&& block_caveats_hold(t.blocks, fixpoint_of(eval_rules(t, sc.1), eval_facts(t, sc.0)))
    &&& list_caveats_hold(sc.2, fixpoint_of(eval_rules(t, sc.1), eval_facts(t, sc.0)))
}

impl Verifier {
    /// Verifies a token: checks the signature chain against the root public
    /// key, rebuilds the symbol table, resolves every symbol index, enforces
    /// the scope rules, computes the fixpoint of the combined fact set and
    /// requires every declared caveat to hold. Each stage owes its error: the
    /// result is a function of the verifier's content, the key and the token.
    /// On success returns a diagnostic dump of the world.
    #[verifier::rlimit(100)]
    #[verifier::loop_isolation(false)]
    pub fn verify(&self, root_key: &PublicKey, biscuit: &Biscuit) -> (r: Result<String, Error>)
        ensures
            r is Ok <==> report_ids_fit(biscuit@, self.caveats.deep_view().len()) && verify_grants(
                biscuit@,
                self.facts.deep_view(),
                self.rules.deep_view(),
                self.caveats.deep_view(),
                root_key.pk@,
            ),
            report_ids_fit(biscuit@, self.caveats.deep_view().len()) ==> (r == Err::<String, Error>(
                Error::Format(Format::EmptyKeys),
            ) <==> !token_counts_ok(biscuit@)),
            report_ids_fit(biscuit@, self.caveats.deep_view().len()) && token_counts_ok(biscuit@)
                ==> (r == Err::<String, Error>(Error::Format(Format::UnknownPublicKey))
                <==> biscuit@.keys[0] != root_key.pk@),
            report_ids_fit(biscuit@, self.caveats.deep_view().len()) && token_counts_ok(biscuit@)
                && biscuit@.keys[0] == root_key.pk@ ==> (r == Err::<String, Error>(
                Error::Format(Format::Signature(Signature::InvalidSignature)),
            ) <==> !chain_valid(biscuit@)),
            report_ids_fit(biscuit@, self.caveats.deep_view().len()) && token_counts_ok(biscuit@)
                && biscuit@.keys[0] == root_key.pk@ && chain_valid(biscuit@) ==> (r == Err::<
                String,
                Error,
            >(Error::SymbolTableOverlap) <==> !token_symbols_ok(biscuit@)),
            report_ids_fit(biscuit@, self.caveats.deep_view().len()) && token_counts_ok(biscuit@)
                && biscuit@.keys[0] == root_key.pk@ && chain_valid(biscuit@) && token_symbols_ok(
                biscuit@,
            ) ==> (r == Err::<String, Error>(Error::MissingSymbols) <==> !token_syms_resolvable(
                biscuit@.blocks,
            )),
            report_ids_fit(biscuit@, self.caveats.deep_view().len()) && structure_pass(
                biscuit@,
                root_key.pk@,
            ) ==> (r == Err::<String, Error>(Error::ParseError) <==> !crate::builder::staged_ok(
                self.facts.deep_view(),
                self.rules.deep_view(),
                self.caveats.deep_view(),
            )),
            report_ids_fit(biscuit@, self.caveats.deep_view().len()) && structure_pass(
                biscuit@,
                root_key.pk@,
            ) && crate::builder::staged_ok(
                self.facts.deep_view(),
                self.rules.deep_view(),
                self.caveats.deep_view(),
            ) ==> ((r matches Err(e) && e matches Error::FailedLogic(Logic::InvalidAuthorityFact(
                _,
            ))) <==> !authority_facts_ok(biscuit@.blocks)),
            report_ids_fit(biscuit@, self.caveats.deep_view().len()) && structure_pass(
                biscuit@,
                root_key.pk@,
            ) && crate::builder::staged_ok(
                self.facts.deep_view(),
                self.rules.deep_view(),
                self.caveats.deep_view(),
            ) && authority_facts_ok(biscuit@.blocks) ==> ((r matches Err(e) && e matches
                Error::FailedLogic(Logic::InvalidAmbientFact(_))) <==> !ambient_facts_ok(
                verifier_converted(
                    self.facts.deep_view(),
                    self.rules.deep_view(),
                    self.caveats.deep_view(),
                    biscuit@,
                ).0,
            )),
            report_ids_fit(biscuit@, self.caveats.deep_view().len()) && structure_pass(
                biscuit@,
                root_key.pk@,
            ) && crate::builder::staged_ok(
                self.facts.deep_view(),
                self.rules.deep_view(),
                self.caveats.deep_view(),
            ) && authority_facts_ok(biscuit@.blocks) && ambient_facts_ok(
                verifier_converted(
                    self.facts.deep_view(),
                    self.rules.deep_view(),
                    self.caveats.deep_view(),
                    biscuit@,
                ).0,
            ) ==> ((r matches Err(e) && (e matches Error::FailedLogic(Logic::InvalidBlockFact(_))
                || e matches Error::FailedLogic(Logic::InvalidBlockRule(_))))
                <==> !holder_blocks_ok(biscuit@.blocks)),
            r == Err::<String, Error>(Error::InternalError) <==> {
                ||| !report_ids_fit(biscuit@, self.caveats.deep_view().len())
                ||| (report_ids_fit(biscuit@, self.caveats.deep_view().len()) && structure_pass(
                    biscuit@,
                    root_key.pk@,
                ) && crate::builder::staged_ok(
                    self.facts.deep_view(),
                    self.rules.deep_view(),
                    self.caveats.deep_view(),
                ) && authority_facts_ok(biscuit@.blocks) && ambient_facts_ok(
                    verifier_converted(
                        self.facts.deep_view(),
                        self.rules.deep_view(),
                        self.caveats.deep_view(),
                        biscuit@,
                    ).0,
                ) && holder_blocks_ok(biscuit@.blocks) && !fixpoint_reachable(
                    eval_rules(
                        biscuit@,
                        verifier_converted(
                            self.facts.deep_view(),
                            self.rules.deep_view(),
                            self.caveats.deep_view(),
                            biscuit@,
                        ).1,
                    ),
                    eval_facts(
                        biscuit@,
                        verifier_converted(
                            self.facts.deep_view(),
                            self.rules.deep_view(),
                            self.caveats.deep_view(),
                            biscuit@,
                        ).0,
                    ),
                ))
            },
            report_ids_fit(biscuit@, self.caveats.deep_view().len()) && structure_pass(
                biscuit@,
                root_key.pk@,
            ) && crate::builder::staged_ok(
                self.facts.deep_view(),
                self.rules.deep_view(),
                self.caveats.deep_view(),
            ) && authority_facts_ok(biscuit@.blocks) && ambient_facts_ok(
                verifier_converted(
                    self.facts.deep_view(),
                    self.rules.deep_view(),
                    self.caveats.deep_view(),
                    biscuit@,
                ).0,
            ) && holder_blocks_ok(biscuit@.blocks) && fixpoint_reachable(
                eval_rules(
                    biscuit@,
                    verifier_converted(
                        self.facts.deep_view(),
                        self.rules.deep_view(),
                        self.caveats.deep_view(),
                        biscuit@,
                    ).1,
                ),
                eval_facts(
                    biscuit@,
                    verifier_converted(
                        self.facts.deep_view(),
                        self.rules.deep_view(),
                        self.caveats.deep_view(),
                        biscuit@,
                    ).0,
                ),
            ) ==> ((r matches Err(e) && e matches Error::FailedLogic(Logic::FailedCaveats(_)))
                <==> ({
                let sc = verifier_converted(
                    self.facts.deep_view(),
                    self.rules.deep_view(),
                    self.caveats.deep_view(),
                    biscuit@,
                );
                let w = fixpoint_of(eval_rules(biscuit@, sc.1), eval_facts(biscuit@, sc.0));
                !(block_caveats_hold(biscuit@.blocks, w) && list_caveats_hold(sc.2, w))
            })),
            r matches Err(Error::FailedLogic(Logic::FailedCaveats(v))) ==> ({
                let sc = verifier_converted(
                    self.facts.deep_view(),
                    self.rules.deep_view(),
                    self.caveats.deep_view(),
                    biscuit@,
                );
                let w = fixpoint_of(eval_rules(biscuit@, sc.1), eval_facts(biscuit@, sc.0));
                &&& v@.len() > 0
                &&& !(block_caveats_hold(biscuit@.blocks, w) && list_caveats_hold(sc.2, w))
                &&& (forall|a: int, b: int|
                    #![trigger biscuit@.blocks[a].caveats[b]]
                    0 <= a < biscuit@.blocks.len() && 0 <= b < biscuit@.blocks[a].caveats.len()
                        ==> (!caveat_holds(biscuit@.blocks[a].caveats[b], w) <==> failed_has_block(
                        v@,
                        a,
                        b,
                    )))
                &&& (forall|b: int|
                    0 <= b < sc.2.len() ==> (!caveat_holds(#[trigger] sc.2[b], w)
                        <==> failed_has_verifier(v@, b)))
            }),
            r matches Err(e) ==> !(e matches Error::FailedLogic(Logic::FailedCaveats(v))
                && v@.len() == 0),
    {
        let ghost vf = self.facts.deep_view();
        let ghost vr = self.rules.deep_view();
        let ghost vc = self.caveats.deep_view();
        if !report_ids_fit_exec(biscuit, self.caveats.len()) {
            return Err(Error::InternalError);
        }
        if biscuit.blocks.len() < 1 || biscuit.keys.len() != biscuit.blocks.len()
            || biscuit.signatures.len() != biscuit.blocks.len() {
            return Err(Error::Format(Format::EmptyKeys));
        }
        proof {
            assert(biscuit@.keys[0] =~= biscuit.keys@[0 as int]@);
        }
        if !bytes_eq(&biscuit.keys[0], &root_key.pk) {
            return Err(Error::Format(Format::UnknownPublicKey));
        }
        if !Biscuit::check_chain(biscuit) {
            return Err(Error::Format(Format::Signature(Signature::InvalidSignature)));
        }
        let mut table = match biscuit.build_symbol_table() {
            Ok(t) => t,
            Err(e) => {
                return Err(e);
            },
        };
        let ghost t0 = table@;
        if !token_resolvable_exec(biscuit, table.len()) {
            return Err(Error::MissingSymbols);
        }
        let (vfacts, vrules, vcaveats) = match convert_staged(
            &self.facts,
            &self.rules,
            &self.caveats,
            &mut table,
        ) {
            Ok(o) => o,
            Err(e) => {
                return Err(e);
            },
        };
        let ghost sc = verifier_converted(vf, vr, vc, biscuit@);
        proof {
            assert(vfacts.deep_view() == sc.0);
            assert(vrules.deep_view() == sc.1);
            assert(vcaveats.deep_view() == sc.2);
        }
        // scope rules: authority facts are ground and tagged, verifier facts
        // are ambient, holder blocks are ground and unscoped
        let b0 = &biscuit.blocks[0];
        let b0n = b0.facts.len();
        for j in 0..b0n
            invariant
                b0n == biscuit@.blocks[0].facts.len(),
                biscuit@.blocks.len() >= 1,
                b0 == biscuit.blocks@[0],
                forall|k: int|
                    0 <= k < j ==> is_authority_fact(#[trigger] biscuit@.blocks[0].facts[k]),
        {
            if !fact_has_tag(&b0.facts[j], 0) || !predv_is_ground_exec(&b0.facts[j]) {
                proof {
                    assert(!is_authority_fact(biscuit@.blocks[0].facts[j as int]));
                }
                return Err(
                    Error::FailedLogic(
                        Logic::InvalidAuthorityFact(
                            crate::printer::print_predicate(&b0.facts[j], &table),
                        ),
                    ),
                );
            }
            proof {
                assert(is_authority_fact(biscuit@.blocks[0].facts[j as int]));
            }
        }
        let nvf = vfacts.len();
        for j in 0..nvf
            invariant
                nvf == vfacts.deep_view().len(),
                forall|k: int| 0 <= k < j ==> is_ambient_fact(#[trigger] vfacts.deep_view()[k]),
        {
            if !fact_has_tag(&vfacts[j], 1) {
                proof {
                    assert(vfacts.deep_view()[j as int] == vfacts@[j as int]@);
                    assert(!is_ambient_fact(vfacts.deep_view()[j as int]));
                    assert(!ambient_facts_ok(sc.0));
                }
                return Err(
                    Error::FailedLogic(
                        Logic::InvalidAmbientFact(
                            crate::printer::print_predicate(&vfacts[j], &table),
                        ),
                    ),
                );
            }
            proof {
                assert(is_ambient_fact(vfacts.deep_view()[j as int]));
            }
        }
        let nblocks = biscuit.blocks.len();
        for i in 1..nblocks
            invariant
                nblocks == biscuit@.blocks.len(),
                forall|a: int, b: int|
                    1 <= a < i && 0 <= b < (#[trigger] biscuit@.blocks[a]).facts.len()
                        ==> block_fact_ok(#[trigger] biscuit@.blocks[a].facts[b]),
                forall|a: int, b: int|
                    1 <= a < i && 0 <= b < (#[trigger] biscuit@.blocks[a]).rules.len()
                        ==> head_scope_ok((#[trigger] biscuit@.blocks[a].rules[b]).head),
        {
            let blk = &biscuit.blocks[i];
            let nf = blk.facts.len();
            for j in 0..nf
                invariant
                    nf == biscuit@.blocks[i as int].facts.len(),
                    blk == biscuit.blocks@[i as int],
                    1 <= i < nblocks,
                    nblocks == biscuit@.blocks.len(),
                    forall|b: int|
                        0 <= b < j ==> block_fact_ok(#[trigger] biscuit@.blocks[i as int].facts[b]),
            {
                if fact_has_tag(&blk.facts[j], 0) || fact_has_tag(&blk.facts[j], 1)
                    || !predv_is_ground_exec(&blk.facts[j]) {
                    proof {
                        assert(!block_fact_ok(biscuit@.blocks[i as int].facts[j as int]));
                        assert(!holder_blocks_ok(biscuit@.blocks));
                    }
                    return Err(
                        Error::FailedLogic(
                            Logic::InvalidBlockFact(
                                crate::error::InvalidBlockFact {
                                    block_id: i as u32,
                                    fact: crate::printer::print_predicate(&blk.facts[j], &table),
                                },
                            ),
                        ),
                    );
                }
                proof {
                    assert(block_fact_ok(biscuit@.blocks[i as int].facts[j as int]));
                }
            }
            let nr = blk.rules.len();
            for j in 0..nr
                invariant
                    nr == biscuit@.blocks[i as int].rules.len(),
                    blk == biscuit.blocks@[i as int],
                    1 <= i < nblocks,
                    nblocks == biscuit@.blocks.len(),
                    forall|b: int|
                        0 <= b < nf ==> block_fact_ok(#[trigger] biscuit@.blocks[i as int].facts[b]),
                    nf == biscuit@.blocks[i as int].facts.len(),
                    forall|b: int|
                        0 <= b < j ==> head_scope_ok(
                            (#[trigger] biscuit@.blocks[i as int].rules[b]).head,
                        ),
            {
                if !head_scope_ok_exec(&blk.rules[j].head) {
                    proof {
                        assert(!head_scope_ok(biscuit@.blocks[i as int].rules[j as int].head));
                        assert(!holder_blocks_ok(biscuit@.blocks));
                    }
                    return Err(
                        Error::FailedLogic(
                            Logic::InvalidBlockRule(
                                crate::error::InvalidBlockRule {
                                    block_id: i as u32,
                                    rule: crate::printer::print_rule(&blk.rules[j], &table),
                                },
                            ),
                        ),
                    );
                }
                proof {
                    assert(head_scope_ok(biscuit@.blocks[i as int].rules[j as int].head));
                }
            }
        }
        // the working fact set and rule set
        let (mut wfacts, mut wrules) = collect_token_content(biscuit);
        append_preds(&mut wfacts, vfacts);
        append_rules(&mut wrules, vrules);
        let ghost f0 = wfacts.deep_view().to_set();
        let ghost rdv = wrules.deep_view();
        proof {
            assert(rdv == eval_rules(biscuit@, sc.1));
            assert((token_facts(biscuit@.blocks) + sc.0).to_set() == f0);
            assert(f0 == eval_facts(biscuit@, sc.0));
        }
        let world = match compute_world(wfacts, &wrules) {
            Ok(w) => w,
            Err(_) => {
                return Err(Error::InternalError);
            },
        };
        let ghost wset = world.deep_view().to_set();
        proof {
            let n = choose|n: nat|
                {
                    &&& #[trigger] stable_at(rdv, f0, n)
                    &&& n < crate::engine::MAX_PASSES
                    &&& wset == steps(rdv, f0, n)
                };
            assert(fixpoint_reachable(rdv, f0));
            lemma_fixpoint_unique(rdv, f0, n);
            assert(wset == fixpoint_of(rdv, f0));
        }
        // every caveat must hold against the fixpoint; collect the complete
        // failure list
        let mut failed: Vec<FailedCaveat> = Vec::new();
        for i in 0..nblocks
            invariant
                nblocks == biscuit@.blocks.len(),
                nblocks <= u32::MAX,
                report_ids_fit(biscuit@, vc.len()),
                wset == world.deep_view().to_set(),
                forall|k: int|
                    0 <= k < failed@.len() ==> match #[trigger] failed@[k] {
                        FailedCaveat::Block(fb) => 0 <= fb.block_id < biscuit@.blocks.len()
                            && fb.caveat_id < biscuit@.blocks[fb.block_id as int].caveats.len()
                            && !caveat_holds(
                            biscuit@.blocks[fb.block_id as int].caveats[fb.caveat_id as int],
                            wset,
                        ),
                        FailedCaveat::Verifier(_) => false,
                    },
                forall|a: int, b: int|
                    #![trigger biscuit@.blocks[a].caveats[b]]
                    0 <= a < i && 0 <= b < biscuit@.blocks[a].caveats.len() && !caveat_holds(
                        biscuit@.blocks[a].caveats[b],
                        wset,
                    ) ==> failed_has_block(failed@, a, b),
        {
            let blk = &biscuit.blocks[i];
            let ncv = blk.caveats.len();
            proof {
                assert(biscuit@.blocks[i as int].caveats.len() <= u32::MAX);
            }
            for j in 0..ncv
                invariant
                    ncv == biscuit@.blocks[i as int].caveats.len(),
                    ncv <= u32::MAX,
                    blk == biscuit.blocks@[i as int],
                    i < nblocks,
                    nblocks == biscuit@.blocks.len(),
                    nblocks <= u32::MAX,
                    wset == world.deep_view().to_set(),
                    forall|k: int|
                        0 <= k < failed@.len() ==> match #[trigger] failed@[k] {
                            FailedCaveat::Block(fb) => 0 <= fb.block_id < biscuit@.blocks.len()
                                && fb.caveat_id < biscuit@.blocks[fb.block_id as int].caveats.len()
                                && !caveat_holds(
                                biscuit@.blocks[fb.block_id as int].caveats[fb.caveat_id as int],
                                wset,
                            ),
                            FailedCaveat::Verifier(_) => false,
                        },
                    forall|a: int, b: int|
                        #![trigger biscuit@.blocks[a].caveats[b]]
                        0 <= a < i && 0 <= b < biscuit@.blocks[a].caveats.len() && !caveat_holds(
                            biscuit@.blocks[a].caveats[b],
                            wset,
                        ) ==> failed_has_block(failed@, a, b),
                    forall|b: int|
                        0 <= b < j && !caveat_holds(
                            #[trigger] biscuit@.blocks[i as int].caveats[b],
                            wset,
                        ) ==> failed_has_block(failed@, i as int, b),
            {
                proof {
                    assert(biscuit@.blocks[i as int].caveats[j as int] == blk.caveats@[j as int]@);
                }
                if !check_caveat(&blk.caveats[j], &world) {
                    let entry = FailedCaveat::Block(
                        FailedBlockCaveat {
                            block_id: i as u32,
                            caveat_id: j as u32,
                            rule: crate::printer::print_rule(&blk.caveats[j], &table),
                        },
                    );
                    let ghost pre = failed@;
                    failed.push(entry);
                    proof {
                        assert(failed@ == pre.push(entry));
                        assert forall|a: int, b: int|
                            #![trigger biscuit@.blocks[a].caveats[b]]
                            0 <= a < i && 0 <= b < biscuit@.blocks[a].caveats.len()
                                && !caveat_holds(
                                biscuit@.blocks[a].caveats[b],
                                wset,
                            ) implies failed_has_block(failed@, a, b) by {
                            let k = choose|k: int|
                                0 <= k < pre.len() && match #[trigger] pre[k] {
                                    FailedCaveat::Block(fb) => fb.block_id == a && fb.caveat_id
                                        == b,
                                    FailedCaveat::Verifier(_) => false,
                                };
                            assert(failed@[k] == pre[k]);
                        }
                        assert forall|b: int|
                            0 <= b < j + 1 && !caveat_holds(
                                #[trigger] biscuit@.blocks[i as int].caveats[b],
                                wset,
                            ) implies failed_has_block(failed@, i as int, b) by {
                            if b < j {
                                let k = choose|k: int|
                                    0 <= k < pre.len() && match #[trigger] pre[k] {
                                        FailedCaveat::Block(fb) => fb.block_id == i as int
                                            && fb.caveat_id == b,
                                        FailedCaveat::Verifier(_) => false,
                                    };
                                assert(failed@[k] == pre[k]);
                            } else {
                                assert(failed@[failed@.len() - 1] == entry);
                            }
                        }
                    }
                } else {
                    proof {
                        assert(caveat_holds(biscuit@.blocks[i as int].caveats[j as int], wset));
                    }
                }
            }
        }
        let nvc = vcaveats.len();
        for j in 0..nvc
            invariant
                nvc == sc.2.len(),
                nvc <= u32::MAX,
                vcaveats.deep_view() == sc.2,
                wset == world.deep_view().to_set(),
                forall|k: int|
                    0 <= k < failed@.len() ==> match #[trigger] failed@[k] {
                        FailedCaveat::Block(fb) => 0 <= fb.block_id < biscuit@.blocks.len()
                            && fb.caveat_id < biscuit@.blocks[fb.block_id as int].caveats.len()
                            && !caveat_holds(
                            biscuit@.blocks[fb.block_id as int].caveats[fb.caveat_id as int],
                            wset,
                        ),
                        FailedCaveat::Verifier(fv) => fv.caveat_id < sc.2.len() && !caveat_holds(
                            sc.2[fv.caveat_id as int],
                            wset,
                        ),
                    },
                forall|a: int, b: int|
                    #![trigger biscuit@.blocks[a].caveats[b]]
                    0 <= a < biscuit@.blocks.len() && 0 <= b < biscuit@.blocks[a].caveats.len()
                        && !caveat_holds(biscuit@.blocks[a].caveats[b], wset) ==> failed_has_block(
                        failed@,
                        a,
                        b,
                    ),
                forall|b: int|
                    0 <= b < j && !caveat_holds(#[trigger] sc.2[b], wset) ==> failed_has_verifier(
                        failed@,
                        b,
                    ),
        {
            proof {
                assert(sc.2[j as int] == vcaveats@[j as int]@);
            }
            if !check_caveat(&vcaveats[j], &world) {
                let entry = FailedCaveat::Verifier(
                    FailedVerifierCaveat {
                        caveat_id: j as u32,
                        rule: crate::printer::print_rule(&vcaveats[j], &table),
                    },
                );
                let ghost pre = failed@;
                failed.push(entry);
                proof {
                    assert(failed@ == pre.push(entry));
                    assert forall|a: int, b: int|
                        #![trigger biscuit@.blocks[a].caveats[b]]
                        0 <= a < biscuit@.blocks.len() && 0 <= b < biscuit@.blocks[a].caveats.len()
                            && !caveat_holds(
                            biscuit@.blocks[a].caveats[b],
                            wset,
                        ) implies failed_has_block(failed@, a, b) by {
                        let k = choose|k: int|
                            0 <= k < pre.len() && match #[trigger] pre[k] {
                                FailedCaveat::Block(fb) => fb.block_id == a && fb.caveat_id == b,
                                FailedCaveat::Verifier(_) => false,
                            };
                        assert(failed@[k] == pre[k]);
                    }
                    assert forall|b: int|
                        0 <= b < j + 1 && !caveat_holds(
                            #[trigger] sc.2[b],
                            wset,
                        ) implies failed_has_verifier(failed@, b) by {
                        if b < j {
                            let k = choose|k: int|
                                0 <= k < pre.len() && match #[trigger] pre[k] {
                                    FailedCaveat::Verifier(fv) => fv.caveat_id == b,
                                    FailedCaveat::Block(_) => false,
                                };
                            assert(failed@[k] == pre[k]);
                        } else {
                            assert(failed@[failed@.len() - 1] == entry);
                        }
                    }
                }
            } else {
                proof {
                    assert(caveat_holds(sc.2[j as int], wset));
                }
            }
        }
        if failed.len() > 0 {
            proof {
                assert(match failed@[0] {
                    FailedCaveat::Block(fb) => !caveat_holds(
                        biscuit@.blocks[fb.block_id as int].caveats[fb.caveat_id as int],
                        wset,
                    ),
                    FailedCaveat::Verifier(fv) => !caveat_holds(sc.2[fv.caveat_id as int], wset),
                });
                assert(!(block_caveats_hold(biscuit@.blocks, wset) && list_caveats_hold(
                    sc.2,
                    wset,
                )));
            }
            return Err(Error::FailedLogic(Logic::FailedCaveats(failed)));
        }
        proof {
            assert(block_caveats_hold(biscuit@.blocks, wset)) by {
                assert forall|a: int, b: int|
                    0 <= a < biscuit@.blocks.len() && 0 <= b < (
                    #[trigger] biscuit@.blocks[a]).caveats.len() implies caveat_holds(
                    #[trigger] biscuit@.blocks[a].caveats[b],
                    wset,
                ) by {
                    if !caveat_holds(biscuit@.blocks[a].caveats[b], wset) {
                        assert(failed_has_block(failed@, a, b));
                    }
                }
            }
            assert(list_caveats_hold(sc.2, wset)) by {
                assert forall|b: int| 0 <= b < sc.2.len() implies caveat_holds(
                    #[trigger] sc.2[b],
                    wset,
                ) by {
                    if !caveat_holds(sc.2[b], wset) {
                        assert(failed_has_verifier(failed@, b));
                    }
                }
            }
            assert(verify_grants(biscuit@, vf, vr, vc, root_key.pk@));
        }
        Ok(crate::printer::print_world(&world, &table))
    }
}

/// A copy of a staged atom list with the same values.
pub fn dup_atoms(v: &Vec<Atom>) -> (r: Vec<Atom>)
    ensures
        r.deep_view() == v.deep_view(),
{
    let n = v.len();
    let mut r: Vec<Atom> = Vec::new();
    for i in 0..n
        invariant
            n == v@.len(),
            r.deep_view() =~= v.deep_view().subrange(0, i as int),
    {
        let a: Atom = match &v[i] {
            Atom::Integer(x) => Atom::Integer(*x),
            Atom::Str(x) => Atom::Str(x.clone()),
            Atom::Symbol(x) => Atom::Symbol(x.clone()),
            Atom::Date(x) => Atom::Date(*x),
            Atom::Variable(x) => Atom::Variable(*x),
        };
        let ghost prev = r;
        let ghost ag = a;
        r.push(a);
        proof {
            lemma_deep_view_push(r, prev, ag);
            assert(r.deep_view() =~= v.deep_view().subrange(0, i as int + 1));
        }
    }
    assert(r.deep_view() =~= v.deep_view());
    r
}

} // verus!
