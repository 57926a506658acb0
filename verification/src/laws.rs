//! The library's general guarantees, stated and proved once over the
//! mathematical model: lossless serialization, attenuation monotonicity and
//! the closed-world conjunction of caveats.

use vstd::prelude::*;
use crate::token::{TokenV, BlockV, spec_enc_token, spec_parse_token, tokenv_wf,
    lemma_parse_enc_token};
use crate::datalog::{PredV, RuleV, caveat_holds, steps, stable_at};
use crate::verification::{token_facts, token_rules, block_caveats_hold, list_caveats_hold,
    token_syms_resolvable, block_in_table};
use crate::token::token_table;

verus! {

/// Round trip: parsing the encoding of any unsealed token yields that very
/// token, blocks, keys and signatures alike. `Biscuit::from` of
/// `Biscuit::to_vec` therefore loses nothing.
pub proof fn law_round_trip(t: TokenV)
    requires
        tokenv_wf(t),
        !t.sealed,
    ensures
        spec_parse_token(spec_enc_token(t)) == Some(t),
{
    lemma_parse_enc_token(t);
}

/// Serialization is injective: tokens with different content have different
/// byte strings, so a block's symbols never leak into another token's bytes.
pub proof fn law_encoding_injective(t1: TokenV, t2: TokenV)
    requires
        tokenv_wf(t1),
        tokenv_wf(t2),
        !t1.sealed,
        !t2.sealed,
        spec_enc_token(t1) == spec_enc_token(t2),
    ensures
        t1 == t2,
{
    lemma_parse_enc_token(t1);
    lemma_parse_enc_token(t2);
}

/// Appending a caveat-only block changes neither the fact set nor the rule
/// set a verifier evaluates.
pub proof fn lemma_caveat_block_same_world(blocks1: Seq<BlockV>, blocks2: Seq<BlockV>, bv: BlockV)
    requires
        blocks2 == blocks1.push(bv),
        bv.facts.len() == 0,
        bv.rules.len() == 0,
    ensures
        token_facts(blocks2) == token_facts(blocks1),
        token_rules(blocks2) == token_rules(blocks1),
{
    assert(blocks2.drop_last() =~= blocks1);
    assert(blocks2.last() == bv);
    assert(bv.facts =~= Seq::<PredV>::empty());
    assert(bv.rules =~= Seq::<RuleV>::empty());
    assert(token_facts(blocks1) + bv.facts =~= token_facts(blocks1));
    assert(token_rules(blocks1) + bv.rules =~= token_rules(blocks1));
}

/// Attenuation monotonicity: appending a block that carries only caveats
/// leaves the evaluated world unchanged, and the extended token's caveats
/// hold exactly when the original token's caveats hold and every caveat of
/// the new block holds against the same world.
pub proof fn law_attenuation(
    blocks1: Seq<BlockV>,
    blocks2: Seq<BlockV>,
    bv: BlockV,
    vrules: Seq<RuleV>,
    vfacts: Seq<PredV>,
    w: Set<PredV>,
    n: nat,
)
    requires
        blocks2 == blocks1.push(bv),
        bv.facts.len() == 0,
        bv.rules.len() == 0,
        w == steps(token_rules(blocks1) + vrules, (token_facts(blocks1) + vfacts).to_set(), n),
    ensures
        w == steps(token_rules(blocks2) + vrules, (token_facts(blocks2) + vfacts).to_set(), n),
        block_caveats_hold(blocks2, w) <==> block_caveats_hold(blocks1, w) && (forall|b: int|
            0 <= b < bv.caveats.len() ==> caveat_holds(#[trigger] bv.caveats[b], w)),
{
    lemma_caveat_block_same_world(blocks1, blocks2, bv);
    assert(block_caveats_hold(blocks2, w) ==> block_caveats_hold(blocks1, w) && (forall|b: int|
        0 <= b < bv.caveats.len() ==> caveat_holds(#[trigger] bv.caveats[b], w))) by {
        if block_caveats_hold(blocks2, w) {
            assert forall|a: int, b: int|
                0 <= a < blocks1.len() && 0 <= b < (#[trigger] blocks1[a]).caveats.len()
                    implies caveat_holds(#[trigger] blocks1[a].caveats[b], w) by {
                assert(blocks2[a] == blocks1[a]);
                assert(caveat_holds(blocks2[a].caveats[b], w));
            }
            assert forall|b: int| 0 <= b < bv.caveats.len() implies caveat_holds(
                #[trigger] bv.caveats[b],
                w,
            ) by {
                assert(blocks2[blocks1.len() as int] == bv);
                assert(caveat_holds(blocks2[blocks1.len() as int].caveats[b], w));
            }
        }
    }
    assert((block_caveats_hold(blocks1, w) && (forall|b: int|
        0 <= b < bv.caveats.len() ==> caveat_holds(#[trigger] bv.caveats[b], w)))
        ==> block_caveats_hold(blocks2, w)) by {
        if block_caveats_hold(blocks1, w) && (forall|b: int|
            0 <= b < bv.caveats.len() ==> caveat_holds(#[trigger] bv.caveats[b], w)) {
            assert forall|a: int, b: int|
                0 <= a < blocks2.len() && 0 <= b < (#[trigger] blocks2[a]).caveats.len()
                    implies caveat_holds(#[trigger] blocks2[a].caveats[b], w) by {
                if a < blocks1.len() {
                    assert(blocks2[a] == blocks1[a]);
                    assert(caveat_holds(blocks1[a].caveats[b], w));
                } else {
                    assert(blocks2[a] == bv);
                    assert(caveat_holds(bv.caveats[b], w));
                }
            }
        }
    }
}

/// Appending a block never legitimizes an earlier forward reference: the
/// extended chain resolves exactly when the original chain resolves and the
/// appended block's own content resolves within its own prefix table. An
/// earlier block is always checked against the ranges up to itself, so a
/// later block's symbols cannot widen what an earlier block may reference.
pub proof fn law_append_resolvable(blocks1: Seq<BlockV>, blocks2: Seq<BlockV>, bv: BlockV)
    requires
        blocks2 == blocks1.push(bv),
    ensures
        token_syms_resolvable(blocks2) <==> (token_syms_resolvable(blocks1) && block_in_table(
            bv,
            token_table(blocks2).len() as int,
        )),
{
    let n1 = blocks1.len() as int;
    assert forall|i: int| 0 <= i <= n1 implies #[trigger] blocks2.take(i) == blocks1.take(i) by {
        assert(blocks2.take(i) =~= blocks1.take(i));
    }
    assert(blocks2.take(n1 + 1) =~= blocks2);
    if token_syms_resolvable(blocks2) {
        assert forall|i: int| 0 <= i < n1 implies block_in_table(
            #[trigger] blocks1[i],
            token_table(blocks1.take(i + 1)).len() as int,
        ) by {
            assert(blocks2[i] == blocks1[i]);
            assert(block_in_table(blocks2[i], token_table(blocks2.take(i + 1)).len() as int));
        }
        assert(blocks2[n1] == bv);
        assert(block_in_table(bv, token_table(blocks2.take(n1 + 1)).len() as int));
    }
    if token_syms_resolvable(blocks1) && block_in_table(bv, token_table(blocks2).len() as int) {
        assert forall|i: int| 0 <= i < blocks2.len() implies block_in_table(
            #[trigger] blocks2[i],
            token_table(blocks2.take(i + 1)).len() as int,
        ) by {
            if i < n1 {
                assert(blocks2[i] == blocks1[i]);
                assert(block_in_table(blocks1[i], token_table(blocks1.take(i + 1)).len() as int));
            } else {
                assert(blocks2[i] == bv);
            }
        }
    }
}

/// Fail-closed: caveats are conjunctive. While one caveat fails against the
/// world, replacing any other caveat cannot make the whole verification
/// pass: only mending the failing caveat itself can.
pub proof fn law_fail_closed(cs1: Seq<RuleV>, cs2: Seq<RuleV>, w: Set<PredV>, i: int, j: int)
    requires
        cs1.len() == cs2.len(),
        0 <= i < cs1.len(),
        0 <= j < cs1.len(),
        i != j,
        !caveat_holds(cs1[i], w),
        cs2[i] == cs1[i],
    ensures
        !list_caveats_hold(cs1, w),
        !list_caveats_hold(cs2, w),
{
    assert(!caveat_holds(cs2[i], w));
}

} // verus!
