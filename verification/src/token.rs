//! Blocks and tokens: a token is an ordered, append-only chain of signed
//! blocks starting with the authority block, each signature chained to the
//! previous block's signature.

use vstd::prelude::*;
use crate::datalog::{Predicate, PredV, Rule, RuleV, pred_dup, rule_dup, dup_strings,
    lemma_deep_view_push};
use crate::symbols::{SymbolTable, spec_default_symbols, table_distinct};
use crate::crypto::{KeyPair, PublicKey, public_of, sig_valid};
use crate::codec::{spec_enc_u64, spec_dec_u64, spec_enc_strs, spec_dec_strs, spec_enc_preds,
    spec_dec_preds, spec_enc_rules, spec_dec_rules, spec_enc_bytes, spec_dec_bytes,
    spec_enc_byteses, spec_dec_byteses, lemma_dec_enc_u64, lemma_dec_enc_strs,
    lemma_dec_enc_preds, lemma_dec_enc_rules, lemma_dec_enc_byteses, lemma_slice_at, enc_u64,
    dec_u64, enc_strs, dec_strs, enc_preds, dec_preds, enc_rules, dec_rules, enc_byteses,
    dec_byteses, enc_bytes, dec_bytes, predv_wf, rulev_wf};
use crate::error::{Error, Format, Signature};
use crate::wire::lemma_enc_u64_len;

verus! {

broadcast use lemma_enc_u64_len;

/// One signed unit of policy: its position in the chain, the symbols it
/// introduced, and its facts, rules and caveats.
#[derive(Debug)]
pub struct Block {
    pub index: u32,
    pub symbols: SymbolTable,
    pub facts: Vec<Predicate>,
    pub rules: Vec<Rule>,
    pub caveats: Vec<Rule>,
}

/// Mathematical value of a [`Block`].
#[verifier::ext_equal]
pub ghost struct BlockV {
    pub index: u32,
    pub symbols: Seq<Seq<char>>,
    pub facts: Seq<PredV>,
    pub rules: Seq<RuleV>,
    pub caveats: Seq<RuleV>,
}

impl View for Block {
    type V = BlockV;

    open spec fn view(&self) -> BlockV {
        BlockV {
            index: self.index,
            symbols: self.symbols@,
            facts: self.facts.deep_view(),
            rules: self.rules.deep_view(),
            caveats: self.caveats.deep_view(),
        }
    }
}

impl DeepView for Block {
    type V = BlockV;

    open spec fn deep_view(&self) -> BlockV {
        self.view()
    }
}

/// A block fits the encoding's count fields.
pub open spec fn blockv_wf(b: BlockV) -> bool {
    &&& b.symbols.len() <= u64::MAX
    &&& forall|i: int| 0 <= i < b.symbols.len() ==> (#[trigger] b.symbols[i]).len() <= u64::MAX
    &&& b.facts.len() <= u64::MAX
    &&& forall|i: int| 0 <= i < b.facts.len() ==> predv_wf(#[trigger] b.facts[i])
    &&& b.rules.len() <= u64::MAX
    &&& forall|i: int| 0 <= i < b.rules.len() ==> rulev_wf(#[trigger] b.rules[i])
    &&& b.caveats.len() <= u64::MAX
    &&& forall|i: int| 0 <= i < b.caveats.len() ==> rulev_wf(#[trigger] b.caveats[i])
}

/// The byte encoding of a block: index, symbols, facts, rules, caveats, each
/// list with its count. These are the bytes a block's signature covers.
/// Opaque: proofs go through the round-trip lemma.
#[verifier::opaque]
pub open spec fn spec_enc_block(b: BlockV) -> Seq<u8> {
    spec_enc_u64(b.index as u64) + spec_enc_u64(b.symbols.len() as u64) + spec_enc_strs(b.symbols)
        + spec_enc_u64(b.facts.len() as u64) + spec_enc_preds(b.facts) + spec_enc_u64(
        b.rules.len() as u64,
    ) + spec_enc_rules(b.rules) + spec_enc_u64(b.caveats.len() as u64) + spec_enc_rules(b.caveats)
}

/// Reads a block at `pos`.
pub open spec fn spec_dec_block(s: Seq<u8>, pos: int) -> Option<(BlockV, int)> {
    match spec_dec_u64(s, pos) {
        None => None,
        Some((ix, p1)) => if ix <= u32::MAX {
            match spec_dec_u64(s, p1) {
                None => None,
                Some((nsym, p2)) => match spec_dec_strs(s, p2, nsym as nat) {
                    None => None,
                    Some((symbols, p3)) => match spec_dec_u64(s, p3) {
                        None => None,
                        Some((nf, p4)) => match spec_dec_preds(s, p4, nf as nat) {
                            None => None,
                            Some((facts, p5)) => match spec_dec_u64(s, p5) {
                                None => None,
                                Some((nr, p6)) => match spec_dec_rules(s, p6, nr as nat) {
                                    None => None,
                                    Some((rules, p7)) => match spec_dec_u64(s, p7) {
                                        None => None,
                                        Some((ncv, p8)) => match spec_dec_rules(
                                            s,
                                            p8,
                                            ncv as nat,
                                        ) {
                                            None => None,
                                            Some((caveats, p9)) => Some(
                                                (
                                                    BlockV {
                                                        index: ix as u32,
                                                        symbols,
                                                        facts,
                                                        rules,
                                                        caveats,
                                                    },
                                                    p9,
                                                ),
                                            ),
                                        },
                                    },
                                },
                            },
                        },
                    },
                },
            }
        } else {
            None
        },
    }
}

/// Splitting a two-part encoding locates both parts.
pub proof fn lemma_concat_split(s: Seq<u8>, pos: int, a: Seq<u8>, b: Seq<u8>)
    requires
        0 <= pos,
        pos + a.len() + b.len() <= s.len(),
        s.subrange(pos, pos + a.len() + b.len()) == a + b,
    ensures
        s.subrange(pos, pos + a.len()) == a,
        s.subrange(pos + a.len(), pos + a.len() + b.len()) == b,
{
    assert forall|k: int| #![trigger s.subrange(pos, pos + a.len())[k]] 0 <= k
        < a.len() implies s.subrange(pos, pos + a.len())[k] == a[k] by {
        assert(s[pos + k] == s.subrange(pos, pos + a.len() + b.len())[k]);
        assert((a + b)[k] == a[k]);
    }
    assert(s.subrange(pos, pos + a.len()) =~= a);
    assert forall|k: int|
        #![trigger s.subrange(pos + a.len(), pos + a.len() + b.len())[k]]
        0 <= k < b.len() implies s.subrange(pos + a.len(), pos + a.len() + b.len())[k] == b[k] by {
        assert(s[pos + a.len() + k] == s.subrange(pos, pos + a.len() + b.len())[a.len() + k]);
        assert((a + b)[a.len() + k] == b[k]);
    }
    assert(s.subrange(pos + a.len(), pos + a.len() + b.len()) =~= b);
}

/// Decoding inverts encoding for blocks.
#[verifier::rlimit(100)]
pub proof fn lemma_dec_enc_block(s: Seq<u8>, pos: int, b: BlockV)
    requires
        blockv_wf(b),
        0 <= pos,
        pos + spec_enc_block(b).len() <= s.len(),
        s.subrange(pos, pos + spec_enc_block(b).len()) == spec_enc_block(b),
    ensures
        spec_dec_block(s, pos) == Some((b, pos + spec_enc_block(b).len())),
{
    reveal(spec_enc_block);
    let e1 = spec_enc_u64(b.index as u64);
    let e2 = spec_enc_u64(b.symbols.len() as u64);
    let e3 = spec_enc_strs(b.symbols);
    let e4 = spec_enc_u64(b.facts.len() as u64);
    let e5 = spec_enc_preds(b.facts);
    let e6 = spec_enc_u64(b.rules.len() as u64);
    let e7 = spec_enc_rules(b.rules);
    let e8 = spec_enc_u64(b.caveats.len() as u64);
    let e9 = spec_enc_rules(b.caveats);
    let w2 = e1 + e2;
    let w3 = w2 + e3;
    let w4 = w3 + e4;
    let w5 = w4 + e5;
    let w6 = w5 + e6;
    let w7 = w6 + e7;
    let w8 = w7 + e8;
    assert(spec_enc_block(b) == w8 + e9);
    lemma_concat_split(s, pos, w8, e9);
    lemma_concat_split(s, pos, w7, e8);
    lemma_concat_split(s, pos, w6, e7);
    lemma_concat_split(s, pos, w5, e6);
    lemma_concat_split(s, pos, w4, e5);
    lemma_concat_split(s, pos, w3, e4);
    lemma_concat_split(s, pos, w2, e3);
    lemma_concat_split(s, pos, e1, e2);
    lemma_dec_enc_u64(s, pos, b.index as u64);
    lemma_dec_enc_u64(s, pos + e1.len(), b.symbols.len() as u64);
    lemma_dec_enc_strs(s, pos + w2.len(), b.symbols);
    lemma_dec_enc_u64(s, pos + w3.len(), b.facts.len() as u64);
    lemma_dec_enc_preds(s, pos + w4.len(), b.facts);
    lemma_dec_enc_u64(s, pos + w5.len(), b.rules.len() as u64);
    lemma_dec_enc_rules(s, pos + w6.len(), b.rules);
    lemma_dec_enc_u64(s, pos + w7.len(), b.caveats.len() as u64);
    lemma_dec_enc_rules(s, pos + w8.len(), b.caveats);
    assert((b.symbols.len() as u64) as nat == b.symbols.len());
    assert((b.facts.len() as u64) as nat == b.facts.len());
    assert((b.rules.len() as u64) as nat == b.rules.len());
    assert((b.caveats.len() as u64) as nat == b.caveats.len());
    assert((b.index as u64) as u32 == b.index);
    assert(BlockV {
        index: b.index,
        symbols: b.symbols,
        facts: b.facts,
        rules: b.rules,
        caveats: b.caveats,
    } =~= b);
}

/// The encoded bytes of a block, the unit a signature covers.
pub fn enc_block(b: &Block) -> (r: Vec<u8>)
    ensures
        r@ == spec_enc_block(b@),
{
    let mut out: Vec<u8> = Vec::new();
    enc_u64(&mut out, b.index as u64);
    enc_u64(&mut out, b.symbols.len() as u64);
    enc_strs(&mut out, &b.symbols.symbols);
    enc_u64(&mut out, b.facts.len() as u64);
    enc_preds(&mut out, &b.facts);
    enc_u64(&mut out, b.rules.len() as u64);
    enc_rules(&mut out, &b.rules);
    enc_u64(&mut out, b.caveats.len() as u64);
    enc_rules(&mut out, &b.caveats);
    proof {
        reveal(spec_enc_block);
    }
    assert(out@ =~= spec_enc_block(b@));
    out
}

/// Reads a block at `pos`, exactly as the specification decoder does.
pub fn dec_block(data: &Vec<u8>, pos: usize) -> (r: Option<(Block, usize)>)
    ensures
        match r {
            Some(vp) => spec_dec_block(data@, pos as int) == Some((vp.0@, vp.1 as int)),
            None => spec_dec_block(data@, pos as int) is None,
        },
{
    let (ix, p1) = match dec_u64(data, pos) {
        None => {
            return None;
        },
        Some(vp) => vp,
    };
    if ix > u32::MAX as u64 {
        return None;
    }
    let (nsym, p2) = match dec_u64(data, p1) {
        None => {
            return None;
        },
        Some(vp) => vp,
    };
    let (symbols, p3) = match dec_strs(data, p2, nsym) {
        None => {
            return None;
        },
        Some(vp) => vp,
    };
    let (nf, p4) = match dec_u64(data, p3) {
        None => {
            return None;
        },
        Some(vp) => vp,
    };
    let (facts, p5) = match dec_preds(data, p4, nf) {
        None => {
            return None;
        },
        Some(vp) => vp,
    };
    let (nr, p6) = match dec_u64(data, p5) {
        None => {
            return None;
        },
        Some(vp) => vp,
    };
    let (rules, p7) = match dec_rules(data, p6, nr) {
        None => {
            return None;
        },
        Some(vp) => vp,
    };
    let (ncv, p8) = match dec_u64(data, p7) {
        None => {
            return None;
        },
        Some(vp) => vp,
    };
    let (caveats, p9) = match dec_rules(data, p8, ncv) {
        None => {
            return None;
        },
        Some(vp) => vp,
    };
    let b = Block { index: ix as u32, symbols: SymbolTable { symbols }, facts, rules, caveats };
    assert(b@ =~= spec_dec_block(data@, pos as int)->Some_0.0);
    Some((b, p9))
}

/// Observes every string length of a predicate, establishing the encoding
/// bounds: the count fields of the byte format hold every length.
#[verifier::loop_isolation(false)]
pub fn learn_pred_wf(p: &Predicate)
    ensures
        predv_wf(p@),
{
    let n = p.args.len();
    for i in 0..n
        invariant
            forall|j: int| 0 <= j < i ==> crate::codec::termv_wf(#[trigger] p@.args[j]),
    {
        if let crate::datalog::Term::Str(x) = &p.args[i] {
            let n_chars: usize = x.as_str().unicode_len();
            assert(x@.len() <= u64::MAX);
        }
        assert(crate::codec::termv_wf(p@.args[i as int]));
    }
}

/// Observes every string length of a constraint check.
#[verifier::loop_isolation(false)]
pub fn learn_check_wf(c: &crate::datalog::ConstraintCheck)
    ensures
        crate::codec::checkv_wf(c@),
{
    match c {
        crate::datalog::ConstraintCheck::IntIn(v) => {
            let n_items: usize = v.len();
        },
        crate::datalog::ConstraintCheck::IntNotIn(v) => {
            let n_items: usize = v.len();
        },
        crate::datalog::ConstraintCheck::StrPrefix(x) => {
            let n_chars: usize = x.as_str().unicode_len();
        },
        crate::datalog::ConstraintCheck::StrSuffix(x) => {
            let n_chars: usize = x.as_str().unicode_len();
        },
        crate::datalog::ConstraintCheck::StrEqual(x) => {
            let n_chars: usize = x.as_str().unicode_len();
        },
        crate::datalog::ConstraintCheck::StrIn(v) => {
            let n = v.len();
            for i in 0..n
                invariant
                    forall|j: int| 0 <= j < i ==> (#[trigger] v.deep_view()[j]).len() <= u64::MAX,
            {
                let n_chars: usize = v[i].as_str().unicode_len();
                assert(v.deep_view()[i as int].len() <= u64::MAX);
            }
        },
        crate::datalog::ConstraintCheck::StrNotIn(v) => {
            let n = v.len();
            for i in 0..n
                invariant
                    forall|j: int| 0 <= j < i ==> (#[trigger] v.deep_view()[j]).len() <= u64::MAX,
            {
                let n_chars: usize = v[i].as_str().unicode_len();
                assert(v.deep_view()[i as int].len() <= u64::MAX);
            }
        },
        crate::datalog::ConstraintCheck::SymIn(v) => {
            let n_items: usize = v.len();
        },
        crate::datalog::ConstraintCheck::SymNotIn(v) => {
            let n_items: usize = v.len();
        },
        _ => {
        },
    }
}

/// Observes every string length of a rule.
#[verifier::loop_isolation(false)]
pub fn learn_rule_wf(rl: &Rule)
    ensures
        rulev_wf(rl@),
{
    learn_pred_wf(&rl.head);
    let nb = rl.body.len();
    for i in 0..nb
        invariant
            forall|j: int| 0 <= j < i ==> predv_wf(#[trigger] rl@.body[j]),
    {
        learn_pred_wf(&rl.body[i]);
        assert(predv_wf(rl@.body[i as int]));
    }
    let nc = rl.constraints.len();
    for i in 0..nc
        invariant
            forall|j: int|
                0 <= j < i ==> crate::codec::checkv_wf((#[trigger] rl@.constraints[j]).check),
    {
        learn_check_wf(&rl.constraints[i].check);
        assert(crate::codec::checkv_wf(rl@.constraints[i as int].check));
    }
}

/// Observes every string length of a block.
#[verifier::loop_isolation(false)]
pub fn learn_block_wf(b: &Block)
    ensures
        blockv_wf(b@),
{
    let ns = b.symbols.symbols.len();
    for i in 0..ns
        invariant
            forall|j: int| 0 <= j < i ==> (#[trigger] b@.symbols[j]).len() <= u64::MAX,
    {
        let n_chars: usize = b.symbols.symbols[i].as_str().unicode_len();
        assert(b@.symbols[i as int].len() <= u64::MAX);
    }
    let nf = b.facts.len();
    for i in 0..nf
        invariant
            forall|j: int| 0 <= j < i ==> predv_wf(#[trigger] b@.facts[j]),
    {
        learn_pred_wf(&b.facts[i]);
        assert(predv_wf(b@.facts[i as int]));
    }
    let nr = b.rules.len();
    for i in 0..nr
        invariant
            forall|j: int| 0 <= j < i ==> rulev_wf(#[trigger] b@.rules[j]),
    {
        learn_rule_wf(&b.rules[i]);
        assert(rulev_wf(b@.rules[i as int]));
    }
    let ncv = b.caveats.len();
    for i in 0..ncv
        invariant
            forall|j: int| 0 <= j < i ==> rulev_wf(#[trigger] b@.caveats[j]),
    {
        learn_rule_wf(&b.caveats[i]);
        assert(rulev_wf(b@.caveats[i as int]));
    }
}

/// A copy of a block with the same value.
#[verifier::loop_isolation(false)]
pub fn block_dup(b: &Block) -> (r: Block)
    ensures
        r@ == b@,
{
    let symbols = SymbolTable { symbols: dup_strings(&b.symbols.symbols) };
    let mut facts: Vec<Predicate> = Vec::new();
    let nf = b.facts.len();
    for i in 0..nf
        invariant
            facts.deep_view() =~= b@.facts.subrange(0, i as int),
    {
        let p = pred_dup(&b.facts[i]);
        let ghost prev = facts;
        let ghost pg = p;
        facts.push(p);
        proof {
            lemma_deep_view_push(facts, prev, pg);
            assert(facts.deep_view() =~= b@.facts.subrange(0, i as int + 1));
        }
    }
    let mut rules: Vec<Rule> = Vec::new();
    let nr = b.rules.len();
    for i in 0..nr
        invariant
            rules.deep_view() =~= b@.rules.subrange(0, i as int),
    {
        let p = rule_dup(&b.rules[i]);
        let ghost prev = rules;
        let ghost pg = p;
        rules.push(p);
        proof {
            lemma_deep_view_push(rules, prev, pg);
            assert(rules.deep_view() =~= b@.rules.subrange(0, i as int + 1));
        }
    }
    let mut caveats: Vec<Rule> = Vec::new();
    let ncv = b.caveats.len();
    for i in 0..ncv
        invariant
            caveats.deep_view() =~= b@.caveats.subrange(0, i as int),
    {
        let p = rule_dup(&b.caveats[i]);
        let ghost prev = caveats;
        let ghost pg = p;
        caveats.push(p);
        proof {
            lemma_deep_view_push(caveats, prev, pg);
            assert(caveats.deep_view() =~= b@.caveats.subrange(0, i as int + 1));
        }
    }
    let r = Block { index: b.index, symbols, facts, rules, caveats };
    proof {
        assert(b@.facts.subrange(0, nf as int) =~= b@.facts);
        assert(b@.rules.subrange(0, nr as int) =~= b@.rules);
        assert(b@.caveats.subrange(0, ncv as int) =~= b@.caveats);
        assert(r@ =~= b@);
    }
    r
}


/// Appends the encoding of a block to `out`.
pub fn enc_block_into(out: &mut Vec<u8>, b: &Block)
    ensures
        final(out)@ == old(out)@ + spec_enc_block(b@),
{
    let mut piece = enc_block(b);
    let n = piece.len();
    for i in 0..n
        invariant
            n == piece@.len(),
            piece@ == spec_enc_block(b@),
            out@ == old(out)@ + piece@.take(i as int),
    {
        out.push(piece[i]);
        assert(out@ =~= old(out)@ + piece@.take(i as int + 1));
    }
    proof {
        assert(piece@.take(n as int) =~= piece@);
    }
}
/// The encoding of a block list, one element after another.
pub open spec fn spec_enc_blocks(ts: Seq<BlockV>) -> Seq<u8>
    decreases ts.len(),
{
    if ts.len() == 0 {
        Seq::empty()
    } else {
        spec_enc_block(ts[0]) + spec_enc_blocks(ts.drop_first())
    }
}

/// Encoding distributes over concatenation of block lists.
pub proof fn lemma_enc_blocks_concat(a: Seq<BlockV>, b: Seq<BlockV>)
    ensures
        spec_enc_blocks(a + b) == spec_enc_blocks(a) + spec_enc_blocks(b),
    decreases a.len(),
{
    if a.len() == 0 {
        assert(a + b =~= b);
        assert(spec_enc_blocks(a) + spec_enc_blocks(b) =~= spec_enc_blocks(b));
    } else {
        assert((a + b).drop_first() =~= a.drop_first() + b);
        lemma_enc_blocks_concat(a.drop_first(), b);
        assert((a + b)[0] == a[0]);
        assert(spec_enc_blocks(a + b) =~= spec_enc_blocks(a) + spec_enc_blocks(b));
    }
}

/// Reads `n` elements at `pos`.
pub open spec fn spec_dec_blocks(s: Seq<u8>, pos: int, n: nat) -> Option<(Seq<BlockV>, int)>
    decreases n,
{
    if n == 0 {
        Some((Seq::empty(), pos))
    } else {
        match spec_dec_block(s, pos) {
            None => None,
            Some((t, p)) => match spec_dec_blocks(s, p, (n - 1) as nat) {
                None => None,
                Some((ts, p2)) => Some((seq![t] + ts, p2)),
            },
        }
    }
}

/// Decoding inverts encoding for block lists.
#[verifier::rlimit(100)]
pub proof fn lemma_dec_enc_blocks(s: Seq<u8>, pos: int, ts: Seq<BlockV>)
    requires
        forall|i: int| 0 <= i < ts.len() ==> blockv_wf(#[trigger] ts[i]),
        0 <= pos,
        pos + spec_enc_blocks(ts).len() <= s.len(),
        s.subrange(pos, pos + spec_enc_blocks(ts).len()) == spec_enc_blocks(ts),
    ensures
        spec_dec_blocks(s, pos, ts.len()) == Some((ts, pos + spec_enc_blocks(ts).len())),
    decreases ts.len(),
{
    if ts.len() > 0 {
        let first = spec_enc_block(ts[0]);
        let rest = spec_enc_blocks(ts.drop_first());
        assert(spec_enc_blocks(ts) == first + rest);
        lemma_concat_split(s, pos, first, rest);
        lemma_dec_enc_block(s, pos, ts[0]);
        lemma_dec_enc_blocks(s, pos + first.len(), ts.drop_first());
        assert(seq![ts[0]] + ts.drop_first() =~= ts);
    }
}

/// Appends the encoding of a block list to `out`.
pub fn enc_blocks(out: &mut Vec<u8>, ts: &Vec<Block>)
    ensures
        final(out)@ == old(out)@ + spec_enc_blocks(ts.deep_view()),
{
    let n = ts.len();
    for i in 0..n
        invariant
            n == ts@.len(),
            out@ == old(out)@ + spec_enc_blocks(ts.deep_view().take(i as int)),
    {
        enc_block_into(out, &ts[i]);
        proof {
            lemma_enc_blocks_concat(ts.deep_view().take(i as int), seq![ts.deep_view()[i as int]]);
            assert(ts.deep_view().take(i as int) + seq![ts.deep_view()[i as int]]
                =~= ts.deep_view().take(i as int + 1));
            assert(spec_enc_blocks(seq![ts.deep_view()[i as int]]) =~= spec_enc_block(
                ts.deep_view()[i as int],
            )) by {
                let single = seq![ts.deep_view()[i as int]];
                assert(single[0] == ts.deep_view()[i as int]);
                assert(single.drop_first() =~= Seq::<BlockV>::empty());
                assert(spec_enc_blocks(single) == spec_enc_block(single[0]) + spec_enc_blocks(
                    Seq::<BlockV>::empty(),
                ));
                assert(spec_enc_block(ts.deep_view()[i as int]) + Seq::<u8>::empty()
                    =~= spec_enc_block(ts.deep_view()[i as int]));
            }
        }
    }
    proof {
        assert(ts.deep_view().take(n as int) =~= ts.deep_view());
    }
}

/// Reads `n` elements at `pos`, exactly as the specification decoder does.
#[verifier::rlimit(100)]
pub fn dec_blocks(data: &Vec<u8>, pos: usize, n: u64) -> (r: Option<(Vec<Block>, usize)>)
    ensures
        match r {
            Some(vp) => spec_dec_blocks(data@, pos as int, n as nat) == Some(
                (vp.0.deep_view(), vp.1 as int),
            ),
            None => spec_dec_blocks(data@, pos as int, n as nat) is None,
        },
    decreases n,
{
    if n == 0 {
        let empty: Vec<Block> = Vec::new();
        assert(empty.deep_view() =~= Seq::<BlockV>::empty());
        return Some((empty, pos));
    }
    let (t, p) = match dec_block(data, pos) {
        None => {
            return None;
        },
        Some(vp) => vp,
    };
    let (mut rest, p2) = match dec_blocks(data, p, n - 1) {
        None => {
            return None;
        },
        Some(vp) => vp,
    };
    let ghost rest_pre = rest;
    let ghost tg = t;
    rest.insert(0, t);
    proof {
        assert(rest@ == rest_pre@.insert(0, tg));
        assert forall|k: int| 0 <= k < rest@.len() implies rest.deep_view()[k] == (seq![
            tg.deep_view(),
        ] + rest_pre.deep_view())[k] by {
            if k == 0 {
                assert(rest@[0] == tg);
            } else {
                assert(rest@[k] == rest_pre@[k - 1]);
            }
        }
        assert(rest.deep_view() =~= seq![tg.deep_view()] + rest_pre.deep_view());
    }
    Some((rest, p2))
}


// ---------------------------------------------------------------------------
// The token: a signed chain of blocks
// ---------------------------------------------------------------------------

/// An ordered, immutable chain of signed blocks plus the public keys and
/// signatures binding them; a sealed token rejects further appends.
#[derive(Debug)]
pub struct Biscuit {
    pub blocks: Vec<Block>,
    pub keys: Vec<Vec<u8>>,
    pub signatures: Vec<Vec<u8>>,
    pub sealed: bool,
}

/// Mathematical value of a [`Biscuit`].
#[verifier::ext_equal]
pub ghost struct TokenV {
    pub blocks: Seq<BlockV>,
    pub keys: Seq<Seq<u8>>,
    pub signatures: Seq<Seq<u8>>,
    pub sealed: bool,
}

impl View for Biscuit {
    type V = TokenV;

    open spec fn view(&self) -> TokenV {
        TokenV {
            blocks: self.blocks.deep_view(),
            keys: self.keys.deep_view(),
            signatures: self.signatures.deep_view(),
            sealed: self.sealed,
        }
    }
}

/// A token fits the encoding's count fields.
pub open spec fn tokenv_wf(t: TokenV) -> bool {
    &&& t.blocks.len() <= u64::MAX
    &&& forall|i: int| 0 <= i < t.blocks.len() ==> blockv_wf(#[trigger] t.blocks[i])
    &&& t.keys.len() <= u64::MAX
    &&& forall|i: int| 0 <= i < t.keys.len() ==> (#[trigger] t.keys[i]).len() <= u64::MAX
    &&& t.signatures.len() <= u64::MAX
    &&& forall|i: int| 0 <= i < t.signatures.len() ==> (#[trigger] t.signatures[i]).len() <= u64::MAX
}

/// The byte encoding of a token: blocks, keys and signatures, each list with
/// its count.
pub open spec fn spec_enc_token(t: TokenV) -> Seq<u8> {
    spec_enc_u64(t.blocks.len() as u64) + spec_enc_blocks(t.blocks) + spec_enc_u64(
        t.keys.len() as u64,
    ) + spec_enc_byteses(t.keys) + spec_enc_u64(t.signatures.len() as u64) + spec_enc_byteses(
        t.signatures,
    )
}

/// Parses a whole buffer as a token; trailing bytes are a parse error. A
/// parsed token is unsealed.
pub open spec fn spec_parse_token(s: Seq<u8>) -> Option<TokenV> {
    match spec_dec_u64(s, 0) {
        None => None,
        Some((nb, p1)) => match spec_dec_blocks(s, p1, nb as nat) {
            None => None,
            Some((blocks, p2)) => match spec_dec_u64(s, p2) {
                None => None,
                Some((nk, p3)) => match spec_dec_byteses(s, p3, nk as nat) {
                    None => None,
                    Some((keys, p4)) => match spec_dec_u64(s, p4) {
                        None => None,
                        Some((ns, p5)) => match spec_dec_byteses(s, p5, ns as nat) {
                            None => None,
                            Some((signatures, p6)) => if p6 == s.len() {
                                Some(TokenV { blocks, keys, signatures, sealed: false })
                            } else {
                                None
                            },
                        },
                    },
                },
            },
        },
    }
}

/// Parsing inverts encoding for tokens.
#[verifier::rlimit(100)]
pub proof fn lemma_parse_enc_token(t: TokenV)
    requires
        tokenv_wf(t),
        !t.sealed,
    ensures
        spec_parse_token(spec_enc_token(t)) == Some(t),
{
    let s = spec_enc_token(t);
    let e1 = spec_enc_u64(t.blocks.len() as u64);
    let e2 = spec_enc_blocks(t.blocks);
    let e3 = spec_enc_u64(t.keys.len() as u64);
    let e4 = spec_enc_byteses(t.keys);
    let e5 = spec_enc_u64(t.signatures.len() as u64);
    let e6 = spec_enc_byteses(t.signatures);
    let w2 = e1 + e2;
    let w3 = w2 + e3;
    let w4 = w3 + e4;
    let w5 = w4 + e5;
    assert(s == w5 + e6);
    assert(s.subrange(0, s.len() as int) =~= s);
    lemma_concat_split(s, 0, w5, e6);
    lemma_concat_split(s, 0, w4, e5);
    lemma_concat_split(s, 0, w3, e4);
    lemma_concat_split(s, 0, w2, e3);
    lemma_concat_split(s, 0, e1, e2);
    lemma_dec_enc_u64(s, 0, t.blocks.len() as u64);
    lemma_dec_enc_blocks(s, e1.len() as int, t.blocks);
    lemma_dec_enc_u64(s, w2.len() as int, t.keys.len() as u64);
    lemma_dec_enc_byteses(s, w3.len() as int, t.keys);
    lemma_dec_enc_u64(s, w4.len() as int, t.signatures.len() as u64);
    lemma_dec_enc_byteses(s, w5.len() as int, t.signatures);
    assert((t.blocks.len() as u64) as nat == t.blocks.len());
    assert((t.keys.len() as u64) as nat == t.keys.len());
    assert((t.signatures.len() as u64) as nat == t.signatures.len());
    assert(TokenV {
        blocks: t.blocks,
        keys: t.keys,
        signatures: t.signatures,
        sealed: false,
    } =~= t);
}

// ---------------------------------------------------------------------------
// Structural validity and the signature chain
// ---------------------------------------------------------------------------

/// The two length-prefixed parts of a sealed byte string: the token bytes
/// and the seal tag, with nothing trailing.
pub open spec fn sealed_envelope(s: Seq<u8>) -> Option<(Seq<u8>, Seq<u8>)> {
    match spec_dec_bytes(s, 0) {
        None => None,
        Some((body, p)) => match spec_dec_bytes(s, p) {
            None => None,
            Some((tag, p2)) => if p2 == s.len() {
                Some((body, tag))
            } else {
                None
            },
        },
    }
}

/// The seal tag of a well-formed envelope verifies under the seal key.
pub open spec fn sealed_tag_ok(s: Seq<u8>, secret: Seq<u8>) -> bool {
    sealed_envelope(s) matches Some(bt) && sig_valid(public_of(secret), bt.0, bt.1)
}

/// The token the sealed bytes carry, if the envelope is well formed.
pub open spec fn sealed_inner(s: Seq<u8>) -> Option<TokenV> {
    match sealed_envelope(s) {
        Some(bt) => spec_parse_token(bt.0),
        None => None,
    }
}

/// Key and signature counts match the block count, and the chain is not
/// empty.
pub open spec fn token_counts_ok(t: TokenV) -> bool {
    &&& t.blocks.len() >= 1
    &&& t.keys.len() == t.blocks.len()
    &&& t.signatures.len() == t.blocks.len()
}

/// Every block sits at the position its index claims.
pub open spec fn token_indices_ok(t: TokenV) -> bool {
    forall|i: int| 0 <= i < t.blocks.len() ==> (#[trigger] t.blocks[i]).index == i
}

/// The bytes block `i`'s signature covers: its encoding, chained to the
/// previous block's signature.
pub open spec fn spec_block_msg(t: TokenV, i: int) -> Seq<u8> {
    if i == 0 {
        spec_enc_block(t.blocks[0])
    } else {
        spec_enc_block(t.blocks[i]) + t.signatures[i - 1]
    }
}

/// Every block's signature verifies under its carried public key.
pub open spec fn chain_valid(t: TokenV) -> bool {
    forall|i: int|
        0 <= i < t.blocks.len() ==> sig_valid(
            t.keys[i],
            spec_block_msg(t, i),
            #[trigger] t.signatures[i],
        )
}

/// The symbols the blocks introduce, in block order.
pub open spec fn blocks_symbols(blocks: Seq<BlockV>) -> Seq<Seq<char>>
    decreases blocks.len(),
{
    if blocks.len() == 0 {
        Seq::empty()
    } else {
        blocks_symbols(blocks.drop_last()) + blocks.last().symbols
    }
}

/// The global symbol table a token denotes: the default table, then each
/// block's range in block order.
pub open spec fn token_table(blocks: Seq<BlockV>) -> Seq<Seq<char>> {
    spec_default_symbols() + blocks_symbols(blocks)
}

/// No symbol is declared twice across the default table and all blocks.
pub open spec fn token_symbols_ok(t: TokenV) -> bool {
    table_distinct(token_table(t.blocks))
}

/// A structurally valid token.
pub open spec fn token_structure_ok(t: TokenV) -> bool {
    &&& token_counts_ok(t)
    &&& token_indices_ok(t)
    &&& chain_valid(t)
    &&& token_symbols_ok(t)
}

/// Taking one more block appends exactly its symbol range.
pub proof fn lemma_blocks_symbols_take(blocks: Seq<BlockV>, i: int)
    requires
        0 <= i < blocks.len(),
    ensures
        blocks_symbols(blocks.take(i + 1)) == blocks_symbols(blocks.take(i)) + blocks[i].symbols,
{
    assert(blocks.take(i + 1).drop_last() =~= blocks.take(i));
    assert(blocks.take(i + 1).last() == blocks[i]);
}

/// The whole sequence is what all its blocks contribute.
pub proof fn lemma_blocks_symbols_all(blocks: Seq<BlockV>)
    ensures
        blocks_symbols(blocks.take(blocks.len() as int)) == blocks_symbols(blocks),
{
    assert(blocks.take(blocks.len() as int) =~= blocks);
}

impl Biscuit {
    /// Reconstructs the global symbol table by concatenating the per-block
    /// ranges onto the default table, refusing duplicates.
    #[verifier::loop_isolation(false)]
    pub fn build_symbol_table(&self) -> (r: Result<SymbolTable, Error>)
        ensures
            r matches Ok(tbl) ==> tbl@ == token_table(self@.blocks) && tbl.wf()
                && token_symbols_ok(self@),
            r matches Err(e) ==> e == Error::SymbolTableOverlap && !token_symbols_ok(self@),
    {
        let mut table = SymbolTable::default_table();
        let n = self.blocks.len();
        proof {
            assert(blocks_symbols(self@.blocks.take(0)) =~= Seq::<Seq<char>>::empty());
            assert(table@ =~= spec_default_symbols() + blocks_symbols(self@.blocks.take(0)));
        }
        for i in 0..n
            invariant
                table.wf(),
                table@ == spec_default_symbols() + blocks_symbols(self@.blocks.take(i as int)),
        {
            let ok = table.merge(&self.blocks[i].symbols);
            proof {
                lemma_blocks_symbols_take(self@.blocks, i as int);
            }
            if !ok {
                proof {
                    assert(spec_default_symbols() + blocks_symbols(self@.blocks.take(i as int + 1))
                        =~= table@ + self@.blocks[i as int].symbols);
                    lemma_blocks_symbols_prefix(self@.blocks, i as int + 1);
                    lemma_not_distinct_prefix(
                        spec_default_symbols() + blocks_symbols(self@.blocks.take(i as int + 1)),
                        token_table(self@.blocks),
                    );
                }
                return Err(Error::SymbolTableOverlap);
            }
            proof {
                assert(table@ =~= spec_default_symbols() + blocks_symbols(
                    self@.blocks.take(i as int + 1),
                ));
            }
        }
        proof {
            lemma_blocks_symbols_all(self@.blocks);
        }
        Ok(table)
    }
}

impl Biscuit {
    /// Serializes the token; [`Biscuit::from`] inverts this byte string.
    pub fn to_vec(&self) -> (r: Vec<u8>)
        ensures
            r@ == spec_enc_token(self@),
    {
        let mut out: Vec<u8> = Vec::new();
        enc_u64(&mut out, self.blocks.len() as u64);
        let n = self.blocks.len();
        for i in 0..n
            invariant
                n == self.blocks@.len(),
                out@ == spec_enc_u64(self@.blocks.len() as u64) + spec_enc_blocks(
                    self@.blocks.take(i as int),
                ),
        {
            enc_block_into(&mut out, &self.blocks[i]);
            proof {
                lemma_enc_blocks_concat(
                    self@.blocks.take(i as int),
                    seq![self@.blocks[i as int]],
                );
                assert(self@.blocks.take(i as int) + seq![self@.blocks[i as int]]
                    =~= self@.blocks.take(i as int + 1));
                assert(spec_enc_blocks(seq![self@.blocks[i as int]]) =~= spec_enc_block(
                    self@.blocks[i as int],
                )) by {
                    let single = seq![self@.blocks[i as int]];
                    assert(single[0] == self@.blocks[i as int]);
                    assert(single.drop_first() =~= Seq::<BlockV>::empty());
                    assert(spec_enc_blocks(single) == spec_enc_block(single[0]) + spec_enc_blocks(
                        Seq::<BlockV>::empty(),
                    ));
                    assert(spec_enc_block(self@.blocks[i as int]) + Seq::<u8>::empty()
                        =~= spec_enc_block(self@.blocks[i as int]));
                }
            }
        }
        proof {
            assert(self@.blocks.take(n as int) =~= self@.blocks);
        }
        enc_u64(&mut out, self.keys.len() as u64);
        enc_byteses(&mut out, &self.keys);
        enc_u64(&mut out, self.signatures.len() as u64);
        enc_byteses(&mut out, &self.signatures);
        assert(out@ =~= spec_enc_token(self@));
        out
    }

    /// Deserializes and structurally validates a token: the bytes must parse
    /// exactly, carry matching key and signature counts, monotone block
    /// indices, a valid signature chain and non-overlapping symbol ranges.
    #[verifier::rlimit(100)]
    pub fn from(slice: &Vec<u8>) -> (r: Result<Biscuit, Error>)
        ensures
            match r {
                Ok(t) => {
                    &&& spec_parse_token(slice@) == Some(t@)
                    &&& !t@.sealed
                    &&& token_structure_ok(t@)
                },
                Err(e) => {
                    ||| (spec_parse_token(slice@) is None && e matches Error::Format(
                        Format::DeserializationError(_),
                    ))
                    ||| (spec_parse_token(slice@) matches Some(t) && {
                        ||| (!(token_counts_ok(t) && t.blocks.len() <= u32::MAX + 1) && e
                            == Error::Format(Format::EmptyKeys))
                        ||| (!token_indices_ok(t) && (e matches Error::InvalidAuthorityIndex(_)
                            || e matches Error::InvalidBlockIndex(_)))
                        ||| (!chain_valid(t) && e == Error::Format(
                            Format::Signature(Signature::InvalidSignature),
                        ))
                        ||| (!token_symbols_ok(t) && e == Error::SymbolTableOverlap)
                    })
                },
            },
            r is Ok <==> (spec_parse_token(slice@) matches Some(t) && token_structure_ok(t)),
            spec_parse_token(slice@) matches Some(t) ==> (token_counts_ok(t) && t.blocks.len()
                <= u32::MAX + 1 && t.blocks[0].index != 0 ==> r == Err::<Biscuit, Error>(
                Error::InvalidAuthorityIndex(t.blocks[0].index),
            )),
            r matches Err(Error::InvalidBlockIndex(ib)) ==> (spec_parse_token(
                slice@,
            ) matches Some(t) && {
                &&& 0 < ib.expected < t.blocks.len()
                &&& ib.found == t.blocks[ib.expected as int].index
                &&& ib.found != ib.expected
                &&& forall|j: int| 0 <= j < ib.expected ==> (#[trigger] t.blocks[j]).index == j
            }),
    {
        let (nb, p1) = match dec_u64(slice, 0) {
            None => {
                return Err(Error::Format(Format::DeserializationError(String::new())));
            },
            Some(vp) => vp,
        };
        let (blocks, p2) = match dec_blocks(slice, p1, nb) {
            None => {
                return Err(Error::Format(Format::DeserializationError(String::new())));
            },
            Some(vp) => vp,
        };
        let (nk, p3) = match dec_u64(slice, p2) {
            None => {
                return Err(Error::Format(Format::DeserializationError(String::new())));
            },
            Some(vp) => vp,
        };
        let (keys, p4) = match dec_byteses(slice, p3, nk) {
            None => {
                return Err(Error::Format(Format::DeserializationError(String::new())));
            },
            Some(vp) => vp,
        };
        let (ns, p5) = match dec_u64(slice, p4) {
            None => {
                return Err(Error::Format(Format::DeserializationError(String::new())));
            },
            Some(vp) => vp,
        };
        let (signatures, p6) = match dec_byteses(slice, p5, ns) {
            None => {
                return Err(Error::Format(Format::DeserializationError(String::new())));
            },
            Some(vp) => vp,
        };
        if p6 != slice.len() {
            return Err(Error::Format(Format::DeserializationError(String::new())));
        }
        let token = Biscuit { blocks, keys, signatures, sealed: false };
        assert(spec_parse_token(slice@) == Some(token@));
        if token.blocks.len() < 1 || token.keys.len() != token.blocks.len()
            || token.signatures.len() != token.blocks.len() || token.blocks.len() - 1
            > u32::MAX as usize {
            return Err(Error::Format(Format::EmptyKeys));
        }
        match Self::check_indices(&token) {
            Ok(()) => {
            },
            Err(e) => {
                return Err(e);
            },
        }
        if !Self::check_chain(&token) {
            return Err(Error::Format(Format::Signature(Signature::InvalidSignature)));
        }
        match token.build_symbol_table() {
            Ok(_) => Ok(token),
            Err(e) => Err(e),
        }
    }

    /// Checks that every block sits at the position its index claims,
    /// reporting the first mismatch.
    pub fn check_indices(token: &Biscuit) -> (r: Result<(), Error>)
        requires
            token_counts_ok(token@),
            token@.blocks.len() <= u32::MAX + 1,
        ensures
            r is Ok <==> token_indices_ok(token@),
            token@.blocks[0].index != 0 ==> r == Err::<(), Error>(
                Error::InvalidAuthorityIndex(token@.blocks[0].index),
            ),
            r matches Err(e) ==> (e matches Error::InvalidAuthorityIndex(_) || e matches
                Error::InvalidBlockIndex(_)),
            r matches Err(Error::InvalidBlockIndex(ib)) ==> {
                &&& 0 < ib.expected < token@.blocks.len()
                &&& ib.found == token@.blocks[ib.expected as int].index
                &&& ib.found != ib.expected
                &&& forall|j: int| 0 <= j < ib.expected ==> (#[trigger] token@.blocks[j]).index == j
            },
    {
        let nblocks = token.blocks.len();
        for i in 0..nblocks
            invariant
                nblocks == token@.blocks.len(),
                nblocks <= u32::MAX + 1,
                token_counts_ok(token@),
                forall|j: int| 0 <= j < i ==> (#[trigger] token@.blocks[j]).index == j,
        {
            let found = token.blocks[i].index;
            if found as usize != i {
                proof {
                    assert((token@.blocks[i as int]).index != i);
                    assert(!token_indices_ok(token@));
                }
                if i == 0 {
                    return Err(Error::InvalidAuthorityIndex(found));
                }
                proof {
                    assert(token@.blocks[0].index == 0);
                }
                return Err(
                    Error::InvalidBlockIndex(
                        crate::error::InvalidBlockIndex { expected: i as u32, found },
                    ),
                );
            }
        }
        proof {
            assert(token@.blocks[0].index == 0);
        }
        Ok(())
    }

    /// Checks every block's signature against its carried public key, each
    /// message chained to the previous block's signature.
    #[verifier::rlimit(100)]
    #[verifier::spinoff_prover]
    pub fn check_chain(t: &Biscuit) -> (r: bool)
        requires
            token_counts_ok(t@),
        ensures
            r == chain_valid(t@),
    {
        let n = t.blocks.len();
        for i in 0..n
            invariant
                n == t.blocks@.len(),
                token_counts_ok(t@),
                forall|j: int|
                    0 <= j < i ==> sig_valid(
                        t@.keys[j],
                        spec_block_msg(t@, j),
                        #[trigger] t@.signatures[j],
                    ),
        {
            if !Self::check_one_link(t, i) {
                return false;
            }
        }
        true
    }

    /// Checks the signature of block `i` alone.
    #[verifier::rlimit(100)]
    pub fn check_one_link(t: &Biscuit, i: usize) -> (r: bool)
        requires
            token_counts_ok(t@),
            i < t@.blocks.len(),
        ensures
            r == sig_valid(t@.keys[i as int], spec_block_msg(t@, i as int), t@.signatures[i as int]),
    {
        let msg = if i == 0 {
            enc_block(&t.blocks[0])
        } else {
            chained_msg(&t.blocks[i], &t.signatures[i - 1])
        };
        proof {
            assert(msg@ == spec_block_msg(t@, i as int));
            assert(t@.keys[i as int] =~= t.keys@[i as int]@);
            assert(t@.signatures[i as int] =~= t.signatures@[i as int]@);
        }
        let key = PublicKey { pk: dup_bytes(&t.keys[i]) };
        key.verify(&msg, &t.signatures[i])
    }
}

/// A block's encoding chained to the previous block's signature: the bytes
/// its own signature covers.
pub fn chained_msg(block: &Block, prev: &Vec<u8>) -> (r: Vec<u8>)
    ensures
        r@ == spec_enc_block(block@) + prev@,
{
    let mut msg = enc_block(block);
    let m = prev.len();
    let ghost base = msg@;
    for k in 0..m
        invariant
            m == prev@.len(),
            msg@ == base + prev@.take(k as int),
            base == spec_enc_block(block@),
    {
        msg.push(prev[k]);
        assert(msg@ =~= base + prev@.take(k as int + 1));
    }
    proof {
        assert(prev@.take(m as int) =~= prev@);
    }
    msg
}

/// A copy of a byte string with the same value.
pub fn dup_bytes(v: &Vec<u8>) -> (r: Vec<u8>)
    ensures
        r@ == v@,
{
    let n = v.len();
    let mut r: Vec<u8> = Vec::new();
    for i in 0..n
        invariant
            n == v@.len(),
            r@ =~= v@.subrange(0, i as int),
    {
        r.push(v[i]);
        assert(r@ =~= v@.subrange(0, i as int + 1));
    }
    assert(r@ =~= v@);
    r
}

/// One table is a prefix of another.
pub open spec fn table_extends_seq(t1: Seq<Seq<char>>, t2: Seq<Seq<char>>) -> bool {
    t1.len() <= t2.len() && t2.subrange(0, t1.len() as int) == t1
}

/// The table of the first `i` blocks is a prefix of the whole table.
pub proof fn lemma_blocks_symbols_prefix(blocks: Seq<BlockV>, i: int)
    requires
        0 <= i <= blocks.len(),
    ensures
        table_extends_seq(
            spec_default_symbols() + blocks_symbols(blocks.take(i)),
            spec_default_symbols() + blocks_symbols(blocks),
        ),
    decreases blocks.len() - i,
{
    if i == blocks.len() {
        assert(blocks.take(i) =~= blocks);
        let t = spec_default_symbols() + blocks_symbols(blocks);
        assert(t.subrange(0, t.len() as int) =~= t);
    } else {
        lemma_blocks_symbols_prefix(blocks, i + 1);
        lemma_blocks_symbols_take(blocks, i);
        let a = spec_default_symbols() + blocks_symbols(blocks.take(i));
        let b = spec_default_symbols() + blocks_symbols(blocks.take(i + 1));
        let t = spec_default_symbols() + blocks_symbols(blocks);
        assert(b.subrange(0, a.len() as int) =~= a);
        assert forall|k: int| 0 <= k < a.len() implies t.subrange(0, a.len() as int)[k]
            == a[k] by {
            assert(t[k] == t.subrange(0, b.len() as int)[k]);
            assert(b[k] == b.subrange(0, a.len() as int)[k]);
        }
        assert(t.subrange(0, a.len() as int) =~= a);
    }
}

/// A duplicate inside a prefix is a duplicate of the whole.
pub proof fn lemma_not_distinct_prefix(t1: Seq<Seq<char>>, t2: Seq<Seq<char>>)
    requires
        !table_distinct(t1),
        table_extends_seq(t1, t2),
    ensures
        !table_distinct(t2),
{
    let (i, j): (int, int) = choose|i: int, j: int| 0 <= i < j < t1.len() && t1[i] == t1[j];
    assert(t2[i] == t2.subrange(0, t1.len() as int)[i]);
    assert(t2[j] == t2.subrange(0, t1.len() as int)[j]);
}


impl Biscuit {
    /// A fresh builder for the authority block, over the default symbols.
    pub fn new() -> (r: crate::builder::BiscuitBuilder)
        ensures
            r.symbols@ == spec_default_symbols(),
            r.symbols.wf(),
            r.facts.deep_view() == Seq::<crate::builder::BPredV>::empty(),
            r.rules.deep_view() == Seq::<crate::builder::BRuleV>::empty(),
            r.caveats.deep_view() == Seq::<crate::builder::BRuleV>::empty(),
    {
        crate::builder::BiscuitBuilder::new_with_default_symbols()
    }

    /// A fresh, empty builder scoped to append after the current last block.
    pub fn create_block(&self) -> (r: crate::builder::BlockBuilder)
        ensures
            r.facts.deep_view() == Seq::<crate::builder::BPredV>::empty(),
            r.rules.deep_view() == Seq::<crate::builder::BRuleV>::empty(),
            r.caveats.deep_view() == Seq::<crate::builder::BRuleV>::empty(),
    {
        crate::builder::BlockBuilder::new()
    }

    /// Appends one holder block: interns the staged content against the
    /// reconstructed table, signs the new block chained to the previous
    /// signature, and returns a new token value; `self` is untouched. A
    /// sealed token rejects the append.
    #[verifier::rlimit(100)]
    pub fn append(
        &self,
        keypair: &KeyPair,
        block_builder: &crate::builder::BlockBuilder,
    ) -> (r: Result<Biscuit, Error>)
        requires
            token_counts_ok(self@),
        ensures
            r == Err::<Biscuit, Error>(Error::Sealed) <==> self@.sealed,
            !self@.sealed ==> (r == Err::<Biscuit, Error>(Error::SymbolTableOverlap)
                <==> !token_symbols_ok(self@)),
            !self@.sealed && token_symbols_ok(self@) ==> (r == Err::<Biscuit, Error>(
                Error::ParseError,
            ) <==> !crate::builder::staged_ok(
                block_builder.facts.deep_view(),
                block_builder.rules.deep_view(),
                block_builder.caveats.deep_view(),
            )),
            r is Ok <==> {
                &&& !self@.sealed
                &&& token_symbols_ok(self@)
                &&& crate::builder::staged_ok(
                    block_builder.facts.deep_view(),
                    block_builder.rules.deep_view(),
                    block_builder.caveats.deep_view(),
                )
                &&& self@.blocks.len() <= u32::MAX - 1
                &&& keypair.wf()
            },
            !self@.sealed && token_symbols_ok(self@) && crate::builder::staged_ok(
                block_builder.facts.deep_view(),
                block_builder.rules.deep_view(),
                block_builder.caveats.deep_view(),
            ) ==> (r == Err::<Biscuit, Error>(Error::InternalError) <==> (self@.blocks.len()
                > u32::MAX - 1 || !keypair.wf())),
            r matches Err(e) ==> e == Error::Sealed || e == Error::SymbolTableOverlap || e
                == Error::ParseError || e == Error::InternalError,
            r matches Ok(t2) ==> {
                let sc = crate::builder::spec_convert_staged(
                    block_builder.facts.deep_view(),
                    block_builder.rules.deep_view(),
                    block_builder.caveats.deep_view(),
                    token_table(self@.blocks),
                );
                &&& t2@.blocks.last().facts == sc.0
                &&& t2@.blocks.last().rules == sc.1
                &&& t2@.blocks.last().caveats == sc.2
                &&& t2@.blocks.last().symbols == sc.3.skip(
                    token_table(self@.blocks).len() as int,
                )
                &&& t2@.signatures.last() == crate::crypto::sig_of(
                    keypair.sk@,
                    spec_enc_block(t2@.blocks.last()) + self@.signatures.last(),
                )
            },
            r matches Ok(t2) ==> (forall|i: int|
                0 <= i < block_builder.rules.deep_view().len()
                    ==> crate::builder::rule_resolves(
                    #[trigger] t2@.blocks.last().rules[i],
                    token_table(t2@.blocks),
                    block_builder.rules.deep_view()[i],
                )),
            r matches Ok(t2) ==> (tokenv_wf(self@) ==> tokenv_wf(t2@)),
            match r {
                Ok(t2) => {
                    &&& !t2@.sealed
                    &&& t2@.blocks.len() == self@.blocks.len() + 1
                    &&& t2@.blocks.subrange(0, self@.blocks.len() as int) == self@.blocks
                    &&& t2@.keys == self@.keys.push(public_of(keypair.sk@))
                    &&& t2@.signatures.len() == self@.signatures.len() + 1
                    &&& t2@.signatures.subrange(0, self@.signatures.len() as int)
                        == self@.signatures
                    &&& token_counts_ok(t2@)
                    &&& (token_indices_ok(self@) ==> token_indices_ok(t2@))
                    &&& (chain_valid(self@) ==> chain_valid(t2@))
                    &&& token_symbols_ok(t2@)
                    &&& t2@.blocks.last().index == self@.blocks.len()
                    &&& t2@.blocks.last().facts.len() == block_builder.facts.deep_view().len()
                    &&& t2@.blocks.last().rules.len() == block_builder.rules.deep_view().len()
                    &&& t2@.blocks.last().caveats.len()
                        == block_builder.caveats.deep_view().len()
                    &&& (forall|i: int|
                        0 <= i < block_builder.facts.deep_view().len()
                            ==> crate::builder::pred_resolves(
                            #[trigger] t2@.blocks.last().facts[i],
                            token_table(t2@.blocks),
                            block_builder.facts.deep_view()[i],
                        ))
                    &&& (forall|i: int|
                        0 <= i < block_builder.caveats.deep_view().len()
                            ==> crate::builder::rule_resolves(
                            #[trigger] t2@.blocks.last().caveats[i],
                            token_table(t2@.blocks),
                            block_builder.caveats.deep_view()[i],
                        ))
                },
                Err(e) => {
                    ||| e == Error::Sealed
                    ||| e == Error::SymbolTableOverlap
                    ||| e == Error::ParseError
                    ||| e == Error::InternalError
                },
            },
    {
        if self.sealed {
            return Err(Error::Sealed);
        }
        let mut table = match self.build_symbol_table() {
            Ok(t) => t,
            Err(e) => {
                return Err(e);
            },
        };
        let ghost t0 = table@;
        let base = table.len();
        let (facts, rules, caveats) = match crate::builder::convert_staged(
            &block_builder.facts,
            &block_builder.rules,
            &block_builder.caveats,
            &mut table,
        ) {
            Ok(out) => out,
            Err(e) => {
                return Err(e);
            },
        };
        let ghost full = table@;
        let slice = table.split_at(base);
        proof {
            assert(token_table(self@.blocks) + slice@ =~= full);
            assert(slice@ =~= full.skip(token_table(self@.blocks).len() as int));
        }
        if self.blocks.len() > u32::MAX as usize - 1 {
            return Err(Error::InternalError);
        }
        if keypair.to_bytes().len() != 32 {
            return Err(Error::InternalError);
        }
        let index = self.blocks.len() as u32;
        let block = Block { index, symbols: slice, facts, rules, caveats };
        learn_block_wf(&block);
        let msg = chained_msg(&block, &self.signatures[self.signatures.len() - 1]);
        let sig = match keypair.sign(&msg) {
            Ok(s) => s,
            Err(e) => {
                return Err(e);
            },
        };
        let n = self.blocks.len();
        let mut blocks: Vec<Block> = Vec::new();
        for i in 0..n
            invariant
                n == self.blocks@.len(),
                blocks.deep_view() =~= self@.blocks.subrange(0, i as int),
        {
            let b = block_dup(&self.blocks[i]);
            let ghost prev = blocks;
            let ghost bg = b;
            blocks.push(b);
            proof {
                lemma_deep_view_push(blocks, prev, bg);
                assert(blocks.deep_view() =~= self@.blocks.subrange(0, i as int + 1));
            }
        }
        proof {
            assert(self@.blocks.subrange(0, n as int) =~= self@.blocks);
        }
        let ghost blockg = block;
        let ghost blocks_pre = blocks;
        blocks.push(block);
        proof {
            lemma_deep_view_push(blocks, blocks_pre, blockg);
        }
        let mut keys: Vec<Vec<u8>> = Vec::new();
        for i in 0..n
            invariant
                n == self.keys@.len(),
                keys.deep_view() =~= self@.keys.subrange(0, i as int),
        {
            let k = dup_bytes(&self.keys[i]);
            let ghost prev = keys;
            let ghost kg = k;
            keys.push(k);
            proof {
                lemma_deep_view_push(keys, prev, kg);
                assert(keys.deep_view() =~= self@.keys.subrange(0, i as int + 1));
            }
        }
        proof {
            assert(self@.keys.subrange(0, n as int) =~= self@.keys);
        }
        let pk = keypair.public_key();
        let pk_len: usize = pk.pk.len();
        let ghost keys_pre = keys;
        let ghost pkg = pk.pk;
        keys.push(pk.pk);
        proof {
            lemma_deep_view_push(keys, keys_pre, pkg);
        }
        let mut signatures: Vec<Vec<u8>> = Vec::new();
        for i in 0..n
            invariant
                n == self.signatures@.len(),
                signatures.deep_view() =~= self@.signatures.subrange(0, i as int),
        {
            let sg = dup_bytes(&self.signatures[i]);
            let ghost prev = signatures;
            let ghost sgg = sg;
            signatures.push(sg);
            proof {
                lemma_deep_view_push(signatures, prev, sgg);
                assert(signatures.deep_view() =~= self@.signatures.subrange(0, i as int + 1));
            }
        }
        proof {
            assert(self@.signatures.subrange(0, n as int) =~= self@.signatures);
        }
        let sig_len: usize = sig.len();
        let ghost sigs_pre = signatures;
        let ghost sigg = sig;
        signatures.push(sig);
        proof {
            lemma_deep_view_push(signatures, sigs_pre, sigg);
        }
        let t2 = Biscuit { blocks, keys, signatures, sealed: false };
        proof {
            assert(pkg.deep_view() =~= pkg@);
            assert(sigg.deep_view() =~= sigg@);
            assert(t2@.blocks =~= self@.blocks.push(blockg@));
            assert(t2@.keys =~= self@.keys.push(public_of(keypair.sk@)));
            assert(t2@.signatures =~= self@.signatures.push(sigg@));
            assert(self.signatures@[self@.signatures.len() - 1]@ == self@.signatures.last());
            assert(t2@.signatures.last() == crate::crypto::sig_of(
                keypair.sk@,
                spec_enc_block(blockg@) + self@.signatures.last(),
            ));
            assert(t2@.blocks.subrange(0, self@.blocks.len() as int) =~= self@.blocks);
            assert(t2@.signatures.subrange(0, self@.signatures.len() as int) =~= self@.signatures);
            assert(t2@.blocks.last() == blockg@);
            // the new table is the old table plus the new block's range
            assert(blocks_symbols(t2@.blocks) =~= blocks_symbols(self@.blocks) + blockg@.symbols)
                by {
                assert(t2@.blocks.drop_last() =~= self@.blocks);
            }
            assert(token_table(t2@.blocks) =~= full);
            // chain validity carries over: old links see the same messages
            if chain_valid(self@) {
                assert forall|i: int| 0 <= i < t2@.blocks.len() implies sig_valid(
                    t2@.keys[i],
                    spec_block_msg(t2@, i),
                    #[trigger] t2@.signatures[i],
                ) by {
                    if i < self@.blocks.len() {
                        assert(t2@.blocks[i] == self@.blocks[i]);
                        assert(spec_block_msg(t2@, i) == spec_block_msg(self@, i));
                        assert(sig_valid(self@.keys[i], spec_block_msg(self@, i), self@.signatures[i]));
                    } else {
                        assert(spec_block_msg(t2@, i) == spec_enc_block(blockg@)
                            + self@.signatures[self@.signatures.len() - 1]);
                        assert(msg@ == spec_block_msg(t2@, i));
                    }
                }
            }
            if token_indices_ok(self@) {
                assert forall|i: int| 0 <= i < t2@.blocks.len() implies (
                #[trigger] t2@.blocks[i]).index == i by {
                    if i < self@.blocks.len() {
                        assert(t2@.blocks[i] == self@.blocks[i]);
                    }
                }
            }
            if tokenv_wf(self@) {
                assert forall|i: int| 0 <= i < t2@.blocks.len() implies blockv_wf(
                    #[trigger] t2@.blocks[i],
                ) by {
                    if i < self@.blocks.len() {
                        assert(t2@.blocks[i] == self@.blocks[i]);
                    }
                }
                assert forall|i: int| 0 <= i < t2@.keys.len() implies (
                #[trigger] t2@.keys[i]).len() <= u64::MAX by {
                    if i < self@.keys.len() {
                        assert(t2@.keys[i] == self@.keys[i]);
                    } else {
                        assert(t2@.keys[i] == pkg@);
                    }
                }
                assert forall|i: int| 0 <= i < t2@.signatures.len() implies (
                #[trigger] t2@.signatures[i]).len() <= u64::MAX by {
                    if i < self@.signatures.len() {
                        assert(t2@.signatures[i] == self@.signatures[i]);
                    } else {
                        assert(t2@.signatures[i] == sigg@);
                    }
                }
                assert(tokenv_wf(t2@));
            }
        }
        Ok(t2)
    }

    /// Seals the token with symmetric key material: the result carries the
    /// token bytes and a tag only the key holder can produce. Sealing is
    /// terminal: a token read back from sealed bytes rejects `append`.
    pub fn seal(&self, seal_key: &Vec<u8>) -> (r: Result<Vec<u8>, Error>)
        ensures
            r is Ok <==> seal_key@.len() == 32,
            r matches Err(e) ==> e == Error::Format(Format::SealedSignature)
                && seal_key@.len() != 32,
            r matches Ok(out) ==> exists|tag: Seq<u8>|
                {
                    &&& out@ == spec_enc_bytes(spec_enc_token(self@)) + spec_enc_bytes(tag)
                    &&& #[trigger] sig_valid(
                        public_of(seal_key@),
                        spec_enc_token(self@),
                        tag,
                    )
                },
    {
        let kp = match KeyPair::from_bytes(seal_key) {
            Ok(kp) => kp,
            Err(_) => {
                return Err(Error::Format(Format::SealedSignature));
            },
        };
        let body = self.to_vec();
        let tag = match kp.sign(&body) {
            Ok(t) => t,
            Err(_) => {
                proof {
                    assert(false);
                }
                return Err(Error::InternalError);
            },
        };
        let mut out: Vec<u8> = Vec::new();
        enc_bytes(&mut out, &body);
        enc_bytes(&mut out, &tag);
        proof {
            assert(sig_valid(public_of(seal_key@), spec_enc_token(self@), tag@));
        }
        Ok(out)
    }

    /// Reads a sealed token: checks the key length, the envelope, the seal
    /// tag under the key, then parses and validates the inner bytes as
    /// `from` does. The result rejects further appends.
    pub fn from_sealed(slice: &Vec<u8>, secret: &Vec<u8>) -> (r: Result<Biscuit, Error>)
        ensures
            r == Err::<Biscuit, Error>(Error::Format(Format::SealedSignature)) <==> {
                ||| secret@.len() != 32
                ||| (secret@.len() == 32 && sealed_envelope(slice@) is Some && !sealed_tag_ok(
                    slice@,
                    secret@,
                ))
            },
            secret@.len() == 32 ==> ((r matches Err(e) && e matches Error::Format(
                Format::DeserializationError(_),
            )) <==> {
                ||| sealed_envelope(slice@) is None
                ||| (sealed_tag_ok(slice@, secret@) && sealed_inner(slice@) is None)
            }),
            r is Ok <==> {
                &&& secret@.len() == 32
                &&& sealed_tag_ok(slice@, secret@)
                &&& sealed_inner(slice@) matches Some(inner) && token_structure_ok(inner)
            },
            r matches Ok(t) ==> {
                &&& t@.sealed
                &&& sealed_inner(slice@) matches Some(inner) && t@ == (TokenV {
                    sealed: true,
                    ..inner
                })
                &&& token_structure_ok(t@)
            },
    {
        if secret.len() != 32 {
            return Err(Error::Format(Format::SealedSignature));
        }
        let (body, p) = match dec_bytes(slice, 0) {
            None => {
                return Err(Error::Format(Format::DeserializationError(String::new())));
            },
            Some(vp) => vp,
        };
        let (tag, p2) = match dec_bytes(slice, p) {
            None => {
                return Err(Error::Format(Format::DeserializationError(String::new())));
            },
            Some(vp) => vp,
        };
        if p2 != slice.len() {
            return Err(Error::Format(Format::DeserializationError(String::new())));
        }
        assert(sealed_envelope(slice@) == Some((body@, tag@)));
        let kp = match KeyPair::from_bytes(secret) {
            Ok(kp) => kp,
            Err(_) => {
                proof {
                    assert(false);
                }
                return Err(Error::Format(Format::SealedSignature));
            },
        };
        let pk = kp.public_key();
        if !pk.verify(&body, &tag) {
            return Err(Error::Format(Format::SealedSignature));
        }
        match Biscuit::from(&body) {
            Ok(t) => {
                let sealed_token = Biscuit {
                    blocks: t.blocks,
                    keys: t.keys,
                    signatures: t.signatures,
                    sealed: true,
                };
                proof {
                    assert(spec_parse_token(body@) matches Some(inner) && sealed_token@ == (TokenV {
                        sealed: true,
                        ..inner
                    }));
                }
                Ok(sealed_token)
            },
            Err(e) => Err(e),
        }
    }

    /// Renders the token's diagnostic form.
    pub fn print(&self) -> String {
        crate::printer::print_token(self)
    }
}

} // verus!
