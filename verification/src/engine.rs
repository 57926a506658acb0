//! The evaluation engine: binding search, constraint evaluation, one-pass
//! rule application and the fixpoint computation the verifier runs.

use vstd::prelude::*;
use crate::datalog::{
    Term, TermV, Predicate, PredV, Constraint, ConstraintCheck, Rule, Binding, term_eq, term_dup,
    pred_dup, preds_contain, lemma_deep_view_push, lemma_pred_match_monotone, term_match,
    pred_match, body_match_from, pred_vars, body_vars_from, body_vars, rule_fires, caveat_holds,
    subst_term, subst_pred, pred_bound, rule_derives, step_new, steps, stable_at,
    lemma_to_set_push, lemma_seq_contains_push, constraint_holds,
    constraints_hold, check_holds, in_i64, in_u64, is_prefix, is_suffix,
};
use crate::symbols::table_contains;
use crate::error::Error;
use vstd::string::StrSliceExecFns;

verus! {

/// The map a sequence of key/term pairs denotes; later pairs win, though a
/// well-formed [`Bindings`] never repeats a key.
pub open spec fn pairs_map(s: Seq<(u32, Term)>) -> Map<u32, TermV>
    decreases s.len(),
{
    if s.len() == 0 {
        Map::empty()
    } else {
        pairs_map(s.drop_last()).insert(s.last().0, s.last().1@)
    }
}

/// An executable variable binding: variable ids mapped to ground terms.
pub struct Bindings {
    pub pairs: Vec<(u32, Term)>,
}

impl View for Bindings {
    type V = Map<u32, TermV>;

    open spec fn view(&self) -> Map<u32, TermV> {
        pairs_map(self.pairs@)
    }
}

impl Bindings {
    /// No key occurs twice.
    pub open spec fn wf(&self) -> bool {
        forall|i: int, j: int|
            0 <= i < j < self.pairs@.len() ==> (#[trigger] self.pairs@[i]).0 != (
            #[trigger] self.pairs@[j]).0
    }
}

/// A key is in the denoted map exactly when some pair carries it.
pub proof fn lemma_pairs_map_keys(s: Seq<(u32, Term)>)
    ensures
        forall|k: u32|
            #[trigger] pairs_map(s).contains_key(k) <==> exists|i: int|
                0 <= i < s.len() && (#[trigger] s[i]).0 == k,
    decreases s.len(),
{
    if s.len() > 0 {
        lemma_pairs_map_keys(s.drop_last());
        assert forall|k: u32| #[trigger] pairs_map(s).contains_key(k) implies exists|i: int|
            0 <= i < s.len() && (#[trigger] s[i]).0 == k by {
            if k == s.last().0 {
                assert((s[s.len() - 1]).0 == k);
            } else {
                assert(pairs_map(s) == pairs_map(s.drop_last()).insert(s.last().0, s.last().1@));
                assert(pairs_map(s.drop_last()).contains_key(k));
                let i = choose|i: int| 0 <= i < s.drop_last().len() && (#[trigger] s.drop_last()[i]).0
                    == k;
                assert(s.drop_last()[i] == s[i]);
                assert((s[i]).0 == k);
            }
        }
        assert forall|k: u32|
            exists|i: int| 0 <= i < s.len() && (#[trigger] s[i]).0 == k implies #[trigger] pairs_map(
            s,
        ).contains_key(k) by {
            let i = choose|i: int| 0 <= i < s.len() && (#[trigger] s[i]).0 == k;
            if i < s.len() - 1 {
                assert((s.drop_last()[i]).0 == k);
                assert(pairs_map(s.drop_last()).contains_key(k));
            }
        }
    }
}

/// With distinct keys, each pair's term is the value its key maps to.
pub proof fn lemma_pairs_map_vals(s: Seq<(u32, Term)>)
    requires
        forall|i: int, j: int|
            0 <= i < j < s.len() ==> (#[trigger] s[i]).0 != (#[trigger] s[j]).0,
    ensures
        forall|i: int|
            0 <= i < s.len() ==> pairs_map(s).contains_key((#[trigger] s[i]).0) && pairs_map(s)[s[i].0]
                == s[i].1@,
    decreases s.len(),
{
    if s.len() > 0 {
        lemma_pairs_map_vals(s.drop_last());
        assert forall|i: int|
            0 <= i < s.len() implies pairs_map(s).contains_key((#[trigger] s[i]).0) && pairs_map(
            s,
        )[s[i].0] == s[i].1@ by {
            if i < s.len() - 1 {
                assert(s.drop_last()[i] == s[i]);
                assert((s[i]).0 != (s[s.len() - 1]).0);
            }
        }
    }
}

impl Bindings {
    /// The empty binding.
    pub fn new() -> (r: Bindings)
        ensures
            r@ == Map::<u32, TermV>::empty(),
            r.wf(),
    {
        Bindings { pairs: Vec::new() }
    }

    /// The term bound to `id`, if any.
    pub fn get(&self, id: u32) -> (r: Option<&Term>)
        requires
            self.wf(),
        ensures
            match r {
                Some(t) => self@.contains_key(id) && self@[id] == t@,
                None => !self@.contains_key(id),
            },
    {
        proof {
            lemma_pairs_map_keys(self.pairs@);
            lemma_pairs_map_vals(self.pairs@);
        }
        let n = self.pairs.len();
        for i in 0..n
            invariant
                n == self.pairs@.len(),
                forall|j: int| 0 <= j < i ==> (#[trigger] self.pairs@[j]).0 != id,
                self.wf(),
                forall|k: u32|
                    #[trigger] self@.contains_key(k) <==> exists|ii: int|
                        0 <= ii < self.pairs@.len() && (#[trigger] self.pairs@[ii]).0 == k,
                forall|ii: int|
                    0 <= ii < self.pairs@.len() ==> self@.contains_key(
                        (#[trigger] self.pairs@[ii]).0,
                    ) && self@[self.pairs@[ii].0] == self.pairs@[ii].1@,
        {
            if self.pairs[i].0 == id {
                return Some(&self.pairs[i].1);
            }
        }
        None
    }

    /// Binds a fresh variable.
    pub fn insert_new(&mut self, id: u32, t: Term)
        requires
            old(self).wf(),
            !old(self)@.contains_key(id),
        ensures
            final(self)@ == old(self)@.insert(id, t@),
            final(self).wf(),
    {
        proof {
            lemma_pairs_map_keys(self.pairs@);
        }
        self.pairs.push((id, t));
        proof {
            assert(self.pairs@.drop_last() =~= old(self).pairs@);
            assert forall|i: int, j: int|
                0 <= i < j < self.pairs@.len() implies (#[trigger] self.pairs@[i]).0 != (
            #[trigger] self.pairs@[j]).0 by {
                if j == self.pairs@.len() - 1 {
                    assert(self.pairs@[i] == old(self).pairs@[i]);
                    assert(!(exists|ii: int|
                        0 <= ii < old(self).pairs@.len() && (#[trigger] old(self).pairs@[ii]).0
                            == id));
                }
            }
        }
    }

    /// A copy with the same bindings.
    pub fn dup(&self) -> (r: Bindings)
        ensures
            r@ == self@,
            r.pairs@ == self.pairs@,
            self.wf() ==> r.wf(),
    {
        let n = self.pairs.len();
        let mut pairs: Vec<(u32, Term)> = Vec::new();
        for i in 0..n
            invariant
                n == self.pairs@.len(),
                pairs@ =~= self.pairs@.subrange(0, i as int),
        {
            let p = &self.pairs[i];
            let t = term_dup(&p.1);
            pairs.push((p.0, t));
            assert(pairs@ =~= self.pairs@.subrange(0, i as int + 1));
        }
        assert(pairs@ =~= self.pairs@);
        Bindings { pairs }
    }
}

/// The variables among the first `i` arguments of `p`.
pub open spec fn pred_vars_upto(p: PredV, i: int) -> Set<u32> {
    Set::new(|id: u32| exists|j: int| 0 <= j < i && p.args[j] == TermV::Variable(id))
}

/// Unifies predicate `p` with fact `f`, extending `b`: the unique minimal
/// extension of `b` that makes `p` match `f`, or `None` when no extension of
/// `b` does.
#[verifier::loop_isolation(false)]
pub fn match_pred(p: &Predicate, f: &Predicate, b: &Bindings) -> (r: Option<Bindings>)
    requires
        b.wf(),
    ensures
        match r {
            Some(b1) => {
                &&& b1.wf()
                &&& b@.submap_of(b1@)
                &&& b1@.dom() == b@.dom().union(pred_vars(p@))
                &&& pred_match(p@, f@, b1@)
            },
            None => forall|b2: Binding| b@.submap_of(b2) ==> !pred_match(p@, f@, b2),
        },
        forall|b2: Binding|
            b@.submap_of(b2) && pred_match(p@, f@, b2) ==> (r matches Some(b1) && b1@ == b2.restrict(
                b@.dom().union(pred_vars(p@)),
            )),
{
    if p.name != f.name {
        return None;
    }
    let n = p.args.len();
    if n != f.args.len() {
        assert(p@.args.len() != f@.args.len());
        return None;
    }
    let mut cur = b.dup();
    for i in 0..n
        invariant
            cur.wf(),
            b@.submap_of(cur@),
            cur@.dom() == b@.dom().union(pred_vars_upto(p@, i as int)),
            forall|j: int| 0 <= j < i ==> term_match(p@.args[j], #[trigger] f@.args[j], cur@),
            forall|b2: Binding|
                b@.submap_of(b2) && pred_match(p@, f@, b2) ==> cur@.submap_of(b2),
    {
        let pat = &p.args[i];
        let v = &f.args[i];
        let ghost cur_pre = cur@;
        match pat {
            Term::Variable(id) => {
                let existing = cur.get(*id);
                match existing {
                    Some(t) => {
                        if !term_eq(t, v) {
                            proof {
                                assert forall|b2: Binding| b@.submap_of(b2) implies !pred_match(
                                    p@,
                                    f@,
                                    b2,
                                ) by {
                                    if pred_match(p@, f@, b2) {
                                        assert(cur@.submap_of(b2));
                                        assert(term_match(p@.args[i as int], f@.args[i as int], b2));
                                        assert(b2[*id] == f@.args[i as int]);
                                        assert(b2[*id] == cur@[*id]);
                                    }
                                }
                            }
                            return None;
                        }
                        proof {
                            assert(cur@.dom() =~= b@.dom().union(pred_vars_upto(p@, i as int + 1)));
                        }
                    },
                    None => {
                        let tv = term_dup(v);
                        proof {
                            assert(tv@ == f@.args[i as int]);
                        }
                        cur.insert_new(*id, tv);
                        proof {
                            assert(cur@ == cur_pre.insert(*id, f@.args[i as int]));
                            assert(cur@.dom() =~= b@.dom().union(pred_vars_upto(p@, i as int + 1)));
                            assert forall|kk: u32| #[trigger] cur_pre.dom().contains(
                                kk,
                            ) implies cur@.dom().contains(kk) && cur_pre[kk] == cur@[kk] by {
                                assert(kk != *id);
                            }
                            assert(b@.submap_of(cur@)) by {
                                assert(b@.submap_of(cur_pre));
                                assert forall|kk: u32| #[trigger] b@.dom().contains(
                                    kk,
                                ) implies cur@.dom().contains(kk) && b@[kk] == cur@[kk] by {
                                    assert(cur_pre.dom().contains(kk));
                                }
                            }
                            assert forall|j: int|
                                0 <= j < i + 1 implies term_match(
                                p@.args[j],
                                #[trigger] f@.args[j],
                                cur@,
                            ) by {
                                if j < i {
                                    assert(term_match(p@.args[j], f@.args[j], cur_pre));
                                    assert(cur_pre.submap_of(cur@));
                                } else {
                                    assert(cur@[*id] == f@.args[i as int]);
                                }
                            }
                            assert forall|b2: Binding|
                                b@.submap_of(b2) && pred_match(p@, f@, b2) implies cur@.submap_of(
                                b2,
                            ) by {
                                assert(cur_pre.submap_of(b2));
                                assert(term_match(p@.args[i as int], f@.args[i as int], b2));
                                assert(b2.contains_key(*id) && b2[*id] == f@.args[i as int]);
                                assert forall|kk: u32| #[trigger] cur@.dom().contains(
                                    kk,
                                ) implies b2.dom().contains(kk) && cur@[kk] == b2[kk] by {
                                    if kk == *id {
                                        assert(b2.dom().contains(kk));
                                        assert(cur@[kk] == f@.args[i as int]);
                                        assert(b2[kk] == f@.args[i as int]);
                                        assert(cur@[kk] == b2[kk]);
                                    } else {
                                        assert(cur_pre.dom().contains(kk));
                                        assert(cur@[kk] == cur_pre[kk]);
                                        assert(b2.dom().contains(kk));
                                        assert(b2[kk] == cur_pre[kk]);
                                        assert(cur@[kk] == b2[kk]);
                                    }
                                }
                            }
                        }
                    },
                }
            },
            _ => {
                if !term_eq(pat, v) {
                    proof {
                        assert forall|b2: Binding| b@.submap_of(b2) implies !pred_match(
                            p@,
                            f@,
                            b2,
                        ) by {
                            if pred_match(p@, f@, b2) {
                                assert(term_match(p@.args[i as int], f@.args[i as int], b2));
                            }
                        }
                    }
                    return None;
                }
                proof {
                    assert(term_match(p@.args[i as int], f@.args[i as int], cur@));
                    assert(cur@.dom() =~= b@.dom().union(pred_vars_upto(p@, i as int + 1)));
                }
            },
        }
    }
    proof {
        assert(pred_vars_upto(p@, n as int) =~= pred_vars(p@));
        assert(pred_match(p@, f@, cur@));
        assert forall|b2: Binding| b@.submap_of(b2) && pred_match(p@, f@, b2) implies cur@
            == b2.restrict(b@.dom().union(pred_vars(p@))) by {
            assert(cur@.submap_of(b2));
            assert(cur@ =~= b2.restrict(cur@.dom()));
        }
    }
    Some(cur)
}

/// Submaps compose.
pub proof fn lemma_submap_trans(a: Binding, b: Binding, c: Binding)
    requires
        a.submap_of(b),
        b.submap_of(c),
    ensures
        a.submap_of(c),
{
    assert forall|k: u32| #[trigger] a.dom().contains(k) implies c.dom().contains(k) && a[k]
        == c[k] by {
        assert(b.dom().contains(k));
        assert(a[k] == b[k]);
        assert(c.dom().contains(k));
        assert(b[k] == c[k]);
        assert(a[k] == c[k]);
    }
}

/// A restriction of a map is one of its submaps.
pub proof fn lemma_restrict_submap(m: Binding, keys: Set<u32>)
    ensures
        m.restrict(keys).submap_of(m),
{
}

/// The variables of a body suffix split into the head predicate's variables
/// and those of the rest.
pub proof fn lemma_body_vars_unfold(body: Seq<PredV>, i: int)
    requires
        0 <= i < body.len(),
    ensures
        body_vars_from(body, i) =~= pred_vars(body[i]).union(body_vars_from(body, i + 1)),
{
    assert forall|id: u32| body_vars_from(body, i).contains(id) implies pred_vars(
        body[i],
    ).union(body_vars_from(body, i + 1)).contains(id) by {
        let j = choose|j: int| i <= j < body.len() && pred_vars(#[trigger] body[j]).contains(id);
        if j > i {
            assert(body_vars_from(body, i + 1).contains(id));
        }
    }
    assert forall|id: u32|
        pred_vars(body[i]).union(body_vars_from(body, i + 1)).contains(id) implies body_vars_from(
        body,
        i,
    ).contains(id) by {
        if pred_vars(body[i]).contains(id) {
            assert(i <= i < body.len() && pred_vars(body[i]).contains(id));
        } else {
            let j = choose|j: int|
                i + 1 <= j < body.len() && pred_vars(#[trigger] body[j]).contains(id);
            assert(i <= j < body.len() && pred_vars(body[j]).contains(id));
        }
    }
}

/// The condition a binding solves the body suffix starting at `i` under,
/// relative to the partial binding `cur`.
pub open spec fn search_cond(
    body: Seq<PredV>,
    i: int,
    facts: Set<PredV>,
    cur: Binding,
    b2: Binding,
) -> bool {
    &&& cur.submap_of(b2)
    &&& b2.dom() == cur.dom().union(body_vars_from(body, i))
    &&& body_match_from(body, i, facts, b2)
}

/// Some collected binding has value `b2`.
pub open spec fn binding_found(out: Seq<Bindings>, b2: Binding) -> bool {
    exists|k: int| 0 <= k < out.len() && out[k]@ == b2
}

/// Collects into `out` every binding that extends `cur` to a solution of the
/// body suffix starting at `i` against `facts`: sound (everything collected
/// solves it) and complete (every solution is collected).
#[verifier::loop_isolation(false)]
pub fn search_body(
    body: &Vec<Predicate>,
    i: usize,
    facts: &Vec<Predicate>,
    cur: &Bindings,
    out: &mut Vec<Bindings>,
)
    requires
        cur.wf(),
        i <= body@.len(),
    ensures
        final(out)@.len() >= old(out)@.len(),
        forall|k: int| 0 <= k < old(out)@.len() ==> final(out)@[k] == old(out)@[k],
        forall|k: int|
            old(out)@.len() <= k < final(out)@.len() ==> {
                &&& (#[trigger] final(out)@[k]).wf()
                &&& cur@.submap_of(final(out)@[k]@)
                &&& final(out)@[k]@.dom() == cur@.dom().union(
                    body_vars_from(body.deep_view(), i as int),
                )
                &&& body_match_from(
                    body.deep_view(),
                    i as int,
                    facts.deep_view().to_set(),
                    final(out)@[k]@,
                )
            },
        forall|b2: Binding|
            search_cond(body.deep_view(), i as int, facts.deep_view().to_set(), cur@, b2)
                ==> binding_found(final(out)@, b2),
    decreases body@.len() - i,
{
    let ghost bodyv = body.deep_view();
    let ghost fset = facts.deep_view().to_set();
    if i == body.len() {
        let bb = cur.dup();
        out.push(bb);
        proof {
            assert(body_vars_from(bodyv, i as int) =~= Set::<u32>::empty());
            assert(cur@.dom().union(Set::<u32>::empty()) =~= cur@.dom());
            assert(out@[out@.len() - 1]@ == cur@);
            assert forall|b2: Binding|
                search_cond(bodyv, i as int, fset, cur@, b2) implies binding_found(out@, b2) by {
                assert forall|kk: u32| #[trigger] b2.dom().contains(kk) implies cur@.dom().contains(
                    kk,
                ) && b2[kk] == cur@[kk] by {
                    assert(cur@.dom().union(body_vars_from(bodyv, i as int)).contains(kk));
                }
                assert(b2 =~= cur@);
                assert(out@[out@.len() - 1]@ == b2);
            }
        }
    } else {
        let n = facts.len();
        for j in 0..n
            invariant
                out@.len() >= old(out)@.len(),
                forall|k: int| 0 <= k < old(out)@.len() ==> out@[k] == old(out)@[k],
                forall|k: int|
                    old(out)@.len() <= k < out@.len() ==> {
                        &&& (#[trigger] out@[k]).wf()
                        &&& cur@.submap_of(out@[k]@)
                        &&& out@[k]@.dom() == cur@.dom().union(body_vars_from(bodyv, i as int))
                        &&& body_match_from(bodyv, i as int, fset, out@[k]@)
                    },
                forall|b2: Binding|
                    (search_cond(bodyv, i as int, fset, cur@, b2) && exists|jj: int|
                        0 <= jj < j && pred_match(
                            bodyv[i as int],
                            #[trigger] facts.deep_view()[jj],
                            b2,
                        )) ==> binding_found(out@, b2),
        {
            let ghost out_pre = out@;
            let m = match_pred(&body[i], &facts[j], cur);
            if let Some(b1) = m {
                search_body(body, i + 1, facts, &b1, out);
                proof {
                    lemma_body_vars_unfold(bodyv, i as int);
                    assert(bodyv[i as int] == body[i as int]@);
                    assert(facts.deep_view()[j as int] == facts[j as int]@);
                    // soundness of the entries the recursive call added
                    assert forall|k: int| out_pre.len() <= k < out@.len() implies {
                        &&& (#[trigger] out@[k]).wf()
                        &&& cur@.submap_of(out@[k]@)
                        &&& out@[k]@.dom() == cur@.dom().union(body_vars_from(bodyv, i as int))
                        &&& body_match_from(bodyv, i as int, fset, out@[k]@)
                    } by {
                        lemma_submap_trans(cur@, b1@, out@[k]@);
                        assert(out@[k]@.dom() =~= cur@.dom().union(
                            body_vars_from(bodyv, i as int),
                        ));
                        lemma_pred_match_monotone(
                            bodyv[i as int],
                            facts.deep_view()[j as int],
                            b1@,
                            out@[k]@,
                        );
                        assert(fset.contains(facts.deep_view()[j as int])) by {
                            assert(facts.deep_view().contains(facts.deep_view()[j as int]));
                        }
                        assert forall|jp: int|
                            i as int <= jp < bodyv.len() implies exists|f: PredV|
                            fset.contains(f) && pred_match(#[trigger] bodyv[jp], f, out@[k]@) by {
                            if jp == i as int {
                                assert(fset.contains(facts.deep_view()[j as int]) && pred_match(
                                    bodyv[jp],
                                    facts.deep_view()[j as int],
                                    out@[k]@,
                                ));
                            } else {
                                assert(body_match_from(bodyv, i as int + 1, fset, out@[k]@));
                            }
                        }
                    }
                    // completeness: solutions whose witness is fact j are now found
                    assert forall|b2: Binding|
                        (search_cond(bodyv, i as int, fset, cur@, b2) && exists|jj: int|
                            0 <= jj < j + 1 && pred_match(
                                bodyv[i as int],
                                #[trigger] facts.deep_view()[jj],
                                b2,
                            )) implies binding_found(out@, b2) by {
                        let jj = choose|jj: int|
                            0 <= jj < j + 1 && pred_match(
                                bodyv[i as int],
                                #[trigger] facts.deep_view()[jj],
                                b2,
                            );
                        if jj < j {
                            assert(binding_found(out_pre, b2));
                            let k = choose|k: int| 0 <= k < out_pre.len() && out_pre[k]@ == b2;
                            assert(out@[k]@ == b2);
                        } else {
                            // the canonical extension for fact j is b1
                            assert(pred_match(body[i as int]@, facts[j as int]@, b2));
                            assert(b1@ == b2.restrict(cur@.dom().union(pred_vars(body[i as int]@))));
                            lemma_restrict_submap(b2, cur@.dom().union(pred_vars(body[i as int]@)));
                            assert(b2.dom() =~= b1@.dom().union(
                                body_vars_from(bodyv, i as int + 1),
                            )) by {
                                assert(b1@.dom() =~= cur@.dom().union(pred_vars(bodyv[i as int])));
                            }
                            assert(search_cond(bodyv, i as int + 1, fset, b1@, b2));
                        }
                    }
                }
            } else {
                proof {
                    assert forall|b2: Binding|
                        (search_cond(bodyv, i as int, fset, cur@, b2) && exists|jj: int|
                            0 <= jj < j + 1 && pred_match(
                                bodyv[i as int],
                                #[trigger] facts.deep_view()[jj],
                                b2,
                            )) implies binding_found(out@, b2) by {
                        let jj = choose|jj: int|
                            0 <= jj < j + 1 && pred_match(
                                bodyv[i as int],
                                #[trigger] facts.deep_view()[jj],
                                b2,
                            );
                        if jj == j {
                            assert(cur@.submap_of(b2));
                            assert(!pred_match(body[i as int]@, facts[j as int]@, b2));
                            assert(false);
                        } else {
                            assert(binding_found(out_pre, b2));
                            let k = choose|k: int| 0 <= k < out_pre.len() && out_pre[k]@ == b2;
                            assert(out@[k]@ == b2);
                        }
                    }
                }
            }
        }
        proof {
            assert forall|b2: Binding|
                search_cond(bodyv, i as int, fset, cur@, b2) implies binding_found(out@, b2) by {
                assert(body_match_from(bodyv, i as int, fset, b2));
                assert((i as int) < bodyv.len());
                let f = choose|f: PredV| fset.contains(f) && pred_match(bodyv[i as int], f, b2);
                assert(facts.deep_view().contains(f));
                let jj = choose|jj: int|
                    0 <= jj < facts.deep_view().len() && facts.deep_view()[jj] == f;
                assert(pred_match(bodyv[i as int], facts.deep_view()[jj], b2));
            }
        }
    }
}

// ---------------------------------------------------------------------------
// Constraint evaluation
// ---------------------------------------------------------------------------

/// Whether `v` holds `x`.
#[verifier::loop_isolation(false)]
pub fn contains_i64(v: &Vec<i64>, x: i64) -> (r: bool)
    ensures
        r == in_i64(v@, x),
{
    let n = v.len();
    for k in 0..n
        invariant
            forall|j: int| 0 <= j < k ==> v@[j] != x,
    {
        if v[k] == x {
            return true;
        }
    }
    false
}

/// Whether `v` holds `x`.
#[verifier::loop_isolation(false)]
pub fn contains_u64(v: &Vec<u64>, x: u64) -> (r: bool)
    ensures
        r == in_u64(v@, x),
{
    let n = v.len();
    for k in 0..n
        invariant
            forall|j: int| 0 <= j < k ==> v@[j] != x,
    {
        if v[k] == x {
            return true;
        }
    }
    false
}

/// Whether `v` holds a string with the value of `x`.
#[verifier::loop_isolation(false)]
pub fn contains_string(v: &Vec<String>, x: &String) -> (r: bool)
    ensures
        r == table_contains(v.deep_view(), x@),
{
    let n = v.len();
    for k in 0..n
        invariant
            forall|j: int| 0 <= j < k ==> v.deep_view()[j] != x@,
    {
        if v[k] == *x {
            assert(v.deep_view()[k as int] == x@);
            return true;
        }
    }
    false
}

/// Whether the value of `p` is a prefix of the value of `s`.
#[verifier::loop_isolation(false)]
pub fn str_prefix_of(p: &String, s: &String) -> (r: bool)
    ensures
        r == is_prefix(p@, s@),
{
    let pl = p.as_str().unicode_len();
    let sl = s.as_str().unicode_len();
    if pl > sl {
        return false;
    }
    for k in 0..pl
        invariant
            forall|j: int| 0 <= j < k ==> p@[j] == s@[j],
    {
        if p.as_str().get_char(k) != s.as_str().get_char(k) {
            proof {
                if is_prefix(p@, s@) {
                    assert(s@.subrange(0, p@.len() as int)[k as int] == p@[k as int]);
                }
            }
            return false;
        }
    }
    proof {
        assert(s@.subrange(0, p@.len() as int) =~= p@);
    }
    true
}

/// Whether the value of `p` is a suffix of the value of `s`.
#[verifier::loop_isolation(false)]
pub fn str_suffix_of(p: &String, s: &String) -> (r: bool)
    ensures
        r == is_suffix(p@, s@),
{
    let pl = p.as_str().unicode_len();
    let sl = s.as_str().unicode_len();
    if pl > sl {
        return false;
    }
    let d = sl - pl;
    for k in 0..pl
        invariant
            forall|j: int| 0 <= j < k ==> p@[j] == s@[d + j],
    {
        if p.as_str().get_char(k) != s.as_str().get_char(d + k) {
            proof {
                if is_suffix(p@, s@) {
                    assert(s@.subrange(s@.len() - p@.len(), s@.len() as int)[k as int] == p@[k as int]);
                }
            }
            return false;
        }
    }
    proof {
        assert(s@.subrange(s@.len() - p@.len(), s@.len() as int) =~= p@);
    }
    true
}

/// Whether the ground term `t` passes the test `c`.
pub fn check_one(c: &ConstraintCheck, t: &Term) -> (r: bool)
    ensures
        r == check_holds(c@, t@),
{
    match (c, t) {
        (ConstraintCheck::IntLower(x), Term::Integer(i)) => *i < *x,
        (ConstraintCheck::IntLarger(x), Term::Integer(i)) => *i > *x,
        (ConstraintCheck::IntLowerOrEqual(x), Term::Integer(i)) => *i <= *x,
        (ConstraintCheck::IntLargerOrEqual(x), Term::Integer(i)) => *i >= *x,
        (ConstraintCheck::IntEqual(x), Term::Integer(i)) => *i == *x,
        (ConstraintCheck::IntIn(set), Term::Integer(i)) => contains_i64(set, *i),
        (ConstraintCheck::IntNotIn(set), Term::Integer(i)) => !contains_i64(set, *i),
        (ConstraintCheck::StrPrefix(x), Term::Str(s)) => str_prefix_of(x, s),
        (ConstraintCheck::StrSuffix(x), Term::Str(s)) => str_suffix_of(x, s),
        (ConstraintCheck::StrEqual(x), Term::Str(s)) => *x == *s,
        (ConstraintCheck::StrIn(set), Term::Str(s)) => contains_string(set, s),
        (ConstraintCheck::StrNotIn(set), Term::Str(s)) => !contains_string(set, s),
        (ConstraintCheck::DateBefore(x), Term::Date(d)) => *d <= *x,
        (ConstraintCheck::DateAfter(x), Term::Date(d)) => *d >= *x,
        (ConstraintCheck::SymIn(set), Term::Symbol(y)) => contains_u64(set, *y),
        (ConstraintCheck::SymNotIn(set), Term::Symbol(y)) => !contains_u64(set, *y),
        _ => false,
    }
}

/// Whether the binding satisfies every constraint of `cs`.
#[verifier::loop_isolation(false)]
pub fn check_constraints(cs: &Vec<Constraint>, b: &Bindings) -> (r: bool)
    requires
        b.wf(),
    ensures
        r == constraints_hold(cs.deep_view(), b@),
{
    let n = cs.len();
    for k in 0..n
        invariant
            forall|j: int| 0 <= j < k ==> constraint_holds(#[trigger] cs.deep_view()[j], b@),
    {
        let c = &cs[k];
        assert(cs.deep_view()[k as int] == c@);
        match b.get(c.id) {
            None => {
                assert(!constraint_holds(cs.deep_view()[k as int], b@));
                return false;
            },
            Some(t) => {
                if !check_one(&c.check, t) {
                    assert(!constraint_holds(cs.deep_view()[k as int], b@));
                    return false;
                }
            },
        }
    }
    true
}

// ---------------------------------------------------------------------------
// Rule application and fixpoint
// ---------------------------------------------------------------------------

/// Whether every variable of `p` is bound by `b`.
#[verifier::loop_isolation(false)]
pub fn pred_bound_exec(p: &Predicate, b: &Bindings) -> (r: bool)
    requires
        b.wf(),
    ensures
        r == pred_bound(p@, b@),
{
    let n = p.args.len();
    for k in 0..n
        invariant
            pred_vars_upto(p@, k as int).subset_of(b@.dom()),
    {
        let ghost pre = pred_vars_upto(p@, k as int);
        if let Term::Variable(id) = &p.args[k] {
            if b.get(*id).is_none() {
                proof {
                    assert(p@.args[k as int] == TermV::Variable(*id));
                    assert(pred_vars(p@).contains(*id));
                    assert(!b@.dom().contains(*id));
                }
                return false;
            }
        }
        proof {
            assert forall|id: u32| pred_vars_upto(p@, k as int + 1).contains(
                id,
            ) implies b@.dom().contains(id) by {
                let j = choose|j: int| 0 <= j < k + 1 && p@.args[j] == TermV::Variable(id);
                if j < k {
                    assert(pre.contains(id));
                }
            }
        }
    }
    proof {
        assert forall|id: u32| pred_vars(p@).contains(id) implies b@.dom().contains(id) by {
            assert(pred_vars_upto(p@, n as int).contains(id));
        }
    }
    true
}

/// The head instance a binding produces.
#[verifier::loop_isolation(false)]
pub fn subst_exec(p: &Predicate, b: &Bindings) -> (r: Predicate)
    requires
        b.wf(),
    ensures
        r@ == subst_pred(p@, b@),
{
    let n = p.args.len();
    let mut args: Vec<Term> = Vec::new();
    for k in 0..n
        invariant
            args.deep_view() =~= subst_pred(p@, b@).args.subrange(0, k as int),
    {
        let arg = &p.args[k];
        let t: Term = match arg {
            Term::Variable(id) => {
                match b.get(*id) {
                    Some(bound) => term_dup(bound),
                    None => term_dup(arg),
                }
            },
            _ => term_dup(arg),
        };
        proof {
            assert(t@ == subst_term(p@.args[k as int], b@));
            assert(subst_pred(p@, b@).args[k as int] == subst_term(p@.args[k as int], b@));
        }
        let ghost prev = args;
        let ghost tg = t;
        args.push(t);
        proof {
            lemma_deep_view_push(args, prev, tg);
            assert(args.deep_view() =~= subst_pred(p@, b@).args.subrange(0, k as int + 1));
        }
    }
    let r = Predicate { name: p.name, args };
    proof {
        assert(subst_pred(p@, b@).args.subrange(0, n as int) =~= subst_pred(p@, b@).args);
        assert(r@ =~= subst_pred(p@, b@));
    }
    r
}

/// Applies one rule to the fact set, appending to `out` exactly the facts
/// the rule derives.
#[verifier::loop_isolation(false)]
pub fn apply_rule(rule: &Rule, facts: &Vec<Predicate>, out: &mut Vec<Predicate>)
    ensures
        final(out)@.len() >= old(out)@.len(),
        forall|k: int| 0 <= k < old(out)@.len() ==> final(out)@[k] == old(out)@[k],
        forall|k: int|
            old(out)@.len() <= k < final(out)@.len() ==> rule_derives(
                rule@,
                facts.deep_view().to_set(),
                final(out).deep_view()[k],
            ),
        forall|f: PredV|
            rule_derives(rule@, facts.deep_view().to_set(), f) ==> final(out).deep_view().contains(
                f,
            ),
{
    let ghost fset = facts.deep_view().to_set();
    let empty = Bindings::new();
    let mut bs: Vec<Bindings> = Vec::new();
    search_body(&rule.body, 0, facts, &empty, &mut bs);
    proof {
        assert(Map::<u32, TermV>::empty().dom().union(body_vars_from(rule@.body, 0))
            =~= body_vars(rule@.body));
    }
    let n = bs.len();
    for idx in 0..n
        invariant
            n == bs@.len(),
            forall|k: int| 0 <= k < old(out)@.len() ==> out@[k] == old(out)@[k],
            out@.len() >= old(out)@.len(),
            forall|k: int|
                old(out)@.len() <= k < out@.len() ==> rule_derives(
                    rule@,
                    fset,
                    out.deep_view()[k],
                ),
            forall|j: int|
                0 <= j < idx && constraints_hold(rule@.constraints, (#[trigger] bs@[j])@)
                    && pred_bound(rule@.head, bs@[j]@) ==> out.deep_view().contains(
                    subst_pred(rule@.head, bs@[j]@),
                ),
    {
        let bnd = &bs[idx];
        proof {
            assert(bs@[idx as int].wf());
        }
        if check_constraints(&rule.constraints, bnd) {
            if pred_bound_exec(&rule.head, bnd) {
                let nf = subst_exec(&rule.head, bnd);
                proof {
                    assert(rule_fires(rule@, fset, bnd@)) by {
                        assert(bnd@.dom() == Map::<u32, TermV>::empty().dom().union(
                            body_vars_from(rule@.body, 0),
                        ));
                    }
                    assert(rule_derives(rule@, fset, nf@));
                }
                let ghost prev = *out;
                let ghost nfg = nf;
                out.push(nf);
                proof {
                    lemma_deep_view_push(*out, prev, nfg);
                    assert(out.deep_view() =~= prev.deep_view().push(nfg@));
                    lemma_seq_contains_push(out.deep_view(), prev.deep_view(), nfg@);
                }
            }
        }
    }
    proof {
        assert forall|f: PredV| rule_derives(rule@, fset, f) implies out.deep_view().contains(
            f,
        ) by {
            let b = choose|b: Binding|
                rule_fires(rule@, fset, b) && pred_bound(rule@.head, b) && f == subst_pred(
                    rule@.head,
                    b,
                );
            assert(search_cond(rule.body.deep_view(), 0, fset, Map::<u32, TermV>::empty(), b)) by {
                assert(b.dom() =~= Map::<u32, TermV>::empty().dom().union(
                    body_vars_from(rule@.body, 0),
                ));
            }
            assert(binding_found(bs@, b));
            let k = choose|k: int| 0 <= k < bs@.len() && bs@[k]@ == b;
            assert(constraints_hold(rule@.constraints, bs@[k]@));
            assert(out.deep_view().contains(subst_pred(rule@.head, bs@[k]@)));
        }
    }
}

/// One whole pass: everything any rule derives from `world`, as a list whose
/// set of values is exactly `step_new`.
#[verifier::loop_isolation(false)]
pub fn derive_step(rules: &Vec<Rule>, world: &Vec<Predicate>) -> (new: Vec<Predicate>)
    ensures
        new.deep_view().to_set() == step_new(rules.deep_view(), world.deep_view().to_set()),
{
    let ghost wset = world.deep_view().to_set();
    let mut out: Vec<Predicate> = Vec::new();
    let n = rules.len();
    for k in 0..n
        invariant
            forall|j: int|
                #![trigger out.deep_view()[j]]
                0 <= j < out.deep_view().len() ==> exists|kk: int|
                    0 <= kk < k && rule_derives(
                        rules.deep_view()[kk],
                        wset,
                        out.deep_view()[j],
                    ),
            forall|f: PredV, kk: int|
                0 <= kk < k && #[trigger] rule_derives(rules.deep_view()[kk], wset, f)
                    ==> out.deep_view().contains(f),
    {
        let ghost out_pre = out.deep_view();
        assert(rules.deep_view()[k as int] == rules[k as int]@);
        apply_rule(&rules[k], world, &mut out);
        proof {
            assert forall|j: int| #![trigger out.deep_view()[j]] 0 <= j
                < out.deep_view().len() implies exists|kk: int|
                0 <= kk < k + 1 && rule_derives(
                    #[trigger] rules.deep_view()[kk],
                    wset,
                    out.deep_view()[j],
                ) by {
                if j < out_pre.len() {
                    assert(out.deep_view()[j] == out_pre[j]);
                    let kk = choose|kk: int|
                        0 <= kk < k && rule_derives(#[trigger] rules.deep_view()[kk], wset, out_pre[j]);
                    assert(rule_derives(rules.deep_view()[kk], wset, out.deep_view()[j]));
                } else {
                    assert(rule_derives(rules.deep_view()[k as int], wset, out.deep_view()[j]));
                }
            }
            assert forall|f: PredV, kk: int|
                0 <= kk < k + 1 && #[trigger] rule_derives(
                    rules.deep_view()[kk],
                    wset,
                    f,
                ) implies out.deep_view().contains(f) by {
                if kk < k {
                    let j = choose|j: int| 0 <= j < out_pre.len() && out_pre[j] == f;
                    assert(out.deep_view()[j] == f);
                }
            }
        }
    }
    proof {
        assert(out.deep_view().to_set() =~= step_new(rules.deep_view(), wset));
    }
    out
}

/// Bound on the number of whole passes the fixpoint computation performs: a
/// defensive cap against maliciously large rule sets.
pub const MAX_PASSES: usize = 10000;

/// Runs rule application to a fixpoint: the result is the fact set after `n`
/// passes for the first stable `n`. Fails with `InternalError` only when no
/// fixpoint is reached within [`MAX_PASSES`] passes.
#[verifier::loop_isolation(false)]
pub fn compute_world(facts: Vec<Predicate>, rules: &Vec<Rule>) -> (r: Result<Vec<Predicate>, Error>)
    ensures
        match r {
            Ok(w) => exists|n: nat|
                {
                    &&& #[trigger] stable_at(rules.deep_view(), facts.deep_view().to_set(), n)
                    &&& n < MAX_PASSES
                    &&& w.deep_view().to_set() == steps(
                        rules.deep_view(),
                        facts.deep_view().to_set(),
                        n,
                    )
                },
            Err(e) => {
                &&& e == Error::InternalError
                &&& forall|n: nat|
                    n < MAX_PASSES ==> !#[trigger] stable_at(
                        rules.deep_view(),
                        facts.deep_view().to_set(),
                        n,
                    )
            },
        },
{
    let ghost rdv = rules.deep_view();
    let ghost f0 = facts.deep_view().to_set();
    let mut world = facts;
    let mut pass: usize = 0;
    while pass < MAX_PASSES
        invariant
            world.deep_view().to_set() == steps(rdv, f0, pass as nat),
            forall|m: nat| m < pass ==> !#[trigger] stable_at(rdv, f0, m),
            pass <= MAX_PASSES,
        decreases MAX_PASSES - pass,
    {
        let new = derive_step(rules, &world);
        let ghost wpre = world.deep_view().to_set();
        let mut added = false;
        let nn = new.len();
        for q in 0..nn
            invariant
                nn == new@.len(),
                wpre.subset_of(world.deep_view().to_set()),
                world.deep_view().to_set().subset_of(wpre.union(new.deep_view().to_set())),
                forall|j: int|
                    0 <= j < q ==> world.deep_view().to_set().contains(
                        #[trigger] new.deep_view()[j],
                    ),
                !added ==> world.deep_view().to_set() == wpre,
                added ==> exists|f: PredV|
                    world.deep_view().to_set().contains(f) && !wpre.contains(f),
        {
            let ghost wcur = world.deep_view().to_set();
            if !preds_contain(&world, &new[q]) {
                let nf = pred_dup(&new[q]);
                let ghost prev = world;
                let ghost nfg = nf;
                world.push(nf);
                added = true;
                proof {
                    lemma_deep_view_push(world, prev, nfg);
                    assert(world.deep_view() =~= prev.deep_view().push(nfg@));
                    lemma_to_set_push(world.deep_view(), prev.deep_view(), nfg@);
                    assert(world.deep_view().to_set() =~= wcur.insert(new.deep_view()[q as int]));
                    assert(new.deep_view().to_set().contains(new.deep_view()[q as int])) by {
                        assert(new.deep_view().contains(new.deep_view()[q as int]));
                    }
                    assert(world.deep_view().to_set().contains(new.deep_view()[q as int])
                        && !wpre.contains(new.deep_view()[q as int]));
                }
            } else {
                proof {
                    assert(world.deep_view().to_set().contains(new.deep_view()[q as int]));
                }
            }
        }
        proof {
            assert(world.deep_view().to_set() =~= wpre.union(new.deep_view().to_set())) by {
                assert forall|f: PredV|
                    wpre.union(new.deep_view().to_set()).contains(
                        f,
                    ) implies world.deep_view().to_set().contains(f) by {
                    if new.deep_view().to_set().contains(f) {
                        let j = choose|j: int|
                            0 <= j < new.deep_view().len() && new.deep_view()[j] == f;
                        assert(world.deep_view().to_set().contains(new.deep_view()[j]));
                    }
                }
            }
            assert(steps(rdv, f0, pass as nat + 1) == wpre.union(step_new(rdv, wpre)));
        }
        if !added {
            proof {
                assert(world.deep_view().to_set() == wpre);
                assert(steps(rdv, f0, pass as nat + 1) =~= steps(rdv, f0, pass as nat));
                assert(stable_at(rdv, f0, pass as nat));
            }
            return Ok(world);
        }
        proof {
            let f = choose|f: PredV|
                world.deep_view().to_set().contains(f) && !wpre.contains(f);
            assert(steps(rdv, f0, pass as nat + 1).contains(f));
            assert(!stable_at(rdv, f0, pass as nat));
        }
        pass = pass + 1;
    }
    Err(Error::InternalError)
}

/// Whether a caveat holds against the evaluated fact set: at least one
/// binding fires it.
#[verifier::loop_isolation(false)]
pub fn check_caveat(rule: &Rule, world: &Vec<Predicate>) -> (r: bool)
    ensures
        r == caveat_holds(rule@, world.deep_view().to_set()),
{
    let ghost wset = world.deep_view().to_set();
    let empty = Bindings::new();
    let mut bs: Vec<Bindings> = Vec::new();
    search_body(&rule.body, 0, world, &empty, &mut bs);
    proof {
        assert(Map::<u32, TermV>::empty().dom().union(body_vars_from(rule@.body, 0))
            =~= body_vars(rule@.body));
    }
    let n = bs.len();
    for idx in 0..n
        invariant
            n == bs@.len(),
            forall|j: int|
                0 <= j < idx ==> !constraints_hold(rule@.constraints, (#[trigger] bs@[j])@),
    {
        let bnd = &bs[idx];
        assert(bs@[idx as int].wf());
        if check_constraints(&rule.constraints, bnd) {
            proof {
                assert(rule_fires(rule@, wset, bnd@)) by {
                    assert(bnd@.dom() == Map::<u32, TermV>::empty().dom().union(
                        body_vars_from(rule@.body, 0),
                    ));
                }
            }
            return true;
        }
    }
    proof {
        if caveat_holds(rule@, wset) {
            let b = choose|b: Binding| rule_fires(rule@, wset, b);
            assert(search_cond(rule.body.deep_view(), 0, wset, Map::<u32, TermV>::empty(), b)) by {
                assert(b.dom() =~= Map::<u32, TermV>::empty().dom().union(
                    body_vars_from(rule@.body, 0),
                ));
            }
            assert(binding_found(bs@, b));
            let k = choose|k: int| 0 <= k < bs@.len() && bs@[k]@ == b;
            assert(!constraints_hold(rule@.constraints, bs@[k]@));
            assert(false);
        }
    }
    false
}

} // verus!
