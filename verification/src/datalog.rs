//! The interned logic fragment a block carries: terms, predicates, rules and
//! constraints, together with the mathematical semantics of rule matching and
//! of the fixpoint the verifier computes.
//!
//! Symbols and predicate names are indices into a [`crate::symbols::SymbolTable`];
//! strings stay inline.

use vstd::prelude::*;
use crate::symbols::table_contains;

verus! {

/// One argument of a predicate: a ground value or a variable.
#[derive(Debug)]
pub enum Term {
    Integer(i64),
    Str(String),
    Symbol(u64),
    Date(u64),
    Variable(u32),
}

/// Mathematical value of a [`Term`]: strings become character sequences.
#[verifier::ext_equal]
pub ghost enum TermV {
    Integer(i64),
    Str(Seq<char>),
    Symbol(u64),
    Date(u64),
    Variable(u32),
}

impl View for Term {
    type V = TermV;

    open spec fn view(&self) -> TermV {
        match self {
            Term::Integer(i) => TermV::Integer(*i),
            Term::Str(s) => TermV::Str(s@),
            Term::Symbol(s) => TermV::Symbol(*s),
            Term::Date(d) => TermV::Date(*d),
            Term::Variable(v) => TermV::Variable(*v),
        }
    }
}

impl DeepView for Term {
    type V = TermV;

    open spec fn deep_view(&self) -> TermV {
        self.view()
    }
}

/// An interned name applied to an ordered list of terms. A predicate whose
/// terms are all ground is a fact.
#[derive(Debug)]
pub struct Predicate {
    pub name: u64,
    pub args: Vec<Term>,
}

/// Mathematical value of a [`Predicate`]; also the value of a fact.
#[verifier::ext_equal]
pub ghost struct PredV {
    pub name: u64,
    pub args: Seq<TermV>,
}

impl View for Predicate {
    type V = PredV;

    open spec fn view(&self) -> PredV {
        PredV { name: self.name, args: self.args.deep_view() }
    }
}

impl DeepView for Predicate {
    type V = PredV;

    open spec fn deep_view(&self) -> PredV {
        self.view()
    }
}

/// The test a constraint applies to the value bound to its variable. The
/// legal (kind, operator, operand) combinations are exactly these variants;
/// a value of another kind never satisfies the test.
#[derive(Debug)]
pub enum ConstraintCheck {
    IntLower(i64),
    IntLarger(i64),
    IntLowerOrEqual(i64),
    IntLargerOrEqual(i64),
    IntEqual(i64),
    IntIn(Vec<i64>),
    IntNotIn(Vec<i64>),
    StrPrefix(String),
    StrSuffix(String),
    StrEqual(String),
    StrIn(Vec<String>),
    StrNotIn(Vec<String>),
    DateBefore(u64),
    DateAfter(u64),
    SymIn(Vec<u64>),
    SymNotIn(Vec<u64>),
}

/// Mathematical value of a [`ConstraintCheck`].
#[verifier::ext_equal]
pub ghost enum CheckV {
    IntLower(i64),
    IntLarger(i64),
    IntLowerOrEqual(i64),
    IntLargerOrEqual(i64),
    IntEqual(i64),
    IntIn(Seq<i64>),
    IntNotIn(Seq<i64>),
    StrPrefix(Seq<char>),
    StrSuffix(Seq<char>),
    StrEqual(Seq<char>),
    StrIn(Seq<Seq<char>>),
    StrNotIn(Seq<Seq<char>>),
    DateBefore(u64),
    DateAfter(u64),
    SymIn(Seq<u64>),
    SymNotIn(Seq<u64>),
}

impl View for ConstraintCheck {
    type V = CheckV;

    open spec fn view(&self) -> CheckV {
        match self {
            ConstraintCheck::IntLower(i) => CheckV::IntLower(*i),
            ConstraintCheck::IntLarger(i) => CheckV::IntLarger(*i),
            ConstraintCheck::IntLowerOrEqual(i) => CheckV::IntLowerOrEqual(*i),
            ConstraintCheck::IntLargerOrEqual(i) => CheckV::IntLargerOrEqual(*i),
            ConstraintCheck::IntEqual(i) => CheckV::IntEqual(*i),
            ConstraintCheck::IntIn(s) => CheckV::IntIn(s@),
            ConstraintCheck::IntNotIn(s) => CheckV::IntNotIn(s@),
            ConstraintCheck::StrPrefix(s) => CheckV::StrPrefix(s@),
            ConstraintCheck::StrSuffix(s) => CheckV::StrSuffix(s@),
            ConstraintCheck::StrEqual(s) => CheckV::StrEqual(s@),
            ConstraintCheck::StrIn(s) => CheckV::StrIn(s.deep_view()),
            ConstraintCheck::StrNotIn(s) => CheckV::StrNotIn(s.deep_view()),
            ConstraintCheck::DateBefore(d) => CheckV::DateBefore(*d),
            ConstraintCheck::DateAfter(d) => CheckV::DateAfter(*d),
            ConstraintCheck::SymIn(s) => CheckV::SymIn(s@),
            ConstraintCheck::SymNotIn(s) => CheckV::SymNotIn(s@),
        }
    }
}

impl DeepView for ConstraintCheck {
    type V = CheckV;

    open spec fn deep_view(&self) -> CheckV {
        self.view()
    }
}

/// A filter on the bindings a rule fires for: the value bound to variable
/// `id` must pass `check`.
#[derive(Debug)]
pub struct Constraint {
    pub id: u32,
    pub check: ConstraintCheck,
}

/// Mathematical value of a [`Constraint`].
#[verifier::ext_equal]
pub ghost struct ConstraintV {
    pub id: u32,
    pub check: CheckV,
}

impl View for Constraint {
    type V = ConstraintV;

    open spec fn view(&self) -> ConstraintV {
        ConstraintV { id: self.id, check: self.check@ }
    }
}

impl DeepView for Constraint {
    type V = ConstraintV;

    open spec fn deep_view(&self) -> ConstraintV {
        self.view()
    }
}

/// A derivation rule: the head is derivable for every binding of the body's
/// variables that matches the fact set and passes every constraint. A caveat
/// is a rule whose satisfaction, not whose head, is of interest.
#[derive(Debug)]
pub struct Rule {
    pub head: Predicate,
    pub body: Vec<Predicate>,
    pub constraints: Vec<Constraint>,
}

/// Mathematical value of a [`Rule`].
#[verifier::ext_equal]
pub ghost struct RuleV {
    pub head: PredV,
    pub body: Seq<PredV>,
    pub constraints: Seq<ConstraintV>,
}

impl View for Rule {
    type V = RuleV;

    open spec fn view(&self) -> RuleV {
        RuleV {
            head: self.head@,
            body: self.body.deep_view(),
            constraints: self.constraints.deep_view(),
        }
    }
}

impl DeepView for Rule {
    type V = RuleV;

    open spec fn deep_view(&self) -> RuleV {
        self.view()
    }
}

// ---------------------------------------------------------------------------
// Matching semantics
// ---------------------------------------------------------------------------

/// A variable binding: the candidate assignment a rule is evaluated under.
pub type Binding = Map<u32, TermV>;

/// Membership in a sequence of integers.
pub open spec fn in_i64(s: Seq<i64>, x: i64) -> bool {
    exists|k: int| 0 <= k < s.len() && s[k] == x
}

/// Membership in a sequence of symbol indices.
pub open spec fn in_u64(s: Seq<u64>, x: u64) -> bool {
    exists|k: int| 0 <= k < s.len() && s[k] == x
}

/// `p` is a prefix of `s`.
pub open spec fn is_prefix(p: Seq<char>, s: Seq<char>) -> bool {
    p.len() <= s.len() && s.subrange(0, p.len() as int) == p
}

/// `p` is a suffix of `s`.
pub open spec fn is_suffix(p: Seq<char>, s: Seq<char>) -> bool {
    p.len() <= s.len() && s.subrange(s.len() - p.len(), s.len() as int) == p
}

/// Whether the ground value `v` passes the test `c`. A value of a kind other
/// than the test's never passes.
pub open spec fn check_holds(c: CheckV, v: TermV) -> bool {
    match c {
        CheckV::IntLower(x) => v matches TermV::Integer(i) && i < x,
        CheckV::IntLarger(x) => v matches TermV::Integer(i) && i > x,
        CheckV::IntLowerOrEqual(x) => v matches TermV::Integer(i) && i <= x,
        CheckV::IntLargerOrEqual(x) => v matches TermV::Integer(i) && i >= x,
        CheckV::IntEqual(x) => v matches TermV::Integer(i) && i == x,
        CheckV::IntIn(s) => v matches TermV::Integer(i) && in_i64(s, i),
        CheckV::IntNotIn(s) => v matches TermV::Integer(i) && !in_i64(s, i),
        CheckV::StrPrefix(p) => v matches TermV::Str(s) && is_prefix(p, s),
        CheckV::StrSuffix(p) => v matches TermV::Str(s) && is_suffix(p, s),
        CheckV::StrEqual(x) => v matches TermV::Str(s) && s == x,
        CheckV::StrIn(set) => v matches TermV::Str(s) && table_contains(set, s),
        CheckV::StrNotIn(set) => v matches TermV::Str(s) && !table_contains(set, s),
        CheckV::DateBefore(x) => v matches TermV::Date(d) && d <= x,
        CheckV::DateAfter(x) => v matches TermV::Date(d) && d >= x,
        CheckV::SymIn(s) => v matches TermV::Symbol(y) && in_u64(s, y),
        CheckV::SymNotIn(s) => v matches TermV::Symbol(y) && !in_u64(s, y),
    }
}

/// Whether a binding satisfies one constraint: its variable must be bound
/// and the bound value must pass the test.
pub open spec fn constraint_holds(c: ConstraintV, b: Binding) -> bool {
    b.contains_key(c.id) && check_holds(c.check, b[c.id])
}

/// Whether a binding satisfies every constraint of a list.
pub open spec fn constraints_hold(cs: Seq<ConstraintV>, b: Binding) -> bool {
    forall|j: int| 0 <= j < cs.len() ==> constraint_holds(cs[j], b)
}

/// Whether pattern term `pat` matches value `v` under binding `b`: a
/// variable must be bound to exactly `v`, any other term must equal `v`.
pub open spec fn term_match(pat: TermV, v: TermV, b: Binding) -> bool {
    match pat {
        TermV::Variable(id) => b.contains_key(id) && b[id] == v,
        _ => pat == v,
    }
}

/// Whether predicate `p` matches fact `f` under binding `b`.
pub open spec fn pred_match(p: PredV, f: PredV, b: Binding) -> bool {
    &&& p.name == f.name
    &&& p.args.len() == f.args.len()
    &&& forall|i: int| 0 <= i < p.args.len() ==> term_match(p.args[i], #[trigger] f.args[i], b)
}

/// Whether every predicate of `body` from position `i` on matches some fact
/// of `facts` under `b`.
pub open spec fn body_match_from(body: Seq<PredV>, i: int, facts: Set<PredV>, b: Binding) -> bool {
    forall|j: int| i <= j < body.len() ==> exists|f: PredV|
        facts.contains(f) && pred_match(#[trigger] body[j], f, b)
}

/// Whether the whole body matches under `b`.
pub open spec fn body_match(body: Seq<PredV>, facts: Set<PredV>, b: Binding) -> bool {
    body_match_from(body, 0, facts, b)
}

/// The variables occurring in a predicate's arguments.
pub open spec fn pred_vars(p: PredV) -> Set<u32> {
    Set::new(|id: u32| exists|i: int| 0 <= i < p.args.len() && p.args[i] == TermV::Variable(id))
}

/// The variables occurring in `body` from position `i` on.
pub open spec fn body_vars_from(body: Seq<PredV>, i: int) -> Set<u32> {
    Set::new(
        |id: u32| exists|j: int| i <= j < body.len() && pred_vars(#[trigger] body[j]).contains(id),
    )
}

/// The variables of a rule's body.
pub open spec fn body_vars(body: Seq<PredV>) -> Set<u32> {
    body_vars_from(body, 0)
}

/// A rule fires under binding `b` when `b` binds exactly the body's
/// variables, the body matches the fact set and every constraint holds.
pub open spec fn rule_fires(r: RuleV, facts: Set<PredV>, b: Binding) -> bool {
    &&& b.dom() == body_vars(r.body)
    &&& body_match(r.body, facts, b)
    &&& constraints_hold(r.constraints, b)
}

/// A caveat holds iff at least one binding fires it against the fact set.
pub open spec fn caveat_holds(r: RuleV, facts: Set<PredV>) -> bool {
    exists|b: Binding| rule_fires(r, facts, b)
}

/// The term `t` with its variable replaced by its bound value, if bound.
pub open spec fn subst_term(t: TermV, b: Binding) -> TermV {
    match t {
        TermV::Variable(id) => if b.contains_key(id) {
            b[id]
        } else {
            t
        },
        _ => t,
    }
}

/// The head instance a firing produces.
pub open spec fn subst_pred(p: PredV, b: Binding) -> PredV {
    PredV { name: p.name, args: p.args.map_values(|t: TermV| subst_term(t, b)) }
}

/// Whether every variable of `p` is bound by `b`.
pub open spec fn pred_bound(p: PredV, b: Binding) -> bool {
    pred_vars(p).subset_of(b.dom())
}

/// The rule derives fact `f` from `facts`: some firing binding grounds the
/// whole head and instantiates it to `f`. A head variable the body does not
/// bind derives nothing.
pub open spec fn rule_derives(r: RuleV, facts: Set<PredV>, f: PredV) -> bool {
    exists|b: Binding| rule_fires(r, facts, b) && pred_bound(r.head, b) && f == subst_pred(r.head, b)
}

/// Everything any rule of `rules` derives from `w` in one application.
pub open spec fn step_new(rules: Seq<RuleV>, w: Set<PredV>) -> Set<PredV> {
    Set::new(|f: PredV| exists|k: int| 0 <= k < rules.len() && rule_derives(#[trigger] rules[k], w, f))
}

/// The fact set after `n` whole passes of rule application over `f0`.
pub open spec fn steps(rules: Seq<RuleV>, f0: Set<PredV>, n: nat) -> Set<PredV>
    decreases n,
{
    if n == 0 {
        f0
    } else {
        let prev = steps(rules, f0, (n - 1) as nat);
        prev.union(step_new(rules, prev))
    }
}

/// A fact set is a fixpoint of `rules` when one more pass adds nothing.
pub open spec fn closed_under(rules: Seq<RuleV>, w: Set<PredV>) -> bool {
    step_new(rules, w).subset_of(w)
}

/// Pass `n + 1` over `f0` adds nothing beyond pass `n`.
pub open spec fn stable_at(rules: Seq<RuleV>, f0: Set<PredV>, n: nat) -> bool {
    steps(rules, f0, n + 1) == steps(rules, f0, n)
}

// ---------------------------------------------------------------------------
// Basic lemmas about the semantics
// ---------------------------------------------------------------------------

/// Each pass only adds facts.
pub proof fn lemma_steps_monotone(rules: Seq<RuleV>, f0: Set<PredV>, n: nat)
    ensures
        steps(rules, f0, n).subset_of(steps(rules, f0, n + 1)),
        f0.subset_of(steps(rules, f0, n)),
    decreases n,
{
    if n > 0 {
        lemma_steps_monotone(rules, f0, (n - 1) as nat);
    }
}

/// Once a pass adds nothing, every later pass adds nothing and the set stays
/// the same.
pub proof fn lemma_steps_stable(rules: Seq<RuleV>, f0: Set<PredV>, n: nat, m: nat)
    requires
        steps(rules, f0, n + 1) == steps(rules, f0, n),
        n <= m,
    ensures
        steps(rules, f0, m) == steps(rules, f0, n),
    decreases m - n,
{
    if m > n {
        lemma_steps_stable(rules, f0, n, (m - 1) as nat);
        assert(steps(rules, f0, m) =~= steps(rules, f0, n));
    }
}

/// A stable pass means the set is closed under the rules.
pub proof fn lemma_stable_closed(rules: Seq<RuleV>, f0: Set<PredV>, n: nat)
    requires
        steps(rules, f0, n + 1) == steps(rules, f0, n),
    ensures
        closed_under(rules, steps(rules, f0, n)),
{
    let w = steps(rules, f0, n);
    assert forall|f: PredV| step_new(rules, w).contains(f) implies w.contains(f) by {
        assert(steps(rules, f0, n + 1).contains(f));
    }
}

// ---------------------------------------------------------------------------
// Executable helpers
// ---------------------------------------------------------------------------

/// Pushing onto a vector appends its element's value to the deep view.
pub proof fn lemma_deep_view_push<T: DeepView>(v: Vec<T>, pre: Vec<T>, t: T)
    requires
        v@ == pre@.push(t),
    ensures
        v.deep_view() =~= pre.deep_view().push(t.deep_view()),
{
    assert forall|j: int| 0 <= j < v@.len() implies v.deep_view()[j] == pre.deep_view().push(
        t.deep_view(),
    )[j] by {
        if j < pre@.len() {
            assert(v@[j] == pre@[j]);
        } else {
            assert(v@[j] == t);
        }
    }
}

/// Pushing an element inserts its value into the sequence's set of values.
pub proof fn lemma_to_set_push<T>(post: Seq<T>, pre: Seq<T>, x: T)
    requires
        post == pre.push(x),
    ensures
        post.to_set() =~= pre.to_set().insert(x),
{
    assert forall|f: T| post.to_set().contains(f) implies pre.to_set().insert(x).contains(f) by {
        let i = choose|i: int| 0 <= i < post.len() && post[i] == f;
        if i < pre.len() {
            assert(pre[i] == f);
        } else {
            assert(f == x);
        }
    }
    assert forall|f: T| pre.to_set().insert(x).contains(f) implies post.to_set().contains(f) by {
        if pre.contains(f) {
            let i = choose|i: int| 0 <= i < pre.len() && pre[i] == f;
            assert(post[i] == f);
        } else {
            assert(post[post.len() - 1] == f);
        }
    }
}

/// Pushing keeps every element already contained, and adds the new one.
pub proof fn lemma_seq_contains_push<T>(post: Seq<T>, pre: Seq<T>, x: T)
    requires
        post == pre.push(x),
    ensures
        forall|f: T| pre.contains(f) ==> post.contains(f),
        post.contains(x),
{
    assert forall|f: T| pre.contains(f) implies post.contains(f) by {
        let i = choose|i: int| 0 <= i < pre.len() && pre[i] == f;
        assert(post[i] == f);
    }
    assert(post[post.len() - 1] == x);
}

/// Structural equality of two terms, decided at the level of their values.
pub fn term_eq(a: &Term, b: &Term) -> (r: bool)
    ensures
        r == (a@ == b@),
{
    match (a, b) {
        (Term::Integer(x), Term::Integer(y)) => x == y,
        (Term::Str(x), Term::Str(y)) => *x == *y,
        (Term::Symbol(x), Term::Symbol(y)) => x == y,
        (Term::Date(x), Term::Date(y)) => x == y,
        (Term::Variable(x), Term::Variable(y)) => x == y,
        _ => false,
    }
}

/// A copy of a term with the same value.
pub fn term_dup(a: &Term) -> (r: Term)
    ensures
        r == *a,
        r@ == a@,
{
    match a {
        Term::Integer(x) => Term::Integer(*x),
        Term::Str(x) => Term::Str(x.clone()),
        Term::Symbol(x) => Term::Symbol(*x),
        Term::Date(x) => Term::Date(*x),
        Term::Variable(x) => Term::Variable(*x),
    }
}

/// Structural equality of two predicates.
pub fn pred_eq(a: &Predicate, b: &Predicate) -> (r: bool)
    ensures
        r == (a@ == b@),
{
    if a.name != b.name {
        return false;
    }
    let n = a.args.len();
    if n != b.args.len() {
        assert(a@.args.len() != b@.args.len());
        return false;
    }
    for i in 0..n
        invariant
            n == a.args@.len() == b.args@.len(),
            a.name == b.name,
            forall|j: int| 0 <= j < i ==> a@.args[j] == b@.args[j],
    {
        if !term_eq(&a.args[i], &b.args[i]) {
            assert(a@.args[i as int] != b@.args[i as int]);
            return false;
        }
    }
    proof {
        assert(a@.args =~= b@.args);
        assert(a@ =~= b@);
    }
    true
}

/// A copy of a predicate with the same value.
pub fn pred_dup(a: &Predicate) -> (r: Predicate)
    ensures
        r@ == a@,
{
    let n = a.args.len();
    let mut args: Vec<Term> = Vec::new();
    for i in 0..n
        invariant
            n == a.args@.len(),
            args.deep_view() =~= a@.args.subrange(0, i as int),
    {
        let t = term_dup(&a.args[i]);
        let ghost prev = args;
        let ghost tg = t;
        args.push(t);
        proof {
            lemma_deep_view_push(args, prev, tg);
            assert(args.deep_view() =~= a@.args.subrange(0, i as int + 1));
        }
    }
    let r = Predicate { name: a.name, args };
    proof {
        assert(a@.args.subrange(0, n as int) =~= a@.args);
        assert(r@ =~= a@);
    }
    r
}

/// Whether `v` holds a predicate with the same value as `f`.
pub fn preds_contain(v: &Vec<Predicate>, f: &Predicate) -> (r: bool)
    ensures
        r == v.deep_view().to_set().contains(f@),
{
    let n = v.len();
    for i in 0..n
        invariant
            n == v@.len(),
            forall|j: int| 0 <= j < i ==> v.deep_view()[j] != f@,
    {
        if pred_eq(&v[i], f) {
            assert(v.deep_view()[i as int] == f@);
            return true;
        }
    }
    assert(!v.deep_view().contains(f@));
    false
}

/// A copy of a list of integers with the same value.
pub fn dup_i64s(v: &Vec<i64>) -> (r: Vec<i64>)
    ensures
        r@ == v@,
{
    let n = v.len();
    let mut r: Vec<i64> = Vec::new();
    for i in 0..n
        invariant
            n == v@.len(),
            r@ =~= v@.subrange(0, i as int),
    {
        r.push(v[i]);
        assert(r@ =~= v@.subrange(0, i as int + 1));
    }
    assert(r@ =~= v@);
    r
}

/// A copy of a list of symbol indices with the same value.
pub fn dup_u64s(v: &Vec<u64>) -> (r: Vec<u64>)
    ensures
        r@ == v@,
{
    let n = v.len();
    let mut r: Vec<u64> = Vec::new();
    for i in 0..n
        invariant
            n == v@.len(),
            r@ =~= v@.subrange(0, i as int),
    {
        r.push(v[i]);
        assert(r@ =~= v@.subrange(0, i as int + 1));
    }
    assert(r@ =~= v@);
    r
}

/// A copy of a list of strings with the same values.
pub fn dup_strings(v: &Vec<String>) -> (r: Vec<String>)
    ensures
        r.deep_view() == v.deep_view(),
{
    let n = v.len();
    let mut r: Vec<String> = Vec::new();
    for i in 0..n
        invariant
            n == v@.len(),
            r.deep_view() =~= v.deep_view().subrange(0, i as int),
    {
        let s = v[i].clone();
        let ghost prev = r;
        let ghost sg = s;
        r.push(s);
        proof {
            lemma_deep_view_push(r, prev, sg);
            assert(r.deep_view() =~= v.deep_view().subrange(0, i as int + 1));
        }
    }
    assert(r.deep_view() =~= v.deep_view());
    r
}

/// A copy of a constraint check with the same value.
pub fn check_dup(c: &ConstraintCheck) -> (r: ConstraintCheck)
    ensures
        r@ == c@,
{
    match c {
        ConstraintCheck::IntLower(x) => ConstraintCheck::IntLower(*x),
        ConstraintCheck::IntLarger(x) => ConstraintCheck::IntLarger(*x),
        ConstraintCheck::IntLowerOrEqual(x) => ConstraintCheck::IntLowerOrEqual(*x),
        ConstraintCheck::IntLargerOrEqual(x) => ConstraintCheck::IntLargerOrEqual(*x),
        ConstraintCheck::IntEqual(x) => ConstraintCheck::IntEqual(*x),
        ConstraintCheck::IntIn(s) => ConstraintCheck::IntIn(dup_i64s(s)),
        ConstraintCheck::IntNotIn(s) => ConstraintCheck::IntNotIn(dup_i64s(s)),
        ConstraintCheck::StrPrefix(s) => ConstraintCheck::StrPrefix(s.clone()),
        ConstraintCheck::StrSuffix(s) => ConstraintCheck::StrSuffix(s.clone()),
        ConstraintCheck::StrEqual(s) => ConstraintCheck::StrEqual(s.clone()),
        ConstraintCheck::StrIn(s) => ConstraintCheck::StrIn(dup_strings(s)),
        ConstraintCheck::StrNotIn(s) => ConstraintCheck::StrNotIn(dup_strings(s)),
        ConstraintCheck::DateBefore(x) => ConstraintCheck::DateBefore(*x),
        ConstraintCheck::DateAfter(x) => ConstraintCheck::DateAfter(*x),
        ConstraintCheck::SymIn(s) => ConstraintCheck::SymIn(dup_u64s(s)),
        ConstraintCheck::SymNotIn(s) => ConstraintCheck::SymNotIn(dup_u64s(s)),
    }
}

/// A copy of a rule with the same value.
pub fn rule_dup(a: &Rule) -> (r: Rule)
    ensures
        r@ == a@,
{
    let head = pred_dup(&a.head);
    let nb = a.body.len();
    let mut body: Vec<Predicate> = Vec::new();
    for i in 0..nb
        invariant
            nb == a.body@.len(),
            body.deep_view() =~= a@.body.subrange(0, i as int),
    {
        let p = pred_dup(&a.body[i]);
        let ghost prev = body;
        let ghost pg = p;
        body.push(p);
        proof {
            lemma_deep_view_push(body, prev, pg);
            assert(body.deep_view() =~= a@.body.subrange(0, i as int + 1));
        }
    }
    let nc = a.constraints.len();
    let mut constraints: Vec<Constraint> = Vec::new();
    for i in 0..nc
        invariant
            nc == a.constraints@.len(),
            constraints.deep_view() =~= a@.constraints.subrange(0, i as int),
    {
        let c = &a.constraints[i];
        let cd = Constraint { id: c.id, check: check_dup(&c.check) };
        let ghost prev = constraints;
        let ghost cg = cd;
        constraints.push(cd);
        proof {
            lemma_deep_view_push(constraints, prev, cg);
            assert(constraints.deep_view() =~= a@.constraints.subrange(0, i as int + 1));
        }
    }
    let r = Rule { head, body, constraints };
    proof {
        assert(a@.body.subrange(0, nb as int) =~= a@.body);
        assert(a@.constraints.subrange(0, nc as int) =~= a@.constraints);
        assert(r@ =~= a@);
    }
    r
}

/// Matching a pattern is preserved when the binding grows: every variable
/// the pattern uses keeps its value.
pub proof fn lemma_pred_match_monotone(p: PredV, f: PredV, b1: Binding, b2: Binding)
    requires
        pred_match(p, f, b1),
        b1.submap_of(b2),
    ensures
        pred_match(p, f, b2),
{
    assert forall|i: int| 0 <= i < p.args.len() implies term_match(
        p.args[i],
        #[trigger] f.args[i],
        b2,
    ) by {
        assert(term_match(p.args[i], f.args[i], b1));
        if p.args[i] is Variable {
            let id = p.args[i]->Variable_0;
            assert(b1.contains_key(id));
        }
    }
}

} // verus!
