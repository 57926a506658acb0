//! The staging layer: atoms, predicates, facts, rules and constraints in
//! their string form, accumulated by a builder and interned against a symbol
//! table when a block is produced.

use vstd::prelude::*;
use crate::datalog;
use crate::datalog::{Term, TermV, PredV, CheckV, ConstraintV, RuleV};
use crate::symbols::SymbolTable;
use crate::error::Error;
use crate::crypto::sig_valid;

verus! {

/// One argument of a staged predicate: symbols still carry their text.
#[derive(Debug)]
pub enum Atom {
    Integer(i64),
    Str(String),
    Symbol(String),
    Date(u64),
    Variable(u32),
}

/// Mathematical value of a staged [`Atom`].
#[verifier::ext_equal]
pub ghost enum AtomV {
    Integer(i64),
    Str(Seq<char>),
    Symbol(Seq<char>),
    Date(u64),
    Variable(u32),
}

impl View for Atom {
    type V = AtomV;

    open spec fn view(&self) -> AtomV {
        match self {
            Atom::Integer(i) => AtomV::Integer(*i),
            Atom::Str(s) => AtomV::Str(s@),
            Atom::Symbol(s) => AtomV::Symbol(s@),
            Atom::Date(d) => AtomV::Date(*d),
            Atom::Variable(v) => AtomV::Variable(*v),
        }
    }
}

impl DeepView for Atom {
    type V = AtomV;

    open spec fn deep_view(&self) -> AtomV {
        self.view()
    }
}

/// An integer atom.
pub fn integer(i: i64) -> (r: Atom)
    ensures
        r@ == AtomV::Integer(i),
{
    Atom::Integer(i)
}

/// A string atom.
pub fn string(s: &str) -> (r: Atom)
    ensures
        r@ == AtomV::Str(s@),
{
    Atom::Str(s.to_owned())
}

/// A symbol atom, interned when the block is built.
pub fn symbol(s: &str) -> (r: Atom)
    ensures
        r@ == AtomV::Symbol(s@),
{
    Atom::Symbol(s.to_owned())
}

/// A date atom: seconds since the epoch.
pub fn date(i: u64) -> (r: Atom)
    ensures
        r@ == AtomV::Date(i),
{
    Atom::Date(i)
}

/// A variable atom.
pub fn variable(i: u32) -> (r: Atom)
    ensures
        r@ == AtomV::Variable(i),
{
    Atom::Variable(i)
}

/// A staged predicate: a textual name applied to atoms.
#[derive(Debug)]
pub struct Predicate {
    pub name: String,
    pub ids: Vec<Atom>,
}

/// Mathematical value of a staged [`Predicate`].
#[verifier::ext_equal]
pub ghost struct BPredV {
    pub name: Seq<char>,
    pub ids: Seq<AtomV>,
}

impl View for Predicate {
    type V = BPredV;

    open spec fn view(&self) -> BPredV {
        BPredV { name: self.name@, ids: self.ids.deep_view() }
    }
}

impl DeepView for Predicate {
    type V = BPredV;

    open spec fn deep_view(&self) -> BPredV {
        self.view()
    }
}

/// A staged fact: a predicate meant to be ground.
#[derive(Debug)]
pub struct Fact(pub Predicate);

impl View for Fact {
    type V = BPredV;

    open spec fn view(&self) -> BPredV {
        self.0@
    }
}

impl DeepView for Fact {
    type V = BPredV;

    open spec fn deep_view(&self) -> BPredV {
        self.0@
    }
}

/// The kind of value a staged constraint tests.
#[derive(Debug)]
pub enum ConstraintKind {
    Integer,
    String,
    Date,
    Symbol,
}

/// Mathematical value of a [`ConstraintKind`].
#[verifier::ext_equal]
pub ghost enum ConstraintKindV {
    Integer,
    String,
    Date,
    Symbol,
}

impl View for ConstraintKind {
    type V = ConstraintKindV;

    open spec fn view(&self) -> ConstraintKindV {
        match self {
            ConstraintKind::Integer => ConstraintKindV::Integer,
            ConstraintKind::String => ConstraintKindV::String,
            ConstraintKind::Date => ConstraintKindV::Date,
            ConstraintKind::Symbol => ConstraintKindV::Symbol,
        }
    }
}

/// The operand of a staged constraint.
#[derive(Debug)]
pub enum ConstraintData {
    Integer(i64),
    IntegerSet(Vec<i64>),
    String(String),
    StringSet(Vec<String>),
    SymbolSet(Vec<String>),
    Date(u64),
}

/// Mathematical value of a [`ConstraintData`].
#[verifier::ext_equal]
pub ghost enum ConstraintDataV {
    Integer(i64),
    IntegerSet(Seq<i64>),
    String(Seq<char>),
    StringSet(Seq<Seq<char>>),
    SymbolSet(Seq<Seq<char>>),
    Date(u64),
}

impl View for ConstraintData {
    type V = ConstraintDataV;

    open spec fn view(&self) -> ConstraintDataV {
        match self {
            ConstraintData::Integer(i) => ConstraintDataV::Integer(*i),
            ConstraintData::IntegerSet(s) => ConstraintDataV::IntegerSet(s@),
            ConstraintData::String(s) => ConstraintDataV::String(s@),
            ConstraintData::StringSet(s) => ConstraintDataV::StringSet(s.deep_view()),
            ConstraintData::SymbolSet(s) => ConstraintDataV::SymbolSet(s.deep_view()),
            ConstraintData::Date(d) => ConstraintDataV::Date(*d),
        }
    }
}

/// A staged constraint: variable slot, kind, operator name and operand. The
/// legal combinations are fixed at construction time.
#[derive(Debug)]
pub struct Constraint {
    pub id: u32,
    pub kind: ConstraintKind,
    pub operation: String,
    pub data: ConstraintData,
}

/// Mathematical value of a staged [`Constraint`].
#[verifier::ext_equal]
pub ghost struct BConstraintV {
    pub id: u32,
    pub kind: ConstraintKindV,
    pub operation: Seq<char>,
    pub data: ConstraintDataV,
}

impl View for Constraint {
    type V = BConstraintV;

    open spec fn view(&self) -> BConstraintV {
        BConstraintV {
            id: self.id,
            kind: self.kind@,
            operation: self.operation@,
            data: self.data@,
        }
    }
}

impl DeepView for Constraint {
    type V = BConstraintV;

    open spec fn deep_view(&self) -> BConstraintV {
        self.view()
    }
}

/// A staged rule: head, body and constraints, all in string form.
#[derive(Debug)]
pub struct Rule {
    pub head: Predicate,
    pub body: Vec<Predicate>,
    pub constraints: Vec<Constraint>,
}

/// Mathematical value of a staged [`Rule`].
#[verifier::ext_equal]
pub ghost struct BRuleV {
    pub head: BPredV,
    pub body: Seq<BPredV>,
    pub constraints: Seq<BConstraintV>,
}

impl View for Rule {
    type V = BRuleV;

    open spec fn view(&self) -> BRuleV {
        BRuleV {
            head: self.head@,
            body: self.body.deep_view(),
            constraints: self.constraints.deep_view(),
        }
    }
}

impl DeepView for Rule {
    type V = BRuleV;

    open spec fn deep_view(&self) -> BRuleV {
        self.view()
    }
}

/// A fact with the given name and arguments.
pub fn fact(name: &str, ids: Vec<Atom>) -> (r: Fact)
    ensures
        r@ == (BPredV { name: name@, ids: ids.deep_view() }),
{
    Fact(Predicate { name: name.to_owned(), ids })
}

/// A rule without constraints.
pub fn rule(head_name: &str, head_ids: Vec<Atom>, predicates: Vec<Predicate>) -> (r: Rule)
    ensures
        r@ == (BRuleV {
            head: BPredV { name: head_name@, ids: head_ids.deep_view() },
            body: predicates.deep_view(),
            constraints: Seq::empty(),
        }),
{
    let r = Rule {
        head: Predicate { name: head_name.to_owned(), ids: head_ids },
        body: predicates,
        constraints: Vec::new(),
    };
    proof {
        assert(r@.constraints =~= Seq::<BConstraintV>::empty());
        assert(r@ =~= (BRuleV {
            head: BPredV { name: head_name@, ids: r.head.ids.deep_view() },
            body: r.body.deep_view(),
            constraints: Seq::empty(),
        }));
    }
    r
}

// ---------------------------------------------------------------------------
// Constraint validation: the legal (kind, operator, operand) combinations
// ---------------------------------------------------------------------------

/// Whether a staged constraint is one of the legal (kind, operator, operand)
/// combinations. Everything else is a construction-time error.
pub open spec fn constraint_valid(c: BConstraintV) -> bool {
    match (c.kind, c.data) {
        (ConstraintKindV::Integer, ConstraintDataV::Integer(_)) => c.operation == "<"@
            || c.operation == ">"@ || c.operation == "<="@ || c.operation == ">="@ || c.operation
            == "="@,
        (ConstraintKindV::Integer, ConstraintDataV::IntegerSet(_)) => c.operation == "in"@
            || c.operation == "not in"@,
        (ConstraintKindV::String, ConstraintDataV::String(_)) => c.operation == "prefix"@
            || c.operation == "suffix"@ || c.operation == "="@,
        (ConstraintKindV::String, ConstraintDataV::StringSet(_)) => c.operation == "in"@
            || c.operation == "not in"@,
        (ConstraintKindV::Date, ConstraintDataV::Date(_)) => c.operation == "before"@
            || c.operation == "after"@,
        (ConstraintKindV::Symbol, ConstraintDataV::SymbolSet(_)) => c.operation == "in"@
            || c.operation == "not in"@,
        _ => false,
    }
}

/// A rule with constraints; the constraints are validated against the table
/// of legal combinations and an illegal one is rejected.
pub fn constrained_rule(
    head_name: &str,
    head_ids: Vec<Atom>,
    predicates: Vec<Predicate>,
    constraints: Vec<Constraint>,
) -> (r: Result<Rule, Error>)
    ensures
        (forall|i: int|
            0 <= i < constraints.deep_view().len() ==> constraint_valid(
                #[trigger] constraints.deep_view()[i],
            )) <==> r is Ok,
        r matches Ok(rl) ==> rl@ == (BRuleV {
            head: BPredV { name: head_name@, ids: head_ids.deep_view() },
            body: predicates.deep_view(),
            constraints: constraints.deep_view(),
        }),
        r matches Err(e) ==> e == Error::ParseError,
{
    let n = constraints.len();
    for i in 0..n
        invariant
            n == constraints@.len(),
            forall|j: int| 0 <= j < i ==> constraint_valid(#[trigger] constraints.deep_view()[j]),
    {
        if !constraint_is_valid(&constraints[i]) {
            assert(!constraint_valid(constraints.deep_view()[i as int]));
            return Err(Error::ParseError);
        }
        assert(constraint_valid(constraints.deep_view()[i as int]));
    }
    let r = Rule {
        head: Predicate { name: head_name.to_owned(), ids: head_ids },
        body: predicates,
        constraints,
    };
    proof {
        assert(r@ =~= (BRuleV {
            head: BPredV { name: head_name@, ids: r.head.ids.deep_view() },
            body: r.body.deep_view(),
            constraints: r.constraints.deep_view(),
        }));
    }
    Ok(r)
}

/// Decides [`constraint_valid`].
pub fn constraint_is_valid(c: &Constraint) -> (r: bool)
    ensures
        r == constraint_valid(c@),
{
    let op = c.operation.as_str();
    match (&c.kind, &c.data) {
        (ConstraintKind::Integer, ConstraintData::Integer(_)) => str_eq(op, "<") || str_eq(op, ">")
            || str_eq(op, "<=") || str_eq(op, ">=") || str_eq(op, "="),
        (ConstraintKind::Integer, ConstraintData::IntegerSet(_)) => str_eq(op, "in") || str_eq(
            op,
            "not in",
        ),
        (ConstraintKind::String, ConstraintData::String(_)) => str_eq(op, "prefix") || str_eq(
            op,
            "suffix",
        ) || str_eq(op, "="),
        (ConstraintKind::String, ConstraintData::StringSet(_)) => str_eq(op, "in") || str_eq(
            op,
            "not in",
        ),
        (ConstraintKind::Date, ConstraintData::Date(_)) => str_eq(op, "before") || str_eq(
            op,
            "after",
        ),
        (ConstraintKind::Symbol, ConstraintData::SymbolSet(_)) => str_eq(op, "in") || str_eq(
            op,
            "not in",
        ),
        _ => false,
    }
}

/// String equality on slices, through owned strings.
fn str_eq(a: &str, b: &str) -> (r: bool)
    ensures
        r == (a@ == b@),
{
    let aa: String = a.to_owned();
    let bb: String = b.to_owned();
    aa == bb
}

// ---------------------------------------------------------------------------
// Interning: staged values to datalog values
// ---------------------------------------------------------------------------

/// `t2` extends `t1`: the old table is a prefix of the new one.
pub open spec fn table_extends(t1: Seq<Seq<char>>, t2: Seq<Seq<char>>) -> bool {
    t1.len() <= t2.len() && t2.subrange(0, t1.len() as int) == t1
}

/// The interned term `t` carries the same value as the staged atom `a`,
/// read against `table`.
pub open spec fn term_resolves(t: TermV, table: Seq<Seq<char>>, a: AtomV) -> bool {
    match a {
        AtomV::Integer(i) => t == TermV::Integer(i),
        AtomV::Str(s) => t == TermV::Str(s),
        AtomV::Symbol(s) => t matches TermV::Symbol(ix) && ix < table.len() && table[ix as int]
            == s,
        AtomV::Date(d) => t == TermV::Date(d),
        AtomV::Variable(v) => t == TermV::Variable(v),
    }
}

/// The interned predicate `p` carries the same value as the staged
/// predicate `b`, read against `table`.
pub open spec fn pred_resolves(p: PredV, table: Seq<Seq<char>>, b: BPredV) -> bool {
    &&& p.name < table.len() && table[p.name as int] == b.name
    &&& p.args.len() == b.ids.len()
    &&& forall|i: int| 0 <= i < b.ids.len() ==> term_resolves(#[trigger] p.args[i], table, b.ids[i])
}

/// The interned check `c` carries the same test as the staged constraint,
/// read against `table`.
pub open spec fn check_resolves(c: CheckV, table: Seq<Seq<char>>, b: BConstraintV) -> bool {
    match (b.kind, b.data) {
        (ConstraintKindV::Integer, ConstraintDataV::Integer(x)) => {
            if b.operation == "<"@ {
                c == CheckV::IntLower(x)
            } else if b.operation == ">"@ {
                c == CheckV::IntLarger(x)
            } else if b.operation == "<="@ {
                c == CheckV::IntLowerOrEqual(x)
            } else if b.operation == ">="@ {
                c == CheckV::IntLargerOrEqual(x)
            } else {
                b.operation == "="@ && c == CheckV::IntEqual(x)
            }
        },
        (ConstraintKindV::Integer, ConstraintDataV::IntegerSet(s)) => {
            if b.operation == "in"@ {
                c == CheckV::IntIn(s)
            } else {
                b.operation == "not in"@ && c == CheckV::IntNotIn(s)
            }
        },
        (ConstraintKindV::String, ConstraintDataV::String(s)) => {
            if b.operation == "prefix"@ {
                c == CheckV::StrPrefix(s)
            } else if b.operation == "suffix"@ {
                c == CheckV::StrSuffix(s)
            } else {
                b.operation == "="@ && c == CheckV::StrEqual(s)
            }
        },
        (ConstraintKindV::String, ConstraintDataV::StringSet(s)) => {
            if b.operation == "in"@ {
                c == CheckV::StrIn(s)
            } else {
                b.operation == "not in"@ && c == CheckV::StrNotIn(s)
            }
        },
        (ConstraintKindV::Date, ConstraintDataV::Date(d)) => {
            if b.operation == "before"@ {
                c == CheckV::DateBefore(d)
            } else {
                b.operation == "after"@ && c == CheckV::DateAfter(d)
            }
        },
        (ConstraintKindV::Symbol, ConstraintDataV::SymbolSet(s)) => {
            ||| (c matches CheckV::SymIn(ixs) && b.operation == "in"@ && resolves_syms(
                ixs,
                table,
                s,
            ))
            ||| (c matches CheckV::SymNotIn(ixs) && b.operation == "not in"@ && resolves_syms(
                ixs,
                table,
                s,
            ))
        },
        _ => false,
    }
}

/// Each index resolves to the matching symbol text.
pub open spec fn resolves_syms(ixs: Seq<u64>, table: Seq<Seq<char>>, syms: Seq<Seq<char>>) -> bool {
    &&& ixs.len() == syms.len()
    &&& forall|i: int|
        0 <= i < ixs.len() ==> (#[trigger] ixs[i]) < table.len() && table[ixs[i] as int] == syms[i]
}

/// The interned constraint carries the same test as the staged one.
pub open spec fn constraint_resolves(c: ConstraintV, table: Seq<Seq<char>>, b: BConstraintV) -> bool {
    c.id == b.id && check_resolves(c.check, table, b)
}

/// The interned rule carries the same content as the staged one.
pub open spec fn rule_resolves(r: RuleV, table: Seq<Seq<char>>, b: BRuleV) -> bool {
    &&& pred_resolves(r.head, table, b.head)
    &&& r.body.len() == b.body.len()
    &&& forall|i: int| 0 <= i < b.body.len() ==> pred_resolves(#[trigger] r.body[i], table, b.body[i])
    &&& r.constraints.len() == b.constraints.len()
    &&& forall|i: int|
        0 <= i < b.constraints.len() ==> constraint_resolves(
            #[trigger] r.constraints[i],
            table,
            b.constraints[i],
        )
}

/// Resolution of a term survives extending the table.
pub proof fn lemma_term_resolves_extends(t: TermV, t1: Seq<Seq<char>>, t2: Seq<Seq<char>>, a: AtomV)
    requires
        term_resolves(t, t1, a),
        table_extends(t1, t2),
    ensures
        term_resolves(t, t2, a),
{
    if a is Symbol {
        let ix = t->Symbol_0;
        assert(t2[ix as int] == t2.subrange(0, t1.len() as int)[ix as int]);
    }
}

/// Resolution of a predicate survives extending the table.
pub proof fn lemma_pred_resolves_extends(p: PredV, t1: Seq<Seq<char>>, t2: Seq<Seq<char>>, b: BPredV)
    requires
        pred_resolves(p, t1, b),
        table_extends(t1, t2),
    ensures
        pred_resolves(p, t2, b),
{
    assert(t2[p.name as int] == t2.subrange(0, t1.len() as int)[p.name as int]);
    assert forall|i: int| 0 <= i < b.ids.len() implies term_resolves(
        #[trigger] p.args[i],
        t2,
        b.ids[i],
    ) by {
        lemma_term_resolves_extends(p.args[i], t1, t2, b.ids[i]);
    }
}

/// Resolution of a constraint survives extending the table.
pub proof fn lemma_constraint_resolves_extends(
    c: ConstraintV,
    t1: Seq<Seq<char>>,
    t2: Seq<Seq<char>>,
    b: BConstraintV,
)
    requires
        constraint_resolves(c, t1, b),
        table_extends(t1, t2),
    ensures
        constraint_resolves(c, t2, b),
{
    if b.kind is Symbol && b.data is SymbolSet {
        let syms = b.data->SymbolSet_0;
        if c.check is SymIn {
            let ixs = c.check->SymIn_0;
            assert forall|i: int| 0 <= i < ixs.len() implies (#[trigger] ixs[i]) < t2.len()
                && t2[ixs[i] as int] == syms[i] by {
                assert(t2[ixs[i] as int] == t2.subrange(0, t1.len() as int)[ixs[i] as int]);
            }
        } else {
            let ixs = c.check->SymNotIn_0;
            assert forall|i: int| 0 <= i < ixs.len() implies (#[trigger] ixs[i]) < t2.len()
                && t2[ixs[i] as int] == syms[i] by {
                assert(t2[ixs[i] as int] == t2.subrange(0, t1.len() as int)[ixs[i] as int]);
            }
        }
    }
}

/// Resolution of a rule survives extending the table.
pub proof fn lemma_rule_resolves_extends(r: RuleV, t1: Seq<Seq<char>>, t2: Seq<Seq<char>>, b: BRuleV)
    requires
        rule_resolves(r, t1, b),
        table_extends(t1, t2),
    ensures
        rule_resolves(r, t2, b),
{
    lemma_pred_resolves_extends(r.head, t1, t2, b.head);
    assert forall|i: int| 0 <= i < b.body.len() implies pred_resolves(
        #[trigger] r.body[i],
        t2,
        b.body[i],
    ) by {
        lemma_pred_resolves_extends(r.body[i], t1, t2, b.body[i]);
    }
    assert forall|i: int| 0 <= i < b.constraints.len() implies constraint_resolves(
        #[trigger] r.constraints[i],
        t2,
        b.constraints[i],
    ) by {
        lemma_constraint_resolves_extends(r.constraints[i], t1, t2, b.constraints[i]);
    }
}

/// Extension composes.
pub proof fn lemma_table_extends_trans(t1: Seq<Seq<char>>, t2: Seq<Seq<char>>, t3: Seq<Seq<char>>)
    requires
        table_extends(t1, t2),
        table_extends(t2, t3),
    ensures
        table_extends(t1, t3),
{
    assert forall|i: int| 0 <= i < t1.len() implies t3.subrange(0, t1.len() as int)[i] == t1[i] by {
        assert(t3[i] == t3.subrange(0, t2.len() as int)[i]);
        assert(t2[i] == t2.subrange(0, t1.len() as int)[i]);
    }
    assert(t3.subrange(0, t1.len() as int) =~= t1);
}

/// Interning leaves the old table a prefix of the new one.
pub proof fn lemma_insert_extends(t1: Seq<Seq<char>>, t2: Seq<Seq<char>>)
    requires
        t2 == t1 || t2 == t1.push(t2.last()),
    ensures
        table_extends(t1, t2),
{
    assert(t2.subrange(0, t1.len() as int) =~= t1);
}

// ---------------------------------------------------------------------------
// Interning as a function: the staged content pins the interned content
// ---------------------------------------------------------------------------

/// One atom interned against a table: the term and the table after.
pub open spec fn spec_convert_atom(a: AtomV, t: Seq<Seq<char>>) -> (TermV, Seq<Seq<char>>) {
    match a {
        AtomV::Integer(i) => (TermV::Integer(i), t),
        AtomV::Str(s) => (TermV::Str(s), t),
        AtomV::Symbol(s) => {
            let r = crate::symbols::spec_intern(t, s);
            (TermV::Symbol(r.0), r.1)
        },
        AtomV::Date(d) => (TermV::Date(d), t),
        AtomV::Variable(v) => (TermV::Variable(v), t),
    }
}

/// An atom list interned left to right.
pub open spec fn spec_convert_atoms(ids: Seq<AtomV>, t: Seq<Seq<char>>) -> (
    Seq<TermV>,
    Seq<Seq<char>>,
)
    decreases ids.len(),
{
    if ids.len() == 0 {
        (Seq::empty(), t)
    } else {
        let pre = spec_convert_atoms(ids.drop_last(), t);
        let last = spec_convert_atom(ids.last(), pre.1);
        (pre.0.push(last.0), last.1)
    }
}

/// Interning one more atom extends the interned prefix.
pub proof fn lemma_convert_atoms_take(ids: Seq<AtomV>, t: Seq<Seq<char>>, i: int)
    requires
        0 <= i < ids.len(),
    ensures
        spec_convert_atoms(ids.take(i + 1), t).0 == spec_convert_atoms(ids.take(i), t).0.push(
            spec_convert_atom(ids[i], spec_convert_atoms(ids.take(i), t).1).0,
        ),
        spec_convert_atoms(ids.take(i + 1), t).1 == spec_convert_atom(
            ids[i],
            spec_convert_atoms(ids.take(i), t).1,
        ).1,
{
    assert(ids.take(i + 1).drop_last() =~= ids.take(i));
    assert(ids.take(i + 1).last() == ids[i]);
}

/// One predicate interned against a table.
pub open spec fn spec_convert_pred(b: BPredV, t: Seq<Seq<char>>) -> (PredV, Seq<Seq<char>>) {
    let n = crate::symbols::spec_intern(t, b.name);
    let a = spec_convert_atoms(b.ids, n.1);
    (PredV { name: n.0, args: a.0 }, a.1)
}

/// A predicate list interned left to right.
pub open spec fn spec_convert_preds(bs: Seq<BPredV>, t: Seq<Seq<char>>) -> (
    Seq<PredV>,
    Seq<Seq<char>>,
)
    decreases bs.len(),
{
    if bs.len() == 0 {
        (Seq::empty(), t)
    } else {
        let pre = spec_convert_preds(bs.drop_last(), t);
        let last = spec_convert_pred(bs.last(), pre.1);
        (pre.0.push(last.0), last.1)
    }
}

/// Interning one more predicate extends the interned prefix.
pub proof fn lemma_convert_preds_take(bs: Seq<BPredV>, t: Seq<Seq<char>>, i: int)
    requires
        0 <= i < bs.len(),
    ensures
        spec_convert_preds(bs.take(i + 1), t).0 == spec_convert_preds(bs.take(i), t).0.push(
            spec_convert_pred(bs[i], spec_convert_preds(bs.take(i), t).1).0,
        ),
        spec_convert_preds(bs.take(i + 1), t).1 == spec_convert_pred(
            bs[i],
            spec_convert_preds(bs.take(i), t).1,
        ).1,
{
    assert(bs.take(i + 1).drop_last() =~= bs.take(i));
    assert(bs.take(i + 1).last() == bs[i]);
}

/// A symbol list interned left to right.
pub open spec fn spec_intern_syms(ss: Seq<Seq<char>>, t: Seq<Seq<char>>) -> (
    Seq<u64>,
    Seq<Seq<char>>,
)
    decreases ss.len(),
{
    if ss.len() == 0 {
        (Seq::empty(), t)
    } else {
        let pre = spec_intern_syms(ss.drop_last(), t);
        let last = crate::symbols::spec_intern(pre.1, ss.last());
        (pre.0.push(last.0), last.1)
    }
}

/// Interning one more symbol extends the interned prefix.
pub proof fn lemma_intern_syms_take(ss: Seq<Seq<char>>, t: Seq<Seq<char>>, i: int)
    requires
        0 <= i < ss.len(),
    ensures
        spec_intern_syms(ss.take(i + 1), t).0 == spec_intern_syms(ss.take(i), t).0.push(
            crate::symbols::spec_intern(spec_intern_syms(ss.take(i), t).1, ss[i]).0,
        ),
        spec_intern_syms(ss.take(i + 1), t).1 == crate::symbols::spec_intern(
            spec_intern_syms(ss.take(i), t).1,
            ss[i],
        ).1,
{
    assert(ss.take(i + 1).drop_last() =~= ss.take(i));
    assert(ss.take(i + 1).last() == ss[i]);
}

/// One constraint check interned against a table; meaningful only for the
/// legal combinations of [`constraint_valid`].
pub open spec fn spec_convert_check(c: BConstraintV, t: Seq<Seq<char>>) -> (
    CheckV,
    Seq<Seq<char>>,
) {
    match (c.kind, c.data) {
        (ConstraintKindV::Integer, ConstraintDataV::Integer(x)) => {
            if c.operation == "<"@ {
                (CheckV::IntLower(x), t)
            } else if c.operation == ">"@ {
                (CheckV::IntLarger(x), t)
            } else if c.operation == "<="@ {
                (CheckV::IntLowerOrEqual(x), t)
            } else if c.operation == ">="@ {
                (CheckV::IntLargerOrEqual(x), t)
            } else {
                (CheckV::IntEqual(x), t)
            }
        },
        (ConstraintKindV::Integer, ConstraintDataV::IntegerSet(s)) => {
            if c.operation == "in"@ {
                (CheckV::IntIn(s), t)
            } else {
                (CheckV::IntNotIn(s), t)
            }
        },
        (ConstraintKindV::String, ConstraintDataV::String(s)) => {
            if c.operation == "prefix"@ {
                (CheckV::StrPrefix(s), t)
            } else if c.operation == "suffix"@ {
                (CheckV::StrSuffix(s), t)
            } else {
                (CheckV::StrEqual(s), t)
            }
        },
        (ConstraintKindV::String, ConstraintDataV::StringSet(s)) => {
            if c.operation == "in"@ {
                (CheckV::StrIn(s), t)
            } else {
                (CheckV::StrNotIn(s), t)
            }
        },
        (ConstraintKindV::Date, ConstraintDataV::Date(d)) => {
            if c.operation == "before"@ {
                (CheckV::DateBefore(d), t)
            } else {
                (CheckV::DateAfter(d), t)
            }
        },
        (ConstraintKindV::Symbol, ConstraintDataV::SymbolSet(s)) => {
            let r = spec_intern_syms(s, t);
            if c.operation == "in"@ {
                (CheckV::SymIn(r.0), r.1)
            } else {
                (CheckV::SymNotIn(r.0), r.1)
            }
        },
        _ => (CheckV::IntEqual(0), t),
    }
}

/// One constraint interned against a table.
pub open spec fn spec_convert_constraint(c: BConstraintV, t: Seq<Seq<char>>) -> (
    ConstraintV,
    Seq<Seq<char>>,
) {
    let r = spec_convert_check(c, t);
    (ConstraintV { id: c.id, check: r.0 }, r.1)
}

/// A constraint list interned left to right.
pub open spec fn spec_convert_constraints(cs: Seq<BConstraintV>, t: Seq<Seq<char>>) -> (
    Seq<ConstraintV>,
    Seq<Seq<char>>,
)
    decreases cs.len(),
{
    if cs.len() == 0 {
        (Seq::empty(), t)
    } else {
        let pre = spec_convert_constraints(cs.drop_last(), t);
        let last = spec_convert_constraint(cs.last(), pre.1);
        (pre.0.push(last.0), last.1)
    }
}

/// Interning one more constraint extends the interned prefix.
pub proof fn lemma_convert_constraints_take(cs: Seq<BConstraintV>, t: Seq<Seq<char>>, i: int)
    requires
        0 <= i < cs.len(),
    ensures
        spec_convert_constraints(cs.take(i + 1), t).0 == spec_convert_constraints(
            cs.take(i),
            t,
        ).0.push(
            spec_convert_constraint(cs[i], spec_convert_constraints(cs.take(i), t).1).0,
        ),
        spec_convert_constraints(cs.take(i + 1), t).1 == spec_convert_constraint(
            cs[i],
            spec_convert_constraints(cs.take(i), t).1,
        ).1,
{
    assert(cs.take(i + 1).drop_last() =~= cs.take(i));
    assert(cs.take(i + 1).last() == cs[i]);
}

/// One rule interned against a table: head, body, constraints in order.
pub open spec fn spec_convert_rule(b: BRuleV, t: Seq<Seq<char>>) -> (RuleV, Seq<Seq<char>>) {
    let h = spec_convert_pred(b.head, t);
    let bo = spec_convert_preds(b.body, h.1);
    let cs = spec_convert_constraints(b.constraints, bo.1);
    (RuleV { head: h.0, body: bo.0, constraints: cs.0 }, cs.1)
}

/// A rule list interned left to right.
pub open spec fn spec_convert_rules(bs: Seq<BRuleV>, t: Seq<Seq<char>>) -> (
    Seq<RuleV>,
    Seq<Seq<char>>,
)
    decreases bs.len(),
{
    if bs.len() == 0 {
        (Seq::empty(), t)
    } else {
        let pre = spec_convert_rules(bs.drop_last(), t);
        let last = spec_convert_rule(bs.last(), pre.1);
        (pre.0.push(last.0), last.1)
    }
}

/// Interning one more rule extends the interned prefix.
pub proof fn lemma_convert_rules_take(bs: Seq<BRuleV>, t: Seq<Seq<char>>, i: int)
    requires
        0 <= i < bs.len(),
    ensures
        spec_convert_rules(bs.take(i + 1), t).0 == spec_convert_rules(bs.take(i), t).0.push(
            spec_convert_rule(bs[i], spec_convert_rules(bs.take(i), t).1).0,
        ),
        spec_convert_rules(bs.take(i + 1), t).1 == spec_convert_rule(
            bs[i],
            spec_convert_rules(bs.take(i), t).1,
        ).1,
{
    assert(bs.take(i + 1).drop_last() =~= bs.take(i));
    assert(bs.take(i + 1).last() == bs[i]);
}

/// A whole staged load interned against a table: facts, rules, caveats in
/// order; the last component is the grown table.
pub open spec fn spec_convert_staged(
    facts: Seq<BPredV>,
    rules: Seq<BRuleV>,
    caveats: Seq<BRuleV>,
    t: Seq<Seq<char>>,
) -> (Seq<PredV>, Seq<RuleV>, Seq<RuleV>, Seq<Seq<char>>) {
    let f = spec_convert_preds(facts, t);
    let r = spec_convert_rules(rules, f.1);
    let c = spec_convert_rules(caveats, r.1);
    (f.0, r.0, c.0, c.1)
}

// ---------------------------------------------------------------------------
// Ground facts
// ---------------------------------------------------------------------------

/// A staged atom is ground when it is no variable.
pub open spec fn atom_ground(a: AtomV) -> bool {
    !(a is Variable)
}

/// A staged fact is ground when every atom is.
pub open spec fn staged_fact_ground(f: BPredV) -> bool {
    forall|k: int| 0 <= k < f.ids.len() ==> atom_ground(#[trigger] f.ids[k])
}

/// Every staged fact of a list is ground.
pub open spec fn staged_facts_ground(vf: Seq<BPredV>) -> bool {
    forall|j: int| 0 <= j < vf.len() ==> staged_fact_ground(#[trigger] vf[j])
}

/// A staged load is accepted at build time: every fact is ground and every
/// constraint is a legal combination.
pub open spec fn staged_ok(facts: Seq<BPredV>, rules: Seq<BRuleV>, caveats: Seq<BRuleV>) -> bool {
    &&& staged_facts_ground(facts)
    &&& staged_valid(rules, caveats)
}

/// Decides [`staged_fact_ground`].
pub fn staged_fact_is_ground(f: &Fact) -> (r: bool)
    ensures
        r == staged_fact_ground(f@),
{
    let n = f.0.ids.len();
    for k in 0..n
        invariant
            n == f.0.ids@.len(),
            forall|j: int| 0 <= j < k ==> atom_ground(#[trigger] f@.ids[j]),
    {
        if let Atom::Variable(_) = &f.0.ids[k] {
            assert(!atom_ground(f@.ids[k as int]));
            return false;
        }
        assert(atom_ground(f@.ids[k as int]));
    }
    true
}

/// Interns one staged atom against the table.
pub fn convert_atom(a: &Atom, table: &mut SymbolTable) -> (r: Term)
    requires
        old(table).wf(),
    ensures
        final(table).wf(),
        table_extends(old(table)@, final(table)@),
        term_resolves(r@, final(table)@, a@),
        r@ == spec_convert_atom(a@, old(table)@).0,
        final(table)@ == spec_convert_atom(a@, old(table)@).1,
{
    let ghost pre = table@;
    let r = match a {
        Atom::Integer(i) => Term::Integer(*i),
        Atom::Str(s) => Term::Str(s.clone()),
        Atom::Symbol(s) => {
            let ix = table.insert(s.as_str());
            Term::Symbol(ix)
        },
        Atom::Date(d) => Term::Date(*d),
        Atom::Variable(v) => Term::Variable(*v),
    };
    proof {
        if table@ != pre {
            lemma_insert_extends(pre, table@);
        } else {
            assert(table@.subrange(0, pre.len() as int) =~= pre);
        }
    }
    r
}

/// Interns one staged predicate against the table.
#[verifier::loop_isolation(false)]
pub fn convert_predicate(p: &Predicate, table: &mut SymbolTable) -> (r: datalog::Predicate)
    requires
        old(table).wf(),
    ensures
        final(table).wf(),
        table_extends(old(table)@, final(table)@),
        pred_resolves(r@, final(table)@, p@),
        r@ == spec_convert_pred(p@, old(table)@).0,
        final(table)@ == spec_convert_pred(p@, old(table)@).1,
{
    let name = table.insert(p.name.as_str());
    let ghost t1 = table@;
    proof {
        if table@ != old(table)@ {
            lemma_insert_extends(old(table)@, table@);
        } else {
            assert(table@.subrange(0, old(table)@.len() as int) =~= old(table)@);
        }
        assert(spec_convert_atoms(p@.ids.take(0), t1).0 =~= Seq::<TermV>::empty());
    }
    let n = p.ids.len();
    let mut args: Vec<Term> = Vec::new();
    for i in 0..n
        invariant
            table.wf(),
            table_extends(old(table)@, table@),
            name < table@.len() && table@[name as int] == p@.name,
            args@.len() == i,
            args.deep_view() == spec_convert_atoms(p@.ids.take(i as int), t1).0,
            table@ == spec_convert_atoms(p@.ids.take(i as int), t1).1,
            forall|j: int|
                0 <= j < i ==> term_resolves((#[trigger] args@[j])@, table@, p@.ids[j]),
    {
        let ghost pre = table@;
        let t = convert_atom(&p.ids[i], table);
        let ghost prev_args = args;
        let ghost tg = t;
        args.push(t);
        proof {
            lemma_table_extends_trans(old(table)@, pre, table@);
            assert(table@[name as int] == table@.subrange(0, pre.len() as int)[name as int]);
            crate::datalog::lemma_deep_view_push(args, prev_args, tg);
            lemma_convert_atoms_take(p@.ids, t1, i as int);
            assert(args.deep_view() =~= spec_convert_atoms(p@.ids.take(i as int + 1), t1).0);
            assert forall|j: int| 0 <= j < i + 1 implies term_resolves(
                (#[trigger] args@[j])@,
                table@,
                p@.ids[j],
            ) by {
                if j < i {
                    lemma_term_resolves_extends(args@[j]@, pre, table@, p@.ids[j]);
                }
            }
        }
    }
    let r = datalog::Predicate { name, args };
    proof {
        assert(p@.ids.take(n as int) =~= p@.ids);
        assert(r@ =~= spec_convert_pred(p@, old(table)@).0);
        assert forall|i: int| 0 <= i < p@.ids.len() implies term_resolves(
            #[trigger] r@.args[i],
            table@,
            p@.ids[i],
        ) by {
            assert(r@.args[i] == args@[i]@);
        }
    }
    r
}

/// Interns one staged constraint against the table; an illegal combination
/// is a construction-time error.
#[verifier::loop_isolation(false)]
pub fn convert_constraint(c: &Constraint, table: &mut SymbolTable) -> (r: Result<
    datalog::Constraint,
    Error,
>)
    requires
        old(table).wf(),
    ensures
        final(table).wf(),
        table_extends(old(table)@, final(table)@),
        r is Ok <==> constraint_valid(c@),
        r matches Ok(dc) ==> constraint_resolves(dc@, final(table)@, c@),
        r matches Ok(dc) ==> dc@ == spec_convert_constraint(c@, old(table)@).0 && final(table)@
            == spec_convert_constraint(c@, old(table)@).1,
        r matches Err(e) ==> e == Error::ParseError && *final(table) == *old(table),
{
    if !constraint_is_valid(c) {
        proof {
            assert(table@.subrange(0, old(table)@.len() as int) =~= old(table)@);
        }
        return Err(Error::ParseError);
    }
    let op = c.operation.as_str();
    let check: crate::datalog::ConstraintCheck = match (&c.kind, &c.data) {
        (ConstraintKind::Integer, ConstraintData::Integer(x)) => {
            if str_eq(op, "<") {
                crate::datalog::ConstraintCheck::IntLower(*x)
            } else if str_eq(op, ">") {
                crate::datalog::ConstraintCheck::IntLarger(*x)
            } else if str_eq(op, "<=") {
                crate::datalog::ConstraintCheck::IntLowerOrEqual(*x)
            } else if str_eq(op, ">=") {
                crate::datalog::ConstraintCheck::IntLargerOrEqual(*x)
            } else {
                crate::datalog::ConstraintCheck::IntEqual(*x)
            }
        },
        (ConstraintKind::Integer, ConstraintData::IntegerSet(s)) => {
            if str_eq(op, "in") {
                crate::datalog::ConstraintCheck::IntIn(crate::datalog::dup_i64s(s))
            } else {
                crate::datalog::ConstraintCheck::IntNotIn(crate::datalog::dup_i64s(s))
            }
        },
        (ConstraintKind::String, ConstraintData::String(s)) => {
            if str_eq(op, "prefix") {
                crate::datalog::ConstraintCheck::StrPrefix(s.clone())
            } else if str_eq(op, "suffix") {
                crate::datalog::ConstraintCheck::StrSuffix(s.clone())
            } else {
                crate::datalog::ConstraintCheck::StrEqual(s.clone())
            }
        },
        (ConstraintKind::String, ConstraintData::StringSet(s)) => {
            if str_eq(op, "in") {
                crate::datalog::ConstraintCheck::StrIn(crate::datalog::dup_strings(s))
            } else {
                crate::datalog::ConstraintCheck::StrNotIn(crate::datalog::dup_strings(s))
            }
        },
        (ConstraintKind::Date, ConstraintData::Date(d)) => {
            if str_eq(op, "before") {
                crate::datalog::ConstraintCheck::DateBefore(*d)
            } else {
                crate::datalog::ConstraintCheck::DateAfter(*d)
            }
        },
        (ConstraintKind::Symbol, ConstraintData::SymbolSet(s)) => {
            let mut ixs: Vec<u64> = Vec::new();
            let n = s.len();
            proof {
                assert(table@.subrange(0, old(table)@.len() as int) =~= old(table)@);
                assert(spec_intern_syms(s.deep_view().take(0), old(table)@).0 =~= Seq::<
                    u64,
                >::empty());
            }
            for i in 0..n
                invariant
                    table.wf(),
                    table_extends(old(table)@, table@),
                    ixs@.len() == i,
                    ixs@ == spec_intern_syms(s.deep_view().take(i as int), old(table)@).0,
                    table@ == spec_intern_syms(s.deep_view().take(i as int), old(table)@).1,
                    forall|j: int|
                        0 <= j < i ==> (#[trigger] ixs@[j]) < table@.len()
                            && table@[ixs@[j] as int] == s.deep_view()[j],
            {
                let ghost pre = table@;
                let ix = table.insert(s[i].as_str());
                ixs.push(ix);
                proof {
                    if table@ != pre {
                        lemma_insert_extends(pre, table@);
                    } else {
                        assert(table@.subrange(0, pre.len() as int) =~= pre);
                    }
                    lemma_table_extends_trans(old(table)@, pre, table@);
                    lemma_intern_syms_take(s.deep_view(), old(table)@, i as int);
                    assert(s.deep_view()[i as int] == s@[i as int]@);
                    assert(ixs@ =~= spec_intern_syms(
                        s.deep_view().take(i as int + 1),
                        old(table)@,
                    ).0);
                    assert forall|j: int| 0 <= j < i + 1 implies (#[trigger] ixs@[j])
                        < table@.len() && table@[ixs@[j] as int] == s.deep_view()[j] by {
                        if j < i {
                            assert(table@[ixs@[j] as int] == table@.subrange(
                                0,
                                pre.len() as int,
                            )[ixs@[j] as int]);
                        }
                    }
                }
            }
            proof {
                assert(s.deep_view().take(n as int) =~= s.deep_view());
            }
            if str_eq(op, "in") {
                crate::datalog::ConstraintCheck::SymIn(ixs)
            } else {
                crate::datalog::ConstraintCheck::SymNotIn(ixs)
            }
        },
        _ => {
            proof {
                assert(false);
            }
            return Err(Error::InternalError);
        },
    };
    let r = datalog::Constraint { id: c.id, check };
    proof {
        assert(table_extends(old(table)@, table@)) by {
            assert(table@.subrange(0, old(table)@.len() as int) =~= old(table)@);
        }
        assert(r@ == spec_convert_constraint(c@, old(table)@).0 && table@
            == spec_convert_constraint(c@, old(table)@).1);
    }
    Ok(r)
}

/// Interns one staged rule against the table.
#[verifier::loop_isolation(false)]
pub fn convert_rule(rl: &Rule, table: &mut SymbolTable) -> (r: Result<datalog::Rule, Error>)
    requires
        old(table).wf(),
    ensures
        final(table).wf(),
        table_extends(old(table)@, final(table)@),
        r is Ok <==> (forall|i: int|
            0 <= i < rl@.constraints.len() ==> constraint_valid(#[trigger] rl@.constraints[i])),
        r matches Ok(dr) ==> rule_resolves(dr@, final(table)@, rl@),
        r matches Ok(dr) ==> dr@ == spec_convert_rule(rl@, old(table)@).0 && final(table)@
            == spec_convert_rule(rl@, old(table)@).1,
        r matches Err(e) ==> e == Error::ParseError,
{
    let head = convert_predicate(&rl.head, table);
    let ghost th = table@;
    proof {
        assert(spec_convert_preds(rl@.body.take(0), th).0 =~= Seq::<PredV>::empty());
    }
    let nb = rl.body.len();
    let mut body: Vec<datalog::Predicate> = Vec::new();
    for i in 0..nb
        invariant
            table.wf(),
            pred_resolves(head@, table@, rl@.head),
            head@ == spec_convert_pred(rl@.head, old(table)@).0,
            th == spec_convert_pred(rl@.head, old(table)@).1,
            body@.len() == i,
            body.deep_view() == spec_convert_preds(rl@.body.take(i as int), th).0,
            table@ == spec_convert_preds(rl@.body.take(i as int), th).1,
            table_extends(old(table)@, table@),
            forall|j: int|
                0 <= j < i ==> pred_resolves((#[trigger] body@[j])@, table@, rl@.body[j]),
    {
        let ghost pre = table@;
        let p = convert_predicate(&rl.body[i], table);
        let ghost prev_body = body;
        let ghost pg = p;
        body.push(p);
        proof {
            lemma_table_extends_trans(old(table)@, pre, table@);
            lemma_pred_resolves_extends(head@, pre, table@, rl@.head);
            crate::datalog::lemma_deep_view_push(body, prev_body, pg);
            lemma_convert_preds_take(rl@.body, th, i as int);
            assert(body.deep_view() =~= spec_convert_preds(rl@.body.take(i as int + 1), th).0);
            assert forall|j: int| 0 <= j < i + 1 implies pred_resolves(
                (#[trigger] body@[j])@,
                table@,
                rl@.body[j],
            ) by {
                if j < i {
                    lemma_pred_resolves_extends(body@[j]@, pre, table@, rl@.body[j]);
                }
            }
        }
    }
    let ghost tb = table@;
    proof {
        assert(rl@.body.take(nb as int) =~= rl@.body);
        assert(spec_convert_constraints(rl@.constraints.take(0), tb).0 =~= Seq::<
            ConstraintV,
        >::empty());
    }
    let nc = rl.constraints.len();
    let mut constraints: Vec<datalog::Constraint> = Vec::new();
    for i in 0..nc
        invariant
            table.wf(),
            pred_resolves(head@, table@, rl@.head),
            head@ == spec_convert_pred(rl@.head, old(table)@).0,
            th == spec_convert_pred(rl@.head, old(table)@).1,
            body@.len() == nb == rl@.body.len(),
            body.deep_view() == spec_convert_preds(rl@.body, th).0,
            tb == spec_convert_preds(rl@.body, th).1,
            constraints@.len() == i,
            constraints.deep_view() == spec_convert_constraints(
                rl@.constraints.take(i as int),
                tb,
            ).0,
            table@ == spec_convert_constraints(rl@.constraints.take(i as int), tb).1,
            table_extends(old(table)@, table@),
            forall|j: int|
                0 <= j < nb ==> pred_resolves((#[trigger] body@[j])@, table@, rl@.body[j]),
            forall|j: int| 0 <= j < i ==> constraint_valid(#[trigger] rl@.constraints[j]),
            forall|j: int|
                0 <= j < i ==> constraint_resolves(
                    (#[trigger] constraints@[j])@,
                    table@,
                    rl@.constraints[j],
                ),
    {
        let ghost pre = table@;
        let c = match convert_constraint(&rl.constraints[i], table) {
            Ok(c) => c,
            Err(e) => {
                proof {
                    assert(!constraint_valid(rl@.constraints[i as int]));
                }
                return Err(e);
            },
        };
        let ghost prev_cs = constraints;
        let ghost cg = c;
        constraints.push(c);
        proof {
            lemma_table_extends_trans(old(table)@, pre, table@);
            lemma_pred_resolves_extends(head@, pre, table@, rl@.head);
            crate::datalog::lemma_deep_view_push(constraints, prev_cs, cg);
            lemma_convert_constraints_take(rl@.constraints, tb, i as int);
            assert(constraints.deep_view() =~= spec_convert_constraints(
                rl@.constraints.take(i as int + 1),
                tb,
            ).0);
            assert forall|j: int| 0 <= j < nb implies pred_resolves(
                (#[trigger] body@[j])@,
                table@,
                rl@.body[j],
            ) by {
                lemma_pred_resolves_extends(body@[j]@, pre, table@, rl@.body[j]);
            }
            assert forall|j: int| 0 <= j < i + 1 implies constraint_resolves(
                (#[trigger] constraints@[j])@,
                table@,
                rl@.constraints[j],
            ) by {
                if j < i {
                    lemma_constraint_resolves_extends(
                        constraints@[j]@,
                        pre,
                        table@,
                        rl@.constraints[j],
                    );
                }
            }
        }
    }
    let r = datalog::Rule { head, body, constraints };
    proof {
        assert(rl@.constraints.take(nc as int) =~= rl@.constraints);
        assert(r@ =~= spec_convert_rule(rl@, old(table)@).0);
        assert forall|i: int| 0 <= i < rl@.body.len() implies pred_resolves(
            #[trigger] r@.body[i],
            table@,
            rl@.body[i],
        ) by {
            assert(r@.body[i] == body@[i]@);
        }
        assert forall|i: int| 0 <= i < rl@.constraints.len() implies constraint_resolves(
            #[trigger] r@.constraints[i],
            table@,
            rl@.constraints[i],
        ) by {
            assert(r@.constraints[i] == constraints@[i]@);
        }
    }
    Ok(r)
}

// ---------------------------------------------------------------------------
// Builders
// ---------------------------------------------------------------------------

/// Interns a whole staged load of facts, rules and caveats against `table`.
#[verifier::loop_isolation(false)]
pub fn convert_staged(
    facts: &Vec<Fact>,
    rules: &Vec<Rule>,
    caveats: &Vec<Rule>,
    table: &mut SymbolTable,
) -> (r: Result<(Vec<datalog::Predicate>, Vec<datalog::Rule>, Vec<datalog::Rule>), Error>)
    requires
        old(table).wf(),
    ensures
        final(table).wf(),
        table_extends(old(table)@, final(table)@),
        r is Ok <==> staged_ok(facts.deep_view(), rules.deep_view(), caveats.deep_view()),
        r matches Ok(out) ==> {
            let sc = spec_convert_staged(
                facts.deep_view(),
                rules.deep_view(),
                caveats.deep_view(),
                old(table)@,
            );
            &&& out.0.deep_view() == sc.0
            &&& out.1.deep_view() == sc.1
            &&& out.2.deep_view() == sc.2
            &&& final(table)@ == sc.3
        },
        r matches Ok(out) ==> {
            &&& out.0.deep_view().len() == facts.deep_view().len()
            &&& forall|i: int|
                0 <= i < facts.deep_view().len() ==> pred_resolves(
                    #[trigger] out.0.deep_view()[i],
                    final(table)@,
                    facts.deep_view()[i],
                )
            &&& out.1.deep_view().len() == rules.deep_view().len()
            &&& forall|i: int|
                0 <= i < rules.deep_view().len() ==> rule_resolves(
                    #[trigger] out.1.deep_view()[i],
                    final(table)@,
                    rules.deep_view()[i],
                )
            &&& out.2.deep_view().len() == caveats.deep_view().len()
            &&& forall|i: int|
                0 <= i < caveats.deep_view().len() ==> rule_resolves(
                    #[trigger] out.2.deep_view()[i],
                    final(table)@,
                    caveats.deep_view()[i],
                )
        },
        r matches Err(e) ==> e == Error::ParseError,
{
    proof {
        assert(table@.subrange(0, old(table)@.len() as int) =~= old(table)@);
        assert(spec_convert_preds(facts.deep_view().take(0), old(table)@).0 =~= Seq::<
            PredV,
        >::empty());
    }
    let nf = facts.len();
    let mut dfacts: Vec<datalog::Predicate> = Vec::new();
    for i in 0..nf
        invariant
            table.wf(),
            table_extends(old(table)@, table@),
            dfacts@.len() == i,
            dfacts.deep_view() == spec_convert_preds(facts.deep_view().take(i as int), old(table)@).0,
            table@ == spec_convert_preds(facts.deep_view().take(i as int), old(table)@).1,
            forall|j: int| 0 <= j < i ==> staged_fact_ground(#[trigger] facts.deep_view()[j]),
            forall|j: int|
                0 <= j < i ==> pred_resolves(
                    (#[trigger] dfacts@[j])@,
                    table@,
                    facts.deep_view()[j],
                ),
    {
        if !staged_fact_is_ground(&facts[i]) {
            proof {
                assert(!staged_fact_ground(facts.deep_view()[i as int]));
                assert(!staged_facts_ground(facts.deep_view()));
            }
            return Err(Error::ParseError);
        }
        let ghost pre = table@;
        let p = convert_predicate(&facts[i].0, table);
        let ghost prev_df = dfacts;
        let ghost pg = p;
        dfacts.push(p);
        proof {
            lemma_table_extends_trans(old(table)@, pre, table@);
            crate::datalog::lemma_deep_view_push(dfacts, prev_df, pg);
            lemma_convert_preds_take(facts.deep_view(), old(table)@, i as int);
            assert(facts.deep_view()[i as int] == facts@[i as int]@);
            assert(dfacts.deep_view() =~= spec_convert_preds(
                facts.deep_view().take(i as int + 1),
                old(table)@,
            ).0);
            assert forall|j: int| 0 <= j < i + 1 implies pred_resolves(
                (#[trigger] dfacts@[j])@,
                table@,
                facts.deep_view()[j],
            ) by {
                if j < i {
                    lemma_pred_resolves_extends(dfacts@[j]@, pre, table@, facts.deep_view()[j]);
                }
            }
        }
    }
    let ghost tf = table@;
    proof {
        assert(facts.deep_view().take(nf as int) =~= facts.deep_view());
        assert(spec_convert_rules(rules.deep_view().take(0), tf).0 =~= Seq::<RuleV>::empty());
    }
    let nr = rules.len();
    let mut drules: Vec<datalog::Rule> = Vec::new();
    for i in 0..nr
        invariant
            table.wf(),
            table_extends(old(table)@, table@),
            drules@.len() == i,
            dfacts@.len() == nf,
            dfacts.deep_view() == spec_convert_preds(facts.deep_view(), old(table)@).0,
            tf == spec_convert_preds(facts.deep_view(), old(table)@).1,
            drules.deep_view() == spec_convert_rules(rules.deep_view().take(i as int), tf).0,
            table@ == spec_convert_rules(rules.deep_view().take(i as int), tf).1,
            forall|j: int| 0 <= j < nf ==> staged_fact_ground(#[trigger] facts.deep_view()[j]),
            forall|j: int|
                0 <= j < nf ==> pred_resolves(
                    (#[trigger] dfacts@[j])@,
                    table@,
                    facts.deep_view()[j],
                ),
            forall|j: int|
                0 <= j < i ==> rule_resolves(
                    (#[trigger] drules@[j])@,
                    table@,
                    rules.deep_view()[j],
                ),
            forall|j: int, k: int|
                0 <= j < i && 0 <= k < (#[trigger] rules.deep_view()[j]).constraints.len()
                    ==> constraint_valid(#[trigger] rules.deep_view()[j].constraints[k]),
    {
        let ghost pre = table@;
        let dr = match convert_rule(&rules[i], table) {
            Ok(dr) => dr,
            Err(e) => {
                proof {
                    lemma_table_extends_trans(old(table)@, pre, table@);
                    assert(rules.deep_view()[i as int] == rules@[i as int]@);
                    let k = choose|k: int|
                        0 <= k < rules.deep_view()[i as int].constraints.len()
                            && !constraint_valid(
                            #[trigger] rules.deep_view()[i as int].constraints[k],
                        );
                    assert(!constraint_valid(rules.deep_view()[i as int].constraints[k]));
                    assert(!staged_valid(rules.deep_view(), caveats.deep_view()));
                }
                return Err(e);
            },
        };
        let ghost prev_dr = drules;
        let ghost drg = dr;
        drules.push(dr);
        proof {
            crate::datalog::lemma_deep_view_push(drules, prev_dr, drg);
            lemma_convert_rules_take(rules.deep_view(), tf, i as int);
            assert(rules.deep_view()[i as int] == rules@[i as int]@);
            assert(drules.deep_view() =~= spec_convert_rules(
                rules.deep_view().take(i as int + 1),
                tf,
            ).0);
        }
        proof {
            lemma_table_extends_trans(old(table)@, pre, table@);
            assert forall|j: int| 0 <= j < nf implies pred_resolves(
                (#[trigger] dfacts@[j])@,
                table@,
                facts.deep_view()[j],
            ) by {
                lemma_pred_resolves_extends(dfacts@[j]@, pre, table@, facts.deep_view()[j]);
            }
            assert forall|j: int| 0 <= j < i + 1 implies rule_resolves(
                (#[trigger] drules@[j])@,
                table@,
                rules.deep_view()[j],
            ) by {
                if j < i {
                    lemma_rule_resolves_extends(drules@[j]@, pre, table@, rules.deep_view()[j]);
                }
            }
        }
    }
    let ghost tr = table@;
    proof {
        assert(rules.deep_view().take(nr as int) =~= rules.deep_view());
        assert(spec_convert_rules(caveats.deep_view().take(0), tr).0 =~= Seq::<RuleV>::empty());
    }
    let ncv = caveats.len();
    let mut dcaveats: Vec<datalog::Rule> = Vec::new();
    for i in 0..ncv
        invariant
            table.wf(),
            table_extends(old(table)@, table@),
            dcaveats@.len() == i,
            dfacts@.len() == nf,
            drules@.len() == nr,
            dfacts.deep_view() == spec_convert_preds(facts.deep_view(), old(table)@).0,
            tf == spec_convert_preds(facts.deep_view(), old(table)@).1,
            drules.deep_view() == spec_convert_rules(rules.deep_view(), tf).0,
            tr == spec_convert_rules(rules.deep_view(), tf).1,
            dcaveats.deep_view() == spec_convert_rules(caveats.deep_view().take(i as int), tr).0,
            table@ == spec_convert_rules(caveats.deep_view().take(i as int), tr).1,
            forall|j: int| 0 <= j < nf ==> staged_fact_ground(#[trigger] facts.deep_view()[j]),
            forall|j: int|
                0 <= j < nf ==> pred_resolves(
                    (#[trigger] dfacts@[j])@,
                    table@,
                    facts.deep_view()[j],
                ),
            forall|j: int|
                0 <= j < nr ==> rule_resolves(
                    (#[trigger] drules@[j])@,
                    table@,
                    rules.deep_view()[j],
                ),
            forall|j: int, k: int|
                0 <= j < nr && 0 <= k < (#[trigger] rules.deep_view()[j]).constraints.len()
                    ==> constraint_valid(#[trigger] rules.deep_view()[j].constraints[k]),
            forall|j: int|
                0 <= j < i ==> rule_resolves(
                    (#[trigger] dcaveats@[j])@,
                    table@,
                    caveats.deep_view()[j],
                ),
            forall|j: int, k: int|
                0 <= j < i && 0 <= k < (#[trigger] caveats.deep_view()[j]).constraints.len()
                    ==> constraint_valid(#[trigger] caveats.deep_view()[j].constraints[k]),
    {
        let ghost pre = table@;
        let dr = match convert_rule(&caveats[i], table) {
            Ok(dr) => dr,
            Err(e) => {
                proof {
                    lemma_table_extends_trans(old(table)@, pre, table@);
                    assert(caveats.deep_view()[i as int] == caveats@[i as int]@);
                    let k = choose|k: int|
                        0 <= k < caveats.deep_view()[i as int].constraints.len()
                            && !constraint_valid(
                            #[trigger] caveats.deep_view()[i as int].constraints[k],
                        );
                    assert(!constraint_valid(caveats.deep_view()[i as int].constraints[k]));
                    assert(!staged_valid(rules.deep_view(), caveats.deep_view()));
                }
                return Err(e);
            },
        };
        let ghost prev_dc = dcaveats;
        let ghost dcg = dr;
        dcaveats.push(dr);
        proof {
            crate::datalog::lemma_deep_view_push(dcaveats, prev_dc, dcg);
            lemma_convert_rules_take(caveats.deep_view(), tr, i as int);
            assert(caveats.deep_view()[i as int] == caveats@[i as int]@);
            assert(dcaveats.deep_view() =~= spec_convert_rules(
                caveats.deep_view().take(i as int + 1),
                tr,
            ).0);
        }
        proof {
            lemma_table_extends_trans(old(table)@, pre, table@);
            assert forall|j: int| 0 <= j < nf implies pred_resolves(
                (#[trigger] dfacts@[j])@,
                table@,
                facts.deep_view()[j],
            ) by {
                lemma_pred_resolves_extends(dfacts@[j]@, pre, table@, facts.deep_view()[j]);
            }
            assert forall|j: int| 0 <= j < nr implies rule_resolves(
                (#[trigger] drules@[j])@,
                table@,
                rules.deep_view()[j],
            ) by {
                lemma_rule_resolves_extends(drules@[j]@, pre, table@, rules.deep_view()[j]);
            }
            assert forall|j: int| 0 <= j < i + 1 implies rule_resolves(
                (#[trigger] dcaveats@[j])@,
                table@,
                caveats.deep_view()[j],
            ) by {
                if j < i {
                    lemma_rule_resolves_extends(dcaveats@[j]@, pre, table@, caveats.deep_view()[j]);
                }
            }
        }
    }
    proof {
        assert(caveats.deep_view().take(ncv as int) =~= caveats.deep_view());
        assert forall|i: int| 0 <= i < facts.deep_view().len() implies pred_resolves(
            #[trigger] dfacts.deep_view()[i],
            table@,
            facts.deep_view()[i],
        ) by {
            assert(dfacts.deep_view()[i] == dfacts@[i]@);
        }
        assert forall|i: int| 0 <= i < rules.deep_view().len() implies rule_resolves(
            #[trigger] drules.deep_view()[i],
            table@,
            rules.deep_view()[i],
        ) by {
            assert(drules.deep_view()[i] == drules@[i]@);
        }
        assert forall|i: int| 0 <= i < caveats.deep_view().len() implies rule_resolves(
            #[trigger] dcaveats.deep_view()[i],
            table@,
            caveats.deep_view()[i],
        ) by {
            assert(dcaveats.deep_view()[i] == dcaveats@[i]@);
        }
    }
    Ok((dfacts, drules, dcaveats))
}

/// Every constraint of every staged rule and caveat is a legal combination.
pub open spec fn staged_valid(rules: Seq<BRuleV>, caveats: Seq<BRuleV>) -> bool {
    &&& forall|j: int, k: int|
        0 <= j < rules.len() && 0 <= k < (#[trigger] rules[j]).constraints.len()
            ==> constraint_valid(#[trigger] rules[j].constraints[k])
    &&& forall|j: int, k: int|
        0 <= j < caveats.len() && 0 <= k < (#[trigger] caveats[j]).constraints.len()
            ==> constraint_valid(#[trigger] caveats[j].constraints[k])
}

/// Mutable staging for one appended block: facts, rules and caveats in
/// string form.
pub struct BlockBuilder {
    pub facts: Vec<Fact>,
    pub rules: Vec<Rule>,
    pub caveats: Vec<Rule>,
}

impl BlockBuilder {
    /// An empty staging area.
    pub fn new() -> (r: BlockBuilder)
        ensures
            r.facts.deep_view() == Seq::<BPredV>::empty(),
            r.rules.deep_view() == Seq::<BRuleV>::empty(),
            r.caveats.deep_view() == Seq::<BRuleV>::empty(),
    {
        let r = BlockBuilder { facts: Vec::new(), rules: Vec::new(), caveats: Vec::new() };
        proof {
            assert(r.facts.deep_view() =~= Seq::<BPredV>::empty());
            assert(r.rules.deep_view() =~= Seq::<BRuleV>::empty());
            assert(r.caveats.deep_view() =~= Seq::<BRuleV>::empty());
        }
        r
    }

    /// Stages one fact.
    pub fn add_fact(&mut self, fact: Fact)
        ensures
            final(self).facts.deep_view() == old(self).facts.deep_view().push(fact@),
            final(self).rules == old(self).rules,
            final(self).caveats == old(self).caveats,
    {
        let ghost prev = self.facts;
        let ghost fg = fact;
        self.facts.push(fact);
        proof {
            crate::datalog::lemma_deep_view_push(self.facts, prev, fg);
        }
    }

    /// Stages one rule.
    pub fn add_rule(&mut self, rule: Rule)
        ensures
            final(self).rules.deep_view() == old(self).rules.deep_view().push(rule@),
            final(self).facts == old(self).facts,
            final(self).caveats == old(self).caveats,
    {
        let ghost prev = self.rules;
        let ghost rg = rule;
        self.rules.push(rule);
        proof {
            crate::datalog::lemma_deep_view_push(self.rules, prev, rg);
        }
    }

    /// Stages one caveat.
    pub fn add_caveat(&mut self, caveat: Rule)
        ensures
            final(self).caveats.deep_view() == old(self).caveats.deep_view().push(caveat@),
            final(self).facts == old(self).facts,
            final(self).rules == old(self).rules,
    {
        let ghost prev = self.caveats;
        let ghost cg = caveat;
        self.caveats.push(caveat);
        proof {
            crate::datalog::lemma_deep_view_push(self.caveats, prev, cg);
        }
    }
}

/// Mutable staging for the authority block, with the symbol table the token
/// starts from.
pub struct BiscuitBuilder {
    pub symbols: SymbolTable,
    pub facts: Vec<Fact>,
    pub rules: Vec<Rule>,
    pub caveats: Vec<Rule>,
}

impl BiscuitBuilder {
    /// A builder over an explicit base symbol table. Verification against a
    /// token built this way reconstructs the table starting from the default
    /// one, so the base must match it for the token to verify.
    pub fn new(base_symbols: Vec<String>) -> (r: BiscuitBuilder)
        ensures
            r.symbols@ == base_symbols.deep_view(),
            r.facts.deep_view() == Seq::<BPredV>::empty(),
            r.rules.deep_view() == Seq::<BRuleV>::empty(),
            r.caveats.deep_view() == Seq::<BRuleV>::empty(),
    {
        let r = BiscuitBuilder {
            symbols: SymbolTable { symbols: base_symbols },
            facts: Vec::new(),
            rules: Vec::new(),
            caveats: Vec::new(),
        };
        proof {
            assert(r.facts.deep_view() =~= Seq::<BPredV>::empty());
            assert(r.rules.deep_view() =~= Seq::<BRuleV>::empty());
            assert(r.caveats.deep_view() =~= Seq::<BRuleV>::empty());
        }
        r
    }

    /// A builder over the default symbol table.
    pub fn new_with_default_symbols() -> (r: BiscuitBuilder)
        ensures
            r.symbols@ == crate::symbols::spec_default_symbols(),
            r.symbols.wf(),
            r.facts.deep_view() == Seq::<BPredV>::empty(),
            r.rules.deep_view() == Seq::<BRuleV>::empty(),
            r.caveats.deep_view() == Seq::<BRuleV>::empty(),
    {
        let r = BiscuitBuilder {
            symbols: SymbolTable::default_table(),
            facts: Vec::new(),
            rules: Vec::new(),
            caveats: Vec::new(),
        };
        proof {
            assert(r.facts.deep_view() =~= Seq::<BPredV>::empty());
            assert(r.rules.deep_view() =~= Seq::<BRuleV>::empty());
            assert(r.caveats.deep_view() =~= Seq::<BRuleV>::empty());
        }
        r
    }

    /// Stages one authority fact.
    pub fn add_authority_fact(&mut self, fact: Fact)
        ensures
            final(self).facts.deep_view() == old(self).facts.deep_view().push(fact@),
            final(self).rules == old(self).rules,
            final(self).caveats == old(self).caveats,
            final(self).symbols == old(self).symbols,
    {
        let ghost prev = self.facts;
        let ghost fg = fact;
        self.facts.push(fact);
        proof {
            crate::datalog::lemma_deep_view_push(self.facts, prev, fg);
        }
    }

    /// Stages one authority rule.
    pub fn add_authority_rule(&mut self, rule_bind: Rule)
        ensures
            final(self).rules.deep_view() == old(self).rules.deep_view().push(rule_bind@),
            final(self).facts == old(self).facts,
            final(self).caveats == old(self).caveats,
            final(self).symbols == old(self).symbols,
    {
        let ghost prev = self.rules;
        let ghost rg = rule_bind;
        self.rules.push(rule_bind);
        proof {
            crate::datalog::lemma_deep_view_push(self.rules, prev, rg);
        }
    }

    /// Stages one authority caveat.
    pub fn add_authority_caveat(&mut self, rule_bind: Rule)
        ensures
            final(self).caveats.deep_view() == old(self).caveats.deep_view().push(rule_bind@),
            final(self).facts == old(self).facts,
            final(self).rules == old(self).rules,
            final(self).symbols == old(self).symbols,
    {
        let ghost prev = self.caveats;
        let ghost cg = rule_bind;
        self.caveats.push(rule_bind);
        proof {
            crate::datalog::lemma_deep_view_push(self.caveats, prev, cg);
        }
    }

    /// Stages the canonical right fact `right(#authority, resource, #right)`.
    pub fn add_right(&mut self, resource: &str, right: &str)
        ensures
            final(self).facts.deep_view() == old(self).facts.deep_view().push(
                BPredV {
                    name: "right"@,
                    ids: seq![
                        AtomV::Symbol("authority"@),
                        AtomV::Str(resource@),
                        AtomV::Symbol(right@),
                    ],
                },
            ),
            final(self).rules == old(self).rules,
            final(self).caveats == old(self).caveats,
            final(self).symbols == old(self).symbols,
    {
        let mut ids: Vec<Atom> = Vec::new();
        ids.push(symbol("authority"));
        ids.push(string(resource));
        ids.push(symbol(right));
        let f = fact("right", ids);
        proof {
            assert(f@.ids =~= seq![
                AtomV::Symbol("authority"@),
                AtomV::Str(resource@),
                AtomV::Symbol(right@),
            ]);
        }
        self.add_authority_fact(f);
    }
}

/// The token `build` produces, as a function of the staged content, the base
/// symbol table and the root seed: building is deterministic.
pub open spec fn spec_built_token(
    vf: Seq<BPredV>,
    vr: Seq<BRuleV>,
    vc: Seq<BRuleV>,
    syms: Seq<Seq<char>>,
    root_sk: Seq<u8>,
) -> crate::token::TokenV {
    let sc = spec_convert_staged(vf, vr, vc, syms);
    let block = crate::token::BlockV {
        index: 0,
        symbols: sc.3.skip(syms.len() as int),
        facts: sc.0,
        rules: sc.1,
        caveats: sc.2,
    };
    crate::token::TokenV {
        blocks: seq![block],
        keys: seq![crate::crypto::public_of(root_sk)],
        signatures: seq![crate::crypto::sig_of(root_sk, crate::token::spec_enc_block(block))],
        sealed: false,
    }
}

impl BiscuitBuilder {
    /// Interns the staged content against the builder's table, wraps it as
    /// the authority block and signs it with the root key, yielding a
    /// single-block token.
    pub fn build(&self, root: &crate::crypto::KeyPair) -> (r: Result<crate::token::Biscuit, Error>)
        requires
            self.symbols.wf(),
        ensures
            match r {
                Ok(t) => {
                    &&& !t@.sealed
                    &&& t@.blocks.len() == 1
                    &&& crate::token::token_counts_ok(t@)
                    &&& crate::token::token_indices_ok(t@)
                    &&& crate::token::chain_valid(t@)
                    &&& t@.keys[0] == crate::crypto::public_of(root.sk@)
                    &&& table_extends(self.symbols@, self.symbols@ + t@.blocks[0].symbols)
                    &&& t@.blocks[0].facts.len() == self.facts.deep_view().len()
                    &&& (forall|i: int|
                        0 <= i < self.facts.deep_view().len() ==> pred_resolves(
                            #[trigger] t@.blocks[0].facts[i],
                            self.symbols@ + t@.blocks[0].symbols,
                            self.facts.deep_view()[i],
                        ))
                    &&& t@.blocks[0].rules.len() == self.rules.deep_view().len()
                    &&& (forall|i: int|
                        0 <= i < self.rules.deep_view().len() ==> rule_resolves(
                            #[trigger] t@.blocks[0].rules[i],
                            self.symbols@ + t@.blocks[0].symbols,
                            self.rules.deep_view()[i],
                        ))
                    &&& t@.blocks[0].caveats.len() == self.caveats.deep_view().len()
                    &&& (forall|i: int|
                        0 <= i < self.caveats.deep_view().len() ==> rule_resolves(
                            #[trigger] t@.blocks[0].caveats[i],
                            self.symbols@ + t@.blocks[0].symbols,
                            self.caveats.deep_view()[i],
                        ))
                },
                Err(e) => e == Error::ParseError || e == Error::InternalError,
            },
            r == Err::<crate::token::Biscuit, Error>(Error::InternalError) <==> !root.wf(),
            root.wf() ==> (r == Err::<crate::token::Biscuit, Error>(Error::ParseError)
                <==> !staged_ok(
                self.facts.deep_view(),
                self.rules.deep_view(),
                self.caveats.deep_view(),
            )),
            r is Ok <==> root.wf() && staged_ok(
                self.facts.deep_view(),
                self.rules.deep_view(),
                self.caveats.deep_view(),
            ),
            r matches Ok(t) ==> {
                let sc = spec_convert_staged(
                    self.facts.deep_view(),
                    self.rules.deep_view(),
                    self.caveats.deep_view(),
                    self.symbols@,
                );
                &&& t@.blocks[0].facts == sc.0
                &&& t@.blocks[0].rules == sc.1
                &&& t@.blocks[0].caveats == sc.2
                &&& t@.blocks[0].symbols == sc.3.skip(self.symbols@.len() as int)
                &&& t@.blocks[0].index == 0
                &&& t@.keys == seq![crate::crypto::public_of(root.sk@)]
                &&& t@.signatures == seq![
                    crate::crypto::sig_of(
                        root.sk@,
                        crate::token::spec_enc_block(t@.blocks[0]),
                    ),
                ]
            },
            r matches Ok(t) ==> t@ == spec_built_token(
                self.facts.deep_view(),
                self.rules.deep_view(),
                self.caveats.deep_view(),
                self.symbols@,
                root.sk@,
            ),
            r matches Ok(t) ==> (self.symbols@ == crate::symbols::spec_default_symbols()
                ==> crate::token::token_symbols_ok(t@)),
            r matches Ok(t) ==> crate::token::tokenv_wf(t@),
    {
        if root.to_bytes().len() != 32 {
            return Err(Error::InternalError);
        }
        let mut table = SymbolTable { symbols: crate::datalog::dup_strings(&self.symbols.symbols) };
        assert(table@ == self.symbols@);
        let base = table.len();
        let (facts, rules, caveats) = match convert_staged(
            &self.facts,
            &self.rules,
            &self.caveats,
            &mut table,
        ) {
            Ok(out) => out,
            Err(e) => {
                return Err(e);
            },
        };
        let ghost full = table@;
        let slice = table.split_at(base);
        proof {
            assert(self.symbols@ + slice@ =~= full);
            assert(slice@ =~= full.skip(self.symbols@.len() as int));
        }
        let block = crate::token::Block { index: 0, symbols: slice, facts, rules, caveats };
        crate::token::learn_block_wf(&block);
        let msg = crate::token::enc_block(&block);
        let sig = match root.sign(&msg) {
            Ok(s) => s,
            Err(e) => {
                return Err(e);
            },
        };
        let ghost blockg = block;
        let mut blocks: Vec<crate::token::Block> = Vec::new();
        blocks.push(block);
        let pk = root.public_key();
        let pk_len: usize = pk.pk.len();
        let ghost pkg = pk.pk;
        let mut keys: Vec<Vec<u8>> = Vec::new();
        keys.push(pk.pk);
        let sig_len: usize = sig.len();
        let ghost sigg = sig;
        let mut signatures: Vec<Vec<u8>> = Vec::new();
        signatures.push(sig);
        let t = crate::token::Biscuit { blocks, keys, signatures, sealed: false };
        proof {
            assert(t@.blocks.len() == 1);
            assert(t@.blocks[0] == blockg@);
            assert(t@.keys[0] == pkg@);
            assert(t@.signatures[0] == sigg@);
            assert(crate::token::token_indices_ok(t@));
            assert(crate::token::spec_block_msg(t@, 0) == msg@);
            assert(crate::token::chain_valid(t@)) by {
                assert(sig_valid(t@.keys[0], crate::token::spec_block_msg(t@, 0), t@.signatures[0]));
            }
            assert(t@.blocks[0].symbols == slice@);
            assert(t@.keys =~= seq![crate::crypto::public_of(root.sk@)]);
            assert(t@.signatures =~= seq![
                crate::crypto::sig_of(root.sk@, crate::token::spec_enc_block(t@.blocks[0])),
            ]);
            assert(t@.blocks[0] =~= spec_built_token(
                self.facts.deep_view(),
                self.rules.deep_view(),
                self.caveats.deep_view(),
                self.symbols@,
                root.sk@,
            ).blocks[0]);
            assert(t@ =~= spec_built_token(
                self.facts.deep_view(),
                self.rules.deep_view(),
                self.caveats.deep_view(),
                self.symbols@,
                root.sk@,
            ));
            assert(crate::token::tokenv_wf(t@)) by {
                assert(t@.keys[0] == pkg@);
                assert(t@.signatures[0] == sigg@);
                assert(forall|i: int|
                    0 <= i < t@.blocks.len() ==> crate::token::blockv_wf(#[trigger] t@.blocks[i]));
            }
            if self.symbols@ == crate::symbols::spec_default_symbols() {
                assert(crate::token::blocks_symbols(t@.blocks) =~= slice@) by {
                    assert(t@.blocks.drop_last() =~= Seq::<crate::token::BlockV>::empty());
                    assert(crate::token::blocks_symbols(t@.blocks.drop_last()) + slice@
                        =~= slice@);
                }
                assert(crate::token::token_table(t@.blocks) =~= full);
                assert(crate::token::token_symbols_ok(t@));
            }
        }
        Ok(t)
    }

    /// Builds the token and renders its diagnostic form.
    pub fn print(&self, root: &crate::crypto::KeyPair) -> (r: Result<String, Error>)
        requires
            self.symbols.wf(),
    {
        match self.build(root) {
            Ok(t) => Ok(t.print()),
            Err(e) => Err(e),
        }
    }
}

} // verus!
