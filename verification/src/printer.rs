//! Diagnostic rendering of the policy model: plain-text forms of terms,
//! predicates, rules and tokens for audit and error reports.

use vstd::prelude::*;
use crate::datalog::{Term, Predicate, Rule};
use crate::symbols::SymbolTable;
use crate::token::Biscuit;
use vstd::string::StringExecFns;

verus! {

/// The decimal digits of `n`.
pub fn u64_to_string(n: u64) -> (r: String)
{
    let mut digits: Vec<char> = Vec::new();
    let mut m = n;
    if m == 0 {
        digits.push('0');
    }
    while m > 0
        decreases m,
    {
        let d = (m % 10) as u8;
        digits.push((48u8 + d) as char);
        m = m / 10;
    }
    let mut rev: Vec<char> = Vec::new();
    let mut k = digits.len();
    while k > 0
        invariant
            k <= digits.len(),
        decreases k,
    {
        k = k - 1;
        rev.push(digits[k]);
    }
    crate::codec::chars_to_string(&rev)
}

/// The decimal form of a signed number.
pub fn i64_to_string(n: i64) -> (r: String)
{
    if n < 0 {
        let mut s = String::new();
        s.append("-");
        let mag: u64 = if n == i64::MIN {
            9223372036854775808u64
        } else {
            (-n) as u64
        };
        s.append(u64_to_string(mag).as_str());
        s
    } else {
        u64_to_string(n as u64)
    }
}

/// The text of a term: symbols resolved against the table, variables shown
/// by slot.
pub fn print_term(t: &Term, table: &SymbolTable) -> (r: String)
{
    let mut s = String::new();
    match t {
        Term::Integer(i) => {
            s.append(i64_to_string(*i).as_str());
        },
        Term::Str(x) => {
            s.append("\"");
            s.append(x.as_str());
            s.append("\"");
        },
        Term::Symbol(ix) => {
            s.append("#");
            match table.resolve(*ix) {
                Some(name) => {
                    s.append(name.as_str());
                },
                None => {
                    s.append("?");
                    s.append(u64_to_string(*ix).as_str());
                },
            }
        },
        Term::Date(d) => {
            s.append("@");
            s.append(u64_to_string(*d).as_str());
        },
        Term::Variable(v) => {
            s.append("$");
            s.append(u64_to_string(*v as u64).as_str());
        },
    }
    s
}

/// The text of a predicate: its resolved name applied to its terms.
pub fn print_predicate(p: &Predicate, table: &SymbolTable) -> (r: String)
{
    let mut s = String::new();
    match table.resolve(p.name) {
        Some(name) => {
            s.append(name.as_str());
        },
        None => {
            s.append("?");
            s.append(u64_to_string(p.name).as_str());
        },
    }
    s.append("(");
    let n = p.args.len();
    for i in 0..n
        invariant
            n == p.args.len(),
    {
        if i > 0 {
            s.append(", ");
        }
        s.append(print_term(&p.args[i], table).as_str());
    }
    s.append(")");
    s
}

/// The text of a rule: head, body and a marker for each constraint.
pub fn print_rule(rl: &Rule, table: &SymbolTable) -> (r: String)
{
    let mut s = String::new();
    s.append("*");
    s.append(print_predicate(&rl.head, table).as_str());
    s.append(" <- ");
    let n = rl.body.len();
    for i in 0..n
        invariant
            n == rl.body.len(),
    {
        if i > 0 {
            s.append(" && ");
        }
        s.append(print_predicate(&rl.body[i], table).as_str());
    }
    let nc = rl.constraints.len();
    for i in 0..nc
        invariant
            nc == rl.constraints.len(),
    {
        s.append(" @ $");
        s.append(u64_to_string(rl.constraints[i].id as u64).as_str());
    }
    s
}

/// The diagnostic form of a whole token: each block with its facts, rules
/// and caveats.
pub fn print_token(t: &Biscuit) -> (r: String)
{
    let mut s = String::new();
    let table = match t.build_symbol_table() {
        Ok(tbl) => tbl,
        Err(_) => SymbolTable::default_table(),
    };
    let n = t.blocks.len();
    s.append("token with ");
    s.append(u64_to_string(n as u64).as_str());
    s.append(" block(s)\n");
    for bi in 0..n
        invariant
            n == t.blocks.len(),
    {
        let b = &t.blocks[bi];
        s.append("block ");
        s.append(u64_to_string(b.index as u64).as_str());
        s.append(":\n");
        let nf = b.facts.len();
        for i in 0..nf
            invariant
                nf == b.facts.len(),
        {
            s.append("  fact ");
            s.append(print_predicate(&b.facts[i], &table).as_str());
            s.append("\n");
        }
        let nr = b.rules.len();
        for i in 0..nr
            invariant
                nr == b.rules.len(),
        {
            s.append("  rule ");
            s.append(print_rule(&b.rules[i], &table).as_str());
            s.append("\n");
        }
        let ncv = b.caveats.len();
        for i in 0..ncv
            invariant
                ncv == b.caveats.len(),
        {
            s.append("  caveat ");
            s.append(print_rule(&b.caveats[i], &table).as_str());
            s.append("\n");
        }
    }
    s
}

/// The diagnostic form of an evaluated fact set.
pub fn print_world(world: &Vec<Predicate>, table: &SymbolTable) -> (r: String)
{
    let mut s = String::new();
    s.append("world:\n");
    let n = world.len();
    for i in 0..n
        invariant
            n == world.len(),
    {
        s.append("  ");
        s.append(print_predicate(&world[i], table).as_str());
        s.append("\n");
    }
    s
}

} // verus!
