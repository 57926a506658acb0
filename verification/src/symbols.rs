//! Append-only string interner. Each block of a token owns the contiguous
//! range of symbols it introduced; the verifier reconstructs one global table
//! by concatenating the per-block ranges in block order.

use vstd::prelude::*;

verus! {

/// True iff `t` holds `s` at some position.
pub open spec fn table_contains(t: Seq<Seq<char>>, s: Seq<char>) -> bool {
    exists|i: int| 0 <= i < t.len() && t[i] == s
}

/// True iff no symbol occurs twice in `t`.
pub open spec fn table_distinct(t: Seq<Seq<char>>) -> bool {
    forall|i: int, j: int| 0 <= i < j < t.len() ==> t[i] != t[j]
}

/// The position of the first occurrence of `s` in `t`; `t.len()` when absent.
pub open spec fn sym_index(t: Seq<Seq<char>>, s: Seq<char>) -> int
    decreases t.len(),
{
    if t.len() == 0 {
        0
    } else if t[0] == s {
        0
    } else {
        1 + sym_index(t.drop_first(), s)
    }
}

/// `sym_index` finds exactly the first occurrence.
pub proof fn lemma_sym_index(t: Seq<Seq<char>>, s: Seq<char>)
    ensures
        table_contains(t, s) ==> {
            &&& 0 <= sym_index(t, s) < t.len()
            &&& t[sym_index(t, s)] == s
            &&& forall|j: int| 0 <= j < sym_index(t, s) ==> t[j] != s
        },
        !table_contains(t, s) ==> sym_index(t, s) == t.len(),
    decreases t.len(),
{
    if t.len() > 0 && t[0] != s {
        lemma_sym_index(t.drop_first(), s);
        let rest = t.drop_first();
        assert(forall|j: int| 0 <= j < rest.len() ==> rest[j] == t[j + 1]);
        if table_contains(t, s) {
            let i = choose|i: int| 0 <= i < t.len() && t[i] == s;
            assert(rest[i - 1] == s);
            assert(table_contains(rest, s));
            let si = sym_index(rest, s);
            assert(sym_index(t, s) == 1 + si);
            assert(t[1 + si] == rest[si]);
            assert forall|j: int| 0 <= j < 1 + si implies t[j] != s by {
                if j > 0 {
                    assert(rest[j - 1] != s);
                }
            }
        } else {
            if table_contains(rest, s) {
                let i = choose|i: int| 0 <= i < rest.len() && rest[i] == s;
                assert(t[i + 1] == s);
            }
        }
    }
}

/// Interning as a function: the index of `s` and the table after, the table
/// growing by `s` exactly when it was absent.
pub open spec fn spec_intern(t: Seq<Seq<char>>, s: Seq<char>) -> (u64, Seq<Seq<char>>) {
    if table_contains(t, s) {
        (sym_index(t, s) as u64, t)
    } else {
        (t.len() as u64, t.push(s))
    }
}

/// The well-known symbols every builder starts from, unless the caller
/// supplies an explicit replacement table.
pub open spec fn spec_default_symbols() -> Seq<Seq<char>> {
    seq![
        "authority"@,
        "ambient"@,
        "resource"@,
        "operation"@,
        "right"@,
        "current_time"@,
        "revocation_id"@,
    ]
}

/// An ordered sequence of unique strings; a symbol atom stores an index into
/// this table.
#[derive(Debug)]
pub struct SymbolTable {
    pub symbols: Vec<String>,
}

impl View for SymbolTable {
    type V = Seq<Seq<char>>;

    open spec fn view(&self) -> Seq<Seq<char>> {
        self.symbols.deep_view()
    }
}

impl SymbolTable {
    /// The table is well formed when no symbol occurs twice.
    pub open spec fn wf(&self) -> bool {
        table_distinct(self@)
    }

    /// An empty table.
    pub fn new() -> (r: SymbolTable)
        ensures
            r@ == Seq::<Seq<char>>::empty(),
            r.wf(),
    {
        let r = SymbolTable { symbols: Vec::new() };
        assert(r@ =~= Seq::<Seq<char>>::empty());
        r
    }

    /// The pre-seeded table of well-known symbols.
    pub fn default_table() -> (r: SymbolTable)
        ensures
            r@ == spec_default_symbols(),
            r.wf(),
    {
        let mut symbols: Vec<String> = Vec::new();
        symbols.push("authority".to_owned());
        symbols.push("ambient".to_owned());
        symbols.push("resource".to_owned());
        symbols.push("operation".to_owned());
        symbols.push("right".to_owned());
        symbols.push("current_time".to_owned());
        symbols.push("revocation_id".to_owned());
        let r = SymbolTable { symbols };
        proof {
            reveal_strlit("authority");
            reveal_strlit("ambient");
            reveal_strlit("resource");
            reveal_strlit("operation");
            reveal_strlit("right");
            reveal_strlit("current_time");
            reveal_strlit("revocation_id");
            assert(r@ =~= spec_default_symbols());
            assert forall|i: int, j: int|
                0 <= i < j < spec_default_symbols().len() implies spec_default_symbols()[i]
                != spec_default_symbols()[j] by {
                let a = spec_default_symbols()[i];
                let b = spec_default_symbols()[j];
                if a.len() == b.len() {
                    assert(a[0] != b[0]);
                }
            }
        }
        r
    }

    /// Number of symbols in the table.
    pub fn len(&self) -> (r: usize)
        ensures
            r == self@.len(),
    {
        self.symbols.len()
    }

    /// Interns `s`: returns the index of its first occurrence if present,
    /// else appends it and returns the new index. Functionally, the result
    /// and the new table are exactly [`spec_intern`] of the old table.
    pub fn insert(&mut self, s: &str) -> (r: u64)
        ensures
            r == spec_intern(old(self)@, s@).0,
            final(self)@ == spec_intern(old(self)@, s@).1,
            table_contains(old(self)@, s@) ==> {
                &&& *final(self) == *old(self)
                &&& r < old(self)@.len()
                &&& old(self)@[r as int] == s@
                &&& forall|j: int| 0 <= j < r ==> old(self)@[j] != s@
            },
            !table_contains(old(self)@, s@) ==> {
                &&& final(self)@ == old(self)@.push(s@)
                &&& r == old(self)@.len()
            },
            old(self).wf() ==> final(self).wf(),
            final(self)@[r as int] == s@,
            r < final(self)@.len(),
    {
        let wanted: String = s.to_owned();
        let n = self.symbols.len();
        for i in 0..n
            invariant
                *self == *old(self),
                n == self@.len(),
                wanted@ == s@,
                forall|j: int| 0 <= j < i ==> self@[j] != s@,
        {
            if self.symbols[i] == wanted {
                assert(self@[i as int] == s@);
                proof {
                    assert(table_contains(self@, s@));
                    lemma_sym_index(self@, s@);
                    let si = sym_index(self@, s@);
                    assert(si == i as int) by {
                        if si < i as int {
                            assert(self@[si] != s@);
                        }
                        if si > i as int {
                            assert(self@[i as int] != s@);
                        }
                    }
                }
                return i as u64;
            }
        }
        assert(!table_contains(self@, s@));
        let r = self.symbols.len() as u64;
        self.symbols.push(s.to_owned());
        assert(self@ =~= old(self)@.push(s@));
        assert(old(self).wf() ==> final(self).wf()) by {
            if old(self).wf() {
                assert forall|i: int, j: int| 0 <= i < j < self@.len() implies self@[i]
                    != self@[j] by {
                    if j == self@.len() - 1 {
                        assert(self@[i] == old(self)@[i]);
                    }
                }
            }
        }
        r
    }

    /// Resolves an index to its symbol; `None` when the index is out of
    /// range.
    pub fn resolve(&self, i: u64) -> (r: Option<&String>)
        ensures
            i < self@.len() ==> (r matches Some(s) && s@ == self@[i as int]),
            i >= self@.len() ==> r is None,
    {
        if i < self.symbols.len() as u64 {
            Some(&self.symbols[i as usize])
        } else {
            None
        }
    }

    /// Carves off the symbols from position `at` on, leaving the first `at`
    /// in place: the new table is the range a block introduced beyond its
    /// base table.
    pub fn split_at(&mut self, at: usize) -> (r: SymbolTable)
        requires
            at <= old(self)@.len(),
        ensures
            final(self)@ == old(self)@.subrange(0, at as int),
            r@ == old(self)@.subrange(at as int, old(self)@.len() as int),
            old(self).wf() ==> final(self).wf() && r.wf(),
    {
        let tail = self.symbols.split_off(at);
        assert(final(self)@ =~= old(self)@.subrange(0, at as int));
        assert(tail.deep_view() =~= old(self)@.subrange(at as int, old(self)@.len() as int));
        SymbolTable { symbols: tail }
    }

    /// Appends every symbol of `other`, refusing tables that overlap: returns
    /// `true` and extends `self` when the concatenation is duplicate-free,
    /// else returns `false` and leaves `self` unchanged.
    #[verifier::loop_isolation(false)]
    pub fn merge(&mut self, other: &SymbolTable) -> (r: bool)
        requires
            old(self).wf(),
        ensures
            r == table_distinct(old(self)@ + other@),
            r ==> final(self)@ == old(self)@ + other@ && final(self).wf(),
            !r ==> *final(self) == *old(self),
    {
        let n = other.symbols.len();
        for i in 0..n
            invariant
                *self == *old(self),
                n == other@.len(),
                forall|j: int| 0 <= j < i ==> !table_contains(self@, #[trigger] other@[j]),
                forall|j: int, l: int| 0 <= j < l < i ==> other@[j] != other@[l],
        {
            let m = self.symbols.len();
            for k in 0..m
                invariant
                    *self == *old(self),
                    n == other@.len(),
                    m == self@.len(),
                    i < n,
                    forall|l: int| 0 <= l < k ==> self@[l] != other@[i as int],
            {
                if self.symbols[k] == other.symbols[i] {
                    assert(self@[k as int] == other@[i as int]);
                    assert(!table_distinct(old(self)@ + other@)) by {
                        let t = old(self)@ + other@;
                        assert(t[k as int] == t[old(self)@.len() + i]);
                    }
                    return false;
                }
            }
            assert(!table_contains(self@, other@[i as int]));
            for k in 0..i
                invariant
                    *self == *old(self),
                    n == other@.len(),
                    i < n,
                    forall|l: int| 0 <= l < k ==> other@[l] != other@[i as int],
            {
                if other.symbols[k] == other.symbols[i] {
                    assert(other@[k as int] == other@[i as int]);
                    assert(!table_distinct(old(self)@ + other@)) by {
                        let t = old(self)@ + other@;
                        assert(t[old(self)@.len() + k] == t[old(self)@.len() + i]);
                    }
                    return false;
                }
            }
        }
        let m0 = self.symbols.len();
        for i in 0..n
            invariant
                n == other@.len(),
                m0 == old(self)@.len(),
                self@ =~= old(self)@ + other@.subrange(0, i as int),
        {
            let ghost pre = self@;
            let s: String = other.symbols[i].clone();
            assert(s@ == other@[i as int]);
            self.symbols.push(s);
            assert(self@ =~= pre.push(other@[i as int]));
            assert(pre.push(other@[i as int]) =~= old(self)@ + other@.subrange(0, i as int + 1));
            assert(self@ =~= old(self)@ + other@.subrange(0, i as int + 1));
        }
        assert(self@ =~= old(self)@ + other@);
        assert(table_distinct(self@)) by {
            let t = old(self)@ + other@;
            assert forall|i: int, j: int| 0 <= i < j < t.len() implies t[i] != t[j] by {
                if j < old(self)@.len() {
                } else if i < old(self)@.len() {
                    assert(!table_contains(old(self)@, other@[j - old(self)@.len()]));
                    assert(t[i] == old(self)@[i]);
                } else {
                    assert(other@[i - old(self)@.len()] != other@[j - old(self)@.len()]);
                }
            }
        }
        true
    }
}

} // verus!
