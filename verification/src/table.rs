//! The states of all symbols, kept in the order of the symbols.
use vstd::prelude::*;

use crate::order::{
    before, key_order, lemma_before_irreflexive, lemma_before_total, lemma_before_transitive,
    KeyOrder,
};
use crate::symbol::{SymbolAgg, SymbolState};

verus! {

/// A symbol and its state as the models see them.
pub struct Entry {
    pub symbol: Seq<char>,
    pub state: SymbolState,
}

/// Every symbol sorts before those that follow it.
pub open spec fn ascending(entries: Seq<Entry>) -> bool {
    forall|i: int, j: int|
        0 <= i < j < entries.len() ==> before(
            (#[trigger] entries[i]).symbol,
            (#[trigger] entries[j]).symbol,
        )
}

/// Where `symbol` stands, or would stand, among the entries.
pub open spec fn place(entries: Seq<Entry>, symbol: Seq<char>) -> nat
    decreases entries.len(),
{
    if entries.len() == 0 {
        0
    } else if before(entries.last().symbol, symbol) {
        entries.len()
    } else {
        place(entries.drop_last(), symbol)
    }
}

/// Whether there is an entry for `symbol`.
pub open spec fn listed(entries: Seq<Entry>, symbol: Seq<char>) -> bool {
    let p = place(entries, symbol) as int;
    p < entries.len() && entries[p].symbol == symbol
}

/// The state of `symbol`: a fresh one where there is no entry.
pub open spec fn state_of(entries: Seq<Entry>, symbol: Seq<char>) -> SymbolState {
    if listed(entries, symbol) {
        entries[place(entries, symbol) as int].state
    } else {
        SymbolState::fresh()
    }
}

/// The entries with another state for `symbol`.
pub open spec fn put(entries: Seq<Entry>, symbol: Seq<char>, state: SymbolState) -> Seq<Entry> {
    let p = place(entries, symbol) as int;
    if listed(entries, symbol) {
        entries.update(p, Entry { symbol, state })
    } else {
        entries.insert(p, Entry { symbol, state })
    }
}

/// A position that parts the entries before `symbol` from the others is its place.
pub proof fn lemma_place_is(entries: Seq<Entry>, symbol: Seq<char>, p: int)
    requires
        0 <= p <= entries.len(),
        forall|i: int| 0 <= i < p ==> before((#[trigger] entries[i]).symbol, symbol),
        forall|i: int|
            p <= i < entries.len() ==> !before((#[trigger] entries[i]).symbol, symbol),
    ensures
        place(entries, symbol) == p,
    decreases entries.len(),
{
    if entries.len() > 0 && p < entries.len() {
        lemma_place_is(entries.drop_last(), symbol, p);
    }
}

/// In ascending entries the place of `symbol` parts those before it from the others.
pub proof fn lemma_place(entries: Seq<Entry>, symbol: Seq<char>)
    requires
        ascending(entries),
    ensures
        place(entries, symbol) <= entries.len(),
        forall|i: int|
            0 <= i < place(entries, symbol) ==> before((#[trigger] entries[i]).symbol, symbol),
        forall|i: int|
            place(entries, symbol) <= i < entries.len() ==> !before(
                (#[trigger] entries[i]).symbol,
                symbol,
            ),
    decreases entries.len(),
{
    if entries.len() > 0 {
        let last = entries.last();
        if before(last.symbol, symbol) {
            assert forall|i: int| 0 <= i < entries.len() implies before(
                (#[trigger] entries[i]).symbol,
                symbol,
            ) by {
                if i < entries.len() - 1 {
                    lemma_before_transitive(entries[i].symbol, last.symbol, symbol);
                }
            }
        } else {
            let init = entries.drop_last();
            assert(ascending(init)) by {
                assert forall|i: int, j: int| 0 <= i < j < init.len() implies before(
                    (#[trigger] init[i]).symbol,
                    (#[trigger] init[j]).symbol,
                ) by {
                    assert(init[i] == entries[i] && init[j] == entries[j]);
                }
            }
            lemma_place(init, symbol);
            assert forall|i: int| 0 <= i < place(entries, symbol) implies before(
                (#[trigger] entries[i]).symbol,
                symbol,
            ) by {
                assert(init[i] == entries[i]);
            }
            assert forall|i: int| place(entries, symbol) <= i < entries.len() implies !before(
                (#[trigger] entries[i]).symbol,
                symbol,
            ) by {
                if i < init.len() {
                    assert(init[i] == entries[i]);
                }
            }
        }
    }
}

/// An entry of ascending entries is found under its symbol.
pub proof fn lemma_found(entries: Seq<Entry>, i: int)
    requires
        ascending(entries),
        0 <= i < entries.len(),
    ensures
        listed(entries, entries[i].symbol),
        place(entries, entries[i].symbol) == i,
        state_of(entries, entries[i].symbol) == entries[i].state,
{
    let symbol = entries[i].symbol;
    assert forall|j: int| i <= j < entries.len() implies !before(
        (#[trigger] entries[j]).symbol,
        symbol,
    ) by {
        lemma_before_irreflexive(symbol);
        if i < j && before(entries[j].symbol, symbol) {
            lemma_before_transitive(symbol, entries[j].symbol, symbol);
        }
    }
    lemma_place_is(entries, symbol, i);
}

/// Another state for a symbol keeps the entries ascending.
pub proof fn lemma_put_ascending(entries: Seq<Entry>, symbol: Seq<char>, state: SymbolState)
    requires
        ascending(entries),
    ensures
        ascending(put(entries, symbol, state)),
{
    lemma_place(entries, symbol);
    let p = place(entries, symbol) as int;
    let next = put(entries, symbol, state);
    if !listed(entries, symbol) {
        assert forall|i: int, j: int| 0 <= i < j < next.len() implies before(
            (#[trigger] next[i]).symbol,
            (#[trigger] next[j]).symbol,
        ) by {
            if i == p {
                lemma_before_total(entries[p].symbol, symbol);
                if j - 1 > p {
                    lemma_before_transitive(symbol, entries[p].symbol, entries[j - 1].symbol);
                }
            } else if j == p {
                assert(next[i] == entries[i]);
            } else {
                let i0 = if i < p {
                    i
                } else {
                    i - 1
                };
                let j0 = if j < p {
                    j
                } else {
                    j - 1
                };
                assert(next[i] == entries[i0] && next[j] == entries[j0]);
            }
        }
    } else {
        assert forall|i: int, j: int| 0 <= i < j < next.len() implies before(
            (#[trigger] next[i]).symbol,
            (#[trigger] next[j]).symbol,
        ) by {
            assert(next[i].symbol == entries[i].symbol && next[j].symbol == entries[j].symbol);
        }
    }
}

/// The state put for a symbol is the one found for it.
pub proof fn law_put_then_state_of(entries: Seq<Entry>, symbol: Seq<char>, state: SymbolState)
    requires
        ascending(entries),
    ensures
        listed(put(entries, symbol, state), symbol),
        state_of(put(entries, symbol, state), symbol) == state,
{
    lemma_place(entries, symbol);
    lemma_put_ascending(entries, symbol, state);
    let p = place(entries, symbol) as int;
    let next = put(entries, symbol, state);
    assert(next[p].symbol == symbol);
    lemma_found(next, p);
}

/// Putting a state for one symbol leaves every other symbol as it is.
pub proof fn law_put_leaves_others(
    entries: Seq<Entry>,
    symbol: Seq<char>,
    state: SymbolState,
    other: Seq<char>,
)
    requires
        ascending(entries),
        other != symbol,
    ensures
        listed(put(entries, symbol, state), other) == listed(entries, other),
        state_of(put(entries, symbol, state), other) == state_of(entries, other),
{
    lemma_place(entries, symbol);
    lemma_place(entries, other);
    lemma_put_ascending(entries, symbol, state);
    let p = place(entries, symbol) as int;
    let q = place(entries, other) as int;
    let next = put(entries, symbol, state);
    lemma_place(next, other);
    let r = place(next, other) as int;
    if listed(entries, other) {
        let at = if listed(entries, symbol) || q < p {
            q
        } else {
            q + 1
        };
        assert(next[at] == entries[q]);
        lemma_found(next, at);
    } else if listed(next, other) {
        let at = if listed(entries, symbol) || r < p {
            r
        } else {
            r - 1
        };
        assert(r != p);
        assert(entries[at] == next[r]);
        lemma_found(entries, at);
    }
}

/// The states of all symbols.
#[derive(Debug)]
pub struct SymbolTable {
    symbols: Vec<String>,
    states: Vec<SymbolAgg>,
}

impl View for SymbolTable {
    type V = Seq<Entry>;

    closed spec fn view(&self) -> Seq<Entry> {
        Seq::new(
            self.symbols@.len(),
            |i: int| Entry { symbol: self.symbols@[i]@, state: self.states@[i]@ },
        )
    }
}

impl SymbolTable {
    /// Every symbol has one state, and the symbols ascend.
    pub closed spec fn wf(self) -> bool {
        self.symbols@.len() == self.states@.len() && ascending(self@)
    }

    /// A table without symbols.
    pub fn new() -> (table: SymbolTable)
        ensures
            table.wf(),
            table@ == Seq::<Entry>::empty(),
    {
        let table = SymbolTable { symbols: Vec::new(), states: Vec::new() };
        assert(table@ =~= Seq::<Entry>::empty());
        table
    }

    /// How many symbols there are.
    pub fn len(&self) -> (len: usize)
        ensures
            len == self@.len(),
    {
        self.symbols.len()
    }

    /// The place of `symbol`, and whether it has an entry there.
    pub fn find(&self, symbol: &str) -> (found: (usize, bool))
        requires
            self.wf(),
        ensures
            found.0 == place(self@, symbol@),
            found.0 <= self@.len(),
            found.1 == listed(self@, symbol@),
    {
        let mut lo: usize = 0;
        let mut hi: usize = self.symbols.len();
        while lo < hi
            invariant
                self.wf(),
                lo <= hi <= self.symbols@.len(),
                forall|i: int| 0 <= i < lo ==> before((#[trigger] self@[i]).symbol, symbol@),
                forall|i: int|
                    hi <= i < self@.len() ==> before(symbol@, (#[trigger] self@[i]).symbol),
            decreases hi - lo,
        {
            let mid: usize = lo + (hi - lo) / 2;
            assert(self@[mid as int].symbol == self.symbols@[mid as int]@);
            match key_order(self.symbols[mid].as_str(), symbol) {
                KeyOrder::Same => {
                    proof {
                        lemma_found(self@, mid as int);
                    }
                    return (mid, true);
                },
                KeyOrder::Before => {
                    proof {
                        assert forall|i: int| 0 <= i < mid + 1 implies before(
                            (#[trigger] self@[i]).symbol,
                            symbol@,
                        ) by {
                            if i < mid {
                                lemma_before_transitive(
                                    self@[i].symbol,
                                    self@[mid as int].symbol,
                                    symbol@,
                                );
                            }
                        }
                    }
                    lo = mid + 1;
                },
                KeyOrder::After => {
                    proof {
                        assert forall|i: int| mid <= i < self@.len() implies before(
                            symbol@,
                            (#[trigger] self@[i]).symbol,
                        ) by {
                            if mid < i {
                                lemma_before_transitive(
                                    symbol@,
                                    self@[mid as int].symbol,
                                    self@[i].symbol,
                                );
                            }
                        }
                    }
                    hi = mid;
                },
            }
        }
        proof {
            assert forall|i: int| lo <= i < self@.len() implies !before(
                (#[trigger] self@[i]).symbol,
                symbol@,
            ) && self@[i].symbol != symbol@ by {
                lemma_before_irreflexive(symbol@);
                if before(self@[i].symbol, symbol@) {
                    lemma_before_transitive(symbol@, self@[i].symbol, symbol@);
                }
            }
            lemma_place_is(self@, symbol@, lo as int);
        }
        (lo, false)
    }

    /// The symbol at a place.
    pub fn symbol_at(&self, i: usize) -> (symbol: &str)
        requires
            self.wf(),
            i < self@.len(),
        ensures
            symbol@ == self@[i as int].symbol,
    {
        self.symbols[i].as_str()
    }

    /// The state at a place.
    pub fn state_at(&self, i: usize) -> (state: SymbolAgg)
        requires
            self.wf(),
            i < self@.len(),
        ensures
            state@ == self@[i as int].state,
    {
        self.states[i]
    }

    /// Puts another state for the symbol for which `find` gave `found`.
    pub fn put_at(&mut self, found: (usize, bool), symbol: &str, state: SymbolAgg)
        requires
            old(self).wf(),
            found.0 == place(old(self)@, symbol@),
            found.0 <= old(self)@.len(),
            found.1 == listed(old(self)@, symbol@),
        ensures
            final(self).wf(),
            final(self)@ == put(old(self)@, symbol@, state@),
    {
        proof {
            lemma_put_ascending(self@, symbol@, state@);
        }
        if found.1 {
            self.states.set(found.0, state);
        } else {
            self.symbols.insert(found.0, symbol.to_owned());
            self.states.insert(found.0, state);
        }
        assert(self@ =~= put(old(self)@, symbol@, state@));
    }
}

} // verus!
