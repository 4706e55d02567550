//! The kernel symbol table: a sorted snapshot from start address to symbol
//! name, searched for the nearest symbol at or below an address.

use vstd::prelude::*;

verus! {

/// One symbol of the kernel: the address at which it starts, and its name.
struct KernelSymbol {
    addr: u64,
    name: String,
}

/// A snapshot of the kernel's symbols, keyed by start address.
///
/// The table keeps its symbols in ascending order of address, one symbol per
/// address, so that the nearest symbol below an address is found by bisection.
pub struct KernelSymbolTable {
    symbols: Vec<KernelSymbol>,
}

/// The symbols are in strictly ascending order of address.
spec fn ascending(s: Seq<KernelSymbol>) -> bool {
    forall|i: int, j: int| 0 <= i < j < s.len() ==> s[i].addr < s[j].addr
}

/// Some symbol of `s` starts at `addr`.
spec fn starts_at(s: Seq<KernelSymbol>, addr: u64) -> bool {
    exists|i: int| 0 <= i < s.len() && s[i].addr == addr
}

/// The position in `s` of a symbol that starts at `addr`.
spec fn position(s: Seq<KernelSymbol>, addr: u64) -> int {
    choose|i: int| 0 <= i < s.len() && s[i].addr == addr
}

/// The symbols of `s` as a map from start address to name.
spec fn as_map(s: Seq<KernelSymbol>) -> Map<u64, Seq<char>> {
    Map::new(|addr: u64| starts_at(s, addr), |addr: u64| s[position(s, addr)].name@)
}

/// `key` is the greatest address in `m` that is not above `ip`.
pub open spec fn is_floor(m: Map<u64, Seq<char>>, ip: u64, key: u64) -> bool {
    &&& m.dom().contains(key)
    &&& key <= ip
    &&& forall|other: u64| m.dom().contains(other) && other <= ip ==> other <= key
}

/// Some address in `m` is not above `ip`.
pub open spec fn has_floor(m: Map<u64, Seq<char>>, ip: u64) -> bool {
    exists|key: u64| m.dom().contains(key) && key <= ip
}

/// The greatest address in `m` that is not above `ip`, where there is one.
pub open spec fn floor_key(m: Map<u64, Seq<char>>, ip: u64) -> u64 {
    choose|key: u64| is_floor(m, ip, key)
}

/// A map has at most one floor for an address.
pub proof fn lemma_floor_unique(m: Map<u64, Seq<char>>, ip: u64, key: u64)
    requires
        is_floor(m, ip, key),
    ensures
        has_floor(m, ip),
        floor_key(m, ip) == key,
{
    let chosen = floor_key(m, ip);
    assert(is_floor(m, ip, chosen));
}

proof fn lemma_as_map_at(s: Seq<KernelSymbol>, i: int)
    requires
        ascending(s),
        0 <= i < s.len(),
    ensures
        as_map(s).dom().contains(s[i].addr),
        as_map(s)[s[i].addr] == s[i].name@,
{
    assert(starts_at(s, s[i].addr));
    let j = position(s, s[i].addr);
    assert(0 <= j < s.len() && s[j].addr == s[i].addr);
    assert(j == i) by {
        if j < i {
            assert(s[j].addr < s[i].addr);
        } else if i < j {
            assert(s[i].addr < s[j].addr);
        }
    }
}

proof fn lemma_insert_new(s: Seq<KernelSymbol>, at: int, symbol: KernelSymbol)
    requires
        ascending(s),
        0 <= at <= s.len(),
        forall|i: int| 0 <= i < at ==> s[i].addr < symbol.addr,
        forall|i: int| at <= i < s.len() ==> s[i].addr > symbol.addr,
    ensures
        ascending(s.insert(at, symbol)),
        as_map(s.insert(at, symbol)) == as_map(s).insert(symbol.addr, symbol.name@),
{
    let t = s.insert(at, symbol);
    assert(ascending(t)) by {
        assert forall|i: int, j: int| 0 <= i < j < t.len() implies t[i].addr < t[j].addr by {
            let a = if i < at { i } else { i - 1 };
            let b = if j < at { j } else { j - 1 };
            if i != at && j != at {
                assert(t[i] == s[a] && t[j] == s[b]);
                assert(a < b);
            } else if i == at {
                assert(t[j] == s[b]);
            } else {
                assert(t[i] == s[a]);
            }
        }
    }
    let lhs = as_map(t);
    let rhs = as_map(s).insert(symbol.addr, symbol.name@);
    assert forall|addr: u64| lhs.dom().contains(addr) <==> rhs.dom().contains(addr) by {
        if starts_at(t, addr) {
            let i = position(t, addr);
            if i < at {
                assert(t[i] == s[i]);
                assert(starts_at(s, addr));
            } else if i > at {
                assert(t[i] == s[i - 1]);
                assert(starts_at(s, addr));
            }
        }
        if starts_at(s, addr) {
            let i = position(s, addr);
            let k = if i < at { i } else { i + 1 };
            assert(t[k] == s[i]);
            assert(starts_at(t, addr));
        }
        if addr == symbol.addr {
            assert(t[at] == symbol);
            assert(starts_at(t, addr));
        }
    }
    assert forall|addr: u64| lhs.dom().contains(addr) implies lhs[addr] == rhs[addr] by {
        let i = position(t, addr);
        lemma_as_map_at(t, i);
        if i < at {
            assert(t[i] == s[i]);
            lemma_as_map_at(s, i);
        } else if i > at {
            assert(t[i] == s[i - 1]);
            lemma_as_map_at(s, i - 1);
        } else {
            assert(t[i] == symbol);
        }
    }
    assert(lhs =~= rhs);
}

proof fn lemma_replace(s: Seq<KernelSymbol>, at: int, symbol: KernelSymbol)
    requires
        ascending(s),
        0 <= at < s.len(),
        s[at].addr == symbol.addr,
    ensures
        ascending(s.update(at, symbol)),
        as_map(s.update(at, symbol)) == as_map(s).insert(symbol.addr, symbol.name@),
{
    let t = s.update(at, symbol);
    assert(ascending(t)) by {
        assert forall|i: int, j: int| 0 <= i < j < t.len() implies t[i].addr < t[j].addr by {
            assert(t[i].addr == s[i].addr && t[j].addr == s[j].addr);
        }
    }
    let lhs = as_map(t);
    let rhs = as_map(s).insert(symbol.addr, symbol.name@);
    assert forall|addr: u64| lhs.dom().contains(addr) <==> rhs.dom().contains(addr) by {
        if starts_at(t, addr) {
            let i = position(t, addr);
            assert(t[i].addr == s[i].addr);
            assert(starts_at(s, addr));
        }
        if starts_at(s, addr) {
            let i = position(s, addr);
            assert(t[i].addr == s[i].addr);
            assert(starts_at(t, addr));
        }
        if addr == symbol.addr {
            assert(t[at] == symbol);
            assert(starts_at(t, addr));
        }
    }
    assert forall|addr: u64| lhs.dom().contains(addr) implies lhs[addr] == rhs[addr] by {
        let i = position(t, addr);
        lemma_as_map_at(t, i);
        if i != at {
            assert(t[i] == s[i]);
            lemma_as_map_at(s, i);
        }
    }
    assert(lhs =~= rhs);
}

proof fn lemma_as_map_len(s: Seq<KernelSymbol>)
    requires
        ascending(s),
    ensures
        as_map(s).dom().finite(),
        as_map(s).dom().len() == s.len(),
    decreases s.len(),
{
    if s.len() == 0 {
        assert(as_map(s).dom() =~= Set::<u64>::empty());
    } else {
        let t = s.drop_last();
        let last = s.last();
        lemma_as_map_len(t);
        assert(!starts_at(t, last.addr)) by {
            if starts_at(t, last.addr) {
                let i = position(t, last.addr);
                assert(s[i].addr < s[s.len() - 1].addr);
            }
        }
        assert forall|addr: u64|
            as_map(s).dom().contains(addr) <==> as_map(t).dom().insert(last.addr).contains(
                addr,
            ) by {
            if starts_at(s, addr) {
                let i = position(s, addr);
                if i < t.len() {
                    assert(t[i] == s[i]);
                    assert(starts_at(t, addr));
                }
            }
            if starts_at(t, addr) {
                let i = position(t, addr);
                assert(t[i] == s[i]);
                assert(starts_at(s, addr));
            }
            if addr == last.addr {
                assert(s[s.len() - 1].addr == addr);
                assert(starts_at(s, addr));
            }
        }
        assert(as_map(s).dom() =~= as_map(t).dom().insert(last.addr));
    }
}

impl View for KernelSymbolTable {
    type V = Map<u64, Seq<char>>;

    /// The table as a map from start address to symbol name.
    closed spec fn view(&self) -> Map<u64, Seq<char>> {
        as_map(self.symbols@)
    }
}

impl KernelSymbolTable {
    #[verifier::type_invariant]
    spec fn ordered(self) -> bool {
        ascending(self.symbols@)
    }

    /// A table without symbols.
    pub fn new() -> (table: Self)
        ensures
            table@ == Map::<u64, Seq<char>>::empty(),
    {
        let table = KernelSymbolTable { symbols: Vec::new() };
        assert(table@ =~= Map::<u64, Seq<char>>::empty());
        table
    }

    /// The number of symbols with a start address that is not above `ip`.
    fn rank(&self, ip: u64) -> (n: usize)
        ensures
            n <= self.symbols@.len(),
            forall|i: int| 0 <= i < n ==> self.symbols@[i].addr <= ip,
            forall|i: int| n <= i < self.symbols@.len() ==> self.symbols@[i].addr > ip,
    {
        proof {
            use_type_invariant(self);
        }
        let mut lo: usize = 0;
        let mut hi: usize = self.symbols.len();
        while lo < hi
            invariant
                lo <= hi <= self.symbols@.len(),
                ascending(self.symbols@),
                forall|i: int| 0 <= i < lo ==> self.symbols@[i].addr <= ip,
                forall|i: int| hi <= i < self.symbols@.len() ==> self.symbols@[i].addr > ip,
            decreases hi - lo,
        {
            let mid: usize = lo + (hi - lo) / 2;
            if self.symbols[mid].addr <= ip {
                lo = mid + 1;
            } else {
                hi = mid;
            }
        }
        lo
    }

    /// Records that the symbol `name` starts at `addr`. A symbol that the
    /// table already holds for that address is replaced.
    pub fn insert(&mut self, addr: u64, name: String)
        ensures
            final(self)@ == old(self)@.insert(addr, name@),
    {
        proof {
            use_type_invariant(&*self);
        }
        let n: usize = self.rank(addr);
        let symbol = KernelSymbol { addr, name };
        let mut symbols: Vec<KernelSymbol> = Vec::new();
        core::mem::swap(&mut self.symbols, &mut symbols);
        if n > 0 && symbols[n - 1].addr == addr {
            proof {
                lemma_replace(symbols@, n - 1, symbol);
            }
            symbols.set(n - 1, symbol);
        } else {
            proof {
                lemma_insert_new(symbols@, n as int, symbol);
            }
            symbols.insert(n, symbol);
        }
        core::mem::swap(&mut self.symbols, &mut symbols);
    }

    /// The nearest symbol at or below `ip`: its start address and its name.
    /// There is none where every symbol of the table starts above `ip`.
    pub fn floor(&self, ip: u64) -> (found: Option<(u64, &String)>)
        ensures
            found is Some <==> has_floor(self@, ip),
            found matches Some((addr, name)) ==> is_floor(self@, ip, addr) && name@ == self@[addr],
    {
        proof {
            use_type_invariant(self);
        }
        let n: usize = self.rank(ip);
        if n == 0 {
            assert(!has_floor(self@, ip)) by {
                if has_floor(self@, ip) {
                    let key = choose|key: u64| self@.dom().contains(key) && key <= ip;
                    let i = position(self.symbols@, key);
                    assert(self.symbols@[i].addr > ip);
                }
            }
            None
        } else {
            let symbol = &self.symbols[n - 1];
            proof {
                lemma_as_map_at(self.symbols@, n - 1);
                assert forall|other: u64| self@.dom().contains(other) && other <= ip implies other
                    <= symbol.addr by {
                    let i = position(self.symbols@, other);
                    if i >= n {
                        assert(self.symbols@[i].addr > ip);
                    } else if i < n - 1 {
                        assert(self.symbols@[i].addr < self.symbols@[n - 1].addr);
                    }
                }
                assert(is_floor(self@, ip, symbol.addr));
                assert(has_floor(self@, ip));
            }
            Some((symbol.addr, &symbol.name))
        }
    }

    /// The number of symbols in the table.
    pub fn len(&self) -> (n: usize)
        ensures
            n == self@.dom().len(),
    {
        proof {
            use_type_invariant(self);
            lemma_as_map_len(self.symbols@);
        }
        self.symbols.len()
    }
}

} // verus!
