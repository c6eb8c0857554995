//! A symbol table: a mapping from symbol name to absolute virtual address.
//! Later insertions overwrite earlier ones, so names are unique.

use vstd::prelude::*;

verus! {

/// One resolved symbol: a name and its absolute address in the target process.
#[derive(Debug)]
pub struct SymbolEntry {
    pub name: String,
    pub addr: u64,
}

/// The mapping denoted by a sequence of entries, later entries winning.
pub open spec fn table_map(s: Seq<SymbolEntry>) -> Map<Seq<char>, u64>
    decreases s.len(),
{
    if s.len() == 0 {
        Map::empty()
    } else {
        table_map(s.drop_last()).insert(s.last().name@, s.last().addr)
    }
}

/// No two entries share a name.
pub open spec fn unique_names(s: Seq<SymbolEntry>) -> bool {
    forall|i: int, j: int| 0 <= i < j < s.len() ==> s[i].name@ != s[j].name@
}

/// A name is in the mapping exactly when some entry carries it.
pub proof fn lemma_table_map_dom(s: Seq<SymbolEntry>, n: Seq<char>)
    ensures
        table_map(s).dom().contains(n) <==> exists|i: int| 0 <= i < s.len() && s[i].name@ == n,
    decreases s.len(),
{
    if s.len() > 0 {
        lemma_table_map_dom(s.drop_last(), n);
        if s.last().name@ == n {
            assert(s[s.len() - 1].name@ == n);
        } else if exists|i: int| 0 <= i < s.len() && s[i].name@ == n {
            let i = choose|i: int| 0 <= i < s.len() && s[i].name@ == n;
            assert(s.drop_last()[i] == s[i]);
        }
    }
}

/// With unique names, the entry carrying a name gives its mapped address.
pub proof fn lemma_table_map_at(s: Seq<SymbolEntry>, i: int)
    requires
        unique_names(s),
        0 <= i < s.len(),
    ensures
        table_map(s).dom().contains(s[i].name@),
        table_map(s)[s[i].name@] == s[i].addr,
    decreases s.len(),
{
    lemma_table_map_dom(s, s[i].name@);
    if i < s.len() - 1 {
        assert(s.drop_last()[i] == s[i]);
        lemma_table_map_at(s.drop_last(), i);
        assert(s.last().name@ != s[i].name@);
    }
}

/// Removing the entry that carries a name removes that name from the mapping.
proof fn lemma_table_map_remove(s: Seq<SymbolEntry>, i: int)
    requires
        unique_names(s),
        0 <= i < s.len(),
    ensures
        table_map(s.remove(i)) =~= table_map(s).remove(s[i].name@),
    decreases s.len(),
{
    lemma_table_map_dom(s.drop_last(), s[i].name@);
    if i == s.len() - 1 {
        assert(s.remove(i) =~= s.drop_last());
        assert(!table_map(s.drop_last()).dom().contains(s[i].name@));
        assert(table_map(s.drop_last()) =~= table_map(s.drop_last()).insert(
            s.last().name@,
            s.last().addr,
        ).remove(s.last().name@));
    } else {
        assert(s.remove(i).drop_last() =~= s.drop_last().remove(i));
        assert(s.remove(i).last() == s.last());
        lemma_table_map_remove(s.drop_last(), i);
        assert(s.drop_last()[i] == s[i]);
        assert(table_map(s.remove(i)) =~= table_map(s.drop_last().remove(i)).insert(
            s.last().name@,
            s.last().addr,
        ));
        assert(table_map(s.drop_last().remove(i)).insert(s.last().name@, s.last().addr) =~= table_map(
            s,
        ).remove(s[i].name@));
    }
}

/// A symbol table with unique names; its view is the name-to-address mapping.
#[derive(Debug)]
pub struct SymbolTable {
    entries: Vec<SymbolEntry>,
}

impl View for SymbolTable {
    type V = Map<Seq<char>, u64>;

    closed spec fn view(&self) -> Map<Seq<char>, u64> {
        table_map(self.entries@)
    }
}

impl SymbolTable {
    /// The table's entries are well formed: no name occurs twice.
    pub closed spec fn wf(&self) -> bool {
        unique_names(self.entries@)
    }

    /// How many symbols the table holds.
    pub closed spec fn spec_len(&self) -> nat {
        self.entries@.len()
    }

    pub fn new() -> (r: SymbolTable)
        ensures
            r.wf(),
            r@ =~= Map::<Seq<char>, u64>::empty(),
            r.spec_len() == 0,
    {
        SymbolTable { entries: Vec::new() }
    }

    pub fn len(&self) -> (r: usize)
        ensures
            r == self.spec_len(),
    {
        self.entries.len()
    }

    /// Insert a symbol, overwriting any earlier entry of the same name.
    #[verifier::loop_isolation(false)]
    pub fn insert(&mut self, name: String, addr: u64)
        requires
            old(self).wf(),
        ensures
            final(self).wf(),
            final(self)@ =~= old(self)@.insert(name@, addr),
    {
        let ghost s0 = self.entries@;
        let mut i: usize = 0;
        let n = self.entries.len();
        while i < n
            invariant
                n == self.entries@.len(),
                i <= n,
                self.entries@ == s0,
                unique_names(s0),
                forall|j: int| 0 <= j < i ==> s0[j].name@ != name@,
            decreases n - i,
        {
            if self.entries[i].name.eq(&name) {
                proof {
                    lemma_table_map_remove(s0, i as int);
                }
                self.entries.remove(i);
                proof {
                    assert(forall|j: int|
                        0 <= j < s0.remove(i as int).len() ==> s0.remove(i as int)[j].name@
                            != name@);
                }
                self.entries.push(SymbolEntry { name, addr });
                proof {
                    let s1 = s0.remove(i as int);
                    assert(self.entries@.drop_last() =~= s1);
                    assert(table_map(self.entries@) == table_map(s1).insert(
                        self.entries@.last().name@,
                        self.entries@.last().addr,
                    ));
                    assert(table_map(s1).insert(name@, addr) =~= table_map(s0).insert(
                        name@,
                        addr,
                    ));
                }
                return ;
            }
            i = i + 1;
        }
        self.entries.push(SymbolEntry { name, addr });
        proof {
            assert(self.entries@.drop_last() =~= s0);
        }
    }

    /// Look a name up; `Some` exactly when the table holds it.
    #[verifier::loop_isolation(false)]
    pub fn get(&self, name: &String) -> (r: Option<u64>)
        requires
            self.wf(),
        ensures
            r matches Some(a) ==> self@.dom().contains(name@) && self@[name@] == a,
            r is None ==> !self@.dom().contains(name@),
    {
        let mut i: usize = 0;
        let n = self.entries.len();
        while i < n
            invariant
                self.wf(),
                n == self.entries@.len(),
                i <= n,
                forall|j: int| 0 <= j < i ==> self.entries@[j].name@ != name@,
            decreases n - i,
        {
            if self.entries[i].name.eq(name) {
                proof {
                    lemma_table_map_at(self.entries@, i as int);
                }
                return Some(self.entries[i].addr);
            }
            i = i + 1;
        }
        proof {
            lemma_table_map_dom(self.entries@, name@);
        }
        None
    }

    /// The entries, for callers that walk the table; the denoted mapping is
    /// the table's view and the names are unique.
    pub fn entries(&self) -> (r: &Vec<SymbolEntry>)
        requires
            self.wf(),
        ensures
            table_map(r@) == self@,
            unique_names(r@),
            r@.len() == self.spec_len(),
    {
        &self.entries
    }
}

} // verus!
