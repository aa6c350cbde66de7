//! The tables of a database, by name.

use vstd::prelude::*;

use crate::page::BtreeHeader;
use crate::page::PageStore;
use crate::page::Pair;
use crate::page::StoreModel;
use crate::search::check_below;
use crate::tree::lemma_records_below;
use crate::tree::lemma_records_below_within;

verus! {

/// The kind of a table.
#[derive(Clone, Copy, PartialEq, Eq, Structural, Debug)]
pub enum TableType {
    /// One value for each key.
    Normal,
    /// Several values for each key.
    Multimap,
}

/// A table: its types, the root of its tree, and the number of its records.
#[derive(Debug)]
pub struct TableEntry {
    pub name: String,
    pub table_type: TableType,
    pub key_type: String,
    pub value_type: String,
    pub root: Option<BtreeHeader>,
    pub length: u64,
}

/// What a [`TableEntry`] says of its table.
#[verifier::ext_equal]
pub struct TableModel {
    pub table_type: TableType,
    pub key_type: Seq<char>,
    pub value_type: Seq<char>,
    pub root: Option<BtreeHeader>,
    pub length: u64,
}

impl View for TableEntry {
    type V = TableModel;

    open spec fn view(&self) -> TableModel {
        TableModel {
            table_type: self.table_type,
            key_type: self.key_type@,
            value_type: self.value_type@,
            root: self.root,
            length: self.length,
        }
    }
}

impl TableEntry {
    fn copy(&self) -> (copy: TableEntry)
        ensures
            copy.name@ == self.name@,
            copy@ == self@,
    {
        TableEntry {
            name: self.name.clone(),
            table_type: self.table_type,
            key_type: self.key_type.clone(),
            value_type: self.value_type.clone(),
            root: self.root,
            length: self.length,
        }
    }

    /// Tells whether the table is stored in the given pages.
    fn is_stored_in(&self, mem: &PageStore) -> (stored: bool)
        ensures
            stored == self@.is_stored_in(mem@),
    {
        match self.root {
            Some(header) => {
                if header.length != self.length {
                    return false;
                }
                match check_below(mem, header.root) {
                    Some(summary) => {
                        proof {
                            lemma_records_below(mem@, header.root, summary.height as nat);
                        }
                        summary.length == self.length
                    },
                    None => false,
                }
            },
            None => self.length == 0,
        }
    }
}

impl TableModel {
    /// The records of the table.
    pub open spec fn records(self, store: StoreModel) -> Seq<Pair> {
        match self.root {
            Some(header) => store.records_below(header.root),
            None => Seq::empty(),
        }
    }

    /// The pages of the table form a tree with as many records as the table counts.
    pub open spec fn is_stored_in(self, store: StoreModel) -> bool {
        &&& self.length == self.records(store).len()
        &&& match self.root {
            Some(header) => {
                &&& header.length == self.length
                &&& store.has_tree(header.root)
            },
            None => true,
        }
    }
}

/// All tables are stored in `store`.
pub open spec fn all_stored(tables: Map<Seq<char>, TableModel>, store: StoreModel) -> bool {
    forall|name: Seq<char>|
        tables.contains_key(name) ==> (#[trigger] tables[name]).is_stored_in(store)
}

/// Tables stay stored as pages are added.
pub proof fn lemma_all_stored_within(
    tables: Map<Seq<char>, TableModel>,
    a: StoreModel,
    b: StoreModel,
)
    requires
        all_stored(tables, a),
        a.within(b),
    ensures
        all_stored(tables, b),
        forall|name: Seq<char>|
            tables.contains_key(name) ==> (#[trigger] tables[name]).records(b)
                == tables[name].records(a),
{
    assert forall|name: Seq<char>| tables.contains_key(name) implies (
    #[trigger] tables[name]).is_stored_in(b) && tables[name].records(b) == tables[name].records(
        a,
    ) by {
        if let Some(header) = tables[name].root {
            lemma_records_below_within(a, b, header.root);
        }
    }
}

/// The tables of a list of entries; a later entry of the same name prevails.
pub open spec fn tables_of(entries: Seq<TableEntry>) -> Map<Seq<char>, TableModel>
    decreases entries.len(),
{
    if entries.len() == 0 {
        Map::empty()
    } else {
        tables_of(entries.drop_last()).insert(entries.last().name@, entries.last()@)
    }
}

/// A table that no entry from `i` on names is what the entries before say.
proof fn lemma_tables_of_prefix(entries: Seq<TableEntry>, i: int, name: Seq<char>)
    requires
        0 <= i <= entries.len(),
        forall|j: int| i <= j < entries.len() ==> (#[trigger] entries[j]).name@ != name,
    ensures
        tables_of(entries).contains_key(name) == tables_of(entries.take(i)).contains_key(name),
        tables_of(entries).contains_key(name) ==> tables_of(entries)[name] == tables_of(
            entries.take(i),
        )[name],
    decreases entries.len() - i,
{
    if i == entries.len() {
        assert(entries.take(i) =~= entries);
    } else {
        let shorter = entries.drop_last();
        assert(shorter.take(i) =~= entries.take(i));
        assert(entries[entries.len() - 1].name@ != name);
        lemma_tables_of_prefix(shorter, i, name);
    }
}

/// Replacing the last entry of a name replaces the table of that name.
proof fn lemma_tables_of_update(entries: Seq<TableEntry>, i: int, entry: TableEntry)
    requires
        0 <= i < entries.len(),
        entries[i].name@ == entry.name@,
        forall|j: int| i < j < entries.len() ==> (#[trigger] entries[j]).name@ != entry.name@,
    ensures
        tables_of(entries.update(i, entry)) == tables_of(entries).insert(entry.name@, entry@),
    decreases entries.len(),
{
    let last = entries.len() - 1;
    if i == last {
        assert(entries.update(i, entry).drop_last() =~= entries.drop_last());
        assert(tables_of(entries.update(i, entry)) =~= tables_of(entries).insert(
            entry.name@,
            entry@,
        ));
    } else {
        assert(entries.update(i, entry).drop_last() =~= entries.drop_last().update(i, entry));
        lemma_tables_of_update(entries.drop_last(), i, entry);
        assert(entries[last].name@ != entry.name@);
        assert(tables_of(entries.update(i, entry)) =~= tables_of(entries).insert(
            entry.name@,
            entry@,
        ));
    }
}

/// Tables by name.
pub struct TableCatalog {
    entries: Vec<TableEntry>,
}

impl View for TableCatalog {
    type V = Map<Seq<char>, TableModel>;

    closed spec fn view(&self) -> Map<Seq<char>, TableModel> {
        tables_of(self.entries@)
    }
}

impl TableCatalog {
    /// No tables.
    pub fn new() -> (catalog: TableCatalog)
        ensures
            catalog@ == Map::<Seq<char>, TableModel>::empty(),
    {
        TableCatalog { entries: Vec::new() }
    }

    /// The position of the last entry of the given name.
    fn position(&self, name: &String) -> (position: Option<usize>)
        ensures
            match position {
                Some(i) => {
                    &&& i < self.entries@.len()
                    &&& self.entries@[i as int].name@ == name@
                    &&& forall|j: int|
                        i < j < self.entries@.len() ==> (#[trigger] self.entries@[j]).name@ != name@
                    &&& self@.contains_key(name@)
                    &&& self@[name@] == self.entries@[i as int]@
                },
                None => !self@.contains_key(name@),
            },
    {
        let mut i: usize = self.entries.len();
        while i > 0
            invariant
                i <= self.entries@.len(),
                forall|j: int|
                    i <= j < self.entries@.len() ==> (#[trigger] self.entries@[j]).name@ != name@,
            decreases i,
        {
            i = i - 1;
            if self.entries[i].name == *name {
                proof {
                    lemma_tables_of_prefix(self.entries@, i + 1, name@);
                    assert(self.entries@.take(i + 1).drop_last() =~= self.entries@.take(i as int));
                }
                return Some(i);
            }
        }
        proof {
            lemma_tables_of_prefix(self.entries@, 0, name@);
            assert(self.entries@.take(0) =~= Seq::empty());
        }
        None
    }

    /// The table of the given name.
    pub fn get(&self, name: &String) -> (entry: Option<&TableEntry>)
        ensures
            match entry {
                Some(entry) => {
                    &&& self@.contains_key(name@)
                    &&& self@[name@] == entry@
                    &&& entry.name@ == name@
                },
                None => !self@.contains_key(name@),
            },
    {
        match self.position(name) {
            Some(i) => Some(&self.entries[i]),
            None => None,
        }
    }

    /// Adds a table, or replaces the table of the same name.
    pub fn put(&mut self, entry: TableEntry)
        ensures
            final(self)@ == old(self)@.insert(entry.name@, entry@),
    {
        match self.position(&entry.name) {
            Some(i) => {
                proof {
                    lemma_tables_of_update(self.entries@, i as int, entry);
                }
                self.entries[i] = entry;
            },
            None => {
                self.entries.push(entry);
                assert(self.entries@.drop_last() =~= old(self).entries@);
            },
        }
    }

    /// Adds all tables of another catalog, replacing those of the same names.
    pub fn put_all(&mut self, other: &TableCatalog)
        ensures
            final(self)@ == old(self)@.union_prefer_right(other@),
    {
        let mut i: usize = 0;
        assert(other.entries@.take(0) =~= Seq::empty());
        assert(self@ =~= old(self)@.union_prefer_right(tables_of(other.entries@.take(0))));
        while i < other.entries.len()
            invariant
                i <= other.entries@.len(),
                self@ == old(self)@.union_prefer_right(tables_of(other.entries@.take(i as int))),
            decreases other.entries@.len() - i,
        {
            let ghost before = self@;
            self.put(other.entries[i].copy());
            i = i + 1;
            assert(other.entries@.take(i as int).drop_last() =~= other.entries@.take(i - 1));
            assert(self@ =~= old(self)@.union_prefer_right(
                tables_of(other.entries@.take(i as int)),
            ));
        }
        assert(other.entries@.take(i as int) =~= other.entries@);
    }

    /// A copy of the catalog.
    pub fn copy(&self) -> (copy: TableCatalog)
        ensures
            copy@ == self@,
    {
        let mut copy = TableCatalog::new();
        copy.put_all(self);
        assert(copy@ =~= self@);
        copy
    }

    /// The tables of a list of entries; a later entry of the same name prevails.
    pub fn from_entries(entries: Vec<TableEntry>) -> (catalog: TableCatalog)
        ensures
            catalog@ == tables_of(entries@),
    {
        TableCatalog { entries }
    }

    /// The entries of the catalog.
    pub fn into_entries(self) -> (entries: Vec<TableEntry>)
        ensures
            tables_of(entries@) == self@,
    {
        self.entries
    }

    /// Tells whether all tables are stored in the given pages.
    pub fn is_stored_in(&self, mem: &PageStore) -> (stored: bool)
        ensures
            stored == all_stored(self@, mem@),
    {
        let mut i: usize = 0;
        while i < self.entries.len()
            invariant
                i <= self.entries@.len(),
                forall|j: int|
                    0 <= j < i && is_last_of_name(self.entries@, j) ==> (
                    #[trigger] self.entries@[j])@.is_stored_in(mem@),
            decreases self.entries@.len() - i,
        {
            let prevails: bool = match self.position(&self.entries[i].name) {
                Some(position) => position == i,
                None => false,
            };
            proof {
                if is_last_of_name(self.entries@, i as int) {
                    let name = self.entries@[i as int].name@;
                    lemma_tables_of_prefix(self.entries@, i + 1, name);
                    assert(self.entries@.take(i + 1).last() == self.entries@[i as int]);
                    assert(prevails);
                }
            }
            if prevails && !self.entries[i].is_stored_in(mem) {
                assert(!all_stored(self@, mem@)) by {
                    let name = self.entries@[i as int].name@;
                    assert(self@.contains_key(name));
                    assert(self@[name] == self.entries@[i as int]@);
                }
                return false;
            }
            i = i + 1;
        }
        proof {
            assert forall|name: Seq<char>| self@.contains_key(name) implies (
            #[trigger] self@[name]).is_stored_in(mem@) by {
                let j = lemma_tables_of_entry(self.entries@, name);
                assert(self.entries@[j]@.is_stored_in(mem@));
            }
        }
        true
    }
}

/// No later entry has the name of entry `i`.
spec fn is_last_of_name(entries: Seq<TableEntry>, i: int) -> bool {
    forall|j: int|
        i < j < entries.len() ==> (#[trigger] entries[j]).name@ != entries[i].name@
}

/// The entry that says what a table is.
proof fn lemma_tables_of_entry(entries: Seq<TableEntry>, name: Seq<char>) -> (i: int)
    requires
        tables_of(entries).contains_key(name),
    ensures
        0 <= i < entries.len(),
        entries[i].name@ == name,
        is_last_of_name(entries, i),
        tables_of(entries)[name] == entries[i]@,
    decreases entries.len(),
{
    if entries.last().name@ == name {
        entries.len() - 1
    } else {
        let i = lemma_tables_of_entry(entries.drop_last(), name);
        assert forall|j: int| i < j < entries.len() implies (#[trigger] entries[j]).name@
            != entries[i].name@ by {
            if j < entries.len() - 1 {
                assert(entries.drop_last()[j].name@ != entries.drop_last()[i].name@);
            }
        }
        i
    }
}

/// A table without a root has no records. A table with a root is stored if the pages below the root
/// form a tree with as many records as the table and its root count.
pub proof fn law_stored_table_counts_its_records(table: TableModel, store: StoreModel)
    ensures
        table.root is None ==> (table.is_stored_in(store) <==> table.length == 0)
            && table.records(store).len() == 0,
        table.root matches Some(header) ==> {
            &&& table.records(store) == store.records_below(header.root)
            &&& table.is_stored_in(store) <==> store.has_tree(header.root) && header.length
                == table.length && store.records_below(header.root).len() == table.length
        },
{
}

/// Tables are stored if each of them is.
pub proof fn law_tables_are_stored_one_by_one(
    tables: Map<Seq<char>, TableModel>,
    store: StoreModel,
    name: Seq<char>,
    table: TableModel,
)
    ensures
        all_stored(Map::empty(), store),
        all_stored(tables, store) && tables.contains_key(name) ==> tables[name].is_stored_in(
            store,
        ),
        all_stored(tables, store) && table.is_stored_in(store) ==> all_stored(
            tables.insert(name, table),
            store,
        ),
{
}

/// A list of entries says of each name what its last entry says.
pub proof fn law_last_entry_prevails(entries: Seq<TableEntry>, entry: TableEntry, name: Seq<char>)
    ensures
        tables_of(Seq::empty()) == Map::<Seq<char>, TableModel>::empty(),
        ({
            let tables = tables_of(entries.push(entry));
            &&& tables.contains_key(entry.name@)
            &&& tables[entry.name@].table_type == entry.table_type
            &&& tables[entry.name@].key_type == entry.key_type@
            &&& tables[entry.name@].value_type == entry.value_type@
            &&& tables[entry.name@].root == entry.root
            &&& tables[entry.name@].length == entry.length
            &&& name != entry.name@ ==> (tables.contains_key(name) <==> tables_of(
                entries,
            ).contains_key(name))
            &&& name != entry.name@ && tables.contains_key(name) ==> tables[name] == tables_of(
                entries,
            )[name]
        }),
{
    assert(entries.push(entry).drop_last() =~= entries);
}

} // verus!
