//! The table registry owned by the top-level store.

use vstd::prelude::*;

use crate::table::Table;

verus! {

/// An explicit registry of tables, each reached by name.
pub struct CrabStore {
    pub tables: Vec<Table>,
}

impl CrabStore {
    pub open spec fn wf(self) -> bool {
        forall|i: int| 0 <= i < self.tables@.len() ==> (#[trigger] self.tables@[i]).wf()
    }

    /// An empty store.
    pub fn new() -> (r: Self)
        ensures
            r.wf(),
            r.tables@.len() == 0,
    {
        CrabStore { tables: Vec::new() }
    }

    /// Create a table and register it under its name.
    pub fn create_table(&mut self, name: String, num_columns: usize, key_index: usize)
        requires
            old(self).wf(),
            1 <= num_columns <= 62,
            key_index < num_columns,
        ensures
            final(self).wf(),
            final(self).tables@.len() == old(self).tables@.len() + 1,
            final(self).tables@[old(self).tables@.len() as int].name == name,
            final(self).tables@[old(self).tables@.len() as int].num_columns == num_columns,
            final(self).tables@[old(self).tables@.len() as int].next_rid == 0,
            forall|i: int|
                0 <= i < old(self).tables@.len() ==> #[trigger] final(self).tables@[i] == old(
                    self,
                ).tables@[i],
    {
        let table = Table::new(name, num_columns, key_index);
        self.tables.push(table);
    }

    /// Drop the first table registered under `name`; `false` exactly when
    /// none is.
    pub fn drop_table(&mut self, name: &String) -> (r: bool)
        requires
            old(self).wf(),
        ensures
            final(self).wf(),
            r <==> (exists|i: int|
                0 <= i < old(self).tables@.len() && (#[trigger] old(self).tables@[i]).name@
                    == name@),
            !r ==> final(self).tables@ == old(self).tables@,
            r ==> exists|i: int|
                {
                    &&& 0 <= i < old(self).tables@.len()
                    &&& (#[trigger] old(self).tables@[i]).name@ == name@
                    &&& (forall|j: int|
                        0 <= j < i ==> old(self).tables@[j].name@ != name@)
                    &&& final(self).tables@ == old(self).tables@.remove(i)
                },
    {
        let n = self.tables.len();
        let mut i: usize = 0;
        while i < n
            invariant
                i <= n,
                n == self.tables@.len(),
                self.wf(),
                self.tables@ == old(self).tables@,
                forall|j: int| 0 <= j < i ==> (#[trigger] self.tables@[j]).name@ != name@,
            decreases n - i,
        {
            if self.tables[i].name == *name {
                self.tables.remove(i);
                return true;
            }
            i += 1;
        }
        false
    }

    /// The first table registered under `name`; `None` exactly when no
    /// table bears it.
    pub fn get_table(&self, name: &String) -> (r: Option<&Table>)
        requires
            self.wf(),
        ensures
            r is Some <==> (exists|i: int|
                0 <= i < self.tables@.len() && (#[trigger] self.tables@[i]).name@ == name@),
            r is Some ==> r->0.wf() && r->0.name@ == name@,
            r is Some ==> exists|i: int|
                {
                    &&& 0 <= i < self.tables@.len()
                    &&& *r->0 == (#[trigger] self.tables@[i])
                    &&& self.tables@[i].name@ == name@
                    &&& (forall|j: int| 0 <= j < i ==> self.tables@[j].name@ != name@)
                },
    {
        let n = self.tables.len();
        let mut i: usize = 0;
        while i < n
            invariant
                i <= n,
                n == self.tables@.len(),
                self.wf(),
                forall|j: int| 0 <= j < i ==> (#[trigger] self.tables@[j]).name@ != name@,
            decreases n - i,
        {
            if self.tables[i].name == *name {
                return Some(&self.tables[i]);
            }
            i += 1;
        }
        None
    }

    /// Exclusive access to the first table registered under `name`; `None`
    /// exactly when no table bears it.
    pub fn get_table_mut(&mut self, name: &String) -> (r: Option<&mut Table>)
        requires
            old(self).wf(),
        ensures
            r is Some <==> (exists|i: int|
                0 <= i < old(self).tables@.len() && (#[trigger] old(self).tables@[i]).name@
                    == name@),
            match r {
                Some(t) => {
                    &&& t.wf()
                    &&& t.name@ == name@
                    &&& exists|i: int|
                        {
                            &&& 0 <= i < old(self).tables@.len()
                            &&& *t == (#[trigger] old(self).tables@[i])
                            &&& (forall|j: int|
                                0 <= j < i ==> old(self).tables@[j].name@ != name@)
                            &&& final(self).tables@ == old(self).tables@.update(i, *final(t))
                        }
                },
                None => *final(self) == *old(self),
            },
    {
        let n = self.tables.len();
        let mut i: usize = 0;
        while i < n
            invariant
                i <= n,
                n == self.tables@.len(),
                self.wf(),
                *self == *old(self),
                forall|j: int| 0 <= j < i ==> (#[trigger] self.tables@[j]).name@ != name@,
            decreases n - i,
        {
            if self.tables[i].name == *name {
                let t: &mut Table = &mut self.tables[i];
                proof {
                    assert(*t == old(self).tables@[i as int]);
                    assert(after_borrow(self).tables@ == old(self).tables@.update(
                        i as int,
                        *final(t),
                    ));
                }
                return Some(t);
            }
            i += 1;
        }
        None
    }
}

} // verus!
