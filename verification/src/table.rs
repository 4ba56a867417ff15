//! A table of records in key order, held in memory: the storage operations
//! that the handlers rely on.

use crate::common::{is_not_found, StorageError};
use crate::model::{
    holds, inserted, lemma_from_key_is_suffix, lemma_holds_at_rank, lemma_insert_keeps_order,
    lemma_rank_at_split, lemma_remove_keeps_order, lemma_replace_keeps_order, lookup, ordered, page,
    rank, removed, replaced,
};
use vstd::prelude::*;

verus! {

/// A record that a table can hold: it has an identity key and can be copied.
pub trait Record: Sized {
    /// The identity key.
    spec fn key(&self) -> int;

    /// The identity key as a number that a table can compare.
    fn key_of(&self) -> (k: i64)
        ensures
            k == self.key(),
    ;

    /// A copy that is equal in every field.
    fn duplicate(&self) -> (copy: Self)
        ensures
            copy == *self,
    ;
}

/// A table of records, kept in ascending key order.
pub struct Table<R: Record> {
    rows: Vec<R>,
}

impl<R: Record> View for Table<R> {
    type V = Seq<R>;

    /// The rows of the table, in key order.
    closed spec fn view(&self) -> Seq<R> {
        self.rows@
    }
}

impl<R: Record> Table<R> {
    /// What holds of every table: its rows stand in ascending key order.
    #[verifier::type_invariant]
    pub open spec fn in_key_order(&self) -> bool {
        ordered(self@)
    }

    /// An empty table.
    pub fn new() -> (table: Self)
        ensures
            table@ == Seq::<R>::empty(),
    {
        Table { rows: Vec::new() }
    }

    /// The number of rows.
    pub fn len(&self) -> (n: usize)
        ensures
            n == self@.len(),
    {
        proof {
            use_type_invariant(self);
        }
        self.rows.len()
    }

    /// A copy of all rows, in key order.
    pub fn rows(&self) -> (all: Vec<R>)
        ensures
            all@ == self@,
    {
        proof {
            use_type_invariant(self);
        }
        let mut all: Vec<R> = Vec::new();
        let n: usize = self.rows.len();
        let mut i: usize = 0;
        while i < n
            invariant
                i <= n,
                n == self.rows.len(),
                all@ == self.rows@.take(i as int),
            decreases n - i,
        {
            all.push(self.rows[i].duplicate());
            i += 1;
            assert(all@ =~= self.rows@.take(i as int));
        }
        assert(self.rows@.take(n as int) =~= self.rows@);
        all
    }

    /// Moves the rows out and leaves the table empty, so that they can be
    /// changed and put back in one step.
    fn take_rows(&mut self) -> (rows: Vec<R>)
        ensures
            rows == old(self).rows,
            final(self).rows@ == Seq::<R>::empty(),
    {
        let mut rows: Vec<R> = Vec::new();
        std::mem::swap(&mut self.rows, &mut rows);
        rows
    }

    /// The place of `key` in the key order, found by halving.
    fn locate(&self, key: i64) -> (at: usize)
        ensures
            at == rank(self@, key as int),
            at <= self@.len(),
            ordered(self@),
            holds(self@, key as int) <==> (at < self@.len() && self@[at as int].key() == key),
    {
        proof {
            use_type_invariant(self);
        }
        let mut lo: usize = 0;
        let mut hi: usize = self.rows.len();
        while lo < hi
            invariant
                lo <= hi <= self.rows.len(),
                ordered(self.rows@),
                forall|j: int| 0 <= j < lo ==> self.rows@[j].key() < key,
                forall|j: int| hi <= j < self.rows.len() ==> self.rows@[j].key() >= key,
            decreases hi - lo,
        {
            let mid: usize = lo + (hi - lo) / 2;
            if self.rows[mid].key_of() < key {
                lo = mid + 1;
            } else {
                hi = mid;
            }
        }
        proof {
            lemma_rank_at_split(self.rows@, key as int, lo as int);
            lemma_holds_at_rank(self.rows@, key as int);
        }
        lo
    }

    /// Adds the row unless a row with its key is there already. Returns the
    /// row that was added, or `None` where it was skipped.
    pub fn insert(&mut self, row: R) -> (added: Option<R>)
        ensures
            final(self)@ == inserted(old(self)@, row),
            added == if holds(old(self)@, row.key()) { None } else { Some(row) },
            ordered(final(self)@),
    {
        let key: i64 = row.key_of();
        let at: usize = self.locate(key);
        if at < self.rows.len() && self.rows[at].key_of() == key {
            None
        } else {
            let copy = row.duplicate();
            proof {
                lemma_insert_keeps_order(self.rows@, row);
            }
            let mut rows = self.take_rows();
            rows.insert(at, row);
            self.rows = rows;
            Some(copy)
        }
    }

    /// The row with the key, or the not-found error.
    pub fn find(&self, key: i64) -> (found: Result<R, StorageError>)
        ensures
            match lookup(self@, key as int) {
                Some(row) => found == Ok::<R, StorageError>(row),
                None => found is Err && is_not_found(found->Err_0),
            },
    {
        let at: usize = self.locate(key);
        if at < self.rows.len() && self.rows[at].key_of() == key {
            Ok(self.rows[at].duplicate())
        } else {
            Err(StorageError::not_found())
        }
    }

    /// Replaces the row that has `row`'s key by `row` and returns the row as
    /// now stored. Where no row has that key, the table stays as it is and
    /// the not-found error comes back.
    pub fn replace(&mut self, row: R) -> (stored: Result<R, StorageError>)
        ensures
            final(self)@ == replaced(old(self)@, row),
            match stored {
                Ok(now) => holds(old(self)@, row.key()) && now == row,
                Err(err) => !holds(old(self)@, row.key()) && is_not_found(err),
            },
            ordered(final(self)@),
    {
        let key: i64 = row.key_of();
        let at: usize = self.locate(key);
        if at < self.rows.len() && self.rows[at].key_of() == key {
            let copy = row.duplicate();
            proof {
                lemma_replace_keeps_order(self.rows@, row);
            }
            let mut rows = self.take_rows();
            rows.set(at, row);
            self.rows = rows;
            Ok(copy)
        } else {
            Err(StorageError::not_found())
        }
    }

    /// Takes out the row with the key and returns it. Where no row has the
    /// key, the table stays as it is and the not-found error comes back.
    pub fn remove(&mut self, key: i64) -> (taken: Result<R, StorageError>)
        ensures
            final(self)@ == removed(old(self)@, key as int),
            match lookup(old(self)@, key as int) {
                Some(row) => taken == Ok::<R, StorageError>(row),
                None => taken is Err && is_not_found(taken->Err_0),
            },
            ordered(final(self)@),
    {
        let at: usize = self.locate(key);
        if at < self.rows.len() && self.rows[at].key_of() == key {
            proof {
                lemma_remove_keeps_order(self.rows@, key as int);
            }
            let mut rows = self.take_rows();
            let row = rows.remove(at);
            self.rows = rows;
            Ok(row)
        } else {
            Err(StorageError::not_found())
        }
    }

    /// One page of the rows whose key is `start` or above, in ascending key
    /// order: `offset` rows are skipped, at most `limit` rows returned.
    pub fn select(&self, start: i64, offset: usize, limit: usize) -> (found: Vec<R>)
        ensures
            found@ == page(self@, start as int, offset as nat, limit as nat),
    {
        let n: usize = self.rows.len();
        let from: usize = self.locate(start);
        let lo: usize = if offset < n - from { from + offset } else { n };
        let hi: usize = if limit < n - lo { lo + limit } else { n };
        let mut found: Vec<R> = Vec::new();
        let mut i: usize = lo;
        while i < hi
            invariant
                lo <= i <= hi <= n,
                n == self.rows.len(),
                found@ == self.rows@.subrange(lo as int, i as int),
            decreases hi - i,
        {
            found.push(self.rows[i].duplicate());
            i += 1;
            assert(found@ =~= self.rows@.subrange(lo as int, i as int));
        }
        proof {
            lemma_from_key_is_suffix(self.rows@, start as int);
            assert(found@ =~= page(self@, start as int, offset as nat, limit as nat));
        }
        found
    }
}

} // verus!
