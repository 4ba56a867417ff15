//! The rows of a table as a sequence in key order, and what each storage
//! operation makes of them.

use crate::table::Record;
use vstd::prelude::*;

verus! {

/// The rows stand in strictly ascending key order, so no key occurs twice.
pub open spec fn ordered<R: Record>(rows: Seq<R>) -> bool {
    forall|i: int, j: int| 0 <= i < j < rows.len() ==> rows[i].key() < rows[j].key()
}

/// Some row has the key.
pub open spec fn holds<R: Record>(rows: Seq<R>, key: int) -> bool {
    exists|i: int| 0 <= i < rows.len() && rows[i].key() == key
}

/// The number of rows whose key is below `key`. In ordered rows this is the
/// place of the row with that key, or the place where it would stand.
pub open spec fn rank<R: Record>(rows: Seq<R>, key: int) -> int
    decreases rows.len(),
{
    if rows.len() == 0 {
        0
    } else {
        rank(rows.drop_last(), key) + if rows.last().key() < key {
            1int
        } else {
            0int
        }
    }
}

/// The row with the key, if there is one.
pub open spec fn lookup<R: Record>(rows: Seq<R>, key: int) -> Option<R> {
    if holds(rows, key) {
        Some(rows[rank(rows, key)])
    } else {
        None
    }
}

/// The rows after an insert that skips a row whose key is taken.
pub open spec fn inserted<R: Record>(rows: Seq<R>, row: R) -> Seq<R> {
    if holds(rows, row.key()) {
        rows
    } else {
        rows.insert(rank(rows, row.key()), row)
    }
}

/// The rows after the row with `row`'s key has been replaced by `row`; the
/// same rows where no row has that key.
pub open spec fn replaced<R: Record>(rows: Seq<R>, row: R) -> Seq<R> {
    if holds(rows, row.key()) {
        rows.update(rank(rows, row.key()), row)
    } else {
        rows
    }
}

/// The rows without the row that has the key.
pub open spec fn removed<R: Record>(rows: Seq<R>, key: int) -> Seq<R> {
    if holds(rows, key) {
        rows.remove(rank(rows, key))
    } else {
        rows
    }
}

/// The rows whose key is `start` or above, in their order.
pub open spec fn from_key<R: Record>(rows: Seq<R>, start: int) -> Seq<R> {
    rows.filter(|row: R| row.key() >= start)
}

/// The part of `rows` that is left after skipping `offset` rows and then
/// keeping at most `limit` rows.
pub open spec fn window<R>(rows: Seq<R>, offset: nat, limit: nat) -> Seq<R> {
    let lo = if offset < rows.len() { offset as int } else { rows.len() as int };
    let hi = if lo + limit < rows.len() { lo + limit } else { rows.len() as int };
    rows.subrange(lo, hi)
}

/// One page of the rows from `start` on, in ascending key order.
pub open spec fn page<R: Record>(rows: Seq<R>, start: int, offset: nat, limit: nat) -> Seq<R> {
    window(from_key(rows, start), offset, limit)
}

/// The rows after each row of the batch has been inserted in turn, a row
/// whose key is taken being skipped.
pub open spec fn inserted_all<R: Record>(rows: Seq<R>, batch: Seq<R>) -> Seq<R>
    decreases batch.len(),
{
    if batch.len() == 0 {
        rows
    } else {
        inserted(inserted_all(rows, batch.drop_last()), batch.last())
    }
}

/// The rows of the batch that such an insert adds, in the order of the batch:
/// those whose key neither the table nor an earlier row of the batch has.
pub open spec fn added_by<R: Record>(rows: Seq<R>, batch: Seq<R>) -> Seq<R>
    decreases batch.len(),
{
    if batch.len() == 0 {
        Seq::empty()
    } else {
        let earlier = added_by(rows, batch.drop_last());
        if holds(inserted_all(rows, batch.drop_last()), batch.last().key()) {
            earlier
        } else {
            earlier.push(batch.last())
        }
    }
}

/// The rows after each row of the batch has replaced the row with its key,
/// in turn; a row of the batch whose key is not held changes nothing.
pub open spec fn replaced_all<R: Record>(rows: Seq<R>, batch: Seq<R>) -> Seq<R>
    decreases batch.len(),
{
    if batch.len() == 0 {
        rows
    } else {
        replaced(replaced_all(rows, batch.drop_last()), batch.last())
    }
}

/// Every row of the batch has a key that the rows hold.
pub open spec fn all_held<R: Record>(rows: Seq<R>, batch: Seq<R>) -> bool {
    forall|i: int| 0 <= i < batch.len() ==> holds(rows, #[trigger] batch[i].key())
}

/// The rows after the row of each key has been removed, in turn.
pub open spec fn removed_all<R: Record>(rows: Seq<R>, keys: Seq<i64>) -> Seq<R>
    decreases keys.len(),
{
    if keys.len() == 0 {
        rows
    } else {
        removed(removed_all(rows, keys.drop_last()), keys.last() as int)
    }
}

/// The rows hold every one of the keys.
pub open spec fn all_keys_held<R: Record>(rows: Seq<R>, keys: Seq<i64>) -> bool {
    forall|i: int| 0 <= i < keys.len() ==> holds(rows, #[trigger] keys[i] as int)
}

/// The rows that stand under the keys, key by key.
pub open spec fn rows_of<R: Record>(rows: Seq<R>, keys: Seq<i64>) -> Seq<R> {
    Seq::new(keys.len(), |i: int| rows[rank(rows, keys[i] as int)])
}

/// The keys of the rows, in their order.
pub open spec fn keys_of<R: Record>(rows: Seq<R>) -> Seq<int> {
    Seq::new(rows.len(), |i: int| rows[i].key())
}

/// The smaller of two numbers.
pub open spec fn least(a: int, b: int) -> int {
    if a <= b {
        a
    } else {
        b
    }
}

/// The number of rows of a page: of the `n` rows from `start` on, those that
/// are left after `offset`, up to `limit`.
pub open spec fn page_len(n: int, offset: int, limit: int) -> int {
    least(limit, if n - offset > 0 { n - offset } else { 0 })
}

/// A place that parts the rows into keys below `key` and keys not below it is
/// the rank of `key`.
pub proof fn lemma_rank_at_split<R: Record>(rows: Seq<R>, key: int, at: int)
    requires
        0 <= at <= rows.len(),
        forall|j: int| 0 <= j < at ==> rows[j].key() < key,
        forall|j: int| at <= j < rows.len() ==> rows[j].key() >= key,
    ensures
        rank(rows, key) == at,
    decreases rows.len(),
{
    if rows.len() > 0 {
        let front = rows.drop_last();
        if at == rows.len() {
            lemma_rank_at_split(front, key, at - 1);
        } else {
            lemma_rank_at_split(front, key, at);
        }
    }
}

/// In ordered rows the rank of a key parts the rows: below it stand the keys
/// below `key`, from it on the others.
pub proof fn lemma_rank_splits<R: Record>(rows: Seq<R>, key: int)
    requires
        ordered(rows),
    ensures
        0 <= rank(rows, key) <= rows.len(),
        forall|j: int| 0 <= j < rank(rows, key) ==> rows[j].key() < key,
        forall|j: int| rank(rows, key) <= j < rows.len() ==> rows[j].key() >= key,
    decreases rows.len(),
{
    if rows.len() > 0 {
        let front = rows.drop_last();
        assert(ordered(front));
        lemma_rank_splits(front, key);
        let below = rank(front, key);
        if rows.last().key() < key && below < front.len() {
            assert(front[below].key() >= key);
            assert(rows[below].key() < rows[rows.len() - 1].key());
        }
        assert forall|j: int| 0 <= j < rank(rows, key) implies rows[j].key() < key by {
            if j < front.len() {
                assert(rows[j] == front[j]);
            }
        }
        assert forall|j: int| rank(rows, key) <= j < rows.len() implies rows[j].key() >= key by {
            if j < front.len() {
                assert(rows[j] == front[j]);
            }
        }
    }
}

/// In ordered rows a key is held exactly where the row at its rank has it.
pub proof fn lemma_holds_at_rank<R: Record>(rows: Seq<R>, key: int)
    requires
        ordered(rows),
    ensures
        0 <= rank(rows, key) <= rows.len(),
        holds(rows, key) <==> (rank(rows, key) < rows.len() && rows[rank(rows, key)].key() == key),
{
    lemma_rank_splits(rows, key);
    let at = rank(rows, key);
    if holds(rows, key) {
        let i = choose|i: int| 0 <= i < rows.len() && rows[i].key() == key;
        if i < at {
            assert(rows[i].key() < key);
        } else if i > at {
            assert(rows[at].key() < rows[i].key());
        }
    }
}

/// In ordered rows the rows from `start` on are those from the rank of
/// `start` to the end.
pub proof fn lemma_from_key_is_suffix<R: Record>(rows: Seq<R>, start: int)
    requires
        ordered(rows),
    ensures
        0 <= rank(rows, start) <= rows.len(),
        from_key(rows, start) == rows.subrange(rank(rows, start), rows.len() as int),
    decreases rows.len(),
{
    reveal(Seq::filter);
    lemma_rank_splits(rows, start);
    if rows.len() > 0 {
        let front = rows.drop_last();
        assert(ordered(front));
        lemma_from_key_is_suffix(front, start);
        lemma_rank_splits(front, start);
        let below = rank(front, start);
        if rows.last().key() < start {
            if below < front.len() {
                assert(front[below].key() >= start);
                assert(rows[below].key() < rows[rows.len() - 1].key());
            }
            assert(from_key(rows, start) =~= rows.subrange(rank(rows, start), rows.len() as int));
        } else {
            assert(from_key(rows, start) =~= rows.subrange(rank(rows, start), rows.len() as int));
        }
    } else {
        assert(from_key(rows, start) =~= rows.subrange(rank(rows, start), rows.len() as int));
    }
}

/// An insert keeps the key order.
pub proof fn lemma_insert_keeps_order<R: Record>(rows: Seq<R>, row: R)
    requires
        ordered(rows),
    ensures
        ordered(inserted(rows, row)),
{
    lemma_rank_splits(rows, row.key());
    lemma_holds_at_rank(rows, row.key());
}

/// A replacement keeps the key order.
pub proof fn lemma_replace_keeps_order<R: Record>(rows: Seq<R>, row: R)
    requires
        ordered(rows),
    ensures
        ordered(replaced(rows, row)),
{
    lemma_rank_splits(rows, row.key());
    lemma_holds_at_rank(rows, row.key());
}

/// A removal keeps the key order.
pub proof fn lemma_remove_keeps_order<R: Record>(rows: Seq<R>, key: int)
    requires
        ordered(rows),
    ensures
        ordered(removed(rows, key)),
{
    lemma_rank_splits(rows, key);
    lemma_holds_at_rank(rows, key);
}

/// A replacement changes no key: the rows hold the same keys as before.
pub proof fn lemma_replace_keeps_keys<R: Record>(rows: Seq<R>, row: R, key: int)
    requires
        ordered(rows),
    ensures
        holds(replaced(rows, row), key) <==> holds(rows, key),
{
    lemma_holds_at_rank(rows, row.key());
    let after = replaced(rows, row);
    if holds(rows, key) {
        let i = choose|i: int| 0 <= i < rows.len() && rows[i].key() == key;
        assert(after[i].key() == key);
    }
    if holds(after, key) {
        let i = choose|i: int| 0 <= i < after.len() && after[i].key() == key;
        assert(rows[i].key() == key);
    }
}

/// A removal leaves the rows of all other keys as they are.
pub proof fn lemma_remove_keeps_others<R: Record>(rows: Seq<R>, key: int, other: int)
    requires
        ordered(rows),
        other != key,
    ensures
        lookup(removed(rows, key), other) == lookup(rows, other),
{
    lemma_holds_at_rank(rows, key);
    lemma_holds_at_rank(rows, other);
    lemma_rank_splits(rows, other);
    if holds(rows, key) {
        let gone = rank(rows, key);
        let after = rows.remove(gone);
        let at = rank(rows, other);
        let moved = if at <= gone { at } else { at - 1 };
        assert forall|j: int| 0 <= j < moved implies after[j].key() < other by {
            if j < gone {
                assert(after[j] == rows[j]);
            } else {
                assert(after[j] == rows[j + 1]);
            }
        }
        assert forall|j: int| moved <= j < after.len() implies after[j].key() >= other by {
            if j < gone {
                assert(after[j] == rows[j]);
            } else {
                assert(after[j] == rows[j + 1]);
            }
        }
        lemma_rank_at_split(after, other, moved);
        lemma_remove_keeps_order(rows, key);
        lemma_holds_at_rank(after, other);
        if moved < after.len() {
            if moved < gone {
                assert(after[moved] == rows[moved]);
            } else {
                assert(after[moved] == rows[moved + 1]);
            }
        }
    }
}

/// After an insert the rows hold the keys they held before and the key of
/// the inserted row, and no others.
pub proof fn lemma_insert_adds_one_key<R: Record>(rows: Seq<R>, row: R, key: int)
    requires
        ordered(rows),
    ensures
        holds(inserted(rows, row), key) <==> (holds(rows, key) || key == row.key()),
{
    lemma_holds_at_rank(rows, row.key());
    let after = inserted(rows, row);
    let at = rank(rows, row.key());
    if !holds(rows, row.key()) {
        assert(after[at] == row);
        if holds(rows, key) {
            let i = choose|i: int| 0 <= i < rows.len() && rows[i].key() == key;
            if i < at {
                assert(after[i] == rows[i]);
            } else {
                assert(after[i + 1] == rows[i]);
            }
        }
        if holds(after, key) && key != row.key() {
            let i = choose|i: int| 0 <= i < after.len() && after[i].key() == key;
            if i < at {
                assert(after[i] == rows[i]);
            } else {
                assert(after[i] == rows[i - 1]);
            }
        }
    }
}

/// Inserting the same row twice is inserting it once: the second insert
/// finds the key taken and leaves the rows as they are, and no key occurs
/// twice among them.
pub proof fn lemma_insert_twice<R: Record>(rows: Seq<R>, row: R)
    requires
        ordered(rows),
    ensures
        holds(inserted(rows, row), row.key()),
        inserted(inserted(rows, row), row) == inserted(rows, row),
        ordered(inserted(rows, row)),
{
    lemma_insert_adds_one_key(rows, row, row.key());
    lemma_insert_keeps_order(rows, row);
}

/// After a batch has been inserted the rows stand in key order, and they hold
/// the keys they held before and the keys of the rows of the batch, and no
/// others.
pub proof fn lemma_insert_all_keys<R: Record>(rows: Seq<R>, batch: Seq<R>, key: int)
    requires
        ordered(rows),
    ensures
        ordered(inserted_all(rows, batch)),
        holds(inserted_all(rows, batch), key) <==> (holds(rows, key) || holds(batch, key)),
    decreases batch.len(),
{
    if batch.len() > 0 {
        let front = batch.drop_last();
        let before = inserted_all(rows, front);
        lemma_insert_all_keys(rows, front, key);
        lemma_insert_keeps_order(before, batch.last());
        lemma_insert_adds_one_key(before, batch.last(), key);
        if holds(front, key) {
            let i = choose|i: int| 0 <= i < front.len() && front[i].key() == key;
            assert(batch[i].key() == key);
        }
        if holds(batch, key) {
            let i = choose|i: int| 0 <= i < batch.len() && batch[i].key() == key;
            if i < front.len() {
                assert(front[i].key() == key);
            }
        }
    }
}

/// Inserting a batch whose keys are all taken adds no row and changes none.
pub proof fn lemma_insert_all_of_taken<R: Record>(rows: Seq<R>, batch: Seq<R>)
    requires
        all_held(rows, batch),
    ensures
        inserted_all(rows, batch) == rows,
        added_by(rows, batch) == Seq::<R>::empty(),
    decreases batch.len(),
{
    if batch.len() > 0 {
        let front = batch.drop_last();
        assert forall|i: int| 0 <= i < front.len() implies holds(rows, #[trigger] front[i].key()) by {
            assert(front[i] == batch[i]);
        }
        lemma_insert_all_of_taken(rows, front);
        assert(holds(rows, batch[batch.len() - 1].key()));
    }
}

/// Inserting the same batch twice is inserting it once: the second insert
/// adds no row, changes none and leaves no key twice.
pub proof fn lemma_insert_all_twice<R: Record>(rows: Seq<R>, batch: Seq<R>)
    requires
        ordered(rows),
    ensures
        inserted_all(inserted_all(rows, batch), batch) == inserted_all(rows, batch),
        added_by(inserted_all(rows, batch), batch) == Seq::<R>::empty(),
        ordered(inserted_all(rows, batch)),
{
    let once = inserted_all(rows, batch);
    lemma_insert_all_keys(rows, batch, 0);
    assert forall|i: int| 0 <= i < batch.len() implies holds(once, #[trigger] batch[i].key()) by {
        lemma_insert_all_keys(rows, batch, batch[i].key());
    }
    lemma_insert_all_of_taken(once, batch);
}

/// A row that is inserted under a free key, or that is held already as it
/// is, is the row that a lookup of its key finds.
pub proof fn lemma_lookup_after_insert<R: Record>(rows: Seq<R>, row: R)
    requires
        ordered(rows),
        holds(rows, row.key()) ==> lookup(rows, row.key()) == Some(row),
    ensures
        lookup(inserted(rows, row), row.key()) == Some(row),
{
    lemma_holds_at_rank(rows, row.key());
    lemma_rank_splits(rows, row.key());
    if !holds(rows, row.key()) {
        let after = inserted(rows, row);
        let at = rank(rows, row.key());
        assert(after[at] == row);
        assert forall|j: int| 0 <= j < at implies after[j].key() < row.key() by {
            assert(after[j] == rows[j]);
        }
        assert forall|j: int| at <= j < after.len() implies after[j].key() >= row.key() by {
            if j > at {
                assert(after[j] == rows[j - 1]);
            }
        }
        lemma_rank_at_split(after, row.key(), at);
    }
}

/// A replacement changes no key: the rows have the same keys at the same
/// places as before, and they still stand in key order.
pub proof fn lemma_replace_keeps_places<R: Record>(rows: Seq<R>, row: R)
    requires
        ordered(rows),
    ensures
        keys_of(replaced(rows, row)) == keys_of(rows),
        ordered(replaced(rows, row)),
{
    lemma_holds_at_rank(rows, row.key());
    lemma_replace_keeps_order(rows, row);
    assert(keys_of(replaced(rows, row)) =~= keys_of(rows));
}

/// After a replacement the row under the replaced key is the new one.
pub proof fn lemma_lookup_after_replace<R: Record>(rows: Seq<R>, row: R)
    requires
        ordered(rows),
        holds(rows, row.key()),
    ensures
        lookup(replaced(rows, row), row.key()) == Some(row),
{
    lemma_holds_at_rank(rows, row.key());
    lemma_rank_splits(rows, row.key());
    let after = replaced(rows, row);
    let at = rank(rows, row.key());
    assert(after[at] == row);
    assert forall|j: int| 0 <= j < at implies after[j].key() < row.key() by {
        assert(after[j] == rows[j]);
    }
    assert forall|j: int| at <= j < after.len() implies after[j].key() >= row.key() by {
        if j > at {
            assert(after[j] == rows[j]);
        }
    }
    lemma_rank_at_split(after, row.key(), at);
}

/// Replacing a batch changes no key either, whichever of its rows are held.
pub proof fn lemma_replace_all_keeps_places<R: Record>(rows: Seq<R>, batch: Seq<R>)
    requires
        ordered(rows),
    ensures
        keys_of(replaced_all(rows, batch)) == keys_of(rows),
        ordered(replaced_all(rows, batch)),
    decreases batch.len(),
{
    if batch.len() > 0 {
        lemma_replace_all_keeps_places(rows, batch.drop_last());
        lemma_replace_keeps_places(replaced_all(rows, batch.drop_last()), batch.last());
    }
}

/// A page holds as many rows as limit and offset leave of the rows from
/// `start` on. Its rows are rows of the table, none is older than
/// `start`, and they stand in ascending key order.
pub proof fn lemma_page_bounds<R: Record>(rows: Seq<R>, start: int, offset: nat, limit: nat)
    requires
        ordered(rows),
    ensures
        page(rows, start, offset, limit).len() == page_len(
            from_key(rows, start).len() as int,
            offset as int,
            limit as int,
        ),
        ordered(page(rows, start, offset, limit)),
        forall|i: int|
            0 <= i < page(rows, start, offset, limit).len() ==> {
                &&& (#[trigger] page(rows, start, offset, limit)[i]).key() >= start
                &&& rows.contains(page(rows, start, offset, limit)[i])
            },
{
    lemma_from_key_is_suffix(rows, start);
    lemma_rank_splits(rows, start);
    let from = rank(rows, start);
    let found = page(rows, start, offset, limit);
    let lo = if offset < rows.len() - from { offset as int } else { rows.len() - from };
    assert forall|i: int| 0 <= i < found.len() implies {
        &&& (#[trigger] found[i]).key() >= start
        &&& rows.contains(found[i])
    } by {
        assert(found[i] == rows[from + lo + i]);
    }
    assert forall|i: int, j: int| 0 <= i < j < found.len() implies found[i].key() < found[j].key() by {
        assert(found[i] == rows[from + lo + i]);
        assert(found[j] == rows[from + lo + j]);
    }
}

/// The rows from `start` on are exactly the rows of the table that are not
/// older than `start`; a page without offset whose limit they do not exceed
/// holds them all.
pub proof fn lemma_page_is_exact<R: Record>(rows: Seq<R>, start: int, limit: nat)
    requires
        ordered(rows),
        from_key(rows, start).len() <= limit,
    ensures
        page(rows, start, 0, limit) == from_key(rows, start),
        forall|row: R| from_key(rows, start).contains(row) <==> (rows.contains(row) && row.key() >= start),
{
    lemma_from_key_is_suffix(rows, start);
    lemma_rank_splits(rows, start);
    let from = rank(rows, start);
    let all = from_key(rows, start);
    assert(page(rows, start, 0, limit) =~= all);
    assert forall|row: R| all.contains(row) <==> (rows.contains(row) && row.key() >= start) by {
        if all.contains(row) {
            let i = choose|i: int| 0 <= i < all.len() && all[i] == row;
            assert(rows[from + i] == row);
        }
        if rows.contains(row) && row.key() >= start {
            let i = choose|i: int| 0 <= i < rows.len() && rows[i] == row;
            assert(all[i - from] == row);
        }
    }
}

/// Where no row is older than `start`, the rows from `start` on are all rows.
pub proof fn lemma_from_key_of_young_rows<R: Record>(rows: Seq<R>, start: int)
    requires
        ordered(rows),
        forall|i: int| 0 <= i < rows.len() ==> rows[i].key() >= start,
    ensures
        from_key(rows, start) == rows,
{
    lemma_from_key_is_suffix(rows, start);
    lemma_rank_at_split(rows, start, 0);
    assert(rows.subrange(0, rows.len() as int) =~= rows);
}

} // verus!
