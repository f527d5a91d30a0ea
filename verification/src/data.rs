//! Operations on data records: what to ask of the relational store, and what to make of its
//! answers.

use vstd::prelude::*;
use vstd::string::*;

use crate::error::DatabaseError;
use crate::ids;
use crate::ids::Uuid;
use crate::json;
use crate::pipeline_status;
use crate::pipeline_status::{StatusChange, StatusChangeView};
use crate::text;

verus! {

/// How many records a single query asks for by their keys: well under the number of variables
/// that a driver can bind.
pub const READ_CHUNK: usize = 500;

/// What the status operations read of a data record.
#[derive(Debug)]
pub struct DataRow {
    /// The key of the record.
    pub id: String,
    /// The column `pipeline_status`.
    pub pipeline_status: Option<String>,
}

/// A new value for the column `pipeline_status` of a record.
#[derive(Debug)]
pub struct StatusWrite {
    /// The key of the record.
    pub id: String,
    /// The new value of the column.
    pub pipeline_status: Option<String>,
}

/// What a [`StatusWrite`] says.
pub struct StatusWriteView {
    pub id: Seq<char>,
    pub pipeline_status: Option<Seq<char>>,
}

impl View for StatusWrite {
    type V = StatusWriteView;

    open spec fn view(&self) -> StatusWriteView {
        StatusWriteView { id: self.id@, pipeline_status: text::owned_text(self.pipeline_status) }
    }
}

/// The keys of identifiers, in order.
pub open spec fn keys_of(data_ids: Seq<Uuid>) -> Seq<Seq<char>> {
    data_ids.map_values(|id: Uuid| ids::hex_key(id))
}

/// The texts of strings, in order.
pub open spec fn texts_of(strings: Seq<String>) -> Seq<Seq<char>> {
    strings.map_values(|s: String| s@)
}

/// `items` in chunks of `size`, in order; the last chunk may be smaller, and there is none
/// where there are no items.
pub open spec fn chunked<T>(items: Seq<T>, size: nat) -> Seq<Seq<T>>
    recommends
        size > 0,
    decreases items.len(),
{
    if items.len() == 0 || size == 0 {
        Seq::empty()
    } else if items.len() <= size {
        seq![items]
    } else {
        seq![items.take(size as int)] + chunked(items.skip(size as int), size)
    }
}

/// The groups one after the other.
pub open spec fn concatenated<T>(groups: Seq<Seq<T>>) -> Seq<T>
    decreases groups.len(),
{
    if groups.len() == 0 {
        Seq::empty()
    } else {
        concatenated(groups.drop_last()) + groups.last()
    }
}

/// The sequences that vectors hold.
pub open spec fn views_of<T>(groups: Seq<Vec<T>>) -> Seq<Seq<T>> {
    groups.map_values(|group: Vec<T>| group@)
}

/// The writes that take every entry for a dataset out of records, in the order of the
/// records: one for each record that has such an entry, none for the others.
pub open spec fn clear_writes(rows: Seq<DataRow>, key: Seq<char>) -> Seq<StatusWriteView>
    decreases rows.len(),
{
    if rows.len() == 0 {
        Seq::empty()
    } else {
        let before = clear_writes(rows.drop_last(), key);
        let row = rows.last();
        let status = text::owned_text(row.pipeline_status);
        let change = pipeline_status::clear_change(status, key);
        if change == StatusChangeView::Keep {
            before
        } else {
            before.push(
                StatusWriteView {
                    id: row.id@,
                    pipeline_status: pipeline_status::status_after(status, change),
                },
            )
        }
    }
}

/// The records in which a pipeline has an entry for the dataset, in order.
pub open spec fn modified_rows(rows: Seq<DataRow>, key: Seq<char>) -> Seq<DataRow> {
    rows.filter(
        |row: DataRow|
            pipeline_status::mentions(
                pipeline_status::pipelines(text::owned_text(row.pipeline_status)),
                key,
            ),
    )
}

/// Whether a write takes every entry for the dataset out of this record: it is for the record,
/// it clears the column, and what it writes holds the cleared pipelines.
pub open spec fn clears_row(row: DataRow, write: StatusWrite, key: Seq<char>) -> bool {
    &&& write.id@ == row.id@
    &&& pipeline_status::clears(
        text::owned_text(row.pipeline_status),
        text::owned_text(write.pipeline_status),
        key,
    )
    &&& pipeline_status::column_holds(
        text::owned_text(write.pipeline_status),
        pipeline_status::cleared(
            pipeline_status::pipelines(text::owned_text(row.pipeline_status)),
            key,
        ),
    )
}

/// What follows from how many records an update of the token count reached: that there is no
/// such record where it reached none.
pub fn update_data_token_count(data_id: Uuid, rows_affected: u64) -> (outcome: Result<
    (),
    DatabaseError,
>)
    ensures
        outcome is Ok <==> rows_affected != 0,
        outcome matches Err(error) ==> error matches DatabaseError::NotFound(message) && message@
            == "Data "@ + ids::hyphenated(data_id) + " not found"@,
{
    if rows_affected == 0 {
        let mut message = "Data ".to_owned();
        message.append(ids::to_hyphenated(data_id).as_str());
        message.append(" not found");
        return Err(DatabaseError::NotFound(message));
    }
    Ok(())
}

/// The keys of the records.
fn record_keys(data_ids: &[Uuid]) -> (keys: Vec<String>)
    ensures
        texts_of(keys@) == keys_of(data_ids@),
        keys@.len() == data_ids@.len(),
        forall|i: int|
            0 <= i < data_ids@.len() ==> (#[trigger] keys@[i])@ == ids::hex_key(data_ids@[i]),
{
    let mut keys: Vec<String> = Vec::new();
    let mut i: usize = 0;
    while i < data_ids.len()
        invariant
            i <= data_ids@.len(),
            texts_of(keys@) == keys_of(data_ids@.take(i as int)),
            keys@.len() == i,
            forall|j: int|
                0 <= j < i ==> (#[trigger] keys@[j])@ == ids::hex_key(data_ids@[j]),
        decreases data_ids@.len() - i,
    {
        let key = ids::to_hex(data_ids[i]);
        assert(texts_of(keys@.push(key)) == texts_of(keys@).push(key@));
        assert(data_ids@.take(i + 1) == data_ids@.take(i as int).push(data_ids@[i as int]));
        keys.push(key);
        assert(texts_of(keys@) == keys_of(data_ids@.take(i + 1)));
        i = i + 1;
    }
    assert(data_ids@.take(i as int) == data_ids@);
    keys
}

/// The keys of the records whose time of last access is to be set; nothing is to be done
/// where no record is named.
pub fn update_last_accessed(data_ids: &[Uuid]) -> (keys: Option<Vec<String>>)
    ensures
        keys is None <==> data_ids@.len() == 0,
        keys matches Some(names) ==> texts_of(names@) == keys_of(data_ids@),
        keys matches Some(names) ==> names@.len() == data_ids@.len() && forall|i: int|
            0 <= i < data_ids@.len() ==> (#[trigger] names@[i])@ == ids::hex_key(data_ids@[i]),
{
    if data_ids.len() == 0 {
        return None;
    }
    Some(record_keys(data_ids))
}

/// Every identifier has its key, in its place: there are as many keys as identifiers, and each
/// is the key of the identifier at its index, so that distinct identifiers have distinct keys.
pub proof fn lemma_keys_index_by_index(data_ids: Seq<Uuid>)
    ensures
        keys_of(data_ids).len() == data_ids.len(),
        forall|i: int|
            0 <= i < data_ids.len() ==> #[trigger] keys_of(data_ids)[i] == ids::hex_key(
                data_ids[i],
            ),
        forall|i: int, j: int|
            0 <= i < data_ids.len() && 0 <= j < data_ids.len() && data_ids[i] != data_ids[j]
                ==> #[trigger] keys_of(data_ids)[i] != #[trigger] keys_of(data_ids)[j],
{
    assert forall|i: int, j: int|
        0 <= i < data_ids.len() && 0 <= j < data_ids.len() && data_ids[i]
            != data_ids[j] implies #[trigger] keys_of(data_ids)[i] != #[trigger] keys_of(
        data_ids,
    )[j] by {
        ids::lemma_hex_key_distinct(data_ids[i], data_ids[j]);
    }
}

/// The keys in chunks, each small enough for a single query.
pub fn read_chunks(data_ids: Vec<String>) -> (chunks: Vec<Vec<String>>)
    ensures
        views_of(chunks@) == chunked(data_ids@, READ_CHUNK as nat),
        data_ids@.len() <= 500 * chunks@.len(),
        chunks@.len() > 0 ==> 500 * (chunks@.len() - 1) < data_ids@.len(),
        forall|i: int|
            0 <= i < chunks@.len() ==> (#[trigger] chunks@[i])@ == data_ids@.subrange(
                500 * i,
                if 500 * (i + 1) <= data_ids@.len() {
                    500 * (i + 1)
                } else {
                    data_ids@.len() as int
                },
            ),
{
    let ghost all = data_ids@;
    let mut rest = data_ids;
    let mut chunks: Vec<Vec<String>> = Vec::new();
    assert(views_of(chunks@) + chunked(rest@, 500) == chunked(all, 500));
    while rest.len() > READ_CHUNK
        invariant
            views_of(chunks@) + chunked(rest@, 500) == chunked(all, 500),
        decreases rest@.len(),
    {
        let ghost before = rest@;
        let ghost held = chunks@;
        let tail = rest.split_off(READ_CHUNK);
        let ghost head = rest@;
        assert(head == before.take(500));
        assert(tail@ == before.skip(500));
        chunks.push(rest);
        assert(views_of(chunks@) == views_of(held).push(head));
        assert(views_of(held).push(head) + chunked(tail@, 500) == views_of(held) + (seq![head]
            + chunked(tail@, 500)));
        rest = tail;
    }
    if rest.len() > 0 {
        let ghost last = rest@;
        let ghost held = chunks@;
        chunks.push(rest);
        assert(views_of(chunks@) == views_of(held).push(last));
    }
    proof {
        lemma_chunks_lie_end_to_end(all, 500);
        assert forall|i: int| 0 <= i < chunks@.len() implies (#[trigger] chunks@[i])@
            == chunked(all, 500)[i] by {
            assert(views_of(chunks@)[i] == chunks@[i]@);
        }
    }
    chunks
}

/// Chunks lie end to end: there are no more of them than the items fill, each but the last
/// holds `size` items, and the one at an index starts where the chunks before it end.
pub proof fn lemma_chunks_lie_end_to_end<T>(items: Seq<T>, size: nat)
    requires
        size > 0,
    ensures
        items.len() <= size * chunked(items, size).len(),
        chunked(items, size).len() > 0 ==> size * (chunked(items, size).len() - 1) < items.len(),
        forall|i: int|
            0 <= i < chunked(items, size).len() ==> #[trigger] chunked(items, size)[i]
                == items.subrange(
                size * i,
                if size * (i + 1) <= items.len() {
                    size * (i + 1)
                } else {
                    items.len() as int
                },
            ),
    decreases items.len(),
{
    let chunks = chunked(items, size);
    if items.len() == 0 {
        assert(size * 0 == 0) by (nonlinear_arith);
    } else if items.len() <= size {
        assert(size * 0 == 0) by (nonlinear_arith);
        assert(size * 1 == size) by (nonlinear_arith);
        assert(items.subrange(0, items.len() as int) == items);
    } else {
        let head = items.take(size as int);
        let tail = items.skip(size as int);
        let rest = chunked(tail, size);
        lemma_chunks_lie_end_to_end(tail, size);
        assert(chunks == seq![head] + rest);
        let n = rest.len();
        assert(size * (n + 1) == size * n + size) by (nonlinear_arith);
        assert(n > 0 ==> size * (n - 1) + size == size * n) by (nonlinear_arith);
        assert(n > 0) by {
            if n == 0 {
                assert(size * n == 0) by (nonlinear_arith)
                    requires
                        n == 0,
                ;
            }
        }
        assert forall|i: int| 0 <= i < chunks.len() implies #[trigger] chunks[i]
            == items.subrange(
            size * i,
            if size * (i + 1) <= items.len() {
                size * (i + 1)
            } else {
                items.len() as int
            },
        ) by {
            assert(size * 0 == 0) by (nonlinear_arith);
            assert(size * 1 == size) by (nonlinear_arith);
            if i > 0 {
                assert(chunks[i] == rest[i - 1]);
                assert(size * (i - 1) + size == size * i) by (nonlinear_arith);
                assert(size * i + size == size * (i + 1)) by (nonlinear_arith);
                assert(0 <= size * (i - 1)) by (nonlinear_arith)
                    requires
                        i > 0,
                ;
                assert(size * (i - 1) <= size * (n - 1)) by (nonlinear_arith)
                    requires
                        i <= n,
                ;
                let end = if size * i <= tail.len() {
                    size * i
                } else {
                    tail.len() as int
                };
                assert(tail.subrange(size * (i - 1), end) == items.subrange(
                    size * i,
                    end + size,
                ));
            }
        }
    }
}

/// No chunk is empty or asks for more than `size` items, and the chunks one after the other
/// are the items: nothing is read twice and nothing is left out.
pub proof fn lemma_chunks_cover<T>(items: Seq<T>, size: nat)
    requires
        size > 0,
    ensures
        forall|i: int|
            0 <= i < chunked(items, size).len() ==> 0 < (#[trigger] chunked(items, size)[i]).len()
                <= size,
        concatenated(chunked(items, size)) == items,
    decreases items.len(),
{
    if items.len() == 0 {
    } else if items.len() <= size {
        assert(seq![items].drop_last() == Seq::<Seq<T>>::empty());
        reveal_with_fuel(concatenated, 2);
        assert(concatenated(seq![items]) == items);
    } else {
        let head = items.take(size as int);
        let tail = items.skip(size as int);
        lemma_chunks_cover(tail, size);
        lemma_concatenated_front(head, chunked(tail, size));
        assert(head + tail == items);
    }
}

proof fn lemma_concatenated_front<T>(head: Seq<T>, groups: Seq<Seq<T>>)
    ensures
        concatenated(seq![head] + groups) == head + concatenated(groups),
    decreases groups.len(),
{
    if groups.len() == 0 {
        assert((seq![head] + groups).drop_last() == Seq::<Seq<T>>::empty());
        reveal_with_fuel(concatenated, 2);
        assert(concatenated(seq![head] + groups) == head);
    } else {
        assert((seq![head] + groups).drop_last() == seq![head] + groups.drop_last());
        lemma_concatenated_front(head, groups.drop_last());
    }
}

/// Groups one after the other are the groups with their bounds taken away: nothing is left
/// out, nothing is added and the order is kept.
pub proof fn lemma_concatenated_is_flattened<T>(groups: Seq<Seq<T>>)
    ensures
        concatenated(groups) == groups.flatten(),
    decreases groups.len(),
{
    groups.lemma_flatten_and_flatten_alt_are_equivalent();
    if groups.len() > 0 {
        lemma_concatenated_is_flattened(groups.drop_last());
        groups.drop_last().lemma_flatten_and_flatten_alt_are_equivalent();
    }
}

/// The datasets found for a record, the groups of the answer one after the other.
pub fn list_datasets_for_data<T>(groups: Vec<Vec<T>>) -> (datasets: Vec<T>)
    ensures
        datasets@ == concatenated(views_of(groups@)),
        datasets@ == Seq::new(groups@.len(), |i: int| groups@[i]@).flatten(),
{
    let ghost all = views_of(groups@);
    proof {
        lemma_concatenated_is_flattened(all);
        assert(all == Seq::new(groups@.len(), |i: int| groups@[i]@));
    }
    let mut rest = groups;
    let mut datasets: Vec<T> = Vec::new();
    while rest.len() > 0
        invariant
            concatenated(views_of(rest@)) + datasets@ == concatenated(all),
        decreases rest@.len(),
    {
        let ghost before = views_of(rest@);
        if let Some(mut group) = rest.pop() {
            assert(views_of(rest@) == before.drop_last());
            let ghost last = group@;
            let ghost found = datasets@;
            group.append(&mut datasets);
            datasets = group;
            assert((concatenated(before.drop_last()) + last) + found == concatenated(
                before.drop_last(),
            ) + (last + found));
        }
    }
    assert(concatenated(views_of(rest@)) == Seq::<T>::empty());
    datasets
}

/// The slice of an optional string.
fn as_text(status: &Option<String>) -> (slice: Option<&str>)
    ensures
        text::text_of(slice) == text::owned_text(*status),
{
    match status {
        Some(s) => Some(s.as_str()),
        None => None,
    }
}

/// The writes that take every entry for a dataset out of the records linked to it: one for each
/// record that has such an entry, so that their number is the number of records modified. What
/// each write leaves of its record has no entry for the dataset and keeps what stands for
/// others.
pub fn clear_pipeline_status_for_dataset(rows: &Vec<DataRow>, dataset_id: Uuid) -> (writes: Result<
    Vec<StatusWrite>,
    DatabaseError,
>)
    ensures
        writes is Ok,
        writes->Ok_0@.map_values(|w: StatusWrite| w@) == clear_writes(
            rows@,
            ids::hex_key(dataset_id),
        ),
        writes->Ok_0@.len() == modified_rows(rows@, ids::hex_key(dataset_id)).len(),
        forall|i: int|
            0 <= i < writes->Ok_0@.len() ==> clears_row(
                modified_rows(rows@, ids::hex_key(dataset_id))[i],
                #[trigger] writes->Ok_0@[i],
                ids::hex_key(dataset_id),
            ),
        exists|at: Seq<int>|
            #![trigger at.len()]
            {
                &&& at.len() == writes->Ok_0@.len()
                &&& forall|i: int, j: int| 0 <= i < j < at.len() ==> at[i] < at[j]
                &&& forall|i: int| 0 <= i < at.len() ==> 0 <= #[trigger] at[i] < rows@.len()
                &&& forall|j: int, pipeline: Seq<char>|
                    0 <= j < rows@.len() && #[trigger] pipeline_status::has_entry(
                        pipeline_status::pipelines(text::owned_text(rows@[j].pipeline_status)),
                        pipeline,
                        ids::hex_key(dataset_id),
                    ) ==> at.contains(j)
                &&& forall|i: int|
                    0 <= i < at.len() ==> exists|pipeline: Seq<char>|
                        pipeline_status::has_entry(
                            pipeline_status::pipelines(
                                text::owned_text(rows@[#[trigger] at[i]].pipeline_status),
                            ),
                            pipeline,
                            ids::hex_key(dataset_id),
                        )
                &&& forall|i: int|
                    0 <= i < at.len() ==> (#[trigger] writes->Ok_0@[i]).id@ == rows@[at[i]].id@
                &&& forall|i: int, pipeline: Seq<char>|
                    0 <= i < at.len() ==> !#[trigger] pipeline_status::has_entry(
                        pipeline_status::pipelines(
                            text::owned_text(writes->Ok_0@[i].pipeline_status),
                        ),
                        pipeline,
                        ids::hex_key(dataset_id),
                    )
            },
{
    let ghost key = ids::hex_key(dataset_id);
    let mut writes: Vec<StatusWrite> = Vec::new();
    let mut i: usize = 0;
    assert(writes@.map_values(|w: StatusWrite| w@) == clear_writes(rows@.take(0), key));
    assert(modified_rows(rows@.take(0), key) == Seq::<DataRow>::empty()) by {
        reveal(Seq::filter);
    }
    while i < rows.len()
        invariant
            i <= rows@.len(),
            key == ids::hex_key(dataset_id),
            writes@.map_values(|w: StatusWrite| w@) == clear_writes(rows@.take(i as int), key),
            writes@.len() == modified_rows(rows@.take(i as int), key).len(),
            forall|j: int|
                0 <= j < writes@.len() ==> clears_row(
                    modified_rows(rows@.take(i as int), key)[j],
                    #[trigger] writes@[j],
                    key,
                ),
        decreases rows@.len() - i,
    {
        let row = &rows[i];
        let ghost held = writes@;
        let ghost modified = modified_rows(rows@.take(i as int), key);
        proof {
            reveal(Seq::filter);
            assert(rows@.take(i + 1).drop_last() == rows@.take(i as int));
            assert(modified_rows(rows@.take(i + 1), key) == if pipeline_status::mentions(
                pipeline_status::pipelines(text::owned_text(row.pipeline_status)),
                key,
            ) {
                modified.push(*row)
            } else {
                modified
            });
        }
        let status = as_text(&row.pipeline_status);
        let new_status = match pipeline_status::clear_status_for_dataset(status, dataset_id) {
            Ok(StatusChange::Keep) => {
                i = i + 1;
                continue;
            },
            Ok(StatusChange::Clear) => None,
            Ok(StatusChange::Replace(written)) => Some(written),
            Err(error) => {
                return Err(error);
            },
        };
        let write = StatusWrite { id: row.id.clone(), pipeline_status: new_status };
        assert(clears_row(*row, write, key));
        writes.push(write);
        assert(writes@.map_values(|w: StatusWrite| w@) == held.map_values(
            |w: StatusWrite| w@,
        ).push(write@));
        i = i + 1;
    }
    assert(rows@.take(i as int) == rows@);
    proof {
        let at = lemma_rows_with_an_entry_are_written_once(rows@, writes@, key);
        assert(at.len() == writes@.len());
    }
    Ok(writes)
}

/// The rows whose columns have an entry for the dataset, by their indices in rising order.
proof fn lemma_indices_of_modified(rows: Seq<DataRow>, key: Seq<char>) -> (at: Seq<int>)
    ensures
        at.len() == modified_rows(rows, key).len(),
        forall|i: int, j: int| 0 <= i < j < at.len() ==> at[i] < at[j],
        forall|i: int| 0 <= i < at.len() ==> 0 <= #[trigger] at[i] < rows.len(),
        forall|i: int|
            0 <= i < at.len() ==> #[trigger] modified_rows(rows, key)[i] == rows[at[i]],
        forall|i: int|
            0 <= i < at.len() ==> pipeline_status::mentions(
                pipeline_status::pipelines(
                    text::owned_text(rows[#[trigger] at[i]].pipeline_status),
                ),
                key,
            ),
        forall|j: int|
            0 <= j < rows.len() && pipeline_status::mentions(
                pipeline_status::pipelines(text::owned_text((#[trigger] rows[j]).pipeline_status)),
                key,
            ) ==> at.contains(j),
    decreases rows.len(),
{
    reveal(Seq::filter);
    if rows.len() == 0 {
        Seq::empty()
    } else {
        let before = rows.drop_last();
        let at = lemma_indices_of_modified(before, key);
        let last = rows.len() - 1;
        let column = text::owned_text(rows[last].pipeline_status);
        let mentioned = pipeline_status::mentions(pipeline_status::pipelines(column), key);
        let all = if mentioned {
            at.push(last)
        } else {
            at
        };
        assert(modified_rows(rows, key) == if mentioned {
            modified_rows(before, key).push(rows[last])
        } else {
            modified_rows(before, key)
        });
        assert forall|i: int| 0 <= i < all.len() implies #[trigger] modified_rows(rows, key)[i]
            == rows[all[i]] by {
            if i < at.len() {
                assert(modified_rows(before, key)[i] == before[at[i]]);
            }
        }
        assert forall|i: int| 0 <= i < all.len() implies pipeline_status::mentions(
            pipeline_status::pipelines(text::owned_text(rows[#[trigger] all[i]].pipeline_status)),
            key,
        ) by {
            if i < at.len() {
                assert(rows[all[i]] == before[at[i]]);
            }
        }
        assert forall|j: int|
            0 <= j < rows.len() && pipeline_status::mentions(
                pipeline_status::pipelines(text::owned_text((#[trigger] rows[j]).pipeline_status)),
                key,
            ) implies all.contains(j) by {
            if j < last {
                assert(before[j] == rows[j]);
                assert(at.contains(j));
                let k = choose|k: int| 0 <= k < at.len() && at[k] == j;
                assert(all[k] == j);
            } else {
                assert(all[at.len() as int] == j);
            }
        }
        all
    }
}

/// Every record that has an entry for the dataset under some pipeline, whatever the state of
/// that entry, is written exactly once, and no other record is: the records that are written
/// stand at rising indices, and each index of a record with an entry is among them. The write
/// has the record's key, and the column that it writes has no entry for the dataset. In
/// particular a record that reads as cognified for the dataset is written.
pub proof fn lemma_rows_with_an_entry_are_written_once(
    rows: Seq<DataRow>,
    writes: Seq<StatusWrite>,
    key: Seq<char>,
) -> (at: Seq<int>)
    requires
        writes.map_values(|w: StatusWrite| w@) == clear_writes(rows, key),
        writes.len() == modified_rows(rows, key).len(),
        forall|i: int|
            0 <= i < writes.len() ==> clears_row(
                modified_rows(rows, key)[i],
                #[trigger] writes[i],
                key,
            ),
    ensures
        at.len() == writes.len(),
        forall|i: int, j: int| 0 <= i < j < at.len() ==> at[i] < at[j],
        forall|i: int| 0 <= i < at.len() ==> 0 <= #[trigger] at[i] < rows.len(),
        forall|j: int, pipeline: Seq<char>|
            0 <= j < rows.len() && #[trigger] pipeline_status::has_entry(
                pipeline_status::pipelines(text::owned_text(rows[j].pipeline_status)),
                pipeline,
                key,
            ) ==> at.contains(j),
        forall|j: int|
            0 <= j < rows.len() && pipeline_status::completed(
                text::owned_text((#[trigger] rows[j]).pipeline_status),
                key,
            ) ==> at.contains(j),
        forall|i: int|
            0 <= i < at.len() ==> exists|pipeline: Seq<char>|
                pipeline_status::has_entry(
                    pipeline_status::pipelines(
                        text::owned_text(rows[#[trigger] at[i]].pipeline_status),
                    ),
                    pipeline,
                    key,
                ),
        forall|i: int| 0 <= i < at.len() ==> (#[trigger] writes[i]).id@ == rows[at[i]].id@,
        forall|i: int| 0 <= i < at.len() ==> clears_row(rows[at[i]], #[trigger] writes[i], key),
        forall|i: int, pipeline: Seq<char>|
            0 <= i < at.len() ==> !#[trigger] pipeline_status::has_entry(
                pipeline_status::pipelines(text::owned_text(writes[i].pipeline_status)),
                pipeline,
                key,
            ),
{
    let at = lemma_indices_of_modified(rows, key);
    assert forall|j: int, pipeline: Seq<char>|
        0 <= j < rows.len() && #[trigger] pipeline_status::has_entry(
            pipeline_status::pipelines(text::owned_text(rows[j].pipeline_status)),
            pipeline,
            key,
        ) implies at.contains(j) by {
        let row = rows[j];
        assert(pipeline_status::mentions(
            pipeline_status::pipelines(text::owned_text(row.pipeline_status)),
            key,
        ));
    }
    assert forall|j: int|
        0 <= j < rows.len() && pipeline_status::completed(
            text::owned_text((#[trigger] rows[j]).pipeline_status),
            key,
        ) implies at.contains(j) by {
        let top = pipeline_status::pipelines(text::owned_text(rows[j].pipeline_status));
        assert(pipeline_status::has_entry(top, "cognify_pipeline"@, key));
    }
    assert forall|i: int| 0 <= i < at.len() implies clears_row(
        rows[at[i]],
        #[trigger] writes[i],
        key,
    ) by {
        assert(modified_rows(rows, key)[i] == rows[at[i]]);
    }
    assert forall|i: int, pipeline: Seq<char>| 0 <= i < at.len() implies !#[trigger]
        pipeline_status::has_entry(
        pipeline_status::pipelines(text::owned_text(writes[i].pipeline_status)),
        pipeline,
        key,
    ) by {
        assert(clears_row(rows[at[i]], writes[i], key));
    }
    at
}

/// What a write leaves of its record: every entry for another dataset is there exactly if it
/// was before, and reads as it did but for the values of floating-point numbers.
pub proof fn lemma_a_write_keeps_what_stands_for_others(
    row: DataRow,
    write: StatusWrite,
    key: Seq<char>,
    pipeline: Seq<char>,
    other: Seq<char>,
)
    requires
        clears_row(row, write, key),
        pipeline_status::mentions(
            pipeline_status::pipelines(text::owned_text(row.pipeline_status)),
            key,
        ),
        other != key,
    ensures
        write.id@ == row.id@,
        match pipeline_status::entry_at(
            pipeline_status::pipelines(text::owned_text(row.pipeline_status)),
            pipeline,
            other,
        ) {
            Some(entry) => pipeline_status::entry_at(
                pipeline_status::pipelines(text::owned_text(write.pipeline_status)),
                pipeline,
                other,
            ) is Some && json::reads_as(
                entry,
                pipeline_status::entry_at(
                    pipeline_status::pipelines(text::owned_text(write.pipeline_status)),
                    pipeline,
                    other,
                )->Some_0,
                125,
            ),
            None => pipeline_status::entry_at(
                pipeline_status::pipelines(text::owned_text(write.pipeline_status)),
                pipeline,
                other,
            ) is None,
        },
        write.pipeline_status is None ==> forall|p: Seq<char>, o: Seq<char>|
            o != key ==> !#[trigger] pipeline_status::has_entry(
                pipeline_status::pipelines(text::owned_text(row.pipeline_status)),
                p,
                o,
            ),
{
    let column = text::owned_text(row.pipeline_status);
    let change = pipeline_status::clear_change(column, key);
    pipeline_status::lemma_clearing_a_column(
        column,
        change,
        text::owned_text(write.pipeline_status),
        key,
        pipeline,
        other,
    );
}

/// A record is written exactly if one of its pipelines has an entry for the dataset, so the
/// number of writes is the number of such records.
pub proof fn lemma_clear_writes_counts_modified(rows: Seq<DataRow>, key: Seq<char>)
    ensures
        clear_writes(rows, key).len() == modified_rows(rows, key).len(),
    decreases rows.len(),
{
    reveal(Seq::filter);
    if rows.len() > 0 {
        lemma_clear_writes_counts_modified(rows.drop_last(), key);
    }
}

/// A run that marks records, one after the other, as cognified for a dataset: the record
/// that is pending is read, its new column is written, and the next one is pending.
pub struct MarkRun {
    keys: Vec<String>,
    next: usize,
    updated: u64,
    dataset_id: Uuid,
}

impl MarkRun {
    /// The keys of the records that are still to be read, in order.
    pub closed spec fn pending(self) -> Seq<Seq<char>> {
        texts_of(self.keys@).skip(self.next as int)
    }

    /// How many records have been marked.
    pub closed spec fn marked(self) -> nat {
        self.updated as nat
    }

    /// How many records the run is over.
    pub closed spec fn total(self) -> nat {
        self.keys@.len()
    }

    /// The dataset for which records are marked.
    pub closed spec fn dataset(self) -> Uuid {
        self.dataset_id
    }

    /// No more records are marked than have been read.
    #[verifier::type_invariant]
    spec fn well_formed(self) -> bool {
        self.updated <= self.next <= self.keys@.len()
    }

    /// A run over these records.
    pub fn new(data_ids: &[Uuid], dataset_id: Uuid) -> (run: MarkRun)
        ensures
            run.pending() == keys_of(data_ids@),
            run.pending().len() == data_ids@.len(),
            forall|i: int|
                0 <= i < data_ids@.len() ==> #[trigger] run.pending()[i] == ids::hex_key(
                    data_ids@[i],
                ),
            run.marked() == 0,
            run.total() == data_ids@.len(),
            run.dataset() == dataset_id,
    {
        let keys = record_keys(data_ids);
        assert(texts_of(keys@).len() == keys_of(data_ids@).len());
        assert(texts_of(keys@).skip(0) == texts_of(keys@));
        MarkRun { keys, next: 0, updated: 0, dataset_id }
    }

    /// The key of the record to read; nothing where the run is over.
    pub fn pending_key(&self) -> (key: Option<&String>)
        ensures
            match key {
                Some(k) => self.pending().len() > 0 && k@ == self.pending()[0],
                None => self.pending().len() == 0,
            },
    {
        proof {
            use_type_invariant(self);
        }
        if self.next < self.keys.len() {
            Some(&self.keys[self.next])
        } else {
            None
        }
    }

    /// Takes the answer for the pending record and hands back what to write to its column;
    /// a record that does not exist is passed over.
    pub fn on_record(&mut self, record: Option<Option<String>>) -> (written: Result<
        Option<String>,
        DatabaseError,
    >)
        requires
            old(self).pending().len() > 0,
        ensures
            written is Ok,
            final(self).pending() == old(self).pending().drop_first(),
            final(self).dataset() == old(self).dataset(),
            final(self).total() == old(self).total(),
            match record {
                None => written->Ok_0 is None && final(self).marked() == old(self).marked(),
                Some(status) => {
                    &&& final(self).marked() == old(self).marked() + 1
                    &&& written->Ok_0 is Some
                    &&& pipeline_status::marks(
                        text::owned_text(status),
                        written->Ok_0->Some_0@,
                        ids::hex_key(old(self).dataset()),
                    )
                },
            },
    {
        proof {
            use_type_invariant(&*self);
            assert(self.next < self.keys.len());
            assert(texts_of(self.keys@).skip(self.next as int).drop_first() == texts_of(
                self.keys@,
            ).skip(self.next + 1));
        }
        let status = match record {
            Some(status) => status,
            None => {
                self.next = self.next + 1;
                return Ok(None);
            },
        };
        match pipeline_status::mark_cognify_completed_for_data(as_text(&status), self.dataset_id) {
            Ok(written) => {
                self.next = self.next + 1;
                self.updated = self.updated + 1;
                Ok(Some(written))
            },
            Err(error) => Err(error),
        }
    }

    /// How many records have been marked: never more than have been read.
    pub fn updated(&self) -> (count: u64)
        ensures
            count == self.marked(),
            count + self.pending().len() <= self.total(),
    {
        proof {
            use_type_invariant(self);
        }
        self.updated
    }
}

}
