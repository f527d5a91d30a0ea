//! The `pipeline_status` column of a data record: a JSON object that holds, for each
//! pipeline, an object from dataset keys to the state that the record has reached there.

use vstd::prelude::*;
use vstd::string::*;

use crate::error::DatabaseError;
use crate::ids;
use crate::ids::Uuid;
use crate::json;
use crate::json::{Json, Members};
use crate::text;

verus! {

/// The state of an item that has been cognified for a dataset; incremental cognify skips it.
pub const COGNIFY_DATA_ITEM_COMPLETED: &'static str = "DATA_ITEM_PROCESSING_COMPLETED";

/// The pipeline whose entries say what has been cognified.
pub const COGNIFY_PIPELINE: &'static str = "cognify_pipeline";

/// What is to become of a record's `pipeline_status`.
#[derive(Debug, PartialEq, Eq)]
pub enum StatusChange {
    /// The column is left alone.
    Keep,
    /// The column is set to null.
    Clear,
    /// The column is set to this text.
    Replace(String),
}

/// What a [`StatusChange`] says.
pub enum StatusChangeView {
    Keep,
    Clear,
    Replace(Seq<char>),
}

impl View for StatusChange {
    type V = StatusChangeView;

    open spec fn view(&self) -> StatusChangeView {
        match self {
            StatusChange::Keep => StatusChangeView::Keep,
            StatusChange::Clear => StatusChangeView::Clear,
            StatusChange::Replace(text) => StatusChangeView::Replace(text@),
        }
    }
}

/// The column after the change.
pub open spec fn status_after(before: Option<Seq<char>>, change: StatusChangeView) -> Option<
    Seq<char>,
> {
    match change {
        StatusChangeView::Keep => before,
        StatusChangeView::Clear => None,
        StatusChangeView::Replace(text) => Some(text),
    }
}

/// The pipelines that a column holds; none where it is null, malformed or not an object.
pub open spec fn pipelines(status: Option<Seq<char>>) -> Members {
    match status {
        Some(text) => match json::parsed_json(text) {
            Some(Json::Object(members)) => members,
            _ => json::no_members(),
        },
        None => json::no_members(),
    }
}

/// What stands under a pipeline's name.
pub open spec fn member_at(top: Members, pipeline: Seq<char>) -> Option<Json> {
    if top.contains_key(pipeline) {
        Some(top[pipeline])
    } else {
        None
    }
}

/// A pipeline's entry for the dataset.
pub open spec fn entry_at(top: Members, pipeline: Seq<char>, key: Seq<char>) -> Option<Json> {
    if top.contains_key(pipeline) {
        json::member(top[pipeline], key)
    } else {
        None
    }
}

/// Whether a text reads back as these pipelines, but for the values of floating-point
/// numbers.
pub open spec fn reads_back(text: Seq<char>, top: Members) -> bool {
    json::parsed_json(text) is Some && json::reads_as(
        Json::Object(top),
        json::parsed_json(text)->Some_0,
        json::max_depth(),
    )
}

/// Whether a column holds these pipelines, but for the values of floating-point numbers: null
/// stands for none at all.
pub open spec fn column_holds(column: Option<Seq<char>>, top: Members) -> bool {
    match column {
        Some(text) => reads_back(text, top),
        None => top == json::no_members(),
    }
}

/// Whether the pipeline holds an entry for the dataset.
pub open spec fn has_entry(top: Members, pipeline: Seq<char>, key: Seq<char>) -> bool {
    entry_at(top, pipeline, key) is Some
}

/// Whether any pipeline holds an entry for the dataset.
pub open spec fn mentions(top: Members, key: Seq<char>) -> bool {
    exists|pipeline: Seq<char>| #[trigger] has_entry(top, pipeline, key)
}

/// Whether the pipelines mark the item as cognified for the dataset.
pub open spec fn completed_in(top: Members, key: Seq<char>) -> bool {
    entry_at(top, COGNIFY_PIPELINE@, key) == Some(Json::Str(COGNIFY_DATA_ITEM_COMPLETED@))
}

/// Whether the column marks the item as cognified for the dataset.
pub open spec fn completed(status: Option<Seq<char>>, key: Seq<char>) -> bool {
    completed_in(pipelines(status), key)
}

/// The members of an object; none for any other value.
pub open spec fn inner_members(top: Members, pipeline: Seq<char>) -> Members {
    if top.contains_key(pipeline) {
        match top[pipeline] {
            Json::Object(inner) => inner,
            _ => json::no_members(),
        }
    } else {
        json::no_members()
    }
}

/// The pipelines with the item marked as cognified for the dataset.
pub open spec fn marked(top: Members, key: Seq<char>) -> Members {
    top.insert(
        COGNIFY_PIPELINE@,
        Json::Object(
            inner_members(top, COGNIFY_PIPELINE@).insert(
                key,
                Json::Str(COGNIFY_DATA_ITEM_COMPLETED@),
            ),
        ),
    )
}

/// A pipeline's value without its entry for the dataset.
pub open spec fn without_entry(value: Json, key: Seq<char>) -> Json {
    match value {
        Json::Object(inner) => Json::Object(inner.remove(key)),
        other => other,
    }
}

/// The pipelines without any entry for the dataset, and without those that hold an object
/// with no entry at all.
pub open spec fn cleared(top: Members, key: Seq<char>) -> Members {
    Map::new(
        |pipeline: Seq<char>|
            top.contains_key(pipeline) && without_entry(top[pipeline], key) != Json::Object(
                json::no_members(),
            ),
        |pipeline: Seq<char>| without_entry(top[pipeline], key),
    )
}

/// The pipelines without the cognify entry for the dataset, and without the cognify pipeline
/// where that was its last entry.
pub open spec fn forgotten(top: Members, key: Seq<char>) -> Members {
    let inner = inner_members(top, COGNIFY_PIPELINE@).remove(key);
    if inner == json::no_members() {
        top.remove(COGNIFY_PIPELINE@)
    } else {
        top.insert(COGNIFY_PIPELINE@, Json::Object(inner))
    }
}

/// The change that writes these pipelines: null stands for none at all.
pub open spec fn change_to(top: Members) -> StatusChangeView {
    if top == json::no_members() {
        StatusChangeView::Clear
    } else {
        StatusChangeView::Replace(json::json_text(Json::Object(top)))
    }
}

/// The change that takes every entry for the dataset out of a column.
pub open spec fn clear_change(status: Option<Seq<char>>, key: Seq<char>) -> StatusChangeView {
    let top = pipelines(status);
    if mentions(top, key) {
        change_to(cleared(top, key))
    } else {
        StatusChangeView::Keep
    }
}

/// The change that takes the cognify entry for the dataset out of a column.
pub open spec fn forget_change(status: Option<Seq<char>>, key: Seq<char>) -> StatusChangeView {
    let top = pipelines(status);
    if has_entry(top, COGNIFY_PIPELINE@, key) {
        change_to(forgotten(top, key))
    } else {
        StatusChangeView::Keep
    }
}

/// Whether an entry stays when entries that hold an empty object are dropped, all of them or
/// only the one named.
pub open spec fn stays(only: Option<Seq<char>>, pipeline: Seq<char>, value: Json) -> bool {
    value != Json::Object(json::no_members()) || match only {
        Some(name) => pipeline != name,
        None => false,
    }
}

/// The entries that stay.
pub open spec fn retained(top: Members, only: Option<Seq<char>>) -> Members {
    Map::new(
        |pipeline: Seq<char>| top.contains_key(pipeline) && stays(only, pipeline, top[pipeline]),
        |pipeline: Seq<char>| top[pipeline],
    )
}

/// Whether an entry stays when entries that hold an empty object are dropped.
fn entry_stays(only: Option<&str>, pipeline: &String, value: &mut serde_json::Value) -> (stay: bool)
    ensures
        stay == stays(text::text_of(only), pipeline@, json::json_of(*old(value))),
        json::json_of(*final(value)) == json::json_of(*old(value)),
{
    let empty = match value.as_object_mut() {
        Some(map) => map.is_empty(),
        None => false,
    };
    if !empty {
        return true;
    }
    match only {
        Some(name) => !text::same_text(pipeline.as_str(), name),
        None => false,
    }
}

/// `serde_json::Map::retain` with [`entry_stays`] as the predicate: the members for which it
/// holds stay as they are, the others are gone.
#[verifier::external_body]
fn retain(map: &mut serde_json::Map<String, serde_json::Value>, only: Option<&str>)
    ensures
        json::members_of(*final(map)) == retained(json::members_of(*old(map)), text::text_of(only)),
{
    map.retain(|pipeline, value| entry_stays(only, pipeline, value));
}

/// The pipelines after the entries for the dataset have been taken out of the first `n`
/// pipelines named.
spec fn cleared_upto(top: Members, key: Seq<char>, names: Seq<String>, n: int) -> Members {
    Map::new(
        |pipeline: Seq<char>| top.contains_key(pipeline),
        |pipeline: Seq<char>|
            if exists|j: int| 0 <= j < n && #[trigger] names[j]@ == pipeline {
                without_entry(top[pipeline], key)
            } else {
                top[pipeline]
            },
    )
}

/// Takes the entry for the dataset out of one pipeline; says whether there was one.
fn remove_entry(
    top: &mut serde_json::Map<String, serde_json::Value>,
    pipeline: &str,
    key: &str,
) -> (removed: bool)
    ensures
        removed == has_entry(json::members_of(*old(top)), pipeline@, key@),
        json::members_of(*final(top)) == if json::members_of(*old(top)).contains_key(pipeline@) {
            json::members_of(*old(top)).insert(
                pipeline@,
                without_entry(json::members_of(*old(top))[pipeline@], key@),
            )
        } else {
            json::members_of(*old(top))
        },
{
    match json::get_mut(top, pipeline) {
        Some(value) => match value.as_object_mut() {
            Some(inner) => json::remove(inner, key).is_some(),
            None => false,
        },
        None => false,
    }
}

/// Takes every entry for the dataset out of the pipelines, and, where there was one, drops
/// the pipelines that hold an object with no entry; says whether there was one.
pub fn clear_entries(top: &mut serde_json::Map<String, serde_json::Value>, key: &str) -> (modified:
    bool)
    ensures
        modified == mentions(json::members_of(*old(top)), key@),
        json::members_of(*final(top)) == if modified {
            cleared(json::members_of(*old(top)), key@)
        } else {
            json::members_of(*old(top))
        },
{
    let ghost before = json::members_of(*top);
    let names = json::keys(top);
    let mut modified: bool = false;
    let mut i: usize = 0;
    assert(cleared_upto(before, key@, names@, 0) =~= before);
    while i < names.len()
        invariant
            i <= names.len(),
            forall|j: int| 0 <= j < names@.len() ==> before.contains_key(#[trigger] names@[j]@),
            forall|j: int, k: int|
                0 <= j < k < names@.len() ==> #[trigger] names@[j]@ != #[trigger] names@[k]@,
            json::members_of(*top) == cleared_upto(before, key@, names@, i as int),
            modified == exists|j: int|
                0 <= j < i && has_entry(before, #[trigger] names@[j]@, key@),
        decreases names.len() - i,
    {
        let ghost held = json::members_of(*top);
        assert(before.contains_key(names@[i as int]@));
        assert(held[names@[i as int]@] == before[names@[i as int]@]);
        if remove_entry(top, names[i].as_str(), key) {
            modified = true;
        }
        assert(json::members_of(*top) =~= cleared_upto(before, key@, names@, i + 1));
        i = i + 1;
    }
    let ghost stripped = json::members_of(*top);
    if modified {
        retain(top, None);
        assert(json::members_of(*top) =~= cleared(before, key@));
    } else {
        assert(json::members_of(*top) =~= before) by {
            assert forall|p: Seq<char>| before.contains_key(p) implies stripped[p]
                == before[p] by {
                assert(!has_entry(before, p, key@));
                if before[p] is Object {
                    assert((before[p]->Object_0).remove(key@) =~= before[p]->Object_0);
                }
            }
        }
    }
    modified
}

/// Takes the cognify entry for the dataset out of the pipelines, and the cognify pipeline
/// with it where that was its last entry; says whether there was one.
pub fn forget_entry(top: &mut serde_json::Map<String, serde_json::Value>, key: &str) -> (modified:
    bool)
    ensures
        modified == has_entry(json::members_of(*old(top)), COGNIFY_PIPELINE@, key@),
        json::members_of(*final(top)) == if modified {
            forgotten(json::members_of(*old(top)), key@)
        } else {
            json::members_of(*old(top))
        },
{
    let ghost before = json::members_of(*top);
    let modified = remove_entry(top, COGNIFY_PIPELINE, key);
    if modified {
        retain(top, Some(COGNIFY_PIPELINE));
        assert(json::members_of(*top) =~= forgotten(before, key@));
    } else {
        assert(json::members_of(*top) =~= before) by {
            let p = COGNIFY_PIPELINE@;
            if before.contains_key(p) && before[p] is Object {
                assert((before[p]->Object_0).remove(key@) =~= before[p]->Object_0);
            }
        }
    }
    modified
}

/// Marks the item as cognified for the dataset. A cognify pipeline that is not an object is
/// replaced; every other entry stays.
pub fn mark_entry(top: &mut serde_json::Map<String, serde_json::Value>, key: &str)
    ensures
        json::members_of(*final(top)) == marked(json::members_of(*old(top)), key@),
{
    let ghost before = json::members_of(*top);
    let mut inner = match json::remove(top, COGNIFY_PIPELINE) {
        Some(value) => match json::into_object(value) {
            Some(map) => map,
            None => serde_json::Map::new(),
        },
        None => serde_json::Map::new(),
    };
    assert(json::members_of(inner) == inner_members(before, COGNIFY_PIPELINE@));
    inner.insert(key.to_owned(), json::string_value(COGNIFY_DATA_ITEM_COMPLETED.to_owned()));
    top.insert(COGNIFY_PIPELINE.to_owned(), json::object_value(inner));
    assert(json::members_of(*top) =~= marked(before, key@));
}

/// Whether a document marks the item as cognified for the dataset.
pub fn is_completed_in(document: &serde_json::Value, key: &str) -> (done: bool)
    ensures
        done == match json::json_of(*document) {
            Json::Object(top) => completed_in(top, key@),
            _ => false,
        },
        done <==> match json::member(json::json_of(*document), "cognify_pipeline"@) {
            Some(inner) => json::member(inner, key@) == Some(
                Json::Str("DATA_ITEM_PROCESSING_COMPLETED"@),
            ),
            None => false,
        },
{
    match json::get(document, COGNIFY_PIPELINE) {
        Some(inner) => match json::get(inner, key) {
            Some(entry) => match entry.as_str() {
                Some(state) => text::same_text(state, COGNIFY_DATA_ITEM_COMPLETED),
                None => false,
            },
            None => false,
        },
        None => false,
    }
}

/// Whether a record's `pipeline_status` marks it as cognified for the dataset. A column that
/// is null or malformed reads as "not yet", so that a bad record is processed again rather
/// than dropped.
pub fn is_cognify_completed_for_dataset(pipeline_status: Option<&str>, dataset_id: Uuid) -> (done:
    bool)
    ensures
        done == completed(text::text_of(pipeline_status), ids::hex_key(dataset_id)),
        done ==> {
            &&& pipeline_status is Some
            &&& json::parsed_json(pipeline_status->Some_0@) matches Some(document)
            &&& json::member(document, "cognify_pipeline"@) matches Some(inner)
            &&& json::member(inner, ids::hex_key(dataset_id)) == Some(
                Json::Str("DATA_ITEM_PROCESSING_COMPLETED"@),
            )
        },
        pipeline_status matches Some(raw) ==> json::parsed_json(raw@) matches Some(document)
            ==> json::member(document, "cognify_pipeline"@) matches Some(inner) ==> json::member(
            inner,
            ids::hex_key(dataset_id),
        ) matches Some(Json::Str(state)) ==> done == (state == "DATA_ITEM_PROCESSING_COMPLETED"@),
{
    match pipeline_status {
        Some(raw) => match json::parse(raw) {
            Some(document) => is_completed_in(&document, ids::to_hex(dataset_id).as_str()),
            None => false,
        },
        None => false,
    }
}

/// The pipelines that a column holds, ready to be changed.
fn read_pipelines(pipeline_status: Option<&str>) -> (top: serde_json::Map<
    String,
    serde_json::Value,
>)
    ensures
        json::members_of(top) == pipelines(text::text_of(pipeline_status)),
        json::within_depth(Json::Object(json::members_of(top)), json::max_depth()),
{
    match pipeline_status {
        Some(raw) => match json::parse(raw) {
            Some(document) => match json::into_object(document) {
                Some(map) => map,
                None => serde_json::Map::new(),
            },
            None => serde_json::Map::new(),
        },
        None => serde_json::Map::new(),
    }
}

/// What was written is found again, entry by entry, in what is read.
proof fn lemma_read_back(written: Members, text: Seq<char>)
    requires
        reads_back(text, written),
    ensures
        forall|pipeline: Seq<char>, key: Seq<char>|
            has_entry(pipelines(Some(text)), pipeline, key) == #[trigger] has_entry(
                written,
                pipeline,
                key,
            ),
        forall|key: Seq<char>|
            completed(Some(text), key) == #[trigger] completed_in(written, key),
{
    reveal_with_fuel(json::reads_as, 4);
    let read = pipelines(Some(text));
    assert(read.dom() == written.dom());
    assert forall|pipeline: Seq<char>, key: Seq<char>|
        has_entry(read, pipeline, key) == #[trigger] has_entry(written, pipeline, key) by {
        if written.contains_key(pipeline) {
            assert(json::reads_as(written[pipeline], read[pipeline], 126));
            assert(written[pipeline] is Object == read[pipeline] is Object);
            if written[pipeline] is Object {
                assert((written[pipeline]->Object_0).dom() == (read[pipeline]->Object_0).dom());
            }
        }
    }
    assert forall|key: Seq<char>|
        completed(Some(text), key) == #[trigger] completed_in(written, key) by {
        let p = COGNIFY_PIPELINE@;
        if written.contains_key(p) {
            assert(json::reads_as(written[p], read[p], 126));
            if written[p] is Object {
                let a = written[p]->Object_0;
                let b = read[p]->Object_0;
                assert(a.dom() == b.dom());
                if a.contains_key(key) {
                    assert(json::reads_as(a[key], b[key], 125));
                }
            }
        }
    }
}

/// Writes the pipelines as text.
fn write_pipelines(top: serde_json::Map<String, serde_json::Value>) -> (written: Result<
    String,
    DatabaseError,
>)
    requires
        json::within_depth(Json::Object(json::members_of(top)), json::max_depth()),
    ensures
        written is Ok,
        written->Ok_0@ == json::json_text(Json::Object(json::members_of(top))),
        reads_back(written->Ok_0@, json::members_of(top)),
        forall|pipeline: Seq<char>, key: Seq<char>|
            has_entry(pipelines(Some(written->Ok_0@)), pipeline, key) == #[trigger] has_entry(
                json::members_of(top),
                pipeline,
                key,
            ),
        forall|key: Seq<char>|
            completed(Some(written->Ok_0@), key) == #[trigger] completed_in(
                json::members_of(top),
                key,
            ),
{
    let ghost members = json::members_of(top);
    let document = json::object_value(top);
    match json::print(&document) {
        Ok(written) => {
            proof {
                lemma_read_back(members, written@);
            }
            Ok(written)
        },
        Err(error) => {
            let mut message = "Failed to serialize pipeline_status: ".to_owned();
            message.append(json::error_text(&error).as_str());
            Err(DatabaseError::QueryError(message))
        },
    }
}

/// Marking and taking out entries nests nothing deeper.
proof fn lemma_depth_kept(top: Members, key: Seq<char>)
    requires
        json::within_depth(Json::Object(top), json::max_depth()),
    ensures
        json::within_depth(Json::Object(marked(top, key)), json::max_depth()),
        json::within_depth(Json::Object(cleared(top, key)), json::max_depth()),
        json::within_depth(Json::Object(forgotten(top, key)), json::max_depth()),
{
    json::lemma_within_depth_of_object(top, json::max_depth());
    assert forall|pipeline: Seq<char>| top.contains_key(pipeline) implies json::within_depth(
        #[trigger] without_entry(top[pipeline], key),
        126,
    ) by {
        if let Json::Object(inner) = top[pipeline] {
            json::lemma_within_depth_of_object(inner, 126);
            json::lemma_within_depth_of_object(inner.remove(key), 126);
        }
    }
    let inner = inner_members(top, COGNIFY_PIPELINE@);
    json::lemma_within_depth_of_object(inner, 126);
    json::lemma_within_depth_of_object(inner.remove(key), 126);
    json::lemma_within_depth_of_object(
        inner.insert(key, Json::Str(COGNIFY_DATA_ITEM_COMPLETED@)),
        126,
    );
    json::lemma_within_depth_of_object(marked(top, key), json::max_depth());
    json::lemma_within_depth_of_object(cleared(top, key), json::max_depth());
    json::lemma_within_depth_of_object(forgotten(top, key), json::max_depth());
}

/// A column that is null, malformed or not an object reads as "not yet" for every dataset.
pub proof fn lemma_unreadable_reads_not_yet(status: Option<Seq<char>>, key: Seq<char>)
    requires
        status is None || json::parsed_json(status->Some_0) is None || !(json::parsed_json(
            status->Some_0,
        )->Some_0 is Object),
    ensures
        !completed(status, key),
        clear_change(status, key) == StatusChangeView::Keep,
        forget_change(status, key) == StatusChangeView::Keep,
{
}

/// Marking an item as cognified for a dataset marks it so, and keeps every other entry: the
/// other pipelines whole, and in the cognify pipeline what stands for other datasets.
pub proof fn lemma_marking_keeps_the_rest(top: Members, key: Seq<char>)
    ensures
        completed_in(marked(top, key), key),
        forall|pipeline: Seq<char>|
            pipeline != COGNIFY_PIPELINE@ ==> member_at(marked(top, key), pipeline) == #[trigger] member_at(
                top,
                pipeline,
            ),
        forall|other: Seq<char>|
            other != key ==> entry_at(marked(top, key), COGNIFY_PIPELINE@, other) == #[trigger] entry_at(
                top,
                COGNIFY_PIPELINE@,
                other,
            ),
{
}

/// Clearing a dataset leaves no entry for it in any pipeline, and keeps every entry for
/// another dataset as well as every pipeline that does not hold an object.
pub proof fn lemma_clearing_keeps_the_rest(top: Members, key: Seq<char>)
    ensures
        !mentions(cleared(top, key), key),
        forall|pipeline: Seq<char>, other: Seq<char>|
            other != key ==> entry_at(cleared(top, key), pipeline, other) == #[trigger] entry_at(
                top,
                pipeline,
                other,
            ),
        forall|pipeline: Seq<char>|
            top.contains_key(pipeline) && !(top[pipeline] is Object) ==> member_at(
                cleared(top, key),
                pipeline,
            ) == #[trigger] member_at(top, pipeline),
{
    assert forall|pipeline: Seq<char>| !has_entry(cleared(top, key), pipeline, key) by {}
    assert forall|pipeline: Seq<char>, other: Seq<char>| other != key implies entry_at(
        cleared(top, key),
        pipeline,
        other,
    ) == #[trigger] entry_at(top, pipeline, other) by {
        if top.contains_key(pipeline) {
            if let Json::Object(inner) = top[pipeline] {
                if inner.contains_key(other) {
                    assert(inner.remove(key).contains_key(other));
                    assert(inner.remove(key) != json::no_members());
                }
            }
        }
    }
}

/// Forgetting an item for a dataset leaves no cognify entry for it, and keeps every other
/// entry: the other pipelines whole, and in the cognify pipeline what stands for other
/// datasets.
pub proof fn lemma_forgetting_keeps_the_rest(top: Members, key: Seq<char>)
    ensures
        !has_entry(forgotten(top, key), COGNIFY_PIPELINE@, key),
        !completed_in(forgotten(top, key), key),
        forall|pipeline: Seq<char>|
            pipeline != COGNIFY_PIPELINE@ ==> member_at(forgotten(top, key), pipeline) == #[trigger] member_at(
                top,
                pipeline,
            ),
        forall|other: Seq<char>|
            other != key ==> entry_at(forgotten(top, key), COGNIFY_PIPELINE@, other) == #[trigger] entry_at(
                top,
                COGNIFY_PIPELINE@,
                other,
            ),
{
    let inner = inner_members(top, COGNIFY_PIPELINE@);
    assert forall|other: Seq<char>| other != key implies entry_at(
        forgotten(top, key),
        COGNIFY_PIPELINE@,
        other,
    ) == #[trigger] entry_at(top, COGNIFY_PIPELINE@, other) by {
        if inner.contains_key(other) {
            assert(inner.remove(key).contains_key(other));
            assert(inner.remove(key) != json::no_members());
        }
    }
}

/// Forgetting undoes marking: the pipelines are again what they were before the item was
/// marked, where it was not marked already and the cognify pipeline was missing or held an
/// object with an entry.
pub proof fn lemma_forgetting_undoes_marking(top: Members, key: Seq<char>)
    requires
        !has_entry(top, COGNIFY_PIPELINE@, key),
        top.contains_key(COGNIFY_PIPELINE@) ==> inner_members(top, COGNIFY_PIPELINE@)
            != json::no_members(),
    ensures
        has_entry(marked(top, key), COGNIFY_PIPELINE@, key),
        forgotten(marked(top, key), key) == top,
{
    let inner = inner_members(top, COGNIFY_PIPELINE@);
    let done = Json::Str(COGNIFY_DATA_ITEM_COMPLETED@);
    assert(inner.insert(key, done).remove(key) =~= inner);
    assert(forgotten(marked(top, key), key) =~= top);
}

/// Clearing a dataset takes the cognify entry with it: the item is to be cognified again.
pub proof fn lemma_clearing_forgets(top: Members, key: Seq<char>)
    ensures
        !completed_in(cleared(top, key), key),
{
    lemma_clearing_keeps_the_rest(top, key);
    assert(!has_entry(cleared(top, key), COGNIFY_PIPELINE@, key));
}

/// What it takes for `after` to record an item as cognified for the dataset where its column
/// was `before`: it is the text of the marked pipelines and reads back as them, the item
/// reads as cognified for the dataset, what it reads as for the others is unchanged, and so
/// is which other entries there are.
pub open spec fn marks(before: Option<Seq<char>>, after: Seq<char>, key: Seq<char>) -> bool {
    &&& after == json::json_text(Json::Object(marked(pipelines(before), key)))
    &&& reads_back(after, marked(pipelines(before), key))
    &&& completed(Some(after), key)
    &&& forall|other: Seq<char>|
        other != key ==> completed(Some(after), other) == #[trigger] completed(before, other)
    &&& forall|pipeline: Seq<char>, other: Seq<char>|
        pipeline != COGNIFY_PIPELINE@ || other != key ==> has_entry(
            pipelines(Some(after)),
            pipeline,
            other,
        ) == #[trigger] has_entry(pipelines(before), pipeline, other)
}

/// Datasets do not mix: marking an item for one dataset leaves what it reads as for another
/// unchanged.
pub proof fn lemma_datasets_do_not_mix(
    before: Option<Seq<char>>,
    after: Seq<char>,
    dataset: Uuid,
    other: Uuid,
)
    requires
        marks(before, after, ids::hex_key(dataset)),
        other != dataset,
    ensures
        completed(Some(after), ids::hex_key(dataset)),
        completed(Some(after), ids::hex_key(other)) == completed(before, ids::hex_key(other)),
{
    ids::lemma_hex_key_distinct(other, dataset);
}

/// The column that records an item as cognified for the dataset, every other entry kept.
pub fn mark_cognify_completed_for_data(pipeline_status: Option<&str>, dataset_id: Uuid) -> (written:
    Result<String, DatabaseError>)
    ensures
        written is Ok,
        marks(text::text_of(pipeline_status), written->Ok_0@, ids::hex_key(dataset_id)),
{
    let key = ids::to_hex(dataset_id);
    let mut top = read_pipelines(pipeline_status);
    let ghost before = json::members_of(top);
    mark_entry(&mut top, key.as_str());
    proof {
        lemma_depth_kept(before, key@);
        lemma_marking_keeps_the_rest(before, key@);
        assert forall|other: Seq<char>| other != key@ implies completed_in(
            json::members_of(top),
            other,
        ) == #[trigger] completed_in(before, other) by {
            assert(entry_at(before, COGNIFY_PIPELINE@, other) == entry_at(
                json::members_of(top),
                COGNIFY_PIPELINE@,
                other,
            ));
        }
        assert forall|pipeline: Seq<char>, other: Seq<char>|
            pipeline != COGNIFY_PIPELINE@ || other != key@ implies has_entry(
            json::members_of(top),
            pipeline,
            other,
        ) == #[trigger] has_entry(before, pipeline, other) by {
            if pipeline == COGNIFY_PIPELINE@ {
                assert(entry_at(before, pipeline, other) == entry_at(
                    json::members_of(top),
                    pipeline,
                    other,
                ));
            } else {
                assert(member_at(before, pipeline) == member_at(json::members_of(top), pipeline));
            }
        }
    }
    write_pipelines(top)
}

/// What was kept of a column: which datasets other than the one named have an entry in which
/// pipeline, and for which of them the item reads as cognified.
pub open spec fn others_kept(
    before: Option<Seq<char>>,
    after: Option<Seq<char>>,
    key: Seq<char>,
) -> bool {
    &&& forall|other: Seq<char>|
        other != key ==> completed(after, other) == #[trigger] completed(before, other)
    &&& forall|pipeline: Seq<char>, other: Seq<char>|
        other != key ==> has_entry(pipelines(after), pipeline, other) == #[trigger] has_entry(
            pipelines(before),
            pipeline,
            other,
        )
}

/// Turns changed pipelines into the change of the column.
fn change_of(top: serde_json::Map<String, serde_json::Value>) -> (change: Result<
    StatusChange,
    DatabaseError,
>)
    requires
        json::within_depth(Json::Object(json::members_of(top)), json::max_depth()),
    ensures
        change is Ok,
        change->Ok_0@ == change_to(json::members_of(top)),
        change->Ok_0@ matches StatusChangeView::Replace(text) ==> reads_back(
            text,
            json::members_of(top),
        ),
        forall|before: Option<Seq<char>>, pipeline: Seq<char>, key: Seq<char>|
            has_entry(
                pipelines(#[trigger] status_after(before, change->Ok_0@)),
                pipeline,
                key,
            ) == #[trigger] has_entry(json::members_of(top), pipeline, key),
        forall|before: Option<Seq<char>>, key: Seq<char>|
            completed(#[trigger] status_after(before, change->Ok_0@), key)
                == #[trigger] completed_in(json::members_of(top), key),
{
    if top.is_empty() {
        Ok(StatusChange::Clear)
    } else {
        match write_pipelines(top) {
            Ok(written) => Ok(StatusChange::Replace(written)),
            Err(error) => Err(error),
        }
    }
}

/// What it takes for `after` to be a column without any entry for the dataset where it was
/// `before`: it is what the change leaves, which is `before` itself where there was no entry and
/// holds the cleared pipelines else; no entry is left, the item reads as "not yet", clearing
/// again would change nothing, and what stands for other datasets is kept.
pub open spec fn clears(
    before: Option<Seq<char>>,
    after: Option<Seq<char>>,
    key: Seq<char>,
) -> bool {
    &&& after == status_after(before, clear_change(before, key))
    &&& mentions(pipelines(before), key) ==> column_holds(after, cleared(pipelines(before), key))
    &&& !mentions(pipelines(after), key)
    &&& !completed(after, key)
    &&& clear_change(after, key) == StatusChangeView::Keep
    &&& others_kept(before, after, key)
}

/// The change that takes every entry for the dataset out of a record's `pipeline_status`.
pub fn clear_status_for_dataset(pipeline_status: Option<&str>, dataset_id: Uuid) -> (change: Result<
    StatusChange,
    DatabaseError,
>)
    ensures
        change is Ok,
        change->Ok_0@ == clear_change(text::text_of(pipeline_status), ids::hex_key(dataset_id)),
        change->Ok_0 is Keep <==> forall|pipeline: Seq<char>|
            !#[trigger] has_entry(
                pipelines(text::text_of(pipeline_status)),
                pipeline,
                ids::hex_key(dataset_id),
            ),
        clears(
            text::text_of(pipeline_status),
            status_after(text::text_of(pipeline_status), change->Ok_0@),
            ids::hex_key(dataset_id),
        ),
{
    let key = ids::to_hex(dataset_id);
    let ghost status = text::text_of(pipeline_status);
    let mut top = read_pipelines(pipeline_status);
    let ghost before = json::members_of(top);
    if !clear_entries(&mut top, key.as_str()) {
        assert(!has_entry(before, COGNIFY_PIPELINE@, key@));
        return Ok(StatusChange::Keep);
    }
    proof {
        lemma_depth_kept(before, key@);
        lemma_clearing_keeps_the_rest(before, key@);
        lemma_clearing_forgets(before, key@);
    }
    let ghost after = json::members_of(top);
    let change = change_of(top);
    proof {
        let left = status_after(status, change->Ok_0@);
        assert forall|pipeline: Seq<char>| !has_entry(pipelines(left), pipeline, key@) by {
            assert(!has_entry(after, pipeline, key@));
        }
        assert forall|other: Seq<char>| other != key@ implies completed(left, other)
            == #[trigger] completed(status, other) by {
            assert(entry_at(before, COGNIFY_PIPELINE@, other) == entry_at(
                after,
                COGNIFY_PIPELINE@,
                other,
            ));
            assert(completed_in(after, other) == completed_in(before, other));
        }
        assert forall|pipeline: Seq<char>, other: Seq<char>| other != key@ implies has_entry(
            pipelines(left),
            pipeline,
            other,
        ) == #[trigger] has_entry(pipelines(status), pipeline, other) by {
            assert(entry_at(before, pipeline, other) == entry_at(after, pipeline, other));
            assert(has_entry(after, pipeline, other) == has_entry(before, pipeline, other));
        }
        assert(completed_in(after, key@) == completed(left, key@));
    }
    change
}

/// What it takes for `after` to be a column without the cognify entry for the dataset where it
/// was `before`: it is what the change leaves, which is `before` itself where there was no such
/// entry and holds the other pipelines and entries else; the entry is gone, the item reads as
/// "not yet", forgetting it again would change nothing, and every other entry is kept.
pub open spec fn forgets(
    before: Option<Seq<char>>,
    after: Option<Seq<char>>,
    key: Seq<char>,
) -> bool {
    &&& after == status_after(before, forget_change(before, key))
    &&& has_entry(pipelines(before), COGNIFY_PIPELINE@, key) ==> column_holds(
        after,
        forgotten(pipelines(before), key),
    )
    &&& !has_entry(pipelines(after), COGNIFY_PIPELINE@, key)
    &&& !completed(after, key)
    &&& forget_change(after, key) == StatusChangeView::Keep
    &&& others_kept(before, after, key)
    &&& forall|pipeline: Seq<char>|
        pipeline != COGNIFY_PIPELINE@ ==> has_entry(pipelines(after), pipeline, key)
            == #[trigger] has_entry(pipelines(before), pipeline, key)
}

/// The change that takes the cognify entry for the dataset out of a record's
/// `pipeline_status`; nothing changes where there is no record.
pub fn clear_cognify_pipeline_status_for_data(
    record: Option<Option<&str>>,
    dataset_id: Uuid,
) -> (change: Result<StatusChange, DatabaseError>)
    ensures
        change is Ok,
        record is None ==> change->Ok_0@ == StatusChangeView::Keep,
        change->Ok_0 is Keep <==> (record matches Some(pipeline_status) ==> !has_entry(
            pipelines(text::text_of(pipeline_status)),
            "cognify_pipeline"@,
            ids::hex_key(dataset_id),
        )),
        record matches Some(pipeline_status) ==> change->Ok_0@ == forget_change(
            text::text_of(pipeline_status),
            ids::hex_key(dataset_id),
        ) && forgets(
            text::text_of(pipeline_status),
            status_after(text::text_of(pipeline_status), change->Ok_0@),
            ids::hex_key(dataset_id),
        ),
{
    let pipeline_status = match record {
        Some(pipeline_status) => pipeline_status,
        None => {
            return Ok(StatusChange::Keep);
        },
    };
    let key = ids::to_hex(dataset_id);
    let ghost status = text::text_of(pipeline_status);
    let mut top = read_pipelines(pipeline_status);
    let ghost before = json::members_of(top);
    if !forget_entry(&mut top, key.as_str()) {
        return Ok(StatusChange::Keep);
    }
    proof {
        lemma_depth_kept(before, key@);
        lemma_forgetting_keeps_the_rest(before, key@);
    }
    let ghost after = json::members_of(top);
    let change = change_of(top);
    proof {
        let left = status_after(status, change->Ok_0@);
        assert(!has_entry(after, COGNIFY_PIPELINE@, key@));
        assert(completed_in(after, key@) == completed(left, key@));
        assert forall|other: Seq<char>| other != key@ implies completed(left, other)
            == #[trigger] completed(status, other) by {
            assert(entry_at(before, COGNIFY_PIPELINE@, other) == entry_at(
                after,
                COGNIFY_PIPELINE@,
                other,
            ));
            assert(completed_in(after, other) == completed_in(before, other));
        }
        assert forall|pipeline: Seq<char>, other: Seq<char>|
            pipeline != COGNIFY_PIPELINE@ || other != key@ implies has_entry(
            pipelines(left),
            pipeline,
            other,
        ) == #[trigger] has_entry(pipelines(status), pipeline, other) by {
            if pipeline == COGNIFY_PIPELINE@ {
                assert(entry_at(before, pipeline, other) == entry_at(after, pipeline, other));
            } else {
                assert(member_at(before, pipeline) == member_at(after, pipeline));
            }
            assert(has_entry(after, pipeline, other) == has_entry(before, pipeline, other));
        }
    }
    change
}

/// A column reads as the pipelines that it holds, and as nothing else where they hold no
/// floating-point number.
pub proof fn lemma_column_reads_as_held(column: Option<Seq<char>>, top: Members)
    requires
        column_holds(column, top),
    ensures
        json::reads_as(Json::Object(top), Json::Object(pipelines(column)), json::max_depth()),
        json::float_free(Json::Object(top), json::max_depth()) ==> pipelines(column) == top,
{
    json::lemma_reads_as_of_object(top, pipelines(column), json::max_depth());
    if json::float_free(Json::Object(top), json::max_depth()) {
        json::lemma_float_free_reads_exactly(
            Json::Object(top),
            Json::Object(pipelines(column)),
            json::max_depth(),
        );
    }
}

/// Forgetting undoes marking on what a marked column reads as: without the entry, its
/// pipelines are again what the column held before the item was marked, but for the values of
/// floating-point numbers. This is so where the item was not marked already and the cognify
/// pipeline was missing or held an object with an entry.
pub proof fn lemma_forgetting_undoes_marking_read_back(
    before: Option<Seq<char>>,
    after: Seq<char>,
    key: Seq<char>,
)
    requires
        marks(before, after, key),
        !has_entry(pipelines(before), COGNIFY_PIPELINE@, key),
        pipelines(before).contains_key(COGNIFY_PIPELINE@) ==> inner_members(
            pipelines(before),
            COGNIFY_PIPELINE@,
        ) != json::no_members(),
    ensures
        has_entry(pipelines(Some(after)), COGNIFY_PIPELINE@, key),
        json::reads_as(
            Json::Object(pipelines(before)),
            Json::Object(forgotten(pipelines(Some(after)), key)),
            json::max_depth(),
        ),
        pipelines(before) == json::no_members() ==> forgotten(pipelines(Some(after)), key)
            == json::no_members(),
{
    let p = COGNIFY_PIPELINE@;
    let top = pipelines(before);
    let inner = inner_members(top, p);
    let written = marked(top, key);
    let written_inner = inner.insert(key, Json::Str(COGNIFY_DATA_ITEM_COMPLETED@));
    let read = pipelines(Some(after));
    json::lemma_reads_as_of_object(written, read, json::max_depth());
    assert(read.dom() == written.dom());
    assert(read.contains_key(p));
    assert(json::reads_as(written[p], read[p], 126));
    let read_inner = read[p]->Object_0;
    json::lemma_reads_as_of_object(written_inner, read_inner, 126);
    let left_inner = read_inner.remove(key);
    let left = forgotten(read, key);
    assert(left_inner.dom() =~= inner.dom());
    assert forall|name: Seq<char>| inner.contains_key(name) implies json::reads_as(
        #[trigger] inner[name],
        left_inner[name],
        125,
    ) by {
        assert(json::reads_as(written_inner[name], read_inner[name], 125));
    }
    json::lemma_reads_as_of_object(inner, left_inner, 126);
    if inner == json::no_members() {
        assert(left_inner =~= json::no_members());
    } else {
        assert(left_inner != json::no_members()) by {
            if left_inner == json::no_members() {
                assert(inner =~= json::no_members());
            }
        }
    }
    assert(left.dom() =~= top.dom());
    assert forall|name: Seq<char>| top.contains_key(name) implies json::reads_as(
        #[trigger] top[name],
        left[name],
        126,
    ) by {
        if name != p {
            assert(json::reads_as(written[name], read[name], 126));
        }
    }
    json::lemma_reads_as_of_object(top, left, json::max_depth());
    if top == json::no_members() {
        assert(left =~= json::no_members());
    }
}

/// Forgetting undoes marking, column by column: after an item was marked and then forgotten
/// for a dataset, its column reads as it did before, but for the values of floating-point
/// numbers; it reads exactly as before where there are none, and it is null where it held no
/// pipeline. This is so where the item was not marked already and the cognify pipeline was
/// missing or held an object with an entry.
pub proof fn lemma_forgetting_undoes_marking_of_columns(
    before: Option<Seq<char>>,
    between: Seq<char>,
    after: Option<Seq<char>>,
    key: Seq<char>,
)
    requires
        marks(before, between, key),
        forgets(Some(between), after, key),
        !has_entry(pipelines(before), COGNIFY_PIPELINE@, key),
        pipelines(before).contains_key(COGNIFY_PIPELINE@) ==> inner_members(
            pipelines(before),
            COGNIFY_PIPELINE@,
        ) != json::no_members(),
    ensures
        json::reads_as(
            Json::Object(pipelines(before)),
            Json::Object(pipelines(after)),
            json::max_depth(),
        ),
        json::float_free(Json::Object(pipelines(before)), json::max_depth()) ==> pipelines(after)
            == pipelines(before),
        pipelines(before) == json::no_members() ==> after is None,
{
    lemma_forgetting_undoes_marking_read_back(before, between, key);
    let left = forgotten(pipelines(Some(between)), key);
    lemma_column_reads_as_held(after, left);
    json::lemma_reads_as_transitive(
        Json::Object(pipelines(before)),
        Json::Object(left),
        Json::Object(pipelines(after)),
        json::max_depth(),
    );
    if json::float_free(Json::Object(pipelines(before)), json::max_depth()) {
        json::lemma_float_free_reads_exactly(
            Json::Object(pipelines(before)),
            Json::Object(pipelines(after)),
            json::max_depth(),
        );
    }
}

/// What a column holds is what it parses to: its pipelines are the members of the document,
/// and the entry of a pipeline for a dataset is the member's member under the dataset's key.
pub proof fn lemma_column_is_what_it_parses_to(
    column: Option<Seq<char>>,
    pipeline: Seq<char>,
    key: Seq<char>,
)
    ensures
        column is None ==> pipelines(column) == Map::<Seq<char>, Json>::empty(),
        column matches Some(text) ==> json::parsed_json(text) is None ==> pipelines(column)
            == Map::<Seq<char>, Json>::empty(),
        column matches Some(text) ==> json::parsed_json(text) matches Some(document) ==> {
            &&& member_at(pipelines(column), pipeline) == json::member(document, pipeline)
            &&& pipelines(column).contains_key(pipeline) <==> json::member(
                document,
                pipeline,
            ) is Some
            &&& pipelines(column).contains_key(pipeline) ==> Some(pipelines(column)[pipeline])
                == json::member(document, pipeline)
            &&& entry_at(pipelines(column), pipeline, key) == match json::member(
                document,
                pipeline,
            ) {
                Some(inner) => json::member(inner, key),
                None => None,
            }
        },
        has_entry(pipelines(column), pipeline, key) <==> {
            &&& column matches Some(text)
            &&& json::parsed_json(text) matches Some(document)
            &&& json::member(document, pipeline) matches Some(inner)
            &&& json::member(inner, key) is Some
        },
        has_entry(pipelines(column), pipeline, key) ==> mentions(pipelines(column), key),
        mentions(pipelines(column), key) ==> exists|p: Seq<char>|
            has_entry(pipelines(column), p, key),
{
}

/// An item reads as cognified for a dataset exactly if its column parses to an object whose
/// member `cognify_pipeline` is an object whose member under the dataset's key is the string
/// `DATA_ITEM_PROCESSING_COMPLETED`, character for character. Any other string there, however
/// it begins, reads as "not yet", and so does any other value.
pub proof fn lemma_cognified_is_one_exact_string(column: Option<Seq<char>>, key: Seq<char>)
    ensures
        completed(column, key) <==> {
            &&& column matches Some(text)
            &&& json::parsed_json(text) matches Some(document)
            &&& json::member(document, "cognify_pipeline"@) matches Some(inner)
            &&& json::member(inner, key) == Some(Json::Str("DATA_ITEM_PROCESSING_COMPLETED"@))
        },
        column matches Some(text) ==> json::parsed_json(text) matches Some(document)
            ==> json::member(document, "cognify_pipeline"@) matches Some(inner) ==> json::member(
            inner,
            key,
        ) matches Some(entry) ==> (entry != Json::Str("DATA_ITEM_PROCESSING_COMPLETED"@)
            ==> !completed(column, key)),
        forall|top: Members|
            completed_in(top, key) <==> (#[trigger] json::member(
                Json::Object(top),
                "cognify_pipeline"@,
            )) is Some && json::member(
                json::member(Json::Object(top), "cognify_pipeline"@)->Some_0,
                key,
            ) == Some(Json::Str("DATA_ITEM_PROCESSING_COMPLETED"@)),
{
}

/// Which pipelines there are after a change, and that those which were objects are objects
/// still. Marking adds the cognify pipeline and no other. Clearing a dataset drops the pipelines
/// that hold an object without an entry for another dataset, and no others. Forgetting drops
/// the cognify pipeline where it has no entry for another dataset, and no other pipeline.
pub proof fn lemma_pipelines_after_changes(top: Members, key: Seq<char>, pipeline: Seq<char>)
    ensures
        marked(top, key).contains_key(pipeline) <==> top.contains_key(pipeline) || pipeline
            == "cognify_pipeline"@,
        marked(top, key)["cognify_pipeline"@] is Object,
        cleared(top, key).contains_key(pipeline) <==> top.contains_key(pipeline) && (!(
        top[pipeline] is Object) || exists|other: Seq<char>|
            other != key && #[trigger] has_entry(top, pipeline, other)),
        cleared(top, key).contains_key(pipeline) ==> (cleared(top, key)[pipeline] is Object
            <==> top[pipeline] is Object),
        forgotten(top, key).contains_key(pipeline) <==> if pipeline == "cognify_pipeline"@ {
            exists|other: Seq<char>| other != key && #[trigger] has_entry(top, pipeline, other)
        } else {
            top.contains_key(pipeline)
        },
        forgotten(top, key).contains_key("cognify_pipeline"@) ==> forgotten(
            top,
            key,
        )["cognify_pipeline"@] is Object,
{
    let inner = inner_members(top, pipeline);
    let left = inner.remove(key);
    if left != json::no_members() {
        assert(exists|other: Seq<char>| left.contains_key(other)) by {
            if forall|other: Seq<char>| !left.contains_key(other) {
                assert(left =~= json::no_members());
            }
        }
        let other = choose|other: Seq<char>| left.contains_key(other);
        assert(other != key && has_entry(top, pipeline, other));
    } else {
        assert forall|other: Seq<char>| other != key implies !#[trigger] has_entry(
            top,
            pipeline,
            other,
        ) by {
            if has_entry(top, pipeline, other) {
                assert(left.contains_key(other));
            }
        }
    }
}

/// What was written and what is read have the same pipelines and the same entries, and each
/// reads as it was written.
proof fn lemma_read_as_written(
    written: Members,
    read: Members,
    pipeline: Seq<char>,
    key: Seq<char>,
)
    requires
        json::reads_as(Json::Object(written), Json::Object(read), json::max_depth()),
    ensures
        written.contains_key(pipeline) <==> read.contains_key(pipeline),
        written.contains_key(pipeline) ==> json::reads_as(written[pipeline], read[pipeline], 126),
        match entry_at(written, pipeline, key) {
            Some(entry) => entry_at(read, pipeline, key) is Some && json::reads_as(
                entry,
                entry_at(read, pipeline, key)->Some_0,
                125,
            ),
            None => entry_at(read, pipeline, key) is None,
        },
{
    json::lemma_reads_as_of_object(written, read, json::max_depth());
    assert(written.dom().contains(pipeline) == read.dom().contains(pipeline));
    if written.contains_key(pipeline) {
        assert(json::reads_as(written[pipeline], read[pipeline], 126));
        if written[pipeline] is Object && read[pipeline] is Object {
            let a = written[pipeline]->Object_0;
            let b = read[pipeline]->Object_0;
            json::lemma_reads_as_of_object(a, b, 126);
            assert(a.dom().contains(key) == b.dom().contains(key));
            if a.contains_key(key) {
                assert(json::reads_as(a[key], b[key], 125));
            }
        }
    }
}

/// Marking an item for a dataset, on the columns: the new column has the completed state under
/// `cognify_pipeline` for the dataset; every other entry and every other pipeline is there
/// exactly if it was before and reads as it did, but for the values of floating-point numbers.
pub proof fn lemma_marking_a_column(
    before: Option<Seq<char>>,
    after: Seq<char>,
    key: Seq<char>,
    pipeline: Seq<char>,
    other: Seq<char>,
)
    requires
        marks(before, after, key),
    ensures
        json::parsed_json(after) matches Some(Json::Object(_)),
        entry_at(pipelines(Some(after)), "cognify_pipeline"@, key) == Some(
            Json::Str("DATA_ITEM_PROCESSING_COMPLETED"@),
        ),
        pipeline != "cognify_pipeline"@ || other != key ==> match entry_at(
            pipelines(before),
            pipeline,
            other,
        ) {
            Some(entry) => entry_at(pipelines(Some(after)), pipeline, other) is Some
                && json::reads_as(
                entry,
                entry_at(pipelines(Some(after)), pipeline, other)->Some_0,
                125,
            ),
            None => entry_at(pipelines(Some(after)), pipeline, other) is None,
        },
        pipeline != "cognify_pipeline"@ ==> match member_at(pipelines(before), pipeline) {
            Some(value) => member_at(pipelines(Some(after)), pipeline) is Some && json::reads_as(
                value,
                member_at(pipelines(Some(after)), pipeline)->Some_0,
                126,
            ),
            None => member_at(pipelines(Some(after)), pipeline) is None,
        },
{
    let top = pipelines(before);
    let read = pipelines(Some(after));
    lemma_column_reads_as_held(Some(after), marked(top, key));
    lemma_marking_keeps_the_rest(top, key);
    lemma_read_as_written(marked(top, key), read, "cognify_pipeline"@, key);
    lemma_read_as_written(marked(top, key), read, pipeline, other);
    if pipeline != "cognify_pipeline"@ {
        assert(member_at(marked(top, key), pipeline) == member_at(top, pipeline));
        assert(entry_at(marked(top, key), pipeline, other) == entry_at(top, pipeline, other));
    }
}

/// Clearing a column of a dataset. It is left alone exactly if no pipeline has an entry for the
/// dataset. Else no pipeline of the new column has one; every entry for another dataset is there
/// exactly if it was before, and so is every pipeline that holds no object or an entry for
/// another dataset, each reading as it did but for the values of floating-point numbers; no
/// other pipeline is there, and the column is null exactly if none is left.
pub proof fn lemma_clearing_a_column(
    before: Option<Seq<char>>,
    change: StatusChangeView,
    after: Option<Seq<char>>,
    key: Seq<char>,
    pipeline: Seq<char>,
    other: Seq<char>,
)
    requires
        change == clear_change(before, key),
        after == status_after(before, change),
        clears(before, after, key),
    ensures
        change is Keep <==> forall|p: Seq<char>| !#[trigger] has_entry(pipelines(before), p, key),
        match change {
            StatusChangeView::Keep => after == before,
            StatusChangeView::Clear => after is None,
            StatusChangeView::Replace(text) => after == Some(text) && json::parsed_json(
                text,
            ) matches Some(Json::Object(_)),
        },
        !has_entry(pipelines(after), pipeline, key),
        !(change is Keep) && other != key ==> match entry_at(pipelines(before), pipeline, other) {
            Some(entry) => entry_at(pipelines(after), pipeline, other) is Some && json::reads_as(
                entry,
                entry_at(pipelines(after), pipeline, other)->Some_0,
                125,
            ),
            None => entry_at(pipelines(after), pipeline, other) is None,
        },
        !(change is Keep) ==> (pipelines(after).contains_key(pipeline) <==> pipelines(
            before,
        ).contains_key(pipeline) && (!(pipelines(before)[pipeline] is Object) || exists|
            o: Seq<char>,
        |
            o != key && #[trigger] has_entry(pipelines(before), pipeline, o))),
        !(change is Keep) && pipelines(before).contains_key(pipeline) && !(pipelines(
            before,
        )[pipeline] is Object) ==> json::reads_as(
            pipelines(before)[pipeline],
            pipelines(after)[pipeline],
            126,
        ),
        change is Clear <==> !(change is Keep) && forall|p: Seq<char>| #[trigger]
            pipelines(before).contains_key(p) ==> pipelines(before)[p] is Object && forall|
                o: Seq<char>,
            |
                o != key ==> !#[trigger] has_entry(pipelines(before), p, o),
{
    let top = pipelines(before);
    let left = cleared(top, key);
    assert(mentions(top, key) <==> !(change is Keep));
    assert(!has_entry(pipelines(after), pipeline, key)) by {
        assert(!mentions(pipelines(after), key));
    }
    if mentions(top, key) {
        lemma_column_reads_as_held(after, left);
        lemma_clearing_keeps_the_rest(top, key);
        lemma_pipelines_after_changes(top, key, pipeline);
        lemma_read_as_written(left, pipelines(after), pipeline, other);
        if change is Clear {
            assert forall|p: Seq<char>| #[trigger] top.contains_key(p) implies top[p] is Object
                && forall|o: Seq<char>| o != key ==> !#[trigger] has_entry(top, p, o) by {
                lemma_pipelines_after_changes(top, key, p);
                assert(!left.contains_key(p));
            }
        } else {
            assert(left != json::no_members());
            assert(exists|p: Seq<char>| left.contains_key(p)) by {
                if forall|p: Seq<char>| !left.contains_key(p) {
                    assert(left =~= json::no_members());
                }
            }
            let p = choose|p: Seq<char>| left.contains_key(p);
            lemma_pipelines_after_changes(top, key, p);
            assert(top.contains_key(p));
        }
    }
}

/// Forgetting an item for a dataset, on the columns. The column is left alone exactly if
/// `cognify_pipeline` has no entry for the dataset. Else the new column has no such entry; every
/// other entry and every other pipeline is there exactly if it was before and reads as it did,
/// but for the values of floating-point numbers; `cognify_pipeline` is there exactly if it has an
/// entry for another dataset, and the column is null exactly if no pipeline is left.
pub proof fn lemma_forgetting_a_column(
    before: Option<Seq<char>>,
    change: StatusChangeView,
    after: Option<Seq<char>>,
    key: Seq<char>,
    pipeline: Seq<char>,
    other: Seq<char>,
)
    requires
        change == forget_change(before, key),
        after == status_after(before, change),
        forgets(before, after, key),
    ensures
        change is Keep <==> !has_entry(pipelines(before), "cognify_pipeline"@, key),
        match change {
            StatusChangeView::Keep => after == before,
            StatusChangeView::Clear => after is None,
            StatusChangeView::Replace(text) => after == Some(text) && json::parsed_json(
                text,
            ) matches Some(Json::Object(_)),
        },
        !has_entry(pipelines(after), "cognify_pipeline"@, key),
        !(change is Keep) && (pipeline != "cognify_pipeline"@ || other != key) ==> match entry_at(
            pipelines(before),
            pipeline,
            other,
        ) {
            Some(entry) => entry_at(pipelines(after), pipeline, other) is Some && json::reads_as(
                entry,
                entry_at(pipelines(after), pipeline, other)->Some_0,
                125,
            ),
            None => entry_at(pipelines(after), pipeline, other) is None,
        },
        !(change is Keep) && pipeline != "cognify_pipeline"@ ==> match member_at(
            pipelines(before),
            pipeline,
        ) {
            Some(value) => member_at(pipelines(after), pipeline) is Some && json::reads_as(
                value,
                member_at(pipelines(after), pipeline)->Some_0,
                126,
            ),
            None => member_at(pipelines(after), pipeline) is None,
        },
        !(change is Keep) ==> (pipelines(after).contains_key("cognify_pipeline"@) <==> exists|
            o: Seq<char>,
        |
            o != key && #[trigger] has_entry(pipelines(before), "cognify_pipeline"@, o)),
        change is Clear <==> !(change is Keep) && forall|p: Seq<char>| #[trigger]
            pipelines(before).contains_key(p) ==> p == "cognify_pipeline"@ && forall|
                o: Seq<char>,
            |
                o != key ==> !#[trigger] has_entry(pipelines(before), p, o),
{
    let top = pipelines(before);
    let left = forgotten(top, key);
    let cognify = "cognify_pipeline"@;
    if has_entry(top, cognify, key) {
        lemma_column_reads_as_held(after, left);
        lemma_forgetting_keeps_the_rest(top, key);
        lemma_pipelines_after_changes(top, key, cognify);
        lemma_read_as_written(left, pipelines(after), cognify, key);
        lemma_read_as_written(left, pipelines(after), pipeline, other);
        if pipeline != cognify {
            assert(member_at(left, pipeline) == member_at(top, pipeline));
            assert(entry_at(left, pipeline, other) == entry_at(top, pipeline, other));
        }
        if change is Clear {
            assert forall|p: Seq<char>| #[trigger] top.contains_key(p) implies p == cognify
                && forall|o: Seq<char>| o != key ==> !#[trigger] has_entry(top, p, o) by {
                lemma_pipelines_after_changes(top, key, p);
                assert(!left.contains_key(p));
            }
        } else {
            assert(exists|p: Seq<char>| left.contains_key(p)) by {
                if forall|p: Seq<char>| !left.contains_key(p) {
                    assert(left =~= json::no_members());
                }
            }
            let p = choose|p: Seq<char>| left.contains_key(p);
            lemma_pipelines_after_changes(top, key, p);
            assert(top.contains_key(p));
        }
    }
}

/// A change says what it is: to keep the column, to set it to null, or to set it to its text.
pub proof fn lemma_change_says_what_it_is(change: StatusChange, before: Option<Seq<char>>)
    ensures
        status_after(before, change@) == match change {
            StatusChange::Keep => before,
            StatusChange::Clear => None,
            StatusChange::Replace(text) => Some(text@),
        },
{
}

}
