use cerveau::data::{clear_pipeline_status_for_dataset, DataRow, MarkRun};
use cerveau::ids::{to_hex, Uuid};
use cerveau::pipeline_status::{
    clear_cognify_pipeline_status_for_data, clear_entries, clear_status_for_dataset, forget_entry,
    is_cognify_completed_for_dataset, is_completed_in, mark_cognify_completed_for_data, mark_entry,
    StatusChange, COGNIFY_DATA_ITEM_COMPLETED, COGNIFY_PIPELINE,
};

fn id(id: uuid::Uuid) -> Uuid {
    Uuid { value: id.as_u128() }
}

fn dataset() -> Uuid {
    id(uuid::Uuid::parse_str("45534e3f-01ce-5b52-9c2b-5568436c5417").unwrap_or_default())
}

fn other() -> Uuid {
    Uuid { value: 7 }
}

fn json(text: &str) -> serde_json::Value {
    serde_json::from_str(text).unwrap()
}

fn members(text: &str) -> serde_json::Map<String, serde_json::Value> {
    json(text).as_object().unwrap().clone()
}

#[test]
fn reads_per_dataset_cognify_completion() {
    let ds = id(uuid::Uuid::parse_str("45534e3f-01ce-5b52-9c2b-5568436c5417").unwrap_or_default());
    let other = id(uuid::Uuid::new_v4());
    let done = format!(
        r#"{{"cognify_pipeline":{{"{}":"DATA_ITEM_PROCESSING_COMPLETED"}},"add_pipeline":{{"x":"y"}}}}"#,
        to_hex(ds)
    );
    assert!(is_cognify_completed_for_dataset(Some(&done), ds));
    assert!(!is_cognify_completed_for_dataset(Some(&done), other));
    assert!(!is_cognify_completed_for_dataset(None, ds));
    assert!(!is_cognify_completed_for_dataset(Some("not json"), ds));
    assert!(!is_cognify_completed_for_dataset(Some(r#"{"cognify_pipeline":"weird"}"#), ds));
}

#[test]
fn another_state_is_not_completion() {
    let started = r#"{"cognify_pipeline":{"45534e3f01ce5b529c2b5568436c5417":"STARTED"}}"#;
    assert!(!is_cognify_completed_for_dataset(Some(started), dataset()));
    let number = r#"{"cognify_pipeline":{"45534e3f01ce5b529c2b5568436c5417":1}}"#;
    assert!(!is_cognify_completed_for_dataset(Some(number), dataset()));
    assert!(!is_cognify_completed_for_dataset(Some("[1]"), dataset()));
}

#[test]
fn completion_is_read_from_a_document() {
    let document = json(r#"{"cognify_pipeline":{"k":"DATA_ITEM_PROCESSING_COMPLETED"}}"#);
    assert!(is_completed_in(&document, "k"));
    assert!(!is_completed_in(&document, "j"));
    assert!(!is_completed_in(&json("[]"), "k"));
}

#[test]
fn marking_an_empty_column() {
    let written = mark_cognify_completed_for_data(None, dataset()).unwrap();
    assert_eq!(
        written,
        r#"{"cognify_pipeline":{"45534e3f01ce5b529c2b5568436c5417":"DATA_ITEM_PROCESSING_COMPLETED"}}"#
    );
    assert!(is_cognify_completed_for_dataset(Some(&written), dataset()));
}

#[test]
fn marking_keeps_the_rest() {
    let before = r#"{"add_pipeline":{"x":"y"},"cognify_pipeline":{"abc":"STARTED"},"n":3}"#;
    let written = mark_cognify_completed_for_data(Some(before), dataset()).unwrap();
    assert_eq!(
        json(&written),
        json(
            r#"{"add_pipeline":{"x":"y"},"cognify_pipeline":{"abc":"STARTED","45534e3f01ce5b529c2b5568436c5417":"DATA_ITEM_PROCESSING_COMPLETED"},"n":3}"#
        )
    );
    let both = mark_cognify_completed_for_data(Some(&written), other()).unwrap();
    assert!(is_cognify_completed_for_dataset(Some(&both), dataset()));
    assert!(is_cognify_completed_for_dataset(Some(&both), other()));
}

#[test]
fn marking_replaces_what_is_unreadable() {
    let fresh = mark_cognify_completed_for_data(None, dataset()).unwrap();
    assert_eq!(mark_cognify_completed_for_data(Some("not json"), dataset()).unwrap(), fresh);
    assert_eq!(mark_cognify_completed_for_data(Some("[1,2]"), dataset()).unwrap(), fresh);
    let weird = mark_cognify_completed_for_data(Some(r#"{"cognify_pipeline":"weird"}"#), dataset());
    assert_eq!(weird.unwrap(), fresh);
}

#[test]
fn marking_reads_back_past_floats_and_depth() {
    let deep = format!(r#"{{"a":{}1{}}}"#, "[".repeat(126), "]".repeat(126));
    let floats = r#"{"a":[1.7976931348623157e308,5e-324,1e16,123456789012345680.0,-0.0,0.1]}"#;
    for before in [deep.as_str(), floats] {
        assert!(serde_json::from_str::<serde_json::Value>(before).is_ok());
        let written = mark_cognify_completed_for_data(Some(before), dataset()).unwrap();
        assert!(is_cognify_completed_for_dataset(Some(&written), dataset()));
        assert!(json(&written)["a"].is_array());
    }
    let too_deep = format!(r#"{{"a":{}1{}}}"#, "[".repeat(127), "]".repeat(127));
    assert!(serde_json::from_str::<serde_json::Value>(&too_deep).is_err());
}

#[test]
fn marking_edits_members_in_place() {
    let mut top = members(r#"{"cognify_pipeline":{"a":"b"},"p":{}}"#);
    mark_entry(&mut top, "k");
    assert_eq!(top[COGNIFY_PIPELINE]["k"], COGNIFY_DATA_ITEM_COMPLETED);
    assert_eq!(top[COGNIFY_PIPELINE]["a"], "b");
    assert_eq!(top["p"], json("{}"));
}

#[test]
fn clearing_takes_the_dataset_out_of_every_pipeline() {
    let mut top = members(r#"{"a":{"k":1},"b":{"k":1,"j":2},"c":{"j":2},"d":"text","e":{}}"#);
    assert!(clear_entries(&mut top, "k"));
    assert_eq!(top, members(r#"{"b":{"j":2},"c":{"j":2},"d":"text"}"#));
    assert!(!clear_entries(&mut top, "k"));
}

#[test]
fn clearing_leaves_alone_what_does_not_mention_the_dataset() {
    let mut top = members(r#"{"c":{"j":2},"d":"text","e":{}}"#);
    assert!(!clear_entries(&mut top, "k"));
    assert_eq!(top, members(r#"{"c":{"j":2},"d":"text","e":{}}"#));
}

#[test]
fn clearing_a_column() {
    let key = to_hex(dataset());
    let only = format!(r#"{{"a":{{"{key}":1}}}}"#);
    assert_eq!(clear_status_for_dataset(Some(&only), dataset()).unwrap(), StatusChange::Clear);
    let more = format!(r#"{{"a":{{"{key}":1,"j":2}},"b":{{"{key}":1}}}}"#);
    let change = clear_status_for_dataset(Some(&more), dataset()).unwrap();
    assert_eq!(change, StatusChange::Replace(r#"{"a":{"j":2}}"#.to_string()));
    for kept in [r#"{"a":{"j":2}}"#, "not json", "[1]", "null"] {
        assert_eq!(clear_status_for_dataset(Some(kept), dataset()).unwrap(), StatusChange::Keep);
    }
    assert_eq!(clear_status_for_dataset(None, dataset()).unwrap(), StatusChange::Keep);
}

#[test]
fn clearing_records_writes_only_the_modified() {
    let key = to_hex(dataset());
    let rows = vec![
        DataRow { id: "1".to_string(), pipeline_status: None },
        DataRow { id: "2".to_string(), pipeline_status: Some(format!(r#"{{"a":{{"{key}":1}}}}"#)) },
        DataRow { id: "3".to_string(), pipeline_status: Some(r#"{"a":{"j":1}}"#.to_string()) },
        DataRow {
            id: "4".to_string(),
            pipeline_status: Some(format!(r#"{{"a":{{"{key}":1}},"b":{{"j":1}}}}"#)),
        },
    ];
    let writes = clear_pipeline_status_for_dataset(&rows, dataset()).unwrap();
    assert_eq!(writes.len(), 2);
    assert_eq!((writes[0].id.as_str(), writes[0].pipeline_status.clone()), ("2", None));
    assert_eq!(writes[1].id, "4");
    assert_eq!(writes[1].pipeline_status.as_deref(), Some(r#"{"b":{"j":1}}"#));
}

#[test]
fn forgetting_takes_out_the_cognify_entry_only() {
    let mut top = members(r#"{"a":{"k":1},"cognify_pipeline":{"k":1},"e":{}}"#);
    assert!(forget_entry(&mut top, "k"));
    assert_eq!(top, members(r#"{"a":{"k":1},"e":{}}"#));
    assert!(!forget_entry(&mut top, "k"));
    let mut top = members(r#"{"cognify_pipeline":{"k":1,"j":2}}"#);
    assert!(forget_entry(&mut top, "k"));
    assert_eq!(top, members(r#"{"cognify_pipeline":{"j":2}}"#));
}

#[test]
fn forgetting_undoes_marking() {
    let before = r#"{"add_pipeline":{"x":"y"},"cognify_pipeline":{"abc":"STARTED"}}"#;
    let written = mark_cognify_completed_for_data(Some(before), dataset()).unwrap();
    let change = clear_cognify_pipeline_status_for_data(Some(Some(&written)), dataset()).unwrap();
    assert_eq!(change, StatusChange::Replace(before.to_string()));
    let written = mark_cognify_completed_for_data(None, dataset()).unwrap();
    let change = clear_cognify_pipeline_status_for_data(Some(Some(&written)), dataset()).unwrap();
    assert_eq!(change, StatusChange::Clear);
}

#[test]
fn forgetting_undoes_marking_beside_numbers() {
    let before = r#"{"a":{"n":-3,"x":0.5,"y":[1,2.25]},"cognify_pipeline":{"abc":1e300}}"#;
    let written = mark_cognify_completed_for_data(Some(before), dataset()).unwrap();
    match clear_cognify_pipeline_status_for_data(Some(Some(&written)), dataset()).unwrap() {
        StatusChange::Replace(after) => {
            assert_eq!(json(&after)["a"], json(before)["a"]);
            assert!(json(&after)["cognify_pipeline"]["abc"].is_f64());
            assert!(!is_cognify_completed_for_dataset(Some(&after), dataset()));
        }
        other => panic!("{other:?}"),
    }
}

#[test]
fn forgetting_an_empty_cognify_pipeline_does_not_bring_it_back() {
    let before = r#"{"add_pipeline":{"x":"y"},"cognify_pipeline":{}}"#;
    let written = mark_cognify_completed_for_data(Some(before), dataset()).unwrap();
    let change = clear_cognify_pipeline_status_for_data(Some(Some(&written)), dataset()).unwrap();
    assert_eq!(change, StatusChange::Replace(r#"{"add_pipeline":{"x":"y"}}"#.to_string()));
}

#[test]
fn forgetting_does_nothing_without_an_entry() {
    let keep = |record| clear_cognify_pipeline_status_for_data(record, dataset()).unwrap();
    assert_eq!(keep(None), StatusChange::Keep);
    assert_eq!(keep(Some(None)), StatusChange::Keep);
    assert_eq!(keep(Some(Some("not json"))), StatusChange::Keep);
    assert_eq!(keep(Some(Some("3"))), StatusChange::Keep);
    assert_eq!(keep(Some(Some(r#"{"a":{"k":1}}"#))), StatusChange::Keep);
    assert_eq!(keep(Some(Some(r#"{"cognify_pipeline":"weird"}"#))), StatusChange::Keep);
}

#[test]
fn a_run_marks_the_records_that_exist() {
    let mut run = MarkRun::new(&[Uuid { value: 1 }, Uuid { value: 2 }, Uuid { value: 3 }], dataset());
    assert_eq!(run.pending_key().unwrap(), "00000000000000000000000000000001");
    let first = run.on_record(Some(None)).unwrap().unwrap();
    assert!(is_cognify_completed_for_dataset(Some(&first), dataset()));
    assert_eq!(run.pending_key().unwrap(), "00000000000000000000000000000002");
    assert_eq!(run.on_record(None).unwrap(), None);
    let third = run.on_record(Some(Some(r#"{"p":{"j":1}}"#.to_string()))).unwrap().unwrap();
    assert_eq!(json(&third)["p"]["j"], 1);
    assert!(run.pending_key().is_none());
    assert_eq!(run.updated(), 2);
}
