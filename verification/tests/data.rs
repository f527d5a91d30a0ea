use cerveau::data::{
    list_datasets_for_data, read_chunks, update_data_token_count, update_last_accessed, READ_CHUNK,
};
use cerveau::error::DatabaseError;
use cerveau::ids::{new_v5, to_hex, to_hyphenated, Uuid, NAMESPACE_OID};

const ID: Uuid = Uuid { value: 0x4553_4e3f_01ce_5b52_9c2b_5568_436c_5417 };

#[test]
fn identifiers_print_as_hexadecimal_digits() {
    assert_eq!(to_hex(ID), "45534e3f01ce5b529c2b5568436c5417");
    assert_eq!(to_hyphenated(ID), "45534e3f-01ce-5b52-9c2b-5568436c5417");
    assert_eq!(to_hex(Uuid { value: 0xa }), "0000000000000000000000000000000a");
    assert_eq!(to_hex(Uuid { value: u128::MAX }), "f".repeat(32));
}

#[test]
fn names_get_identifiers_of_their_own() {
    assert_eq!(NAMESPACE_OID, uuid::Uuid::NAMESPACE_OID.as_u128());
    let one = new_v5(NAMESPACE_OID, b"t_1.sales");
    let two = new_v5(NAMESPACE_OID, b"t_2.sales");
    assert_ne!(one, two);
    assert_eq!(one.value, uuid::Uuid::new_v5(&uuid::Uuid::NAMESPACE_OID, b"t_1.sales").as_u128());
    assert_ne!(one, new_v5(0, b"t_1.sales"));
}

#[test]
fn a_token_count_needs_a_record() {
    assert!(update_data_token_count(ID, 1).is_ok());
    assert_eq!(
        update_data_token_count(ID, 0),
        Err(DatabaseError::NotFound(
            "Data 45534e3f-01ce-5b52-9c2b-5568436c5417 not found".to_string()
        ))
    );
}

#[test]
fn last_access_of_nothing_is_a_no_op() {
    assert!(update_last_accessed(&[]).is_none());
    let keys = update_last_accessed(&[Uuid { value: 16 }, ID]).unwrap();
    assert_eq!(keys, vec![to_hex(Uuid { value: 16 }), to_hex(ID)]);
}

#[test]
fn chunks_are_bounded_and_cover_everything() {
    assert!(read_chunks(Vec::new()).is_empty());
    for (count, sizes) in [
        (1, vec![1]),
        (500, vec![500]),
        (501, vec![500, 1]),
        (1203, vec![500, 500, 203]),
    ] {
        let ids: Vec<String> = (0..count).map(|i: usize| format!("{i}")).collect();
        let chunks = read_chunks(ids.clone());
        assert_eq!(chunks.iter().map(|c| c.len()).collect::<Vec<usize>>(), sizes);
        assert!(chunks.iter().all(|c| c.len() <= READ_CHUNK));
        assert_eq!(chunks.concat(), ids);
    }
}

#[test]
fn datasets_are_listed_group_by_group() {
    assert_eq!(list_datasets_for_data(vec![vec![1, 2], vec![], vec![3]]), vec![1, 2, 3]);
    assert_eq!(list_datasets_for_data(Vec::<Vec<u8>>::new()), Vec::<u8>::new());
}
