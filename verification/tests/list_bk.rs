use context_engine::list_bk::{
    indexed_boundary, ListClient, ListError, ListsClient, ListsDirective, ListsError, ListsSchema, SetOutcome,
};

fn fixed(base: u64, extent: u64) -> ListsSchema {
    ListsSchema { base: Some(base), extent: Some(extent), extent_offset: None, interning: None }
}

fn at(index: u64) -> ListsDirective<u8> {
    ListsDirective { origin: None, index: Some(index), lists: vec![] }
}

#[test]
fn indexed_boundary_scales_index_by_extent() {
    assert_eq!(indexed_boundary(10, 4, 3), (22, 4));
    assert_eq!(indexed_boundary(7, 0, 5), (7, 0));
}

#[test]
fn list_client_get_reads_the_element() {
    let client = ListClient::new(vec![1u8, 2, 3, 4]);
    assert_eq!(client.get(&(1, 2)).ok(), Some(Some(vec![2u8, 3])));
    assert!(matches!(client.get(&(3, 2)), Err(ListError::OutOfBounds)));
}

#[test]
fn list_client_set_reports_updated_or_created() {
    let mut client = ListClient::new(vec![1u8, 2, 3, 4]);
    assert!(matches!(client.set(&(0, 2), &[1, 2]), Ok(Some(SetOutcome::Updated))));
    assert!(matches!(client.set(&(0, 2), &[9, 9]), Ok(Some(SetOutcome::Created))));
    assert_eq!(client.get(&(0, 4)).ok(), Some(Some(vec![9u8, 9, 3, 4])));
    assert!(matches!(client.set(&(3, 2), &[0, 0]), Err(ListError::OutOfBounds)));
    assert_eq!(client.get(&(0, 4)).ok(), Some(Some(vec![9u8, 9, 3, 4])));
}

#[test]
fn list_client_delete_nulls_the_element() {
    let mut client = ListClient::new(vec![1u16, 2, 3, 4]);
    assert_eq!(client.delete(&(1, 2)).ok(), Some(true));
    assert_eq!(client.get(&(0, 4)).ok(), Some(Some(vec![1u16, 0, 0, 4])));
    assert!(matches!(client.delete(&(4, 1)), Err(ListError::OutOfBounds)));
}

#[test]
fn lists_client_fixed_length_get() {
    let mut client = ListsClient::new(vec![10u8, 11, 20, 21, 30, 31]);
    assert_eq!(client.get(&fixed(0, 2), &at(1)).ok(), Some(Some(vec![20u8, 21])));
    assert_eq!(client.get(&fixed(2, 2), &at(1)).ok(), Some(Some(vec![30u8, 31])));
    assert!(matches!(client.get(&fixed(0, 2), &at(3)), Err(ListsError::OutOfBounds)));
}

#[test]
fn lists_client_missing_schema_field() {
    let mut client = ListsClient::new(vec![10u8, 11]);
    let no_base = ListsSchema { base: None, extent: Some(1), extent_offset: None, interning: None };
    assert!(matches!(client.get(&no_base, &at(0)), Err(ListsError::SchemaMissing)));
    let no_extent = ListsSchema { base: Some(0), extent: None, extent_offset: None, interning: None };
    assert!(matches!(client.delete(&no_extent, &at(0)), Err(ListsError::SchemaMissing)));
    let no_index: ListsDirective<u8> = ListsDirective { origin: None, index: None, lists: vec![] };
    assert!(matches!(client.set(&fixed(0, 1), &no_index, &[1]), Err(ListsError::SchemaMissing)));
}

#[test]
fn lists_client_variable_length_walks_widths() {
    // first element is 2 wide (read at the origin 0), the next one 3 wide (read at 2)
    let mut client = ListsClient::new(vec![10u8, 20, 30, 40, 50]);
    let directive = ListsDirective { origin: None, index: Some(1), lists: vec![vec![2u8, 0, 0, 0, 0], vec![0u8, 0, 3, 0, 0]] };
    assert_eq!(client.get(&fixed(0, 1), &directive).ok(), Some(Some(vec![30u8, 40, 50])));
}

#[test]
fn lists_client_origin_overrides_base() {
    let mut client = ListsClient::new(vec![1u8, 2, 3, 4, 5]);
    let directive = ListsDirective { origin: Some(3), index: Some(0), lists: vec![] };
    assert_eq!(client.get(&fixed(0, 2), &directive).ok(), Some(Some(vec![4u8, 5])));
}

#[test]
fn lists_client_set_and_delete() {
    let mut client = ListsClient::new(vec![1u32, 2, 3, 4]);
    let schema = ListsSchema { base: Some(0), extent: Some(2), extent_offset: None, interning: None };
    let d1 = ListsDirective { origin: None, index: Some(1), lists: vec![] };
    assert!(matches!(client.set(&schema, &d1, &[3, 4]), Ok(Some(SetOutcome::Updated))));
    assert!(matches!(client.set(&schema, &d1, &[7, 8]), Ok(Some(SetOutcome::Created))));
    assert_eq!(client.get(&schema, &d1).ok(), Some(Some(vec![7u32, 8])));
    assert_eq!(client.delete(&schema, &d1).ok(), Some(true));
    assert_eq!(client.get(&schema, &d1).ok(), Some(Some(vec![0u32, 0])));
}

#[test]
fn lists_client_interning_dedups_or_appends() {
    let mut client = ListsClient::new(vec![1u8, 2, 3, 4]);
    let schema = ListsSchema { base: Some(0), extent: Some(2), extent_offset: None, interning: Some(true) };
    assert!(matches!(client.set(&schema, &at(0), &[3, 4]), Ok(Some(SetOutcome::Updated))));
    assert!(matches!(client.get(&schema, &at(2)), Err(ListsError::OutOfBounds)));
    assert!(matches!(client.set(&schema, &at(0), &[5, 6]), Ok(Some(SetOutcome::Created))));
    assert_eq!(client.get(&schema, &at(2)).ok(), Some(Some(vec![5u8, 6])));
    assert_eq!(client.get(&schema, &at(0)).ok(), Some(Some(vec![1u8, 2])));
}
