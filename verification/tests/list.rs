use context_engine::list::{List, ListError, VariableList};
use context_engine::SetOutcome;

#[test]
fn list_set_update_append_when_value_too_large() {
    let mut vl: VariableList<u32> = VariableList::new();
    vl.set(&0, &mut (), &[1u32, 2], false).unwrap();
    let r = vl.set(&1, &mut (), &[10u32, 20, 30], false).unwrap();
    assert!(matches!(r, SetOutcome::Updated));
    assert_eq!(vl.get(&1, &()).unwrap(), &[10u32, 20, 30]);
}

#[test]
fn list_set_wrong_width_returns_out_of_bounds() {
    let mut list: List<u32> = List::new(2);
    let err = list.set(&0, &mut 2, &[1u32], false).unwrap_err();
    assert!(matches!(err, ListError::OutOfBounds));
}

#[test]
fn list_set_update_not_exist() {
    let mut list: List<u32> = List::new(2);
    list.set(&0, &mut 2, &[1u32, 2], false).unwrap();
    list.delete(&1, &mut 2).unwrap();
    let err = list.set(&1, &mut 2, &[3u32, 4], false).unwrap_err();
    assert!(matches!(err, ListError::NotExist));
}

#[test]
fn list_set_update_out_of_bounds() {
    let mut list: List<u32> = List::new(2);
    let err = list.set(&99, &mut 2, &[1u32, 2], false).unwrap_err();
    assert!(matches!(err, ListError::OutOfBounds));
}

#[test]
fn list_get_sentinel_returns_not_exist() {
    let list: List<u32> = List::new(2);
    let err = list.get(&0, &2).unwrap_err();
    assert!(matches!(err, ListError::NotExist));
}

#[test]
fn variable_list_delete_sentinel_returns_not_exist() {
    let mut vl: VariableList<u32> = VariableList::new();
    let err = vl.delete(&0, &mut ()).unwrap_err();
    assert!(matches!(err, ListError::NotExist));
}

#[test]
fn variable_list_compact_invalidates_old_identity() {
    let mut vl: VariableList<u32> = VariableList::new();
    vl.set(&0, &mut (), &[1u32, 2, 3], false).unwrap();
    vl.set(&0, &mut (), &[4u32, 5, 6], false).unwrap();
    vl.delete(&1, &mut ()).unwrap();
    vl.compact().unwrap();
    assert!(vl.get(&2, &()).is_err());
    assert_eq!(vl.get(&1, &()).unwrap(), &[4u32, 5, 6]);
}

#[test]
fn list_append_update_delete_reuse() {
    let mut list: List<u32> = List::new(2);
    let r = list.set(&0, &mut 2, &[10u32, 20], false).unwrap();
    assert!(matches!(r, SetOutcome::Created(1)));
    assert_eq!(list.get(&1, &2).unwrap(), &[10u32, 20]);
    let r = list.set(&1, &mut 2, &[30u32, 40], false).unwrap();
    assert!(matches!(r, SetOutcome::Updated));
    assert_eq!(list.get(&1, &2).unwrap(), &[30u32, 40]);
    list.delete(&1, &mut 2).unwrap();
    assert!(list.get(&1, &2).is_err());
    let r = list.set(&0, &mut 2, &[50u32, 60], true).unwrap();
    assert!(matches!(r, SetOutcome::Created(1)));
}

#[test]
fn variable_list_intern_returns_existing_identity() {
    let mut vl: VariableList<u32> = VariableList::new();
    let r = vl.set(&0, &mut (), &[1u32, 2, 3], false).unwrap();
    assert!(matches!(r, SetOutcome::Created(1)));
    let r = vl.set(&0, &mut (), &[1u32, 2, 3], true).unwrap();
    assert!(matches!(r, SetOutcome::Created(1)));
    let r = vl.set(&1, &mut (), &[9u32, 8], false).unwrap();
    assert!(matches!(r, SetOutcome::Updated));
    assert_eq!(vl.get(&1, &()).unwrap(), &[9u32, 8]);
    vl.delete(&1, &mut ()).unwrap();
    assert!(vl.get(&1, &()).is_err());
}

#[test]
fn variable_list_compact_remaps_survivors() {
    let mut vl: VariableList<u16> = VariableList::new();
    vl.set(&0, &mut (), &[1u16], false).unwrap();
    vl.set(&0, &mut (), &[2u16, 2], false).unwrap();
    vl.set(&0, &mut (), &[3u16, 3, 3], false).unwrap();
    vl.delete(&2, &mut ()).unwrap();
    let remap = vl.compact().unwrap();
    assert_eq!(remap[&1], 1);
    assert_eq!(remap[&3], 2);
    assert!(!remap.contains_key(&2));
    assert_eq!(vl.get(&2, &()).unwrap(), &[3u16, 3, 3]);
    assert_eq!(vl.data, vec![1u16, 3, 3, 3]);
}

#[test]
fn variable_list_set_errors() {
    let mut vl: VariableList<u8> = VariableList::new();
    assert!(matches!(vl.set(&5, &mut (), &[1u8], false), Err(ListError::OutOfBounds)));
    vl.set(&0, &mut (), &[7u8], false).unwrap();
    vl.delete(&1, &mut ()).unwrap();
    assert!(matches!(vl.set(&1, &mut (), &[1u8], false), Err(ListError::NotExist)));
    assert!(matches!(vl.get(&1, &()), Err(ListError::NotExist)));
    assert!(matches!(vl.get(&9, &()), Err(ListError::OutOfBounds)));
}
