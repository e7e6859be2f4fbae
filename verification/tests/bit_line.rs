use context_engine::bit_line;
use context_engine::bit_line::{cal_bound, delete, embedded_schema_origin, get, Outcome};

#[test]
fn line_cal_bound_fixed_width() {
    assert_eq!(cal_bound::<u8>(None, 10, 3, 4, None), (22, 4));
    assert_eq!(cal_bound::<u8>(Some(5), 10, 0, 4, None), (5, 4));
}

#[test]
fn line_cal_bound_width_line() {
    let widths: Vec<u8> = vec![2, 0, 3, 0, 0, 1];
    assert_eq!(cal_bound(None, 0, 1, 9, Some(&widths)), (2, 3));
    assert_eq!(cal_bound(None, 0, 2, 9, Some(&widths)), (5, 1));
}

#[test]
fn line_get_set_delete() {
    let mut line: Vec<u16> = vec![1, 2, 3, 4];
    assert_eq!(get(&line, (1, 2)), vec![2, 3]);
    let (b, o) = bit_line::set(&mut line, (1, 2), &[2, 3], false);
    assert_eq!(b, (1, 2));
    assert!(matches!(o, Outcome::Updated));
    let (_, o) = bit_line::set(&mut line, (1, 2), &[7, 8], false);
    assert!(matches!(o, Outcome::Created));
    assert_eq!(line, vec![1, 7, 8, 4]);
    delete(&mut line, (0, 2));
    assert_eq!(line, vec![0, 0, 8, 4]);
}

#[test]
fn line_set_interning_finds_or_appends() {
    let mut line: Vec<u8> = vec![1, 2, 3, 4];
    let (b, o) = bit_line::set(&mut line, (0, 2), &[3, 4], true);
    assert_eq!(b, (2, 2));
    assert!(matches!(o, Outcome::Updated));
    assert_eq!(line, vec![1, 2, 3, 4]);
    let (b, o) = bit_line::set(&mut line, (0, 2), &[5, 6], true);
    assert_eq!(b, (4, 2));
    assert!(matches!(o, Outcome::Created));
    assert_eq!(line, vec![1, 2, 3, 4, 5, 6]);
}

#[test]
fn line_embedded_schema_origin_walks_own_widths() {
    let line: Vec<u8> = vec![2, 9, 3, 9, 9, 1];
    assert_eq!(embedded_schema_origin(&line, 0, 0, 0), 0);
    assert_eq!(embedded_schema_origin(&line, 0, 2, 0), 5);
}
