use lib::dblib::{info_fields, GetInfoError, InfoField};
use lib::tablib::{
    choose_pivot, move_plan, move_within, randomize_pivot, table_concat, table_insert, table_remove, table_sort, table_sort_by,
    unpack_count, ConcatError, InsertError, MoveError, MovePlan, RemoveError, UnpackError,
};

#[test]
fn sort_orders_small_table() {
    let mut v = vec![5, 3, 9, 1, 3];
    assert_eq!(table_sort(&mut v), Ok(()));
    assert_eq!(v, vec![1, 3, 3, 5, 9]);
}

#[test]
fn sort_leaves_short_tables() {
    let mut e: Vec<i64> = vec![];
    assert_eq!(table_sort(&mut e), Ok(()));
    assert!(e.is_empty());
    let mut one = vec![42];
    assert_eq!(table_sort(&mut one), Ok(()));
    assert_eq!(one, vec![42]);
    let mut two = vec![2, 1];
    assert_eq!(table_sort(&mut two), Ok(()));
    assert_eq!(two, vec![1, 2]);
    let mut three = vec![3, 1, 2];
    assert_eq!(table_sort(&mut three), Ok(()));
    assert_eq!(three, vec![1, 2, 3]);
}

#[test]
fn sort_large_table_is_sorted_permutation() {
    let mut v: Vec<i64> = (0..3000i64).map(|i| (i * 7919) % 1009 - 500).collect();
    let mut expected = v.clone();
    expected.sort();
    assert_eq!(table_sort(&mut v), Ok(()));
    assert_eq!(v, expected);
}

#[test]
fn sort_handles_extremes_and_duplicates() {
    let mut v = vec![i64::MAX, i64::MIN, 0, i64::MAX, -1, i64::MIN, 7, 7, 7];
    assert_eq!(table_sort(&mut v), Ok(()));
    assert_eq!(v, vec![i64::MIN, i64::MIN, -1, 0, 7, 7, 7, i64::MAX, i64::MAX]);
}

#[test]
fn pivot_from_middle_half() {
    // r4 = 25, so the pivot is 7 % 50 + 1 + 25.
    assert_eq!(choose_pivot(1, 101, 7), 33);
    assert_eq!(choose_pivot(1, 101, 49), 75);
    assert_eq!(choose_pivot(1, 101, 50), 26);
}

#[test]
fn pivot_seed_sums_halves() {
    assert_eq!(randomize_pivot(0x0000_0001_0000_0002, 5), 8);
    assert_eq!(randomize_pivot(-1, 0), 0xffff_fffe);
    assert_eq!(randomize_pivot(0, 0), 0);
}

#[test]
fn insert_appends_and_shifts() {
    let mut v = vec![1, 2, 3];
    assert_eq!(table_insert(&mut v, None, 4), Ok(()));
    assert_eq!(v, vec![1, 2, 3, 4]);
    assert_eq!(table_insert(&mut v, Some(1), 0), Ok(()));
    assert_eq!(v, vec![0, 1, 2, 3, 4]);
    assert_eq!(table_insert(&mut v, Some(6), 5), Ok(()));
    assert_eq!(v, vec![0, 1, 2, 3, 4, 5]);
}

#[test]
fn insert_refuses_out_of_bounds() {
    let mut v = vec![1, 2, 3];
    assert_eq!(table_insert(&mut v, Some(5), 9), Err(InsertError::PositionOutOfBounds));
    assert_eq!(table_insert(&mut v, Some(0), 9), Err(InsertError::PositionOutOfBounds));
    assert_eq!(table_insert(&mut v, Some(-1), 9), Err(InsertError::PositionOutOfBounds));
    assert_eq!(v, vec![1, 2, 3]);
}

#[test]
fn remove_takes_out_elements() {
    let mut v = vec![1, 2, 3];
    assert_eq!(table_remove(&mut v, None), Ok(Some(3)));
    assert_eq!(v, vec![1, 2]);
    assert_eq!(table_remove(&mut v, Some(1)), Ok(Some(1)));
    assert_eq!(v, vec![2]);
    assert_eq!(table_remove(&mut v, Some(2)), Ok(None));
    assert_eq!(v, vec![2]);
}

#[test]
fn remove_edges_and_errors() {
    let mut e: Vec<i64> = vec![];
    assert_eq!(table_remove(&mut e, None), Ok(None));
    assert_eq!(table_remove(&mut e, Some(0)), Ok(None));
    assert_eq!(table_remove(&mut e, Some(1)), Ok(None));
    assert_eq!(table_remove(&mut e, Some(2)), Err(RemoveError::PositionOutOfBounds));
    assert_eq!(table_remove(&mut e, Some(-1)), Err(RemoveError::PositionOutOfBounds));
    let mut v = vec![1, 2, 3];
    assert_eq!(table_remove(&mut v, Some(5)), Err(RemoveError::PositionOutOfBounds));
    assert_eq!(table_remove(&mut v, Some(0)), Err(RemoveError::PositionOutOfBounds));
    assert_eq!(v, vec![1, 2, 3]);
}

#[test]
fn move_plans() {
    assert_eq!(move_plan(1, 3, 2, true), Ok(Some(MovePlan { count: 3, forward: false })));
    assert_eq!(move_plan(1, 3, 2, false), Ok(Some(MovePlan { count: 3, forward: true })));
    assert_eq!(move_plan(1, 3, 5, true), Ok(Some(MovePlan { count: 3, forward: true })));
    assert_eq!(move_plan(2, 4, 1, true), Ok(Some(MovePlan { count: 3, forward: true })));
    assert_eq!(move_plan(3, 1, 1, true), Ok(None));
    assert_eq!(move_plan(i64::MIN, 0, 1, true), Err(MoveError::TooManyElements));
    assert_eq!(move_plan(1, 10, i64::MAX, false), Err(MoveError::DestinationWrapAround));
    assert_eq!(move_plan(1, 10, i64::MAX - 9, false), Ok(Some(MovePlan { count: 10, forward: true })));
}

#[test]
fn move_overlapping_ranges() {
    let mut v = vec![1, 2, 3, 4, 5];
    let plan = move_plan(1, 3, 2, true).unwrap().unwrap();
    move_within(&mut v, 1, 2, plan);
    assert_eq!(v, vec![1, 1, 2, 3, 5]);
    let mut w = vec![1, 2, 3, 4, 5];
    let plan = move_plan(2, 4, 1, true).unwrap().unwrap();
    move_within(&mut w, 2, 1, plan);
    assert_eq!(w, vec![2, 3, 4, 4, 5]);
}

#[test]
fn unpack_counts() {
    assert_eq!(unpack_count(1, 3), Ok(3));
    assert_eq!(unpack_count(3, 1), Ok(0));
    assert_eq!(unpack_count(-2, 2), Ok(5));
    assert_eq!(unpack_count(1, 0x7fff_ffff), Ok(0x7fff_ffff));
    assert_eq!(unpack_count(0, 0x7fff_ffff), Err(UnpackError::TooManyResults));
    assert_eq!(unpack_count(i64::MIN, i64::MAX), Err(UnpackError::TooManyResults));
}

fn texts(items: &[Option<&str>]) -> Vec<Option<Vec<u8>>> {
    items.iter().map(|o| o.map(|s| s.as_bytes().to_vec())).collect()
}

#[test]
fn concat_joins_texts() {
    let v = texts(&[Some("a"), Some("b"), Some("c")]);
    assert_eq!(table_concat(&v, b",", 1, 3), Ok(b"a,b,c".to_vec()));
    assert_eq!(table_concat(&v, b"", 1, 3), Ok(b"abc".to_vec()));
    assert_eq!(table_concat(&v, b"--", 2, 3), Ok(b"b--c".to_vec()));
    assert_eq!(table_concat(&v, b",", 3, 3), Ok(b"c".to_vec()));
    assert_eq!(table_concat(&v, b",", 3, 2), Ok(Vec::new()));
}

#[test]
fn concat_reports_first_bad_position() {
    let v = texts(&[Some("a"), None, Some("c")]);
    assert_eq!(table_concat(&v, b",", 1, 3), Err(ConcatError::InvalidValue(2)));
    let w = texts(&[Some("a")]);
    assert_eq!(table_concat(&w, b",", 1, 4), Err(ConcatError::InvalidValue(2)));
    assert_eq!(table_concat(&w, b",", 0, 1), Err(ConcatError::InvalidValue(0)));
}

#[test]
fn getinfo_default_options() {
    assert_eq!(
        info_fields(None),
        Ok(vec![
            InfoField::Source,
            InfoField::CurrentLine,
            InfoField::Upvalues,
            InfoField::Name,
            InfoField::Transfer,
            InfoField::TailCall,
            InfoField::Func,
        ])
    );
}

#[test]
fn getinfo_selected_options() {
    assert_eq!(info_fields(Some(b"nS")), Ok(vec![InfoField::Source, InfoField::Name]));
    assert_eq!(info_fields(Some(b"L\0S")), Ok(vec![InfoField::ActiveLines]));
    assert_eq!(info_fields(Some(b"")), Ok(vec![]));
    assert_eq!(info_fields(Some(b"xyz")), Ok(vec![]));
    assert_eq!(info_fields(Some(b">S")), Err(GetInfoError::InvalidOption));
}

#[test]
fn sort_with_a_comparison() {
    let mut t = vec![3, 1, 2];
    assert_eq!(table_sort(&mut t), Ok(()));
    assert_eq!(t, vec![1, 2, 3]);
    let mut u = vec![3, 1, 2];
    assert_eq!(table_sort_by(&mut u, &|a: i64, b: i64| a > b), Ok(()));
    assert_eq!(u, vec![3, 2, 1]);
    let mut w: Vec<i64> = (0..300).map(|i| (i * 7919) % 301 - 150).collect();
    assert_eq!(table_sort_by(&mut w, &|a: i64, b: i64| a.abs() < b.abs()), Ok(()));
    for k in 1..w.len() {
        assert!(w[k - 1].abs() <= w[k].abs());
    }
}

#[test]
fn sort_other_elements_with_a_comparison() {
    let mut words: Vec<&[u8]> = vec![b"pear", b"apple", b"fig", b"banana"];
    assert_eq!(table_sort_by(&mut words, &|a: &[u8], b: &[u8]| a.len() < b.len()), Ok(()));
    assert_eq!(words.iter().map(|w| w.len()).collect::<Vec<_>>(), vec![3, 4, 5, 6]);
}

#[test]
fn sort_with_a_comparison_defined_only_on_the_elements() {
    // 100 / x fails on 0, which is not among the elements.
    let mut v: Vec<i64> = vec![1, 3, 200, 2];
    assert_eq!(table_sort_by(&mut v, &|a: i64, b: i64| 100 / a < 100 / b), Ok(()));
    assert_eq!(v, vec![200, 3, 2, 1]);
}

#[test]
fn getinfo_invalid_option_message() {
    assert_eq!(info_fields(Some(b">S")), Err(GetInfoError::InvalidOption));
    assert_eq!(GetInfoError::InvalidOption.message(), b"invalid option '>'".to_vec());
}
