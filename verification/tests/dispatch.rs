use take_put_back::general::{process_all, process_all_helper, TakePutBack};
use take_put_back::DispatchError;

#[test]
fn vectors_vec_i32() {
    let mut v = vec![0, 1, 2, 3, 4, 5];
    let expected = vec![0, 2, 2, 4, 4, 6];
    process_all(&mut v, &[(1usize, 1usize), (3, 3), (5, 5)], |x: i32| x + 1).unwrap();
    assert_eq!(v, expected);
}

#[test]
fn main_vec_i32() {
    let mut v = vec![0, 1, 2, 3, 4, 5];
    let expected = vec![0, 2, 2, 4, 4, 6];
    process_all(&mut v, &[(1usize, 1usize), (3, 3), (5, 5)], |x: i32| x + 1).unwrap();
    assert_eq!(v, expected);
}

#[test]
fn vec_nothing() {
    let mut v = vec![0, 1, 2, 3, 4, 5];
    let expected = v.clone();
    let idces = v.all_idces_inout();
    process_all(
        &mut v,
        &idces,
        <Vec<i32> as TakePutBack<usize, usize>>::do_nothing_process,
    )
    .unwrap();
    assert_eq!(v, expected);

    v = vec![];
    let expected = v.clone();
    let idces = v.all_idces_inout();
    process_all(
        &mut v,
        &idces,
        <Vec<i32> as TakePutBack<usize, usize>>::do_nothing_process,
    )
    .unwrap();
    assert_eq!(v, expected);
}

#[test]
fn vectors_nonempty_i32() {
    let mut v = nonempty::NonEmpty {
        head: 0,
        tail: vec![1, 2, 3, 4, 5],
    };
    let expected = nonempty::NonEmpty {
        head: 1,
        tail: vec![2, 2, 4, 4, 6],
    };
    process_all(
        &mut v,
        &[(0usize, 0usize), (1, 1), (3, 3), (5, 5)],
        |x: i32| x + 1,
    )
    .unwrap();
    assert_eq!(v, expected);
}

#[test]
fn main_nonempty_i32() {
    let mut v = nonempty::NonEmpty {
        head: 0,
        tail: vec![1, 2, 3, 4, 5],
    };
    let expected = nonempty::NonEmpty {
        head: 1,
        tail: vec![2, 2, 4, 4, 6],
    };
    process_all(
        &mut v,
        &[(0usize, 0usize), (1, 1), (3, 3), (5, 5)],
        |x: i32| x + 1,
    )
    .unwrap();
    assert_eq!(v, expected);
}

#[test]
fn nonempty_nothing() {
    let mut v = nonempty::NonEmpty {
        head: 0,
        tail: vec![1, 2, 3, 4, 5],
    };
    let expected = v.clone();
    let idces = v.all_idces_inout();
    process_all(
        &mut v,
        &idces,
        <nonempty::NonEmpty<i32> as TakePutBack<usize, usize>>::do_nothing_process,
    )
    .unwrap();
    assert_eq!(v, expected);

    v = nonempty::NonEmpty {
        head: 0,
        tail: vec![],
    };
    let expected = v.clone();
    let idces = v.all_idces_inout();
    process_all(
        &mut v,
        &idces,
        <nonempty::NonEmpty<i32> as TakePutBack<usize, usize>>::do_nothing_process,
    )
    .unwrap();
    assert_eq!(v, expected);
}

#[test]
fn empty_work_list_does_nothing() {
    let mut v = vec![7, 8, 9];
    let r = process_all(&mut v, &[], |x: i32| x + 1);
    assert_eq!(r, Ok(()));
    assert_eq!(v, vec![7, 8, 9]);
}

#[test]
fn invalid_extraction_index_fails_fast() {
    let mut v = vec![1, 2, 3];
    let r = process_all(&mut v, &[(0usize, 0usize), (9, 9)], |x: i32| x + 1);
    assert_eq!(r, Err(DispatchError::IndexNotFound));
    // the failing chunk was validated before any extraction
    assert_eq!(v, vec![1, 2, 3]);
}

#[test]
fn invalid_reinsertion_index_fails_fast() {
    // extraction indices are all fine; one reinsertion target is not:
    // the chunk fails before anything is extracted
    let mut v = vec![1, 2, 3];
    let r = process_all(&mut v, &[(0usize, 0usize), (1, 9)], |x: i32| x + 1);
    assert_eq!(r, Err(DispatchError::IndexNotFound));
    assert_eq!(v, vec![1, 2, 3], "no partially-applied chunk");
}

#[test]
fn single_chunk_helper_matches_dispatch() {
    let mut v = vec![0, 1, 2, 3, 4, 5, 6, 7, 8, 9];
    // one chunk regardless of length
    process_all_helper(&mut v, &[(0usize, 0usize), (4, 4), (9, 9)], &|x: i32| x * 10).unwrap();
    assert_eq!(v, vec![0, 1, 2, 3, 40, 5, 6, 7, 8, 90]);
}

#[test]
fn take_leaves_placeholder_and_put_back_restores() {
    let mut v = vec![5, 6, 7];
    let item = TakePutBack::<usize, usize>::take(&mut v, &1).unwrap();
    assert_eq!(item, 6);
    assert_eq!(v, vec![5, 0, 7], "a neutral placeholder fills the slot");
    TakePutBack::<usize, usize>::put_back(&mut v, &1, item).unwrap();
    assert_eq!(v, vec![5, 6, 7]);
}

#[test]
fn nonempty_head_is_position_zero() {
    let mut v = nonempty::NonEmpty {
        head: 3,
        tail: vec![4, 5],
    };
    let item = TakePutBack::<usize, usize>::take(&mut v, &0).unwrap();
    assert_eq!(item, 3);
    assert_eq!(v.head, 0);
    TakePutBack::<usize, usize>::put_back(&mut v, &0, 30).unwrap();
    assert_eq!(v.head, 30);
    let r: Result<i32, DispatchError> = TakePutBack::<usize, usize>::take(&mut v, &3);
    assert_eq!(r, Err(DispatchError::IndexNotFound));
}

#[test]
fn moved_work_items_cross_positions() {
    // extraction and reinsertion indices may differ
    let mut v = vec![10, 20];
    process_all(&mut v, &[(0usize, 1usize)], |x: i32| x + 1).unwrap();
    assert_eq!(v, vec![0, 11], "slot 0 keeps its placeholder, slot 1 gets the result");
}

#[test]
fn error_kinds() {
    assert!(take_put_back::error_is_fatal(&DispatchError::IndexNotFound));
    assert!(take_put_back::error_is_fatal(&DispatchError::InvariantViolation));
    assert!(!take_put_back::error_is_fatal(&DispatchError::ChannelDeliveryFailure));
}

#[test]
fn many_items_cross_chunk_boundaries() {
    // more work items than any machine's parallelism bound, so several
    // chunks run strictly one after another
    let n = 100usize;
    let mut v: Vec<i32> = (0..n as i32).collect();
    let pairs: Vec<(usize, usize)> = (0..n).map(|i| (i, i)).collect();
    process_all(&mut v, &pairs, |x: i32| x * 3).unwrap();
    let expected: Vec<i32> = (0..n as i32).map(|x| x * 3).collect();
    assert_eq!(v, expected);
}
