use chainlist::sort;

#[test]
fn select_sort() {
    let mut arr = vec![1, 2, 2, 2, 1, 1, 1, 2, 2, 2, 2, 2, 1, 1, 2, 2];
    sort::select_sort(&mut arr);
    assert_eq!(arr, vec![1, 1, 1, 1, 1, 1, 2, 2, 2, 2, 2, 2, 2, 2, 2, 2]);
    let mut arr = vec![1, 9, 7, 2, 3, 4, 5, 8, 0, 6];
    sort::select_sort(&mut arr);
    assert_eq!(arr, [0, 1, 2, 3, 4, 5, 6, 7, 8, 9]);
    let mut arr: Vec<u8> = vec![];
    sort::select_sort(&mut arr);
    assert_eq!(arr, vec![]);
    let mut arr = vec![1];
    sort::select_sort(&mut arr);
    assert_eq!(arr, vec![1]);
}

#[test]
fn bubble_sort() {
    let mut arr = vec![1, 2, 2, 2, 1, 1, 1, 2, 2, 2, 2, 2, 1, 1, 2, 2];
    sort::bubble_sort(&mut arr);
    assert_eq!(arr, vec![1, 1, 1, 1, 1, 1, 2, 2, 2, 2, 2, 2, 2, 2, 2, 2]);
    let mut arr = vec![1, 9, 7, 2, 3, 4, 5, 8, 0, 6];
    sort::bubble_sort(&mut arr);
    assert_eq!(arr, [0, 1, 2, 3, 4, 5, 6, 7, 8, 9]);
    let mut arr: Vec<u8> = vec![];
    sort::bubble_sort(&mut arr);
    assert_eq!(arr, vec![]);
    let mut arr = vec![1];
    sort::bubble_sort(&mut arr);
    assert_eq!(arr, vec![1]);
}

#[test]
fn insert_sort() {
    let mut arr = vec![1, 2, 2, 2, 1, 1, 1, 2, 2, 2, 2, 2, 1, 1, 2, 2];
    sort::insert_sort(&mut arr);
    assert_eq!(arr, vec![1, 1, 1, 1, 1, 1, 2, 2, 2, 2, 2, 2, 2, 2, 2, 2]);
    let mut arr = vec![1, 9, 7, 2, 3, 4, 5, 8, 0, 6];
    sort::insert_sort(&mut arr);
    assert_eq!(arr, [0, 1, 2, 3, 4, 5, 6, 7, 8, 9]);
    let mut arr: Vec<u8> = vec![];
    sort::insert_sort(&mut arr);
    assert_eq!(arr, vec![]);
    let mut arr = vec![1];
    sort::insert_sort(&mut arr);
    assert_eq!(arr, vec![1]);
}

#[test]
fn count_sort() {
    let mut arr = vec![1, 2, 2, 2, 1, 1, 1, 2, 2, 2, 2, 2, 1, 1, 2, 2];
    sort::count_sort(&mut arr, |a| a, |a| a);
    assert_eq!(arr, vec![1, 1, 1, 1, 1, 1, 2, 2, 2, 2, 2, 2, 2, 2, 2, 2]);
    let mut arr = vec![1, 9, 7, 2, 3, 4, 5, 8, 0, 6];
    sort::count_sort(&mut arr, |a| a, |a| a);
    assert_eq!(arr, [0, 1, 2, 3, 4, 5, 6, 7, 8, 9]);
    let mut arr: Vec<usize> = vec![];
    sort::count_sort(&mut arr, |a| a, |a| a);
    assert_eq!(arr, vec![]);
    let mut arr = vec![1];
    sort::count_sort(&mut arr, |a| a, |a| a);
    assert_eq!(arr, vec![1]);
}

#[test]
fn count_sort_with_offset_keys() {
    let mut arr: Vec<usize> = vec![305, 301, 304, 301];
    sort::count_sort(&mut arr, |a| a - 300, |a| a + 300);
    assert_eq!(arr, vec![301, 301, 304, 305]);
}
