use taproot::sort::insertion_sort;

#[test]
fn sorts_with_the_comparator() {
    let mut v = vec![5u32, 1, 4, 1, 3];
    let order = |a: u32, b: u32| -> i32 {
        if a < b {
            -1
        } else if a > b {
            1
        } else {
            0
        }
    };
    insertion_sort(&mut v, &order);
    assert_eq!(v, vec![1, 1, 3, 4, 5]);
}

#[test]
fn descending_comparator() {
    let mut v = vec![2i64, 9, -3, 7];
    let order = |a: i64, b: i64| -> i32 {
        if a > b {
            -1
        } else if a < b {
            1
        } else {
            0
        }
    };
    insertion_sort(&mut v, &order);
    assert_eq!(v, vec![9, 7, 2, -3]);
}

#[test]
fn equal_elements_keep_their_order() {
    // Sort pairs by their first field only.
    let mut v = vec![(2u8, 'a'), (1, 'b'), (2, 'c'), (1, 'd')];
    let order = |x: (u8, char), y: (u8, char)| -> i32 { x.0 as i32 - y.0 as i32 };
    insertion_sort(&mut v, &order);
    assert_eq!(v, vec![(1, 'b'), (1, 'd'), (2, 'a'), (2, 'c')]);
}

#[test]
fn empty_and_single() {
    let mut e: Vec<u8> = vec![];
    insertion_sort(&mut e, &|a: u8, b: u8| a as i32 - b as i32);
    assert!(e.is_empty());
    let mut one = vec![42u8];
    insertion_sort(&mut one, &|a: u8, b: u8| a as i32 - b as i32);
    assert_eq!(one, vec![42]);
}
