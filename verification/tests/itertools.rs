use alphgen::itertools::split_when;

fn runs<T: Clone, F: Fn(&T, &T) -> bool>(slice: &[T], f: F) -> Vec<Vec<T>> {
    let mut it = split_when(slice, f);
    let mut out = Vec::new();
    while let Some(run) = it.next() {
        out.push(run.to_vec());
    }
    assert!(it.next().is_none());
    out
}

#[test]
fn split_when_splits_between_matching_neighbours() {
    let v = [1, 4, 5, 6, 5, 7, 8, 9];
    let mut it = split_when(&v, |a, b| a + 1 != *b);

    assert_eq!(it.next().unwrap(), &[1]);
    assert_eq!(it.next().unwrap(), &[4, 5, 6]);
    assert_eq!(it.next().unwrap(), &[5]);
    assert_eq!(it.next().unwrap(), &[7, 8, 9]);
    assert!(it.next().is_none());
}

#[test]
fn split_when_of_nothing_gives_nothing() {
    let v: [u8; 0] = [];
    assert_eq!(runs(&v, |a, b| a != b), Vec::<Vec<u8>>::new());
}

#[test]
fn split_when_one_element_is_one_run() {
    assert_eq!(runs(&[7], |_, _| true), vec![vec![7]]);
}

#[test]
fn split_when_never_and_always() {
    assert_eq!(runs(&[1, 2, 3], |_, _| false), vec![vec![1, 2, 3]]);
    assert_eq!(runs(&[1, 2, 3], |_, _| true), vec![vec![1], vec![2], vec![3]]);
}

#[test]
fn split_when_runs_give_the_slice_back() {
    let v = [3, 3, 1, 1, 1, 2, 3, 3, 3, 3];
    let got = runs(&v, |a, b| a != b);
    assert_eq!(got, vec![vec![3, 3], vec![1, 1, 1], vec![2], vec![3, 3, 3, 3]]);
    assert_eq!(got.concat(), v.to_vec());
}
