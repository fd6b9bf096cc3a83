use algorithms::sorting::basic_sorting::{counting_sort, insertion_sort, selection_sort};
use algorithms::sorting::selection_sort::sort;

#[test]
fn samples_should_work() {
    assert_eq!([1, 2, 3, 4], sort(&mut [2, 1, 4, 3]));
}

#[test]
fn sort_leaves_the_slice_sorted() {
    let mut values = [9, -3, 7, 7, 0, -3, 12];
    assert_eq!(sort(&mut values), [-3, -3, 0, 7, 7, 9, 12]);
    assert_eq!(values, [-3, -3, 0, 7, 7, 9, 12]);
    let mut nothing: [u8; 0] = [];
    assert_eq!(sort(&mut nothing), []);
    let mut one = ["only"];
    assert_eq!(sort(&mut one), ["only"]);
}

#[test]
fn selection_sort_should_work() {
    fn sorts(xs: Vec<isize>) -> bool {
        let mut ys = xs.clone();
        ys.sort();

        selection_sort(xs) == ys
    }
    quickcheck::quickcheck(sorts as fn(Vec<isize>) -> bool);
    assert_eq!(selection_sort(vec![3, 1, 2, 1]), vec![1, 1, 2, 3]);
    assert_eq!(selection_sort(Vec::<isize>::new()), vec![]);
}

#[test]
fn insertion_sort_should_work() {
    fn sorts(xs: Vec<isize>) -> bool {
        let mut ys = xs.clone();
        ys.sort();

        insertion_sort(xs) == ys
    }
    quickcheck::quickcheck(sorts as fn(Vec<isize>) -> bool);
    assert_eq!(insertion_sort(vec![3, 1, 2, 1]), vec![1, 1, 2, 3]);
    assert_eq!(insertion_sort(vec![5, 4, 3, 2, 1, 0]), vec![0, 1, 2, 3, 4, 5]);
    assert_eq!(insertion_sort(Vec::<isize>::new()), vec![]);
}

#[test]
fn counting_sort_should_work() {
    fn sorts(xs: Vec<u8>) -> bool {
        let xs: Vec<usize> = xs.into_iter().map(usize::from).collect();
        let mut ys = xs.clone();
        ys.sort();

        counting_sort(xs) == ys
    }
    quickcheck::quickcheck(sorts as fn(Vec<u8>) -> bool);
    assert_eq!(counting_sort(vec![4, 0, 2, 4, 1, 0]), vec![0, 0, 1, 2, 4, 4]);
    assert_eq!(counting_sort(vec![]), vec![]);
    assert_eq!(counting_sort(vec![0]), vec![0]);
}

#[test]
fn sort_should_work() {
    fn sorts(xs: Vec<u32>) -> bool {
        let mut ys = xs.clone();
        ys.sort();
        let mut zs = xs.clone();

        sort(&mut zs) == ys.as_slice()
    }
    quickcheck::quickcheck(sorts as fn(Vec<u32>) -> bool);
}
