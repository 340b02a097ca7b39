use dezero::functions::reduce::Axes;

#[test]
fn axes_convert_from_every_python_spelling() {
    assert_eq!(Axes::from(1), Axes::Only(vec![1]));
    assert_eq!(Axes::from([0, 2]), Axes::Only(vec![0, 2]));
    assert_eq!(Axes::from(vec![0, 2]), Axes::Only(vec![0, 2]));
    assert_eq!(Axes::from([0, 2].as_slice()), Axes::Only(vec![0, 2]));
    assert_eq!(Axes::default(), Axes::All);
}

#[test]
fn axes_resolve_negatives_and_sort() {
    assert_eq!(Axes::All.resolve(3), vec![0, 1, 2]);
    assert_eq!(Axes::Only(vec![-1, 0]).resolve(3), vec![0, 2]);
    assert_eq!(Axes::All.resolve(0), Vec::<usize>::new());
    assert_eq!(Axes::All.as_slice(), None);
    assert_eq!(Axes::Only(vec![1]).as_slice(), Some([1].as_slice()));
}
