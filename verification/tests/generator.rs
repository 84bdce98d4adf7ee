use permutation::Permutation;

#[test]
fn zero() {
    let mut permutation = Permutation::<()>::new(vec![]);

    let expected: Vec<()> = vec![];
    assert_eq!(permutation.next(), Some(&expected));
    assert_eq!(permutation.next(), None);
}

#[test]
fn one() {
    let mut permutation = Permutation::new(vec![1]);

    let expected = vec![1];
    assert_eq!(permutation.next(), Some(&expected));
    assert_eq!(permutation.next(), None);
}

#[test]
fn two() {
    let mut permutation = Permutation::new(vec![1, 2]);

    assert_eq!(permutation.next(), Some(&vec![1, 2]));
    assert_eq!(permutation.next(), Some(&vec![2, 1]));
    assert_eq!(permutation.next(), None);
}

#[test]
fn three() {
    let mut permutation = Permutation::new(vec![1, 2, 3]);

    let mut ret = String::new();

    while let Some(perm) = permutation.next() {
        ret.push_str(
            &perm
                .iter()
                .map(|i| i.to_string())
                .collect::<Vec<String>>()
                .join(", "),
        );
        ret.push_str("\n");
    }
    assert_eq!(
        ret,
        "1, 2, 3\n\
         1, 3, 2\n\
         3, 1, 2\n\
         3, 2, 1\n\
         2, 3, 1\n\
         2, 1, 3\n"
    );
}

#[test]
fn four() {
    let mut permutation = Permutation::new(vec![1, 2, 3, 4]);

    let mut ret = String::new();

    while let Some(perm) = permutation.next() {
        ret.push_str(
            &perm
                .iter()
                .map(|i| i.to_string())
                .collect::<Vec<String>>()
                .join(", "),
        );
        ret.push_str("\n");
    }

    assert_eq!(
        ret,
        "1, 2, 3, 4\n\
         1, 2, 4, 3\n\
         1, 4, 2, 3\n\
         4, 1, 2, 3\n\
         4, 1, 3, 2\n\
         1, 4, 3, 2\n\
         1, 3, 4, 2\n\
         1, 3, 2, 4\n\
         3, 1, 2, 4\n\
         3, 1, 4, 2\n\
         3, 4, 1, 2\n\
         4, 3, 1, 2\n\
         4, 3, 2, 1\n\
         3, 4, 2, 1\n\
         3, 2, 4, 1\n\
         3, 2, 1, 4\n\
         2, 3, 1, 4\n\
         2, 3, 4, 1\n\
         2, 4, 3, 1\n\
         4, 2, 3, 1\n\
         4, 2, 1, 3\n\
         2, 4, 1, 3\n\
         2, 1, 4, 3\n\
         2, 1, 3, 4\n"
    );
}
