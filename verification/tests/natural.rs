use lockwatch::natural::Natural;

fn same(a: &Natural, b: &Natural) -> bool {
    a.at_least(b) && b.at_least(a)
}

fn number(n: u128) -> Natural {
    Natural::from_u128(n)
}

#[test]
fn numbers_are_compared() {
    let base: u128 = 1 << 32;
    let ordered = [0, 1, base - 1, base, base + 1, 2 * base, base * base, u128::MAX];
    for (i, a) in ordered.iter().enumerate() {
        for (j, b) in ordered.iter().enumerate() {
            assert_eq!(number(*a).at_least(&number(*b)), i >= j);
        }
    }
}

#[test]
fn sums_carry_and_differences_borrow() {
    let base: u128 = 1 << 32;
    for (a, b) in [(0, 0), (base - 1, 1), (base * base - 1, 1), (12345, base * base * base - 7)] {
        let sum = number(a).plus(&number(b));
        assert!(same(&sum, &number(a + b)));
        assert!(same(&sum.minus(&number(a)), &number(b)));
        assert!(same(&sum.minus(&number(b)), &number(a)));
        assert!(same(&sum.minus(&sum), &number(0)));
    }
    let above = number(u128::MAX).plus(&number(1));
    assert!(!number(u128::MAX).at_least(&above));
    assert!(same(&above.minus(&number(1)), &number(u128::MAX)));
}

#[test]
fn products_are_exact() {
    let base: u128 = 1 << 32;
    for (a, b) in [(0, base), (base - 1, base - 1), (base + 3, base * base - 1), (7, 6)] {
        assert!(same(&number(a).times(&number(b)), &number(a * b)));
    }
    let square = number(u128::MAX).times(&number(u128::MAX));
    let expected = number(u128::MAX).times(&number(u128::MAX - 1)).plus(&number(u128::MAX));
    assert!(same(&square, &expected));
}

#[test]
fn powers_of_ten_are_exact() {
    assert!(same(&number(25).times_ten_to(0), &number(25)));
    assert!(same(&number(25).times_ten_to(9), &number(25_000_000_000)));
    assert!(same(&number(1).times_ten_to(76), &number(10u128.pow(38)).times(&number(10u128.pow(38)))));
}
