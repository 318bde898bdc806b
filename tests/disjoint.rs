use physics_engine_2d::two_mut;

#[test]
fn two_mut_in_order() {
    let mut v = vec![1, 2, 3, 4];
    {
        let (a, b) = two_mut(&mut v, 1, 3);
        assert_eq!((*a, *b), (2, 4));
        *a = 20;
        *b = 40;
    }
    assert_eq!(v, vec![1, 20, 3, 40]);
}

#[test]
fn two_mut_reversed() {
    let mut v = vec![1, 2, 3];
    {
        let (a, b) = two_mut(&mut v, 2, 0);
        assert_eq!((*a, *b), (3, 1));
        *a += 100;
        *b -= 1;
    }
    assert_eq!(v, vec![0, 2, 103]);
}

#[test]
fn two_mut_adjacent() {
    let mut v = vec!['a', 'b'];
    {
        let (a, b) = two_mut(&mut v, 0, 1);
        std::mem::swap(a, b);
    }
    assert_eq!(v, vec!['b', 'a']);
}
