use sudoku::Bitfield;

#[test]
fn storage_mechanism_works() {
    assert_eq!(Bitfield::new(5, 4), Bitfield::new(5, 4));
    assert_ne!(Bitfield::new(5, 4), Bitfield::new(4, 5));
}

#[test]
fn is_empty_check() {
    assert!(Bitfield::default().is_empty());
    assert!(!Bitfield::new(3, 6).is_empty());
}

#[test]
fn contains_check() {
    let small = Bitfield::new(5, 4);
    let big = small | Bitfield::new(3, 7);
    let biggest = big | Bitfield::new(1, 1);

    assert!(biggest.contains(big));
    assert!(biggest.contains(small));
    assert!(big.contains(small));

    assert!(!small.contains(big));
    assert!(!small.contains(biggest));
    assert!(!big.contains(biggest));
}

#[test]
fn len_check() {
    let small = Bitfield::new(5, 4);
    let big = small | Bitfield::new(3, 7);
    let biggest = big | Bitfield::new(1, 1);

    assert_eq!(small.len(), 1);
    assert_eq!(big.len(), 2);
    assert_eq!(biggest.len(), 3);
}

#[test]
fn debug_format() {
    let bitfield = Bitfield::new(3, 6) | Bitfield::new(4, 5);
    let string = bitfield.to_binary();
    assert_eq!(string.len(), 81);
    assert_eq!(string.chars().filter(|&ch| ch == '1').count(), 2);
    assert_eq!(string.chars().filter(|&ch| ch == '0').count(), 79);
}

#[test]
fn display_format() {
    let bitfield = Bitfield::new(3, 6) | Bitfield::new(1, 2) | Bitfield::new(8, 8);
    let string = bitfield.to_string();
    let lines = string.lines().map(|line| line.trim()).collect::<Vec<_>>();

    assert_eq!(
        &lines[..],
        &[
            "+-----+-+-----+-+-----+",
            "|     | |     | |     |",
            "|    !| |     | |     |",
            "|     | |     | |     |",
            "+-----+-+-----+-+-----+",
            "|     | |     | |!    |",
            "|     | |     | |     |",
            "|     | |     | |     |",
            "+-----+-+-----+-+-----+",
            "|     | |     | |     |",
            "|     | |     | |     |",
            "|     | |     | |    !|",
            "+-----+-+-----+-+-----+",
        ]
    );
}
