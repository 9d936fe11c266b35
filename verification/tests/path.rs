use sudoku::{generate_paths, new_box, permutations, Bitfield};

#[test]
fn all_unique() {
    let duplicate = permutations().into_iter().find(|xs| {
        for (i, x) in xs.iter().enumerate() {
            for (j, x2) in xs.iter().enumerate() {
                if i != j && x == x2 {
                    return true;
                }
            }
        }
        false
    });
    assert_eq!(None, duplicate)
}

#[test]
fn count() {
    // 9 factorial
    assert_eq!(362_880, permutations().into_iter().count());
}

#[test]
fn total_count() {
    // Pre-calculated to be the right number
    assert_eq!(generate_paths().into_iter().count(), 46_656);
}

#[test]
fn includes_one_known_value() {
    let example_path = Bitfield::new(0, 1)
        | Bitfield::new(1, 4)
        | Bitfield::new(2, 8)
        | Bitfield::new(3, 0)
        | Bitfield::new(4, 3)
        | Bitfield::new(5, 7)
        | Bitfield::new(6, 5)
        | Bitfield::new(7, 2)
        | Bitfield::new(8, 6);

    assert!(generate_paths().into_iter().any(|path| path == example_path));
}

#[test]
fn does_not_include_known_bad_value() {
    let example_bad_path = Bitfield::new(0, 1)
        | Bitfield::new(1, 2)
        | Bitfield::new(2, 8)
        | Bitfield::new(3, 0)
        | Bitfield::new(4, 3)
        | Bitfield::new(5, 7)
        | Bitfield::new(6, 5)
        | Bitfield::new(7, 4)
        | Bitfield::new(8, 6);

    assert!(generate_paths().into_iter().all(|path| path != example_bad_path));
}

#[test]
fn top_left() {
    let bitfield = new_box(0, 0);
    let string = bitfield.to_string();
    let lines = string.lines().map(|line| line.trim()).collect::<Vec<_>>();

    assert_eq!(
        &lines[..],
        &[
            "+-----+-+-----+-+-----+",
            "|! ! !| |     | |     |",
            "|! ! !| |     | |     |",
            "|! ! !| |     | |     |",
            "+-----+-+-----+-+-----+",
            "|     | |     | |     |",
            "|     | |     | |     |",
            "|     | |     | |     |",
            "+-----+-+-----+-+-----+",
            "|     | |     | |     |",
            "|     | |     | |     |",
            "|     | |     | |     |",
            "+-----+-+-----+-+-----+",
        ]
    );
}

#[test]
fn bottom_middle() {
    let bitfield = new_box(2, 1);
    let string = bitfield.to_string();
    let lines = string.lines().map(|line| line.trim()).collect::<Vec<_>>();

    assert_eq!(
        &lines[..],
        &[
            "+-----+-+-----+-+-----+",
            "|     | |     | |     |",
            "|     | |     | |     |",
            "|     | |     | |     |",
            "+-----+-+-----+-+-----+",
            "|     | |     | |     |",
            "|     | |     | |     |",
            "|     | |     | |     |",
            "+-----+-+-----+-+-----+",
            "|     | |! ! !| |     |",
            "|     | |! ! !| |     |",
            "|     | |! ! !| |     |",
            "+-----+-+-----+-+-----+",
        ]
    );
}
