use segment_tree::SegmentTree;

#[test]
fn test_noop_update_keeps_queries() -> Result<(), &'static str> {
    let input: Vec<isize> = vec![1, 2, 3, 4, 5, 6, 7, 8];
    let mut tree = SegmentTree::new(&input)?;

    // Rewrite a leaf with its current value: no query result may change.
    tree.update(3, 4)?;
    assert_eq!(tree.query(3, 3)?, 4);
    assert_eq!(tree.query(0, 7)?, 36);
    assert_eq!(tree.query(0, 3)?, 10);
    assert_eq!(tree.query(2, 5)?, 18);

    Ok(())
}

#[test]
fn test_query_additivity() -> Result<(), &'static str> {
    let input: Vec<isize> = vec![1, 2, 3, 4, 5, 6, 7, 8];
    let tree = SegmentTree::new(&input)?;

    assert_eq!(tree.query(0, 2)? + tree.query(3, 7)?, tree.query(0, 7)?);
    assert_eq!(tree.query(2, 4)? + tree.query(5, 6)?, tree.query(2, 6)?);
    assert_eq!(tree.query(0, 0)? + tree.query(1, 1)?, tree.query(0, 1)?);

    Ok(())
}

#[test]
fn test_all_ranges_match_plain_sums() -> Result<(), &'static str> {
    // Every range query agrees with a directly computed sum, so every
    // internal node's cached value is consistent after construction and
    // after an update.
    let input: Vec<isize> = vec![5, -3, 7, 0, 2, -8, 1];
    let mut tree = SegmentTree::new(&input)?;
    let mut values: Vec<isize> = input.clone();

    let mut pass: usize = 0;
    while pass < 2 {
        let mut lo: usize = 0;
        while lo < values.len() {
            let mut hi: usize = lo;
            while hi < values.len() {
                let mut expected: isize = 0;
                let mut k: usize = lo;
                while k <= hi {
                    expected += values[k];
                    k += 1;
                }
                assert_eq!(tree.query(lo, hi)?, expected);
                hi += 1;
            }
            lo += 1;
        }
        tree.update(4, 11)?;
        values[4] = 11;
        pass += 1;
    }

    Ok(())
}

#[test]
fn test_non_power_of_two_length() -> Result<(), &'static str> {
    let input: Vec<isize> = vec![1, 2, 3, 4, 5, 6, 7, 8, 9];
    let mut tree = SegmentTree::new(&input)?;

    assert_eq!(tree.query(0, 7)?, 36);
    assert_eq!(tree.query(1, 4)?, 14);
    assert_eq!(tree.query(0, 8)?, 45);

    tree.update(3, 10)?;
    assert_eq!(tree.query(1, 4)?, 20);

    tree.update(8, 1)?;
    assert_eq!(tree.query(0, 8)?, 43);
    assert_eq!(tree.query(8, 8)?, 1);

    Ok(())
}

#[test]
fn test_single_element_tree() -> Result<(), &'static str> {
    let input: Vec<isize> = vec![5];
    let mut tree = SegmentTree::new(&input)?;

    assert_eq!(tree.query(0, 0)?, 5);
    tree.update(0, 7)?;
    assert_eq!(tree.query(0, 0)?, 7);
    assert!(tree.query(0, 1).is_err());
    assert!(tree.update(1, 0).is_err());

    Ok(())
}

#[test]
fn test_small_lengths() -> Result<(), &'static str> {
    let input: Vec<isize> = vec![4, -1];
    let tree = SegmentTree::new(&input)?;
    assert_eq!(tree.query(0, 1)?, 3);
    assert_eq!(tree.query(1, 1)?, -1);

    let input: Vec<isize> = vec![4, -1, 6];
    let tree = SegmentTree::new(&input)?;
    assert_eq!(tree.query(0, 2)?, 9);
    assert_eq!(tree.query(1, 2)?, 5);

    Ok(())
}

#[test]
fn test_negative_values() -> Result<(), &'static str> {
    let input: Vec<isize> = vec![-5, 3, -2, 7];
    let mut tree = SegmentTree::new(&input)?;

    assert_eq!(tree.query(0, 3)?, 3);
    assert_eq!(tree.query(0, 1)?, -2);

    tree.update(2, -10)?;
    assert_eq!(tree.query(0, 3)?, -5);

    Ok(())
}

#[test]
fn test_largest_single_element() -> Result<(), &'static str> {
    // For a one-element sequence the permitted magnitude is the half-range.
    let input: Vec<isize> = vec![isize::MAX / 2];
    let tree = SegmentTree::new(&input)?;
    assert_eq!(tree.query(0, 0)?, isize::MAX / 2);

    Ok(())
}

#[test]
fn test_construction_error_messages() {
    let input: Vec<isize> = vec![];
    assert_eq!(SegmentTree::new(&input).err().unwrap(), "Input is empty");

    let input: Vec<isize> = vec![isize::MAX / 2 + 1];
    assert_eq!(
        SegmentTree::new(&input).err().unwrap(),
        "Input value exceeded minimum value"
    );

    let input: Vec<isize> = vec![isize::MIN / 2 - 1];
    assert_eq!(
        SegmentTree::new(&input).err().unwrap(),
        "Input value exceeded maximum value"
    );
}

#[test]
fn test_query_error_messages() {
    let input: Vec<isize> = vec![1, 2, 3, 4, 5, 6, 7, 8];
    let tree = SegmentTree::new(&input).unwrap();

    assert_eq!(
        tree.query(5, 2).err().unwrap(),
        "Start index is greater than end index"
    );
    assert_eq!(tree.query(8, 9).err().unwrap(), "Start index is out of bounds");
    assert_eq!(tree.query(0, 8).err().unwrap(), "End index is out of bounds");
}

#[test]
fn test_update_error_messages() {
    let input: Vec<isize> = vec![1, 2, 3, 4, 5, 6, 7, 8];
    let mut tree = SegmentTree::new(&input).unwrap();

    assert_eq!(tree.update(8, 1).err().unwrap(), "Update index is out of bounds");
    assert_eq!(
        tree.update(0, isize::MAX / 2 + 1).err().unwrap(),
        "New value is out of valid range"
    );
}
