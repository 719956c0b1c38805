use segment_tree::SegmentTree;

#[test]
fn test_new_segment_tree() {
    let input: Vec<isize> = vec![1, 2, 3, 4, 5, 6, 7, 8];
    let result = SegmentTree::new(&input);
    assert!(result.is_ok());
}

#[test]
fn test_empty_input() {
    let input: Vec<isize> = vec![];
    let result = SegmentTree::new(&input);
    assert!(result.is_err());
}

#[test]
fn test_input_value_bounds() {
    let input: Vec<isize> = vec![isize::MAX / 2 + 1];
    let result = SegmentTree::new(&input);
    assert!(result.is_err());

    let input: Vec<isize> = vec![isize::MIN / 2 - 1];
    let result = SegmentTree::new(&input);
    assert!(result.is_err());
}

#[test]
fn test_basic_query() -> Result<(), &'static str> {
    let input: Vec<isize> = vec![1, 2, 3, 4, 5, 6, 7, 8];
    let segment_tree = SegmentTree::new(&input)?;

    assert_eq!(segment_tree.query(0, 7)?, 36); // Sum of all elements
    assert_eq!(segment_tree.query(0, 3)?, 10); // Sum of first four elements
    assert_eq!(segment_tree.query(4, 7)?, 26); // Sum of last four elements
    assert_eq!(segment_tree.query(2, 5)?, 18); // Sum of middle elements

    Ok(())
}

#[test]
fn test_invalid_query_range() {
    let input: Vec<isize> = vec![1, 2, 3, 4, 5, 6, 7, 8];
    let segment_tree = SegmentTree::new(&input).unwrap();

    // End index out of bounds
    assert!(segment_tree.query(0, 8).is_err());

    // Start index greater than end index
    assert!(segment_tree.query(5, 2).is_err());

    // Start index out of bounds
    assert!(segment_tree.query(8, 9).is_err());
}

#[test]
fn test_basic_update() -> Result<(), &'static str> {
    let input: Vec<isize> = vec![1, 2, 3, 4, 5, 6, 7, 8];
    let mut segment_tree = SegmentTree::new(&input)?;

    // Single value
    segment_tree.update(3, 10)?;
    assert_eq!(segment_tree.query(3, 3)?, 10);
    assert_eq!(segment_tree.query(0, 7)?, 42);

    // Multiple values
    segment_tree.update(0, 5)?;
    segment_tree.update(7, 1)?;
    assert_eq!(segment_tree.query(0, 0)?, 5);
    assert_eq!(segment_tree.query(7, 7)?, 1);
    assert_eq!(segment_tree.query(0, 7)?, 39);

    Ok(())
}

#[test]
fn test_invalid_update() {
    let input: Vec<isize> = vec![1, 2, 3, 4, 5, 6, 7, 8];
    let mut segment_tree = SegmentTree::new(&input).unwrap();

    // Index out of bounds
    assert!(segment_tree.update(8, 1).is_err());

    // Value exceeds maximum
    assert!(segment_tree.update(0, isize::MAX / 2 + 1).is_err());

    // Value below minimum
    assert!(segment_tree.update(0, isize::MIN / 2 - 1).is_err());
}

#[test]
fn test_consecutive_updates() -> Result<(), &'static str> {
    let input: Vec<isize> = vec![1, 2, 3, 4, 5, 6, 7, 8];
    let mut segment_tree = SegmentTree::new(&input)?;

    // Intermediate results from consecutive updates
    segment_tree.update(0, 10)?;
    assert_eq!(segment_tree.query(0, 3)?, 19);

    segment_tree.update(1, 20)?;
    assert_eq!(segment_tree.query(0, 3)?, 37);

    segment_tree.update(2, 30)?;
    assert_eq!(segment_tree.query(0, 3)?, 64);

    Ok(())
}

#[test]
fn test_query_single_element() -> Result<(), &'static str> {
    let input: Vec<isize> = vec![1, 2, 3, 4, 5, 6, 7, 8];
    let segment_tree = SegmentTree::new(&input)?;

    let mut i: usize = 0;
    while i < input.len() {
        assert_eq!(segment_tree.query(i, i)?, input[i]);
        i += 1;
    }

    Ok(())
}

#[test]
fn test_update_and_query_boundaries() -> Result<(), &'static str> {
    let input: Vec<isize> = vec![1, 2, 3, 4, 5, 6, 7, 8];
    let mut segment_tree = SegmentTree::new(&input)?;

    // Update boundaries
    segment_tree.update(0, 100)?;
    segment_tree.update(7, 200)?;

    // Query boundaries
    assert_eq!(segment_tree.query(0, 0)?, 100);
    assert_eq!(segment_tree.query(7, 7)?, 200);
    assert_eq!(segment_tree.query(0, 7)?, 327);

    Ok(())
}
