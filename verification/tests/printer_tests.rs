use tcops::printer::format_path;

#[test]
fn test_format_path_short() {
    let path = vec![0, 1, 2, 0];
    assert_eq!(format_path(&path), "[0, 1, 2, 0]");

    let path7 = vec![0, 1, 2, 3, 4, 5, 6];
    assert_eq!(format_path(&path7), "[0, 1, 2, 3, 4, 5, 6]");
}

#[test]
fn test_format_path_long() {
    let path8 = vec![0, 1, 2, 3, 4, 5, 6, 7];
    assert_eq!(format_path(&path8), "[0, 1, 2, ..., 5, 6, 7]");

    let path10 = vec![0, 10, 20, 30, 40, 50, 60, 70, 80, 90];
    assert_eq!(format_path(&path10), "[0, 10, 20, ..., 70, 80, 90]");
}

#[test]
fn format_path_empty_and_single() {
    let empty: Vec<usize> = vec![];
    assert_eq!(format_path(&empty), "[]");
    assert_eq!(format_path(&[42]), "[42]");
}

#[test]
fn format_path_large_numbers() {
    let path = vec![1234567, 10, 0, 9, 8, 7, 6, 5, 4, 3, 2, 1, 100];
    assert_eq!(format_path(&path), "[1234567, 10, 0, ..., 2, 1, 100]");
}
