use rsmt2d::Axis;
use rsmt2d::Codec;
use rsmt2d::DataSquare;
use rsmt2d::DefaultTree;
use rsmt2d::ExtendedDataSquare;
use rsmt2d::LeoRSCodec;
use rsmt2d::Tree;
use rsmt2d::extended_data_square::get_share_size;
use rsmt2d::extended_data_square::validate_eds_width;

#[test]
fn test_leors_codec_creation() {
    let codec = LeoRSCodec::new();
    assert_eq!(codec.name(), "LeoRS");
    assert_eq!(codec.max_chunks(), 65536);
}

#[test]
fn test_data_square_creation() {
    let data: Vec<Vec<u8>> = vec![vec![1, 2], vec![3, 4], vec![5, 6], vec![7, 8]];
    let ds = DataSquare::<DefaultTree>::new(data, 2);
    assert!(ds.is_ok());

    let ds = ds.unwrap();
    assert_eq!(ds.width(), 2);
}

#[test]
fn test_data_square_operations() {
    let data: Vec<Vec<u8>> = vec![vec![1, 2], vec![3, 4], vec![5, 6], vec![7, 8]];
    let mut ds = DataSquare::<DefaultTree>::new(data, 2).unwrap();

    // Test get_cell
    assert_eq!(ds.get_cell(0, 0).unwrap(), &vec![1, 2]);
    assert_eq!(ds.get_cell(1, 1).unwrap(), &vec![7, 8]);

    // Test set_cell
    assert!(ds.set_cell(0, 0, vec![9, 10]).is_ok());
    assert_eq!(ds.get_cell(0, 0).unwrap(), &vec![9, 10]);

    // Test invalid indices
    assert!(ds.get_cell(2, 0).is_err());
    assert!(ds.set_cell(0, 2, vec![1, 2]).is_err());
}

#[test]
fn test_get_share_size() {
    let data: Vec<Vec<u8>> = vec![vec![], vec![1, 2, 3], vec![4, 5, 6]];
    assert_eq!(get_share_size(&data), 3);

    let empty_data: Vec<Vec<u8>> = vec![vec![], vec![]];
    assert_eq!(get_share_size(&empty_data), 0);
}

#[test]
fn test_validate_eds_width() {
    assert!(validate_eds_width(0).is_err());
    assert!(validate_eds_width(1).is_err());
    assert!(validate_eds_width(3).is_err());
    assert!(validate_eds_width(2).is_ok());
    assert!(validate_eds_width(4).is_ok());
}

#[test]
fn test_extended_data_square_import() {
    let data: Vec<Vec<u8>> = vec![vec![1, 2], vec![3, 4], vec![5, 6], vec![7, 8]];
    let codec = LeoRSCodec::new();
    let eds = ExtendedDataSquare::<LeoRSCodec, DefaultTree>::import(data, codec);

    assert!(eds.is_ok());
    let eds = eds.unwrap();
    assert_eq!(eds.width(), 2);
    assert_eq!(eds.original_data_width(), 1);
}

#[test]
fn test_axis() {
    let row = Axis::Row;
    let col = Axis::Col;
    assert_ne!(row, col);
    assert_eq!(row, Axis::Row);
    assert_eq!(col, Axis::Col);
}

#[test]
fn test_default_tree_creation() {
    let tree = DefaultTree::new(Axis::Row, 0);
    assert_eq!(tree.axis, Axis::Row);
    assert_eq!(tree.index, 0);
    assert!(tree.leaves.is_empty());
}

#[test]
fn test_tree_operations() {
    let mut tree = DefaultTree::new(Axis::Col, 1);

    // Test push
    assert!(tree.push(&vec![1, 2, 3]).is_ok());
    assert!(tree.push(&vec![4, 5, 6]).is_ok());
    assert_eq!(tree.leaves.len(), 2);

    // Test root calculation
    let root = tree.root().unwrap();
    assert_eq!(root.len(), 32); // Placeholder hash length
}
