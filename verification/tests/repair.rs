//! End-to-end scenarios: extension, round trip, crossword repair, repair
//! failure and byzantine detection, exercised with a pair-replication codec
//! and a byte-sum accumulator.

use rsmt2d::Axis;
use rsmt2d::Codec;
use rsmt2d::DataSquare;
use rsmt2d::Error;
use rsmt2d::ExtendedDataSquare;
use rsmt2d::Tree;

/// A minimal erasure engine: each of the k parity shares is a copy of the
/// data share at the same position. An axis slot i pairs with slot i + k, and
/// decode recovers a slot whenever its partner is populated.
struct PairCodec;

impl Codec for PairCodec {
    // The specification-level items of the trait are never called at run
    // time; they only exist for the verifier.
    fn max_chunks_spec(&self) -> usize {
        unreachable!()
    }

    fn chunk_size_ok(&self, _chunk_size: usize) -> bool {
        unreachable!()
    }

    fn encode_ok(&self, _data: vstd::seq::Seq<vstd::seq::Seq<u8>>) -> bool {
        unreachable!()
    }

    fn encoded(&self, _data: vstd::seq::Seq<vstd::seq::Seq<u8>>) -> vstd::seq::Seq<vstd::seq::Seq<u8>> {
        unreachable!()
    }

    fn decode_ok(&self, _data: vstd::seq::Seq<vstd::seq::Seq<u8>>) -> bool {
        unreachable!()
    }

    fn decoded(&self, _data: vstd::seq::Seq<vstd::seq::Seq<u8>>) -> vstd::seq::Seq<vstd::seq::Seq<u8>> {
        unreachable!()
    }

    fn name_spec(&self) -> vstd::seq::Seq<char> {
        unreachable!()
    }

    fn encode(&self, data: &Vec<Vec<u8>>) -> Result<Vec<Vec<u8>>, Error> {
        Ok(data.clone())
    }

    fn decode(&self, data: &mut Vec<Vec<u8>>) -> Result<(), Error> {
        let n = data.len();
        if n == 0 || n % 2 != 0 {
            return Err(Error::Codec("axis length must be even".to_string()));
        }
        let k = n / 2;
        for i in 0..k {
            let low = data[i].clone();
            let high = data[i + k].clone();
            if low.is_empty() && high.is_empty() {
                return Err(Error::Codec("both shares of a pair are missing".to_string()));
            }
            if low.is_empty() {
                data[i] = high;
            } else if high.is_empty() {
                data[i + k] = low;
            } else if low != high {
                return Err(Error::Codec("pair shares disagree".to_string()));
            }
        }
        Ok(())
    }

    fn max_chunks(&self) -> usize {
        64
    }

    fn name(&self) -> &str {
        "Pair"
    }

    fn validate_chunk_size(&self, _chunk_size: usize) -> Result<(), Error> {
        Ok(())
    }
}

/// A content-sensitive accumulator: the root is 32 copies of the byte sum of
/// all leaves, reduced modulo 256.
struct SumTree {
    total: u64,
}

impl Tree for SumTree {
    // Specification-level items, never called at run time.
    fn axis(&self) -> Axis {
        unreachable!()
    }

    fn index(&self) -> usize {
        unreachable!()
    }

    fn leaves(&self) -> vstd::seq::Seq<vstd::seq::Seq<u8>> {
        unreachable!()
    }

    fn root_model(_axis: Axis, _index: usize, _leaves: vstd::seq::Seq<vstd::seq::Seq<u8>>) -> vstd::seq::Seq<u8> {
        unreachable!()
    }

    fn new(_axis: Axis, _index: usize) -> Self {
        SumTree { total: 0 }
    }

    fn push(&mut self, data: &Vec<u8>) -> Result<(), Error> {
        for b in data {
            self.total = self.total.wrapping_add(*b as u64);
        }
        Ok(())
    }

    fn root(&self) -> Result<Vec<u8>, Error> {
        Ok(vec![(self.total % 256) as u8; 32])
    }
}

fn sample_ods() -> Vec<Vec<u8>> {
    vec![vec![1, 2], vec![3, 4], vec![5, 6], vec![7, 8]]
}

fn sample_eds() -> ExtendedDataSquare<PairCodec, SumTree> {
    ExtendedDataSquare::<PairCodec, SumTree>::compute(sample_ods(), PairCodec).unwrap()
}

#[test]
fn compute_extends_rows_then_columns() {
    let eds = sample_eds();
    assert_eq!(eds.width(), 4);
    assert_eq!(eds.original_data_width(), 2);
    // Top-left quadrant is the original data.
    assert_eq!(eds.get_cell(0, 0).unwrap(), &vec![1, 2]);
    assert_eq!(eds.get_cell(0, 1).unwrap(), &vec![3, 4]);
    assert_eq!(eds.get_cell(1, 0).unwrap(), &vec![5, 6]);
    assert_eq!(eds.get_cell(1, 1).unwrap(), &vec![7, 8]);
    // Row parity (pair codec copies the data half).
    assert_eq!(eds.get_cell(0, 2).unwrap(), &vec![1, 2]);
    assert_eq!(eds.get_cell(1, 3).unwrap(), &vec![7, 8]);
    // Column parity of the top half.
    assert_eq!(eds.get_cell(2, 0).unwrap(), &vec![1, 2]);
    assert_eq!(eds.get_cell(3, 3).unwrap(), &vec![7, 8]);
}

#[test]
fn compute_rejects_oversized_input() {
    let data: Vec<Vec<u8>> = (0..65).map(|_| vec![1]).collect();
    let r = ExtendedDataSquare::<PairCodec, SumTree>::compute(data, PairCodec);
    assert!(matches!(r, Err(Error::TooManyChunks)));
}

#[test]
fn import_rejects_oversized_input() {
    let data: Vec<Vec<u8>> = (0..257).map(|_| vec![1]).collect();
    let r = ExtendedDataSquare::<PairCodec, SumTree>::import(data, PairCodec);
    assert!(matches!(r, Err(Error::TooManyChunks)));
}

#[test]
fn import_rejects_non_square_and_odd_counts() {
    let three: Vec<Vec<u8>> = vec![vec![1, 2], vec![3, 4], vec![5, 6]];
    let r = ExtendedDataSquare::<PairCodec, SumTree>::import(three, PairCodec);
    assert!(matches!(r, Err(Error::InvalidChunkSize)));

    let nine: Vec<Vec<u8>> = (0..9).map(|i| vec![i as u8]).collect();
    let r = ExtendedDataSquare::<PairCodec, SumTree>::import(nine, PairCodec);
    assert!(matches!(r, Err(Error::InvalidChunkSize)));
}

#[test]
fn new_rejects_uneven_share_sizes() {
    let data: Vec<Vec<u8>> = vec![vec![1, 2], vec![3], vec![5, 6], vec![7, 8]];
    let r = DataSquare::<SumTree>::new(data, 2);
    assert!(matches!(r, Err(Error::UnevenChunks)));
}

#[test]
fn set_cell_rejects_wrong_share_size() {
    let data: Vec<Vec<u8>> = vec![vec![1, 2], vec![3, 4], vec![5, 6], vec![7, 8]];
    let mut ds = DataSquare::<SumTree>::new(data, 2).unwrap();
    let r = ds.set_cell(0, 0, vec![1, 2, 3]);
    assert!(matches!(r, Err(Error::UnevenChunks)));
    let r = ds.get_cell(5, 5);
    assert!(matches!(r, Err(Error::InvalidChunkSize)));
}

#[test]
fn roots_refuse_incomplete_axes() {
    let data: Vec<Vec<u8>> = vec![vec![1, 2], vec![], vec![5, 6], vec![7, 8]];
    let mut ds = DataSquare::<SumTree>::new(data, 2).unwrap();
    assert!(matches!(ds.row_roots(), Err(Error::IncompleteAxis { axis: Axis::Row })));
    assert!(matches!(ds.col_roots(), Err(Error::IncompleteAxis { axis: Axis::Col })));
}

#[test]
fn set_cell_refreshes_cached_roots() {
    let data: Vec<Vec<u8>> = vec![vec![1, 2], vec![3, 4], vec![5, 6], vec![7, 8]];
    let mut ds = DataSquare::<SumTree>::new(data, 2).unwrap();
    let before = ds.row_roots().unwrap();
    // Cached result is stable while nothing changes.
    assert_eq!(ds.row_roots().unwrap(), before);
    ds.set_cell(0, 0, vec![9, 10]).unwrap();
    let after = ds.row_roots().unwrap();
    assert_ne!(after[0], before[0]);
    assert_eq!(after[1], before[1]);
}

#[test]
fn compute_import_round_trip_preserves_roots_and_data() {
    let mut eds = sample_eds();
    let row_roots = eds.row_roots().unwrap();
    let col_roots = eds.col_roots().unwrap();
    let flat = eds.flattened();

    let mut again =
        ExtendedDataSquare::<PairCodec, SumTree>::import(flat.clone(), PairCodec).unwrap();
    assert_eq!(again.width(), eds.width());
    assert_eq!(again.original_data_width(), eds.original_data_width());
    assert_eq!(again.row_roots().unwrap(), row_roots);
    assert_eq!(again.col_roots().unwrap(), col_roots);
    assert_eq!(again.flattened(), flat);
}

#[test]
fn repair_reconstructs_crossword_erasures() {
    let mut eds = sample_eds();
    let row_roots = eds.row_roots().unwrap();
    let col_roots = eds.col_roots().unwrap();
    let flat = eds.flattened();

    let mut damaged = eds;
    // Erase both copies of the first share in row 0: the row alone cannot be
    // decoded until column repair brings one copy back.
    damaged.set_cell(0, 0, vec![]).unwrap();
    damaged.set_cell(0, 2, vec![]).unwrap();
    assert!(matches!(damaged.row_roots(), Err(Error::IncompleteAxis { axis: Axis::Row })));

    damaged.repair(&row_roots, &col_roots).unwrap();
    assert_eq!(damaged.flattened(), flat);
    assert_eq!(damaged.row_roots().unwrap(), row_roots);
    assert_eq!(damaged.col_roots().unwrap(), col_roots);
}

#[test]
fn repair_reports_unrepairable_squares() {
    let mut eds = sample_eds();
    let row_roots = eds.row_roots().unwrap();
    let col_roots = eds.col_roots().unwrap();

    let mut damaged = eds;
    // All four copies of one share are gone: no row or column pass can ever
    // recover it with the pair codec.
    damaged.set_cell(0, 0, vec![]).unwrap();
    damaged.set_cell(0, 2, vec![]).unwrap();
    damaged.set_cell(2, 0, vec![]).unwrap();
    damaged.set_cell(2, 2, vec![]).unwrap();

    let r = damaged.repair(&row_roots, &col_roots);
    assert!(matches!(r, Err(Error::UnrepairableDataSquare)));
}

#[test]
fn repair_rejects_wrong_root_list_lengths() {
    let mut eds = sample_eds();
    let row_roots = eds.row_roots().unwrap();
    let col_roots = eds.col_roots().unwrap();
    let short = row_roots[..3].to_vec();
    let r = eds.repair(&short, &col_roots);
    assert!(matches!(r, Err(Error::InvalidChunkSize)));
    let r = eds.repair(&row_roots, &short);
    assert!(matches!(r, Err(Error::InvalidChunkSize)));
}

#[test]
fn repair_detects_byzantine_decoded_row() {
    let mut eds = sample_eds();
    let row_roots = eds.row_roots().unwrap();
    let col_roots = eds.col_roots().unwrap();

    let mut tampered = eds;
    // Corrupt one data share in place and erase its pair copy, forcing the
    // row to be re-decoded from the corrupted share.
    tampered.set_cell(0, 0, vec![9, 9]).unwrap();
    tampered.set_cell(0, 2, vec![]).unwrap();

    let r = tampered.repair(&row_roots, &col_roots);
    match r {
        Err(Error::ByzantineData { axis, index, shares }) => {
            assert_eq!(axis, Axis::Row);
            assert_eq!(index, 0);
            let shares = shares.unwrap();
            assert_eq!(shares.len(), 4);
            assert!(shares.iter().all(|s| !s.is_empty()));
        },
        other => panic!("expected byzantine row evidence, got {:?}", other),
    }
}

#[test]
fn repair_detects_corrupted_complete_axis() {
    let mut eds = sample_eds();
    let row_roots = eds.row_roots().unwrap();
    let col_roots = eds.col_roots().unwrap();

    let mut tampered = eds;
    // Same slot occupancy, different bytes: the fully known row fails its
    // root check without any decoding.
    tampered.set_cell(0, 0, vec![9, 9]).unwrap();

    let r = tampered.repair(&row_roots, &col_roots);
    assert!(matches!(r, Err(Error::ByzantineData { axis: Axis::Row, index: 0, shares: Some(_) })));
}

#[test]
fn import_rejects_empty_share_list() {
    let r = ExtendedDataSquare::<PairCodec, SumTree>::import(Vec::new(), PairCodec);
    assert!(matches!(r, Err(Error::InvalidChunkSize)));
}

#[test]
fn repair_smallest_square() {
    let mut eds =
        ExtendedDataSquare::<PairCodec, SumTree>::compute(vec![vec![42, 7]], PairCodec).unwrap();
    assert_eq!(eds.width(), 2);
    assert_eq!(eds.original_data_width(), 1);
    let row_roots = eds.row_roots().unwrap();
    let col_roots = eds.col_roots().unwrap();
    let flat = eds.flattened();

    let mut damaged = eds;
    damaged.set_cell(0, 0, vec![]).unwrap();
    damaged.set_cell(1, 1, vec![]).unwrap();
    damaged.repair(&row_roots, &col_roots).unwrap();
    assert_eq!(damaged.flattened(), flat);
}

#[test]
fn compute_without_coding_backend_reports_codec_error() {
    let data: Vec<Vec<u8>> = vec![vec![1, 2], vec![3, 4], vec![5, 6], vec![7, 8]];
    let codec = rsmt2d::LeoRSCodec::new();
    let r = ExtendedDataSquare::<rsmt2d::LeoRSCodec, SumTree>::compute(data, codec);
    assert!(matches!(r, Err(Error::Codec(_))));
}
