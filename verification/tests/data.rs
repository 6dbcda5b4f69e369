use sequoia_boost::arith::{Calc, Op};
use sequoia_boost::data::dmatrix::{DMatrix, Entry};
use sequoia_boost::data::ghist::{Bins, GHistIndex};
use sequoia_boost::data::loaders::{read_csv, read_libsvm, CsvOptions};
use sequoia_boost::data::meta::{FeatureType, GroupInfo};
use sequoia_boost::data::quantile::HistCuts;
use sequoia_boost::error::SequoiaError;
use sequoia_boost::number::{Single, Wide};
use sequoia_boost::text::{Precision, Reader};

fn s(x: f32) -> Single {
    Single { bits: x.to_bits() }
}

fn f(v: Single) -> f32 {
    f32::from_bits(v.bits)
}

#[allow(dead_code)]
fn w(x: f64) -> Wide {
    Wide { bits: x.to_bits() }
}

#[allow(dead_code)]
fn g(v: Wide) -> f64 {
    f64::from_bits(v.bits)
}

#[allow(dead_code)]
fn many(x: &[f32]) -> Vec<Single> {
    x.iter().map(|v| s(*v)).collect()
}

#[allow(dead_code)]
fn floats(x: &[Single]) -> Vec<f32> {
    x.iter().map(|v| f(*v)).collect()
}

fn compute(op: Op, a: u64, b: u64) -> u64 {
    let (x, y) = (f64::from_bits(a), f64::from_bits(b));
    let (p, q) = (f32::from_bits(a as u32), f32::from_bits(b as u32));
    match op {
        Op::Add => (x + y).to_bits(),
        Op::Sub => (x - y).to_bits(),
        Op::Mul => (x * y).to_bits(),
        Op::Div => (x / y).to_bits(),
        Op::Pow => x.powf(y).to_bits(),
        Op::Exp => x.exp().to_bits(),
        Op::Ln => x.ln().to_bits(),
        Op::Log2 => x.log2().to_bits(),
        Op::Sqrt => x.sqrt().to_bits(),
        Op::Round => x.round().to_bits(),
        Op::Ceil => x.ceil().to_bits(),
        Op::AddSingle => (p + q).to_bits() as u64,
        Op::SubSingle => (p - q).to_bits() as u64,
        Op::MulSingle => (p * q).to_bits() as u64,
        Op::DivSingle => (p / q).to_bits() as u64,
        Op::ExpSingle => p.exp().to_bits() as u64,
        Op::LnSingle => p.ln().to_bits() as u64,
        Op::SqrtSingle => p.sqrt().to_bits() as u64,
        Op::Widen => (p as f64).to_bits(),
        Op::Narrow => (x as f32).to_bits() as u64,
        Op::OfInteger => (a as f64).to_bits(),
        Op::OfIntegerSingle => (a as f32).to_bits() as u64,
    }
}

fn calc() -> Calc<fn(Op, u64, u64) -> u64> {
    Calc::new(compute)
}

fn read(k: Precision, text: &str) -> Option<u64> {
    match k {
        Precision::Single => text.parse::<f32>().ok().map(|x| x.to_bits() as u64),
        Precision::Double => text.parse::<f64>().ok().map(|x| x.to_bits()),
    }
}

fn reader() -> Reader<fn(Precision, &str) -> Option<u64>> {
    Reader::new(read)
}

fn dense(x: &[f32], n_rows: usize, n_cols: usize) -> DMatrix {
    DMatrix::from_dense(&many(x), n_rows, n_cols).unwrap()
}

fn sample_dense() -> DMatrix {
    // 3 rows x 2 cols, with a NaN missing in row 1 col 0.
    dense(&[1.0, 2.0, f32::NAN, 5.0, 3.0, 6.0], 3, 2)
}

#[test]
fn dense_get_and_missing() {
    let d = sample_dense();
    assert_eq!(d.get(0, 0), Some(s(1.0)));
    assert_eq!(d.get(1, 0), None); // missing
    assert_eq!(d.get(1, 1), Some(s(5.0)));
}

#[test]
fn row_into_skips_missing() {
    let d = sample_dense();
    let mut buf = Vec::new();
    d.row_into(1, &mut buf);
    assert_eq!(buf, vec![Entry { index: 1, value: s(5.0) }]);
}

#[test]
fn csc_matches_dense() {
    let d = sample_dense();
    let csc = d.to_csc();
    // Column 0 has rows {0, 2} (row 1 is missing).
    let (rows, vals) = csc.column(0);
    assert_eq!(rows, &[0, 2]);
    assert_eq!(vals, &[s(1.0), s(3.0)]);
    // Column 1 has all three rows.
    assert_eq!(csc.col_len(1), 3);
    assert_eq!(csc.n_rows(), 3);
    assert_eq!(csc.n_cols(), 2);
}

#[test]
fn csr_roundtrip() {
    // Same logical matrix as sample_dense but sparse (row 1 col 0 absent).
    let indptr = vec![0, 2, 3, 5];
    let indices = vec![0, 1, 1, 0, 1];
    let values = many(&[1.0, 2.0, 5.0, 3.0, 6.0]);
    let d = DMatrix::from_csr(indptr, indices, values, 2).unwrap();
    assert_eq!(d.get(0, 0), Some(s(1.0)));
    assert_eq!(d.get(1, 0), None);
    assert_eq!(d.get(2, 1), Some(s(6.0)));
    let csc = d.to_csc();
    let (rows, vals) = csc.column(0);
    assert_eq!(rows, &[0, 2]);
    assert_eq!(vals, &[s(1.0), s(3.0)]);
}

#[test]
fn label_length_checked() {
    let d = sample_dense();
    assert!(d.clone().with_labels(&many(&[1.0, 2.0])).is_err());
    assert!(d.with_labels(&many(&[1.0, 2.0, 3.0])).is_ok());
}

#[test]
fn group_prefix_sum() {
    let g = GroupInfo::from_sizes(&[3, 2, 4]);
    assert_eq!(g.group_ptr, vec![0, 3, 5, 9]);
    assert_eq!(g.num_groups(), 3);
    assert_eq!(g.num_rows(), 9);
    let ranges: Vec<_> = g.iter_ranges();
    assert_eq!(ranges, vec![(0, 3), (3, 5), (5, 9)]);
}

#[test]
fn bins_roundtrip_dense() {
    let data = dense(&[0.0, 10.0, 1.0, 20.0], 2, 2);
    let cuts = HistCuts::from_dmatrix(&data, 256, &calc());
    let ghist = GHistIndex::from_dmatrix(&data, cuts);
    // Two present features per row.
    assert_eq!(ghist.row_len(0), 2);
    assert_eq!(ghist.row_len(1), 2);
    // Row 1's feature-0 value (1.0) bins higher than row 0's (0.0).
    let b0 = ghist.cuts().bin_of(0, s(0.0));
    let b1 = ghist.cuts().bin_of(0, s(1.0));
    assert!(b1 > b0);
    // Small bin count -> u16 storage.
    assert!(matches!(ghist.bins(), Bins::U16(_)));
}

#[test]
fn missing_entries_absent() {
    let data = dense(&[0.0, f32::NAN, 1.0, 2.0], 2, 2);
    let cuts = HistCuts::from_dmatrix(&data, 256, &calc());
    let ghist = GHistIndex::from_dmatrix(&data, cuts);
    // Row 0 has a missing feature 1 -> only one present entry.
    assert_eq!(ghist.row_len(0), 1);
    assert_eq!(ghist.row_len(1), 2);
}

#[test]
fn feature_bin_lookup() {
    let data = dense(&[0.0, 10.0, 1.0, 20.0], 2, 2);
    let cuts = HistCuts::from_dmatrix(&data, 256, &calc());
    let (f0s, f0e) = cuts.feature_bins(0);
    let ghist = GHistIndex::from_dmatrix(&data, cuts);
    let b = ghist.feature_bin(0, f0s, f0e).unwrap();
    assert!((b as usize) >= f0s && (b as usize) < f0e);
    // A feature range with no entry for a fully-present row still resolves.
    assert!(ghist.feature_bin(1, f0s, f0e).is_some());
}

#[test]
fn bins_are_found_by_position_or_by_range() {
    let full = dense(&[0.0, 10.0, 1.0, 20.0], 2, 2);
    let holed = dense(&[0.0, f32::NAN, f32::NAN, 20.0], 2, 2);
    for (data, missing) in [(full, false), (holed, true)] {
        let cuts = HistCuts::from_dmatrix(&data, 256, &calc());
        let (fs, fe) = cuts.feature_bins(1);
        let ghist = GHistIndex::from_dmatrix(&data, cuts);
        for r in 0..2 {
            assert_eq!(ghist.feature_bin_at(r, 1, fs, fe), ghist.feature_bin(r, fs, fe));
        }
        assert_eq!(ghist.feature_bin_at(0, 1, fs, fe).is_none(), missing);
        assert!(ghist.feature_bin_at(1, 1, fs, fe).is_some());
    }
}

#[test]
fn few_distinct_values_one_bin_each() {
    // feature has 3 distinct values 0,1,2 -> cuts = [0,1,2, sentinel]
    let data = dense(&[0.0, 1.0, 2.0, 1.0], 4, 1);
    let cuts = HistCuts::from_dmatrix(&data, 256, &calc());
    assert_eq!(cuts.n_features(), 1);
    // Distinct-value binning: each value maps to a distinct, increasing bin.
    let b0 = cuts.bin_of(0, s(0.0));
    let b1 = cuts.bin_of(0, s(1.0));
    let b2 = cuts.bin_of(0, s(2.0));
    assert!(b0 < b1 && b1 < b2, "bins should be strictly increasing");
}

#[test]
fn monotone_binning() {
    // 1000 distinct-ish values, capped at 16 bins.
    let n = 1000;
    let x: Vec<f32> = (0..n).map(|i| i as f32).collect();
    let data = dense(&x, n, 1);
    let cuts = HistCuts::from_dmatrix(&data, 16, &calc());
    assert!(cuts.num_bins(0) <= 17, "at most max_bin + sentinel");
    // Binning is monotone non-decreasing in the value.
    let mut prev = 0u32;
    for i in 0..n {
        let b = cuts.bin_of(0, s(i as f32));
        assert!(b >= prev);
        prev = b;
    }
    // Distinct low and high values fall in different bins.
    assert!(cuts.bin_of(0, s(0.0)) < cuts.bin_of(0, s(999.0)));
}

#[test]
fn constant_feature_never_collides() {
    let data = dense(&[5.0, 5.0, 5.0], 3, 1);
    let cuts = HistCuts::from_dmatrix(&data, 256, &calc());
    // All identical values map to the same bin.
    assert_eq!(cuts.bin_of(0, s(5.0)), cuts.bin_of(0, s(5.0)));
}

#[test]
fn split_threshold_consistency() {
    // For values 0..10 with cuts, `value < cut_value(bin)` must agree with
    // `bin_of(value) <= target_bin`.
    let x: Vec<f32> = (0..10).map(|i| i as f32).collect();
    let data = dense(&x, 10, 1);
    let cuts = HistCuts::from_dmatrix(&data, 256, &calc());
    let (start, end) = cuts.feature_bins(0);
    for target in start..end - 1 {
        let thr = f(cuts.cut_value(target));
        for &v in &x {
            let goes_left_by_value = v < thr;
            let goes_left_by_bin = cuts.bin_of(0, s(v)) as usize <= target;
            assert_eq!(
                goes_left_by_value, goes_left_by_bin,
                "value {v}, target bin {target}, thr {thr}"
            );
        }
    }
}

#[test]
fn parse_libsvm() {
    let text = "1 0:1.5 2:3.0\n0 1:2.0\n";
    let d = read_libsvm(text, &reader()).unwrap();
    assert_eq!(d.n_rows(), 2);
    assert_eq!(d.n_cols(), 3);
    assert_eq!(d.labels(), Some(&many(&[1.0f32, 0.0])[..]));
    assert_eq!(d.get(0, 0), Some(s(1.5)));
    assert_eq!(d.get(0, 1), None);
    assert_eq!(d.get(0, 2), Some(s(3.0)));
    assert_eq!(d.get(1, 1), Some(s(2.0)));
}

#[test]
fn parse_csv_with_header_and_label() {
    let text = "y,f0,f1\n1.0,0.5,0.25\n0.0,,0.75\n";
    let d = read_csv(text, &CsvOptions::default(), &reader()).unwrap();
    assert_eq!(d.n_rows(), 2);
    assert_eq!(d.n_cols(), 2);
    assert_eq!(d.labels(), Some(&many(&[1.0f32, 0.0])[..]));
    assert_eq!(d.get(0, 0), Some(s(0.5)));
    assert_eq!(d.get(1, 0), None); // empty field -> missing
    assert_eq!(d.get(1, 1), Some(s(0.75)));
}

#[test]
fn csv_column_mismatch_errors() {
    let text = "y,f0,f1\n1.0,0.5,0.25\n0.0,0.75\n";
    assert!(read_csv(text, &CsvOptions::default(), &reader()).is_err());
}

fn parse_failure(r: Result<DMatrix, SequoiaError>) -> (usize, String) {
    match r {
        Err(SequoiaError::Parse { line, reason }) => (line, reason),
        _ => panic!("expected a parse error"),
    }
}

#[test]
fn libsvm_lines_that_are_not_understood() {
    let at = |text: &str| parse_failure(read_libsvm(text, &reader()));
    assert_eq!(at("1 0:1\nx 0:1\n"), (2, "invalid label `x`".to_string()));
    assert_eq!(at("# note\n\n1 01\n"), (3, "expected idx:value, got `01`".to_string()));
    assert_eq!(at("1 a:1\n"), (1, "invalid index `a`".to_string()));
    assert_eq!(at("1 -1:1\n"), (1, "invalid index `-1`".to_string()));
    assert_eq!(at("1 4294967296:1\n"), (1, "invalid index `4294967296`".to_string()));
    assert_eq!(at("1 0:b\n"), (1, "invalid value `b`".to_string()));
    assert_eq!(at("1 0:1:2\n"), (1, "invalid value `1:2`".to_string()));
}

#[test]
fn libsvm_skips_comments_and_blank_lines() {
    let text = "# a comment\r\n  \r\n  2 +1:4 \t 0:3\r\n#1 0:1\n3";
    let d = read_libsvm(text, &reader()).unwrap();
    assert_eq!((d.n_rows(), d.n_cols()), (2, 2));
    assert_eq!(d.labels(), Some(&many(&[2.0, 3.0])[..]));
    assert_eq!(d.get(0, 0), Some(s(3.0)));
    assert_eq!(d.get(0, 1), Some(s(4.0)));
    assert_eq!(d.get(1, 0), None);
    assert!(matches!(
        read_libsvm("# nothing\n", &reader()),
        Err(SequoiaError::EmptyDataset("libsvm: no rows parsed"))
    ));
}

#[test]
fn csv_options_are_followed() {
    let opts = CsvOptions {
        has_header: false,
        delimiter: ';',
        label_column: Some(1),
        na_value: Some("NA".to_string()),
    };
    let d = read_csv("1; 5 ;NA\n\n2;6; 3 \n", &opts, &reader()).unwrap();
    assert_eq!((d.n_rows(), d.n_cols()), (2, 2));
    assert_eq!(d.labels(), Some(&many(&[5.0, 6.0])[..]));
    assert_eq!(d.get(0, 0), Some(s(1.0)));
    assert_eq!(d.get(0, 1), None);
    assert_eq!(d.get(1, 1), Some(s(3.0)));
    let none = CsvOptions { label_column: None, ..opts.clone() };
    let d = read_csv("1;5\n2;6\n", &none, &reader()).unwrap();
    assert_eq!(d.labels(), None);
    assert_eq!(d.n_cols(), 2);
    // A label column beyond the fields leaves the dataset without labels.
    let far = CsvOptions { label_column: Some(9), ..opts };
    assert_eq!(read_csv("1;5\n", &far, &reader()).unwrap().labels(), None);
}

#[test]
fn csv_lines_that_are_not_understood() {
    let opts = CsvOptions::default();
    let at = |text: &str| parse_failure(read_csv(text, &opts, &reader()));
    assert_eq!(at("y,a\nq,1\n"), (2, "invalid label `q`".to_string()));
    assert_eq!(at("y,a\n1, z\n"), (2, "invalid value `z`".to_string()));
    assert_eq!(
        at("y,a,b\n1,2,3\n4,5\n"),
        (3, "expected 2 columns, got 1".to_string())
    );
    assert!(matches!(
        read_csv("y,a\n", &opts, &reader()),
        Err(SequoiaError::EmptyDataset("csv: no data rows"))
    ));
    assert!(matches!(
        read_csv("y\n1\n", &opts, &reader()),
        Err(SequoiaError::EmptyDataset("from_dense: zero rows or columns"))
    ));
}

#[test]
fn shapes_are_checked() {
    assert!(matches!(
        DMatrix::from_dense(&[], 0, 2),
        Err(SequoiaError::EmptyDataset("from_dense: zero rows or columns"))
    ));
    assert!(matches!(
        DMatrix::from_dense(&many(&[1.0]), 1, 2),
        Err(SequoiaError::DimensionMismatch { what: "dense data length", expected: 2, got: 1 })
    ));
    assert!(matches!(
        DMatrix::from_csr(vec![], vec![], vec![], 1),
        Err(SequoiaError::EmptyDataset("from_csr: empty indptr"))
    ));
    assert!(matches!(
        DMatrix::from_csr(vec![0, 1], vec![0, 1], many(&[1.0]), 1),
        Err(SequoiaError::DimensionMismatch { what: "csr indices/values length", .. })
    ));
    assert!(matches!(
        DMatrix::from_csr(vec![0, 2], vec![0], many(&[1.0]), 1),
        Err(SequoiaError::DimensionMismatch { what: "csr indptr terminal", expected: 1, got: 2 })
    ));
    assert!(matches!(
        DMatrix::from_csr(vec![0, 1], vec![3], many(&[1.0]), 2),
        Err(SequoiaError::FeatureOutOfBounds { index: 3, num_features: 2 })
    ));
    let d = dense(&[1.0, 2.0], 2, 1);
    assert!(matches!(
        d.clone().with_weights(&many(&[1.0])),
        Err(SequoiaError::DimensionMismatch { expected: 2, got: 1, .. })
    ));
    assert!(d.clone().with_group_sizes(&[1]).is_err());
    assert!(d.clone().with_group_sizes(&[1, 1]).is_ok());
    assert!(d.clone().with_feature_names(&["a".to_string(), "b".to_string()]).is_err());
    assert!(d.with_feature_types(&[FeatureType::Categorical]).is_ok());
}

#[test]
fn selected_rows_hold_the_same_cells() {
    let d = sample_dense().with_labels(&many(&[7.0, 8.0, 9.0])).unwrap();
    let part = d.select_rows(&[2, 1]).unwrap();
    assert_eq!(part.n_rows(), 2);
    assert_eq!(part.get(0, 0), Some(s(3.0)));
    assert_eq!(part.get(1, 0), None);
    assert_eq!(part.get(1, 1), Some(s(5.0)));
    assert_eq!(part.labels(), Some(&many(&[9.0, 8.0])[..]));
}

#[test]
fn columns_and_cells_agree() {
    let d = sample_dense();
    let csc = d.to_csc();
    for c in 0..2 {
        let (rows, vals) = csc.column(c);
        for r in 0..3usize {
            let at = rows.iter().position(|x| *x as usize == r);
            assert_eq!(d.get(r, c), at.map(|k| vals[k]));
        }
    }
}

#[test]
fn an_explicit_sentinel_is_missing() {
    let d = DMatrix::from_dense_with_missing(&many(&[-1.0, 2.0, f32::NAN]), 3, 1, s(-1.0)).unwrap();
    assert_eq!(d.get(0, 0), None);
    assert_eq!(d.get(1, 0), Some(s(2.0)));
    assert!(d.get(2, 0).is_some());
}

#[test]
fn weighted_cuts_follow_the_weight() {
    // Nearly all weight lies on the upper half, so most cuts fall there.
    let x: Vec<f32> = (0..100).map(|i| i as f32).collect();
    let weights: Vec<f32> = (0..100).map(|i| if i < 50 { 0.001 } else { 1.0 }).collect();
    let data = dense(&x, 100, 1);
    let cuts = HistCuts::from_dmatrix_weighted(&data, 8, &many(&weights), &calc());
    let (start, end) = cuts.feature_bins(0);
    let above = (start..end).filter(|b| f(cuts.cut_value(*b)) >= 50.0).count();
    assert!(above * 2 > end - start, "{above} of {}", end - start);
    let even = HistCuts::from_dmatrix(&data, 8, &calc());
    assert!(cuts.cut_value(start) != even.cut_value(start) || end - start != even.num_bins(0));
}
