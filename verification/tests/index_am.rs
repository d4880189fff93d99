use std::cell::RefCell;
use std::rc::Rc;

use brindle::distance::Kernel;
use brindle::filter::{Atom, AttrValue, Bound, Predicate};
use brindle::guc;
use brindle::hnsw::{Hnsw, HnswError, HnswParams};
use brindle::index_am::attrs::{
    atom_from_key, count, predicate_from_keys, row_from_datums, same_family, value_from_datum,
    ScanKey, UnfilterableColumn, Word, BOOLOID, FLOAT4OID, FLOAT8OID, INT2OID, INT4OID, INT8OID,
    INVALID_OID, SK_ISNULL, SK_ROW_HEADER, SK_SEARCHARRAY, STRATEGY_EQ, STRATEGY_GE, STRATEGY_GT,
    STRATEGY_LE, STRATEGY_LT,
};
use brindle::index_am::cache::{cached_index, ceiling_of, Cache, CachedIndex, IndexHandle};
use brindle::index_am::maintenance::{
    bulk_delete, cleanup_report, empty_index, insert_row, vacuum_pass, BuildState, CleanupReport,
};
use brindle::index_am::opclass::{index_kind, index_metric, OpclassError, Support, VectorKind};
use brindle::index_am::options::{
    build_params, reject_excessive_degree, BrindleOptions, ExcessiveDegree,
};
use brindle::index_am::pending::{
    apply_one, on_xact, ApplyError, Pending, PendingAction, StageError, StagedRow, SubXactEvent,
    XactEvent,
};
use brindle::index_am::scan::{rescan, Rescan, ScanError, ScanSearch};
use brindle::index_am::storage::{
    encode_index, load_index, write_target, Fork as Shape, Image, LoadError, MetaError, TidPair,
};
use brindle::index_am::stored::{Index, Unranked};
use brindle::vector::Metric;

fn kernel(which: Kernel, a: &[u32], b: &[u32]) -> u32 {
    let pairs = || {
        a.iter()
            .zip(b)
            .map(|(x, y)| (f32::from_bits(*x), f32::from_bits(*y)))
    };
    let r: f32 = match which {
        Kernel::L2Squared => pairs().map(|(x, y)| (x - y) * (x - y)).sum(),
        Kernel::Dot => pairs().map(|(x, y)| x * y).sum(),
        Kernel::Norms | Kernel::Cosine => {
            let dot: f32 = pairs().map(|(x, y)| x * y).sum();
            let norms = pairs().map(|(x, _)| x * x).sum::<f32>().sqrt()
                * pairs().map(|(_, y)| y * y).sum::<f32>().sqrt();
            if which == Kernel::Norms {
                norms
            } else {
                1.0 - dot / norms
            }
        }
    };
    r.to_bits()
}

fn level(draw: u64, m: usize) -> usize {
    let mut r = draw as f64 / (1u64 << 53) as f64;
    if r <= 0.0 {
        r = f64::MIN_POSITIVE;
    }
    (-r.ln() * (1.0 / (m as f64).ln())).floor() as usize
}

fn bits(v: &[f32]) -> Vec<u32> {
    v.iter().map(|x| x.to_bits()).collect()
}

/// The vector of row `i`.
fn fixture(i: usize) -> Vec<u32> {
    bits(&[
        (i % 17) as f32,
        ((i * 7) % 13) as f32,
        ((i * 3) % 11) as f32,
        (i % 5) as f32,
    ])
}

fn tid(i: usize) -> TidPair {
    (i as u32 / 100, (i % 100) as u16 + 1)
}

fn build(rows: usize) -> (Hnsw, Vec<TidPair>) {
    let mut index = Index::empty(HnswParams::default());
    for i in 0..rows {
        let row = vec![AttrValue::Int((i % 10) as i64)];
        apply_one(&kernel, &level, &mut index, Some(&fixture(i)), &row, tid(i)).unwrap();
    }
    (index.hnsw, index.tids)
}

/// The image of an index in which every row has a vector.
fn image(hnsw: &Hnsw, tids: &[TidPair]) -> Vec<u8> {
    let mut blob = vec![0; 8];
    blob.extend(encode_index(hnsw, tids));
    blob
}

const PAGE_SIZE: u16 = 8192;

const NO_PAGES: Shape = Shape {
    nblocks: 0,
    page_size: PAGE_SIZE,
};

/// Pages in memory.
struct Fork(RefCell<Vec<Vec<u8>>>);

impl Fork {
    fn of(blob: &[u8]) -> Fork {
        let fork = Fork(RefCell::new(Vec::new()));
        fork.write(&Image::first(blob, PAGE_SIZE));
        fork
    }

    fn write(&self, image: &Image) {
        let mut pages = self.0.borrow_mut();
        let existing = pages.len() as u32;
        for blkno in 0..image.blocks(existing) as u32 {
            let contents = image.page(blkno).to_vec();
            match write_target(blkno, existing) {
                Some(at) => pages[at as usize] = contents,
                None => pages.push(contents),
            }
        }
    }

    fn shape(&self) -> Shape {
        Shape {
            nblocks: self.0.borrow().len() as u32,
            page_size: PAGE_SIZE,
        }
    }

    fn fetch(&self) -> impl Fn(u32) -> Vec<u8> + '_ {
        |blkno| self.0.borrow()[blkno as usize].clone()
    }

    fn load_all(&self) -> Index {
        load_index(self.shape(), &self.fetch()).ok().unwrap()
    }

    fn load(&self) -> (Hnsw, Vec<TidPair>) {
        let index = self.load_all();
        (index.hnsw, index.tids)
    }
}

fn same(a: &Hnsw, b: &Hnsw) -> bool {
    a.to_bytes() == b.to_bytes()
}

// Operator classes

#[test]
fn kinds_round_trip_through_their_codes() {
    for kind in [VectorKind::RealArray, VectorKind::Vector] {
        assert_eq!(VectorKind::from_code(kind.code()), Some(kind));
    }
    assert_eq!(VectorKind::RealArray.code(), 0);
    assert_eq!(VectorKind::Vector.code(), 1);
    assert_eq!(VectorKind::from_code(2), None);
    assert_eq!(VectorKind::from_code(-1), None);
}

#[test]
fn an_operator_class_names_its_metric() {
    assert_eq!(index_metric(Support::Code(0)), Ok(Metric::L2));
    assert_eq!(index_metric(Support::Code(1)), Ok(Metric::Cosine));
    assert_eq!(index_metric(Support::Code(2)), Ok(Metric::InnerProduct));
    for bad in [3, 256, -1, i32::MIN] {
        let err = index_metric(Support::Code(bad)).unwrap_err();
        assert_eq!(err, OpclassError::UnknownMetric);
        assert_eq!(err.message(), "operator class reports an unknown metric");
    }
    assert_eq!(
        index_metric(Support::Undeclared).unwrap_err().message(),
        "operator class declares no metric (support function 2)"
    );
    assert_eq!(
        index_metric(Support::NoValue).unwrap_err().message(),
        "operator class reports no metric"
    );
}

#[test]
fn an_operator_class_must_match_its_column() {
    assert_eq!(
        index_kind(Support::Code(0), true),
        Ok(VectorKind::RealArray)
    );
    assert_eq!(index_kind(Support::Code(1), false), Ok(VectorKind::Vector));
    for (code, array) in [(0, false), (1, true)] {
        let err = index_kind(Support::Code(code), array).unwrap_err();
        assert_eq!(err, OpclassError::KindMismatch);
        assert_eq!(
            err.message(),
            "operator class does not match the type of the indexed column"
        );
    }
    assert_eq!(
        index_kind(Support::Code(7), true).unwrap_err().message(),
        "operator class reports an unknown indexed type"
    );
    assert_eq!(
        index_kind(Support::Undeclared, true).unwrap_err().message(),
        "operator class declares no indexed type (support function 3)"
    );
    assert_eq!(
        index_kind(Support::NoValue, true).unwrap_err().message(),
        "operator class reports no indexed type"
    );
}

// Build options

fn options(m: i32, gamma: f64) -> BrindleOptions {
    BrindleOptions {
        m,
        ef_construction: 64,
        gamma: gamma.to_bits(),
    }
}

#[test]
fn degrees_are_checked_as_the_product_rounds() {
    let gammas = [
        1.0, 1.1, 1.5, 2.0, 3.3, 7.999, 8.0, 8.000000000000002, 13.7, 64.0, 100.1, 341.3, 511.99,
        512.0, 512.0000000000001, 1023.5, 1024.0,
    ];
    for m in 2..=128 {
        for gamma in gammas {
            let o = options(m, gamma);
            assert!(o.check_ranges());
            let degree = 2.0 * f64::from(m) * gamma;
            let want = if degree > 2048.0 {
                Err(ExcessiveDegree {
                    m,
                    degree: degree as u64,
                })
            } else {
                Ok(())
            };
            assert_eq!(reject_excessive_degree(&o), want, "m = {m}, gamma = {gamma}");
        }
    }
}

#[test]
fn an_excessive_degree_names_both_options() {
    let err = reject_excessive_degree(&options(128, 1024.0)).unwrap_err();
    assert_eq!(
        err.message("1024"),
        "m = 128 with gamma = 1024 would give each node up to 262144 neighbors"
    );
    assert_eq!(
        err.detail(),
        "The layer-0 degree cap 2 * m * gamma must not exceed 2048."
    );
}

#[test]
fn options_have_ranges() {
    assert!(!options(1, 1.0).check_ranges());
    assert!(!options(129, 1.0).check_ranges());
    assert!(!options(16, 0.999).check_ranges());
    assert!(!options(16, 1024.5).check_ranges());
    assert!(!options(16, f64::NAN).check_ranges());
    assert!(!options(16, -2.0).check_ranges());
    let mut o = options(16, 1.0);
    o.ef_construction = 3;
    assert!(!o.check_ranges());
    o.ef_construction = 1001;
    assert!(!o.check_ranges());
}

#[test]
fn build_parameters_follow_the_options() {
    let p = build_params(None, Metric::Cosine);
    assert_eq!((p.m, p.ef_construction), (16, 64));
    assert_eq!(f32::from_bits(p.gamma), 1.0);
    assert_eq!(p.metric, Metric::Cosine);
    assert_eq!(p.seed, HnswParams::default().seed);

    let mut state = 0x51ED_u64;
    for _ in 0..2000 {
        state = state.wrapping_mul(6364136223846793005).wrapping_add(1);
        let gamma = 1.0 + (state >> 11) as f64 / (1u64 << 53) as f64 * 1023.0;
        let p = build_params(Some(&options(24, gamma)), Metric::L2);
        assert_eq!((p.m, p.ef_construction, p.metric), (24, 64, Metric::L2));
        assert_eq!(p.gamma, (gamma as f32).to_bits(), "gamma = {gamma}");
    }
    for gamma in [1.0, 1.0 + f64::EPSILON, 1.5, 1023.9999999999, 1024.0] {
        let p = build_params(Some(&options(2, gamma)), Metric::L2);
        assert_eq!(p.gamma, (gamma as f32).to_bits(), "gamma = {gamma}");
    }
}

// Attributes

#[test]
fn words_are_read_by_their_type() {
    assert_eq!(value_from_datum(BOOLOID, 0, false), Some(AttrValue::Int(0)));
    assert_eq!(value_from_datum(BOOLOID, 1, false), Some(AttrValue::Int(1)));
    for v in [0i64, 1, -1, 32767, -32768] {
        assert_eq!(
            value_from_datum(INT2OID, v as u64, false),
            Some(AttrValue::Int(v))
        );
    }
    assert_eq!(
        value_from_datum(INT4OID, 0xdead_beef_8000_0000, false),
        Some(AttrValue::Int(i32::MIN as i64))
    );
    assert_eq!(
        value_from_datum(INT8OID, i64::MIN as u64, false),
        Some(AttrValue::Int(i64::MIN))
    );
    assert_eq!(
        value_from_datum(FLOAT8OID, 2.5f64.to_bits(), false),
        Some(AttrValue::Float(2.5f64.to_bits()))
    );
    assert_eq!(value_from_datum(25, 7, false), None);
    assert_eq!(value_from_datum(25, 7, true), Some(AttrValue::Null));
}

#[test]
fn single_floats_widen_exactly() {
    let samples = [
        0.0f32,
        -0.0,
        1.0,
        -2.5,
        0.1,
        f32::MAX,
        f32::MIN_POSITIVE,
        f32::MIN_POSITIVE / 4.0,
        f32::from_bits(1),
        f32::INFINITY,
        f32::NEG_INFINITY,
    ];
    for x in samples {
        assert!(matches!(
            value_from_datum(FLOAT4OID, x.to_bits() as u64, false),
            Some(AttrValue::Float(b)) if b == (x as f64).to_bits()
        ));
    }
    assert!(matches!(
        value_from_datum(FLOAT4OID, f32::NAN.to_bits() as u64, false),
        Some(AttrValue::Float(b)) if f64::from_bits(b).is_nan()
    ));
}

#[test]
fn families_keep_integers_and_floats_apart() {
    assert!(same_family(BOOLOID, INT8OID));
    assert!(same_family(FLOAT4OID, FLOAT8OID));
    assert!(!same_family(INT4OID, FLOAT8OID));
    assert!(!same_family(25, 25));
    assert_eq!(count(3), 2);
    assert_eq!(count(0), 0);
}

#[test]
fn rows_follow_the_key_columns() {
    let word = |word: u64, is_null: bool| Word { word, is_null };
    let row = row_from_datums(
        &[INT4OID, BOOLOID, FLOAT8OID],
        &[
            word((-7i64) as u64, false),
            word(0, true),
            word(0.5f64.to_bits(), false),
        ],
    )
    .unwrap();
    assert_eq!(
        row,
        vec![
            AttrValue::Int(-7),
            AttrValue::Null,
            AttrValue::Float(0.5f64.to_bits())
        ]
    );
    let err = row_from_datums(&[INT4OID, 25], &[word(1, false), word(2, false)]).unwrap_err();
    assert_eq!(err, UnfilterableColumn { column: 3, oid: 25 });
    assert_eq!(
        err.message(),
        "column 3 of the index has type 25, which cannot be filtered on"
    );
    assert!(row_from_datums(&[25], &[word(0, true)]).is_ok());
}

fn key(attno: u16, strategy: u16, subtype: u32, argument: i64) -> ScanKey {
    ScanKey {
        flags: 0,
        attno,
        strategy,
        subtype,
        argument: argument as u64,
    }
}

#[test]
fn comparisons_become_terms() {
    let types = [INT8OID, FLOAT8OID];
    let seven = AttrValue::Int(7);
    let range = |lo, hi| Some(Atom::Range { col: 0, lo, hi });
    let of = |strategy| atom_from_key(&types, &key(2, strategy, INVALID_OID, 7));
    assert_eq!(
        of(STRATEGY_EQ),
        Some(Atom::Eq {
            col: 0,
            value: seven
        })
    );
    assert_eq!(
        of(STRATEGY_LT),
        range(Bound::Unbounded, Bound::Excluded(seven))
    );
    assert_eq!(
        of(STRATEGY_LE),
        range(Bound::Unbounded, Bound::Included(seven))
    );
    assert_eq!(
        of(STRATEGY_GT),
        range(Bound::Excluded(seven), Bound::Unbounded)
    );
    assert_eq!(
        of(STRATEGY_GE),
        range(Bound::Included(seven), Bound::Unbounded)
    );
    assert_eq!(of(0), None);
    assert_eq!(of(6), None);
}

#[test]
fn arguments_are_read_as_their_own_type() {
    let k = key(2, STRATEGY_EQ, INT4OID, 0xffff_ffff);
    assert_eq!(
        atom_from_key(&[INT8OID], &k),
        Some(Atom::Eq {
            col: 0,
            value: AttrValue::Int(-1)
        })
    );
}

#[test]
fn keys_that_are_no_plain_comparison_are_not_pushed() {
    let types = [INT8OID];
    for flag in [SK_ISNULL, SK_ROW_HEADER, SK_SEARCHARRAY, 0x3f] {
        let mut k = key(2, STRATEGY_EQ, INVALID_OID, 7);
        k.flags = flag;
        assert_eq!(atom_from_key(&types, &k), None);
    }
    let mut k = key(2, STRATEGY_EQ, INVALID_OID, 7);
    k.flags = 0x10;
    assert!(atom_from_key(&types, &k).is_some());
    assert_eq!(atom_from_key(&types, &key(1, STRATEGY_EQ, 0, 7)), None);
    assert_eq!(atom_from_key(&types, &key(0, STRATEGY_EQ, 0, 7)), None);
    assert_eq!(atom_from_key(&types, &key(3, STRATEGY_EQ, 0, 7)), None);
    assert_eq!(
        atom_from_key(&types, &key(2, STRATEGY_EQ, FLOAT8OID, 7)),
        None
    );
    assert_eq!(atom_from_key(&types, &key(2, STRATEGY_EQ, 25, 7)), None);
}

#[test]
fn a_dropped_key_asks_for_a_recheck() {
    let types = [INT8OID, INT8OID];
    let all = predicate_from_keys(&types, &[]);
    assert_eq!(all.predicate, Predicate::All);
    assert!(!all.recheck);

    let pushed = predicate_from_keys(
        &types,
        &[
            key(2, STRATEGY_EQ, 0, 42),
            key(3, 99, 0, 1),
            key(3, STRATEGY_LT, 0, 50),
        ],
    );
    assert!(pushed.recheck);
    let (int, row) = (AttrValue::Int, |a, b| [AttrValue::Int(a), AttrValue::Int(b)]);
    assert_eq!(
        pushed.predicate,
        Predicate::And(vec![
            Atom::Eq {
                col: 0,
                value: int(42)
            },
            Atom::Range {
                col: 1,
                lo: Bound::Unbounded,
                hi: Bound::Excluded(int(50))
            },
        ])
    );
    assert!(pushed.predicate.matches(&row(42, 30)));
    assert!(!pushed.predicate.matches(&row(42, 50)));

    let none = predicate_from_keys(&types, &[key(3, 99, 0, 1)]);
    assert_eq!(none.predicate, Predicate::All);
    assert!(none.recheck);
}

// Settings

#[test]
fn the_search_budget_has_a_floor() {
    assert_eq!(guc::ef_search(64), 64);
    assert_eq!(guc::ef_search(200), 200);
    assert_eq!(guc::ef_search(0), 1);
    assert_eq!(guc::ef_search(-5), 1);
    assert_eq!(guc::DEFAULT_EF_SEARCH, 64);
    assert!(guc::ef_search_in_range(1));
    assert!(guc::ef_search_in_range(10_000));
    assert!(!guc::ef_search_in_range(0));
    assert!(!guc::ef_search_in_range(200_000));
}

// Scans

#[test]
fn a_scan_yields_its_search_and_ends() {
    let (hnsw, tids) = build(300);
    let want: Vec<TidPair> = hnsw
        .search(&kernel, &fixture(5), 20, 20)
        .unwrap()
        .into_iter()
        .map(|(_, id)| tids[id])
        .collect();
    let mut scan = ScanSearch::new(hnsw, tids);
    assert_eq!(scan.next(), Ok(None));
    for _ in 0..2 {
        scan.start(&kernel, fixture(5), 20).unwrap();
        let mut got = Vec::new();
        while let Ok(Some(t)) = scan.next() {
            got.push(t);
        }
        assert_eq!(got, want);
        assert!(got.len() <= 20);
        assert_eq!(scan.next(), Ok(None));
    }
    scan.start(&kernel, fixture(5), 20).unwrap();
    scan.stop();
    assert_eq!(scan.next(), Ok(None));
    scan.start(&kernel, fixture(5), 0).unwrap();
    assert_eq!(scan.next(), Ok(Some(want[0])));
    assert_eq!(scan.next(), Ok(None));
}

#[test]
fn a_filtered_scan_yields_only_matching_rows() {
    let (hnsw, tids) = build(300);
    let pred = Predicate::And(vec![Atom::Eq {
        col: 0,
        value: AttrValue::Int(3),
    }]);
    let mut scan = ScanSearch::new(hnsw, tids);
    scan.start_filtered(&kernel, fixture(5), &pred, 40).unwrap();
    let mut seen = 0;
    while let Ok(Some((block, offset))) = scan.next() {
        assert_eq!((block as usize * 100 + offset as usize - 1) % 10, 3);
        seen += 1;
    }
    assert!(seen > 0 && seen <= 40);
}

#[test]
fn a_failed_search_leaves_no_old_results() {
    let (hnsw, tids) = build(50);
    let mut scan = ScanSearch::new(hnsw, tids);
    scan.start(&kernel, fixture(1), 10).unwrap();
    let err = scan.start(&kernel, bits(&[1.0]), 10).unwrap_err();
    assert_eq!(
        err,
        ScanError::from(HnswError::DimensionMismatch {
            expected: 4,
            got: 1
        })
    );
    assert_eq!(
        err.message(),
        "vector dimension mismatch: expected 4, got 1"
    );
    assert_eq!(scan.next(), Ok(None));
}

#[test]
fn a_node_without_an_address_is_a_corruption() {
    let (hnsw, mut tids) = build(50);
    tids.truncate(30);
    let found = hnsw.search(&kernel, &fixture(3), 50, 50).unwrap();
    let first = found.iter().position(|&(_, id)| id >= 30).unwrap();
    let mut scan = ScanSearch::new(hnsw, tids);
    let err = scan.start(&kernel, fixture(3), 50).unwrap_err();
    let id = found[first].1;
    assert_eq!(err, ScanError::UnmappedNode(id));
    assert_eq!(
        err.message(),
        format!("corrupted index: node {id} has no heap pointer")
    );
    let mut kept = 0;
    while let Ok(Some(_)) = scan.next() {
        kept += 1;
    }
    assert_eq!(kept, first);
}

#[test]
fn a_rescan_orders_by_what_it_is_given() {
    assert_eq!(rescan(0, 0), Rescan::Unordered);
    assert_eq!(rescan(1, SK_ISNULL), Rescan::Stop);
    assert_eq!(rescan(1, 4), Rescan::Start);
}

/// An index of `rows` rows, every fifth of them without a vector.
fn patchy(rows: usize) -> Index {
    let mut index = Index::empty(HnswParams::default());
    for i in 0..rows {
        let vector = fixture(i);
        let vector = if i % 5 == 4 { None } else { Some(&vector[..]) };
        let row = [AttrValue::Int((i % 3) as i64)];
        apply_one(&kernel, &level, &mut index, vector, &row, tid(i)).unwrap();
    }
    index
}

fn third(i: i64) -> Predicate {
    Predicate::And(vec![Atom::Eq {
        col: 0,
        value: AttrValue::Int(i),
    }])
}

fn drained(scan: &mut ScanSearch) -> Vec<TidPair> {
    let mut out = Vec::new();
    while let Ok(Some(t)) = scan.next() {
        out.push(t);
    }
    out
}

#[test]
fn an_unordered_scan_returns_every_matching_row() {
    let mut index = patchy(50);
    assert_eq!((index.hnsw.len(), index.unranked.len()), (40, 10));
    index.hnsw.delete(0);
    let mut scan = ScanSearch::over(index);
    scan.start_unordered(&third(0)).unwrap();
    let got = drained(&mut scan);
    let with: Vec<TidPair> = (1..50).filter(|i| i % 3 == 0 && i % 5 != 4).map(tid).collect();
    let without: Vec<TidPair> = (1..50).filter(|i| i % 3 == 0 && i % 5 == 4).map(tid).collect();
    assert!(!without.is_empty());
    assert_eq!(got, [with, without].concat());

    scan.start_unordered(&Predicate::All).unwrap();
    assert_eq!(drained(&mut scan).len(), 49);
    scan.start_unordered(&third(7)).unwrap();
    assert!(drained(&mut scan).is_empty());
}

#[test]
fn an_ordered_scan_leaves_out_rows_without_a_vector() {
    let mut scan = ScanSearch::over(patchy(50));
    scan.start(&kernel, fixture(3), 50).unwrap();
    let got = drained(&mut scan);
    assert_eq!(got.len(), 40);
    assert!((0..50).filter(|i| i % 5 == 4).all(|i| !got.contains(&tid(i))));
}

#[test]
fn an_unordered_scan_reports_a_node_without_an_address() {
    let (hnsw, mut tids) = build(50);
    tids.truncate(30);
    let mut scan = ScanSearch::new(hnsw, tids);
    scan.start(&kernel, fixture(3), 1).unwrap();
    assert_eq!(
        scan.start_unordered(&Predicate::All),
        Err(ScanError::UnmappedNode(30))
    );
    assert_eq!(scan.next(), Ok(None));
}

// Cache

const KEY: (u32, u32, u32) = (1663, 5, 16400);
const OTHER: (u32, u32, u32) = (1663, 5, 16401);

fn copy(rows: usize, generation: u64, bytes: usize) -> Rc<CachedIndex> {
    let (hnsw, tids) = build(rows);
    Rc::new(CachedIndex {
        generation,
        bytes,
        decoded: Index {
            hnsw,
            tids,
            unranked: Vec::new(),
        },
    })
}

#[test]
fn a_copy_is_good_for_its_generation_only() {
    let mut cache = Cache::new();
    cache.fill(KEY, copy(3, 7, 100), 1000);
    assert!(cache.lookup(KEY, 7, 1000).is_some());
    assert!(cache.lookup(OTHER, 7, 1000).is_none());
    assert!(cache.lookup(KEY, 8, 1000).is_none());
    assert!(cache.lookup(KEY, 7, 1000).is_none());
}

#[test]
fn a_lowered_ceiling_binds_at_once() {
    let mut cache = Cache::new();
    cache.fill(KEY, copy(3, 1, 600), 1500);
    cache.fill(OTHER, copy(3, 1, 600), 1500);
    assert!(cache.lookup(KEY, 1, 1000).is_some());
    assert!(cache.lookup(OTHER, 1, 1000).is_none());
    assert!(cache.lookup(KEY, 1, 500).is_none());
    assert!(cache.lookup(KEY, 1, 1500).is_none());

    cache.fill(KEY, copy(3, 1, 600), 1500);
    assert!(cache.lookup(OTHER, 1, 0).is_none());
    assert!(cache.lookup(KEY, 1, 1500).is_none());
}

#[test]
fn a_new_copy_pushes_out_the_oldest() {
    let mut cache = Cache::new();
    let third = (1663, 5, 16402);
    cache.fill(KEY, copy(3, 1, 400), 1000);
    cache.fill(OTHER, copy(3, 1, 400), 1000);
    cache.fill(third, copy(3, 1, 400), 1000);
    assert!(cache.lookup(KEY, 1, 1000).is_none());
    assert!(cache.lookup(OTHER, 1, 1000).is_some());
    assert!(cache.lookup(third, 1, 1000).is_some());
}

#[test]
fn readers_keep_what_the_cache_drops() {
    let mut cache = Cache::new();
    cache.fill(KEY, copy(3, 1, 400), 1000);
    let held = cache.lookup(KEY, 1, 1000).unwrap();
    assert!(cache.lookup(KEY, 2, 1000).is_none());
    assert_eq!(held.decoded.hnsw.len(), 3);
}

#[test]
fn a_cached_index_follows_the_stored_one() {
    let (hnsw, tids) = build(40);
    let fork = Fork::of(&image(&hnsw, &tids));
    let mut cache = Cache::new();
    let measure = |index: &Index| index.hnsw.len() * 1000;
    for _ in 0..2 {
        let handle =
            cached_index(&mut cache, KEY, 1, fork.shape(), &fork.fetch(), &measure)
                .ok()
                .unwrap();
        assert!(matches!(handle, IndexHandle::Cached(_)));
        assert!(same(handle.graph(), &hnsw));
        assert_eq!(handle.tids(), &tids[..]);
    }
    let (more, more_tids) = build(41);
    let blob = image(&more, &more_tids);
    fork.write(&Image::next(&blob, 1, PAGE_SIZE));
    let handle = cached_index(&mut cache, KEY, 1, fork.shape(), &fork.fetch(), &measure)
        .ok()
        .unwrap();
    assert!(same(handle.graph(), &more));
    assert_eq!(handle.tids().len(), 41);

    let off = cached_index(&mut cache, KEY, 0, fork.shape(), &fork.fetch(), &measure)
        .ok()
        .unwrap();
    assert!(matches!(off, IndexHandle::Fresh(_)));
    assert!(same(off.graph(), &more));
    let huge = |_: &Index| 0x10_0001usize;
    let fresh = cached_index(&mut cache, KEY, 1, fork.shape(), &fork.fetch(), &huge)
        .ok()
        .unwrap();
    assert!(matches!(fresh, IndexHandle::Fresh(_)));
    assert_eq!(fresh.tids(), &more_tids[..]);
    assert_eq!(ceiling_of(3), 3 << 20);

    assert_eq!(
        cached_index(&mut cache, KEY, 1, NO_PAGES, &fork.fetch(), &measure).err(),
        Some(LoadError::Meta(MetaError::NoPages))
    );
}

// Building and inserting

#[test]
fn builds_keep_null_vectors_out_of_the_graph() {
    let mut state = BuildState::new(HnswParams::default(), VectorKind::Vector);
    assert_eq!(state.kind(), VectorKind::Vector);
    let add = |state: &mut BuildState, v: Option<Vec<u32>>, i: usize| {
        state.add_row(&kernel, &level, v, vec![AttrValue::Int(i as i64)], tid(i))
    };
    assert_eq!(add(&mut state, Some(fixture(0)), 0), Ok(()));
    assert_eq!(add(&mut state, None, 1), Ok(()));
    assert_eq!(add(&mut state, Some(fixture(2)), 2), Ok(()));
    assert_eq!(
        add(&mut state, Some(bits(&[1.0])), 3),
        Err(ApplyError::Insert(HnswError::DimensionMismatch {
            expected: 4,
            got: 1
        }))
    );
    assert_eq!(state.index_tuples(), 3);
    let index = Fork::of(&state.blob()).load_all();
    assert_eq!(index.hnsw.len(), 2);
    assert_eq!(index.tids, vec![tid(0), tid(2)]);
    assert_eq!(index.unranked.len(), 1);
    assert_eq!(index.unranked[0].tid, tid(1));
    assert_eq!(index.unranked[0].attrs, vec![AttrValue::Int(1)]);
}

#[test]
fn an_empty_index_loads_empty() {
    let (hnsw, tids) = Fork::of(&empty_index(HnswParams::default())).load();
    assert!(hnsw.is_empty());
    assert!(tids.is_empty());
}

#[test]
fn inserting_a_row_equals_building_with_it() {
    let (hnsw, tids) = build(60);
    let fork = Fork::of(&image(&hnsw, &tids));
    let (want, want_tids) = build(61);
    let row = vec![AttrValue::Int(0)];
    let flush = insert_row(
        fork.shape(),
        &fork.fetch(),
        &kernel,
        &level,
        Some(fixture(60)),
        row,
        tid(60),
    )
    .ok()
    .unwrap();
    assert_eq!(flush.generation, 1);
    fork.write(&Image::next(&flush.blob, flush.generation, PAGE_SIZE));
    let (got, got_tids) = fork.load();
    assert!(same(&got, &want));
    assert_eq!(got_tids, want_tids);

    let none = insert_row(
        fork.shape(),
        &fork.fetch(),
        &kernel,
        &level,
        None,
        vec![AttrValue::Null, AttrValue::Float(7)],
        tid(61),
    )
    .ok()
    .unwrap();
    assert_eq!(none.generation, 2);
    fork.write(&Image::next(&none.blob, none.generation, PAGE_SIZE));
    let index = fork.load_all();
    assert!(same(&index.hnsw, &want));
    assert_eq!(index.tids, want_tids);
    assert_eq!(index.unranked.len(), 1);
    assert_eq!(index.unranked[0].tid, tid(61));
    assert_eq!(
        index.unranked[0].attrs,
        vec![AttrValue::Null, AttrValue::Float(7)]
    );
    let bad = insert_row(
        fork.shape(),
        &fork.fetch(),
        &kernel,
        &level,
        Some(Vec::new()),
        Vec::new(),
        tid(61),
    );
    assert!(matches!(
        bad,
        Err(StageError::Apply(ApplyError::Insert(HnswError::EmptyVector)))
    ));
}

#[test]
fn an_index_out_of_step_takes_no_rows() {
    let (hnsw, mut tids) = build(3);
    tids.pop();
    let mut index = Index {
        hnsw,
        tids,
        unranked: Vec::new(),
    };
    let err =
        apply_one(&kernel, &level, &mut index, Some(&fixture(9)), &[], tid(9)).unwrap_err();
    assert_eq!(err, ApplyError::OutOfStep);
    assert_eq!(
        err.message(),
        "index graph and heap-pointer table are out of step"
    );
    assert_eq!(index.tids.len(), 2);
    assert_eq!(
        ApplyError::NoRoom.message(),
        "index graph cannot grow any further"
    );
}

// Vacuum

#[test]
fn vacuum_tombstones_dead_rows_once() {
    let (mut hnsw, _) = build(30);
    let dead: Vec<bool> = (0..30).map(|i| i % 3 == 0).collect();
    assert_eq!(bulk_delete(&mut hnsw, &dead), 10);
    assert_eq!(hnsw.live_len(), 20);
    for id in 0..30 {
        assert_eq!(hnsw.is_deleted(id), dead[id]);
    }
    assert_eq!(bulk_delete(&mut hnsw, &dead), 0);
}

#[test]
fn a_vacuum_pass_rewrites_only_what_changed() {
    let (hnsw, tids) = build(30);
    let fork = Fork::of(&image(&hnsw, &tids));
    let nothing = vacuum_pass(fork.shape(), &fork.fetch(), &|_: u32, _: u16| false)
        .ok()
        .unwrap();
    assert_eq!((nothing.removed, nothing.live), (0, 30));
    assert!(nothing.rewrite.is_none());

    let gone = |block: u32, offset: u16| block == 0 && offset <= 4;
    let pass = vacuum_pass(fork.shape(), &fork.fetch(), &gone).ok().unwrap();
    assert_eq!((pass.removed, pass.live), (4, 26));
    let flush = pass.rewrite.unwrap();
    fork.write(&Image::next(&flush.blob, flush.generation, PAGE_SIZE));
    let (after, addresses) = fork.load();
    assert_eq!(after.deleted_count(), 4);
    assert_eq!(addresses, tids);
    let again = vacuum_pass(fork.shape(), &fork.fetch(), &gone).ok().unwrap();
    assert_eq!((again.removed, again.live), (0, 26));
    assert_eq!(
        vacuum_pass(NO_PAGES, &fork.fetch(), &gone).err(),
        Some(LoadError::Meta(MetaError::NoPages))
    );
}

#[test]
fn vacuum_drops_dead_rows_without_a_vector() {
    let fork = Fork::of(&patchy(20).image());
    let gone = |block: u32, offset: u16| block == 0 && offset == 10;
    let pass = vacuum_pass(fork.shape(), &fork.fetch(), &gone).ok().unwrap();
    assert_eq!((pass.removed, pass.live), (1, 19));
    let flush = pass.rewrite.unwrap();
    fork.write(&Image::next(&flush.blob, flush.generation, PAGE_SIZE));
    let index = fork.load_all();
    assert_eq!(index.hnsw.deleted_count(), 0);
    let left: Vec<TidPair> = index.unranked.iter().map(|row: &Unranked| row.tid).collect();
    assert_eq!(left, vec![tid(4), tid(14), tid(19)]);
    let again = vacuum_pass(fork.shape(), &fork.fetch(), &gone).ok().unwrap();
    assert_eq!((again.removed, again.live), (0, 19));
    assert!(again.rewrite.is_none());
}

#[test]
fn cleanup_reports_once_counted() {
    assert_eq!(cleanup_report(true, false), CleanupReport::Unchanged);
    assert_eq!(cleanup_report(true, true), CleanupReport::Unchanged);
    assert_eq!(cleanup_report(false, true), CleanupReport::Pages);
    assert_eq!(cleanup_report(false, false), CleanupReport::PagesAndRows);
}

// Deferred writes

fn staged(i: usize) -> StagedRow {
    StagedRow {
        vector: Some(fixture(i)),
        attrs: vec![AttrValue::Int((i % 10) as i64)],
        tid: tid(i),
    }
}

fn stage(pending: &mut Pending, fork: &Fork, i: usize) -> Result<(), StageError> {
    pending.pending_insert(
        KEY,
        777,
        fork.shape(),
        &fork.fetch(),
        &kernel,
        &level,
        staged(i),
    )
}

#[test]
fn staged_rows_are_seen_by_their_transaction_only() {
    let (hnsw, tids) = build(10);
    let fork = Fork::of(&image(&hnsw, &tids));
    let mut pending = Pending::new();
    assert!(pending.pending_view(KEY).is_none());
    stage(&mut pending, &fork, 10).unwrap();
    stage(&mut pending, &fork, 11).unwrap();
    let own = pending.pending_view(KEY).unwrap();
    assert_eq!((own.hnsw.len(), own.tids.len()), (12, 12));
    assert!(pending.pending_view(OTHER).is_none());
    assert_eq!(fork.load().1.len(), 10);
    pending.discard();
    assert!(pending.pending_view(KEY).is_none());
}

#[test]
fn a_flush_writes_the_staged_graph() {
    let (hnsw, tids) = build(10);
    let fork = Fork::of(&image(&hnsw, &tids));
    let mut pending = Pending::new();
    stage(&mut pending, &fork, 10).unwrap();
    stage(&mut pending, &fork, 11).unwrap();
    assert!(pending.displaced(KEY).is_none());
    let write = pending.displaced(OTHER).unwrap();
    assert!(pending.take().is_none());
    assert_eq!(write.index_oid(), 777);
    let flush = write
        .flush(Some(KEY), fork.shape(), &fork.fetch(), &kernel, &level)
        .ok()
        .unwrap()
        .unwrap();
    fork.write(&Image::next(&flush.blob, flush.generation, PAGE_SIZE));
    let (want, want_tids) = build(12);
    let (got, got_tids) = fork.load();
    assert!(same(&got, &want));
    assert_eq!(got_tids, want_tids);
}

#[test]
fn a_flush_builds_on_another_writers_image() {
    let (hnsw, tids) = build(10);
    let fork = Fork::of(&image(&hnsw, &tids));
    let mut pending = Pending::new();
    stage(&mut pending, &fork, 11).unwrap();
    let theirs = insert_row(
        fork.shape(),
        &fork.fetch(),
        &kernel,
        &level,
        Some(fixture(10)),
        vec![AttrValue::Int(0)],
        tid(10),
    )
    .ok()
    .unwrap();
    fork.write(&Image::next(&theirs.blob, theirs.generation, PAGE_SIZE));
    let write = pending.take().unwrap();
    let flush = write
        .flush(Some(KEY), fork.shape(), &fork.fetch(), &kernel, &level)
        .ok()
        .unwrap()
        .unwrap();
    assert_eq!(flush.generation, 2);
    fork.write(&Image::next(&flush.blob, flush.generation, PAGE_SIZE));
    let (want, want_tids) = build(12);
    let (got, got_tids) = fork.load();
    assert!(same(&got, &want));
    assert_eq!(got_tids, want_tids);
}

#[test]
fn staged_rows_without_a_vector_reach_the_image() {
    let (hnsw, tids) = build(10);
    let fork = Fork::of(&image(&hnsw, &tids));
    let bare = |i: usize| StagedRow {
        vector: None,
        ..staged(i)
    };
    for replayed in [false, true] {
        let mut pending = Pending::new();
        pending
            .pending_insert(
                KEY,
                777,
                fork.shape(),
                &fork.fetch(),
                &kernel,
                &level,
                bare(11),
            )
            .unwrap();
        assert_eq!(pending.pending_view(KEY).unwrap().unranked.len(), 1);
        if replayed {
            fork.write(&Image::next(&image(&hnsw, &tids), 1, PAGE_SIZE));
        }
        let flush = pending
            .take()
            .unwrap()
            .flush(Some(KEY), fork.shape(), &fork.fetch(), &kernel, &level)
            .ok()
            .unwrap()
            .unwrap();
        let index = Fork::of(&flush.blob).load_all();
        assert!(same(&index.hnsw, &hnsw));
        assert_eq!(index.unranked.len(), 1);
        assert_eq!(index.unranked[0].tid, tid(11));
        assert_eq!(index.unranked[0].attrs, vec![AttrValue::Int(1)]);
    }
}

#[test]
fn rows_of_a_rebuilt_index_are_dropped() {
    let (hnsw, tids) = build(10);
    let fork = Fork::of(&image(&hnsw, &tids));
    let mut pending = Pending::new();
    stage(&mut pending, &fork, 10).unwrap();
    let write = pending.take().unwrap();
    for current in [None, Some(OTHER)] {
        let r = write.flush(current, fork.shape(), &fork.fetch(), &kernel, &level);
        assert!(matches!(r, Ok(None)));
    }
}

#[test]
fn staging_reports_what_is_wrong() {
    let fork = Fork(RefCell::new(Vec::new()));
    let mut pending = Pending::new();
    let err = stage(&mut pending, &fork, 0).unwrap_err();
    assert_eq!(err, StageError::Load(LoadError::Meta(MetaError::NoPages)));
    assert_eq!(err.message(), "index has no pages (never built?)");
    assert_eq!(
        StageError::Apply(ApplyError::Strays).message(),
        "corrupted index: a link leaves its layer"
    );

    let (hnsw, tids) = build(10);
    let fork = Fork::of(&image(&hnsw, &tids));
    let mut row = staged(10);
    row.vector.as_mut().unwrap().pop();
    let err = pending
        .pending_insert(
            KEY,
            777,
            fork.shape(),
            &fork.fetch(),
            &kernel,
            &level,
            row,
        )
        .unwrap_err();
    assert_eq!(
        err.message(),
        "vector dimension mismatch: expected 4, got 3"
    );
    assert_eq!(pending.pending_view(KEY).unwrap().tids.len(), 10);
}

#[test]
fn transaction_ends_flush_or_discard() {
    for event in [
        XactEvent::PreCommit,
        XactEvent::ParallelPreCommit,
        XactEvent::PrePrepare,
    ] {
        assert_eq!(on_xact(event), PendingAction::Flush);
    }
    for event in [XactEvent::Abort, XactEvent::ParallelAbort] {
        assert_eq!(on_xact(event), PendingAction::Discard);
    }
    for event in [
        XactEvent::Commit,
        XactEvent::ParallelCommit,
        XactEvent::Prepare,
    ] {
        assert_eq!(on_xact(event), PendingAction::Keep);
    }
}

/// What the pending rows come to when they are written back.
fn flushed(pending: &mut Pending, fork: &Fork) -> Option<Vec<TidPair>> {
    let flush = pending
        .take()?
        .flush(Some(KEY), fork.shape(), &fork.fetch(), &kernel, &level)
        .ok()
        .unwrap()
        .unwrap();
    let (hnsw, tids) = Fork::of(&flush.blob).load();
    assert!(same(&hnsw, &build(tids.len()).0));
    Some(tids)
}

#[test]
fn a_rollback_undoes_what_came_after_the_savepoint() {
    let (hnsw, tids) = build(10);
    let fork = Fork::of(&image(&hnsw, &tids));
    let mut pending = Pending::new();
    stage(&mut pending, &fork, 10).unwrap();
    pending.on_subxact(SubXactEvent::StartSub);
    stage(&mut pending, &fork, 11).unwrap();
    pending.on_subxact(SubXactEvent::StartSub);
    stage(&mut pending, &fork, 12).unwrap();
    pending.on_subxact(SubXactEvent::PreCommitSub);
    pending.on_subxact(SubXactEvent::CommitSub);
    assert_eq!(pending.pending_view(KEY).unwrap().tids.len(), 13);
    pending.on_subxact(SubXactEvent::AbortSub);
    assert!(pending.pending_view(KEY).is_none());
    stage(&mut pending, &fork, 11).unwrap();
    assert_eq!(pending.pending_view(KEY).unwrap().tids.len(), 12);
    assert_eq!(flushed(&mut pending, &fork), Some(build(12).1));

    stage(&mut pending, &fork, 10).unwrap();
    pending.on_subxact(SubXactEvent::StartSub);
    stage(&mut pending, &fork, 11).unwrap();
    pending.on_subxact(SubXactEvent::AbortSub);
    assert_eq!(flushed(&mut pending, &fork), Some(build(11).1));

    pending.on_subxact(SubXactEvent::StartSub);
    stage(&mut pending, &fork, 10).unwrap();
    pending.on_subxact(SubXactEvent::AbortSub);
    assert!(pending.take().is_none());
    stage(&mut pending, &fork, 10).unwrap();
    pending.on_subxact(SubXactEvent::AbortSub);
    assert!(pending.take().is_none());
}

#[test]
fn what_was_written_back_cannot_be_undone() {
    let (hnsw, tids) = build(10);
    let fork = Fork::of(&image(&hnsw, &tids));
    let mut pending = Pending::new();
    stage(&mut pending, &fork, 10).unwrap();
    pending.on_subxact(SubXactEvent::StartSub);
    let write = pending.take().unwrap();
    let flush = write
        .flush(Some(KEY), fork.shape(), &fork.fetch(), &kernel, &level)
        .ok()
        .unwrap()
        .unwrap();
    fork.write(&Image::next(&flush.blob, flush.generation, PAGE_SIZE));
    stage(&mut pending, &fork, 11).unwrap();
    pending.on_subxact(SubXactEvent::AbortSub);
    assert!(pending.take().is_none());
    assert_eq!(fork.load().1, build(11).1);
}

#[test]
fn a_rebuild_that_is_undone_gives_the_rows_back() {
    let (hnsw, tids) = build(10);
    let fork = Fork::of(&image(&hnsw, &tids));
    let mut pending = Pending::new();
    stage(&mut pending, &fork, 10).unwrap();
    pending.on_subxact(SubXactEvent::StartSub);
    stage(&mut pending, &fork, 11).unwrap();
    pending.set_aside(778);
    assert!(pending.pending_view(KEY).is_some());
    pending.set_aside(777);
    assert!(pending.pending_view(KEY).is_none());
    pending.on_subxact(SubXactEvent::AbortSub);
    assert_eq!(flushed(&mut pending, &fork), Some(build(11).1));

    stage(&mut pending, &fork, 10).unwrap();
    pending.on_subxact(SubXactEvent::StartSub);
    pending.on_subxact(SubXactEvent::StartSub);
    pending.set_aside(777);
    pending.on_subxact(SubXactEvent::CommitSub);
    pending.on_subxact(SubXactEvent::AbortSub);
    assert_eq!(flushed(&mut pending, &fork), Some(build(11).1));

    stage(&mut pending, &fork, 10).unwrap();
    pending.on_subxact(SubXactEvent::StartSub);
    pending.set_aside(777);
    pending.on_subxact(SubXactEvent::CommitSub);
    assert!(pending.take().is_none());
    stage(&mut pending, &fork, 10).unwrap();
    pending.set_aside(777);
    assert!(pending.take().is_none());
}

/// The image of an index with one link that leaves its layer.
fn stray_payload(rows: usize) -> Vec<u8> {
    let (h, tids) = build(rows);
    let id = (0..rows)
        .find(|&id| h.levels(id) > 1 && !h.neighbors(id, 1).is_empty())
        .unwrap();
    let flat = (0..rows as u64).find(|&k| h.levels(k as usize) == 1).unwrap();
    let mut blob = image(&h, &tids);
    let mut at = 8 + 8 + 76;
    for k in 0..=id {
        at += 1 + 8 + 16;
        if k == id {
            break;
        }
        let links: usize = (0..h.levels(k)).map(|l| 8 + 8 * h.neighbors(k, l).len()).sum();
        let row: usize = h
            .attrs(k)
            .iter()
            .map(|v| if matches!(v, AttrValue::Null) { 1 } else { 9 })
            .sum();
        at += links + 8 + row;
    }
    at += 8 + 8 * h.neighbors(id, 0).len() + 8;
    assert_eq!(blob[at..at + 8], (h.neighbors(id, 1)[0] as u64).to_le_bytes());
    blob[at..at + 8].copy_from_slice(&flat.to_le_bytes());
    blob
}

#[test]
fn stray_links_stop_only_the_rows_that_meet_them() {
    let fork = Fork::of(&stray_payload(200));
    assert!(!fork.load().0.is_layered());
    let mut pending = Pending::new();
    let mut staged_rows = 0;
    let mut fault = None;
    for i in 200..600 {
        match stage(&mut pending, &fork, i) {
            Ok(()) => staged_rows += 1,
            Err(e) => {
                fault = Some(e);
                break;
            }
        }
    }
    assert!(staged_rows > 0);
    assert_eq!(fault, Some(StageError::Apply(ApplyError::Strays)));
    assert!(pending.pending_view(KEY).is_none());
}
