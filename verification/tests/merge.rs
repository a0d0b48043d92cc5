use widemerge::column::{is_zero_value, LongData};
use widemerge::matrix::WideData;

fn bits(v: f32) -> u32 {
    v.to_bits()
}

fn sample(colid: &str, rows: &[(&str, &[&str], f32)]) -> LongData {
    let mut d = LongData::new(colid.to_string());
    for (key, meta, value) in rows {
        let meta: Vec<String> = meta.iter().map(|m| m.to_string()).collect();
        d.add_row(key.to_string(), meta, bits(*value));
    }
    d.sort();
    assert!(d.is_strictly_sorted());
    d
}

fn row_keys(m: &WideData) -> Vec<String> {
    m.rowids.clone()
}

fn column_as_f32(m: &WideData, c: usize) -> Vec<f32> {
    m.values[c].iter().map(|b| f32::from_bits(*b)).collect()
}

#[test]
fn zero_value_test() {
    assert!(is_zero_value(bits(0.0)));
    assert!(is_zero_value(bits(-0.0)));
    assert!(!is_zero_value(bits(1.0)));
    assert!(!is_zero_value(bits(-3.5)));
}

#[test]
fn long_data_sort_orders_parallel_vectors() {
    let mut d = LongData::new("s1".to_string());
    d.add_row("geneC".to_string(), vec!["mc".to_string()], bits(3.0));
    d.add_row("geneA".to_string(), vec!["ma".to_string()], bits(1.0));
    d.add_row("geneB".to_string(), vec!["mb".to_string()], bits(2.0));
    assert!(!d.is_strictly_sorted());
    d.sort();
    assert!(d.is_strictly_sorted());
    assert_eq!(d.rowids, vec!["geneA", "geneB", "geneC"]);
    assert_eq!(d.metadata, vec![vec!["ma"], vec!["mb"], vec!["mc"]]);
    assert_eq!(d.values, vec![bits(1.0), bits(2.0), bits(3.0)]);
}

#[test]
fn two_samples_interleave() {
    // sample one: geneA = 10, geneC = 30; sample two: geneB = 20, geneA = 99
    let mut m = WideData::new();
    let a = sample("s1", &[("geneA", &[], 10.0), ("geneC", &[], 30.0)]);
    let b = sample("s2", &[("geneB", &[], 20.0), ("geneA", &[], 99.0)]);
    m.add_row_data(&a);
    m.add_row_data(&b);
    assert_eq!(row_keys(&m), vec!["geneA", "geneB", "geneC"]);
    assert_eq!(m.colids, vec!["s1", "s2"]);
    assert_eq!(column_as_f32(&m, 0), vec![10.0, 0.0, 30.0]);
    assert_eq!(column_as_f32(&m, 1), vec![99.0, 20.0, 0.0]);
}

#[test]
fn all_zero_sample_adds_only_a_zero_column() {
    let mut m = WideData::new();
    let a = sample("s1", &[("geneA", &[], 1.0), ("geneB", &[], 2.0)]);
    m.add_row_data(&a);
    let z = sample("s2", &[("geneA", &[], 0.0), ("geneX", &[], 0.0)]);
    m.add_row_data(&z);
    assert_eq!(row_keys(&m), vec!["geneA", "geneB"]);
    assert_eq!(m.len(), 2);
    assert_eq!(m.colids, vec!["s1", "s2"]);
    assert_eq!(column_as_f32(&m, 0), vec![1.0, 2.0]);
    assert_eq!(column_as_f32(&m, 1), vec![0.0, 0.0]);
}

#[test]
fn merge_order_keeps_row_set() {
    let seed = sample("s0", &[("geneM", &[], 7.0)]);
    let a = sample("a", &[("geneA", &[], 1.0), ("geneD", &[], 4.0)]);
    let b = sample("b", &[("geneB", &[], 2.0), ("geneD", &[], 5.0)]);
    let mut m1 = WideData::new();
    m1.add_row_data(&seed);
    m1.add_row_data(&a);
    m1.add_row_data(&b);
    let mut m2 = WideData::new();
    m2.add_row_data(&seed);
    m2.add_row_data(&b);
    m2.add_row_data(&a);
    assert_eq!(row_keys(&m1), row_keys(&m2));
    assert_eq!(row_keys(&m1), vec!["geneA", "geneB", "geneD", "geneM"]);
}

#[test]
fn sparse_key_reads_value_and_zero() {
    let mut m = WideData::new();
    let a = sample("sa", &[("geneK", &[], 5.0), ("geneZ", &[], 8.0)]);
    let b = sample("sb", &[("geneZ", &[], 9.0)]);
    m.add_row_data(&a);
    m.add_row_data(&b);
    let row = m.rowids.iter().position(|k| k == "geneK").unwrap();
    assert_eq!(f32::from_bits(m.values[0][row]), 5.0);
    assert_eq!(f32::from_bits(m.values[1][row]), 0.0);
}

#[test]
fn zero_valued_novel_key_is_dropped() {
    let mut m = WideData::new();
    let a = sample("s1", &[("geneA", &[], 1.0)]);
    m.add_row_data(&a);
    let b = sample("s2", &[("geneB", &[], 0.0), ("geneC", &[], 3.0)]);
    m.add_row_data(&b);
    assert_eq!(row_keys(&m), vec!["geneA", "geneC"]);
}

#[test]
fn negative_zero_counts_as_zero_in_merge() {
    let mut m = WideData::new();
    let a = sample("s1", &[("geneA", &[], 1.0)]);
    m.add_row_data(&a);
    let b = sample("s2", &[("geneB", &[], -0.0)]);
    m.add_row_data(&b);
    assert_eq!(row_keys(&m), vec!["geneA"]);
}

#[test]
fn first_sample_seeds_table_as_is() {
    // the seed adopts even zero-valued rows, by design
    let mut m = WideData::new();
    let a = sample("s1", &[("geneA", &[], 0.0), ("geneB", &[], 2.0)]);
    m.add_row_data(&a);
    assert_eq!(row_keys(&m), vec!["geneA", "geneB"]);
    assert_eq!(column_as_f32(&m, 0), vec![0.0, 2.0]);
}

#[test]
fn empty_first_sample_gets_backfilled() {
    let mut m = WideData::new();
    let empty = sample("s1", &[]);
    m.add_row_data(&empty);
    assert_eq!(m.len(), 0);
    assert_eq!(m.colids, vec!["s1"]);
    let b = sample("s2", &[("geneA", &[], 4.0)]);
    m.add_row_data(&b);
    assert_eq!(row_keys(&m), vec!["geneA"]);
    // every column covers every row after the merge
    assert_eq!(m.values[0], vec![0u32]);
    assert_eq!(column_as_f32(&m, 1), vec![4.0]);
}

#[test]
fn metadata_follows_its_key() {
    let mut m = WideData::new();
    let a = sample("s1", &[("geneB", &["left"], 1.0)]);
    let b = sample("s2", &[("geneA", &["novel"], 2.0)]);
    m.add_row_data(&a);
    m.add_row_data(&b);
    // geneA sorts before geneB, so the metadata moved with the keys
    assert_eq!(row_keys(&m), vec!["geneA", "geneB"]);
    assert_eq!(m.metadata, vec![vec!["novel"], vec!["left"]]);
    assert_eq!(column_as_f32(&m, 0), vec![0.0, 1.0]);
    assert_eq!(column_as_f32(&m, 1), vec![2.0, 0.0]);
}

#[test]
fn existing_key_zero_value_leaves_zero_slot() {
    // a zero entry for a key the table already holds stays a zero cell
    let mut m = WideData::new();
    let a = sample("s1", &[("geneA", &[], 3.0)]);
    let b = sample("s2", &[("geneA", &[], 0.0), ("geneB", &[], 1.0)]);
    m.add_row_data(&a);
    m.add_row_data(&b);
    assert_eq!(row_keys(&m), vec!["geneA", "geneB"]);
    assert_eq!(column_as_f32(&m, 1), vec![0.0, 1.0]);
}

#[test]
fn wide_sort_merges_two_runs() {
    // exercise the re-sort directly on a table whose tail holds novel rows
    let mut m = WideData::new();
    m.rowids = vec!["b".to_string(), "d".to_string(), "a".to_string(), "c".to_string()];
    m.metadata = vec![vec![], vec![], vec![], vec![]];
    m.colids = vec!["s1".to_string()];
    m.values = vec![vec![bits(2.0), bits(4.0), bits(1.0), bits(3.0)]];
    m.sort(2);
    assert_eq!(m.rowids, vec!["a", "b", "c", "d"]);
    assert_eq!(column_as_f32(&m, 0), vec![1.0, 2.0, 3.0, 4.0]);
}

#[test]
fn wide_sort_zero_extends_short_columns() {
    let mut m = WideData::new();
    m.rowids = vec!["b".to_string(), "a".to_string()];
    m.metadata = vec![vec![], vec![]];
    m.colids = vec!["s1".to_string(), "s2".to_string()];
    // the first column stops at the boundary; the second covers all rows
    m.values = vec![vec![bits(2.0)], vec![bits(5.0), bits(6.0)]];
    m.sort(1);
    assert_eq!(m.rowids, vec!["a", "b"]);
    assert_eq!(column_as_f32(&m, 0), vec![0.0, 2.0]);
    assert_eq!(column_as_f32(&m, 1), vec![6.0, 5.0]);
}

#[test]
fn duplicate_keys_are_detected() {
    let mut d = LongData::new("s1".to_string());
    d.add_row("geneA".to_string(), vec![], bits(1.0));
    d.add_row("geneA".to_string(), vec![], bits(2.0));
    d.sort();
    assert!(!d.is_strictly_sorted());
}

#[test]
fn novel_keys_merge_at_both_ends() {
    let mut m = WideData::new();
    let a = sample("s1", &[("geneM", &[], 5.0)]);
    let b = sample("s2", &[("geneA", &[], 1.0), ("geneM", &[], 6.0), ("geneZ", &[], 9.0)]);
    m.add_row_data(&a);
    m.add_row_data(&b);
    assert_eq!(row_keys(&m), vec!["geneA", "geneM", "geneZ"]);
    assert_eq!(column_as_f32(&m, 0), vec![0.0, 5.0, 0.0]);
    assert_eq!(column_as_f32(&m, 1), vec![1.0, 6.0, 9.0]);
}

#[test]
fn sort_is_stable_on_equal_keys() {
    let mut d = LongData::new("s1".to_string());
    d.add_row("geneA".to_string(), vec!["first".to_string()], bits(1.0));
    d.add_row("geneB".to_string(), vec!["mid".to_string()], bits(9.0));
    d.add_row("geneA".to_string(), vec!["second".to_string()], bits(2.0));
    d.sort();
    assert_eq!(d.rowids, vec!["geneA", "geneA", "geneB"]);
    assert_eq!(d.metadata, vec![vec!["first"], vec!["second"], vec!["mid"]]);
    assert_eq!(d.values, vec![bits(1.0), bits(2.0), bits(9.0)]);
}

#[test]
fn sort_of_sorted_data_is_identity() {
    let mut d = LongData::new("s1".to_string());
    d.add_row("geneA".to_string(), vec!["a1".to_string()], bits(1.0));
    d.add_row("geneA".to_string(), vec!["a2".to_string()], bits(2.0));
    d.add_row("geneB".to_string(), vec!["b".to_string()], bits(3.0));
    d.sort();
    let ids = d.rowids.clone();
    let meta = d.metadata.clone();
    let vals = d.values.clone();
    d.sort();
    assert_eq!(d.rowids, ids);
    assert_eq!(d.metadata, meta);
    assert_eq!(d.values, vals);
}
