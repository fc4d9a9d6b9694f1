use linestats::bytes::read_line;
use linestats::partition::divide;
use linestats::record::Record;
use linestats::reduce::{aggregate, process_partition, read_values};
use linestats::table::SMap;

#[test]
fn test_read_line() {
    assert_eq!(read_line(b"a\nb\nc"), (b"a".as_slice(), b"b\nc".as_slice()));
    assert_eq!(read_line(b"a\nb"), (b"a".as_slice(), b"b".as_slice()));
    assert_eq!(read_line(b"\n"), (b"".as_slice(), b"".as_slice()));
    assert_eq!(read_line(b""), (b"".as_slice(), b"".as_slice()));
}

fn reassemble(region: &[u8], n: usize) -> Vec<u8> {
    let parts = divide(region, n);
    // contiguity: each partition begins where the previous one ended
    let mut expect_start = 0usize;
    for p in &parts {
        assert_eq!(p.start, expect_start);
        assert!(p.start < p.end);
        assert!(p.end <= region.len());
        if p.start > 0 {
            // line alignment: every cut lies right after a terminator
            assert_eq!(region[p.start - 1], b'\n');
        }
        expect_start = p.end;
    }
    if !region.is_empty() {
        assert_eq!(expect_start, region.len());
    } else {
        assert!(parts.is_empty());
    }
    let mut out = Vec::new();
    for p in &parts {
        out.extend_from_slice(&region[p.start..p.end]);
    }
    out
}

#[test]
fn partitions_reassemble_the_region() {
    let inputs: [&[u8]; 6] = [
        b"",
        b"A;1.0\nB;2.0\nA;3.0\n",
        b"A;1.0\nB;2.0\nA;3.0",
        b"\n\n\n",
        b"one very long line without terminator at all; 9.9",
        b"k;1\nkk;2\nkkk;3\nkkkk;4\nkkkkk;5\n",
    ];
    for region in inputs {
        for n in [0usize, 1, 2, 3, 4, 7, 100] {
            assert_eq!(reassemble(region, n), region.to_vec());
        }
    }
}

#[test]
fn partition_count_stays_within_one_of_requested() {
    let dense: &[u8] = b"\n\n\n\n\n";
    for n in [1usize, 2, 3, 4] {
        let parts = divide(dense, n);
        assert!(parts.len() <= n + 1);
        assert_eq!(reassemble(dense, n), dense.to_vec());
    }
    let region: &[u8] = b"k;1\nkk;2\nkkk;3\nkkkk;4\nkkkkk;5\n";
    for n in [1usize, 2, 3, 7, 50] {
        assert!(divide(region, n).len() <= n + 1);
    }
}

fn sorted_entries(m: &SMap) -> Vec<(Vec<u8>, Record)> {
    let mut v: Vec<(Vec<u8>, Record)> = m.entries.iter().map(|e| (e.key.clone(), e.rec)).collect();
    v.sort_by(|a, b| a.0.cmp(&b.0));
    v
}

#[test]
fn partition_count_does_not_change_the_result() {
    let region: &[u8] = b"A;1.0\nB;2.0\nA;3.0\n";
    let base = sorted_entries(&aggregate(region, 1));
    for n in [0usize, 2, 3, 4, 10] {
        let other = sorted_entries(&aggregate(region, n));
        assert_eq!(base, other);
        // the spec's tolerance check, on the means
        for (b, o) in base.iter().zip(other.iter()) {
            let mb = b.1.sum as f64 / b.1.count as f64;
            let mo = o.1.sum as f64 / o.1.count as f64;
            assert!((mb - mo).abs() <= 1e-4 * mb.abs().max(1.0));
        }
    }
}

fn rec_of(values: &[i64]) -> Record {
    let mut r = Record::default();
    for &v in values {
        r.recv(v);
    }
    r
}

fn merged(a: &Record, b: &Record) -> Record {
    let mut m = *a;
    m.merge(b);
    m
}

#[test]
fn merge_is_commutative_and_associative() {
    let a = rec_of(&[10000, -35000]);
    let b = rec_of(&[20000]);
    let c = rec_of(&[5000, 70000, 1]);
    let ab = merged(&a, &b);
    let ba = merged(&b, &a);
    assert_eq!(ab.min, ba.min);
    assert_eq!(ab.max, ba.max);
    assert_eq!(ab, ba);
    let ab_c = merged(&merged(&a, &b), &c);
    let a_bc = merged(&a, &merged(&b, &c));
    assert_eq!(ab_c.min, a_bc.min);
    assert_eq!(ab_c.max, a_bc.max);
    assert_eq!(ab_c, a_bc);
    let mean1 = ab_c.sum as f64 / ab_c.count as f64;
    let mean2 = a_bc.sum as f64 / a_bc.count as f64;
    assert!((mean1 - mean2).abs() <= 1e-4 * mean1.abs().max(1.0));
}

#[test]
fn single_key_round_trip() {
    let region: &[u8] = b"K;1.5\nK;2.5\nK;4.0\n";
    let m = aggregate(region, 2);
    assert_eq!(m.entries.len(), 1);
    let r = m.get(b"K").unwrap();
    assert_eq!(r.min, 15000);
    assert_eq!(r.max, 40000);
    assert_eq!(r.count, 3);
    assert_eq!(r.sum, 80000);
    let mean = r.sum as f64 / r.count as f64 / 10000.0;
    assert!((mean - 8.0 / 3.0).abs() <= 1e-4);
}

#[test]
fn malformed_lines_are_dropped_without_trace() {
    let dirty: &[u8] = b"A;1.0\nJUNK\nB;2.0\nC;zz\nA;3.0\n";
    let clean: &[u8] = b"A;1.0\nB;2.0\nA;3.0\n";
    for n in [1usize, 2, 4] {
        let md = sorted_entries(&aggregate(dirty, n));
        let mc = sorted_entries(&aggregate(clean, 1));
        assert_eq!(md, mc);
    }
}

#[test]
fn three_line_scenario_single_partition() {
    let m = aggregate(b"A;1.0\nB;2.0\nA;3.0\n", 1);
    assert_eq!(m.entries.len(), 2);
    let a = m.get(b"A").unwrap();
    assert_eq!(a.min, 10000);
    assert_eq!(a.max, 30000);
    assert_eq!(a.count, 2);
    assert_eq!(a.sum as f64 / a.count as f64 / 10000.0, 2.0);
    let b = m.get(b"B").unwrap();
    assert_eq!(b.min, 20000);
    assert_eq!(b.max, 20000);
    assert_eq!(b.count, 1);
    assert_eq!(b.sum as f64 / b.count as f64 / 10000.0, 2.0);
}

#[test]
fn three_line_scenario_four_partitions() {
    let one = sorted_entries(&aggregate(b"A;1.0\nB;2.0\nA;3.0\n", 1));
    let four = sorted_entries(&aggregate(b"A;1.0\nB;2.0\nA;3.0\n", 4));
    assert_eq!(one, four);
}

#[test]
fn empty_input_gives_empty_result() {
    let m = aggregate(b"", 1);
    assert_eq!(m.entries.len(), 0);
    let m2 = aggregate(b"", 8);
    assert_eq!(m2.entries.len(), 0);
}

#[test]
fn malformed_value_drops_only_its_line() {
    let m = aggregate(b"A;x\nB;2.0\n", 1);
    assert_eq!(m.entries.len(), 1);
    assert!(m.get(b"A").is_none());
    let b = m.get(b"B").unwrap();
    assert_eq!(b.min, 20000);
    assert_eq!(b.max, 20000);
    assert_eq!(b.count, 1);
}

#[test]
fn local_tables_merge_like_one_pass() {
    let region: &[u8] = b"A;1.0\nB;2.0\nA;3.0\nB;-4.5\n";
    let parts = divide(region, 2);
    assert!(parts.len() >= 2);
    let mut global = SMap::new();
    for p in &parts {
        let local = process_partition(region, *p);
        global.merge_from(&local);
    }
    let direct = sorted_entries(&aggregate(region, 1));
    assert_eq!(sorted_entries(&global), direct);
}
