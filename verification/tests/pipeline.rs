//! Segmenter and height-resolver behaviour on concrete sessions.

use gnssir::{find_arcs, remove_outliers_iqr, Arc, ArcDatabase, Band, Config, Network, Record,
    RecordDatabase};

fn obs(id: u32, elevation: u32, time: i64) -> Record {
    Record {
        id,
        satellite: id % 1000,
        network: Network::GPS,
        band: Band::L1,
        elevation,
        azimuth: 100,
        snr: 40,
        time,
    }
}

fn arc_indices(arc: &Arc) -> Vec<usize> {
    arc.record_indices.clone()
}

#[test]
fn segmenter_splits_on_gap_after_two_members() {
    // Five observations for one satellite at times [0, 30, 60, 200, 230]:
    // the 140 s gap after a pending arc of three members splits the pass
    // into exactly two arcs, {0, 30, 60} and {200, 230}.
    let times: [i64; 5] = [0, 30, 60, 200, 230];
    let elevs: [u32; 5] = [5, 6, 7, 5, 6];
    let records: Vec<Record> =
        (0..5).map(|i| obs(1001, elevs[i], times[i])).collect();
    let arcs = find_arcs(&records);
    assert_eq!(arcs.len(), 2);
    assert_eq!(arcs[0].sat_id, 1001);
    assert_eq!(arc_indices(&arcs[0]), vec![0, 1, 2]);
    assert_eq!(arcs[0].time_start, 0);
    assert_eq!(arcs[0].time_end, 60);
    assert_eq!(arcs[1].sat_id, 1001);
    assert_eq!(arc_indices(&arcs[1]), vec![3, 4]);
    assert_eq!(arcs[1].time_start, 200);
    assert_eq!(arcs[1].time_end, 230);
}

#[test]
fn segmenter_keeps_isolated_point_with_pending_singleton() {
    // A gap right after the first member does not split: a single point
    // never forces a split on its own.
    let records = vec![obs(7, 10, 0), obs(7, 11, 500), obs(7, 12, 530)];
    let arcs = find_arcs(&records);
    assert_eq!(arcs.len(), 1);
    assert_eq!(arc_indices(&arcs[0]), vec![0, 1, 2]);
}

#[test]
fn segmenter_sorts_by_time_before_walking() {
    // Observations arriving out of time order are consumed sorted.
    let records = vec![obs(9, 10, 60), obs(9, 11, 0), obs(9, 12, 30)];
    let arcs = find_arcs(&records);
    assert_eq!(arcs.len(), 1);
    assert_eq!(arc_indices(&arcs[0]), vec![1, 2, 0]);
    assert_eq!(arcs[0].time_start, 0);
    assert_eq!(arcs[0].time_end, 60);
}

#[test]
fn segmenter_groups_by_id_in_first_appearance_order() {
    let records = vec![obs(5, 10, 0), obs(6, 10, 10), obs(5, 11, 20), obs(6, 11, 30)];
    let arcs = find_arcs(&records);
    assert_eq!(arcs.len(), 2);
    assert_eq!(arcs[0].sat_id, 5);
    assert_eq!(arc_indices(&arcs[0]), vec![0, 2]);
    assert_eq!(arcs[1].sat_id, 6);
    assert_eq!(arc_indices(&arcs[1]), vec![1, 3]);
}

#[test]
fn segmenter_is_deterministic() {
    let times: [i64; 6] = [0, 130, 150, 400, 410, 800];
    let records: Vec<Record> =
        times.iter().map(|&t| obs(42, 10, t)).collect();
    let first = find_arcs(&records);
    let second = find_arcs(&records);
    assert_eq!(first.len(), second.len());
    for (a, b) in first.iter().zip(second.iter()) {
        assert_eq!(a.sat_id, b.sat_id);
        assert_eq!(a.time_start, b.time_start);
        assert_eq!(a.time_end, b.time_end);
        assert_eq!(a.record_indices, b.record_indices);
    }
}

#[test]
fn segmenter_emits_trailing_singleton() {
    // The pending arc is emitted at end of input whatever its size.
    let records = vec![obs(3, 10, 0), obs(3, 11, 30), obs(3, 12, 400)];
    let arcs = find_arcs(&records);
    assert_eq!(arcs.len(), 2);
    assert_eq!(arc_indices(&arcs[0]), vec![0, 1]);
    assert_eq!(arc_indices(&arcs[1]), vec![2]);
}

#[test]
fn segmenter_covers_every_index_exactly_once() {
    let times: [i64; 8] = [0, 30, 200, 230, 460, 490, 700, 60];
    let records: Vec<Record> =
        times.iter().map(|&t| obs(11, 10, t)).collect();
    let arcs = find_arcs(&records);
    let mut seen: Vec<usize> = arcs.iter().flat_map(|a| a.record_indices.clone()).collect();
    seen.sort();
    assert_eq!(seen, vec![0, 1, 2, 3, 4, 5, 6, 7]);
    // No arc holds a gap above 120 s from its third member on.
    for arc in &arcs {
        for r in 2..arc.record_indices.len() {
            let t1 = records[arc.record_indices[r - 1]].time;
            let t2 = records[arc.record_indices[r]].time;
            assert!(t2 - t1 <= 120);
        }
    }
}

#[test]
fn segmenter_empty_store_yields_no_arcs() {
    let records: Vec<Record> = Vec::new();
    assert_eq!(find_arcs(&records).len(), 0);
}

#[test]
fn iqr_rejects_outlier_and_mean_is_exact() {
    // Candidate heights [1..7, 100]: Q1 = sorted[2] = 3, Q3 = sorted[6] = 7,
    // IQR = 4, acceptance window [-3, 13]; 100 drops and the retained mean
    // is exactly 4.0.
    let mut heights: Vec<i64> = vec![1, 2, 3, 4, 5, 6, 7, 100];
    remove_outliers_iqr(&mut heights);
    assert_eq!(heights, vec![1, 2, 3, 4, 5, 6, 7]);
    let mean: f64 = heights.iter().map(|&h| h as f64).sum::<f64>() / heights.len() as f64;
    assert_eq!(mean, 4.0);
}

#[test]
fn iqr_keeps_small_samples_untouched() {
    let mut heights: Vec<i64> = vec![100, 1, 2];
    remove_outliers_iqr(&mut heights);
    assert_eq!(heights, vec![100, 1, 2]);
}

#[test]
fn iqr_sorts_when_nothing_is_rejected() {
    let mut heights: Vec<i64> = vec![4, 1, 3, 2];
    remove_outliers_iqr(&mut heights);
    assert_eq!(heights, vec![1, 2, 3, 4]);
}

#[test]
fn record_database_stores_and_counts() {
    let mut db = RecordDatabase::new();
    assert_eq!(db.len(), 0);
    db.insert_many(vec![obs(1, 10, 0), obs(1, 11, 30)]);
    assert_eq!(db.len(), 2);
    db.insert_many(vec![obs(2, 12, 60)]);
    assert_eq!(db.len(), 3);
    assert_eq!(db.records[2].id, 2);
    assert!(db.check_memory() >= 3 * std::mem::size_of::<Record>());
}

#[test]
fn arc_database_stores_and_counts() {
    let mut db = ArcDatabase::new();
    assert_eq!(db.len(), 0);
    db.insert(Arc::new(7, 0, 60, vec![0, 1]));
    assert_eq!(db.len(), 1);
    assert_eq!(db.arcs[0].sat_id, 7);
    assert!(db.check_memory() >= std::mem::size_of::<Vec<Arc>>());
}

#[test]
fn config_default_bounds() {
    let c = Config::default();
    assert_eq!(
        c,
        Config { min_elevation: 5, max_elevation: 15, min_azimuth: 50, max_azimuth: 150 }
    );
}
