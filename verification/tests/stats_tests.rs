use provis::stats::{
    mem_percent_of, merge_row, self_process_name, Metric, ProcRow, ProcessCollector,
    ProcessStats, SETTLING_INTERVAL_MS,
};

fn row(pid: i32, name: &str, cpu: u64, mem: u64, io_r: u64, io_w: u64) -> ProcRow {
    ProcRow {
        pid,
        name: name.to_string(),
        cpu_usage: cpu,
        mem_usage: mem,
        io_read_bytes: io_r,
        io_write_bytes: io_w,
    }
}

#[test]
fn fresh_collector_has_no_records() {
    let c = ProcessCollector::new();
    assert!(c.get_all_processes().is_empty());
    assert!(c.get_top_by_cpu(10).is_empty());
}

#[test]
fn rows_sharing_a_name_merge_into_one_record() {
    // Two rows named worker, at 1.00% and 2.00% CPU, fold to one record at
    // 3.00% (hundredths of a percent throughout).
    let mut c = ProcessCollector::new();
    c.refresh(vec![row(11, "worker", 100, 0, 0, 0), row(12, "worker", 200, 0, 0, 0)], 0);
    let all = c.get_all_processes();
    assert_eq!(all.len(), 1);
    assert_eq!(all[0].name, "worker");
    assert_eq!(all[0].cpu_usage, 300);
}

#[test]
fn merge_sums_every_field_and_keeps_first_pid() {
    let mut c = ProcessCollector::new();
    let total: u64 = 1_000_000;
    c.refresh(
        vec![
            row(5, "app", 150, 250_000, 10, 20),
            row(9, "other", 50, 100_000, 1, 2),
            row(7, "app", 50, 250_000, 30, 40),
        ],
        total,
    );
    let all = c.get_all_processes();
    assert_eq!(all.len(), 2);
    // First-occurrence order, first-seen pid.
    assert_eq!(all[0].name, "app");
    assert_eq!(all[0].pid, 5);
    assert_eq!(all[0].cpu_usage, 200);
    assert_eq!(all[0].mem_usage, 500_000);
    // 250000 bytes of 1000000 is 25.00% = 2500 centi-percent, per row.
    assert_eq!(all[0].mem_percent, 5000);
    assert_eq!(all[0].io_read_bytes, 40);
    assert_eq!(all[0].io_write_bytes, 60);
    assert_eq!(all[1].name, "other");
    assert_eq!(all[1].pid, 9);
}

#[test]
fn refresh_replaces_the_snapshot_wholesale() {
    let mut c = ProcessCollector::new();
    c.refresh(vec![row(1, "gone", 100, 0, 0, 0)], 0);
    c.refresh(vec![row(2, "kept", 700, 0, 0, 0)], 0);
    let all = c.get_all_processes();
    assert_eq!(all.len(), 1);
    assert_eq!(all[0].name, "kept");
}

#[test]
fn top_by_memory_excludes_own_process_and_sorts_descending() {
    let mut c = ProcessCollector::new();
    c.refresh(
        vec![
            row(1, "provis", 999, u64::MAX, 0, 0),
            row(2, "a", 0, 100, 0, 0),
            row(3, "b", 0, 300, 0, 0),
            row(4, "c", 0, 200, 0, 0),
        ],
        0,
    );
    let top = c.get_top_by_memory(10);
    assert_eq!(top.len(), 3);
    assert!(top.iter().all(|p| p.name != "provis"));
    assert_eq!(top[0].mem_usage, 300);
    assert_eq!(top[1].mem_usage, 200);
    assert_eq!(top[2].mem_usage, 100);
}

#[test]
fn top_by_memory_allows_exact_ties_in_either_order() {
    let mut c = ProcessCollector::new();
    c.refresh(vec![row(1, "x", 0, 64, 0, 0), row(2, "y", 0, 64, 0, 0)], 0);
    let top = c.get_top_by_memory(2);
    assert_eq!(top.len(), 2);
    assert_eq!(top[0].mem_usage, 64);
    assert_eq!(top[1].mem_usage, 64);
    let mut names: Vec<&str> = top.iter().map(|p| p.name.as_str()).collect();
    names.sort();
    assert_eq!(names, vec!["x", "y"]);
}

#[test]
fn top_by_cpu_sorts_and_truncates() {
    let mut c = ProcessCollector::new();
    c.refresh(
        vec![
            row(1, "a", 150, 0, 0, 0),
            row(2, "b", 900, 0, 0, 0),
            row(3, "c", 400, 0, 0, 0),
        ],
        0,
    );
    let top = c.get_top_by_cpu(2);
    assert_eq!(top.len(), 2);
    assert_eq!(top[0].name, "b");
    assert_eq!(top[1].name, "c");
}

#[test]
fn top_handles_limit_beyond_pool() {
    let mut c = ProcessCollector::new();
    c.refresh(vec![row(1, "only", 10, 10, 0, 0)], 0);
    assert_eq!(c.top(Metric::Cpu, 50).len(), 1);
    assert_eq!(c.top(Metric::Memory, 0).len(), 0);
}

#[test]
fn zero_total_memory_yields_zero_percentages() {
    let mut c = ProcessCollector::new();
    c.refresh(
        vec![row(1, "a", 0, u64::MAX, 0, 0), row(2, "b", 0, 12345, 0, 0)],
        0,
    );
    for rec in c.get_all_processes() {
        assert_eq!(rec.mem_percent, 0);
    }
}

#[test]
fn memory_percentage_is_exact_fixed_point() {
    // 250 of 1000 bytes is 25.00%, held as 2500 hundredths of a percent.
    assert_eq!(mem_percent_of(250, 1000), 2500);
    assert_eq!(mem_percent_of(0, 1000), 0);
    assert_eq!(mem_percent_of(1000, 1000), 10000);
    // Degenerate ratio far above 100% caps instead of wrapping.
    assert_eq!(mem_percent_of(u64::MAX, 1), u64::MAX);
}

#[test]
fn saturating_aggregation_caps_at_max() {
    let mut c = ProcessCollector::new();
    c.refresh(
        vec![row(1, "w", 0, u64::MAX, 0, 0), row(2, "w", 0, u64::MAX, 0, 0)],
        0,
    );
    let all = c.get_all_processes();
    assert_eq!(all.len(), 1);
    assert_eq!(all[0].mem_usage, u64::MAX);
}

#[test]
fn merge_is_a_field_wise_sum() {
    let rec = ProcessStats {
        pid: 42,
        name: "w".to_string(),
        cpu_usage: 100,
        mem_usage: 1000,
        mem_percent: 500,
        io_read_bytes: 1,
        io_write_bytes: 2,
    };
    let extra = row(77, "w", 25, 500, 10, 20);
    let merged = merge_row(&rec, &extra, 10_000);
    assert_eq!(merged.pid, 42); // the first-seen identifier survives
    assert_eq!(merged.name, "w");
    assert_eq!(merged.cpu_usage, 125);
    assert_eq!(merged.mem_usage, 1500);
    // 500 of 10000 bytes is 5.00% = 500 centi-percent, added to the record's.
    assert_eq!(merged.mem_percent, 1000);
    assert_eq!(merged.io_read_bytes, 11);
    assert_eq!(merged.io_write_bytes, 22);
}

#[test]
fn protocol_constants_are_sane() {
    assert_eq!(self_process_name(), "provis");
    assert!(SETTLING_INTERVAL_MS >= 100 && SETTLING_INTERVAL_MS <= 300);
}
