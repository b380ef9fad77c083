//! The two-sample process stats aggregator.
//!
//! A [`ProcessCollector`] holds one snapshot of the OS process table as
//! plain rows ([`ProcRow`]). Reading it back through
//! [`ProcessCollector::get_all_processes`] merges all rows that share an
//! executable name into one [`ProcessStats`] record whose numeric fields
//! are the field-wise sums of the contributing rows — a deliberate
//! aggregation policy that folds threads and multi-instance processes into
//! one visible row, not an OS concept. [`ProcessCollector::top`] ranks the
//! records by CPU or by memory, leaving out the record that stands for this
//! tool's own process.
//!
//! Sampling the live system is the caller's affair. Per-process CPU is only
//! meaningful as a delta between two snapshots taken a settling interval
//! apart (see [`SETTLING_INTERVAL_MS`]): the caller must load a snapshot,
//! wait, and load a second one before reading — skipping the wait collapses
//! every CPU figure to near zero. Percentages arrive and leave as integer
//! hundredths of a percent, so no degenerate float (NaN, infinity) can
//! enter the engine; the caller maps any such OS reading to zero at the
//! boundary.

use vstd::prelude::*;
use vstd::multiset::Multiset;
use crate::ranked::{clip64, is_top_selection, sorted_desc_by};

verus! {

/// The settling wait between the two snapshots of the two-sample CPU
/// protocol, in milliseconds: long enough for the OS to accumulate a fresh
/// CPU-time delta, short enough to stay interactive.
pub const SETTLING_INTERVAL_MS: u64 = 200;

/// One row of the OS process table, as handed in by the sampling caller:
/// identifier, executable name, CPU usage in hundredths of a percent since
/// the previous snapshot, resident memory in bytes, and cumulative I/O
/// counters in bytes.
pub struct ProcRow {
    pub pid: i32,
    pub name: String,
    pub cpu_usage: u64,
    pub mem_usage: u64,
    pub io_read_bytes: u64,
    pub io_write_bytes: u64,
}

/// One aggregated record: every row sharing `name`, folded by field-wise
/// saturating sum. `pid` is the first-seen row's identifier and carries no
/// aggregation meaning beyond display. `cpu_usage` and `mem_percent` are in
/// hundredths of a percent.
pub struct ProcessStats {
    pub pid: i32,
    pub name: String,
    pub cpu_usage: u64,
    pub mem_usage: u64,
    pub mem_percent: u64,
    pub io_read_bytes: u64,
    pub io_write_bytes: u64,
}

/// The mathematical content of a [`ProcRow`].
pub struct RowModel {
    pub pid: i32,
    pub name: Seq<char>,
    pub cpu_usage: u64,
    pub mem_usage: u64,
    pub io_read_bytes: u64,
    pub io_write_bytes: u64,
}

/// The mathematical content of a [`ProcessStats`].
pub struct StatsModel {
    pub pid: i32,
    pub name: Seq<char>,
    pub cpu_usage: u64,
    pub mem_usage: u64,
    pub mem_percent: u64,
    pub io_read_bytes: u64,
    pub io_write_bytes: u64,
}

impl View for ProcRow {
    type V = RowModel;

    open spec fn view(&self) -> RowModel {
        RowModel {
            pid: self.pid,
            name: self.name@,
            cpu_usage: self.cpu_usage,
            mem_usage: self.mem_usage,
            io_read_bytes: self.io_read_bytes,
            io_write_bytes: self.io_write_bytes,
        }
    }
}

impl View for ProcessStats {
    type V = StatsModel;

    open spec fn view(&self) -> StatsModel {
        StatsModel {
            pid: self.pid,
            name: self.name@,
            cpu_usage: self.cpu_usage,
            mem_usage: self.mem_usage,
            mem_percent: self.mem_percent,
            io_read_bytes: self.io_read_bytes,
            io_write_bytes: self.io_write_bytes,
        }
    }
}

/// The mathematical content of a run of rows.
pub open spec fn row_models(v: Seq<ProcRow>) -> Seq<RowModel> {
    v.map_values(|r: ProcRow| r@)
}

/// The mathematical content of a run of records.
pub open spec fn stats_models(v: Seq<ProcessStats>) -> Seq<StatsModel> {
    v.map_values(|r: ProcessStats| r@)
}

/// Memory as hundredths of a percent of `total`, rounded down and capped at
/// `u64::MAX`. A zero total — memory size unavailable — yields zero rather
/// than a division error: with integers no NaN or infinity can arise.
pub open spec fn pct_centi(mem: u64, total: u64) -> u64 {
    if total == 0 {
        0u64
    } else {
        clip64((mem as int) * 10000 / (total as int))
    }
}

/// Exec mirror of [`pct_centi`].
pub fn mem_percent_of(mem: u64, total: u64) -> (r: u64)
    ensures
        r == pct_centi(mem, total),
{
    if total == 0 {
        0
    } else {
        let wide: u128 = (mem as u128) * 10000 / (total as u128);
        if wide > (u64::MAX as u128) {
            u64::MAX
        } else {
            wide as u64
        }
    }
}

/// Whether some row carries this name.
pub open spec fn contains_name(rows: Seq<RowModel>, name: Seq<char>) -> bool {
    exists|j: int| 0 <= j < rows.len() && rows[j].name == name
}

/// The total of `f` over the rows carrying `name`.
pub open spec fn sum_by(rows: Seq<RowModel>, name: Seq<char>, f: spec_fn(RowModel) -> int) -> int
    decreases rows.len(),
{
    if rows.len() == 0 {
        0
    } else {
        sum_by(rows.drop_last(), name, f) + if rows.last().name == name {
            f(rows.last())
        } else {
            0
        }
    }
}

/// The identifier of the first row carrying `name` (zero when none does;
/// the aggregation only reads it when one does).
pub open spec fn first_pid(rows: Seq<RowModel>, name: Seq<char>) -> i32
    decreases rows.len(),
{
    if rows.len() == 0 {
        0
    } else if contains_name(rows.drop_last(), name) {
        first_pid(rows.drop_last(), name)
    } else if rows.last().name == name {
        rows.last().pid
    } else {
        0
    }
}

/// The distinct executable names of the table, each at its first
/// occurrence, in first-occurrence order.
pub open spec fn distinct_names(rows: Seq<RowModel>) -> Seq<Seq<char>>
    decreases rows.len(),
{
    if rows.len() == 0 {
        Seq::empty()
    } else {
        let d = distinct_names(rows.drop_last());
        if d.contains(rows.last().name) {
            d
        } else {
            d.push(rows.last().name)
        }
    }
}

/// A row's CPU column, as a key into [`sum_by`].
pub open spec fn cpu_of() -> spec_fn(RowModel) -> int {
    |r: RowModel| r.cpu_usage as int
}

/// A row's memory column, as a key into [`sum_by`].
pub open spec fn mem_of() -> spec_fn(RowModel) -> int {
    |r: RowModel| r.mem_usage as int
}

/// A row's memory share of `total`, as a key into [`sum_by`]: the
/// aggregation sums percentages row-wise, as each was sampled.
pub open spec fn pct_of(total: u64) -> spec_fn(RowModel) -> int {
    |r: RowModel| pct_centi(r.mem_usage, total) as int
}

/// A row's cumulative read column, as a key into [`sum_by`].
pub open spec fn io_read_of() -> spec_fn(RowModel) -> int {
    |r: RowModel| r.io_read_bytes as int
}

/// A row's cumulative write column, as a key into [`sum_by`].
pub open spec fn io_write_of() -> spec_fn(RowModel) -> int {
    |r: RowModel| r.io_write_bytes as int
}

/// The one record the aggregation owes for name `name`: the first-seen
/// identifier, and every numeric field the capped sum of its column over
/// the rows carrying the name (memory percentage summed row-wise, as
/// sampled against `total`).
pub open spec fn record_for(rows: Seq<RowModel>, name: Seq<char>, total: u64) -> StatsModel {
    StatsModel {
        pid: first_pid(rows, name),
        name: name,
        cpu_usage: clip64(sum_by(rows, name, cpu_of())),
        mem_usage: clip64(sum_by(rows, name, mem_of())),
        mem_percent: clip64(sum_by(rows, name, pct_of(total))),
        io_read_bytes: clip64(sum_by(rows, name, io_read_of())),
        io_write_bytes: clip64(sum_by(rows, name, io_write_of())),
    }
}

/// `rs` is the aggregation of the table `rows` against total memory
/// `total`: one record per distinct executable name, in first-occurrence
/// order, each exactly the record owed for its name.
pub open spec fn is_aggregation(rs: Seq<StatsModel>, rows: Seq<RowModel>, total: u64) -> bool {
    &&& rs.len() == distinct_names(rows).len()
    &&& forall|k: int| 0 <= k < rs.len() ==> #[trigger] rs[k].name == distinct_names(rows)[k]
    &&& forall|k: int| 0 <= k < rs.len() ==> #[trigger] rs[k] == record_for(rows, rs[k].name, total)
}

/// A name stands in `distinct_names(rows)` exactly when some row carries it.
proof fn lemma_distinct_names_contains(rows: Seq<RowModel>, name: Seq<char>)
    ensures
        distinct_names(rows).contains(name) <==> contains_name(rows, name),
    decreases rows.len(),
{
    let dr = distinct_names(rows);
    if rows.len() == 0 {
        assert(!contains_name(rows, name));
        assert(!dr.contains(name));
    } else {
        let t = rows.drop_last();
        lemma_distinct_names_contains(t, name);
        let d = distinct_names(t);
        let last = rows.last();
        if contains_name(rows, name) {
            let j = choose|j: int| 0 <= j < rows.len() && rows[j].name == name;
            if j < rows.len() - 1 {
                assert(t[j] == rows[j]);
                assert(contains_name(t, name));
                let k = choose|k: int| 0 <= k < d.len() && d[k] == name;
                assert(dr[k] == name);
                assert(dr.contains(name));
            } else {
                assert(last.name == name);
                if d.contains(name) {
                    assert(dr == d);
                } else {
                    assert(dr == d.push(name));
                    assert(dr[d.len() as int] == name);
                }
                assert(dr.contains(name));
            }
        }
        if dr.contains(name) {
            let k = choose|k: int| 0 <= k < dr.len() && dr[k] == name;
            if 0 <= k < d.len() {
                assert(d[k] == name);
                assert(d.contains(name));
                assert(contains_name(t, name));
                let j = choose|j: int| 0 <= j < t.len() && t[j].name == name;
                assert(rows[j] == t[j]);
                assert(contains_name(rows, name));
            } else {
                assert(!d.contains(last.name));
                assert(dr == d.push(last.name));
                assert(dr[k] == last.name);
                assert(last.name == name);
                assert(rows[rows.len() - 1].name == name);
                assert(contains_name(rows, name));
            }
        }
    }
}

/// No name stands twice in `distinct_names(rows)`.
proof fn lemma_distinct_names_no_dup(rows: Seq<RowModel>)
    ensures
        forall|a: int, b: int|
            0 <= a < b < distinct_names(rows).len() ==> #[trigger] distinct_names(rows)[a]
                != #[trigger] distinct_names(rows)[b],
    decreases rows.len(),
{
    if rows.len() > 0 {
        let t = rows.drop_last();
        lemma_distinct_names_no_dup(t);
        let d = distinct_names(t);
        if !d.contains(rows.last().name) {
            assert forall|a: int, b: int|
                0 <= a < b < distinct_names(rows).len() implies #[trigger] distinct_names(rows)[a]
                != #[trigger] distinct_names(rows)[b] by {
                if b == d.len() {
                    assert(distinct_names(rows)[a] == d[a]);
                    assert(!d.contains(distinct_names(rows)[b]));
                } else {
                    assert(distinct_names(rows)[a] == d[a]);
                    assert(distinct_names(rows)[b] == d[b]);
                }
            }
        }
    }
}

/// Rows carrying an absent name total to zero.
proof fn lemma_sum_by_absent(rows: Seq<RowModel>, name: Seq<char>, f: spec_fn(RowModel) -> int)
    requires
        !contains_name(rows, name),
    ensures
        sum_by(rows, name, f) == 0,
    decreases rows.len(),
{
    if rows.len() > 0 {
        let t = rows.drop_last();
        assert(!contains_name(t, name)) by {
            if contains_name(t, name) {
                let j = choose|j: int| 0 <= j < t.len() && t[j].name == name;
                assert(rows[j] == t[j]);
            }
        }
        lemma_sum_by_absent(t, name, f);
        assert(rows.last().name != name) by {
            if rows.last().name == name {
                assert(rows[rows.len() - 1].name == name);
            }
        }
    }
}

/// A column that is zero on every row totals to zero.
proof fn lemma_sum_by_zero(rows: Seq<RowModel>, name: Seq<char>, f: spec_fn(RowModel) -> int)
    requires
        forall|r: RowModel| #[trigger] f(r) == 0,
    ensures
        sum_by(rows, name, f) == 0,
    decreases rows.len(),
{
    if rows.len() > 0 {
        lemma_sum_by_zero(rows.drop_last(), name, f);
    }
}

/// Every numeric column totals to a non-negative value.
proof fn lemma_sum_by_nonneg(rows: Seq<RowModel>, name: Seq<char>, f: spec_fn(RowModel) -> int)
    requires
        forall|r: RowModel| #[trigger] f(r) >= 0,
    ensures
        sum_by(rows, name, f) >= 0,
    decreases rows.len(),
{
    if rows.len() > 0 {
        lemma_sum_by_nonneg(rows.drop_last(), name, f);
    }
}

/// A saturating step extends a capped running total exactly as the
/// mathematical sum extends, re-capped.
proof fn lemma_clip_sat(a: int, c: u64)
    requires
        a >= 0,
    ensures
        clip64(a).saturating_add(c) == clip64(a + c),
{
}

/// The executable name of this tool's own process; the ranked views leave
/// the record carrying it out.
pub open spec fn self_name() -> Seq<char> {
    "provis"@
}

/// Exec mirror of [`self_name`].
pub fn self_process_name() -> (r: String)
    ensures
        r@ == self_name(),
{
    "provis".to_owned()
}

/// A record the ranked views show: any but the tool's own.
pub open spec fn vis_pred() -> spec_fn(StatsModel) -> bool {
    |s: StatsModel| s.name != self_name()
}

/// A name the ranked views show.
pub open spec fn name_vis_pred() -> spec_fn(Seq<char>) -> bool {
    |nm: Seq<char>| nm != self_name()
}

/// The record owed for a name, as a key into `map_values`.
pub open spec fn record_of(rows: Seq<RowModel>, total: u64) -> spec_fn(Seq<char>) -> StatsModel {
    |nm: Seq<char>| record_for(rows, nm, total)
}

/// The pool the ranked views select from: the record owed for every
/// distinct executable name of the table except the tool's own.
pub open spec fn visible_pool(rows: Seq<RowModel>, total: u64) -> Multiset<StatsModel> {
    distinct_names(rows).filter(name_vis_pred()).map_values(record_of(rows, total)).to_multiset()
}

/// The two ranking metrics of the top views.
#[derive(Clone, Copy, Debug, PartialEq, Eq, Structural)]
pub enum Metric {
    Cpu,
    Memory,
}

/// The key a metric ranks by: CPU in hundredths of a percent, or resident
/// memory in bytes (an exact integer ordering either way).
pub open spec fn metric_key(m: Metric) -> spec_fn(StatsModel) -> int {
    match m {
        Metric::Cpu => |s: StatsModel| s.cpu_usage as int,
        Metric::Memory => |s: StatsModel| s.mem_usage as int,
    }
}

/// An aggregation, with the tool's own record left out, is exactly the
/// visible pool.
proof fn lemma_aggregation_filter_pool(rs: Seq<StatsModel>, rows: Seq<RowModel>, total: u64)
    requires
        rs.len() == distinct_names(rows).len(),
        forall|k: int| 0 <= k < rs.len() ==> #[trigger] rs[k].name == distinct_names(rows)[k],
        forall|k: int|
            0 <= k < rs.len() ==> #[trigger] rs[k] == record_for(rows, rs[k].name, total),
    ensures
        rs.filter(vis_pred()) == distinct_names(rows).filter(name_vis_pred()).map_values(
            record_of(rows, total),
        ),
{
    lemma_filter_map_pointwise(rs, distinct_names(rows), rows, total);
}

/// Filtering records by visibility and mapping visible names to their owed
/// records land on the same run, when the records are pointwise the owed
/// ones.
proof fn lemma_filter_map_pointwise(
    rs: Seq<StatsModel>,
    d: Seq<Seq<char>>,
    rows: Seq<RowModel>,
    total: u64,
)
    requires
        rs.len() == d.len(),
        forall|k: int| 0 <= k < rs.len() ==> #[trigger] rs[k].name == d[k],
        forall|k: int| 0 <= k < rs.len() ==> #[trigger] rs[k] == record_for(rows, rs[k].name, total),
    ensures
        rs.filter(vis_pred()) == d.filter(name_vis_pred()).map_values(record_of(rows, total)),
    decreases rs.len(),
{
    reveal(Seq::filter);
    if rs.len() == 0 {
        assert(rs.filter(vis_pred()) =~= Seq::<StatsModel>::empty());
        assert(d.filter(name_vis_pred()) =~= Seq::<Seq<char>>::empty());
        assert(d.filter(name_vis_pred()).map_values(record_of(rows, total)) =~= Seq::<
            StatsModel,
        >::empty());
    } else {
        let rt = rs.drop_last();
        let dt = d.drop_last();
        assert(forall|k: int| 0 <= k < rt.len() ==> #[trigger] rt[k] == rs[k]);
        assert(forall|k: int| 0 <= k < dt.len() ==> #[trigger] dt[k] == d[k]);
        lemma_filter_map_pointwise(rt, dt, rows, total);
        assert(rs.last().name == d.last());
        assert(vis_pred()(rs.last()) == name_vis_pred()(d.last()));
        if name_vis_pred()(d.last()) {
            assert(rs.filter(vis_pred()) == rt.filter(vis_pred()).push(rs.last()));
            assert(d.filter(name_vis_pred()) == dt.filter(name_vis_pred()).push(d.last()));
            assert(record_of(rows, total)(d.last()) == rs.last());
            assert(d.filter(name_vis_pred()).map_values(record_of(rows, total)) =~= dt.filter(
                name_vis_pred(),
            ).map_values(record_of(rows, total)).push(rs.last()));
        } else {
            assert(rs.filter(vis_pred()) == rt.filter(vis_pred()));
            assert(d.filter(name_vis_pred()) == dt.filter(name_vis_pred()));
        }
    }
}

/// The aggregator: one loaded snapshot of the process table, and the
/// total system memory it was sampled against.
pub struct ProcessCollector {
    pub rows: Vec<ProcRow>,
    pub total_memory: u64,
}

impl ProcessCollector {
    /// A collector with nothing loaded yet: reading it yields no records.
    pub fn new() -> (r: ProcessCollector)
        ensures
            r.rows@ =~= Seq::<ProcRow>::empty(),
            r.total_memory == 0,
    {
        ProcessCollector { rows: Vec::new(), total_memory: 0 }
    }

    /// Replace the loaded snapshot wholesale. Records are rebuilt from
    /// scratch at every read: nothing of the previous snapshot survives, so
    /// a process absent from the new table is silently gone. For meaningful
    /// CPU figures the caller loads two snapshots [`SETTLING_INTERVAL_MS`]
    /// apart and reads after the second.
    pub fn refresh(&mut self, rows: Vec<ProcRow>, total_memory: u64)
        ensures
            final(self).rows == rows,
            final(self).total_memory == total_memory,
    {
        self.rows = rows;
        self.total_memory = total_memory;
    }

    /// Aggregate the loaded snapshot: one record per distinct executable
    /// name, in first-occurrence order, every numeric field the capped sum
    /// of its column over the rows carrying the name. With no system memory
    /// total to sample against, every memory percentage is zero — never a
    /// division error.
    pub fn get_all_processes(&self) -> (r: Vec<ProcessStats>)
        ensures
            is_aggregation(stats_models(r@), row_models(self.rows@), self.total_memory),
            self.total_memory == 0 ==> forall|k: int|
                #![trigger stats_models(r@)[k]]
                0 <= k < r@.len() ==> stats_models(r@)[k].mem_percent == 0,
    {
        let total = self.total_memory;
        let ghost allrows = row_models(self.rows@);
        let mut out: Vec<ProcessStats> = Vec::new();
        let mut i: usize = 0;
        proof {
            assert(allrows.subrange(0, 0) =~= Seq::<RowModel>::empty());
            assert(stats_models(out@) =~= Seq::<StatsModel>::empty());
        }
        while i < self.rows.len()
            invariant
                i <= self.rows.len(),
                allrows == row_models(self.rows@),
                total == self.total_memory,
                is_aggregation(stats_models(out@), allrows.subrange(0, i as int), total),
            decreases self.rows.len() - i,
        {
            let ghost pre = allrows.subrange(0, i as int);
            let ghost cur = allrows.subrange(0, i as int + 1);
            let ghost rowm = allrows[i as int];
            let ghost d = distinct_names(pre);
            proof {
                assert(cur.drop_last() =~= pre);
                assert(cur.last() == rowm);
                lemma_distinct_names_no_dup(pre);
            }
            let row = &self.rows[i];
            let ghost oldout = stats_models(out@);
            match find_by_name(&out, &row.name) {
                Some(j) => {
                    let merged = merge_row(&out[j], row, total);
                    let ghost pid_j = oldout[j as int].pid;
                    out.set(j, merged);
                    proof {
                        let newout = stats_models(out@);
                        let nmj = oldout[j as int].name;
                        assert(rowm.name == nmj);
                        assert(newout =~= oldout.update(
                            j as int,
                            StatsModel { pid: pid_j, name: nmj, ..newout[j as int] },
                        ));
                        assert(d.contains(nmj)) by {
                            assert(d[j as int] == nmj);
                        }
                        assert(distinct_names(cur) == d);
                        assert forall|k: int| 0 <= k < newout.len() implies #[trigger] newout[k]
                            == record_for(cur, newout[k].name, total) by {
                            let nmk = newout[k].name;
                            assert(oldout[k].name == nmk);
                            assert(d.contains(nmk)) by {
                                assert(d[k] == nmk);
                            }
                            lemma_distinct_names_contains(pre, nmk);
                            assert(contains_name(pre, nmk));
                            if k == j {
                                assert(cur.last().name == nmk);
                                assert(first_pid(cur, nmk) == first_pid(pre, nmk));
                                lemma_sum_by_nonneg(pre, nmk, cpu_of());
                                lemma_sum_by_nonneg(pre, nmk, mem_of());
                                lemma_sum_by_nonneg(pre, nmk, pct_of(total));
                                lemma_sum_by_nonneg(pre, nmk, io_read_of());
                                lemma_sum_by_nonneg(pre, nmk, io_write_of());
                                lemma_clip_sat(sum_by(pre, nmk, cpu_of()), row.cpu_usage);
                                lemma_clip_sat(sum_by(pre, nmk, mem_of()), row.mem_usage);
                                lemma_clip_sat(
                                    sum_by(pre, nmk, pct_of(total)),
                                    pct_centi(row.mem_usage, total),
                                );
                                lemma_clip_sat(sum_by(pre, nmk, io_read_of()), row.io_read_bytes);
                                lemma_clip_sat(sum_by(pre, nmk, io_write_of()), row.io_write_bytes);
                                assert(cpu_of()(rowm) == row.cpu_usage as int);
                                assert(pct_of(total)(rowm) == pct_centi(row.mem_usage, total) as int);
                                assert(sum_by(cur, nmk, cpu_of()) == sum_by(pre, nmk, cpu_of())
                                    + row.cpu_usage);
                            } else {
                                assert(d[k] == nmk && d[j as int] == nmj);
                                assert(nmk != nmj);
                                assert(cur.last().name != nmk);
                                assert(first_pid(cur, nmk) == first_pid(pre, nmk));
                                assert(newout[k] == oldout[k]);
                            }
                        }
                    }
                },
                None => {
                    let seeded = ProcessStats {
                        pid: row.pid,
                        name: row.name.clone(),
                        cpu_usage: row.cpu_usage,
                        mem_usage: row.mem_usage,
                        mem_percent: mem_percent_of(row.mem_usage, total),
                        io_read_bytes: row.io_read_bytes,
                        io_write_bytes: row.io_write_bytes,
                    };
                    out.push(seeded);
                    proof {
                        let newout = stats_models(out@);
                        assert(newout =~= oldout.push(newout.last()));
                        assert(newout.last().name == rowm.name);
                        assert(!d.contains(rowm.name)) by {
                            if d.contains(rowm.name) {
                                let k = choose|k: int| 0 <= k < d.len() && d[k] == rowm.name;
                                assert(oldout[k].name == rowm.name);
                            }
                        }
                        assert(distinct_names(cur) == d.push(rowm.name));
                        lemma_distinct_names_contains(pre, rowm.name);
                        assert(!contains_name(pre, rowm.name));
                        assert forall|k: int| 0 <= k < newout.len() implies #[trigger] newout[k]
                            == record_for(cur, newout[k].name, total) by {
                            let nmk = newout[k].name;
                            if k == newout.len() - 1 {
                                assert(newout[k] == newout.last());
                                assert(cur.last().name == nmk);
                                assert(first_pid(cur, nmk) == rowm.pid);
                                lemma_sum_by_absent(pre, nmk, cpu_of());
                                lemma_sum_by_absent(pre, nmk, mem_of());
                                lemma_sum_by_absent(pre, nmk, pct_of(total));
                                lemma_sum_by_absent(pre, nmk, io_read_of());
                                lemma_sum_by_absent(pre, nmk, io_write_of());
                                assert(pct_of(total)(rowm) == pct_centi(row.mem_usage, total) as int);
                            } else {
                                assert(newout[k] == oldout[k]);
                                assert(d.contains(nmk)) by {
                                    assert(d[k] == nmk);
                                }
                                assert(nmk != rowm.name);
                                assert(cur.last().name != nmk);
                                lemma_distinct_names_contains(pre, nmk);
                                assert(contains_name(pre, nmk));
                                assert(first_pid(cur, nmk) == first_pid(pre, nmk));
                                assert(distinct_names(cur)[k] == d[k]);
                            }
                        }
                    }
                },
            }
            i += 1;
            proof {
                assert(allrows.subrange(0, i as int) == cur);
            }
        }
        proof {
            assert(allrows.subrange(0, allrows.len() as int) =~= allrows);
            if total == 0 {
                assert forall|k: int| 0 <= k < out@.len() implies #[trigger] stats_models(
                    out@,
                )[k].mem_percent == 0 by {
                    let nmk = stats_models(out@)[k].name;
                    assert(forall|rm: RowModel| #[trigger] pct_of(0)(rm) == 0);
                    lemma_sum_by_zero(allrows, nmk, pct_of(0));
                }
            }
        }
        out
    }

    /// The ranked view shared by the two top functions: aggregate the
    /// snapshot, leave out the tool's own record, rank the rest by the
    /// metric, and keep the first `limit`.
    pub fn top(&self, metric: Metric, limit: usize) -> (r: Vec<ProcessStats>)
        ensures
            is_top_selection(
                stats_models(r@),
                visible_pool(row_models(self.rows@), self.total_memory),
                limit as int,
                metric_key(metric),
            ),
            forall|k: int|
                #![trigger stats_models(r@)[k]]
                0 <= k < r@.len() ==> stats_models(r@)[k].name != self_name(),
    {
        broadcast use vstd::multiset::group_multiset_axioms;
        broadcast use vstd::seq_lib::group_to_multiset_ensures;

        let all = self.get_all_processes();
        let own = self_process_name();
        let ghost allm = stats_models(all@);
        let mut vis: Vec<ProcessStats> = Vec::new();
        let mut i: usize = 0;
        proof {
            reveal(Seq::filter);
            assert(allm.subrange(0, 0) =~= Seq::<StatsModel>::empty());
            assert(stats_models(vis@) =~= Seq::<StatsModel>::empty());
            assert(stats_models(vis@) == allm.subrange(0, 0).filter(vis_pred()));
        }
        while i < all.len()
            invariant
                i <= all@.len(),
                allm == stats_models(all@),
                own@ == self_name(),
                stats_models(vis@) == allm.subrange(0, i as int).filter(vis_pred()),
            decreases all@.len() - i,
        {
            let ghost pre = allm.subrange(0, i as int);
            let ghost cur = allm.subrange(0, i as int + 1);
            proof {
                reveal(Seq::filter);
                assert(cur.drop_last() =~= pre);
                assert(cur.last() == allm[i as int]);
            }
            if !(all[i].name == own) {
                let kept = ProcessStats {
                    pid: all[i].pid,
                    name: all[i].name.clone(),
                    cpu_usage: all[i].cpu_usage,
                    mem_usage: all[i].mem_usage,
                    mem_percent: all[i].mem_percent,
                    io_read_bytes: all[i].io_read_bytes,
                    io_write_bytes: all[i].io_write_bytes,
                };
                let ghost oldvis = stats_models(vis@);
                vis.push(kept);
                proof {
                    assert(stats_models(vis@) =~= oldvis.push(allm[i as int]));
                    assert(vis_pred()(cur.last()));
                }
            } else {
                proof {
                    assert(!vis_pred()(cur.last()));
                }
            }
            i += 1;
            proof {
                assert(allm.subrange(0, i as int) == cur);
            }
        }
        proof {
            assert(allm.subrange(0, allm.len() as int) =~= allm);
            lemma_aggregation_filter_pool(allm, row_models(self.rows@), self.total_memory);
            assert(stats_models(vis@).to_multiset() =~= visible_pool(
                row_models(self.rows@),
                self.total_memory,
            ));
        }
        let sorted = sort_stats_desc(vis, metric);
        let mut res = sorted;
        let ghost sortedm = stats_models(res@);
        res.truncate(limit);
        proof {
            let pool = visible_pool(row_models(self.rows@), self.total_memory);
            let resm = stats_models(res@);
            sortedm.to_multiset_ensures();
            resm.to_multiset_ensures();
            if limit < sortedm.len() {
                let suff = sortedm.subrange(limit as int, sortedm.len() as int);
                assert(resm =~= sortedm.subrange(0, limit as int));
                assert(sortedm =~= resm + suff);
                vstd::seq_lib::lemma_multiset_commutative(resm, suff);
                suff.to_multiset_ensures();
                assert(pool =~= resm.to_multiset().add(suff.to_multiset()));
                assert forall|x: StatsModel| #[trigger] pool.count(x) > resm.to_multiset().count(
                    x,
                ) implies (forall|k: int|
                    0 <= k < resm.len() ==> metric_key(metric)(x) <= #[trigger] metric_key(
                        metric,
                    )(resm[k])) by {
                    assert(suff.to_multiset().count(x) > 0);
                    assert(suff.contains(x));
                    let jx = choose|jx: int| 0 <= jx < suff.len() && suff[jx] == x;
                    assert(sortedm[limit + jx] == x);
                    assert forall|k: int| 0 <= k < resm.len() implies metric_key(metric)(x)
                        <= #[trigger] metric_key(metric)(resm[k]) by {
                        assert(resm[k] == sortedm[k]);
                        assert(metric_key(metric)(sortedm[k]) >= metric_key(metric)(
                            sortedm[limit + jx],
                        ));
                    }
                }
            } else {
                assert(resm =~= sortedm);
            }
            // No record of the tool's own process survives the filter.
            assert forall|k: int| 0 <= k < resm.len() implies #[trigger] resm[k].name
                != self_name() by {
                assert(resm.to_multiset().count(resm[k]) > 0) by {
                    assert(resm.contains(resm[k]));
                }
                assert(pool.count(resm[k]) > 0);
                assert(stats_models(vis@).to_multiset().count(resm[k]) > 0);
                stats_models(vis@).to_multiset_ensures();
                assert(stats_models(vis@).contains(resm[k]));
                let jv = choose|jv: int|
                    0 <= jv < stats_models(vis@).len() && stats_models(vis@)[jv] == resm[k];
                allm.lemma_filter_pred(vis_pred(), jv);
                assert(vis_pred()(stats_models(vis@)[jv]));
            }
        }
        res
    }
}

impl ProcessCollector {
    /// The `limit` heaviest CPU users, this tool's own record left out,
    /// heaviest first.
    pub fn get_top_by_cpu(&self, limit: usize) -> (r: Vec<ProcessStats>)
        ensures
            is_top_selection(
                stats_models(r@),
                visible_pool(row_models(self.rows@), self.total_memory),
                limit as int,
                metric_key(Metric::Cpu),
            ),
            forall|k: int|
                #![trigger stats_models(r@)[k]]
                0 <= k < r@.len() ==> stats_models(r@)[k].name != self_name(),
    {
        self.top(Metric::Cpu, limit)
    }

    /// The `limit` largest memory users, this tool's own record left out,
    /// largest first.
    pub fn get_top_by_memory(&self, limit: usize) -> (r: Vec<ProcessStats>)
        ensures
            is_top_selection(
                stats_models(r@),
                visible_pool(row_models(self.rows@), self.total_memory),
                limit as int,
                metric_key(Metric::Memory),
            ),
            forall|k: int|
                #![trigger stats_models(r@)[k]]
                0 <= k < r@.len() ==> stats_models(r@)[k].name != self_name(),
    {
        self.top(Metric::Memory, limit)
    }
}

/// The pure merge applied on a key collision: the record keeps its
/// identifier and name, and every numeric field grows by the row's
/// contribution, saturating at `u64::MAX`. The row's memory percentage is
/// taken against `total_memory` as sampled.
pub fn merge_row(rec: &ProcessStats, row: &ProcRow, total_memory: u64) -> (r: ProcessStats)
    ensures
        r@.pid == rec@.pid,
        r@.name == rec@.name,
        r@.cpu_usage == rec.cpu_usage.saturating_add(row.cpu_usage),
        r@.mem_usage == rec.mem_usage.saturating_add(row.mem_usage),
        r@.mem_percent == rec.mem_percent.saturating_add(pct_centi(row.mem_usage, total_memory)),
        r@.io_read_bytes == rec.io_read_bytes.saturating_add(row.io_read_bytes),
        r@.io_write_bytes == rec.io_write_bytes.saturating_add(row.io_write_bytes),
{
    ProcessStats {
        pid: rec.pid,
        name: rec.name.clone(),
        cpu_usage: rec.cpu_usage.saturating_add(row.cpu_usage),
        mem_usage: rec.mem_usage.saturating_add(row.mem_usage),
        mem_percent: rec.mem_percent.saturating_add(mem_percent_of(row.mem_usage, total_memory)),
        io_read_bytes: rec.io_read_bytes.saturating_add(row.io_read_bytes),
        io_write_bytes: rec.io_write_bytes.saturating_add(row.io_write_bytes),
    }
}

/// Find the record already carrying `name`, if any.
fn find_by_name(recs: &Vec<ProcessStats>, name: &String) -> (r: Option<usize>)
    ensures
        match r {
            Some(j) => j < recs@.len() && stats_models(recs@)[j as int].name == name@,
            None => forall|k: int|
                #![trigger stats_models(recs@)[k]]
                0 <= k < recs@.len() ==> stats_models(recs@)[k].name != name@,
        },
{
    let mut j: usize = 0;
    while j < recs.len()
        invariant
            j <= recs@.len(),
            forall|k: int|
                #![trigger stats_models(recs@)[k]]
                0 <= k < j ==> stats_models(recs@)[k].name != name@,
        decreases recs@.len() - j,
    {
        if recs[j].name == *name {
            proof {
                assert(stats_models(recs@)[j as int] == recs@[j as int]@);
            }
            return Some(j);
        }
        j += 1;
    }
    None
}

/// Sort records by non-increasing metric key (selection of the largest,
/// repeatedly); a reordering, nothing added or lost.
fn sort_stats_desc(v: Vec<ProcessStats>, metric: Metric) -> (r: Vec<ProcessStats>)
    ensures
        stats_models(r@).to_multiset() =~= stats_models(v@).to_multiset(),
        sorted_desc_by(stats_models(r@), metric_key(metric)),
{
    broadcast use vstd::multiset::group_multiset_axioms;
    broadcast use vstd::seq_lib::group_to_multiset_ensures;

    let ghost orig = stats_models(v@);
    let mut rest = v;
    let mut out: Vec<ProcessStats> = Vec::new();
    proof {
        assert(stats_models(out@) =~= Seq::<StatsModel>::empty());
    }
    while rest.len() > 0
        invariant
            stats_models(out@).to_multiset().add(stats_models(rest@).to_multiset())
                =~= orig.to_multiset(),
            sorted_desc_by(stats_models(out@), metric_key(metric)),
            forall|x: StatsModel, k: int|
                #![trigger stats_models(rest@).to_multiset().count(x), stats_models(out@)[k]]
                stats_models(rest@).to_multiset().count(x) > 0 && 0 <= k < out@.len()
                    ==> metric_key(metric)(x) <= metric_key(metric)(stats_models(out@)[k]),
        decreases rest.len(),
    {
        let ghost krest = stats_models(rest@);
        let ghost kout = stats_models(out@);
        let mut m: usize = 0;
        let mut i: usize = 1;
        while i < rest.len()
            invariant
                m < i <= rest.len(),
                forall|j: int|
                    0 <= j < i ==> metric_key(metric)(#[trigger] stats_models(rest@)[j])
                        <= metric_key(metric)(stats_models(rest@)[m as int]),
            decreases rest.len() - i,
        {
            if metric_value(&rest[i], metric) > metric_value(&rest[m], metric) {
                m = i;
            }
            i += 1;
        }
        let ghost maxm = krest[m as int];
        let e = rest.remove(m);
        out.push(e);
        proof {
            krest.to_multiset_ensures();
            kout.to_multiset_ensures();
            assert(stats_models(rest@) =~= krest.remove(m as int));
            assert(stats_models(out@) =~= kout.push(maxm));
            assert(krest.remove(m as int).to_multiset() =~= krest.to_multiset().remove(maxm));
            let krest2 = krest.remove(m as int);
            let kout2 = kout.push(maxm);
            assert forall|x: StatsModel, k: int|
                #![trigger krest2.to_multiset().count(x), kout2[k]]
                krest2.to_multiset().count(x) > 0 && 0 <= k < kout2.len() implies metric_key(
                metric,
            )(x) <= metric_key(metric)(kout2[k]) by {
                assert(krest.to_multiset().count(x) > 0);
                if k == kout2.len() - 1 {
                    assert(kout2[k] == maxm);
                    assert(krest.contains(x));
                    let jx = choose|jx: int| 0 <= jx < krest.len() && krest[jx] == x;
                    assert(metric_key(metric)(krest[jx]) <= metric_key(metric)(maxm));
                } else {
                    assert(kout2[k] == kout[k]);
                }
            }
            assert(sorted_desc_by(kout2, metric_key(metric))) by {
                assert forall|a: int, b: int|
                    #![trigger metric_key(metric)(kout2[a]), metric_key(metric)(kout2[b])]
                    0 <= a <= b < kout2.len() implies metric_key(metric)(kout2[a]) >= metric_key(
                    metric,
                )(kout2[b]) by {
                    if b < kout.len() {
                        assert(metric_key(metric)(kout[a]) >= metric_key(metric)(kout[b]));
                    } else if a < kout.len() {
                        assert(kout2[b] == maxm);
                        assert(krest.to_multiset().count(maxm) > 0) by {
                            assert(krest.contains(maxm));
                        }
                        assert(metric_key(metric)(maxm) <= metric_key(metric)(kout[a]));
                    }
                }
            }
        }
    }
    proof {
        assert(stats_models(rest@) =~= Seq::<StatsModel>::empty());
    }
    out
}

/// Exec mirror of [`metric_key`].
fn metric_value(s: &ProcessStats, metric: Metric) -> (r: u64)
    ensures
        r as int == metric_key(metric)(s@),
{
    match metric {
        Metric::Cpu => s.cpu_usage,
        Metric::Memory => s.mem_usage,
    }
}

} // verus!
