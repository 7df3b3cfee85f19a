//! Incumbent residuals and their sidecar file.
//!
//! A residual is target less prediction, in output space; a graft adds to the
//! sum before the output's squash, so the search works on the residual expressed
//! there. Both are stored: `NFRS`, the format version, the length of a JSON
//! header, the header, then the residuals and the corrections of every record as
//! little-endian words. Residual statistics are search signals, never acceptance
//! metrics.

use vstd::prelude::*;
use vstd::string::*;

use crate::bins;
use crate::bytes;
use crate::bytes::{push_word, read_word};
use crate::corpus::CorpusInfo;
use crate::floats::{Double, Single};
use crate::histogram;
use crate::incumbent::Incumbent;
use crate::math;
use crate::math::div_ceil_size;
use crate::ranking;
use crate::ranking::Ranked;
use crate::text;
use crate::text::{decimal_text, path_join};

verus! {

/// Sidecar format version.
pub const FORMAT_VERSION: u32 = 1;

/// Residual algorithm version.
pub const ALGORITHM_VERSION: u32 = 1;

/// Largest residuals retained for concentration diagnostics.
pub const TOP_TAIL_RECORDS: usize = 32;

/// Per-output residual statistics.
#[derive(Debug, PartialEq)]
pub struct ResidualStats {
    /// Records.
    pub count: u64,
    /// Mean residual.
    pub mean: Double,
    /// Population variance of the residual.
    pub variance: Double,
    /// Mean absolute residual.
    pub mae: Double,
    /// Sum of squared residuals (output space).
    pub sse: Double,
    /// Mean squared residual.
    pub mse: Double,
    /// Mean squared correction-space residual.
    pub correction_mse: Double,
    /// Smallest residual.
    pub min: Double,
    /// Largest residual.
    pub max: Double,
    /// Quantiles p50, p90, p99 and p999 of the absolute residual.
    pub abs_quantiles: Vec<Double>,
    /// Records beyond two and beyond three standard deviations.
    pub tail_counts: (u64, u64),
    /// Share of the sum of squares that the worst hundredth contributes.
    pub top_percent_sse_share: Double,
    /// Records with the largest absolute residual, and the residual.
    pub top_records: Vec<(u64, Single)>,
    /// Records where the residual was not finite.
    pub non_finite: u64,
}

/// Sidecar header.
#[derive(Debug, PartialEq)]
pub struct ResidualMeta {
    /// Format version.
    pub format_version: u32,
    /// Algorithm version.
    pub algorithm_version: u32,
    /// Incumbent checksum.
    pub incumbent_checksum: String,
    /// Corpus identity.
    pub corpus_identity: String,
    /// Records.
    pub record_count: u64,
    /// Outputs per record.
    pub output_count: usize,
    /// Output squash names.
    pub output_squashes: Vec<String>,
    /// Whole-corpus statistics per output.
    pub stats: Vec<ResidualStats>,
    /// Mean per-record squared error (parity proxy).
    pub local_mse: Double,
    /// The training format supplied sample weights.
    pub has_sample_weights: bool,
    /// Unix seconds.
    pub created_at_unix: u64,
}

/// Residuals for every record of the corpus under one incumbent.
#[derive(Debug, PartialEq)]
pub struct ResidualCache {
    /// Header.
    pub meta: ResidualMeta,
    /// Output-space residuals, record by record.
    pub residual: Vec<Single>,
    /// Correction-space residuals, record by record.
    pub correction: Vec<Single>,
}

/// Errors.
#[derive(Debug)]
pub enum ResidualError {
    /// I/O failure: the path and what went wrong.
    Io(String, String),
    /// Corrupt sidecar.
    Corrupt(String),
    /// Sidecar for a different incumbent or corpus.
    Stale(String),
    /// Creature or corpus failure.
    Other(String),
}

/// What a [`ResidualError`] says.
pub enum ResidualFault {
    Io(Seq<char>, Seq<char>),
    Corrupt(Seq<char>),
    Stale(Seq<char>),
    Other(Seq<char>),
}

impl View for ResidualError {
    type V = ResidualFault;

    open spec fn view(&self) -> ResidualFault {
        match self {
            ResidualError::Io(p, e) => ResidualFault::Io(p@, e@),
            ResidualError::Corrupt(m) => ResidualFault::Corrupt(m@),
            ResidualError::Stale(m) => ResidualFault::Stale(m@),
            ResidualError::Other(m) => ResidualFault::Other(m@),
        }
    }
}

impl ResidualError {
    /// The message shown to the operator.
    pub fn message(&self) -> (r: String)
        ensures
            r@ == (match self@ {
                ResidualFault::Io(p, e) => p + ": "@ + e,
                ResidualFault::Corrupt(m) => "residual cache corrupt: "@ + m,
                ResidualFault::Stale(m) => "residual cache stale: "@ + m,
                ResidualFault::Other(m) => m,
            }),
    {
        match self {
            ResidualError::Io(p, e) => {
                let mut out = p.clone();
                out.append(": ");
                out.append(e.as_str());
                out
            },
            ResidualError::Corrupt(m) => {
                let mut out = "residual cache corrupt: ".to_owned();
                out.append(m.as_str());
                out
            },
            ResidualError::Stale(m) => {
                let mut out = "residual cache stale: ".to_owned();
                out.append(m.as_str());
                out
            },
            ResidualError::Other(m) => m.clone(),
        }
    }

    /// `true` when residuals are to be computed again: a stale or corrupt
    /// sidecar is never reused, and any other failure is reported.
    pub fn calls_for_recompute(&self) -> (r: bool)
        ensures
            r == (self@ is Stale || self@ is Corrupt),
    {
        match self {
            ResidualError::Stale(_) => true,
            ResidualError::Corrupt(_) => true,
            ResidualError::Io(_, _) => false,
            ResidualError::Other(_) => false,
        }
    }
}

// ---------------------------------------------------------------------------
// Computing residuals.
// ---------------------------------------------------------------------------

/// The correction-space residual of an output. An aggregate output applies no
/// squash, so there both residuals coincide; elsewhere it is the distance to the
/// value before the squash, and zero where that value is not finite.
pub open spec fn correction_of(
    aggregate: bool,
    residual: Single,
    before_squash: Single,
    distance: Single,
) -> Single {
    if aggregate {
        residual
    } else if before_squash.finite() {
        distance
    } else {
        Single { bits: 0 }
    }
}

/// The correction-space residual of an output. `before_squash` is the value that
/// the squash would map to the target, `distance` how far it is from the value
/// there is.
pub fn correction(
    aggregate: bool,
    residual: Single,
    before_squash: Single,
    distance: Single,
) -> (r: Single)
    ensures
        r == correction_of(aggregate, residual, before_squash, distance),
{
    if aggregate {
        residual
    } else if before_squash.is_finite() {
        distance
    } else {
        Single::zero()
    }
}

/// Where an output's value before the squash stands in a trace: behind the
/// outputs, behind all non-input activations, and behind the values of the
/// neurons other than outputs.
pub fn hint_offset(outputs: usize, non_input: usize) -> (r: usize)
    requires
        outputs <= non_input,
        2 * non_input <= usize::MAX,
    ensures
        r == outputs + non_input + (non_input - outputs),
{
    outputs + non_input + (non_input - outputs)
}

/// Rows that a worker gets.
pub open spec fn rows_per_worker(records: int, threads: int) -> int {
    let t = if threads >= 1 {
        threads
    } else {
        1
    };
    let per = math::ceil_div(records, t);
    if per >= 1 {
        per
    } else {
        1
    }
}

/// Rows in the runs.
pub open spec fn shared_rows(runs: Seq<(usize, usize)>) -> int
    decreases runs.len(),
{
    if runs.len() == 0 {
        0
    } else {
        shared_rows(runs.drop_last()) + runs.last().1
    }
}

/// Split the rows of a chunk among workers: neighbouring runs of equal length,
/// the last perhaps shorter, that cover every row once.
pub fn worker_rows(records: usize, threads: usize) -> (r: Vec<(usize, usize)>)
    ensures
        shared_rows(r@) == records,
        forall|k: int|
            0 <= k < r@.len() ==> {
                let run = #[trigger] r@[k];
                &&& run.0 == k * rows_per_worker(records as int, threads as int)
                &&& 0 < run.1 <= rows_per_worker(records as int, threads as int)
                &&& run.0 + run.1 <= records
                &&& k + 1 < r@.len() ==> run.1 == rows_per_worker(records as int, threads as int)
            },
{
    let t: usize = if threads >= 1 {
        threads
    } else {
        1
    };
    let wanted: usize = div_ceil_size(records, t);
    let per: usize = if wanted >= 1 {
        wanted
    } else {
        1
    };
    let mut out: Vec<(usize, usize)> = Vec::new();
    let mut start: usize = 0;
    assert(0 * per as int == 0);
    while start < records
        invariant
            per == rows_per_worker(records as int, threads as int),
            per >= 1,
            start <= records,
            start < records ==> start == out@.len() * per,
            shared_rows(out@) == start,
            forall|k: int|
                0 <= k < out@.len() ==> {
                    let run = #[trigger] out@[k];
                    &&& run.0 == k * per
                    &&& 0 < run.1 <= per
                    &&& run.0 + run.1 <= records
                    &&& (k + 1 < out@.len() || start < records) ==> run.1 == per
                },
        decreases records - start,
    {
        let rows: usize = if per <= records - start {
            per
        } else {
            records - start
        };
        let ghost before = out@;
        out.push((start, rows));
        proof {
            assert(out@.drop_last() =~= before);
            assert((before.len() + 1) * per == before.len() * per + per) by (nonlinear_arith);
        }
        start = start + rows;
    }
    out
}

/// Residuals of a whole corpus while they are computed, record by record.
#[derive(Debug)]
pub struct ResidualBuffer {
    /// Output-space residuals.
    pub residual: Vec<Single>,
    /// Correction-space residuals.
    pub correction: Vec<Single>,
}

fn zeros(n: usize) -> (r: Vec<Single>)
    ensures
        r@ == Seq::new(n as nat, |i: int| Single { bits: 0 }),
{
    let mut out: Vec<Single> = Vec::new();
    for i in 0..n
        invariant
            out@ == Seq::new(i as nat, |k: int| Single { bits: 0 }),
    {
        out.push(Single::zero());
        assert(out@ =~= Seq::new((i + 1) as nat, |k: int| Single { bits: 0 }));
    }
    out
}

/// `values` written over `all` from `at` on.
pub open spec fn written(all: Seq<Single>, at: int, values: Seq<Single>) -> Seq<Single> {
    Seq::new(
        all.len(),
        |i: int|
            if at <= i < at + values.len() {
                values[i - at]
            } else {
                all[i]
            },
    )
}

fn write_at(all: &mut Vec<Single>, at: usize, values: &Vec<Single>)
    requires
        at + values@.len() <= old(all)@.len(),
    ensures
        final(all)@ == written(old(all)@, at as int, values@),
{
    let ghost start = all@;
    let total: usize = all.len();
    for i in 0..values.len()
        invariant
            start.len() == total,
            all@.len() == total,
            at + values@.len() <= total,
            all@ == written(start, at as int, values@.take(i as int)),
    {
        all.set(at + i, values[i]);
        assert(all@ =~= written(start, at as int, values@.take(i as int + 1)));
    }
    assert(values@.take(values@.len() as int) =~= values@);
    assert(all@ =~= written(start, at as int, values@));
}

impl ResidualBuffer {
    /// Zeros for every output of every record.
    pub fn new(records: usize, outputs: usize) -> (r: ResidualBuffer)
        requires
            records * outputs <= usize::MAX,
        ensures
            r.residual@ == Seq::new((records * outputs) as nat, |i: int| Single { bits: 0 }),
            r.correction@ == r.residual@,
    {
        let n: usize = records * outputs;
        ResidualBuffer { residual: zeros(n), correction: zeros(n) }
    }

    /// Store the rows of a chunk whose first record is `first_index`.
    pub fn store(
        &mut self,
        first_index: usize,
        outputs: usize,
        residual: &Vec<Single>,
        correction: &Vec<Single>,
    )
        requires
            first_index * outputs + residual@.len() <= old(self).residual@.len(),
            first_index * outputs + correction@.len() <= old(self).correction@.len(),
        ensures
            final(self).residual@ == written(
                old(self).residual@,
                first_index * outputs,
                residual@,
            ),
            final(self).correction@ == written(
                old(self).correction@,
                first_index * outputs,
                correction@,
            ),
    {
        let total: usize = self.residual.len();
        assert(0 <= first_index * outputs) by (nonlinear_arith)
            requires
                0 <= first_index,
                0 <= outputs,
        ;
        let at: usize = first_index * outputs;
        write_at(&mut self.residual, at, residual);
        write_at(&mut self.correction, at, correction);
    }
}

// ---------------------------------------------------------------------------
// Columns and their order.
// ---------------------------------------------------------------------------

/// One output's values out of rows of `outputs`.
pub open spec fn column_of(rows: Seq<Single>, outputs: int, j: int) -> Seq<Single> {
    Seq::new((rows.len() as int / outputs) as nat, |k: int| rows[k * outputs + j])
}

proof fn cell_is_inside(len: int, outputs: int, j: int, k: int)
    by (nonlinear_arith)
    requires
        0 < outputs,
        0 <= j < outputs,
        0 <= k < len / outputs,
        0 <= len,
    ensures
        0 <= k * outputs + j < len,
{
}

/// One output's values out of rows of `outputs`.
pub fn column(rows: &Vec<Single>, outputs: usize, j: usize) -> (r: Vec<Single>)
    requires
        j < outputs,
        rows@.len() as int % outputs as int == 0,
    ensures
        r@ == column_of(rows@, outputs as int, j as int),
{
    let n: usize = rows.len() / outputs;
    let total: usize = rows.len();
    let mut out: Vec<Single> = Vec::new();
    for k in 0..n
        invariant
            j < outputs,
            total == rows@.len(),
            n == total as int / outputs as int,
            out@ == column_of(rows@, outputs as int, j as int).take(k as int),
    {
        proof {
            cell_is_inside(total as int, outputs as int, j as int, k as int);
            assert(0 <= k * outputs) by (nonlinear_arith)
                requires
                    0 <= k,
                    0 < outputs,
            ;
        }
        out.push(rows[k * outputs + j]);
        assert(out@ =~= column_of(rows@, outputs as int, j as int).take(k as int + 1));
    }
    assert(out@ =~= column_of(rows@, outputs as int, j as int));
    out
}

/// A record and the size of its residual.
#[derive(Debug, Clone, Copy)]
pub struct Deviation {
    /// Absolute residual.
    pub size: Single,
    /// Record.
    pub record: u64,
}

impl Ranked for Deviation {
    /// Larger first, then the earlier record.
    open spec fn ahead(&self, other: &Deviation) -> bool {
        if self.size.order() != other.size.order() {
            self.size.order() > other.size.order()
        } else {
            self.record < other.record
        }
    }

    proof fn ahead_is_asymmetric(a: Deviation, b: Deviation) {
    }

    proof fn not_ahead_is_transitive(a: Deviation, b: Deviation, c: Deviation) {
    }

    fn is_ahead(&self, other: &Deviation) -> (r: bool) {
        let a: i64 = self.size.rank();
        let b: i64 = other.size.rank();
        if a != b {
            a > b
        } else {
            self.record < other.record
        }
    }
}

/// The finite values among the first `n`, with their records.
pub open spec fn finite_deviations(values: Seq<Single>, n: int) -> Seq<Deviation>
    decreases n,
{
    if n <= 0 {
        Seq::empty()
    } else if values[n - 1].finite() {
        finite_deviations(values, n - 1).push(
            Deviation {
                size: Single { bits: values[n - 1].magnitude() as u32 },
                record: (n - 1) as u64,
            },
        )
    } else {
        finite_deviations(values, n - 1)
    }
}

/// The finite values by size, largest first.
pub open spec fn by_size(values: Seq<Single>) -> Seq<Deviation> {
    ranking::sorted(finite_deviations(values, values.len() as int))
}

/// How many of the first `n` values are not finite.
pub open spec fn non_finite_among(values: Seq<Single>, n: int) -> nat
    decreases n,
{
    if n <= 0 {
        0
    } else {
        non_finite_among(values, n - 1) + if values[n - 1].finite() {
            0nat
        } else {
            1
        }
    }
}

/// The tail of one output's residuals.
#[derive(Debug)]
pub struct ResidualTail {
    /// Residuals that are not finite.
    pub non_finite: u64,
    /// The finite ones by size, largest first.
    pub deviations: Vec<Deviation>,
    /// How many make the worst hundredth: at least one.
    pub worst: usize,
    /// The records with the largest residuals, and their residuals.
    pub top_records: Vec<(u64, Single)>,
}

/// Sort one output's residuals by size and take their tail.
pub fn residual_tail(values: &Vec<Single>) -> (r: ResidualTail)
    ensures
        r.deviations@ == by_size(values@),
        r.non_finite == non_finite_among(values@, values@.len() as int),
        r.non_finite + r.deviations@.len() == values@.len(),
        r.worst == if by_size(values@).len() / 100 >= 1 {
            by_size(values@).len() / 100
        } else {
            1
        },
        r.top_records@ == histogram::at_most(
            by_size(values@),
            TOP_TAIL_RECORDS as int,
        ).map_values(|d: Deviation| (d.record, values@[d.record as int])),
{
    let mut items: Vec<Deviation> = Vec::new();
    let mut bad: u64 = 0;
    let total: usize = values.len();
    for i in 0..total
        invariant
            total == values@.len(),
            items@ == finite_deviations(values@, i as int),
            bad == non_finite_among(values@, i as int),
            bad + items@.len() == i,
            forall|k: int| 0 <= k < items@.len() ==> (#[trigger] items@[k]).record < total,
    {
        if values[i].is_finite() {
            items.push(Deviation { size: values[i].abs(), record: i as u64 });
        } else {
            bad = bad + 1;
        }
    }
    let order = ranking::ranking(&items);
    let ghost sorted = by_size(values@);
    let mut deviations: Vec<Deviation> = Vec::new();
    let mut top: Vec<(u64, Single)> = Vec::new();
    let ghost mark = |d: Deviation| (d.record, values@[d.record as int]);
    for k in 0..order.len()
        invariant
            total == values@.len(),
            ranking::is_ranking(items@, order@),
            order@ == ranking::the_ranking(items@),
            sorted == ranking::sorted(items@),
            forall|k: int| 0 <= k < items@.len() ==> (#[trigger] items@[k]).record < total,
            deviations@ == sorted.take(k as int),
            mark == (|d: Deviation| (d.record, values@[d.record as int])),
            top@ == histogram::at_most(
                sorted.take(k as int),
                TOP_TAIL_RECORDS as int,
            ).map_values(mark),
    {
        let d: Deviation = items[order[k]];
        assert(sorted[k as int] == d);
        deviations.push(d);
        assert(deviations@ =~= sorted.take(k as int + 1));
        if k < TOP_TAIL_RECORDS {
            top.push((d.record, values[d.record as usize]));
            assert(top@ =~= histogram::at_most(
                sorted.take(k as int + 1),
                TOP_TAIL_RECORDS as int,
            ).map_values(mark));
        } else {
            assert(histogram::at_most(sorted.take(k as int + 1), TOP_TAIL_RECORDS as int)
                =~= histogram::at_most(sorted.take(k as int), TOP_TAIL_RECORDS as int));
        }
    }
    assert(sorted.take(order@.len() as int) =~= sorted);
    let worst: usize = if deviations.len() / 100 >= 1 {
        deviations.len() / 100
    } else {
        1
    };
    ResidualTail { non_finite: bad, deviations, worst, top_records: top }
}

impl ResidualTail {
    /// The size at place `k` from the top, or the smallest when there are not
    /// that many; `None` when there is none.
    pub fn size_at(&self, k: usize) -> (r: Option<Single>)
        ensures
            r == if self.deviations@.len() == 0 {
                None
            } else if k < self.deviations@.len() {
                Some(self.deviations@[k as int].size)
            } else {
                Some(self.deviations@.last().size)
            },
    {
        let n: usize = self.deviations.len();
        if n == 0 {
            None
        } else if k < n {
            Some(self.deviations[k].size)
        } else {
            Some(self.deviations[n - 1].size)
        }
    }
}

/// How many of the sizes are above the limit.
pub fn count_above(sizes: &Vec<Double>, limit: Double) -> (r: u64)
    ensures
        r == sizes@.filter(|x: Double| x.above(limit)).len(),
{
    let mut n: u64 = 0;
    let ghost over = |x: Double| x.above(limit);
    let total: usize = sizes.len();
    for i in 0..total
        invariant
            total == sizes@.len(),
            over == (|x: Double| x.above(limit)),
            n == sizes@.take(i as int).filter(over).len(),
            n <= i,
    {
        proof {
            reveal(Seq::filter);
            assert(sizes@.take(i as int + 1).drop_last() =~= sizes@.take(i as int));
        }
        if sizes[i].gt(limit) {
            n = n + 1;
        }
    }
    assert(sizes@.take(sizes@.len() as int) =~= sizes@);
    n
}

// ---------------------------------------------------------------------------
// The sidecar.
// ---------------------------------------------------------------------------

/// The four bytes that a sidecar starts with.
pub open spec fn magic() -> Seq<u8> {
    seq![0x4eu8, 0x46u8, 0x52u8, 0x53u8]
}

/// The whole file.
pub open spec fn layout(json: Seq<u8>, residual: Seq<Single>, correction: Seq<Single>) -> Seq<u8> {
    magic() + bytes::le32(FORMAT_VERSION) + bytes::le32(json.len() as u32) + json
        + bins::singles_bytes(residual) + bins::singles_bytes(correction)
}

/// Where the JSON header lies, or why there is none.
pub open spec fn header_span(data: Seq<u8>) -> Result<(int, int), ResidualFault> {
    if data.len() < 12 || data.take(4) != magic() {
        Err(ResidualFault::Corrupt("bad magic"@))
    } else if bytes::word_at(data, 4) != FORMAT_VERSION {
        Err(
            ResidualFault::Stale(
                "format "@ + text::decimal(bytes::word_at(data, 4) as nat),
            ),
        )
    } else if 12 + bytes::word_at(data, 8) > data.len() {
        Err(ResidualFault::Corrupt("truncated header"@))
    } else {
        Ok((12, 12 + bytes::word_at(data, 8) as int))
    }
}

/// Values that a header announces.
pub open spec fn announced(meta: ResidualMeta) -> int {
    meta.record_count * meta.output_count
}

/// What a sidecar holds, or why it cannot be read. `parsed` is what the header's
/// JSON turned out to say.
pub open spec fn read_sidecar(data: Seq<u8>, parsed: Result<ResidualMeta, String>) -> Result<
    (ResidualMeta, Seq<Single>, Seq<Single>),
    ResidualFault,
> {
    match header_span(data) {
        Err(e) => Err(e),
        Ok((_, end)) => match parsed {
            Err(m) => Err(ResidualFault::Corrupt(m@)),
            Ok(meta) => {
                let n = announced(meta);
                if data.len() - end != 8 * n {
                    Err(
                        ResidualFault::Corrupt(
                            "expected "@ + text::decimal((8 * n) as nat) + " payload bytes, found "@
                                + text::decimal((data.len() - end) as nat),
                        ),
                    )
                } else {
                    Ok(
                        (
                            meta,
                            bins::singles_at(data, end, n as nat),
                            bins::singles_at(data, end + 4 * n, n as nat),
                        ),
                    )
                }
            },
        },
    }
}

/// The bytes of the JSON header, as a range, of a file that starts like a
/// sidecar.
pub fn header_range(data: &[u8]) -> (r: Result<(usize, usize), ResidualError>)
    ensures
        match header_span(data@) {
            Ok((a, b)) => r matches Ok(range) && range.0 == a && range.1 == b && a <= b
                <= data@.len(),
            Err(e) => r matches Err(x) && x@ == e,
        },
{
    let is_sidecar = data.len() >= 12 && data[0] == 0x4e && data[1] == 0x46 && data[2] == 0x52
        && data[3] == 0x53;
    proof {
        if data@.len() >= 12 {
            let m = data@.take(4);
            assert(m[0] == data@[0] && m[1] == data@[1] && m[2] == data@[2] && m[3] == data@[3]);
            if is_sidecar {
                assert(m =~= magic());
            } else {
                assert(magic()[0] == 0x4e && magic()[1] == 0x46 && magic()[2] == 0x52
                    && magic()[3] == 0x53);
            }
        }
    }
    if !is_sidecar {
        return Err(ResidualError::Corrupt("bad magic".to_owned()));
    }
    let format: u32 = read_word(data, 4);
    if format != FORMAT_VERSION {
        let mut m = "format ".to_owned();
        m.append(decimal_text(format as u64).as_str());
        return Err(ResidualError::Stale(m));
    }
    let json_len: usize = read_word(data, 8) as usize;
    if json_len > data.len() - 12 {
        return Err(ResidualError::Corrupt("truncated header".to_owned()));
    }
    Ok((12, 12 + json_len))
}

impl ResidualCache {
    /// The value vectors have the announced length.
    pub open spec fn well_formed(&self) -> bool {
        self.residual@.len() == announced(self.meta) && self.correction@.len() == announced(
            self.meta,
        )
    }

    /// Parse the documented binary layout. `parsed` is what the header's JSON
    /// (see [`header_range`]) turned out to say.
    pub fn from_bytes(data: &[u8], parsed: Result<ResidualMeta, String>) -> (r: Result<
        ResidualCache,
        ResidualError,
    >)
        requires
            parsed matches Ok(meta) ==> 8 * announced(meta) <= usize::MAX && meta.record_count
                <= usize::MAX,
        ensures
            match read_sidecar(data@, parsed) {
                Ok((meta, residual, correction)) => r matches Ok(c) && c.meta == meta
                    && c.residual@ == residual && c.correction@ == correction && c.well_formed(),
                Err(e) => r matches Err(x) && x@ == e,
            },
    {
        let (_, end) = match header_range(data) {
            Ok(range) => range,
            Err(e) => {
                return Err(e);
            },
        };
        let meta = match parsed {
            Ok(meta) => meta,
            Err(m) => {
                return Err(ResidualError::Corrupt(m));
            },
        };
        proof {
            assert(0 <= announced(meta)) by (nonlinear_arith)
                requires
                    announced(meta) == meta.record_count * meta.output_count,
                    0 <= meta.record_count,
                    0 <= meta.output_count,
            ;
        }
        let n: usize = meta.record_count as usize * meta.output_count;
        let total: usize = data.len();
        let payload: usize = total - end;
        if payload != n * 8 {
            let mut m = "expected ".to_owned();
            m.append(decimal_text((n * 8) as u64).as_str());
            m.append(" payload bytes, found ");
            m.append(decimal_text(payload as u64).as_str());
            return Err(ResidualError::Corrupt(m));
        }
        let residual = bins::read_singles(data, end, n);
        let correction = bins::read_singles(data, end + n * 4, n);
        Ok(ResidualCache { meta, residual, correction })
    }

    /// The documented binary layout, around the header's JSON.
    pub fn to_bytes(&self, json: &Vec<u8>) -> (r: Vec<u8>)
        ensures
            r@ == layout(json@, self.residual@, self.correction@),
    {
        let mut out: Vec<u8> = Vec::new();
        out.push(0x4e);
        out.push(0x46);
        out.push(0x52);
        out.push(0x53);
        assert(out@ =~= magic());
        push_word(&mut out, FORMAT_VERSION);
        push_word(&mut out, json.len() as u32);
        out.extend_from_slice(json.as_slice());
        let ghost head = magic() + bytes::le32(FORMAT_VERSION) + bytes::le32(json@.len() as u32)
            + json@;
        assert(out@ =~= head);
        push_singles(&mut out, &self.residual);
        push_singles(&mut out, &self.correction);
        out
    }

    /// Output-space residual of `record` for `output`.
    pub fn residual_at(&self, record: usize, output: usize) -> (r: Single)
        requires
            record * self.meta.output_count + output < self.residual@.len(),
        ensures
            r == self.residual@[record * self.meta.output_count + output],
    {
        let total: usize = self.residual.len();
        assert(0 <= record * self.meta.output_count) by (nonlinear_arith)
            requires
                0 <= record,
                0 <= self.meta.output_count,
        ;
        self.residual[record * self.meta.output_count + output]
    }

    /// Correction-space residual of `record` for `output`.
    pub fn correction_at(&self, record: usize, output: usize) -> (r: Single)
        requires
            record * self.meta.output_count + output < self.correction@.len(),
        ensures
            r == self.correction@[record * self.meta.output_count + output],
    {
        let total: usize = self.correction.len();
        assert(0 <= record * self.meta.output_count) by (nonlinear_arith)
            requires
                0 <= record,
                0 <= self.meta.output_count,
        ;
        self.correction[record * self.meta.output_count + output]
    }

    /// Correction-space residuals for one output.
    pub fn correction_column(&self, output: usize) -> (r: Vec<Single>)
        requires
            output < self.meta.output_count,
            self.well_formed(),
        ensures
            r@ == column_of(self.correction@, self.meta.output_count as int, output as int),
    {
        proof {
            vstd::arithmetic::div_mod::lemma_mod_multiples_basic(
                self.meta.record_count as int,
                self.meta.output_count as int,
            );
        }
        column(&self.correction, self.meta.output_count, output)
    }

    /// Check that the sidecar belongs to the incumbent and the corpus.
    pub fn check_compatible(&self, incumbent: &Incumbent, corpus: &CorpusInfo) -> (r: Result<
        (),
        ResidualError,
    >)
        ensures
            match r {
                Ok(()) => incompatibility(self.meta, *incumbent, *corpus) is None,
                Err(e) => incompatibility(self.meta, *incumbent, *corpus) == Some(e@),
            },
    {
        if self.meta.algorithm_version != ALGORITHM_VERSION {
            return Err(ResidualError::Stale("algorithm version".to_owned()));
        }
        if self.meta.incumbent_checksum != incumbent.checksum {
            return Err(ResidualError::Stale("incumbent checksum differs".to_owned()));
        }
        if self.meta.corpus_identity != corpus.identity || self.meta.record_count
            != corpus.record_count {
            return Err(ResidualError::Stale("corpus differs".to_owned()));
        }
        Ok(())
    }
}

fn push_singles(out: &mut Vec<u8>, values: &Vec<Single>)
    ensures
        final(out)@ == old(out)@ + bins::singles_bytes(values@),
{
    let ghost start = out@;
    assert(values@.skip(0) =~= values@);
    for i in 0..values.len()
        invariant
            out@ + bins::singles_bytes(values@.skip(i as int)) == start + bins::singles_bytes(
                values@,
            ),
    {
        let ghost at = out@;
        let ghost rest = values@.skip(i as int);
        push_word(out, values[i].bits);
        proof {
            assert(rest[0] == values@[i as int]);
            assert(rest.drop_first() =~= values@.skip(i as int + 1));
            assert(at + (bytes::le32(rest[0].bits) + bins::singles_bytes(rest.drop_first()))
                =~= out@ + bins::singles_bytes(rest.drop_first()));
        }
    }
    assert(values@.skip(values@.len() as int) =~= Seq::empty());
    assert(out@ + Seq::<u8>::empty() =~= out@);
}

/// Why a sidecar does not belong to the incumbent and the corpus, if it does
/// not.
pub open spec fn incompatibility(
    meta: ResidualMeta,
    incumbent: Incumbent,
    corpus: CorpusInfo,
) -> Option<ResidualFault> {
    if meta.algorithm_version != ALGORITHM_VERSION {
        Some(ResidualFault::Stale("algorithm version"@))
    } else if meta.incumbent_checksum@ != incumbent.checksum@ {
        Some(ResidualFault::Stale("incumbent checksum differs"@))
    } else if meta.corpus_identity@ != corpus.identity@ || meta.record_count
        != corpus.record_count {
        Some(ResidualFault::Stale("corpus differs"@))
    } else {
        None
    }
}

/// Sidecar path for an incumbent.
pub fn cache_path(cache_dir: &str, incumbent: &Incumbent) -> (r: String)
    requires
        incumbent.well_formed(),
    ensures
        r@ == text::path_text(
            cache_dir@,
            "forests-residuals-"@ + incumbent.checksum@.take(12) + ".cache"@,
        ),
{
    let mut name = "forests-residuals-".to_owned();
    name.append(incumbent.short_checksum().as_str());
    name.append(".cache");
    path_join(cache_dir, name.as_str())
}

/// The sidecar of computed residuals.
pub fn assemble_residuals(
    incumbent: &Incumbent,
    corpus: &CorpusInfo,
    output_squashes: Vec<String>,
    stats: Vec<ResidualStats>,
    local_mse: Double,
    buffer: ResidualBuffer,
    now_unix: u64,
) -> (r: ResidualCache)
    ensures
        r.residual == buffer.residual,
        r.correction == buffer.correction,
        r.meta.format_version == FORMAT_VERSION,
        r.meta.algorithm_version == ALGORITHM_VERSION,
        r.meta.incumbent_checksum@ == incumbent.checksum@,
        r.meta.corpus_identity@ == corpus.identity@,
        r.meta.record_count == corpus.record_count,
        r.meta.output_count == incumbent.creature.output,
        r.meta.output_squashes == output_squashes,
        r.meta.stats == stats,
        r.meta.local_mse == local_mse,
        !r.meta.has_sample_weights,
        r.meta.created_at_unix == now_unix,
        incompatibility(r.meta, *incumbent, *corpus) is None,
{
    ResidualCache {
        meta: ResidualMeta {
            format_version: FORMAT_VERSION,
            algorithm_version: ALGORITHM_VERSION,
            incumbent_checksum: incumbent.checksum.clone(),
            corpus_identity: corpus.identity.clone(),
            record_count: corpus.record_count,
            output_count: incumbent.creature.output,
            output_squashes,
            stats,
            local_mse,
            has_sample_weights: false,
            created_at_unix: now_unix,
        },
        residual: buffer.residual,
        correction: buffer.correction,
    }
}

/// A written sidecar reads back: the header's JSON lies where it was put, and
/// once it is parsed the values are those that were written.
pub proof fn written_sidecar_reads_back(
    json: Seq<u8>,
    meta: ResidualMeta,
    residual: Seq<Single>,
    correction: Seq<Single>,
)
    requires
        json.len() <= u32::MAX,
        residual.len() == announced(meta),
        correction.len() == announced(meta),
    ensures
        header_span(layout(json, residual, correction)) == Ok::<(int, int), ResidualFault>(
            (12, 12 + json.len() as int),
        ),
        layout(json, residual, correction).subrange(12, 12 + json.len() as int) == json,
        read_sidecar(layout(json, residual, correction), Ok(meta)) == Ok::<
            (ResidualMeta, Seq<Single>, Seq<Single>),
            ResidualFault,
        >((meta, residual, correction)),
{
    let data = layout(json, residual, correction);
    let n = announced(meta);
    let end = 12 + json.len() as int;
    bins::singles_bytes_len(residual);
    bins::singles_bytes_len(correction);
    assert(data.take(4) =~= magic());
    assert(data.subrange(4, 8) =~= bytes::le32(FORMAT_VERSION));
    bytes::word_round_trips(FORMAT_VERSION, data, 4);
    assert(data.subrange(8, 12) =~= bytes::le32(json.len() as u32));
    bytes::word_round_trips(json.len() as u32, data, 8);
    assert(data.subrange(12, end) =~= json);
    assert(data.subrange(end, end + 4 * n) =~= bins::singles_bytes(residual));
    assert(data.subrange(end + 4 * n, end + 8 * n) =~= bins::singles_bytes(correction));
    bins::singles_round_trip(data, end, residual);
    bins::singles_round_trip(data, end + 4 * n, correction);
    assert(bins::singles_at(data, end, n as nat) =~= residual);
    assert(bins::singles_at(data, end + 4 * n, n as nat) =~= correction);
}

/// No more runs of rows are handed out than there are workers, and each but the
/// last is as long as any.
pub proof fn workers_get_one_run_each(records: int, threads: int)
    requires
        0 <= records,
        1 <= threads,
    ensures
        rows_per_worker(records, threads) >= 1,
        rows_per_worker(records, threads) * threads >= records,
        records > 0 ==> (rows_per_worker(records, threads) - 1) * threads < records,
{
    math::ceil_div_by_remainder(records, threads);
    if records > 0 {
        math::ceil_div_is_the_smallest(records, threads, math::ceil_div(records, threads));
    } else {
        assert(rows_per_worker(records, threads) * threads >= 0) by (nonlinear_arith)
            requires
                rows_per_worker(records, threads) >= 1,
                threads >= 1,
        ;
    }
    assert(math::ceil_div(records, threads) * threads >= records);
}

/// The number of values that are not finite.
pub proof fn non_finite_values_are_counted(values: Seq<Single>, n: int)
    requires
        0 <= n <= values.len(),
    ensures
        non_finite_among(values, n) == values.take(n).filter(|v: Single| !v.finite()).len(),
    decreases n,
{
    reveal(Seq::filter);
    if n > 0 {
        non_finite_values_are_counted(values, n - 1);
        assert(values.take(n).drop_last() =~= values.take(n - 1));
        assert(values.take(n).last() == values[n - 1]);
    }
}

/// The deviation is that of a record: its size is the record's value without the
/// sign.
pub open spec fn deviates(values: Seq<Single>, d: Deviation, record: int) -> bool {
    &&& 0 <= record < values.len()
    &&& d.record == record
    &&& d.size.bits == values[record].bits % 0x8000_0000
    &&& values[record].finite()
}

proof fn deviations_so_far(values: Seq<Single>, n: int)
    requires
        0 <= n <= values.len() <= u64::MAX,
    ensures
        forall|k: int|
            0 <= k < finite_deviations(values, n).len() ==> {
                let d = #[trigger] finite_deviations(values, n)[k];
                d.record < n && deviates(values, d, d.record as int)
            },
        forall|i: int, j: int|
            0 <= i < j < finite_deviations(values, n).len() ==> (#[trigger] finite_deviations(
                values,
                n,
            )[i]).record < (#[trigger] finite_deviations(values, n)[j]).record,
        forall|r: int|
            0 <= r < n && (#[trigger] values[r]).finite() ==> exists|k: int|
                0 <= k < finite_deviations(values, n).len() && deviates(
                    values,
                    #[trigger] finite_deviations(values, n)[k],
                    r,
                ),
        finite_deviations(values, n).len() <= n,
    decreases n,
{
    if n > 0 {
        deviations_so_far(values, n - 1);
        let before = finite_deviations(values, n - 1);
        let all = finite_deviations(values, n);
        assert forall|r: int| 0 <= r < n && (#[trigger] values[r]).finite() implies exists|k: int|
            0 <= k < all.len() && deviates(values, #[trigger] all[k], r) by {
            if r < n - 1 {
                let k = choose|k: int|
                    0 <= k < before.len() && deviates(values, #[trigger] before[k], r);
                assert(all[k] == before[k]);
            } else {
                assert(deviates(values, all[before.len() as int], r));
            }
        }
    }
}

/// Residuals are listed by size: every entry is that of a finite residual, larger
/// ones come first, and of two of the same size the earlier record; a residual that
/// is not finite has none.
pub proof fn deviations_are_listed_by_size(values: Seq<Single>)
    requires
        values.len() <= u64::MAX,
        values.len() <= usize::MAX,
    ensures
        forall|k: int|
            0 <= k < by_size(values).len() ==> deviates(
                values,
                #[trigger] by_size(values)[k],
                by_size(values)[k].record as int,
            ),
        forall|a: int, b: int|
            0 <= a < b < by_size(values).len() ==> {
                let x = #[trigger] by_size(values)[a];
                let y = #[trigger] by_size(values)[b];
                x.size.bits > y.size.bits || (x.size.bits == y.size.bits && x.record < y.record)
            },
        by_size(values).len() + values.filter(|v: Single| !v.finite()).len() == values.len(),
{
    let found = finite_deviations(values, values.len() as int);
    deviations_so_far(values, values.len() as int);
    ranking::every_list_has_a_ranking(found);
    let order = ranking::the_ranking(found);
    ranking::sorted_is_in_order(found, order);
    assert forall|k: int| 0 <= k < by_size(values).len() implies deviates(
        values,
        #[trigger] by_size(values)[k],
        by_size(values)[k].record as int,
    ) by {
        assert(by_size(values)[k] == found[order[k] as int]);
    }
    assert forall|a: int, b: int| 0 <= a < b < by_size(values).len() implies {
        let x = #[trigger] by_size(values)[a];
        let y = #[trigger] by_size(values)[b];
        x.size.bits > y.size.bits || (x.size.bits == y.size.bits && x.record < y.record)
    } by {
        let x = by_size(values)[a];
        let y = by_size(values)[b];
        assert(x == found[order[a] as int]);
        assert(y == found[order[b] as int]);
        assert(ranking::listed_before(found, order[a] as int, order[b] as int));
        if x.size.bits == y.size.bits && !x.ahead(&y) {
            assert(order[a] < order[b]);
            assert(found[order[a] as int].record < found[order[b] as int].record);
        }
    }
    counts_make_the_whole(values, values.len() as int);
    non_finite_values_are_counted(values, values.len() as int);
    assert(values.take(values.len() as int) =~= values);
}

proof fn counts_make_the_whole(values: Seq<Single>, n: int)
    requires
        0 <= n <= values.len(),
    ensures
        finite_deviations(values, n).len() + non_finite_among(values, n) == n,
    decreases n,
{
    if n > 0 {
        counts_make_the_whole(values, n - 1);
    }
}

/// An output that squashes nothing is corrected by its residual; any other by the
/// distance before the squash, and not at all where no finite value would do.
pub proof fn corrections_are_finite_or_the_residual(
    residual: Single,
    before_squash: Single,
    distance: Single,
)
    ensures
        correction_of(true, residual, before_squash, distance) == residual,
        before_squash.finite() ==> correction_of(false, residual, before_squash, distance)
            == distance,
        !before_squash.finite() ==> correction_of(false, residual, before_squash, distance).bits
            == 0,
{
}

/// Storing a chunk changes the values of its own rows and no others.
pub proof fn chunks_are_stored_in_place(all: Seq<Single>, at: int, values: Seq<Single>, i: int)
    requires
        0 <= at,
        at + values.len() <= all.len(),
        0 <= i < all.len(),
    ensures
        written(all, at, values).len() == all.len(),
        i < at ==> written(all, at, values)[i] == all[i],
        i >= at + values.len() ==> written(all, at, values)[i] == all[i],
        0 <= i < values.len() ==> written(all, at, values)[at + i] == values[i],
{
}

/// A sidecar is used again only for the very incumbent and corpus that it was
/// computed for, by the same algorithm; and for those it is.
pub proof fn sidecars_fit_their_own_incumbent(
    meta: ResidualMeta,
    incumbent: Incumbent,
    corpus: CorpusInfo,
)
    ensures
        incompatibility(meta, incumbent, corpus) is None <==> {
            &&& meta.algorithm_version == 1
            &&& meta.incumbent_checksum@ == incumbent.checksum@
            &&& meta.corpus_identity@ == corpus.identity@
            &&& meta.record_count == corpus.record_count
        },
        incompatibility(meta, incumbent, corpus) matches Some(fault) ==> fault is Stale,
{
}

/// Values are read only out of a file that starts as sidecars do, in their format
/// version, and that holds exactly the announced values behind its header.
pub proof fn damaged_sidecars_are_refused(data: Seq<u8>, parsed: Result<ResidualMeta, String>)
    requires
        read_sidecar(data, parsed) is Ok,
    ensures
        ({
            let (meta, residual, correction) = read_sidecar(data, parsed)->Ok_0;
            let end = 12 + bytes::word_at(data, 8);
            let n = meta.record_count * meta.output_count;
            &&& data.len() == end + 8 * n
            &&& data[0] == 0x4e && data[1] == 0x46 && data[2] == 0x52 && data[3] == 0x53
            &&& bytes::word_at(data, 4) == 1
            &&& parsed == Ok::<ResidualMeta, String>(meta)
            &&& residual.len() == n
            &&& correction.len() == n
            &&& forall|i: int|
                0 <= i < n ==> (#[trigger] residual[i]).bits == bytes::word_at(data, end + 4 * i)
            &&& forall|i: int|
                0 <= i < n ==> (#[trigger] correction[i]).bits == bytes::word_at(
                    data,
                    end + 4 * n + 4 * i,
                )
        }),
{
    let meta = parsed->Ok_0;
    assert(0 <= announced(meta)) by (nonlinear_arith)
        requires
            announced(meta) == meta.record_count * meta.output_count,
    ;
    assert(data.take(4)[0] == magic()[0]);
    assert(data.take(4)[1] == magic()[1]);
    assert(data.take(4)[2] == magic()[2]);
    assert(data.take(4)[3] == magic()[3]);
}

} // verus!
