//! What the library needs to know of a training corpus.

use vstd::prelude::*;

use crate::bytes;
use crate::bytes::read_word;
use crate::floats::Single;

verus! {

/// Identity and shape of a corpus.
#[derive(Debug, PartialEq)]
pub struct CorpusInfo {
    /// Content identity.
    pub identity: String,
    /// Records.
    pub record_count: u64,
    /// Inputs per record.
    pub input_count: usize,
    /// Outputs per record.
    pub output_count: usize,
}

impl Clone for CorpusInfo {
    fn clone(&self) -> (r: CorpusInfo)
        ensures
            r == *self,
    {
        CorpusInfo {
            identity: self.identity.clone(),
            record_count: self.record_count,
            input_count: self.input_count,
            output_count: self.output_count,
        }
    }
}

/// A run of neighbouring records, row by row.
#[derive(Debug, PartialEq)]
pub struct Chunk {
    /// Index of the first record in the corpus.
    pub first_index: u64,
    /// Records in the chunk.
    pub records: usize,
    /// `records × inputs` values.
    pub inputs: Vec<Single>,
    /// `records × outputs` values.
    pub targets: Vec<Single>,
}

/// Records in a file of `size` bytes, each of `width` 32-bit values; `None` when
/// the size is no whole number of records.
pub fn records_in(size: u64, width: usize) -> (r: Option<u64>)
    requires
        4 * width <= usize::MAX,
    ensures
        r == if width > 0 && size as int % (4 * width) == 0 {
            Some((size as int / (4 * width)) as u64)
        } else {
            None
        },
{
    let record: u64 = (4 * width) as u64;
    if record == 0 || size % record != 0 {
        None
    } else {
        Some(size / record)
    }
}

/// The `k`-th value of a file.
pub open spec fn value_at(data: Seq<u8>, k: int) -> Single {
    Single { bits: bytes::word_at(data, 4 * k) }
}

/// `n` values of record `r`, from its value `from` on.
pub open spec fn record_values(data: Seq<u8>, width: int, from: int, n: int, r: int) -> Seq<Single> {
    Seq::new(n as nat, |i: int| value_at(data, r * width + from + i))
}

/// The same of the first `records` records, one after another.
pub open spec fn all_values(data: Seq<u8>, width: int, from: int, n: int, records: int) -> Seq<Single>
    decreases records,
{
    if records <= 0 {
        Seq::empty()
    } else {
        all_values(data, width, from, n, records - 1) + record_values(
            data,
            width,
            from,
            n,
            records - 1,
        )
    }
}

fn push_values(out: &mut Vec<Single>, data: &[u8], start: usize, n: usize)
    requires
        4 * (start + n) <= data@.len(),
    ensures
        final(out)@ == old(out)@ + Seq::new(n as nat, |i: int| value_at(data@, start + i)),
{
    let ghost before = out@;
    let total: usize = data.len();
    assert(out@ =~= before + Seq::new(0nat, |i: int| value_at(data@, start + i)));
    for i in 0..n
        invariant
            total == data@.len(),
            4 * (start + n) <= total,
            out@ == before + Seq::new(i as nat, |k: int| value_at(data@, start + k)),
    {
        let bits: u32 = read_word(data, 4 * (start + i));
        out.push(Single { bits });
        assert(out@ =~= before + Seq::new((i + 1) as nat, |k: int| value_at(data@, start + k)));
    }
}

impl Chunk {
    /// The chunk that the bytes of `records` records hold, inputs before targets
    /// in each.
    pub fn from_bytes(
        data: &[u8],
        first_index: u64,
        records: usize,
        inputs: usize,
        outputs: usize,
    ) -> (r: Chunk)
        requires
            inputs + outputs <= usize::MAX,
            data@.len() == 4 * (records * (inputs + outputs)),
        ensures
            r.first_index == first_index,
            r.records == records,
            r.inputs@ == all_values(
                data@,
                inputs + outputs,
                0,
                inputs as int,
                records as int,
            ),
            r.targets@ == all_values(
                data@,
                inputs + outputs,
                inputs as int,
                outputs as int,
                records as int,
            ),
            r.inputs@.len() == records * inputs,
            r.targets@.len() == records * outputs,
    {
        let width: usize = inputs + outputs;
        let total: usize = data.len();
        let mut xs: Vec<Single> = Vec::new();
        let mut ys: Vec<Single> = Vec::new();
        let mut at: usize = 0;
        assert(0 * width == 0 && 0 * inputs == 0 && 0 * outputs == 0) by (nonlinear_arith);
        for r in 0..records
            invariant
                width == inputs + outputs,
                total == data@.len(),
                total == 4 * (records * width),
                at == r * width,
                xs@ == all_values(data@, width as int, 0, inputs as int, r as int),
                ys@ == all_values(data@, width as int, inputs as int, outputs as int, r as int),
                xs@.len() == r * inputs,
                ys@.len() == r * outputs,
        {
            assert(r * width + width <= records * width) by (nonlinear_arith)
                requires
                    r + 1 <= records,
                    0 <= width,
            ;
            assert((r + 1) * width == r * width + width) by (nonlinear_arith);
            assert((r + 1) * inputs == r * inputs + inputs) by (nonlinear_arith);
            assert((r + 1) * outputs == r * outputs + outputs) by (nonlinear_arith);
            push_values(&mut xs, data, at, inputs);
            push_values(&mut ys, data, at + inputs, outputs);
            assert(xs@ =~= all_values(data@, width as int, 0, inputs as int, r + 1));
            assert(ys@ =~= all_values(data@, width as int, inputs as int, outputs as int, r + 1));
            at = at + width;
        }
        Chunk { first_index, records, inputs: xs, targets: ys }
    }
}

/// Records stand one after another, and the values of a record in their order: value
/// `i` of record `r` of what is taken is value `from + i` of that record in the file.
pub proof fn values_keep_their_records(
    data: Seq<u8>,
    width: int,
    from: int,
    n: int,
    records: int,
    r: int,
    i: int,
)
    requires
        0 <= r < records,
        0 <= i < n,
    ensures
        all_values(data, width, from, n, records).len() == records * n,
        0 <= r * n + i < records * n,
        all_values(data, width, from, n, records)[r * n + i].bits == bytes::word_at(
            data,
            4 * (r * width + from + i),
        ),
    decreases records,
{
    let before = all_values(data, width, from, n, records - 1);
    let last = record_values(data, width, from, n, records - 1);
    assert(all_values(data, width, from, n, records) == before + last);
    count_of_values(data, width, from, n, records - 1);
    assert(records * n == (records - 1) * n + n) by (nonlinear_arith);
    assert(0 <= r * n && r * n + i < records * n) by (nonlinear_arith)
        requires
            0 <= r < records,
            0 <= i < n,
    ;
    if r < records - 1 {
        values_keep_their_records(data, width, from, n, records - 1, r, i);
        assert((before + last)[r * n + i] == before[r * n + i]);
    } else {
        assert((before + last)[r * n + i] == last[i]);
    }
}

proof fn count_of_values(data: Seq<u8>, width: int, from: int, n: int, records: int)
    requires
        0 <= records,
        0 <= n,
    ensures
        all_values(data, width, from, n, records).len() == records * n,
    decreases records,
{
    if records > 0 {
        count_of_values(data, width, from, n, records - 1);
        assert(records * n == (records - 1) * n + n) by (nonlinear_arith);
    } else {
        assert(records * n == 0) by (nonlinear_arith)
            requires
                records == 0,
        ;
    }
}

} // verus!
