//! The streaming reader: a lazy, forward-only, one-shot sequence of
//! records over a byte stream.
//!
//! Each pull reads one record. A well-formed record is yielded and the
//! byte accumulator grows by exactly that record's on-wire length. An
//! orderly end of the stream ends the sequence. Any other failure is
//! yielded once, the accumulator is left at the last record boundary, and
//! the reader is terminated for good: no resynchronization is ever
//! attempted.

use vstd::prelude::*;

use crate::error::WarcError;
use crate::record::{outcome_matches, WarcRecord};
use crate::wire::{lemma_record_extent, spec_parse, SpecOutcome, SpecRecord};

verus! {

/// The reader's abstract state: the stream, how many bytes of it belong to
/// records already yielded, and whether the reader is still alive.
pub ghost struct ReaderModel {
    pub data: Seq<u8>,
    pub sum: int,
    pub active: bool,
}

/// What one pull yields.
pub ghost enum SpecYield {
    /// A record, consuming `len` stream bytes.
    Item { rec: SpecRecord, len: int },
    /// A structural violation, with its reason.
    Failed { reason: Seq<char> },
    /// A truncated stream.
    Cut,
    /// Nothing: the sequence has ended.
    Quiet,
}

/// One pull of the reader: parse at the accumulator, yield the outcome,
/// and move to the next state. A terminated reader stays terminated and
/// yields nothing; a clean end of stream yields nothing but does not
/// terminate; any other failure terminates without moving the
/// accumulator.
pub open spec fn model_step(m: ReaderModel) -> (ReaderModel, SpecYield) {
    if !m.active {
        (m, SpecYield::Quiet)
    } else {
        match spec_parse(m.data, m.sum) {
            SpecOutcome::Record { rec, len } => (
                ReaderModel { sum: m.sum + len, ..m },
                SpecYield::Item { rec, len },
            ),
            SpecOutcome::EndOfInput => (m, SpecYield::Quiet),
            SpecOutcome::Malformed { reason } => (
                ReaderModel { active: false, ..m },
                SpecYield::Failed { reason },
            ),
            SpecOutcome::TruncatedInput => (ReaderModel { active: false, ..m }, SpecYield::Cut),
        }
    }
}

/// The state after `n` pulls.
pub open spec fn run_model(m: ReaderModel, n: nat) -> ReaderModel
    decreases n,
{
    if n == 0 {
        m
    } else {
        model_step(run_model(m, (n - 1) as nat)).0
    }
}

/// What the `n`-th pull (counting from zero) yields.
pub open spec fn yield_at(m: ReaderModel, n: nat) -> SpecYield {
    model_step(run_model(m, n)).1
}

/// How the reader's answer renders a yield of the model.
pub open spec fn yield_matches(y: SpecYield, r: Option<Result<WarcRecord, WarcError>>) -> bool {
    match y {
        SpecYield::Item { rec, .. } => r matches Some(Ok(rr)) && rr@ == rec,
        SpecYield::Failed { reason } => r matches Some(Err(WarcError::Malformed(m))) && m@
            == reason,
        SpecYield::Cut => r == Some(Err::<WarcRecord, WarcError>(WarcError::IO)),
        SpecYield::Quiet => r is None,
    }
}

/// WARC reader instance: pull records with [`WarcReader::next`] until it
/// yields nothing; a yielded error is terminal for this reader.
pub struct WarcReader {
    data: Vec<u8>,
    sum: usize,
    valid_state: bool,
}

impl View for WarcReader {
    type V = ReaderModel;

    closed spec fn view(&self) -> ReaderModel {
        ReaderModel { data: self.data@, sum: self.sum as int, active: self.valid_state }
    }
}

impl WarcReader {
    /// The accumulator never runs past the stream.
    pub closed spec fn wf(&self) -> bool {
        self.sum <= self.data@.len()
    }

    /// Create a new reader over a byte stream.
    pub fn new(data: Vec<u8>) -> (r: WarcReader)
        ensures
            r@ == (ReaderModel { data: data@, sum: 0, active: true }),
            r.wf(),
    {
        WarcReader { data, sum: 0, valid_state: true }
    }

    /// Bytes of the stream that belong to records already yielded: the sum
    /// of the on-wire lengths of the fully valid, fully consumed records,
    /// never a partial record's bytes.
    pub fn sum(&self) -> (r: usize)
        ensures
            r as int == self@.sum,
    {
        self.sum
    }

    /// Pull once: exactly one step of the reader model.
    pub fn next(&mut self) -> (r: Option<Result<WarcRecord, WarcError>>)
        requires
            old(self).wf(),
        ensures
            final(self).wf(),
            final(self)@ == model_step(old(self)@).0,
            yield_matches(model_step(old(self)@).1, r),
    {
        if !self.valid_state {
            return None;
        }
        proof {
            if spec_parse(self@.data, self@.sum) is Record {
                lemma_record_extent(self@.data, self@.sum);
            }
        }
        let n = self.data.len();
        match WarcRecord::parse(self.data.as_slice(), self.sum) {
            Ok((record, used)) => {
                assert(self.sum + used <= n);
                self.sum = self.sum + used;
                Some(Ok(record))
            },
            Err(WarcError::EOF) => None,
            Err(e) => {
                self.valid_state = false;
                Some(Err(e))
            },
        }
    }
}

/// Reading a well-formed record advances the byte accumulator by exactly
/// the record's on-wire length — the version line, the header block, the
/// content and the trailer together — and yields that record.
pub proof fn lemma_pull_advances_by_record_length(m: ReaderModel)
    requires
        0 <= m.sum <= m.data.len(),
        m.active,
        spec_parse(m.data, m.sum) is Record,
    ensures
        model_step(m).0.sum == m.sum + spec_parse(m.data, m.sum)->Record_len,
        model_step(m).1 == (SpecYield::Item {
            rec: spec_parse(m.data, m.sum)->Record_rec,
            len: spec_parse(m.data, m.sum)->Record_len,
        }),
        m.sum < model_step(m).0.sum <= m.data.len(),
{
    lemma_record_extent(m.data, m.sum);
}

/// A terminated reader stays terminated: however often it is pulled, its
/// state does not move and nothing is ever yielded.
pub proof fn lemma_terminated_reader_stays_quiet(m: ReaderModel, n: nat)
    requires
        !m.active,
    ensures
        run_model(m, n) == m,
        yield_at(m, n) == SpecYield::Quiet,
    decreases n,
{
    if n > 0 {
        lemma_terminated_reader_stays_quiet(m, (n - 1) as nat);
    }
}

/// Where the `k`-th record of the stream starts: the total on-wire length
/// of the first `k` records (the position does not move past a position
/// where no record parses).
pub open spec fn pos_after(s: Seq<u8>, k: nat) -> int
    decreases k,
{
    if k == 0 {
        0
    } else {
        let p = pos_after(s, (k - 1) as nat);
        match spec_parse(s, p) {
            SpecOutcome::Record { len, .. } => p + len,
            _ => p,
        }
    }
}

/// The first `n` reads of the stream all yield records.
pub open spec fn first_n_ok(s: Seq<u8>, n: nat) -> bool {
    forall|k: nat| k < n ==> #[trigger] spec_parse(s, pos_after(s, k)) is Record
}

/// The accumulator is exact: a fresh reader pulled through `n` well-formed
/// records holds exactly their total on-wire length — never a partial
/// record's bytes — and has yielded exactly those records, in stream
/// order.
pub proof fn lemma_reader_runs_prefix(s: Seq<u8>, n: nat)
    requires
        first_n_ok(s, n),
    ensures
        run_model(ReaderModel { data: s, sum: 0, active: true }, n) == (ReaderModel {
            data: s,
            sum: pos_after(s, n),
            active: true,
        }),
        forall|k: nat|
            k < n ==> #[trigger] yield_at(ReaderModel { data: s, sum: 0, active: true }, k) == (
            SpecYield::Item {
                rec: spec_parse(s, pos_after(s, k))->Record_rec,
                len: spec_parse(s, pos_after(s, k))->Record_len,
            }),
    decreases n,
{
    let m0 = ReaderModel { data: s, sum: 0, active: true };
    if n > 0 {
        assert(first_n_ok(s, (n - 1) as nat));
        lemma_reader_runs_prefix(s, (n - 1) as nat);
        assert(spec_parse(s, pos_after(s, (n - 1) as nat)) is Record);
        assert(run_model(m0, n) == model_step(run_model(m0, (n - 1) as nat)).0);
    }
}

/// Byte accounting survives corruption: when `n` well-formed records are
/// followed by a structurally corrupt or truncated one, a fresh reader
/// yields exactly those `n` records, then that one failure, then nothing,
/// however often it is pulled; and from the failing pull on, its
/// accumulator stays at the exact sum of the `n` records' on-wire lengths.
pub proof fn lemma_accounting_after_corruption(s: Seq<u8>, n: nat, pulls: nat)
    requires
        first_n_ok(s, n),
        spec_parse(s, pos_after(s, n)) is Malformed || spec_parse(s, pos_after(s, n))
            is TruncatedInput,
        pulls > n,
    ensures
        run_model(ReaderModel { data: s, sum: 0, active: true }, pulls) == (ReaderModel {
            data: s,
            sum: pos_after(s, n),
            active: false,
        }),
        forall|k: nat|
            k < n ==> #[trigger] yield_at(ReaderModel { data: s, sum: 0, active: true }, k)
                is Item,
        yield_at(ReaderModel { data: s, sum: 0, active: true }, n) is Failed || yield_at(
            ReaderModel { data: s, sum: 0, active: true },
            n,
        ) is Cut,
        forall|k: nat|
            n < k < pulls ==> #[trigger] yield_at(ReaderModel { data: s, sum: 0, active: true }, k)
                == SpecYield::Quiet,
    decreases pulls,
{
    let m0 = ReaderModel { data: s, sum: 0, active: true };
    lemma_reader_runs_prefix(s, n);
    let stopped = ReaderModel { data: s, sum: pos_after(s, n), active: false };
    assert(run_model(m0, (n + 1) as nat) == stopped);
    assert forall|k: nat| n < k < pulls implies #[trigger] yield_at(m0, k)
        == SpecYield::Quiet by {
        lemma_run_from_yield(m0, (n + 1) as nat, (k - n - 1) as nat);
        lemma_terminated_reader_stays_quiet(stopped, (k - n - 1) as nat);
    }
    lemma_run_from_yield(m0, (n + 1) as nat, (pulls - n - 1) as nat);
    lemma_terminated_reader_stays_quiet(stopped, (pulls - n - 1) as nat);
}

/// Running `a + j` pulls is running `a`, then `j` more.
proof fn lemma_run_from_yield(m: ReaderModel, a: nat, j: nat)
    ensures
        yield_at(m, (a + j) as nat) == yield_at(run_model(m, a), j),
        run_model(m, a + j) == run_model(run_model(m, a), j),
    decreases j,
{
    if j > 0 {
        lemma_run_from_yield(m, a, (j - 1) as nat);
        assert(run_model(m, (a + j) as nat) == model_step(run_model(m, (a + j - 1) as nat)).0);
    }
}

} // verus!
