//! The resources a display is driven through, the errors they raise, and a
//! model of the operations issued on them.
use vstd::prelude::*;

verus! {

/// A digital output line (data/command select, chip enable, reset, backlight).
pub trait OutputPin {
    type Error;

    /// Every level this line was asked to take, in order, each with
    /// whether the request succeeded. An implementation checked by Verus
    /// defines it so that the methods below meet their contracts; the
    /// default only lets unchecked implementations compile.
    closed spec fn history(&self) -> Seq<(bool, bool)> {
        Seq::empty()
    }

    /// Drives the line low.
    fn set_low(&mut self) -> (r: Result<(), Self::Error>)
        ensures
            final(self).history() == old(self).history().push((false, r is Ok));

    /// Drives the line high.
    fn set_high(&mut self) -> (r: Result<(), Self::Error>)
        ensures
            final(self).history() == old(self).history().push((true, r is Ok));
}

/// A write-only synchronous serial channel.
pub trait SpiWrite {
    type Error;

    /// Every write asked of this channel, in order, each with whether it
    /// succeeded. An implementation checked by Verus defines it so that
    /// `write` meets its contract; the default only lets unchecked
    /// implementations compile.
    closed spec fn history(&self) -> Seq<(Seq<u8>, bool)> {
        Seq::empty()
    }

    /// Writes the bytes in order.
    fn write(&mut self, words: &[u8]) -> (r: Result<(), Self::Error>)
        ensures
            final(self).history() == old(self).history().push((words@, r is Ok));
}

/// The resource whose operation failed, with that resource's own error.
#[derive(Debug)]
pub enum OutputError<SPIE, DCE, CEE, RSTE, LIGHTE> {
    SPIError(SPIE),
    DCError(DCE),
    CEError(CEE),
    RSTError(RSTE),
    LIGHTError(LIGHTE),
}

/// One operation issued on a resource: a line driven high (`true`) or low,
/// or a single byte written over the serial channel.
pub enum BusOp {
    ModeSelect(bool),
    ChipEnable(bool),
    Transfer(u8),
    Reset(bool),
    Backlight(bool),
}

/// One of the four output lines.
pub enum Line {
    ModeSelect,
    ChipEnable,
    Reset,
    Backlight,
}

/// The level that `op` asks of `line`, if `op` is an operation on it.
pub open spec fn level_on(op: BusOp, line: Line) -> Option<bool> {
    match (op, line) {
        (BusOp::ModeSelect(l), Line::ModeSelect) => Some(l),
        (BusOp::ChipEnable(l), Line::ChipEnable) => Some(l),
        (BusOp::Reset(l), Line::Reset) => Some(l),
        (BusOp::Backlight(l), Line::Backlight) => Some(l),
        _ => None,
    }
}

/// The requests that a log of operations and their outcomes made of `line`.
pub open spec fn line_log(log: Seq<(BusOp, bool)>, line: Line) -> Seq<(bool, bool)>
    decreases log.len(),
{
    if log.len() == 0 {
        Seq::empty()
    } else {
        let rest = line_log(log.drop_last(), line);
        match level_on(log.last().0, line) {
            Some(l) => rest.push((l, log.last().1)),
            None => rest,
        }
    }
}

/// The writes that a log of operations and their outcomes made of the
/// serial channel: one single-byte write per transfer.
pub open spec fn spi_log(log: Seq<(BusOp, bool)>) -> Seq<(Seq<u8>, bool)>
    decreases log.len(),
{
    if log.len() == 0 {
        Seq::empty()
    } else {
        let rest = spi_log(log.drop_last());
        match log.last().0 {
            BusOp::Transfer(v) => rest.push((seq![v], log.last().1)),
            _ => rest,
        }
    }
}

/// The operations of a log, without their outcomes.
pub open spec fn ops_of(log: Seq<(BusOp, bool)>) -> Seq<BusOp> {
    log.map_values(|p: (BusOp, bool)| p.0)
}

pub proof fn lemma_log_push(log: Seq<(BusOp, bool)>, entry: (BusOp, bool))
    ensures
        forall|line: Line| #[trigger] line_log(log.push(entry), line) == match level_on(entry.0, line) {
            Some(l) => line_log(log, line).push((l, entry.1)),
            None => line_log(log, line),
        },
        spi_log(log.push(entry)) == match entry.0 {
            BusOp::Transfer(v) => spi_log(log).push((seq![v], entry.1)),
            _ => spi_log(log),
        },
{
    assert(log.push(entry).drop_last() =~= log);
}

/// A byte transaction: `data` selects data (`true`) or command mode.
pub open spec fn frame(data: bool, value: u8) -> Seq<BusOp> {
    seq![BusOp::ModeSelect(data), BusOp::ChipEnable(false), BusOp::Transfer(value), BusOp::ChipEnable(true)]
}

/// The operations of a sequence of byte transactions, one after the other.
pub open spec fn frames(txs: Seq<(bool, u8)>) -> Seq<BusOp>
    decreases txs.len(),
{
    if txs.len() == 0 {
        Seq::empty()
    } else {
        frames(txs.drop_last()) + frame(txs.last().0, txs.last().1)
    }
}

/// The error names the resource that `op` was issued on.
pub open spec fn tagged<A, B, C, D, E>(op: BusOp, e: OutputError<A, B, C, D, E>) -> bool {
    match op {
        BusOp::ModeSelect(_) => e is DCError,
        BusOp::ChipEnable(_) => e is CEError,
        BusOp::Transfer(_) => e is SPIError,
        BusOp::Reset(_) => e is RSTError,
        BusOp::Backlight(_) => e is LIGHTError,
    }
}

/// The log grew from `old` to `new` by running the `planned` operations in
/// order until one failed: every operation before the last one logged
/// succeeded. The result is `Ok` exactly when all planned operations ran and
/// succeeded; otherwise it is the error of the last one logged, which failed,
/// tagged by its resource, and nothing was issued after it.
pub open spec fn run<A, B, C, D, E>(
    old: Seq<(BusOp, bool)>,
    new: Seq<(BusOp, bool)>,
    planned: Seq<BusOp>,
    r: Result<(), OutputError<A, B, C, D, E>>,
) -> bool {
    let n = new.len() - old.len();
    &&& old.len() <= new.len() <= old.len() + planned.len()
    &&& new.take(old.len() as int) == old
    &&& ops_of(new.skip(old.len() as int)) == planned.take(n)
    &&& forall|i: int| old.len() <= i < new.len() - 1 ==> (#[trigger] new[i]).1
    &&& match r {
        Ok(_) => new.len() == old.len() + planned.len() && (planned.len() == 0 || new.last().1),
        Err(e) => old.len() < new.len() && !new.last().1 && tagged(new.last().0, e),
    }
}

pub proof fn lemma_frames_len(txs: Seq<(bool, u8)>)
    ensures
        frames(txs).len() == 4 * txs.len(),
    decreases txs.len(),
{
    if txs.len() > 0 {
        lemma_frames_len(txs.drop_last());
    }
}

pub proof fn lemma_frames_push(txs: Seq<(bool, u8)>, tx: (bool, u8))
    ensures
        frames(txs.push(tx)) == frames(txs) + frame(tx.0, tx.1),
{
    assert(txs.push(tx).drop_last() =~= txs);
}

pub proof fn lemma_frames_append(s1: Seq<(bool, u8)>, s2: Seq<(bool, u8)>)
    ensures
        frames(s1 + s2) == frames(s1) + frames(s2),
    decreases s2.len(),
{
    if s2.len() == 0 {
        assert(s1 + s2 =~= s1);
        assert(frames(s1) + frames(s2) =~= frames(s1));
    } else {
        lemma_frames_append(s1, s2.drop_last());
        assert((s1 + s2).drop_last() =~= s1 + s2.drop_last());
        assert((s1 + s2).last() == s2.last());
        let f = frame(s2.last().0, s2.last().1);
        assert(frames(s1) + frames(s2.drop_last()) + f =~= frames(s1) + (frames(s2.drop_last()) + f));
    }
}

/// A successful run followed by another run is one run of both plans.
pub proof fn lemma_run_then<A, B, C, D, E>(
    a: Seq<(BusOp, bool)>,
    b: Seq<(BusOp, bool)>,
    c: Seq<(BusOp, bool)>,
    first: Seq<BusOp>,
    second: Seq<BusOp>,
    r: Result<(), OutputError<A, B, C, D, E>>,
)
    requires
        run(a, b, first, Ok::<(), OutputError<A, B, C, D, E>>(())),
        run(b, c, second, r),
    ensures
        run(a, c, first + second, r),
{
    let n = c.len() - a.len();
    assert(c.take(a.len() as int) =~= a) by {
        assert forall|i: int| 0 <= i < a.len() implies c[i] == a[i] by {
            assert(c.take(b.len() as int)[i] == c[i]);
            assert(b.take(a.len() as int)[i] == b[i]);
        }
    }
    assert forall|i: int| 0 <= i < b.len() implies c[i] == b[i] by {
        assert(c.take(b.len() as int)[i] == c[i]);
    }
    assert(ops_of(c.skip(a.len() as int)) =~= (first + second).take(n)) by {
        assert forall|i: int| 0 <= i < n implies ops_of(c.skip(a.len() as int))[i] == (first
            + second).take(n)[i] by {
            if i < first.len() {
                assert(ops_of(b.skip(a.len() as int))[i] == first.take(first.len() as int)[i]);
            } else {
                let j = i - first.len();
                assert(ops_of(c.skip(b.len() as int))[j] == second.take(c.len() - b.len())[j]);
            }
        }
    }
    assert forall|i: int| a.len() <= i < c.len() - 1 implies (#[trigger] c[i]).1 by {
        if i < b.len() - 1 {
            assert(b[i].1);
        } else if i == b.len() - 1 {
            assert(b.last().1);
        }
    }
    if first.len() + second.len() > 0 && r is Ok {
        if second.len() == 0 {
            assert(c.take(b.len() as int) =~= c);
        }
    }
}

/// One step of a plan: `done` went through from `a` to `b`, then `step`
/// ran from `b` to `c`, and `done + step` begins `plan`. On success
/// `done + step` went through; on failure the run of `plan` failed.
pub proof fn lemma_run_prefix<A, B, C, D, E>(
    a: Seq<(BusOp, bool)>,
    b: Seq<(BusOp, bool)>,
    c: Seq<(BusOp, bool)>,
    done: Seq<BusOp>,
    step: Seq<BusOp>,
    plan: Seq<BusOp>,
    r: Result<(), OutputError<A, B, C, D, E>>,
)
    requires
        run(a, b, done, Ok::<(), OutputError<A, B, C, D, E>>(())),
        run(b, c, step, r),
        done.len() + step.len() <= plan.len(),
        plan.take((done.len() + step.len()) as int) == done + step,
    ensures
        r is Ok ==> run(a, c, done + step, r),
        r is Err ==> run(a, c, plan, r),
{
    lemma_run_then(a, b, c, done, step, r);
    if r is Err {
        let n = c.len() - a.len();
        assert(plan.take(n) =~= (done + step).take(n)) by {
            assert forall|i: int| 0 <= i < n implies plan.take(n)[i] == (done + step).take(n)[i] by {
                assert(plan.take((done.len() + step.len()) as int)[i] == plan[i]);
            }
        }
    }
}

/// Transaction `k` of a sequence occupies operations `4k` to `4k + 3`.
pub proof fn lemma_frames_index(txs: Seq<(bool, u8)>, k: int)
    requires
        0 <= k < txs.len(),
    ensures
        frames(txs).subrange(4 * k, 4 * k + 4) == frame(txs[k].0, txs[k].1),
    decreases txs.len(),
{
    lemma_frames_len(txs.drop_last());
    if k < txs.len() - 1 {
        lemma_frames_index(txs.drop_last(), k);
        let f = frames(txs.drop_last());
        assert((f + frame(txs.last().0, txs.last().1)).subrange(4 * k, 4 * k + 4) =~= f.subrange(
            4 * k,
            4 * k + 4,
        ));
    } else {
        let f = frames(txs.drop_last());
        assert((f + frame(txs.last().0, txs.last().1)).subrange(4 * k, 4 * k + 4) =~= frame(
            txs.last().0,
            txs.last().1,
        ));
    }
}

/// When a byte transaction's request to assert chip enable fails, the
/// transaction returns a chip-enable error and writes nothing over the
/// serial channel.
pub proof fn lemma_enable_failure_skips_transfer<A, B, C, D, E>(
    old: Seq<(BusOp, bool)>,
    new: Seq<(BusOp, bool)>,
    data: bool,
    value: u8,
    r: Result<(), OutputError<A, B, C, D, E>>,
)
    requires
        run(old, new, frame(data, value), r),
        new.len() >= old.len() + 2,
        !new[old.len() as int + 1].1,
    ensures
        r is Err && r->Err_0 is CEError,
        new.len() == old.len() + 2,
        ops_of(new.skip(old.len() as int)) == seq![BusOp::ModeSelect(data), BusOp::ChipEnable(false)],
        spi_log(new) == spi_log(old),
{
    let k = old.len() as int;
    if new.len() > k + 2 {
        assert(new[k + 1].1);
    }
    assert(ops_of(new.skip(k))[1] == frame(data, value).take(2)[1]);
    assert(ops_of(new.skip(k)) =~= seq![BusOp::ModeSelect(data), BusOp::ChipEnable(false)]);
    assert(new.drop_last().drop_last() =~= old) by {
        assert forall|i: int| 0 <= i < k implies new[i] == old[i] by {
            assert(new.take(k)[i] == new[i]);
        }
    }
    assert(ops_of(new.skip(k))[0] == new[k].0);
    assert(new.drop_last().last() == new[k]);
    assert(spi_log(new) == spi_log(new.drop_last()));
}

/// A single operation with outcome `ok` is a run of the plan holding only
/// it, when the result is `Ok` exactly if the operation succeeded and an
/// error names the operation's resource.
pub proof fn lemma_run_single<A, B, C, D, E>(
    old: Seq<(BusOp, bool)>,
    op: BusOp,
    ok: bool,
    r: Result<(), OutputError<A, B, C, D, E>>,
)
    requires
        r is Ok <==> ok,
        r is Err ==> tagged(op, r->Err_0),
    ensures
        run(old, old.push((op, ok)), seq![op], r),
{
    let new = old.push((op, ok));
    assert(new.take(old.len() as int) =~= old);
    assert(ops_of(new.skip(old.len() as int)) =~= seq![op].take(1));
}

/// What a log asks of each resource splits at any point of the log.
pub proof fn lemma_logs_append(a: Seq<(BusOp, bool)>, b: Seq<(BusOp, bool)>)
    ensures
        spi_log(a + b) == spi_log(a) + spi_log(b),
        forall|line: Line| #[trigger] line_log(a + b, line) == line_log(a, line) + line_log(b, line),
    decreases b.len(),
{
    if b.len() == 0 {
        assert(a + b =~= a);
        assert(spi_log(a) + spi_log(b) =~= spi_log(a));
        assert forall|line: Line| #[trigger] line_log(a + b, line) == line_log(a, line) + line_log(b, line) by {
            assert(line_log(a, line) + line_log(b, line) =~= line_log(a, line));
        }
    } else {
        lemma_logs_append(a, b.drop_last());
        assert((a + b).drop_last() =~= a + b.drop_last());
        assert((a + b).last() == b.last());
        let sr = spi_log(b.drop_last());
        match b.last().0 {
            BusOp::Transfer(v) => {
                assert(spi_log(a) + sr.push((seq![v], b.last().1)) =~= (spi_log(a) + sr).push(
                    (seq![v], b.last().1),
                ));
            },
            _ => {},
        }
        assert forall|line: Line| #[trigger] line_log(a + b, line) == line_log(a, line) + line_log(b, line) by {
            let lr = line_log(b.drop_last(), line);
            assert(line_log(a + b.drop_last(), line) == line_log(a, line) + lr);
            assert(line_log(a + b, line) == match level_on(b.last().0, line) {
                Some(l) => line_log(a + b.drop_last(), line).push((l, b.last().1)),
                None => line_log(a + b.drop_last(), line),
            });
            match level_on(b.last().0, line) {
                Some(l) => {
                    assert(line_log(a, line) + lr.push((l, b.last().1)) =~= (line_log(a, line) + lr).push(
                        (l, b.last().1),
                    ));
                },
                None => {},
            }
        }
    }
}

} // verus!
