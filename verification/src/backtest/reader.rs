//! Recorded market events, and the reader that hands them out chunk by
//! chunk.

use crate::backtest::Error;
use crate::depth::valid_tick;
use crate::depth::{INVALID_MAX, INVALID_MIN};
use vstd::prelude::*;

verus! {

/// The row is visible to the exchange processor.
pub const EXCH_EVENT: u64 = 0x8000_0000;

/// The row is visible to the local processor.
pub const LOCAL_EVENT: u64 = 0x4000_0000;

/// The event is on the buy side.
pub const BUY_EVENT: u64 = 0x2000_0000;

/// The event is on the sell side.
pub const SELL_EVENT: u64 = 0x1000_0000;

/// A change of the quantity at one level.
pub const DEPTH_EVENT: u64 = 1;

/// A trade print.
pub const TRADE_EVENT: u64 = 2;

/// A clear of one side up to a price.
pub const DEPTH_CLEAR_EVENT: u64 = 3;

/// A level of a snapshot, which overwrites the level.
pub const DEPTH_SNAPSHOT_EVENT: u64 = 4;

/// A change of a bid level, seen by the exchange.
pub const EXCH_BID_DEPTH_EVENT: u64 = 0xa000_0001;

/// A change of an ask level, seen by the exchange.
pub const EXCH_ASK_DEPTH_EVENT: u64 = 0x9000_0001;

/// A clear of the bids, seen by the exchange.
pub const EXCH_BID_DEPTH_CLEAR_EVENT: u64 = 0xa000_0003;

/// A clear of the asks, seen by the exchange.
pub const EXCH_ASK_DEPTH_CLEAR_EVENT: u64 = 0x9000_0003;

/// A bid level of a snapshot, seen by the exchange.
pub const EXCH_BID_DEPTH_SNAPSHOT_EVENT: u64 = 0xa000_0004;

/// An ask level of a snapshot, seen by the exchange.
pub const EXCH_ASK_DEPTH_SNAPSHOT_EVENT: u64 = 0x9000_0004;

/// A trade, seen by the exchange.
pub const EXCH_TRADE_EVENT: u64 = 0x8000_0002;

/// A trade in which the buyer took, seen by the exchange.
pub const EXCH_BUY_TRADE_EVENT: u64 = 0xa000_0002;

/// A trade in which the seller took, seen by the exchange.
pub const EXCH_SELL_TRADE_EVENT: u64 = 0x9000_0002;

/// A change of a bid level, seen by the strategy.
pub const LOCAL_BID_DEPTH_EVENT: u64 = 0x6000_0001;

/// A change of an ask level, seen by the strategy.
pub const LOCAL_ASK_DEPTH_EVENT: u64 = 0x5000_0001;

/// A clear of the bids, seen by the strategy.
pub const LOCAL_BID_DEPTH_CLEAR_EVENT: u64 = 0x6000_0003;

/// A clear of the asks, seen by the strategy.
pub const LOCAL_ASK_DEPTH_CLEAR_EVENT: u64 = 0x5000_0003;

/// A bid level of a snapshot, seen by the strategy.
pub const LOCAL_BID_DEPTH_SNAPSHOT_EVENT: u64 = 0x6000_0004;

/// An ask level of a snapshot, seen by the strategy.
pub const LOCAL_ASK_DEPTH_SNAPSHOT_EVENT: u64 = 0x5000_0004;

/// A trade, seen by the strategy.
pub const LOCAL_TRADE_EVENT: u64 = 0x4000_0002;

/// A trade in which the buyer took, seen by the strategy.
pub const LOCAL_BUY_TRADE_EVENT: u64 = 0x6000_0002;

/// A trade in which the seller took, seen by the strategy.
pub const LOCAL_SELL_TRADE_EVENT: u64 = 0x5000_0002;

/// One recorded event: what happened, when the exchange and the strategy
/// saw it, and the price and quantity it carries.
#[derive(Clone, Copy, Debug, PartialEq, Eq, Structural)]
pub struct Row {
    /// The flags that say what the event is and who saw it.
    pub ev: u64,
    /// When the exchange saw the event, in nanoseconds.
    pub exch_ts: i64,
    /// When the strategy saw the event, in nanoseconds.
    pub local_ts: i64,
    /// The price, in ticks.
    pub price_tick: i32,
    /// The quantity, in lots.
    pub qty: u32,
}

/// Every bit of `mask` is set in `ev`.
pub open spec fn has_flags(ev: u64, mask: u64) -> bool {
    ev & mask == mask
}

impl Row {
    /// Whether the event carries every bit of `mask`.
    pub fn is(&self, mask: u64) -> (b: bool)
        ensures
            b == has_flags(self.ev, mask),
    {
        self.ev & mask == mask
    }
}

/// Every row carries a tick that can name a price level.
pub open spec fn valid_rows(rows: Seq<Row>) -> bool {
    forall|i: int| 0 <= i < rows.len() ==> valid_tick(#[trigger] rows[i].price_tick)
}

/// The index of the first row at or behind `from` that carries `flag`, or
/// the number of rows where there is none.
pub open spec fn first_tagged(rows: Seq<Row>, from: int, flag: u64) -> int
    decreases rows.len() - from,
{
    if from < 0 || from >= rows.len() {
        rows.len() as int
    } else if has_flags(rows[from].ev, flag) {
        from
    } else {
        first_tagged(rows, from + 1, flag)
    }
}

/// Where a search for the next row with `flag` ends: in the chunk at hand
/// from `from` on, or else in the first later chunk that holds such a row.
/// The result is that chunk, the row's index in it and the chunks behind
/// it; there is none where no row is left.
pub open spec fn seek(rows: Seq<Row>, from: int, chunks: Seq<Seq<Row>>, flag: u64) -> Option<
    (Seq<Row>, int, Seq<Seq<Row>>),
>
    decreases chunks.len(),
{
    let i = first_tagged(rows, from, flag);
    if i < rows.len() {
        Some((rows, i, chunks))
    } else if chunks.len() == 0 {
        None
    } else {
        seek(chunks[0], 0, chunks.skip(1), flag)
    }
}

/// The first tagged row lies between `from` and the end, carries the flag,
/// and no row before it does.
pub proof fn lemma_first_tagged(rows: Seq<Row>, from: int, flag: u64)
    requires
        0 <= from,
    ensures
        from <= first_tagged(rows, from, flag) || first_tagged(rows, from, flag) == rows.len(),
        first_tagged(rows, from, flag) <= rows.len(),
        first_tagged(rows, from, flag) < rows.len() ==> has_flags(
            rows[first_tagged(rows, from, flag)].ev,
            flag,
        ),
        forall|j: int|
            from <= j < first_tagged(rows, from, flag) ==> !has_flags(#[trigger] rows[j].ev, flag),
    decreases rows.len() - from,
{
    if from < rows.len() && !has_flags(rows[from].ev, flag) {
        lemma_first_tagged(rows, from + 1, flag);
    }
}

/// Where a search ends there is a row, and it carries the flag.
pub proof fn lemma_seek(rows: Seq<Row>, from: int, chunks: Seq<Seq<Row>>, flag: u64)
    requires
        0 <= from,
    ensures
        seek(rows, from, chunks, flag) matches Some((found, i, _)) ==> 0 <= i < found.len()
            && has_flags(found[i].ev, flag),
    decreases chunks.len(),
{
    lemma_first_tagged(rows, from, flag);
    if first_tagged(rows, from, flag) >= rows.len() && chunks.len() > 0 {
        lemma_seek(chunks[0], 0, chunks.skip(1), flag);
    }
}

/// The number of rows in the chunks.
pub open spec fn rows_in(chunks: Seq<Seq<Row>>) -> nat
    decreases chunks.len(),
{
    if chunks.len() == 0 {
        0
    } else {
        chunks[0].len() + rows_in(chunks.skip(1))
    }
}

/// The number of rows from `row_num` on: those of the chunk at hand and
/// those of the chunks behind it.
pub open spec fn rows_left(rows: Seq<Row>, row_num: int, chunks: Seq<Seq<Row>>) -> int {
    rows.len() - row_num + rows_in(chunks)
}

/// A search never goes back: no more rows are left at the row that it finds
/// than there were from where it set out.
pub proof fn lemma_seek_progress(rows: Seq<Row>, from: int, chunks: Seq<Seq<Row>>, flag: u64)
    requires
        0 <= from <= rows.len(),
    ensures
        seek(rows, from, chunks, flag) matches Some((found, i, rest)) ==> 0 <= i < found.len()
            && rows_left(found, i, rest) <= rows_left(rows, from, chunks),
    decreases chunks.len(),
{
    lemma_first_tagged(rows, from, flag);
    if first_tagged(rows, from, flag) >= rows.len() && chunks.len() > 0 {
        lemma_seek_progress(chunks[0], 0, chunks.skip(1), flag);
    }
}

/// A chunk of rows.
pub struct Data {
    rows: Vec<Row>,
}

impl Data {
    /// The rows.
    pub closed spec fn view(&self) -> Seq<Row> {
        self.rows@
    }

    /// A chunk without rows.
    pub fn empty() -> (d: Self)
        ensures
            d@ == Seq::<Row>::empty(),
    {
        Data { rows: Vec::new() }
    }

    /// A chunk of the given rows.
    pub fn new(rows: Vec<Row>) -> (d: Self)
        ensures
            d@ == rows@,
    {
        Data { rows }
    }

    /// The number of rows.
    pub fn len(&self) -> (n: usize)
        ensures
            n == self@.len(),
    {
        self.rows.len()
    }

    /// The row at `index`.
    pub fn get(&self, index: usize) -> (row: Row)
        requires
            index < self@.len(),
        ensures
            row == self@[index as int],
    {
        self.rows[index]
    }

    /// Whether every row carries a tick that can name a price level.
    pub fn is_valid(&self) -> (b: bool)
        ensures
            b == valid_rows(self@),
    {
        let mut i: usize = 0;
        while i < self.rows.len()
            invariant
                0 <= i <= self.rows.len(),
                valid_rows(self@.take(i as int)),
            decreases self.rows.len() - i,
        {
            let t = self.rows[i].price_tick;
            if t == INVALID_MIN || t == INVALID_MAX {
                return false;
            }
            assert forall|j: int| 0 <= j < i + 1 implies valid_tick(
                #[trigger] self@.take(i + 1)[j].price_tick,
            ) by {
                if j < i {
                    assert(self@.take(i as int)[j] == self@[j]);
                }
            }
            i = i + 1;
        }
        assert(self@.take(i as int) =~= self@);
        true
    }

    /// The index of the first row at or behind `from` that carries `flag`,
    /// or the number of rows where there is none.
    pub fn find(&self, from: usize, flag: u64) -> (i: usize)
        ensures
            i == first_tagged(self@, from as int, flag),
    {
        let mut i: usize = from;
        while i < self.rows.len()
            invariant
                from <= i,
                first_tagged(self@, from as int, flag) == first_tagged(self@, i as int, flag),
            decreases self.rows.len() - i,
        {
            if self.rows[i].is(flag) {
                return i;
            }
            i = i + 1;
        }
        self.rows.len()
    }
}

/// The source of recorded events: the chunks that were loaded and not yet
/// handed out.
pub struct Reader {
    chunks: Vec<Data>,
}

impl Reader {
    /// The chunks still to be handed out, the next one first.
    pub closed spec fn view(&self) -> Seq<Seq<Row>> {
        Seq::new(self.chunks@.len(), |i: int| self.chunks@[i]@)
    }

    /// Every row still to be handed out carries a valid tick.
    pub open spec fn wf(&self) -> bool {
        forall|i: int| 0 <= i < self@.len() ==> valid_rows(#[trigger] self@[i])
    }

    /// A reader without data.
    pub fn new() -> (r: Self)
        ensures
            r.wf(),
            r@ == Seq::<Seq<Row>>::empty(),
    {
        let r = Reader { chunks: Vec::new() };
        assert(r@ =~= Seq::<Seq<Row>>::empty());
        r
    }

    /// Adds a chunk behind those already loaded. A chunk with a row whose
    /// tick is one of the two empty-side markers is refused, and the reader
    /// stays as it was.
    pub fn push(&mut self, data: Data) -> (accepted: bool)
        requires
            old(self).wf(),
        ensures
            final(self).wf(),
            accepted == valid_rows(data@),
            final(self)@ == if accepted {
                old(self)@.push(data@)
            } else {
                old(self)@
            },
    {
        if data.is_valid() {
            self.chunks.push(data);
            assert(self@ =~= old(self)@.push(data@));
            true
        } else {
            false
        }
    }

    /// Hands out the next chunk.
    pub fn next(&mut self) -> (r: Result<Data, Error>)
        requires
            old(self).wf(),
        ensures
            final(self).wf(),
            match r {
                Ok(data) => old(self)@.len() > 0 && data@ == old(self)@[0] && final(self)@
                    == old(self)@.skip(1) && valid_rows(data@),
                Err(e) => old(self)@.len() == 0 && e == Error::EndOfData && final(self)@
                    == old(self)@,
            },
    {
        if self.chunks.len() == 0 {
            return Err(Error::EndOfData);
        }
        let data = self.chunks.remove(0);
        assert(self@ =~= old(self)@.skip(1));
        assert(data@ == old(self)@[0]);
        assert forall|i: int| 0 <= i < self@.len() implies valid_rows(#[trigger] self@[i]) by {
            assert(self@[i] == old(self)@[i + 1]);
        }
        Ok(data)
    }

    /// Takes back a chunk that a processor is done with.
    pub fn release(&mut self, data: Data)
        ensures
            *final(self) == *old(self),
    {
    }
}

/// Moves a processor's position to the next row that carries `flag`: in the
/// chunk at hand from `from` on, or else in the first later chunk that
/// holds such a row. Chunks that are passed over are released. Where no row
/// is left the reader ends up empty and the position stays.
pub fn seek_next(
    reader: &mut Reader,
    data: &mut Data,
    row_num: &mut usize,
    from: usize,
    flag: u64,
) -> (r: Result<(), Error>)
    requires
        old(reader).wf(),
        valid_rows(old(data)@),
    ensures
        final(reader).wf(),
        valid_rows(final(data)@),
        match seek(old(data)@, from as int, old(reader)@, flag) {
            Some((rows, i, rest)) => r == Ok::<(), Error>(()) && final(data)@ == rows
                && *final(row_num) == i && final(reader)@ == rest,
            None => r == Err::<(), Error>(Error::EndOfData) && final(data)@ == old(data)@
                && *final(row_num) == *old(row_num) && final(reader)@ == Seq::<Seq<Row>>::empty(),
        },
{
    let i = data.find(from, flag);
    if i < data.len() {
        *row_num = i;
        return Ok(());
    }
    assert(seek(old(data)@, from as int, old(reader)@, flag) == seek(
        Seq::<Row>::empty(),
        0,
        reader@,
        flag,
    ));
    loop
        invariant
            reader.wf(),
            valid_rows(data@),
            *data == *old(data),
            *row_num == *old(row_num),
            seek(old(data)@, from as int, old(reader)@, flag) == seek(
                Seq::<Row>::empty(),
                0,
                reader@,
                flag,
            ),
        decreases reader@.len(),
    {
        let ghost before = reader@;
        assert(first_tagged(Seq::<Row>::empty(), 0, flag) == 0);
        match reader.next() {
            Err(_) => {
                assert(reader@ =~= Seq::<Seq<Row>>::empty());
                return Err(Error::EndOfData);
            },
            Ok(chunk) => {
                let mut chunk = chunk;
                let j = chunk.find(0, flag);
                assert(seek(Seq::<Row>::empty(), 0, before, flag) == seek(
                    chunk@,
                    0,
                    reader@,
                    flag,
                ));
                if j < chunk.len() {
                    std::mem::swap(data, &mut chunk);
                    reader.release(chunk);
                    *row_num = j;
                    return Ok(());
                }
                reader.release(chunk);
            },
        }
    }
}

} // verus!
