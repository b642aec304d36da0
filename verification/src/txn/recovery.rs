//! Log records and the recovery manager.
//!
//! A log record is a byte string that starts with a four-byte kind. Update
//! records carry the value that the update replaced, so that the update can be
//! undone.

use vstd::pervasive::unreached;
use vstd::prelude::*;
use vstd::utf8::{encode_utf8, encode_utf8_decode_utf8, encode_utf8_valid_utf8};

use crate::file::{
    bytes_at, has_bytes_at, int_at, int_to_le, lemma_bytes_at_between, lemma_int_at_between,
    lemma_int_le_roundtrip, lemma_overwrite_prefix, length_prefixed, string_at, BlockId, Page,
    SIZE_OF_INT,
};
use crate::buffer::buffer_manager::{
    flush_seq, flushable, lemma_flush_seq_log, lemma_flush_seq_writes, Buffer, BufferManager,
    BufferView, PoolView,
};
use crate::file::disk_block;
use crate::log::{lemma_page_reset, lemma_record_placed, record_fits};
use crate::file::{Disk, FileManager};
use crate::log::{LogIteratorView, LogManager, LogManagerView, Lsn};
use crate::txn::transaction::{Transaction, TransactionManager, TxNum, TxnError, TxnState};

verus! {

/// The kind of a log record.
#[derive(Clone, Copy, Debug, PartialEq, Eq, Structural)]
pub enum RecordType {
    Checkpoint,
    Start,
    Commit,
    Rollback,
    Update,
}

impl RecordType {
    /// The number that stands for the kind on disk.
    pub open spec fn spec_code(self) -> i32 {
        match self {
            RecordType::Checkpoint => 0,
            RecordType::Start => 1,
            RecordType::Commit => 2,
            RecordType::Rollback => 3,
            RecordType::Update => 4,
        }
    }

    /// The number that stands for the kind on disk.
    pub fn code(&self) -> (c: i32)
        ensures
            c == self.spec_code(),
    {
        match self {
            RecordType::Checkpoint => 0,
            RecordType::Start => 1,
            RecordType::Commit => 2,
            RecordType::Rollback => 3,
            RecordType::Update => 4,
        }
    }

    /// The kind that `value` stands for, if it stands for one.
    pub fn try_from(value: i32) -> (r: Result<RecordType, ()>)
        ensures
            0 <= value <= 4 <==> r is Ok,
            r matches Ok(kind) ==> kind.spec_code() == value,
    {
        match value {
            0 => Ok(RecordType::Checkpoint),
            1 => Ok(RecordType::Start),
            2 => Ok(RecordType::Commit),
            3 => Ok(RecordType::Rollback),
            4 => Ok(RecordType::Update),
            _ => Err(()),
        }
    }
}

/// The type of the value that an update record carries.
#[allow(clippy::upper_case_acronyms)]
#[derive(Clone, Copy, Debug, PartialEq, Eq, Structural)]
pub enum UpdateValueType {
    INT,
    STRING,
}

impl UpdateValueType {
    /// The number that stands for the type on disk.
    pub open spec fn spec_code(self) -> i32 {
        match self {
            UpdateValueType::INT => 0,
            UpdateValueType::STRING => 1,
        }
    }

    /// The number that stands for the type on disk.
    pub fn code(&self) -> (c: i32)
        ensures
            c == self.spec_code(),
    {
        match self {
            UpdateValueType::INT => 0,
            UpdateValueType::STRING => 1,
        }
    }

    /// The type that `value` stands for, if it stands for one.
    pub fn try_from(value: i32) -> (r: Result<UpdateValueType, ()>)
        ensures
            0 <= value <= 1 <==> r is Ok,
            r matches Ok(t) ==> t.spec_code() == value,
    {
        match value {
            0 => Ok(UpdateValueType::INT),
            1 => Ok(UpdateValueType::STRING),
            _ => Err(()),
        }
    }
}

/// A value that can be written into a page: an integer or a string.
#[allow(clippy::upper_case_acronyms)]
#[derive(Debug)]
pub enum UpdateValue {
    INT(i32),
    STRING(String),
}

/// What an [`UpdateValue`] holds.
pub ghost enum UpdateValueView {
    Int(i32),
    Text(Seq<char>),
}

impl UpdateValueView {
    /// The bytes of the value in a page: four bytes for an integer, the UTF-8
    /// bytes with their number in front for a string.
    pub open spec fn bytes(self) -> Seq<u8> {
        match self {
            UpdateValueView::Int(n) => int_to_le(n),
            UpdateValueView::Text(s) => length_prefixed(encode_utf8(s)),
        }
    }

    /// The type of the value.
    pub open spec fn data_type(self) -> UpdateValueType {
        match self {
            UpdateValueView::Int(_) => UpdateValueType::INT,
            UpdateValueView::Text(_) => UpdateValueType::STRING,
        }
    }
}

impl View for UpdateValue {
    type V = UpdateValueView;

    open spec fn view(&self) -> UpdateValueView {
        match self {
            UpdateValue::INT(n) => UpdateValueView::Int(*n),
            UpdateValue::STRING(s) => UpdateValueView::Text(s@),
        }
    }
}

impl Clone for UpdateValue {
    fn clone(&self) -> (r: Self)
        ensures
            r@ == self@,
    {
        match self {
            UpdateValue::INT(n) => UpdateValue::INT(*n),
            UpdateValue::STRING(s) => UpdateValue::STRING(s.clone()),
        }
    }
}

impl UpdateValue {
    /// The type of the value.
    pub fn data_type(&self) -> (t: UpdateValueType)
        ensures
            t == self@.data_type(),
    {
        match self {
            UpdateValue::INT(_) => UpdateValueType::INT,
            UpdateValue::STRING(_) => UpdateValueType::STRING,
        }
    }

    /// The number of bytes that the value takes in a page.
    pub fn size(&self) -> (n: usize)
        requires
            self@.bytes().len() <= usize::MAX,
        ensures
            n == self@.bytes().len(),
    {
        proof {
            lemma_int_le_roundtrip(0);
            match self@ {
                UpdateValueView::Int(v) => lemma_int_le_roundtrip(v),
                UpdateValueView::Text(s) => lemma_int_le_roundtrip(encode_utf8(s).len() as i32),
            }
        }
        match self {
            UpdateValue::INT(_) => SIZE_OF_INT,
            UpdateValue::STRING(s) => Page::str_size(s.as_str()),
        }
    }
}

/// A record of the log.
#[derive(Debug)]
pub enum LogRecord {
    /// Everything before this record is settled.
    Checkpoint,
    /// The transaction began.
    Start { txn_num: TxNum },
    /// The transaction committed.
    Commit { txn_num: TxNum },
    /// The transaction was rolled back.
    Rollback { txn_num: TxNum },
    /// The transaction wrote at `offset` of `block`, where `value` stood before.
    Update { txn_num: TxNum, value: UpdateValue, offset: usize, block: BlockId },
}

/// What a [`LogRecord`] holds.
pub ghost enum LogRecordView {
    Checkpoint,
    Start { txn_num: usize },
    Commit { txn_num: usize },
    Rollback { txn_num: usize },
    Update { txn_num: usize, value: UpdateValueView, offset: usize, block: (Seq<char>, usize) },
}

impl View for LogRecord {
    type V = LogRecordView;

    open spec fn view(&self) -> LogRecordView {
        match self {
            LogRecord::Checkpoint => LogRecordView::Checkpoint,
            LogRecord::Start { txn_num } => LogRecordView::Start { txn_num: *txn_num },
            LogRecord::Commit { txn_num } => LogRecordView::Commit { txn_num: *txn_num },
            LogRecord::Rollback { txn_num } => LogRecordView::Rollback { txn_num: *txn_num },
            LogRecord::Update { txn_num, value, offset, block } => LogRecordView::Update {
                txn_num: *txn_num,
                value: value@,
                offset: *offset,
                block: block@,
            },
        }
    }
}

impl LogRecordView {
    /// The kind of the record.
    pub open spec fn operation(self) -> RecordType {
        match self {
            LogRecordView::Checkpoint => RecordType::Checkpoint,
            LogRecordView::Start { .. } => RecordType::Start,
            LogRecordView::Commit { .. } => RecordType::Commit,
            LogRecordView::Rollback { .. } => RecordType::Rollback,
            LogRecordView::Update { .. } => RecordType::Update,
        }
    }

    /// The transaction that the record belongs to; a checkpoint belongs to none.
    pub open spec fn txn_num(self) -> Option<usize> {
        match self {
            LogRecordView::Checkpoint => None,
            LogRecordView::Start { txn_num } => Some(txn_num),
            LogRecordView::Commit { txn_num } => Some(txn_num),
            LogRecordView::Rollback { txn_num } => Some(txn_num),
            LogRecordView::Update { txn_num, .. } => Some(txn_num),
        }
    }

    /// The record's bytes in the log: the kind, the transaction's number and, for
    /// an update, the file's name, the block's number, the value's type, the
    /// offset and the value. Numbers take four bytes each, least significant
    /// first; strings have their length in front.
    pub open spec fn encoding(self) -> Seq<u8> {
        match self {
            LogRecordView::Checkpoint => int_to_le(0),
            LogRecordView::Start { txn_num } => int_to_le(1) + int_to_le(txn_num as i32),
            LogRecordView::Commit { txn_num } => int_to_le(2) + int_to_le(txn_num as i32),
            LogRecordView::Rollback { txn_num } => int_to_le(3) + int_to_le(txn_num as i32),
            LogRecordView::Update { txn_num, value, offset, block } => int_to_le(4) + int_to_le(
                txn_num as i32,
            ) + length_prefixed(encode_utf8(block.0)) + int_to_le(block.1 as i32) + int_to_le(
                value.data_type().spec_code(),
            ) + int_to_le(offset as i32) + value.bytes(),
        }
    }

    /// Whether the record can be written: its numbers fit in four bytes each, and
    /// so do the lengths of its strings and of the whole.
    pub open spec fn encodable(self) -> bool {
        match self {
            LogRecordView::Checkpoint => true,
            LogRecordView::Start { txn_num } => txn_num <= i32::MAX,
            LogRecordView::Commit { txn_num } => txn_num <= i32::MAX,
            LogRecordView::Rollback { txn_num } => txn_num <= i32::MAX,
            LogRecordView::Update { txn_num, value, offset, block } => {
                &&& txn_num <= i32::MAX
                &&& offset <= i32::MAX
                &&& block.1 <= i32::MAX
                &&& encode_utf8(block.0).len() <= i32::MAX
                &&& value.bytes().len() <= i32::MAX
                &&& self.encoding().len() <= i32::MAX
            },
        }
    }
}

/// The record that a byte string spells, if it spells one. Bytes after the
/// record's end are not looked at. A kind that is not known, a field that does
/// not lie within the bytes, and a negative number where a transaction, a block
/// or an offset is expected make the bytes invalid.
pub open spec fn decode(bytes: Seq<u8>) -> Option<LogRecordView> {
    if bytes.len() < 4 {
        None
    } else {
        let kind = int_at(bytes, 0);
        if kind == 0 {
            Some(LogRecordView::Checkpoint)
        } else if 1 <= kind <= 3 {
            if bytes.len() < 8 || int_at(bytes, 4) < 0 {
                None
            } else {
                let txn_num = int_at(bytes, 4) as usize;
                if kind == 1 {
                    Some(LogRecordView::Start { txn_num })
                } else if kind == 2 {
                    Some(LogRecordView::Commit { txn_num })
                } else {
                    Some(LogRecordView::Rollback { txn_num })
                }
            }
        } else if kind == 4 {
            decode_update(bytes)
        } else {
            None
        }
    }
}

/// The update record that a byte string spells, given that its kind says so.
pub open spec fn decode_update(bytes: Seq<u8>) -> Option<LogRecordView> {
    if bytes.len() < 8 || int_at(bytes, 4) < 0 || !has_bytes_at(bytes, 8) {
        None
    } else {
        let txn_num = int_at(bytes, 4) as usize;
        let bpos: int = 12 + bytes_at(bytes, 8).len() as int;
        let vpos: int = bpos + 12;
        if vpos > bytes.len() {
            None
        } else {
            let number = int_at(bytes, bpos);
            let data_type = int_at(bytes, bpos + 4);
            let offset = int_at(bytes, bpos + 8);
            let block = (string_at(bytes, 8), number as usize);
            if number < 0 || offset < 0 {
                None
            } else if data_type == 0 {
                if vpos + 4 > bytes.len() {
                    None
                } else {
                    Some(
                        LogRecordView::Update {
                            txn_num,
                            value: UpdateValueView::Int(int_at(bytes, vpos)),
                            offset: offset as usize,
                            block,
                        },
                    )
                }
            } else if data_type == 1 {
                if !has_bytes_at(bytes, vpos) {
                    None
                } else {
                    Some(
                        LogRecordView::Update {
                            txn_num,
                            value: UpdateValueView::Text(string_at(bytes, vpos)),
                            offset: offset as usize,
                            block,
                        },
                    )
                }
            } else {
                None
            }
        }
    }
}

/// Stores `n` at `pos`, where the page holds `prefix` before `pos`.
fn put_int(p: &mut Page, pos: usize, n: i32, Ghost(prefix): Ghost<Seq<u8>>)
    requires
        pos + SIZE_OF_INT <= old(p)@.len(),
        old(p)@.subrange(0, pos as int) == prefix,
    ensures
        final(p)@.len() == old(p)@.len(),
        final(p)@.subrange(0, pos + 4) == prefix + int_to_le(n),
{
    proof {
        lemma_int_le_roundtrip(n);
        lemma_overwrite_prefix(p@, pos as int, int_to_le(n));
    }
    p.set_int(pos, n);
}

/// Stores `s` at `pos`, where the page holds `prefix` before `pos`.
fn put_string(p: &mut Page, pos: usize, s: &str, Ghost(prefix): Ghost<Seq<u8>>)
    requires
        pos + SIZE_OF_INT + encode_utf8(s@).len() <= old(p)@.len(),
        encode_utf8(s@).len() <= i32::MAX,
        old(p)@.subrange(0, pos as int) == prefix,
    ensures
        final(p)@.len() == old(p)@.len(),
        final(p)@.subrange(0, pos + 4 + encode_utf8(s@).len()) == prefix + length_prefixed(
            encode_utf8(s@),
        ),
{
    proof {
        lemma_int_le_roundtrip(encode_utf8(s@).len() as i32);
        lemma_overwrite_prefix(p@, pos as int, length_prefixed(encode_utf8(s@)));
    }
    p.set_string(pos, s);
}

impl LogRecord {
    /// The record that `bytes` spell, or `None` where they spell none.
    pub fn new(bytes: &[u8]) -> (r: Option<LogRecord>)
        ensures
            match r {
                Some(record) => decode(bytes@) == Some(record@),
                None => decode(bytes@) is None,
            },
    {
        let p = Page::with_bytes(bytes);
        let size: usize = p.size();
        if size < SIZE_OF_INT {
            return None;
        }
        match RecordType::try_from(p.get_int(0)) {
            Err(_) => None,
            Ok(RecordType::Checkpoint) => Some(LogRecord::Checkpoint),
            Ok(RecordType::Update) => Self::new_update(&p),
            Ok(kind) => {
                if size < 2 * SIZE_OF_INT {
                    return None;
                }
                let n: i32 = p.get_int(SIZE_OF_INT);
                if n < 0 {
                    return None;
                }
                let txn_num: usize = n as usize;
                match kind {
                    RecordType::Start => Some(LogRecord::Start { txn_num }),
                    RecordType::Commit => Some(LogRecord::Commit { txn_num }),
                    _ => Some(LogRecord::Rollback { txn_num }),
                }
            },
        }
    }

    /// The update record that the page spells, or `None` where it spells none.
    fn new_update(p: &Page) -> (r: Option<LogRecord>)
        requires
            p@.len() >= 4,
        ensures
            match r {
                Some(record) => decode_update(p@) == Some(record@),
                None => decode_update(p@) is None,
            },
    {
        let size: usize = p.size();
        let tpos: usize = SIZE_OF_INT;
        let fpos: usize = tpos + SIZE_OF_INT;
        if size < fpos {
            return None;
        }
        let n: i32 = p.get_int(tpos);
        if n < 0 || !p.has_bytes(fpos) {
            return None;
        }
        let txn_num: usize = n as usize;
        let name_len: usize = p.get_bytes(fpos).len();
        let bpos: usize = fpos + SIZE_OF_INT + name_len;
        if size - bpos < 3 * SIZE_OF_INT {
            return None;
        }
        let filename = p.get_string(fpos);
        let block_num: i32 = p.get_int(bpos);
        let dtpos: usize = bpos + SIZE_OF_INT;
        let opos: usize = dtpos + SIZE_OF_INT;
        let vpos: usize = opos + SIZE_OF_INT;
        let data_type = UpdateValueType::try_from(p.get_int(dtpos));
        let offset: i32 = p.get_int(opos);
        if block_num < 0 || offset < 0 {
            return None;
        }
        let block = BlockId::new(filename.as_str(), block_num as usize);
        match data_type {
            Err(_) => None,
            Ok(UpdateValueType::INT) => {
                if size - vpos < SIZE_OF_INT {
                    return None;
                }
                let value = UpdateValue::INT(p.get_int(vpos));
                Some(LogRecord::Update { txn_num, value, offset: offset as usize, block })
            },
            Ok(UpdateValueType::STRING) => {
                if !p.has_bytes(vpos) {
                    return None;
                }
                let value = UpdateValue::STRING(p.get_string(vpos));
                Some(LogRecord::Update { txn_num, value, offset: offset as usize, block })
            },
        }
    }

    /// The kind of the record.
    pub fn operation(&self) -> (kind: RecordType)
        ensures
            kind == self@.operation(),
    {
        match self {
            LogRecord::Checkpoint => RecordType::Checkpoint,
            LogRecord::Start { .. } => RecordType::Start,
            LogRecord::Commit { .. } => RecordType::Commit,
            LogRecord::Rollback { .. } => RecordType::Rollback,
            LogRecord::Update { .. } => RecordType::Update,
        }
    }

    /// The transaction that the record belongs to; a checkpoint belongs to none.
    pub fn txn_num(&self) -> (n: Option<usize>)
        ensures
            n == self@.txn_num(),
    {
        match self {
            LogRecord::Checkpoint => None,
            LogRecord::Start { txn_num } => Some(*txn_num),
            LogRecord::Commit { txn_num } => Some(*txn_num),
            LogRecord::Rollback { txn_num } => Some(*txn_num),
            LogRecord::Update { txn_num, .. } => Some(*txn_num),
        }
    }

    /// Whether the record can be written to a log of blocks of `block_size`
    /// bytes: it can be encoded, and its bytes fit into a block, together with
    /// their length and the block's boundary.
    pub fn fits(&self, block_size: usize) -> (b: bool)
        ensures
            b == (self@.encodable() && self@.encoding().len() + 8 <= block_size),
    {
        proof {
            lemma_fits(self@, block_size);
        }
        self.has_room_in(block_size)
    }

    /// Whether the record's numbers and lengths are within their limits for a
    /// log of blocks of `block_size` bytes.
    fn has_room_in(&self, block_size: usize) -> (b: bool)
        ensures
            b == room_in(self@, block_size),
    {
        let limit: usize = 0x7fff_ffff;
        match self {
            LogRecord::Checkpoint => block_size >= 12,
            LogRecord::Start { txn_num } => *txn_num <= limit && block_size >= 16,
            LogRecord::Commit { txn_num } => *txn_num <= limit && block_size >= 16,
            LogRecord::Rollback { txn_num } => *txn_num <= limit && block_size >= 16,
            LogRecord::Update { txn_num, value, offset, block } => {
                if *txn_num > limit || *offset > limit || block.number() > limit {
                    return false;
                }
                if block_size < 36 {
                    return false;
                }
                let room: usize = if block_size - 8 < limit {
                    block_size - 8 - 24
                } else {
                    limit - 24
                };
                let name_len: usize = block.filename().as_bytes().len();
                if name_len > room {
                    return false;
                }
                let left: usize = room - name_len;
                match value {
                    UpdateValue::INT(_) => left >= 4,
                    UpdateValue::STRING(s) => left >= 4 && s.as_str().as_bytes().len() <= left - 4,
                }
            },
        }
    }

    /// Appends the record to the log, and returns its number.
    pub fn write_to_log(&self, lm: &mut LogManager, fm: &mut FileManager) -> (lsn: Lsn)
        requires
            self@.encodable(),
            self@.encoding().len() + 8 <= old(fm).spec_block_size(),
            old(lm).wf(old(fm)),
            old(fm).wf(),
            old(lm).has_room(),
        ensures
            final(lm).wf(final(fm)),
            final(fm).continues(old(fm)),
            lsn == old(lm)@.latest_lsn + 1,
            final(lm)@ == old(lm)@.appended(old(fm).disk(), self@.encoding()),
            final(fm).disk() == old(lm)@.disk_appended(old(fm).disk(), self@.encoding()),
    {
        let bytes = self.to_bytes();
        lm.append(fm, bytes.as_slice())
    }

    /// Undoes the record by `txn`: see [`Transaction::undo`].
    pub fn undo(&self, txn: &mut Transaction, tm: &mut TransactionManager, waited_ms: u64) -> (r:
        Result<(), TxnError>)
        requires
            old(tm).wf(),
            old(txn).wf(old(tm)),
            old(txn).state() == TxnState::Active,
        ensures
            final(tm).wf(),
            final(txn).wf(final(tm)),
            final(txn).state() == old(txn).state(),
            final(txn).spec_txn_num() == old(txn).spec_txn_num(),
            final(txn).pinned() == old(txn).pinned(),
            final(tm).next_txn_num == old(tm).next_txn_num,
            final(tm).fm.continues(&old(tm).fm),
            final(tm).lm@.latest_lsn == old(tm).lm@.latest_lsn,
            RecoveryManager::undone_step_with(
                old(txn).spec_txn_num(),
                old(txn).pinned(),
                *old(tm),
                *final(tm),
                self@,
                waited_ms,
                r,
            ),
    {
        txn.undo(tm, self, waited_ms)
    }

    /// The record's bytes, as they stand in the log.
    pub fn to_bytes(&self) -> (bytes: Vec<u8>)
        requires
            self@.encodable(),
        ensures
            bytes@ == self@.encoding(),
    {
        let op: i32 = self.operation().code();
        proof {
            lemma_int_le_roundtrip(op);
        }
        match self {
            LogRecord::Checkpoint => {
                let mut p = Page::new(SIZE_OF_INT);
                assert(p@.subrange(0, 0) =~= Seq::<u8>::empty());
                put_int(&mut p, 0, op, Ghost(Seq::empty()));
                assert(p@ =~= p@.subrange(0, 4));
                assert(p@ =~= self@.encoding());
                p.into_bytes()
            },
            LogRecord::Start { txn_num }
            | LogRecord::Commit { txn_num }
            | LogRecord::Rollback { txn_num } => {
                proof {
                    lemma_int_le_roundtrip(*txn_num as i32);
                }
                let mut p = Page::new(SIZE_OF_INT * 2);
                assert(p@.subrange(0, 0) =~= Seq::<u8>::empty());
                put_int(&mut p, 0, op, Ghost(Seq::empty()));
                assert(Seq::<u8>::empty() + int_to_le(op) =~= int_to_le(op));
                put_int(&mut p, SIZE_OF_INT, *txn_num as i32, Ghost(int_to_le(op)));
                assert(p@ =~= p@.subrange(0, 8));
                p.into_bytes()
            },
            LogRecord::Update { txn_num, value, offset, block } => {
                let ghost name = encode_utf8(block@.0);
                proof {
                    lemma_encoding_len(self@);
                }
                let tpos: usize = SIZE_OF_INT;
                let fpos: usize = tpos + SIZE_OF_INT;
                let bpos: usize = fpos + Page::str_size(block.filename());
                let dtpos: usize = bpos + SIZE_OF_INT;
                let opos: usize = dtpos + SIZE_OF_INT;
                let vpos: usize = opos + SIZE_OF_INT;
                let val_size: usize = value.size();

                let mut p = Page::new(vpos + val_size);
                assert(p@.subrange(0, 0) =~= Seq::<u8>::empty());
                put_int(&mut p, 0, op, Ghost(Seq::empty()));
                assert(Seq::<u8>::empty() + int_to_le(op) =~= int_to_le(op));
                let ghost e1 = int_to_le(op);
                put_int(&mut p, tpos, *txn_num as i32, Ghost(e1));
                let ghost e2 = e1 + int_to_le(*txn_num as i32);
                put_string(&mut p, fpos, block.filename(), Ghost(e2));
                let ghost e3 = e2 + length_prefixed(name);
                put_int(&mut p, bpos, block.number() as i32, Ghost(e3));
                let ghost e4 = e3 + int_to_le(block@.1 as i32);
                put_int(&mut p, dtpos, value.data_type().code(), Ghost(e4));
                let ghost e5 = e4 + int_to_le(value@.data_type().spec_code());
                put_int(&mut p, opos, *offset as i32, Ghost(e5));
                let ghost e6 = e5 + int_to_le(*offset as i32);
                match value {
                    UpdateValue::INT(n) => {
                        put_int(&mut p, vpos, *n, Ghost(e6));
                    },
                    UpdateValue::STRING(s) => {
                        put_string(&mut p, vpos, s.as_str(), Ghost(e6));
                    },
                };
                assert(p@ =~= p@.subrange(0, vpos + val_size));
                p.into_bytes()
            },
        }
    }
}

/// The length of the bytes of a value.
pub open spec fn value_len(v: UpdateValueView) -> nat {
    match v {
        UpdateValueView::Int(_) => 4,
        UpdateValueView::Text(s) => 4 + encode_utf8(s).len(),
    }
}

/// The bytes of a value are as many as its length says.
pub proof fn lemma_value_len(v: UpdateValueView)
    ensures
        v.bytes().len() == value_len(v),
{
    match v {
        UpdateValueView::Int(n) => lemma_int_le_roundtrip(n),
        UpdateValueView::Text(s) => lemma_int_le_roundtrip(encode_utf8(s).len() as i32),
    }
}

/// Whether the numbers and lengths of a record are within their limits for a
/// log of blocks of `block_size` bytes.
pub open spec fn room_in(r: LogRecordView, block_size: usize) -> bool {
    match r {
        LogRecordView::Checkpoint => block_size >= 12,
        LogRecordView::Start { txn_num } => txn_num <= i32::MAX && block_size >= 16,
        LogRecordView::Commit { txn_num } => txn_num <= i32::MAX && block_size >= 16,
        LogRecordView::Rollback { txn_num } => txn_num <= i32::MAX && block_size >= 16,
        LogRecordView::Update { txn_num, value, offset, block } => {
            &&& txn_num <= i32::MAX
            &&& offset <= i32::MAX
            &&& block.1 <= i32::MAX
            &&& 24 + encode_utf8(block.0).len() + value_len(value) <= i32::MAX
            &&& 24 + encode_utf8(block.0).len() + value_len(value) + 8 <= block_size
        },
    }
}

/// A record can be written to a log exactly if its numbers and lengths are
/// within their limits.
pub proof fn lemma_fits(r: LogRecordView, block_size: usize)
    ensures
        (r.encodable() && r.encoding().len() + 8 <= block_size) == room_in(r, block_size),
{
    lemma_encoding_len(r);
}

/// The length of a record's bytes.
pub proof fn lemma_encoding_len(r: LogRecordView)
    ensures
        r.encoding().len() == match r {
            LogRecordView::Checkpoint => 4,
            LogRecordView::Update { value, block, .. } => 24 + encode_utf8(block.0).len()
                + value.bytes().len(),
            _ => 8,
        },
        match r {
            LogRecordView::Update { value, .. } => value.bytes().len() == match value {
                UpdateValueView::Int(_) => 4,
                UpdateValueView::Text(s) => 4 + encode_utf8(s).len(),
            },
            _ => true,
        },
{
    lemma_int_le_roundtrip(0);
    lemma_int_le_roundtrip(1);
    lemma_int_le_roundtrip(2);
    lemma_int_le_roundtrip(3);
    lemma_int_le_roundtrip(4);
    match r {
        LogRecordView::Checkpoint => {},
        LogRecordView::Start { txn_num } => lemma_int_le_roundtrip(txn_num as i32),
        LogRecordView::Commit { txn_num } => lemma_int_le_roundtrip(txn_num as i32),
        LogRecordView::Rollback { txn_num } => lemma_int_le_roundtrip(txn_num as i32),
        LogRecordView::Update { txn_num, value, offset, block } => {
            lemma_int_le_roundtrip(txn_num as i32);
            lemma_int_le_roundtrip(encode_utf8(block.0).len() as i32);
            lemma_int_le_roundtrip(block.1 as i32);
            lemma_int_le_roundtrip(value.data_type().spec_code());
            lemma_int_le_roundtrip(offset as i32);
            match value {
                UpdateValueView::Int(n) => lemma_int_le_roundtrip(n),
                UpdateValueView::Text(s) => lemma_int_le_roundtrip(encode_utf8(s).len() as i32),
            }
        },
    }
}

/// Decoding the bytes of a record gives the record back, whatever follows them.
pub proof fn lemma_decode_encoding_then(r: LogRecordView, rest: Seq<u8>)
    requires
        r.encodable(),
    ensures
        decode(r.encoding() + rest) == Some(r),
{
    let e = r.encoding();
    let all = e + rest;
    let none = Seq::<u8>::empty();
    lemma_encoding_len(r);
    let kind = r.operation().spec_code();
    match r {
        LogRecordView::Checkpoint => {
            lemma_int_at_between(none, kind, rest);
            assert(all =~= none + int_to_le(kind) + rest);
        },
        LogRecordView::Start { txn_num }
        | LogRecordView::Commit { txn_num }
        | LogRecordView::Rollback { txn_num } => {
            let t = txn_num as i32;
            lemma_int_le_roundtrip(kind);
            lemma_int_at_between(none, kind, int_to_le(t) + rest);
            assert(all =~= none + int_to_le(kind) + (int_to_le(t) + rest));
            lemma_int_at_between(int_to_le(kind), t, rest);
            assert(all =~= int_to_le(kind) + int_to_le(t) + rest);
        },
        LogRecordView::Update { .. } => {
            lemma_int_le_roundtrip(kind);
            assert(all.subrange(0, 4) =~= int_to_le(kind));
            lemma_decode_update_encoding_then(r, rest);
        },
    }
}

/// The fields of an update record are read back from its bytes, whatever follows
/// them.
proof fn lemma_decode_update_encoding_then(r: LogRecordView, rest: Seq<u8>)
    requires
        r is Update,
        r.encodable(),
    ensures
        decode_update(r.encoding() + rest) == Some(r),
{
    let all = r.encoding() + rest;
    lemma_encoding_len(r);
    if let LogRecordView::Update { txn_num, value, offset, block } = r {
        let name = encode_utf8(block.0);
        let f1 = int_to_le(4);
        let f2 = int_to_le(txn_num as i32);
        let f3 = length_prefixed(name);
        let f4 = int_to_le(block.1 as i32);
        let f5 = int_to_le(value.data_type().spec_code());
        let f6 = int_to_le(offset as i32);
        let f7 = value.bytes();
        let head2 = f1;
        let head3 = head2 + f2;
        let head4 = head3 + f3;
        let head5 = head4 + f4;
        let head6 = head5 + f5;
        let head7 = head6 + f6;
        let s7 = f7 + rest;
        let s6 = f6 + s7;
        let s5 = f5 + s6;
        let s4 = f4 + s5;
        let s3 = f3 + s4;
        lemma_int_le_roundtrip(4);
        lemma_int_le_roundtrip(txn_num as i32);
        lemma_int_le_roundtrip(name.len() as i32);
        lemma_int_le_roundtrip(block.1 as i32);
        lemma_int_le_roundtrip(value.data_type().spec_code());
        lemma_int_le_roundtrip(offset as i32);
        assert(all == head7 + f7 + rest);
        assert(all == head7 + s7) by {
            lemma_concat_assoc(head7, f7, rest);
        }
        assert(all == head6 + f6 + s7);
        assert(all == head6 + s6) by {
            lemma_concat_assoc(head6, f6, s7);
        }
        assert(all == head5 + f5 + s6);
        assert(all == head5 + s5) by {
            lemma_concat_assoc(head5, f5, s6);
        }
        assert(all == head4 + f4 + s5);
        assert(all == head4 + s4) by {
            lemma_concat_assoc(head4, f4, s5);
        }
        assert(all == head3 + f3 + s4);
        assert(all == head3 + s3) by {
            lemma_concat_assoc(head3, f3, s4);
        }
        assert(all == head2 + f2 + s3);

        assert(int_at(all, 4) == txn_num as i32) by {
            lemma_int_at_between(head2, txn_num as i32, s3);
        }
        assert(has_bytes_at(all, 8) && bytes_at(all, 8) == name) by {
            lemma_bytes_at_between(head3, name, s4);
        }
        assert(string_at(all, 8) == block.0) by {
            encode_utf8_valid_utf8(block.0);
            encode_utf8_decode_utf8(block.0);
        }
        let bpos: int = 12 + name.len() as int;
        assert(head4.len() == bpos);
        assert(int_at(all, bpos) == block.1 as i32) by {
            lemma_int_at_between(head4, block.1 as i32, s5);
        }
        assert(int_at(all, bpos + 4) == value.data_type().spec_code()) by {
            lemma_int_at_between(head5, value.data_type().spec_code(), s6);
        }
        assert(int_at(all, bpos + 8) == offset as i32) by {
            lemma_int_at_between(head6, offset as i32, s7);
        }
        assert(head7.len() == bpos + 12);
        match value {
            UpdateValueView::Int(n) => {
                lemma_int_le_roundtrip(n);
                assert(int_at(all, bpos + 12) == n) by {
                    lemma_int_at_between(head7, n, rest);
                }
            },
            UpdateValueView::Text(s) => {
                lemma_int_le_roundtrip(encode_utf8(s).len() as i32);
                assert(has_bytes_at(all, bpos + 12) && bytes_at(all, bpos + 12) == encode_utf8(s))
                    by {
                    lemma_bytes_at_between(head7, encode_utf8(s), rest);
                }
                assert(string_at(all, bpos + 12) == s) by {
                    encode_utf8_valid_utf8(s);
                    encode_utf8_decode_utf8(s);
                }
            },
        }
    }
}

/// Joining byte strings does not depend on how they are grouped.
proof fn lemma_concat_assoc(a: Seq<u8>, b: Seq<u8>, c: Seq<u8>)
    ensures
        a + b + c == a + (b + c),
{
    assert(a + b + c =~= a + (b + c));
}

/// Decoding after encoding gives the record back.
pub proof fn lemma_decode_encoding(r: LogRecordView)
    requires
        r.encodable(),
    ensures
        decode(r.encoding()) == Some(r),
{
    lemma_decode_encoding_then(r, Seq::empty());
    assert(r.encoding() + Seq::<u8>::empty() =~= r.encoding());
}

/// The value that stands at `offset` of a page, read as a value of the type of
/// `like`; `None` where no such value lies within the page there.
pub open spec fn pre_image(contents: Seq<u8>, offset: usize, like: UpdateValueView) -> Option<
    UpdateValueView,
> {
    match like {
        UpdateValueView::Int(_) => if offset + 4 <= contents.len() {
            Some(UpdateValueView::Int(int_at(contents, offset as int)))
        } else {
            None
        },
        UpdateValueView::Text(_) => if has_bytes_at(contents, offset as int) {
            Some(UpdateValueView::Text(string_at(contents, offset as int)))
        } else {
            None
        },
    }
}

/// The record of an update by `txn_num` at `offset` of the page of `buf`, which
/// replaces a value of the type of `new_val`: it carries the value that stands
/// there. `None` where no such value lies there, where the frame holds no
/// block, and where the record cannot be written to a log of blocks of
/// `block_size` bytes.
pub open spec fn update_record(
    txn_num: TxNum,
    buf: BufferView,
    offset: usize,
    new_val: UpdateValueView,
    block_size: usize,
) -> Option<LogRecordView> {
    match (pre_image(buf.contents, offset, new_val), buf.block) {
        (Some(value), Some(block)) => {
            let record = LogRecordView::Update { txn_num, value, offset, block };
            if record.encodable() && record.encoding().len() + 8 <= block_size {
                Some(record)
            } else {
                None
            }
        },
        _ => None,
    }
}

/// The recovery manager: it writes the records of what transactions do, and
/// undoes what has to be undone.
pub struct RecoveryManager {}

impl RecoveryManager {
    /// Writes the record that transaction `txn_num` has begun.
    pub fn start(lm: &mut LogManager, fm: &mut FileManager, txn_num: TxNum) -> (lsn: Lsn)
        requires
            old(lm).wf(old(fm)),
            old(fm).wf(),
            old(lm).has_room(),
            txn_num <= i32::MAX,
            old(fm).spec_block_size() >= 16,
        ensures
            final(lm).wf(final(fm)),
            final(fm).continues(old(fm)),
            lsn == old(lm)@.latest_lsn + 1,
            final(lm)@ == old(lm)@.appended(
                old(fm).disk(),
                (LogRecordView::Start { txn_num }).encoding(),
            ),
            final(fm).disk() == old(lm)@.disk_appended(
                old(fm).disk(),
                (LogRecordView::Start { txn_num }).encoding(),
            ),
    {
        proof {
            lemma_encoding_len(LogRecordView::Start { txn_num });
        }
        (LogRecord::Start { txn_num }).write_to_log(lm, fm)
    }

    /// Commits transaction `txn_num`: flushes the frames that it modified,
    /// writes the record that it has committed, and writes the log to disk.
    pub fn commit(
        bm: &mut BufferManager,
        lm: &mut LogManager,
        fm: &mut FileManager,
        txn_num: TxNum,
    )
        requires
            old(bm).wf(),
            old(lm).wf(old(fm)),
            old(fm).wf(),
            old(bm)@.block_size == old(fm).spec_block_size(),
            old(lm).has_room(),
            txn_num <= i32::MAX,
            old(fm).spec_block_size() >= 16,
        ensures
            final(bm).wf(),
            final(lm).wf(final(fm)),
            final(fm).continues(old(fm)),
            final(bm)@ == (PoolView {
                frames: old(bm)@.frames_flushed(txn_num),
                ..old(bm)@
            }),
            final(lm)@ == sealed(
                old(bm)@.to_flush(txn_num),
                old(lm)@,
                old(fm).disk(),
                (LogRecordView::Commit { txn_num }).encoding(),
            ).0,
            final(fm).disk() == sealed(
                old(bm)@.to_flush(txn_num),
                old(lm)@,
                old(fm).disk(),
                (LogRecordView::Commit { txn_num }).encoding(),
            ).1,
    {
        proof {
            lemma_encoding_len(LogRecordView::Commit { txn_num });
            lemma_flush_seq_keeps_latest(old(bm)@.to_flush(txn_num), old(lm)@, old(fm).disk());
        }
        bm.flush_all(txn_num, fm, lm);
        let lsn = (LogRecord::Commit { txn_num }).write_to_log(lm, fm);
        lm.flush(fm, lsn);
    }

    /// Writes the record of an update by `txn_num` at `offset` of the page of
    /// `buf`, which replaces a value of the type of `new_val`, and returns the
    /// record's number. The record carries the value that stands there. Where
    /// there is no such record, nothing is written, and the result is `None`.
    pub fn set_update(
        lm: &mut LogManager,
        fm: &mut FileManager,
        txn_num: TxNum,
        buf: &Buffer,
        offset: usize,
        new_val: &UpdateValue,
    ) -> (r: Option<Lsn>)
        requires
            old(lm).wf(old(fm)),
            old(fm).wf(),
            old(lm).has_room(),
        ensures
            final(lm).wf(final(fm)),
            final(fm).continues(old(fm)),
            match update_record(txn_num, buf@, offset, new_val@, old(fm).spec_block_size()) {
                Some(record) => {
                    &&& r == Some((old(lm)@.latest_lsn + 1) as Lsn)
                    &&& final(lm)@ == old(lm)@.appended(old(fm).disk(), record.encoding())
                    &&& final(fm).disk() == old(lm)@.disk_appended(
                        old(fm).disk(),
                        record.encoding(),
                    )
                },
                None => {
                    &&& r is None
                    &&& final(lm)@ == old(lm)@
                    &&& final(fm).disk() == old(fm).disk()
                },
            },
    {
        let block: BlockId = match buf.block() {
            Some(b) => b.clone(),
            None => {
                return None;
            },
        };
        let page = buf.contents();
        let size: usize = page.size();
        let old_val = match new_val {
            UpdateValue::INT(_) => {
                if size < SIZE_OF_INT || offset > size - SIZE_OF_INT {
                    return None;
                }
                UpdateValue::INT(page.get_int(offset))
            },
            UpdateValue::STRING(_) => {
                if !page.has_bytes(offset) {
                    return None;
                }
                UpdateValue::STRING(page.get_string(offset))
            },
        };
        let record = LogRecord::Update { value: old_val, txn_num, offset, block };
        if !record.fits(fm.block_size()) {
            return None;
        }
        Some(record.write_to_log(lm, fm))
    }
}

/// Whether `x` is among the numbers of `v`.
fn contains_txn(v: &Vec<TxNum>, x: TxNum) -> (b: bool)
    ensures
        b == v@.contains(x),
{
    let mut i: usize = 0;
    while i < v.len()
        invariant
            i <= v@.len(),
            forall|j: int| 0 <= j < i ==> v@[j] != x,
        decreases v@.len() - i,
    {
        if v[i] == x {
            return true;
        }
        i += 1;
    }
    false
}

impl RecoveryManager {
    /// Writes the log to disk, and reads from it, latest record first, the
    /// updates of transaction `txn_num` that are to be undone when it is rolled
    /// back.
    pub fn do_rollback(lm: &mut LogManager, fm: &mut FileManager, txn_num: TxNum) -> (plan: Vec<
        LogRecord,
    >)
        requires
            old(lm).wf(old(fm)),
            old(fm).wf(),
        ensures
            final(lm).wf(final(fm)),
            final(fm).continues(old(fm)),
            final(lm)@ == old(lm)@.saved(),
            final(fm).disk() == old(lm)@.disk_saved(old(fm).disk()),
            plan_view(plan@) == rollback_plan(
                LogIteratorView::at_block(
                    final(fm).disk(),
                    final(fm).spec_block_size() as nat,
                    old(lm)@.block,
                ).remaining(final(fm).disk(), final(fm).spec_block_size() as nat),
                txn_num,
            ),
            forall|i: int| 0 <= i < plan@.len() ==> (#[trigger] plan@[i])@ is Update,
    {
        let mut it = lm.iterator(fm);
        let ghost disk = fm.disk();
        let ghost bs = fm.spec_block_size() as nat;
        let ghost all = it@.remaining(disk, bs);
        let mut plan: Vec<LogRecord> = Vec::new();
        assert(plan_view(plan@) + rollback_plan(all, txn_num) =~= rollback_plan(all, txn_num));
        loop
            invariant_except_break
                rollback_plan(all, txn_num) == plan_view(plan@) + rollback_plan(
                    it@.remaining(disk, bs),
                    txn_num,
                ),
            invariant
                fm.wf(),
                disk == fm.disk(),
                bs == fm.spec_block_size(),
                forall|i: int| 0 <= i < plan@.len() ==> (#[trigger] plan@[i])@ is Update,
            ensures
                rollback_plan(all, txn_num) == plan_view(plan@),
                forall|i: int| 0 <= i < plan@.len() ==> (#[trigger] plan@[i])@ is Update,
            decreases it@.block.1, it@.page.len() - it@.pos,
        {
            let ghost before = it@;
            let ghost so_far = plan_view(plan@);
            let ghost rest = before.remaining(disk, bs);
            let bytes = match it.next(fm) {
                Some(bytes) => bytes,
                None => {
                    assert(so_far + Seq::<LogRecordView>::empty() =~= so_far);
                    break ;
                },
            };
            proof {
                assert(rest == seq![bytes@] + it@.remaining(disk, bs));
                assert(rest[0] == bytes@);
                assert(rest.drop_first() =~= it@.remaining(disk, bs));
            }
            let record = match LogRecord::new(bytes.as_slice()) {
                Some(record) => record,
                None => {
                    assert(so_far + Seq::<LogRecordView>::empty() =~= so_far);
                    break ;
                },
            };
            let mine: bool = match record.txn_num() {
                Some(t) => t == txn_num,
                None => false,
            };
            if mine {
                match record.operation() {
                    RecordType::Start => {
                        assert(so_far + Seq::<LogRecordView>::empty() =~= so_far);
                        break ;
                    },
                    RecordType::Update => {
                        let ghost view = record@;
                        plan.push(record);
                        proof {
                            let tail = rollback_plan(it@.remaining(disk, bs), txn_num);
                            assert(plan_view(plan@) =~= so_far.push(view));
                            assert(so_far + (seq![view] + tail) =~= so_far.push(view) + tail);
                        }
                    },
                    _ => {},
                }
            }
        }
        plan
    }

    /// Writes the log to disk, and reads from it, latest record first, the
    /// updates that are to be undone at recovery.
    pub fn do_recover(lm: &mut LogManager, fm: &mut FileManager) -> (plan: Vec<LogRecord>)
        requires
            old(lm).wf(old(fm)),
            old(fm).wf(),
        ensures
            final(lm).wf(final(fm)),
            final(fm).continues(old(fm)),
            final(lm)@ == old(lm)@.saved(),
            final(fm).disk() == old(lm)@.disk_saved(old(fm).disk()),
            plan_view(plan@) == recovery_plan(
                LogIteratorView::at_block(
                    final(fm).disk(),
                    final(fm).spec_block_size() as nat,
                    old(lm)@.block,
                ).remaining(final(fm).disk(), final(fm).spec_block_size() as nat),
                Set::empty(),
            ),
            forall|i: int| 0 <= i < plan@.len() ==> (#[trigger] plan@[i])@ is Update,
    {
        let mut it = lm.iterator(fm);
        let ghost disk = fm.disk();
        let ghost bs = fm.spec_block_size() as nat;
        let ghost all = it@.remaining(disk, bs);
        let mut plan: Vec<LogRecord> = Vec::new();
        let mut finished_txns: Vec<TxNum> = Vec::new();
        assert(plan_view(plan@) + recovery_plan(all, Set::empty()) =~= recovery_plan(
            all,
            Set::empty(),
        ));
        assert(Set::new(|t: TxNum| finished_txns@.contains(t)) =~= Set::<TxNum>::empty());
        loop
            invariant_except_break
                recovery_plan(all, Set::empty()) == plan_view(plan@) + recovery_plan(
                    it@.remaining(disk, bs),
                    Set::new(|t: TxNum| finished_txns@.contains(t)),
                ),
            invariant
                fm.wf(),
                disk == fm.disk(),
                bs == fm.spec_block_size(),
                forall|i: int| 0 <= i < plan@.len() ==> (#[trigger] plan@[i])@ is Update,
            ensures
                recovery_plan(all, Set::empty()) == plan_view(plan@),
                forall|i: int| 0 <= i < plan@.len() ==> (#[trigger] plan@[i])@ is Update,
            decreases it@.block.1, it@.page.len() - it@.pos,
        {
            let ghost before = it@;
            let ghost so_far = plan_view(plan@);
            let ghost rest = before.remaining(disk, bs);
            let ghost finished = Set::new(|t: TxNum| finished_txns@.contains(t));
            let bytes = match it.next(fm) {
                Some(bytes) => bytes,
                None => {
                    assert(so_far + Seq::<LogRecordView>::empty() =~= so_far);
                    break ;
                },
            };
            proof {
                assert(rest == seq![bytes@] + it@.remaining(disk, bs));
                assert(rest[0] == bytes@);
                assert(rest.drop_first() =~= it@.remaining(disk, bs));
            }
            let record = match LogRecord::new(bytes.as_slice()) {
                Some(record) => record,
                None => {
                    assert(so_far + Seq::<LogRecordView>::empty() =~= so_far);
                    break ;
                },
            };
            match record.operation() {
                RecordType::Checkpoint => {
                    assert(so_far + Seq::<LogRecordView>::empty() =~= so_far);
                    break ;
                },
                RecordType::Commit | RecordType::Rollback => {
                    let t: TxNum = match record.txn_num() {
                        Some(t) => t,
                        None => unreached(),
                    };
                    let ghost old_list = finished_txns@;
                    finished_txns.push(t);
                    proof {
                        assert forall|x: TxNum| finished_txns@.contains(x) == finished.insert(
                            t,
                        ).contains(x) by {
                            if finished_txns@.contains(x) {
                                let i = choose|i: int|
                                    0 <= i < finished_txns@.len() && finished_txns@[i] == x;
                                if i < old_list.len() {
                                    assert(old_list[i] == x);
                                }
                            }
                            if old_list.contains(x) {
                                let i = choose|i: int| 0 <= i < old_list.len() && old_list[i] == x;
                                assert(finished_txns@[i] == x);
                            }
                            if x == t {
                                assert(finished_txns@[old_list.len() as int] == x);
                            }
                        }
                        assert(Set::new(|x: TxNum| finished_txns@.contains(x)) =~= finished.insert(
                            t,
                        ));
                    }
                },
                RecordType::Start => {},
                RecordType::Update => {
                    let t: TxNum = match record.txn_num() {
                        Some(t) => t,
                        None => unreached(),
                    };
                    if !contains_txn(&finished_txns, t) {
                        let ghost view = record@;
                        plan.push(record);
                        proof {
                            let tail = recovery_plan(it@.remaining(disk, bs), finished);
                            assert(plan_view(plan@) =~= so_far.push(view));
                            assert(so_far + (seq![view] + tail) =~= so_far.push(view) + tail);
                        }
                    }
                },
            }
        }
        plan
    }

    /// Whether `states` are the managers before and after each of the updates
    /// of `plan` is undone by `txn`, one after the other, every one with
    /// success.
    #[verifier::opaque]
    pub open spec fn undone_all(
        txn_num: TxNum,
        pinned: Map<(Seq<char>, usize), usize>,
        states: Seq<TransactionManager>,
        plan: Seq<LogRecordView>,
        waited_ms: u64,
    ) -> bool {
        &&& states.len() == plan.len() + 1
        &&& forall|i: int|
            0 <= i < plan.len() ==> #[trigger] Self::undone_step(
                txn_num,
                pinned,
                states[i],
                states[i + 1],
                plan[i],
                waited_ms,
            )
    }

    /// Whether `post` is what `first` becomes, and `r` the error, when the
    /// updates of `plan` are undone one after the other until one fails: `states`
    /// are the managers before and after each update that is undone with
    /// success, and the next update of the plan is the one that fails.
    #[verifier::opaque]
    pub open spec fn undone_until_failure(
        txn_num: TxNum,
        pinned: Map<(Seq<char>, usize), usize>,
        first: TransactionManager,
        post: TransactionManager,
        plan: Seq<LogRecordView>,
        waited_ms: u64,
        r: Result<(), TxnError>,
    ) -> bool {
        exists|states: Seq<TransactionManager>|
            {
                &&& #[trigger] Self::undone_all(
                    txn_num,
                    pinned,
                    states,
                    plan.take(states.len() - 1),
                    waited_ms,
                )
                &&& 1 <= states.len() <= plan.len()
                &&& states[0] == first
                &&& r is Err
                &&& Self::undone_step_with(
                    txn_num,
                    pinned,
                    states.last(),
                    post,
                    plan[states.len() - 1],
                    waited_ms,
                    r,
                )
            }
    }

    /// Whether `post` is what `pre` becomes, and `r` the result, when the
    /// transaction undoes `record`.
    pub open spec fn undone_step_with(
        txn_num: TxNum,
        pinned: Map<(Seq<char>, usize), usize>,
        pre: TransactionManager,
        post: TransactionManager,
        record: LogRecordView,
        waited_ms: u64,
        r: Result<(), TxnError>,
    ) -> bool {
        exists|m1: TransactionManager, handle: usize, m2: TransactionManager| #[trigger]
            Transaction::undone(
                txn_num,
                pinned,
                &pre,
                &m1,
                handle,
                &m2,
                &post,
                record,
                waited_ms,
                r,
            )
    }

    /// Whether `post` is what `pre` becomes when `txn` undoes `record` with
    /// success.
    pub open spec fn undone_step(
        txn_num: TxNum,
        pinned: Map<(Seq<char>, usize), usize>,
        pre: TransactionManager,
        post: TransactionManager,
        record: LogRecordView,
        waited_ms: u64,
    ) -> bool {
        exists|m1: TransactionManager, handle: usize, m2: TransactionManager| #[trigger]
            Transaction::undone(
                txn_num,
                pinned,
                &pre,
                &m1,
                handle,
                &m2,
                &post,
                record,
                waited_ms,
                Ok(()),
            )
    }

    /// Undoes the updates of `plan` by `txn`, one after the other, and stops at
    /// the first that fails.
    fn undo_all(
        txn: &mut Transaction,
        tm: &mut TransactionManager,
        plan: &Vec<LogRecord>,
        waited_ms: u64,
    ) -> (r: Result<(), TxnError>)
        requires
            old(tm).wf(),
            old(txn).wf(old(tm)),
            old(txn).state() == TxnState::Active,
        ensures
            final(tm).wf(),
            final(txn).wf(final(tm)),
            final(txn).state() == old(txn).state(),
            final(txn).spec_txn_num() == old(txn).spec_txn_num(),
            final(txn).pinned() == old(txn).pinned(),
            final(tm).next_txn_num == old(tm).next_txn_num,
            final(tm).fm.continues(&old(tm).fm),
            final(tm).lm@.latest_lsn == old(tm).lm@.latest_lsn,
            r is Ok ==> exists|states: Seq<TransactionManager>|
                {
                    &&& #[trigger] Self::undone_all(
                        old(txn).spec_txn_num(),
                        old(txn).pinned(),
                        states,
                        plan_view(plan@),
                        waited_ms,
                    )
                    &&& states[0] == *old(tm)
                    &&& states.last() == *final(tm)
                },
            r is Err ==> Self::undone_until_failure(
                old(txn).spec_txn_num(),
                old(txn).pinned(),
                *old(tm),
                *final(tm),
                plan_view(plan@),
                waited_ms,
                r,
            ),
    {
        let ghost mut states: Seq<TransactionManager> = seq![*tm];
        let ghost num = txn.spec_txn_num();
        let ghost pinned = txn.pinned();
        let mut i: usize = 0;
        while i < plan.len()
            invariant
                i <= plan@.len(),
                tm.wf(),
                txn.wf(tm),
                txn.state() == TxnState::Active,
                txn.spec_txn_num() == num,
                txn.pinned() == pinned,
                old(txn).state() == TxnState::Active,
                num == old(txn).spec_txn_num(),
                pinned == old(txn).pinned(),
                tm.next_txn_num == old(tm).next_txn_num,
                tm.fm.continues(&old(tm).fm),
                tm.lm@.latest_lsn == old(tm).lm@.latest_lsn,
                states.len() == i + 1,
                states[0] == *old(tm),
                states[i as int] == *tm,
                forall|j: int|
                    0 <= j < i ==> #[trigger] Self::undone_step(
                        num,
                        pinned,
                        states[j],
                        states[j + 1],
                        plan_view(plan@)[j],
                        waited_ms,
                    ),
            decreases plan@.len() - i,
        {
            let ghost before = *tm;
            let r = txn.undo(tm, &plan[i], waited_ms);
            if r.is_err() {
                proof {
                    reveal(RecoveryManager::undone_all);
                    reveal(RecoveryManager::undone_until_failure);
                    let done = plan_view(plan@).take(i as int);
                    assert forall|j: int| 0 <= j < done.len() implies #[trigger] Self::undone_step(
                        num,
                        pinned,
                        states[j],
                        states[j + 1],
                        done[j],
                        waited_ms,
                    ) by {
                        assert(Self::undone_step(
                            num,
                            pinned,
                            states[j],
                            states[j + 1],
                            plan_view(plan@)[j],
                            waited_ms,
                        ));
                    }
                    assert(Self::undone_all(num, pinned, states, done, waited_ms));
                    assert(Self::undone_step_with(
                        num,
                        pinned,
                        states.last(),
                        *tm,
                        plan_view(plan@)[states.len() - 1],
                        waited_ms,
                        r,
                    ));
                }
                return r;
            }
            proof {
                let old_states = states;
                states = states.push(*tm);
                assert(r is Ok);
                assert(r->Ok_0 == ());
                assert(r == Ok::<(), TxnError>(()));
                let (m1, handle, m2) = choose|
                    m1: TransactionManager,
                    handle: usize,
                    m2: TransactionManager,
                | #[trigger]
                    Transaction::undone(
                        num,
                        pinned,
                        &before,
                        &m1,
                        handle,
                        &m2,
                        &(*tm),
                        plan@[i as int]@,
                        waited_ms,
                        r,
                    );
                assert(Transaction::undone(
                    num,
                    pinned,
                    &before,
                    &m1,
                    handle,
                    &m2,
                    &(*tm),
                    plan@[i as int]@,
                    waited_ms,
                    Ok(()),
                ));
                assert(Self::undone_step(
                    num,
                    pinned,
                    before,
                    *tm,
                    plan@[i as int]@,
                    waited_ms,
                ));
                assert forall|j: int| 0 <= j < i + 1 implies #[trigger] Self::undone_step(
                    num,
                    pinned,
                    states[j],
                    states[j + 1],
                    plan_view(plan@)[j],
                    waited_ms,
                ) by {
                    if j < i {
                        assert(states[j] == old_states[j]);
                        assert(states[j + 1] == old_states[j + 1]);
                        assert(Self::undone_step(
                            num,
                            pinned,
                            old_states[j],
                            old_states[j + 1],
                            plan_view(plan@)[j],
                            waited_ms,
                        ));
                    }
                }
            }
            i += 1;
        }
        proof {
            reveal(RecoveryManager::undone_all);
            assert(Self::undone_all(num, pinned, states, plan_view(plan@), waited_ms));
        }
        Ok(())
    }

    /// Rolls `txn` back: undoes its updates, latest first, flushes the frames
    /// that it modified, writes the record that it was rolled back, and writes
    /// the log to disk. Stops at the first update that cannot be undone.
    pub fn rollback(txn: &mut Transaction, tm: &mut TransactionManager, waited_ms: u64) -> (r:
        Result<(), TxnError>)
        requires
            old(tm).wf(),
            old(txn).wf(old(tm)),
            old(txn).state() == TxnState::Active,
            old(tm).lm.has_room(),
        ensures
            final(tm).wf(),
            final(txn).wf(final(tm)),
            final(txn).state() == old(txn).state(),
            final(txn).spec_txn_num() == old(txn).spec_txn_num(),
            final(txn).pinned() == old(txn).pinned(),
            final(tm).next_txn_num == old(tm).next_txn_num,
            final(tm).fm.continues(&old(tm).fm),
            r is Ok ==> Self::rolled_back(
                old(txn).spec_txn_num(),
                old(txn).pinned(),
                old(tm),
                final(tm),
                waited_ms,
            ),
            r is Err ==> Self::rollback_failed(
                old(txn).spec_txn_num(),
                old(txn).pinned(),
                old(tm),
                final(tm),
                waited_ms,
                r,
            ),
    {
        let plan = Self::do_rollback(&mut tm.lm, &mut tm.fm, txn.txn_num());
        let ghost first = *tm;
        proof {
            assert(Self::log_saved(old(tm), &first));
            assert(Self::plan_of_rollback(&first, txn.spec_txn_num()) == plan_view(plan@));
        }
        let undone = Self::undo_all(txn, tm, &plan, waited_ms);
        if undone.is_err() {
            return undone;
        }
        let ghost last = *tm;
        Self::end(tm, LogRecord::Rollback { txn_num: txn.txn_num() }, txn.txn_num());
        proof {
            let states = choose|states: Seq<TransactionManager>|
                {
                    &&& #[trigger] Self::undone_all(
                        old(txn).spec_txn_num(),
                        old(txn).pinned(),
                        states,
                        plan_view(plan@),
                        waited_ms,
                    )
                    &&& states[0] == first
                    &&& states.last() == last
                };
            assert(Self::undone_all(
                old(txn).spec_txn_num(),
                old(txn).pinned(),
                states,
                Self::plan_of_rollback(&states[0], old(txn).spec_txn_num()),
                waited_ms,
            ));
        }
        Ok(())
    }

    /// Whether `post` is what the managers become when transaction `txn_num`,
    /// which has pinned the blocks of `pinned`, is rolled back with success: the
    /// log is written to disk; the updates of the transaction that the log
    /// holds, down to the record of its begin, are undone, latest first; the
    /// frames that the transaction modified are flushed; and the record that
    /// it was rolled back is appended to the log, which is written to disk.
    pub open spec fn rolled_back(
        txn_num: TxNum,
        pinned: Map<(Seq<char>, usize), usize>,
        pre: &TransactionManager,
        post: &TransactionManager,
        waited_ms: u64,
    ) -> bool {
        exists|states: Seq<TransactionManager>|
            {
                &&& #[trigger] Self::undone_all(
                    txn_num,
                    pinned,
                    states,
                    Self::plan_of_rollback(&states[0], txn_num),
                    waited_ms,
                )
                &&& Self::log_saved(pre, &states[0])
                &&& Self::ended(
                    &states.last(),
                    post,
                    txn_num,
                    (LogRecordView::Rollback { txn_num }).encoding(),
                )
            }
    }

    /// Whether `post` is what the managers become at a recovery by transaction
    /// `txn_num`, which has pinned the blocks of `pinned`, with success: the log
    /// is written to disk; the updates of the transactions that have not ended
    /// are undone, latest first; the frames that the transaction modified are
    /// flushed; and a checkpoint is appended to the log, which is written to
    /// disk.
    pub open spec fn recovered(
        txn_num: TxNum,
        pinned: Map<(Seq<char>, usize), usize>,
        pre: &TransactionManager,
        post: &TransactionManager,
        waited_ms: u64,
    ) -> bool {
        exists|states: Seq<TransactionManager>|
            {
                &&& #[trigger] Self::undone_all(
                    txn_num,
                    pinned,
                    states,
                    Self::plan_of_recovery(&states[0]),
                    waited_ms,
                )
                &&& Self::log_saved(pre, &states[0])
                &&& Self::ended(&states.last(), post, txn_num, LogRecordView::Checkpoint.encoding())
            }
    }

    /// The updates that are undone when transaction `txn_num` is rolled back,
    /// once the log is on disk, as `first` holds it.
    pub open spec fn plan_of_rollback(first: &TransactionManager, txn_num: TxNum) -> Seq<
        LogRecordView,
    > {
        rollback_plan(
            LogIteratorView::at_block(
                first.fm.disk(),
                first.fm.spec_block_size() as nat,
                first.lm@.block,
            ).remaining(first.fm.disk(), first.fm.spec_block_size() as nat),
            txn_num,
        )
    }

    /// The updates that are undone at recovery, once the log is on disk, as
    /// `first` holds it.
    pub open spec fn plan_of_recovery(first: &TransactionManager) -> Seq<LogRecordView> {
        recovery_plan(
            LogIteratorView::at_block(
                first.fm.disk(),
                first.fm.spec_block_size() as nat,
                first.lm@.block,
            ).remaining(first.fm.disk(), first.fm.spec_block_size() as nat),
            Set::empty(),
        )
    }

    /// Whether `post` is what the managers become, and `r` the error, when the
    /// rollback of transaction `txn_num` fails: the log is written to disk, and
    /// the updates of the transaction are undone, latest first, until one
    /// fails.
    pub open spec fn rollback_failed(
        txn_num: TxNum,
        pinned: Map<(Seq<char>, usize), usize>,
        pre: &TransactionManager,
        post: &TransactionManager,
        waited_ms: u64,
        r: Result<(), TxnError>,
    ) -> bool {
        exists|first: TransactionManager|
            {
                &&& #[trigger] Self::log_saved(pre, &first)
                &&& Self::undone_until_failure(
                    txn_num,
                    pinned,
                    first,
                    *post,
                    Self::plan_of_rollback(&first, txn_num),
                    waited_ms,
                    r,
                )
            }
    }

    /// Whether `post` is what the managers become, and `r` the error, when a
    /// recovery by transaction `txn_num` fails: the log is written to disk, and
    /// the updates of the transactions that have not ended are undone, latest
    /// first, until one fails.
    pub open spec fn recovery_failed(
        txn_num: TxNum,
        pinned: Map<(Seq<char>, usize), usize>,
        pre: &TransactionManager,
        post: &TransactionManager,
        waited_ms: u64,
        r: Result<(), TxnError>,
    ) -> bool {
        exists|first: TransactionManager|
            {
                &&& #[trigger] Self::log_saved(pre, &first)
                &&& Self::undone_until_failure(
                    txn_num,
                    pinned,
                    first,
                    *post,
                    Self::plan_of_recovery(&first),
                    waited_ms,
                    r,
                )
            }
    }

    /// Whether `post` is `pre` after the log has been written to disk.
    pub open spec fn log_saved(pre: &TransactionManager, post: &TransactionManager) -> bool {
        &&& post.bm == pre.bm
        &&& post.concurrency_mgr == pre.concurrency_mgr
        &&& post.next_txn_num == pre.next_txn_num
        &&& post.fm.spec_block_size() == pre.fm.spec_block_size()
        &&& post.lm@ == pre.lm@.saved()
        &&& post.fm.disk() == pre.lm@.disk_saved(pre.fm.disk())
    }

    /// Whether `post` is `pre` after the frames that transaction `txn_num`
    /// modified have been flushed, `record` has been appended to the log, and
    /// the log has been written to disk.
    pub open spec fn ended(
        pre: &TransactionManager,
        post: &TransactionManager,
        txn_num: TxNum,
        record: Seq<u8>,
    ) -> bool {
        &&& post.concurrency_mgr == pre.concurrency_mgr
        &&& post.next_txn_num == pre.next_txn_num
        &&& post.bm@ == (PoolView { frames: pre.bm@.frames_flushed(txn_num), ..pre.bm@ })
        &&& post.lm@ == sealed(pre.bm@.to_flush(txn_num), pre.lm@, pre.fm.disk(), record).0
        &&& post.fm.disk() == sealed(pre.bm@.to_flush(txn_num), pre.lm@, pre.fm.disk(), record).1
    }

    /// Flushes the frames that transaction `txn_num` modified, appends `record`
    /// to the log, and writes the log to disk.
    fn end(tm: &mut TransactionManager, record: LogRecord, txn_num: TxNum)
        requires
            old(tm).wf(),
            old(tm).lm.has_room(),
            record@.encodable(),
            record@.encoding().len() + 8 <= old(tm).fm.spec_block_size(),
        ensures
            final(tm).wf(),
            final(tm).fm.continues(&old(tm).fm),
            Self::ended(old(tm), final(tm), txn_num, record@.encoding()),
    {
        proof {
            lemma_flush_seq_keeps_latest(old(tm).bm@.to_flush(txn_num), old(tm).lm@, old(tm).fm.disk());
        }
        tm.bm.flush_all(txn_num, &mut tm.fm, &mut tm.lm);
        let lsn = record.write_to_log(&mut tm.lm, &mut tm.fm);
        tm.lm.flush(&mut tm.fm, lsn);
    }

    /// Recovers after a restart, by `txn`: undoes the updates of the
    /// transactions that have not ended, latest first, flushes the frames that
    /// `txn` modified, writes a checkpoint, and writes the log to disk. Stops at
    /// the first update that cannot be undone.
    pub fn recover(txn: &mut Transaction, tm: &mut TransactionManager, waited_ms: u64) -> (r:
        Result<(), TxnError>)
        requires
            old(tm).wf(),
            old(txn).wf(old(tm)),
            old(txn).state() == TxnState::Active,
            old(tm).lm.has_room(),
        ensures
            final(tm).wf(),
            final(txn).wf(final(tm)),
            final(txn).state() == old(txn).state(),
            final(txn).spec_txn_num() == old(txn).spec_txn_num(),
            final(txn).pinned() == old(txn).pinned(),
            final(tm).next_txn_num == old(tm).next_txn_num,
            final(tm).fm.continues(&old(tm).fm),
            r is Ok ==> Self::recovered(
                old(txn).spec_txn_num(),
                old(txn).pinned(),
                old(tm),
                final(tm),
                waited_ms,
            ),
            r is Err ==> Self::recovery_failed(
                old(txn).spec_txn_num(),
                old(txn).pinned(),
                old(tm),
                final(tm),
                waited_ms,
                r,
            ),
    {
        let plan = Self::do_recover(&mut tm.lm, &mut tm.fm);
        let ghost first = *tm;
        proof {
            assert(Self::log_saved(old(tm), &first));
            assert(Self::plan_of_recovery(&first) == plan_view(plan@));
        }
        let undone = Self::undo_all(txn, tm, &plan, waited_ms);
        if undone.is_err() {
            return undone;
        }
        let ghost last = *tm;
        proof {
            lemma_encoding_len(LogRecordView::Checkpoint);
        }
        Self::end(tm, LogRecord::Checkpoint, txn.txn_num());
        proof {
            let states = choose|states: Seq<TransactionManager>|
                {
                    &&& #[trigger] Self::undone_all(
                        old(txn).spec_txn_num(),
                        old(txn).pinned(),
                        states,
                        plan_view(plan@),
                        waited_ms,
                    )
                    &&& states[0] == first
                    &&& states.last() == last
                };
            assert(Self::undone_all(
                old(txn).spec_txn_num(),
                old(txn).pinned(),
                states,
                Self::plan_of_recovery(&states[0]),
                waited_ms,
            ));
        }
        Ok(())
    }

    /// Whether `post` is `pre` after the frames that transaction `txn_num`
    /// modified have been flushed.
    pub open spec fn flushed_for(
        pre: &TransactionManager,
        post: &TransactionManager,
        txn_num: TxNum,
    ) -> bool {
        &&& post.concurrency_mgr == pre.concurrency_mgr
        &&& post.next_txn_num == pre.next_txn_num
        &&& post.fm.spec_block_size() == pre.fm.spec_block_size()
        &&& post.bm@ == (PoolView { frames: pre.bm@.frames_flushed(txn_num), ..pre.bm@ })
        &&& post.lm@ == flush_seq(pre.bm@.to_flush(txn_num), pre.lm@, pre.fm.disk()).0
        &&& post.fm.disk() == flush_seq(pre.bm@.to_flush(txn_num), pre.lm@, pre.fm.disk()).1
    }
}

/// The log manager and the disk after the buffers have been flushed, the record
/// `record` has been appended to the log, and the log has been written to disk.
pub open spec fn sealed(
    bufs: Seq<BufferView>,
    lm: LogManagerView,
    disk: Disk,
    record: Seq<u8>,
) -> (LogManagerView, Disk) {
    let (lm1, disk1) = flush_seq(bufs, lm, disk);
    let lm2 = lm1.appended(disk1, record);
    let disk2 = lm1.disk_appended(disk1, record);
    (lm2.saved(), lm2.disk_saved(disk2))
}

/// Commit is durable: after the buffers that a transaction modified have been
/// flushed, the record of its end has been appended to the log, and the log
/// has been written to disk, every record of the log is on disk, the record
/// of the end is the latest of them, and the block of each of the buffers holds
/// the buffer's page.
pub proof fn lemma_sealed_durable(
    bufs: Seq<BufferView>,
    lm: LogManagerView,
    disk: Disk,
    record: Seq<u8>,
    block_size: usize,
    j: int,
)
    requires
        lm.wf(block_size),
        record.len() + 8 <= block_size,
        lm.latest_lsn < u32::MAX,
        flushable(bufs, lm.logfile, block_size as nat),
        0 <= j < bufs.len(),
        bufs[j].txn_num is Some,
    ensures
        ({
            let (after, on_disk) = sealed(bufs, lm, disk, record);
            &&& after.latest_lsn == lm.latest_lsn + 1
            &&& after.last_saved_lsn == after.latest_lsn
            &&& disk_block(on_disk, after.block, block_size as nat) == after.page
            &&& has_bytes_at(after.page, int_at(after.page, 0) as int)
            &&& bytes_at(after.page, int_at(after.page, 0) as int) == record
            &&& disk_block(on_disk, bufs[j].block->0, block_size as nat) == bufs[j].contents
        }),
{
    let (lm1, disk1) = flush_seq(bufs, lm, disk);
    lemma_flush_seq_log(bufs, lm, disk);
    lemma_flush_seq_writes(bufs, lm, disk, j);
    let lm2 = lm1.appended(disk1, record);
    let disk2 = lm1.disk_appended(disk1, record);
    let b = bufs[j].block->0;
    if record_fits(lm1.page, record) {
        lemma_record_placed(lm1.page, record);
    } else {
        lemma_page_reset(lm1.page);
        lemma_record_placed(crate::log::page_reset(lm1.page), record);
    }
    assert(disk2[b.0] == disk1[b.0]);
    assert(lm2.disk_saved(disk2)[b.0] == disk1[b.0]);
}

/// The frames that a pool flushes for a transaction hold blocks that differ
/// from each other, in pages of the pool's block size; none of them is a block
/// of the log file, if the pool holds none.
pub proof fn lemma_pool_flushable(v: PoolView, txn_num: TxNum, logfile: Seq<char>)
    requires
        v.wf(),
        forall|b: (Seq<char>, usize)| #[trigger] v.table().contains_key(b) ==> b.0 != logfile,
    ensures
        flushable(v.to_flush(txn_num), logfile, v.block_size as nat),
        forall|j: int|
            0 <= j < v.resident.len() && (#[trigger] v.to_flush(txn_num)[j]).txn_num is Some
                ==> v.to_flush(txn_num)[j] == v.frames[v.resident[j].1.pos as int]
                && v.to_flush(txn_num)[j].block == Some(v.resident[j].0),
{
    let bufs = v.to_flush(txn_num);
    assert forall|j: int| 0 <= j < v.resident.len() implies {
        let frame = v.frames[v.resident[j].1.pos as int];
        &&& v.table().contains_key(v.resident[j].0)
        &&& frame.block == Some(v.resident[j].0)
        &&& frame.contents.len() == v.block_size
        &&& (#[trigger] bufs[j]).txn_num is Some ==> bufs[j] == frame
    } by {
        crate::assoc::lemma_assoc_index(v.resident, j);
        assert(v.table().contains_key(v.resident[j].0));
        assert(v.frame_ok(v.resident[j].1.pos as int));
    }
    assert forall|i: int, j: int|
        0 <= i < j < bufs.len() && (#[trigger] bufs[i]).txn_num is Some && (
        #[trigger] bufs[j]).txn_num is Some implies bufs[i].block != bufs[j].block by {
        assert(v.resident[i].0 != v.resident[j].0);
    }
}

/// Commit is durable: once transaction `txn_num` has committed, every record of
/// the log is on disk, the latest of them says that the transaction has
/// committed, and each frame that the transaction modified is on disk, and
/// clean. This holds as long as no block of the pool is a block of the log
/// file.
pub proof fn lemma_commit_durable(
    v: PoolView,
    lm: LogManagerView,
    disk: Disk,
    txn_num: TxNum,
    i: int,
)
    requires
        v.wf(),
        lm.wf(v.block_size),
        v.block_size >= 16,
        lm.latest_lsn < u32::MAX,
        txn_num <= i32::MAX,
        forall|b: (Seq<char>, usize)| #[trigger] v.table().contains_key(b) ==> b.0 != lm.logfile,
        0 <= i < v.frames.len(),
        v.frames[i].txn_num == Some(txn_num),
        v.frames[i].block is Some,
    ensures
        ({
            let record = LogRecordView::Commit { txn_num };
            let (after, on_disk) = sealed(v.to_flush(txn_num), lm, disk, record.encoding());
            let bs = v.block_size as nat;
            &&& after.latest_lsn == lm.latest_lsn + 1
            &&& after.last_saved_lsn == after.latest_lsn
            &&& disk_block(on_disk, after.block, bs) == after.page
            &&& decode(bytes_at(after.page, int_at(after.page, 0) as int)) == Some(record)
            &&& disk_block(on_disk, v.frames[i].block->0, bs) == v.frames[i].contents
            &&& v.frames_flushed(txn_num)[i].txn_num is None
        }),
{
    let record = LogRecordView::Commit { txn_num };
    let block = v.frames[i].block->0;
    assert(v.frame_ok(i));
    let j = crate::assoc::lemma_assoc_witness(v.resident, block);
    lemma_pool_flushable(v, txn_num, lm.logfile);
    assert(v.resident[j].1.pos == i);
    assert(v.to_flush(txn_num)[j] == v.frames[i]);
    lemma_encoding_len(record);
    lemma_decode_encoding(record);
    lemma_sealed_durable(v.to_flush(txn_num), lm, disk, record.encoding(), v.block_size, j);
}

/// Flushing buffers numbers no record, and takes none from the disk.
pub proof fn lemma_flush_seq_keeps_latest(bufs: Seq<BufferView>, lm: LogManagerView, disk: Disk)
    ensures
        flush_seq(bufs, lm, disk).0.latest_lsn == lm.latest_lsn,
        flush_seq(bufs, lm, disk).0.last_saved_lsn >= lm.last_saved_lsn || flush_seq(
            bufs,
            lm,
            disk,
        ).0.last_saved_lsn == lm.latest_lsn,
    decreases bufs.len(),
{
    if bufs.len() > 0 {
        lemma_flush_seq_keeps_latest(bufs.drop_last(), lm, disk);
    }
}

/// The updates of transaction `txn_num` that are to be undone when it is rolled
/// back, given the records of the log, latest first: its updates down to the
/// record of its begin. Bytes that spell no record end the log.
pub open spec fn rollback_plan(records: Seq<Seq<u8>>, txn_num: TxNum) -> Seq<LogRecordView>
    decreases records.len(),
{
    if records.len() == 0 {
        Seq::empty()
    } else {
        match decode(records[0]) {
            None => Seq::empty(),
            Some(record) => {
                if record.txn_num() == Some(txn_num) {
                    if record is Start {
                        Seq::empty()
                    } else if record is Update {
                        seq![record] + rollback_plan(records.drop_first(), txn_num)
                    } else {
                        rollback_plan(records.drop_first(), txn_num)
                    }
                } else {
                    rollback_plan(records.drop_first(), txn_num)
                }
            },
        }
    }
}

/// The updates that are to be undone at recovery, given the records of the log,
/// latest first, and the transactions that are known to have ended: the updates
/// of transactions of which no later record says that they committed or were
/// rolled back, down to the first checkpoint. Bytes that spell no record end
/// the log.
pub open spec fn recovery_plan(records: Seq<Seq<u8>>, finished: Set<TxNum>) -> Seq<LogRecordView>
    decreases records.len(),
{
    if records.len() == 0 {
        Seq::empty()
    } else {
        match decode(records[0]) {
            None => Seq::empty(),
            Some(record) => match record {
                LogRecordView::Checkpoint => Seq::empty(),
                LogRecordView::Commit { txn_num } => recovery_plan(
                    records.drop_first(),
                    finished.insert(txn_num),
                ),
                LogRecordView::Rollback { txn_num } => recovery_plan(
                    records.drop_first(),
                    finished.insert(txn_num),
                ),
                LogRecordView::Start { .. } => recovery_plan(records.drop_first(), finished),
                LogRecordView::Update { txn_num, .. } => if finished.contains(txn_num) {
                    recovery_plan(records.drop_first(), finished)
                } else {
                    seq![record] + recovery_plan(records.drop_first(), finished)
                },
            },
        }
    }
}

/// The records that a vector of records holds.
pub open spec fn plan_view(v: Seq<LogRecord>) -> Seq<LogRecordView> {
    Seq::new(v.len(), |i: int| v[i]@)
}

} // verus!
