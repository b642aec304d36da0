//! The write-ahead log.
//!
//! The log is a file of blocks. A block starts with its boundary: the offset of
//! the record that was written last. Records are placed from the block's end
//! towards its start, so that reading a block from its boundary on gives its
//! records latest first.

use vstd::prelude::*;
use vstd::slice::slice_to_vec;

use crate::file::{
    bytes_at, disk_block, disk_written, has_bytes_at, int_at, lemma_bytes_at_with_bytes,
    lemma_int_at_with_int, with_bytes, with_int, zeros, BlockId, Disk, FileManager, Page,
    SIZE_OF_INT,
};

verus! {

/// Log sequence number: the number of a record of the log. The first record has
/// the number 1; 0 stands for no record.
pub type Lsn = u32;

/// Whether `record` fits into the page below its boundary, with room left for
/// the boundary itself.
pub open spec fn record_fits(page: Seq<u8>, record: Seq<u8>) -> bool {
    int_at(page, 0) - (record.len() + 4) >= 4
}

/// The page after `record` has been placed below its boundary, and the boundary
/// moved to the record's start.
pub open spec fn record_placed(page: Seq<u8>, record: Seq<u8>) -> Seq<u8> {
    let pos = int_at(page, 0) - (record.len() + 4);
    with_int(with_bytes(page, pos, record), 0, pos as i32)
}

/// The page as the first page of a new block: its boundary is the block's end.
pub open spec fn page_reset(page: Seq<u8>) -> Seq<u8> {
    with_int(page, 0, page.len() as i32)
}

/// What placing a record does to a page: the boundary moves down by the
/// record's length and four, the record is read at the new boundary, and what
/// stood from the old boundary on stays.
pub proof fn lemma_record_placed(page: Seq<u8>, record: Seq<u8>)
    requires
        page.len() <= i32::MAX,
        4 <= int_at(page, 0) <= page.len(),
        record_fits(page, record),
    ensures
        record_placed(page, record).len() == page.len(),
        int_at(record_placed(page, record), 0) == int_at(page, 0) - (record.len() + 4),
        has_bytes_at(record_placed(page, record), int_at(record_placed(page, record), 0) as int),
        bytes_at(record_placed(page, record), int_at(record_placed(page, record), 0) as int)
            == record,
        forall|i: int|
            int_at(page, 0) <= i < page.len() ==> record_placed(page, record)[i] == page[i],
{
    let boundary = int_at(page, 0) as int;
    let pos = boundary - (record.len() + 4);
    let with_record = with_bytes(page, pos, record);
    let placed = record_placed(page, record);
    lemma_bytes_at_with_bytes(page, pos, record);
    lemma_int_at_with_int(with_record, 0, pos as i32);
    crate::file::lemma_int_le_roundtrip(pos as i32);
    crate::file::lemma_int_le_roundtrip(record.len() as i32);
    assert(placed.subrange(pos, pos + 4) =~= with_record.subrange(pos, pos + 4));
    assert(placed.subrange(pos + 4, pos + 4 + record.len()) =~= with_record.subrange(
        pos + 4,
        pos + 4 + record.len(),
    ));
    assert forall|i: int| boundary <= i < page.len() implies placed[i] == page[i] by {
        assert(with_record[i] == page[i]);
    }
}

/// A page that was reset holds no record: its boundary is its end.
pub proof fn lemma_page_reset(page: Seq<u8>)
    requires
        4 <= page.len() <= i32::MAX,
    ensures
        page_reset(page).len() == page.len(),
        int_at(page_reset(page), 0) == page.len(),
{
    lemma_int_at_with_int(page, 0, page.len() as i32);
}

/// Where a record does not fit into the current block, the log gets a new
/// block: the old block is on disk as the page stood, and the new block is on
/// disk with its boundary at its end.
pub proof fn lemma_new_block_on_disk(lm: LogManagerView, disk: Disk, record: Seq<u8>)
    requires
        4 <= lm.page.len() <= i32::MAX,
        lm.block.0 == lm.logfile,
        lm.block.1 < usize::MAX,
        disk[lm.logfile].len() <= usize::MAX,
        !record_fits(lm.page, record),
    ensures
        lm.block.1 < lm.disk_appended(disk, record)[lm.logfile].len() - 1,
        lm.disk_appended(disk, record)[lm.logfile][lm.block.1 as int] == lm.page,
        lm.appended(disk, record).block.1 == lm.disk_appended(disk, record)[lm.logfile].len() - 1,
        lm.disk_appended(disk, record)[lm.logfile].last() == page_reset(lm.page),
        int_at(page_reset(lm.page), 0) == lm.page.len(),
        lm.appended(disk, record).last_saved_lsn == lm.latest_lsn,
        lm.appended(disk, record).page == record_placed(page_reset(lm.page), record),
{
    lemma_page_reset(lm.page);
}

/// What a [`LogManager`] holds.
pub ghost struct LogManagerView {
    /// The name of the log file.
    pub logfile: Seq<char>,
    /// The page in memory, which holds the records of the current block.
    pub page: Seq<u8>,
    /// The current block: the last block of the log file.
    pub block: (Seq<char>, usize),
    /// The number of the record that was appended last.
    pub latest_lsn: Lsn,
    /// The number of the last record that is on disk.
    pub last_saved_lsn: Lsn,
}

impl LogManagerView {
    /// Whether the state is one that the log manager works on: the page is a
    /// block of the log file with a boundary within it.
    pub open spec fn wf(self, block_size: usize) -> bool {
        &&& 8 <= block_size <= i32::MAX
        &&& self.page.len() == block_size
        &&& 4 <= int_at(self.page, 0) <= block_size
        &&& self.block.0 == self.logfile
        &&& self.block.1 < usize::MAX
        &&& self.last_saved_lsn <= self.latest_lsn
    }

    /// The log manager of a log file that was empty: the page is the file's
    /// first block, with no record in it.
    pub open spec fn fresh(logfile: Seq<char>, block_size: nat) -> LogManagerView {
        LogManagerView {
            logfile,
            page: page_reset(zeros(block_size)),
            block: (logfile, 0),
            latest_lsn: 0,
            last_saved_lsn: 0,
        }
    }

    /// The log manager of a log file that holds blocks: the page is the file's
    /// last block.
    pub open spec fn reopened(logfile: Seq<char>, disk: Disk) -> LogManagerView {
        LogManagerView {
            logfile,
            page: disk[logfile].last(),
            block: (logfile, (disk[logfile].len() - 1) as usize),
            latest_lsn: 0,
            last_saved_lsn: 0,
        }
    }

    /// The state once the page has been written to disk: every record is on
    /// disk.
    pub open spec fn saved(self) -> LogManagerView {
        LogManagerView { last_saved_lsn: self.latest_lsn, ..self }
    }

    /// The disk once the page has been written to the current block.
    pub open spec fn disk_saved(self, disk: Disk) -> Disk {
        disk_written(disk, self.block, self.page, self.page.len())
    }

    /// The state after a request to have the log on disk up to `lsn`.
    pub open spec fn flushed(self, lsn: Lsn) -> LogManagerView {
        if lsn > self.last_saved_lsn {
            self.saved()
        } else {
            self
        }
    }

    /// The disk after a request to have the log on disk up to `lsn`: the page
    /// is written where the record `lsn` is not on disk yet.
    pub open spec fn disk_flushed(self, disk: Disk, lsn: Lsn) -> Disk {
        if lsn > self.last_saved_lsn {
            self.disk_saved(disk)
        } else {
            disk
        }
    }

    /// The state after `record` has been appended: placed in the page where it
    /// fits; otherwise placed in the page as the first page of a new block at
    /// the end of the log file, after the page was written to disk.
    pub open spec fn appended(self, disk: Disk, record: Seq<u8>) -> LogManagerView {
        if record_fits(self.page, record) {
            LogManagerView {
                page: record_placed(self.page, record),
                latest_lsn: (self.latest_lsn + 1) as Lsn,
                ..self
            }
        } else {
            LogManagerView {
                page: record_placed(page_reset(self.page), record),
                block: (self.logfile, self.disk_saved(disk)[self.logfile].len() as usize),
                latest_lsn: (self.latest_lsn + 1) as Lsn,
                last_saved_lsn: self.latest_lsn,
                ..self
            }
        }
    }

    /// The disk after `record` has been appended: as it was where the record
    /// fits into the page; otherwise the page is written to the current block,
    /// and a new block at the end of the log file holds the page with no record
    /// in it.
    pub open spec fn disk_appended(self, disk: Disk, record: Seq<u8>) -> Disk {
        if record_fits(self.page, record) {
            disk
        } else {
            let saved = self.disk_saved(disk);
            saved.insert(self.logfile, saved[self.logfile].push(page_reset(self.page)))
        }
    }
}

/// The log manager: it appends records to the log file, and writes the log to
/// disk on demand.
pub struct LogManager {
    logfile: String,
    logpage: Page,
    current_block: BlockId,
    latest_lsn: Lsn,
    last_saved_lsn: Lsn,
}

impl View for LogManager {
    type V = LogManagerView;

    closed spec fn view(&self) -> LogManagerView {
        LogManagerView {
            logfile: self.logfile@,
            page: self.logpage@,
            block: self.current_block@,
            latest_lsn: self.latest_lsn,
            last_saved_lsn: self.last_saved_lsn,
        }
    }
}

impl LogManager {
    /// The state is one that the log manager works on, for the block size of
    /// `fm`.
    pub open spec fn wf(&self, fm: &FileManager) -> bool {
        self@.wf(fm.spec_block_size())
    }

    /// Whether one more record can be numbered.
    pub open spec fn has_room(&self) -> bool {
        self@.latest_lsn < u32::MAX
    }

    /// Opens the log file `logfile`. An empty file gets its first block, with
    /// no record in it; otherwise the file's last block becomes the current
    /// block, and is read into the page.
    pub fn new(fm: &mut FileManager, logfile: &str) -> (lm: Self)
        requires
            old(fm).wf(),
            8 <= old(fm).spec_block_size() <= i32::MAX,
        ensures
            final(fm).continues(old(fm)),
            final(fm).disk()[logfile@].len() == lm@.block.1 + 1,
            old(fm).disk()[logfile@].len() == 0 ==> {
                &&& lm@ == LogManagerView::fresh(logfile@, old(fm).spec_block_size() as nat)
                &&& final(fm).disk() == old(fm).disk().insert(logfile@, seq![lm@.page])
                &&& lm.wf(final(fm))
            },
            old(fm).disk()[logfile@].len() > 0 ==> {
                &&& lm@ == LogManagerView::reopened(logfile@, old(fm).disk())
                &&& final(fm).disk() == old(fm).disk()
            },
    {
        let block_size: usize = fm.block_size();
        let mut logpage = Page::new(block_size);
        let logsize: u64 = fm.length(logfile);
        let current_block = if logsize == 0 {
            let block = fm.append(logfile);
            logpage.set_int(0, block_size as i32);
            fm.write(&block, &logpage);
            proof {
                lemma_int_at_with_int(zeros(block_size as nat), 0, block_size as i32);
                assert(fm.disk()[logfile@] =~= seq![logpage@]);
                assert(fm.disk() =~= old(fm).disk().insert(logfile@, seq![logpage@]));
            }
            block
        } else {
            let block = BlockId::new(logfile, logsize as usize - 1);
            fm.read(&block, &mut logpage);
            block
        };
        LogManager {
            logfile: logfile.to_owned(),
            logpage,
            current_block,
            latest_lsn: 0,
            last_saved_lsn: 0,
        }
    }

    /// Appends `record` to the log and returns its number. Where the record does
    /// not fit into the current block, that block is written to disk first, and
    /// the record goes into a new block at the end of the log file.
    pub fn append(&mut self, fm: &mut FileManager, record: &[u8]) -> (lsn: Lsn)
        requires
            old(self).wf(old(fm)),
            old(fm).wf(),
            record@.len() + 8 <= old(fm).spec_block_size(),
            old(self).has_room(),
        ensures
            final(self).wf(final(fm)),
            final(fm).continues(old(fm)),
            lsn == old(self)@.latest_lsn + 1,
            final(self)@ == old(self)@.appended(old(fm).disk(), record@),
            final(fm).disk() == old(self)@.disk_appended(old(fm).disk(), record@),
    {
        let boundary: i32 = self.logpage.get_int(0);
        let bytes_needed: usize = record.len() + SIZE_OF_INT;
        if boundary - (bytes_needed as i32) < SIZE_OF_INT as i32 {
            self.flush_page(fm);
            self.current_block = self.append_new_block(fm);
            proof {
                lemma_int_at_with_int(old(self)@.page, 0, fm.spec_block_size() as i32);
            }
        }
        self.place(record);
        self.latest_lsn
    }

    /// Places `record` below the page's boundary, and counts it.
    fn place(&mut self, record: &[u8])
        requires
            old(self)@.page.len() <= i32::MAX,
            4 <= int_at(old(self)@.page, 0) <= old(self)@.page.len(),
            record_fits(old(self)@.page, record@),
            old(self)@.latest_lsn < u32::MAX,
        ensures
            final(self)@ == (LogManagerView {
                page: record_placed(old(self)@.page, record@),
                latest_lsn: (old(self)@.latest_lsn + 1) as Lsn,
                ..old(self)@
            }),
            final(self)@.page.len() == old(self)@.page.len(),
            4 <= int_at(final(self)@.page, 0) <= final(self)@.page.len(),
    {
        let boundary: i32 = self.logpage.get_int(0);
        let bytes_needed: usize = record.len() + SIZE_OF_INT;
        let record_pos: usize = boundary as usize - bytes_needed;
        let ghost base = self.logpage@;
        proof {
            lemma_bytes_at_with_bytes(base, record_pos as int, record@);
            lemma_int_at_with_int(
                with_bytes(base, record_pos as int, record@),
                0,
                record_pos as i32,
            );
        }
        self.logpage.set_bytes(record_pos, record);
        self.logpage.set_int(0, record_pos as i32);
        self.latest_lsn += 1;
    }

    /// Adds a block to the log file, makes the page its first page, with no
    /// record in it, and writes it there.
    fn append_new_block(&mut self, fm: &mut FileManager) -> (block: BlockId)
        requires
            old(fm).wf(),
            old(self)@.page.len() == old(fm).spec_block_size(),
            4 <= old(fm).spec_block_size() <= i32::MAX,
        ensures
            final(fm).continues(old(fm)),
            final(self)@ == (LogManagerView { page: page_reset(old(self)@.page), ..old(self)@ }),
            old(fm).disk()[old(self)@.logfile].len() < usize::MAX,
            block@ == (old(self)@.logfile, old(fm).disk()[old(self)@.logfile].len() as usize),
            final(fm).disk() == old(fm).disk().insert(
                old(self)@.logfile,
                old(fm).disk()[old(self)@.logfile].push(page_reset(old(self)@.page)),
            ),
    {
        let block = fm.append(self.logfile.as_str());
        self.logpage.set_int(0, fm.block_size() as i32);
        fm.write(&block, &self.logpage);
        proof {
            let name = old(self)@.logfile;
            assert(fm.disk()[name] =~= old(fm).disk()[name].push(page_reset(old(self)@.page)));
            assert(fm.disk() =~= old(fm).disk().insert(
                name,
                old(fm).disk()[name].push(page_reset(old(self)@.page)),
            ));
        }
        block
    }

    /// Writes the page to the current block, whatever is on disk already.
    fn flush_page(&mut self, fm: &mut FileManager)
        requires
            old(fm).wf(),
            old(self)@.page.len() == old(fm).spec_block_size(),
            old(self)@.block.1 < usize::MAX,
        ensures
            final(fm).continues(old(fm)),
            final(fm).disk() == old(self)@.disk_saved(old(fm).disk()),
            final(self)@ == old(self)@.saved(),
    {
        fm.write(&self.current_block, &self.logpage);
        self.last_saved_lsn = self.latest_lsn;
    }

    /// Makes sure that the log is on disk up to the record `lsn`: where it is
    /// not yet, the page is written to the current block, and every record that
    /// was appended is on disk from then on.
    pub fn flush(&mut self, fm: &mut FileManager, lsn: Lsn)
        requires
            old(self).wf(old(fm)),
            old(fm).wf(),
        ensures
            final(self).wf(final(fm)),
            final(fm).continues(old(fm)),
            final(self)@ == old(self)@.flushed(lsn),
            final(fm).disk() == old(self)@.disk_flushed(old(fm).disk(), lsn),
    {
        if lsn > self.last_saved_lsn {
            self.flush_page(fm);
        }
    }

    /// The number of the record that was appended last; 0 where none was.
    pub fn latest_lsn(&self) -> (lsn: Lsn)
        ensures
            lsn == self@.latest_lsn,
    {
        self.latest_lsn
    }

    /// The number of the last record that is on disk.
    pub fn last_saved_lsn(&self) -> (lsn: Lsn)
        ensures
            lsn == self@.last_saved_lsn,
    {
        self.last_saved_lsn
    }

    /// Writes the page to disk, and returns an iterator over the records of the
    /// log, from the latest to the oldest.
    pub fn iterator(&mut self, fm: &mut FileManager) -> (it: LogIterator)
        requires
            old(self).wf(old(fm)),
            old(fm).wf(),
        ensures
            final(self).wf(final(fm)),
            final(fm).continues(old(fm)),
            final(fm).disk() == old(self)@.disk_saved(old(fm).disk()),
            final(self)@ == old(self)@.saved(),
            it@ == LogIteratorView::at_block(
                final(fm).disk(),
                final(fm).spec_block_size() as nat,
                old(self)@.block,
            ),
            it@ == old(self)@.reader(),
    {
        self.flush_page(fm);
        LogIterator::new(fm, self.current_block.clone())
    }
}

/// Where reading starts in a block: at its boundary, and at the block's end
/// where the boundary does not lie within the block.
pub open spec fn start_pos(page: Seq<u8>) -> nat {
    if page.len() >= 4 && 4 <= int_at(page, 0) <= page.len() {
        int_at(page, 0) as nat
    } else {
        page.len()
    }
}

/// The records that a vector of byte vectors holds.
pub open spec fn records_view(v: Seq<Vec<u8>>) -> Seq<Seq<u8>> {
    Seq::new(v.len(), |i: int| v[i]@)
}

/// What a [`LogIterator`] holds: a block of the log file, that block's bytes,
/// and the position of the next record in it.
pub ghost struct LogIteratorView {
    pub block: (Seq<char>, usize),
    pub page: Seq<u8>,
    pub pos: nat,
}

impl LogIteratorView {
    /// The iterator at the start of `block`.
    pub open spec fn at_block(
        disk: Disk,
        block_size: nat,
        block: (Seq<char>, usize),
    ) -> LogIteratorView {
        let page = disk_block(disk, block, block_size);
        LogIteratorView { block, page, pos: start_pos(page) }
    }

    /// The iterator where it reads next: at the start of the block before, once
    /// it has reached the end of a block that is not the first.
    pub open spec fn positioned(self, disk: Disk, block_size: nat) -> LogIteratorView {
        if self.pos == self.page.len() && self.block.1 > 0 {
            Self::at_block(disk, block_size, (self.block.0, (self.block.1 - 1) as usize))
        } else {
            self
        }
    }

    /// Whether a record is left: a length-prefixed byte string lies where the
    /// iterator reads next.
    pub open spec fn has_next(self, disk: Disk, block_size: nat) -> bool {
        let at = self.positioned(disk, block_size);
        has_bytes_at(at.page, at.pos as int)
    }

    /// The next record.
    pub open spec fn next_record(self, disk: Disk, block_size: nat) -> Seq<u8> {
        let at = self.positioned(disk, block_size);
        bytes_at(at.page, at.pos as int)
    }

    /// The iterator after it has given the next record.
    pub open spec fn advanced(self, disk: Disk, block_size: nat) -> LogIteratorView {
        let at = self.positioned(disk, block_size);
        LogIteratorView { pos: at.pos + 4 + self.next_record(disk, block_size).len(), ..at }
    }

    /// The records that are left, latest first.
    pub open spec fn remaining(self, disk: Disk, block_size: nat) -> Seq<Seq<u8>>
        decreases self.block.1, self.page.len() - self.pos,
    {
        if self.has_next(disk, block_size) {
            seq![self.next_record(disk, block_size)] + self.advanced(disk, block_size).remaining(
                disk,
                block_size,
            )
        } else {
            Seq::empty()
        }
    }
}

/// An iterator over the records of the log, from the latest to the oldest.
pub struct LogIterator {
    block: BlockId,
    page: Page,
    current_pos: usize,
}

impl View for LogIterator {
    type V = LogIteratorView;

    closed spec fn view(&self) -> LogIteratorView {
        LogIteratorView { block: self.block@, page: self.page@, pos: self.current_pos as nat }
    }
}

/// Where reading starts in the page.
fn page_start(page: &Page) -> (pos: usize)
    ensures
        pos == start_pos(page@),
{
    let size: usize = page.size();
    if size < SIZE_OF_INT {
        return size;
    }
    let boundary: i32 = page.get_int(0);
    if boundary >= SIZE_OF_INT as i32 && boundary as usize <= size {
        boundary as usize
    } else {
        size
    }
}

impl LogIterator {
    /// An iterator at the start of `block`.
    pub fn new(fm: &FileManager, block: BlockId) -> (it: Self)
        requires
            fm.wf(),
        ensures
            it@ == LogIteratorView::at_block(fm.disk(), fm.spec_block_size() as nat, block@),
    {
        let mut page = Page::new(fm.block_size());
        fm.read(&block, &mut page);
        let current_pos: usize = page_start(&page);
        LogIterator { block, page, current_pos }
    }

    /// The next record, from the latest to the oldest, or `None` where none is
    /// left. Bytes that do not hold a record end the log.
    pub fn next(&mut self, fm: &FileManager) -> (r: Option<Vec<u8>>)
        requires
            fm.wf(),
        ensures
            match r {
                Some(record) => {
                    &&& old(self)@.has_next(fm.disk(), fm.spec_block_size() as nat)
                    &&& record@ == old(self)@.next_record(fm.disk(), fm.spec_block_size() as nat)
                    &&& final(self)@ == old(self)@.advanced(
                        fm.disk(),
                        fm.spec_block_size() as nat,
                    )
                },
                None => {
                    &&& !old(self)@.has_next(fm.disk(), fm.spec_block_size() as nat)
                    &&& final(self)@ == old(self)@
                },
            },
    {
        if self.current_pos == self.page.size() && self.block.number() > 0 {
            let block = BlockId::new(self.block.filename(), self.block.number() - 1);
            let mut page = Page::new(fm.block_size());
            fm.read(&block, &mut page);
            let pos: usize = page_start(&page);
            let size: usize = page.size();
            if !page.has_bytes(pos) {
                return None;
            }
            assert(pos + SIZE_OF_INT + bytes_at(page@, pos as int).len() <= size);
            let record = slice_to_vec(page.get_bytes(pos));
            self.current_pos = pos + SIZE_OF_INT + record.len();
            self.page = page;
            self.block = block;
            Some(record)
        } else {
            if !self.page.has_bytes(self.current_pos) {
                return None;
            }
            let record = slice_to_vec(self.page.get_bytes(self.current_pos));
            self.current_pos = self.current_pos + SIZE_OF_INT + record.len();
            Some(record)
        }
    }

    /// The records that are left, latest first.
    pub fn collect(&mut self, fm: &FileManager) -> (records: Vec<Vec<u8>>)
        requires
            fm.wf(),
        ensures
            records_view(records@) == old(self)@.remaining(
                fm.disk(),
                fm.spec_block_size() as nat,
            ),
            !final(self)@.has_next(fm.disk(), fm.spec_block_size() as nat),
    {
        let mut records: Vec<Vec<u8>> = Vec::new();
        let ghost disk = fm.disk();
        let ghost bs = fm.spec_block_size() as nat;
        loop
            invariant
                fm.wf(),
                disk == fm.disk(),
                bs == fm.spec_block_size(),
                old(self)@.remaining(disk, bs) == records_view(records@) + self@.remaining(
                    disk,
                    bs,
                ),
            ensures
                records_view(records@) == old(self)@.remaining(disk, bs),
                !self@.has_next(disk, bs),
            decreases self@.block.1, self@.page.len() - self@.pos,
        {
            let ghost before = self@;
            let ghost so_far = records_view(records@);
            match self.next(fm) {
                Some(record) => {
                    records.push(record);
                    proof {
                        let first = before.next_record(disk, bs);
                        assert(records_view(records@) =~= so_far.push(first));
                        assert(so_far + (seq![first] + self@.remaining(disk, bs)) =~= so_far.push(
                            first,
                        ) + self@.remaining(disk, bs));
                    }
                },
                None => {
                    proof {
                        assert(so_far + Seq::<Seq<u8>>::empty() =~= so_far);
                    }
                    break ;
                },
            }
        }
        records
    }
}

impl LogManagerView {
    /// The iterator at the latest record of the log.
    pub open spec fn reader(self) -> LogIteratorView {
        LogIteratorView { block: self.block, page: self.page, pos: int_at(self.page, 0) as nat }
    }

    /// The records of the log, latest first: those of the page, and then those
    /// of the blocks before the current block, as they are on disk.
    pub open spec fn records(self, disk: Disk) -> Seq<Seq<u8>> {
        self.reader().remaining(disk, self.page.len())
    }
}

/// What is left to read depends on the page from the position on, and on the
/// blocks before the current block.
pub proof fn lemma_remaining_same(
    a: LogIteratorView,
    b: LogIteratorView,
    disk_a: Disk,
    disk_b: Disk,
    block_size: nat,
)
    requires
        a.block == b.block,
        a.pos == b.pos,
        a.page.len() == b.page.len(),
        forall|i: int| a.pos <= i < a.page.len() ==> a.page[i] == b.page[i],
        forall|n: usize|
            n < a.block.1 ==> disk_block(disk_a, (a.block.0, n), block_size) == disk_block(
                disk_b,
                (a.block.0, n),
                block_size,
            ),
    ensures
        a.remaining(disk_a, block_size) == b.remaining(disk_b, block_size),
    decreases a.block.1, a.page.len() - a.pos,
{
    let at_a = a.positioned(disk_a, block_size);
    let at_b = b.positioned(disk_b, block_size);
    if a.pos == a.page.len() && a.block.1 > 0 {
        let before = (a.block.0, (a.block.1 - 1) as usize);
        assert(disk_block(disk_a, before, block_size) == disk_block(disk_b, before, block_size));
        assert(at_a == at_b);
    }
    assert(at_a.block == at_b.block && at_a.pos == at_b.pos && at_a.page.len() == at_b.page.len());
    let pos = at_a.pos as int;
    if pos + 4 <= at_a.page.len() {
        assert(at_a.page.subrange(pos, pos + 4) =~= at_b.page.subrange(pos, pos + 4));
        let len = int_at(at_a.page, pos) as int;
        if len >= 0 && pos + 4 + len <= at_a.page.len() {
            assert(at_a.page.subrange(pos + 4, pos + 4 + len) =~= at_b.page.subrange(
                pos + 4,
                pos + 4 + len,
            ));
        }
    }
    assert(a.has_next(disk_a, block_size) == b.has_next(disk_b, block_size));
    if a.has_next(disk_a, block_size) {
        assert(a.next_record(disk_a, block_size) == b.next_record(disk_b, block_size));
        lemma_remaining_same(
            a.advanced(disk_a, block_size),
            b.advanced(disk_b, block_size),
            disk_a,
            disk_b,
            block_size,
        );
    }
}

/// Where a record lies at the iterator's position within its page, that record
/// is read first, and then what is left after it.
pub proof fn lemma_first_record(it: LogIteratorView, disk: Disk, block_size: nat, record: Seq<u8>)
    requires
        it.pos < it.page.len(),
        has_bytes_at(it.page, it.pos as int),
        bytes_at(it.page, it.pos as int) == record,
    ensures
        it.remaining(disk, block_size) == seq![record] + (LogIteratorView {
            pos: it.pos + 4 + record.len(),
            ..it
        }).remaining(disk, block_size),
{
    assert(it.positioned(disk, block_size) == it);
}

/// A record that is appended to a page in which it fits is the first that is
/// read, and after it come the records that the log held.
proof fn lemma_append_in_place_read(
    lm: LogManagerView,
    disk: Disk,
    record: Seq<u8>,
    block_size: usize,
)
    requires
        lm.wf(block_size),
        record_fits(lm.page, record),
    ensures
        lm.appended(disk, record).records(disk) == seq![record] + lm.records(disk),
        lm.appended(disk, record).page.len() == lm.page.len(),
        lm.appended(disk, record).block == lm.block,
{
    let bs = block_size as nat;
    let page = record_placed(lm.page, record);
    lemma_record_placed(lm.page, record);
    let new_reader = LogIteratorView { block: lm.block, page, pos: int_at(page, 0) as nat };
    assert(lm.appended(disk, record).reader() == new_reader);
    lemma_first_record(new_reader, disk, bs, record);
    let next = LogIteratorView { pos: new_reader.pos + 4 + record.len(), ..new_reader };
    lemma_remaining_same(next, lm.reader(), disk, disk, bs);
}

/// A record that is appended to a new block is the first that is read, and
/// after it come the records that the log held, as long as the block that was
/// the current block was the last block of the log file.
proof fn lemma_append_new_block_read(
    lm: LogManagerView,
    disk: Disk,
    record: Seq<u8>,
    block_size: usize,
)
    requires
        lm.wf(block_size),
        record.len() + 8 <= block_size,
        !record_fits(lm.page, record),
        disk[lm.logfile].len() <= lm.block.1 + 1,
    ensures
        lm.appended(disk, record).records(lm.disk_appended(disk, record)) == seq![record]
            + lm.records(disk),
        lm.appended(disk, record).page.len() == lm.page.len(),
        lm.disk_appended(disk, record)[lm.logfile].len() == lm.appended(disk, record).block.1 + 1,
{
    let after = lm.appended(disk, record);
    let on_disk = lm.disk_appended(disk, record);
    lemma_new_block_page(lm, disk, record, block_size);
    lemma_new_block_disk(lm, disk, record, block_size);
    lemma_new_block_read(lm.reader(), after.page, record, on_disk, disk, block_size as nat);
}

/// The page after a record has been appended to a new block holds the record
/// alone.
proof fn lemma_new_block_page(lm: LogManagerView, disk: Disk, record: Seq<u8>, block_size: usize)
    requires
        lm.wf(block_size),
        record.len() + 8 <= block_size,
        !record_fits(lm.page, record),
    ensures
        ({
            let page = lm.appended(disk, record).page;
            &&& page.len() == block_size
            &&& 4 <= int_at(page, 0)
            &&& int_at(page, 0) + 4 + record.len() == block_size
            &&& has_bytes_at(page, int_at(page, 0) as int)
            &&& bytes_at(page, int_at(page, 0) as int) == record
        }),
        lm.reader().pos == start_pos(lm.page),
        lm.reader().pos < lm.page.len(),
{
    let reset = page_reset(lm.page);
    lemma_page_reset(lm.page);
    assert(record_fits(reset, record));
    lemma_record_placed(reset, record);
}

/// The disk after a record has been appended to a new block holds the page as
/// it stood in the block that was the current block, which is the last but one,
/// and the blocks before it as they were.
proof fn lemma_new_block_disk(lm: LogManagerView, disk: Disk, record: Seq<u8>, block_size: usize)
    requires
        lm.wf(block_size),
        !record_fits(lm.page, record),
        disk[lm.logfile].len() <= lm.block.1 + 1,
    ensures
        lm.appended(disk, record).block == (lm.logfile, (lm.block.1 + 1) as usize),
        lm.disk_appended(disk, record)[lm.logfile].len() == lm.block.1 + 2,
        disk_block(lm.disk_appended(disk, record), lm.block, block_size as nat) == lm.page,
        forall|n: usize|
            n < lm.block.1 ==> disk_block(
                lm.disk_appended(disk, record),
                (lm.block.0, n),
                block_size as nat,
            ) == disk_block(disk, (lm.block.0, n), block_size as nat),
{
    lemma_new_block_on_disk(lm, disk, record);
    assert forall|n: usize| n < lm.block.1 implies disk_block(
        lm.disk_appended(disk, record),
        (lm.block.0, n),
        block_size as nat,
    ) == disk_block(disk, (lm.block.0, n), block_size as nat) by {
        lemma_new_block_keeps_old_blocks(lm, disk, record, n);
    }
}

/// Appending to a new block leaves the blocks before the current block as they
/// were.
proof fn lemma_new_block_keeps_old_blocks(
    lm: LogManagerView,
    disk: Disk,
    record: Seq<u8>,
    n: usize,
)
    requires
        lm.block.0 == lm.logfile,
        !record_fits(lm.page, record),
        n < lm.block.1,
    ensures
        disk_block(lm.disk_appended(disk, record), (lm.logfile, n), lm.page.len()) == disk_block(
            disk,
            (lm.logfile, n),
            lm.page.len(),
        ),
{
}

/// The iterator at the only record of a new block reads that record, and then
/// what the iterator at the start of the block before reads.
proof fn lemma_new_block_read(
    old_reader: LogIteratorView,
    page: Seq<u8>,
    record: Seq<u8>,
    on_disk: Disk,
    disk: Disk,
    block_size: nat,
)
    requires
        old_reader.block.1 < usize::MAX,
        page.len() == block_size,
        old_reader.page.len() == block_size,
        4 <= int_at(page, 0),
        int_at(page, 0) + 4 + record.len() == block_size,
        has_bytes_at(page, int_at(page, 0) as int),
        bytes_at(page, int_at(page, 0) as int) == record,
        disk_block(on_disk, old_reader.block, block_size) == old_reader.page,
        old_reader.pos == start_pos(old_reader.page),
        old_reader.pos < old_reader.page.len(),
        forall|n: usize|
            n < old_reader.block.1 ==> disk_block(on_disk, (old_reader.block.0, n), block_size)
                == disk_block(disk, (old_reader.block.0, n), block_size),
    ensures
        (LogIteratorView {
            block: (old_reader.block.0, (old_reader.block.1 + 1) as usize),
            page,
            pos: int_at(page, 0) as nat,
        }).remaining(on_disk, block_size) == seq![record] + old_reader.remaining(
            disk,
            block_size,
        ),
{
    let new_reader = LogIteratorView {
        block: (old_reader.block.0, (old_reader.block.1 + 1) as usize),
        page,
        pos: int_at(page, 0) as nat,
    };
    lemma_first_record(new_reader, on_disk, block_size, record);
    let next = LogIteratorView { pos: new_reader.pos + 4 + record.len(), ..new_reader };
    assert(next.positioned(on_disk, block_size) == old_reader);
    assert(old_reader.positioned(disk, block_size) == old_reader);
    lemma_back_to_old_block(next, old_reader, on_disk, disk, block_size);
}

/// An iterator that stands at the end of a block reads on as the iterator at
/// the start of the block before, as long as that one has something to read in
/// its page, and the blocks before it are the same.
proof fn lemma_back_to_old_block(
    next: LogIteratorView,
    old_reader: LogIteratorView,
    disk_a: Disk,
    disk_b: Disk,
    block_size: nat,
)
    requires
        next.positioned(disk_a, block_size) == old_reader,
        old_reader.positioned(disk_b, block_size) == old_reader,
        forall|n: usize|
            n < old_reader.block.1 ==> disk_block(disk_a, (old_reader.block.0, n), block_size)
                == disk_block(disk_b, (old_reader.block.0, n), block_size),
    ensures
        next.remaining(disk_a, block_size) == old_reader.remaining(disk_b, block_size),
{
    if old_reader.has_next(disk_b, block_size) {
        assert(next.has_next(disk_a, block_size));
        assert(next.advanced(disk_a, block_size) == old_reader.advanced(disk_b, block_size));
        lemma_remaining_same(
            old_reader.advanced(disk_b, block_size),
            old_reader.advanced(disk_b, block_size),
            disk_a,
            disk_b,
            block_size,
        );
    }
}

/// A record that is appended is the first that is read, and after it come the
/// records that the log held, as long as the current block is the last block
/// of the log file; and so it is afterwards.
pub proof fn lemma_append_then_read(
    lm: LogManagerView,
    disk: Disk,
    record: Seq<u8>,
    block_size: usize,
)
    requires
        lm.wf(block_size),
        record.len() + 8 <= block_size,
        disk[lm.logfile].len() <= lm.block.1 + 1,
    ensures
        lm.appended(disk, record).records(lm.disk_appended(disk, record)) == seq![record]
            + lm.records(disk),
        lm.disk_appended(disk, record)[lm.logfile].len() <= lm.appended(disk, record).block.1 + 1,
        lm.appended(disk, record).page.len() == lm.page.len(),
{
    if record_fits(lm.page, record) {
        lemma_append_in_place_read(lm, disk, record, block_size);
    } else {
        lemma_append_new_block_read(lm, disk, record, block_size);
    }
}

} // verus!
