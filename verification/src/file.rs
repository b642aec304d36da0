//! Blocks, pages and the block store.
//!
//! A [`BlockId`] names one fixed-size block of a file. A [`Page`] is a byte
//! buffer with typed accessors: 32-bit little-endian signed integers, and byte
//! strings that carry a four-byte length in front.

use vstd::prelude::*;
use vstd::slice::{slice_subrange, slice_to_vec};
use vstd::std_specs::cmp::PartialEqSpecImpl;
use vstd::utf8::{decode_utf8, encode_utf8, valid_utf8};

use crate::assoc::{
    assoc_map, keys_distinct, lemma_assoc_absent, lemma_assoc_index, lemma_assoc_push,
    lemma_assoc_update,
};

verus! {

/// The number of bytes that an integer takes in a page.
pub const SIZE_OF_INT: usize = 4;

/// The unsigned value that four bytes spell, least significant byte first.
pub open spec fn le_value(b: Seq<u8>) -> int {
    b[0] as int + 256 * (b[1] as int) + 65536 * (b[2] as int) + 16777216 * (b[3] as int)
}

/// The signed 32-bit integer that four little-endian bytes hold (two's complement).
pub open spec fn int_from_le(b: Seq<u8>) -> i32 {
    let u = le_value(b);
    if u < 0x8000_0000 {
        u as i32
    } else {
        (u - 0x1_0000_0000) as i32
    }
}

/// The four little-endian bytes of a signed 32-bit integer (two's complement).
pub open spec fn int_to_le(n: i32) -> Seq<u8> {
    let u: int = if n >= 0 {
        n as int
    } else {
        n + 0x1_0000_0000
    };
    seq![
        (u % 256) as u8,
        ((u / 256) % 256) as u8,
        ((u / 65536) % 256) as u8,
        (u / 16777216) as u8,
    ]
}

/// `bytes` with `patch` written over it from `offset` on.
pub open spec fn overwrite(bytes: Seq<u8>, offset: int, patch: Seq<u8>) -> Seq<u8> {
    bytes.subrange(0, offset) + patch + bytes.subrange(offset + patch.len(), bytes.len() as int)
}

/// The integer stored at `offset`.
pub open spec fn int_at(bytes: Seq<u8>, offset: int) -> i32 {
    int_from_le(bytes.subrange(offset, offset + 4))
}

/// Whether a length-prefixed byte string lies within `bytes` at `offset`.
pub open spec fn has_bytes_at(bytes: Seq<u8>, offset: int) -> bool {
    &&& 0 <= offset
    &&& offset + 4 <= bytes.len()
    &&& int_at(bytes, offset) >= 0
    &&& offset + 4 + int_at(bytes, offset) <= bytes.len()
}

/// The byte string stored at `offset`: a four-byte length, then that many bytes.
pub open spec fn bytes_at(bytes: Seq<u8>, offset: int) -> Seq<u8> {
    bytes.subrange(offset + 4, offset + 4 + int_at(bytes, offset))
}

/// `bytes` after the integer `n` has been stored at `offset`.
pub open spec fn with_int(bytes: Seq<u8>, offset: int, n: i32) -> Seq<u8> {
    overwrite(bytes, offset, int_to_le(n))
}

/// A byte string with its length in front, as four little-endian bytes.
pub open spec fn length_prefixed(b: Seq<u8>) -> Seq<u8> {
    int_to_le(b.len() as i32) + b
}

/// `bytes` after the byte string `b` has been stored at `offset`.
pub open spec fn with_bytes(bytes: Seq<u8>, offset: int, b: Seq<u8>) -> Seq<u8> {
    overwrite(bytes, offset, length_prefixed(b))
}

/// Encoding an integer gives four bytes, and decoding them gives the integer back.
pub proof fn lemma_int_le_roundtrip(n: i32)
    ensures
        int_to_le(n).len() == 4,
        int_from_le(int_to_le(n)) == n,
{
    let u: int = if n >= 0 {
        n as int
    } else {
        n + 0x1_0000_0000
    };
    let b = int_to_le(n);
    let q1 = u / 256;
    let q2 = q1 / 256;
    let q3 = q2 / 256;
    assert(0 <= u < 0x1_0000_0000);
    assert(u / 65536 == q2) by (nonlinear_arith)
        requires
            q1 == u / 256,
            q2 == q1 / 256,
    ;
    assert(u / 16777216 == q3) by (nonlinear_arith)
        requires
            q2 == u / 65536,
            q3 == q2 / 256,
    ;
    assert(u == 256 * q1 + u % 256);
    assert(q1 == 256 * q2 + q1 % 256);
    assert(q2 == 256 * q3 + q2 % 256);
    assert(0 <= q3 < 256);
    assert(b[0] == u % 256);
    assert(b[1] == q1 % 256);
    assert(b[2] == q2 % 256);
    assert(b[3] == q3);
    assert(le_value(b) == u);
}

/// Decoding four bytes and encoding the integer gives the same four bytes.
pub proof fn lemma_le_int_roundtrip(b: Seq<u8>)
    requires
        b.len() == 4,
    ensures
        int_to_le(int_from_le(b)) == b,
{
    let v = le_value(b);
    let n = int_from_le(b);
    let u: int = if n >= 0 {
        n as int
    } else {
        n + 0x1_0000_0000
    };
    let (b0, b1, b2, b3) = (b[0] as int, b[1] as int, b[2] as int, b[3] as int);
    assert(0 <= v < 0x1_0000_0000);
    assert(u == v);
    lemma_split_low_byte(b0, b1 + 256 * b2 + 65536 * b3);
    lemma_split_low_byte(b1, b2 + 256 * b3);
    lemma_split_low_byte(b2, b3);
    assert(v / 256 == b1 + 256 * b2 + 65536 * b3);
    assert(v / 65536 == (v / 256) / 256) by (nonlinear_arith);
    assert(v / 16777216 == (v / 65536) / 256) by (nonlinear_arith);
    assert(int_to_le(n) =~= b);
}

/// A number below 256 plus a multiple of 256 splits back into the two.
proof fn lemma_split_low_byte(low: int, high: int)
    requires
        0 <= low < 256,
    ensures
        (low + 256 * high) % 256 == low,
        (low + 256 * high) / 256 == high,
{
    assert((low + 256 * high) % 256 == low && (low + 256 * high) / 256 == high)
        by (nonlinear_arith)
        requires
            0 <= low < 256,
    ;
}

/// Writing `patch` at `offset` keeps the length, and extends what stands before
/// `offset` by `patch`.
pub proof fn lemma_overwrite_prefix(bytes: Seq<u8>, offset: int, patch: Seq<u8>)
    requires
        0 <= offset,
        offset + patch.len() <= bytes.len(),
    ensures
        overwrite(bytes, offset, patch).len() == bytes.len(),
        overwrite(bytes, offset, patch).subrange(0, offset + patch.len()) == bytes.subrange(
            0,
            offset,
        ) + patch,
{
    assert(overwrite(bytes, offset, patch).subrange(0, offset + patch.len()) =~= bytes.subrange(
        0,
        offset,
    ) + patch);
}

/// Reading back what was just stored at the same offset gives the stored integer.
pub proof fn lemma_int_at_with_int(bytes: Seq<u8>, offset: int, n: i32)
    requires
        0 <= offset,
        offset + 4 <= bytes.len(),
    ensures
        with_int(bytes, offset, n).len() == bytes.len(),
        int_at(with_int(bytes, offset, n), offset) == n,
{
    lemma_int_le_roundtrip(n);
    assert(with_int(bytes, offset, n).subrange(offset, offset + 4) =~= int_to_le(n));
}

/// Storing an integer leaves every integer that does not overlap it as it was.
pub proof fn lemma_int_at_with_int_apart(bytes: Seq<u8>, offset: int, n: i32, other: int)
    requires
        0 <= offset,
        offset + 4 <= bytes.len(),
        0 <= other,
        other + 4 <= bytes.len(),
        other + 4 <= offset || offset + 4 <= other,
    ensures
        int_at(with_int(bytes, offset, n), other) == int_at(bytes, other),
{
    lemma_int_le_roundtrip(n);
    assert(with_int(bytes, offset, n).subrange(other, other + 4) =~= bytes.subrange(
        other,
        other + 4,
    ));
}

/// An integer that stands between two byte strings is read where the first ends.
pub proof fn lemma_int_at_between(pre: Seq<u8>, n: i32, post: Seq<u8>)
    ensures
        int_at(pre + int_to_le(n) + post, pre.len() as int) == n,
{
    lemma_int_le_roundtrip(n);
    let all = pre + int_to_le(n) + post;
    let at = pre.len() as int;
    assert(all.subrange(at, at + 4) =~= int_to_le(n));
}

/// A length-prefixed byte string that stands between two byte strings is read
/// where the first ends.
pub proof fn lemma_bytes_at_between(pre: Seq<u8>, b: Seq<u8>, post: Seq<u8>)
    requires
        b.len() <= i32::MAX,
    ensures
        has_bytes_at(pre + length_prefixed(b) + post, pre.len() as int),
        bytes_at(pre + length_prefixed(b) + post, pre.len() as int) == b,
{
    let n = b.len() as i32;
    lemma_int_le_roundtrip(n);
    let all = pre + length_prefixed(b) + post;
    let at = pre.len() as int;
    assert(all.subrange(at, at + 4) =~= int_to_le(n));
    assert(all.subrange(at + 4, at + 4 + b.len()) =~= b);
}

/// Reading back a byte string that was just stored gives the stored bytes.
pub proof fn lemma_bytes_at_with_bytes(bytes: Seq<u8>, offset: int, b: Seq<u8>)
    requires
        0 <= offset,
        offset + 4 + b.len() <= bytes.len(),
        b.len() <= i32::MAX,
    ensures
        with_bytes(bytes, offset, b).len() == bytes.len(),
        int_at(with_bytes(bytes, offset, b), offset) == b.len(),
        has_bytes_at(with_bytes(bytes, offset, b), offset),
        bytes_at(with_bytes(bytes, offset, b), offset) == b,
{
    let n = b.len() as i32;
    lemma_int_le_roundtrip(n);
    let w = with_bytes(bytes, offset, b);
    assert(w.subrange(offset, offset + 4) =~= int_to_le(n));
    assert(w.subrange(offset + 4, offset + 4 + b.len()) =~= b);
}

/// What `String::from_utf8_lossy` makes of a byte string.
pub uninterp spec fn utf8_lossy_text(bytes: Seq<u8>) -> Seq<char>;

/// The text that a byte string stands for: its UTF-8 decoding where it is valid
/// UTF-8, and otherwise the lossy decoding, which puts U+FFFD in place of what is
/// malformed.
pub open spec fn text_of(bytes: Seq<u8>) -> Seq<char> {
    if valid_utf8(bytes) {
        decode_utf8(bytes)
    } else {
        utf8_lossy_text(bytes)
    }
}

/// The string stored at `offset`.
pub open spec fn string_at(bytes: Seq<u8>, offset: int) -> Seq<char> {
    text_of(bytes_at(bytes, offset))
}

/// Calls `String::from_utf8_lossy` and takes the result as an owned string.
/// Believed of it: the result depends on the bytes alone, and valid UTF-8 is
/// decoded as it stands.
#[verifier::external_body]
fn utf8_lossy(bytes: &[u8]) -> (s: String)
    ensures
        s@ == utf8_lossy_text(bytes@),
        valid_utf8(bytes@) ==> s@ == decode_utf8(bytes@),
{
    String::from_utf8_lossy(bytes).into_owned()
}

/// `n` zero bytes.
pub open spec fn zeros(n: nat) -> Seq<u8> {
    Seq::new(n, |i: int| 0u8)
}

/// A vector of `n` zero bytes.
fn zero_bytes(n: usize) -> (v: Vec<u8>)
    ensures
        v@ == zeros(n as nat),
{
    let mut v: Vec<u8> = Vec::new();
    let mut i: usize = 0;
    while i < n
        invariant
            i <= n,
            v@ =~= zeros(i as nat),
        decreases n - i,
    {
        v.push(0u8);
        i += 1;
    }
    v
}

/// A block of a file: the file's name and the block's number within it.
#[derive(Debug, Hash)]
pub struct BlockId {
    filename: String,
    block_num: usize,
}

impl View for BlockId {
    type V = (Seq<char>, usize);

    closed spec fn view(&self) -> (Seq<char>, usize) {
        (self.filename@, self.block_num)
    }
}

impl Clone for BlockId {
    fn clone(&self) -> (r: Self)
        ensures
            r@ == self@,
    {
        BlockId { filename: self.filename.clone(), block_num: self.block_num }
    }
}

impl PartialEq for BlockId {
    fn eq(&self, other: &Self) -> (r: bool) {
        self.filename == other.filename && self.block_num == other.block_num
    }
}

impl PartialEqSpecImpl for BlockId {
    open spec fn obeys_eq_spec() -> bool {
        true
    }

    open spec fn eq_spec(&self, other: &Self) -> bool {
        self@ == other@
    }
}

impl BlockId {
    /// The block `block_num` of the file `filename`.
    pub fn new(filename: &str, block_num: usize) -> (b: Self)
        ensures
            b@ == (filename@, block_num),
    {
        BlockId { filename: filename.to_owned(), block_num }
    }

    /// The block's number within its file.
    pub fn number(&self) -> (n: usize)
        ensures
            n == self@.1,
    {
        self.block_num
    }

    /// The name of the file that the block belongs to.
    pub fn filename(&self) -> (name: &str)
        ensures
            name@ == self@.0,
    {
        self.filename.as_str()
    }
}

/// A byte buffer of fixed size with typed accessors.
pub struct Page {
    byte_buf: Vec<u8>,
}

impl View for Page {
    type V = Seq<u8>;

    closed spec fn view(&self) -> Seq<u8> {
        self.byte_buf@
    }
}

impl Page {
    /// A page of `size` zero bytes.
    pub fn new(size: usize) -> (p: Self)
        ensures
            p@ == zeros(size as nat),
    {
        Page { byte_buf: zero_bytes(size) }
    }

    /// A page that holds exactly `bytes`.
    pub fn with_bytes(bytes: &[u8]) -> (p: Self)
        ensures
            p@ == bytes@,
    {
        Page { byte_buf: slice_to_vec(bytes) }
    }

    /// The integer stored at `offset`.
    pub fn get_int(&self, offset: usize) -> (n: i32)
        requires
            offset + SIZE_OF_INT <= self@.len(),
        ensures
            n == int_at(self@, offset as int),
    {
        let size: usize = self.byte_buf.len();
        assert(offset + SIZE_OF_INT <= size);
        let b0: u32 = self.byte_buf[offset] as u32;
        let b1: u32 = self.byte_buf[offset + 1] as u32;
        let b2: u32 = self.byte_buf[offset + 2] as u32;
        let b3: u32 = self.byte_buf[offset + 3] as u32;
        let u: u32 = b0 + 256 * b1 + 65536 * b2 + 16777216 * b3;
        proof {
            let four = self@.subrange(offset as int, offset + 4);
            assert(four[0] == b0 && four[1] == b1 && four[2] == b2 && four[3] == b3);
        }
        if u < 0x8000_0000 {
            u as i32
        } else {
            (u as i64 - 0x1_0000_0000) as i32
        }
    }

    /// Stores the integer `n` at `offset`.
    pub fn set_int(&mut self, offset: usize, n: i32)
        requires
            offset + SIZE_OF_INT <= old(self)@.len(),
        ensures
            final(self)@ == with_int(old(self)@, offset as int, n),
    {
        let u: u32 = if n >= 0 {
            n as u32
        } else {
            (n as i64 + 0x1_0000_0000) as u32
        };
        let size: usize = self.byte_buf.len();
        assert(offset + SIZE_OF_INT <= size);
        self.byte_buf.set(offset, (u % 256) as u8);
        self.byte_buf.set(offset + 1, ((u / 256) % 256) as u8);
        self.byte_buf.set(offset + 2, ((u / 65536) % 256) as u8);
        self.byte_buf.set(offset + 3, (u / 16777216) as u8);
        assert(self@ =~= with_int(old(self)@, offset as int, n));
    }

    /// The byte string stored at `offset`.
    pub fn get_bytes(&self, offset: usize) -> (b: &[u8])
        requires
            has_bytes_at(self@, offset as int),
        ensures
            b@ == bytes_at(self@, offset as int),
    {
        let size: usize = self.byte_buf.len();
        let len: i32 = self.get_int(offset);
        assert(offset + SIZE_OF_INT + len <= size);
        let start: usize = offset + SIZE_OF_INT;
        slice_subrange(self.byte_buf.as_slice(), start, start + len as usize)
    }

    /// Stores the byte string `bytes` at `offset`, its length in front.
    pub fn set_bytes(&mut self, offset: usize, bytes: &[u8])
        requires
            offset + SIZE_OF_INT + bytes@.len() <= old(self)@.len(),
            bytes@.len() <= i32::MAX,
        ensures
            final(self)@ == with_bytes(old(self)@, offset as int, bytes@),
    {
        let size: usize = self.byte_buf.len();
        let len: usize = bytes.len();
        self.set_int(offset, len as i32);
        let start: usize = offset + SIZE_OF_INT;
        let ghost header = self@;
        proof {
            lemma_int_le_roundtrip(len as i32);
        }
        let mut i: usize = 0;
        while i < len
            invariant
                i <= len,
                len == bytes@.len(),
                start + len <= size,
                size == header.len(),
                self@.len() == size,
                forall|j: int| 0 <= j < start || start + i <= j < size ==> self@[j] == header[j],
                forall|j: int| 0 <= j < i ==> self@[start + j] == bytes@[j],
            decreases len - i,
        {
            self.byte_buf.set(start + i, bytes[i]);
            i += 1;
        }
        proof {
            let patch = int_to_le(len as i32) + bytes@;
            let target = with_bytes(old(self)@, offset as int, bytes@);
            assert(patch.len() == 4 + len);
            assert(target.len() == size);
            assert forall|j: int| 0 <= j < size implies self@[j] == target[j] by {
                let before = old(self)@;
                let head = int_to_le(len as i32);
                assert(header == overwrite(before, offset as int, head));
                assert(target == overwrite(before, offset as int, patch));
                if j < offset {
                    assert(header[j] == before[j]);
                    assert(target[j] == before[j]);
                } else if j < start {
                    assert(header[j] == head[j - offset]);
                    assert(target[j] == patch[j - offset]);
                } else if j < start + len {
                    assert(self@[start + (j - start)] == bytes@[j - start]);
                    assert(target[j] == patch[j - offset]);
                } else {
                    assert(header[j] == before[j]);
                    assert(target[j] == before[j]);
                }
            }
            assert(self@ =~= target);
        }
    }

    /// The string stored at `offset`.
    pub fn get_string(&self, offset: usize) -> (s: String)
        requires
            has_bytes_at(self@, offset as int),
        ensures
            s@ == string_at(self@, offset as int),
    {
        utf8_lossy(self.get_bytes(offset))
    }

    /// Stores the string `s` at `offset`, as its UTF-8 bytes with their number in
    /// front.
    pub fn set_string(&mut self, offset: usize, s: &str)
        requires
            offset + SIZE_OF_INT + encode_utf8(s@).len() <= old(self)@.len(),
            encode_utf8(s@).len() <= i32::MAX,
        ensures
            final(self)@ == with_bytes(old(self)@, offset as int, encode_utf8(s@)),
    {
        self.set_bytes(offset, s.as_bytes());
    }

    /// The number of bytes that `s` takes in a page.
    pub fn str_size(s: &str) -> (n: usize)
        requires
            SIZE_OF_INT + encode_utf8(s@).len() <= usize::MAX,
        ensures
            n == SIZE_OF_INT + encode_utf8(s@).len(),
    {
        SIZE_OF_INT + s.len()
    }

    /// Whether a length-prefixed byte string lies within the page at `offset`.
    pub fn has_bytes(&self, offset: usize) -> (b: bool)
        ensures
            b == has_bytes_at(self@, offset as int),
    {
        let size: usize = self.byte_buf.len();
        if size < SIZE_OF_INT || offset > size - SIZE_OF_INT {
            return false;
        }
        let len: i32 = self.get_int(offset);
        len >= 0 && len as usize <= size - SIZE_OF_INT - offset
    }

    /// The page's bytes, as a vector of their own.
    pub fn into_bytes(self) -> (b: Vec<u8>)
        ensures
            b@ == self@,
    {
        self.byte_buf
    }

    /// The page's bytes.
    pub fn contents(&self) -> (b: &[u8])
        ensures
            b@ == self@,
    {
        self.byte_buf.as_slice()
    }

    /// The number of bytes in the page.
    pub fn size(&self) -> (n: usize)
        ensures
            n == self@.len(),
    {
        self.byte_buf.len()
    }
}

/// A string that was stored is read back as it was.
pub proof fn lemma_string_at_with_string(bytes: Seq<u8>, offset: int, s: Seq<char>)
    requires
        0 <= offset,
        offset + 4 + encode_utf8(s).len() <= bytes.len(),
        encode_utf8(s).len() <= i32::MAX,
    ensures
        has_bytes_at(with_bytes(bytes, offset, encode_utf8(s)), offset),
        string_at(with_bytes(bytes, offset, encode_utf8(s)), offset) == s,
{
    lemma_bytes_at_with_bytes(bytes, offset, encode_utf8(s));
    vstd::utf8::encode_utf8_valid_utf8(s);
    vstd::utf8::encode_utf8_decode_utf8(s);
}

/// The blocks of a file after `data` has been written to block `number`: the
/// file grows to hold that block, and the blocks that it gains on the way hold
/// zeros.
pub open spec fn blocks_written(
    blocks: Seq<Seq<u8>>,
    number: int,
    data: Seq<u8>,
    block_size: nat,
) -> Seq<Seq<u8>> {
    Seq::new(
        if number < blocks.len() {
            blocks.len()
        } else {
            (number + 1) as nat
        },
        |j: int|
            if j == number {
                data
            } else if j < blocks.len() {
                blocks[j]
            } else {
                zeros(block_size)
            },
    )
}

/// What is on disk: the blocks of each file, by the file's name. A file that was
/// never written to has no block.
pub type Disk = Map<Seq<char>, Seq<Seq<u8>>>;

/// The disk after `data` has been written to `block`.
pub open spec fn disk_written(
    disk: Disk,
    block: (Seq<char>, usize),
    data: Seq<u8>,
    block_size: nat,
) -> Disk {
    disk.insert(block.0, blocks_written(disk[block.0], block.1 as int, data, block_size))
}

/// The disk after a block of zeros has been added to the end of the file `name`.
pub open spec fn disk_appended(disk: Disk, name: Seq<char>, block_size: nat) -> Disk {
    disk.insert(name, disk[name].push(zeros(block_size)))
}

/// What reading `block` from the disk gives: the block's bytes, and zeros for a
/// block beyond the end of its file.
pub open spec fn disk_block(disk: Disk, block: (Seq<char>, usize), block_size: nat) -> Seq<u8> {
    if block.1 < disk[block.0].len() {
        disk[block.0][block.1 as int]
    } else {
        zeros(block_size)
    }
}

/// The blocks that a vector of byte vectors holds.
pub open spec fn blocks_view(v: Vec<Vec<u8>>) -> Seq<Seq<u8>> {
    Seq::new(v@.len(), |j: int| v@[j]@)
}

/// The block store: files that are sequences of blocks of one size. A file that
/// was never written to has no block. The store keeps the blocks themselves; a
/// program that embeds the library copies them to and from the files of the
/// database directory.
pub struct FileManager {
    names: Vec<String>,
    contents: Vec<Vec<Vec<u8>>>,
    block_size: usize,
    is_new: bool,
}

impl FileManager {
    /// The files by name, each with its blocks.
    closed spec fn entries(&self) -> Seq<(Seq<char>, Seq<Seq<u8>>)> {
        Seq::new(self.names@.len(), |i: int| (self.names@[i]@, blocks_view(self.contents@[i])))
    }

    /// The size of a block.
    pub closed spec fn spec_block_size(&self) -> usize {
        self.block_size
    }

    /// The blocks of the file `name`; none where the file was never written to.
    pub closed spec fn blocks(&self, name: Seq<char>) -> Seq<Seq<u8>> {
        if assoc_map(self.entries()).contains_key(name) {
            assoc_map(self.entries())[name]
        } else {
            Seq::empty()
        }
    }

    /// What is on disk.
    pub open spec fn disk(&self) -> Disk {
        Map::total(|name: Seq<char>| self.blocks(name))
    }

    /// What reading `block` gives: the block's bytes, and zeros for a block
    /// beyond the end of its file.
    pub open spec fn block(&self, block: (Seq<char>, usize)) -> Seq<u8> {
        disk_block(self.disk(), block, self.spec_block_size() as nat)
    }

    /// Whether this store is `before` at a later time: in order, and with the
    /// same settings.
    pub open spec fn continues(&self, before: &FileManager) -> bool {
        &&& self.wf()
        &&& self.spec_block_size() == before.spec_block_size()
        &&& self.spec_is_new() == before.spec_is_new()
    }

    /// Every block of every file has the store's block size.
    pub closed spec fn wf(&self) -> bool {
        &&& self.names@.len() == self.contents@.len()
        &&& keys_distinct(self.entries())
        &&& forall|i: int, j: int|
            0 <= i < self.contents@.len() && 0 <= j < self.contents@[i]@.len()
                ==> #[trigger] self.contents@[i]@[j]@.len() == self.block_size
    }

    /// Every block that the store holds has the store's block size.
    pub proof fn lemma_block_len(&self, block: (Seq<char>, usize))
        requires
            self.wf(),
        ensures
            self.block(block).len() == self.spec_block_size(),
    {
        if block.1 < self.blocks(block.0).len() {
            let i = crate::assoc::lemma_assoc_witness(self.entries(), block.0);
            assert(self.contents@[i]@[block.1 as int]@.len() == self.block_size);
        }
    }

    /// A store with no file, for blocks of `block_size` bytes. `is_new` says
    /// whether the database directory had to be made.
    pub fn new(block_size: usize, is_new: bool) -> (fm: Self)
        ensures
            fm.wf(),
            fm.spec_block_size() == block_size,
            fm.spec_is_new() == is_new,
            fm.disk() == Map::total(|name: Seq<char>| Seq::<Seq<u8>>::empty()),
    {
        let fm = FileManager { names: Vec::new(), contents: Vec::new(), block_size, is_new };
        assert(fm.disk() =~= Map::total(|name: Seq<char>| Seq::<Seq<u8>>::empty()));
        fm
    }

    /// Whether the database directory had to be made.
    pub closed spec fn spec_is_new(&self) -> bool {
        self.is_new
    }

    /// Whether the database directory had to be made.
    pub fn is_new(&self) -> (b: bool)
        ensures
            b == self.spec_is_new(),
    {
        self.is_new
    }

    /// The position of the file `name`, if it was written to.
    fn find(&self, name: &String) -> (r: Option<usize>)
        requires
            self.wf(),
        ensures
            match r {
                Some(i) => i < self.names@.len() && self.names@[i as int]@ == name@
                    && self.blocks(name@) == blocks_view(self.contents@[i as int]),
                None => self.blocks(name@) == Seq::<Seq<u8>>::empty() && !assoc_map(
                    self.entries(),
                ).contains_key(name@),
            },
    {
        let mut i: usize = 0;
        while i < self.names.len()
            invariant
                i <= self.names@.len(),
                self.wf(),
                forall|j: int| 0 <= j < i ==> (#[trigger] self.entries()[j]).0 != name@,
            decreases self.names@.len() - i,
        {
            if self.names[i] == *name {
                proof {
                    lemma_assoc_index(self.entries(), i as int);
                }
                return Some(i);
            }
            i += 1;
        }
        proof {
            lemma_assoc_absent(self.entries(), name@);
        }
        None
    }

    /// Reads `block` into the page.
    pub fn read(&self, block: &BlockId, p: &mut Page)
        requires
            self.wf(),
        ensures
            final(p)@ == self.block(block@),
    {
        let name = block.filename.clone();
        match self.find(&name) {
            Some(i) => {
                if block.block_num < self.contents[i].len() {
                    p.byte_buf = slice_to_vec(self.contents[i][block.block_num].as_slice());
                } else {
                    p.byte_buf = zero_bytes(self.block_size);
                }
            },
            None => {
                p.byte_buf = zero_bytes(self.block_size);
            },
        }
    }

    /// Writes the page to `block`. A file that is too short grows to hold the
    /// block; the blocks that it gains on the way hold zeros.
    pub fn write(&mut self, block: &BlockId, p: &Page)
        requires
            old(self).wf(),
            p@.len() == old(self).spec_block_size(),
            block@.1 < usize::MAX,
        ensures
            final(self).continues(old(self)),
            final(self).disk() == disk_written(
                old(self).disk(),
                block@,
                p@,
                old(self).spec_block_size() as nat,
            ),
    {
        let ghost before = self.entries();
        let ghost old_blocks = self.blocks(block@.0);
        let ghost target = blocks_written(
            old_blocks,
            block@.1 as int,
            p@,
            self.block_size as nat,
        );
        let name = block.filename.clone();
        let number: usize = block.block_num;
        let block_size: usize = self.block_size;
        let i: usize = match self.find(&name) {
            Some(i) => i,
            None => {
                self.names.push(name);
                self.contents.push(Vec::new());
                proof {
                    let last = self.names@.len() - 1;
                    assert(self.names@[last]@ == block@.0);
                    assert(blocks_view(self.contents@[last]) =~= Seq::<Seq<u8>>::empty());
                    assert(self.entries().len() == before.len() + 1);
                    assert forall|a: int| 0 <= a < before.len() implies self.entries()[a]
                        == before[a] by {}
                    assert(self.entries() =~= before.push((block@.0, Seq::empty())));
                    lemma_assoc_push(before, block@.0, Seq::<Seq<u8>>::empty());
                }
                self.names.len() - 1
            },
        };
        let ghost middle = self.entries();
        assert(self.wf());
        assert(blocks_view(self.contents@[i as int]) =~= old_blocks);
        let file = &mut self.contents[i];
        while file.len() <= number
            invariant
                number < usize::MAX,
                file@.len() >= old_blocks.len(),
                forall|j: int| 0 <= j < old_blocks.len() ==> (#[trigger] file@[j])@ == old_blocks[j],
                forall|j: int|
                    old_blocks.len() <= j < file@.len() ==> (#[trigger] file@[j])@ == zeros(
                        block_size as nat,
                    ),
                file@.len() <= number + 1 || file@.len() == old_blocks.len(),
            decreases number + 1 - file@.len(),
        {
            file.push(zero_bytes(block_size));
        }
        file.set(number, slice_to_vec(p.contents()));
        proof {
            assert(blocks_view(self.contents@[i as int]) =~= target);
            assert(self.entries() =~= middle.update(i as int, (block@.0, target)));
            lemma_assoc_update(middle, i as int, target);
            assert forall|a: int, j: int|
                0 <= a < self.contents@.len() && 0 <= j < self.contents@[a]@.len()
                    implies #[trigger] self.contents@[a]@[j]@.len() == self.block_size by {
                if a == i {
                    assert(target[j].len() == block_size);
                }
            }
            assert(self.disk() =~= disk_written(
                old(self).disk(),
                block@,
                p@,
                old(self).spec_block_size() as nat,
            ));
        }
    }

    /// Adds a block of zeros to the end of the file, and returns the block.
    pub fn append(&mut self, filename: &str) -> (block: BlockId)
        requires
            old(self).wf(),
        ensures
            final(self).continues(old(self)),
            old(self).disk()[filename@].len() < usize::MAX,
            block@ == (filename@, old(self).disk()[filename@].len() as usize),
            final(self).disk() == disk_appended(
                old(self).disk(),
                filename@,
                old(self).spec_block_size() as nat,
            ),
    {
        let ghost before = self.entries();
        let ghost old_blocks = self.blocks(filename@);
        let name = filename.to_owned();
        let block_size: usize = self.block_size;
        let i: usize = match self.find(&name) {
            Some(i) => i,
            None => {
                self.names.push(name);
                self.contents.push(Vec::new());
                proof {
                    let last = self.names@.len() - 1;
                    assert(self.names@[last]@ == filename@);
                    assert(blocks_view(self.contents@[last]) =~= Seq::<Seq<u8>>::empty());
                    assert(self.entries().len() == before.len() + 1);
                    assert forall|a: int| 0 <= a < before.len() implies self.entries()[a]
                        == before[a] by {}
                    assert(self.entries() =~= before.push((filename@, Seq::empty())));
                    lemma_assoc_push(before, filename@, Seq::<Seq<u8>>::empty());
                }
                self.names.len() - 1
            },
        };
        let ghost middle = self.entries();
        assert(self.wf());
        assert(blocks_view(self.contents@[i as int]) =~= old_blocks);
        let file = &mut self.contents[i];
        let number: usize = file.len();
        file.push(zero_bytes(block_size));
        let grown: usize = file.len();
        assert(number + 1 == grown);
        proof {
            let target = old_blocks.push(zeros(block_size as nat));
            assert(blocks_view(self.contents@[i as int]) =~= target);
            assert(self.entries() =~= middle.update(i as int, (filename@, target)));
            lemma_assoc_update(middle, i as int, target);
            assert forall|a: int, j: int|
                0 <= a < self.contents@.len() && 0 <= j < self.contents@[a]@.len()
                    implies #[trigger] self.contents@[a]@[j]@.len() == self.block_size by {
                if a == i {
                    assert(target[j].len() == block_size);
                }
            }
            assert(self.disk() =~= disk_appended(
                old(self).disk(),
                filename@,
                old(self).spec_block_size() as nat,
            ));
        }
        BlockId::new(filename, number)
    }

    /// The number of blocks of the file.
    pub fn length(&self, filename: &str) -> (n: u64)
        requires
            self.wf(),
        ensures
            n == self.disk()[filename@].len(),
            n <= usize::MAX,
    {
        let name = filename.to_owned();
        match self.find(&name) {
            Some(i) => self.contents[i].len() as u64,
            None => 0,
        }
    }

    /// The size of a block.
    pub fn block_size(&self) -> (n: usize)
        ensures
            n == self.spec_block_size(),
    {
        self.block_size
    }
}

} // verus!
