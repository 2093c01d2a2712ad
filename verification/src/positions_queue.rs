use vstd::prelude::*;
use vstd::string::*;
use crate::file_path::{file_path, push_decimal};
use crate::position::{GPSPositionRaw, POSITION_SIZE, record_bytes};

verus! {

/// Default number of rotating queue files.
pub const DEFAULT_QUEUE_FILES: usize = 8;

/// Default maximum size of each queue file, in bytes.
pub const DEFAULT_MAX_FILE_SIZE: usize = 4096;

/// Default write block size of the SPI flash, in bytes.
pub const DEFAULT_SPI_WRITE_CHUNK: usize = 256;

/// Layout of the on-flash queue.
pub struct QueueConfig {
    /// Number of rotating slot files.
    pub queue_files: usize,
    /// Maximum size of each file, in bytes.
    pub max_file_size: usize,
    /// Write block size of the SPI flash (files must be a multiple of it).
    pub spi_write_chunk: usize,
    /// How many positions fit in each file (max_file_size / POSITION_SIZE).
    pub positions_per_file: usize,
}

/// Why a queue layout was rejected.
#[derive(Debug, Clone, Copy, PartialEq, Eq, Structural)]
pub enum QueueConfigError {
    /// The SPI write block size is zero.
    ZeroWriteChunk,
    /// The file size is not a multiple of the SPI write block size.
    FileSizeNotChunkMultiple,
    /// The file size is not a multiple of the record size.
    FileSizeNotRecordMultiple,
    /// The number of files is not more than 2 and at most 1024.
    BadFileCount,
    /// A file holds 3 positions or fewer.
    TooFewPositionsPerFile,
    /// The queue holds more positions than a `usize` counts.
    TooManyPositions,
}

/// The first rule that the layout `(queue_files, max_file_size, spi_write_chunk)` breaks, if any.
pub open spec fn config_error(queue_files: nat, max_file_size: nat, spi_write_chunk: nat) -> Option<
    QueueConfigError,
> {
    if spi_write_chunk == 0 {
        Some(QueueConfigError::ZeroWriteChunk)
    } else if max_file_size % spi_write_chunk != 0 {
        Some(QueueConfigError::FileSizeNotChunkMultiple)
    } else if max_file_size % (POSITION_SIZE as nat) != 0 {
        Some(QueueConfigError::FileSizeNotRecordMultiple)
    } else if !(2 < queue_files <= 1024) {
        Some(QueueConfigError::BadFileCount)
    } else if max_file_size / (POSITION_SIZE as nat) <= 3 {
        Some(QueueConfigError::TooFewPositionsPerFile)
    } else if (max_file_size / (POSITION_SIZE as nat)) * queue_files > usize::MAX {
        Some(QueueConfigError::TooManyPositions)
    } else {
        None
    }
}

impl QueueConfig {
    /// The layout obeys every rule of `config_error` and its derived field is consistent.
    pub open spec fn valid(&self) -> bool {
        &&& config_error(
            self.queue_files as nat,
            self.max_file_size as nat,
            self.spi_write_chunk as nat,
        ) is None
        &&& self.positions_per_file == self.max_file_size / POSITION_SIZE
    }

    /// Checks a queue layout and derives how many positions each file holds.
    pub fn new(queue_files: usize, max_file_size: usize, spi_write_chunk: usize) -> (r: Result<
        QueueConfig,
        QueueConfigError,
    >)
        ensures
            match r {
                Ok(c) => {
                    &&& config_error(
                        queue_files as nat,
                        max_file_size as nat,
                        spi_write_chunk as nat,
                    ) is None
                    &&& c.queue_files == queue_files
                    &&& c.max_file_size == max_file_size
                    &&& c.spi_write_chunk == spi_write_chunk
                    &&& c.positions_per_file == max_file_size / POSITION_SIZE
                    &&& c.valid()
                },
                Err(e) => config_error(
                    queue_files as nat,
                    max_file_size as nat,
                    spi_write_chunk as nat,
                ) == Some(e),
            },
    {
        if spi_write_chunk == 0 {
            return Err(QueueConfigError::ZeroWriteChunk);
        }
        if max_file_size % spi_write_chunk != 0 {
            return Err(QueueConfigError::FileSizeNotChunkMultiple);
        }
        if max_file_size % POSITION_SIZE != 0 {
            return Err(QueueConfigError::FileSizeNotRecordMultiple);
        }
        if !(queue_files > 2 && queue_files <= 1024) {
            return Err(QueueConfigError::BadFileCount);
        }
        let positions_per_file = max_file_size / POSITION_SIZE;
        if positions_per_file <= 3 {
            return Err(QueueConfigError::TooFewPositionsPerFile);
        }
        match positions_per_file.checked_mul(queue_files) {
            None => Err(QueueConfigError::TooManyPositions),
            Some(_) => Ok(
                QueueConfig { queue_files, max_file_size, spi_write_chunk, positions_per_file },
            ),
        }
    }
}


/// Abstract state of a position queue. Positions are numbered `0..total`
/// around a ring; position `i` lives in file slot `i / positions_per_file`
/// at record `i % positions_per_file`.
pub ghost struct QueueView {
    /// First stored position.
    pub start: nat,
    /// Where the next position will be written.
    pub end: nat,
    /// Positions before this one have been sent.
    pub send_index: nat,
    /// Ring size, in positions.
    pub total: nat,
    pub queue_files: nat,
    pub max_file_size: nat,
    pub spi_write_chunk: nat,
    pub positions_per_file: nat,
    /// Whether the bounds were restored from the files.
    pub initialized: bool,
}

/// The layout rules hold, the ring size matches the layout and every index is on the ring.
pub open spec fn valid_view(v: QueueView) -> bool {
    &&& config_error(v.queue_files, v.max_file_size, v.spi_write_chunk) is None
    &&& v.positions_per_file == v.max_file_size / (POSITION_SIZE as nat)
    &&& v.total == v.positions_per_file * v.queue_files
    &&& v.max_file_size <= usize::MAX
    &&& v.start < v.total
    &&& v.end < v.total
    &&& v.send_index < v.total
}

/// File slot that holds position `i`.
pub open spec fn slot_of(v: QueueView, i: nat) -> nat {
    (i / v.positions_per_file) % v.queue_files
}

/// Record number of position `i` inside its file.
pub open spec fn local_of(v: QueueView, i: nat) -> nat {
    i % v.positions_per_file
}

/// Distance from `from` forward to `to` around the ring.
pub open spec fn ring_distance(v: QueueView, from: nat, to: nat) -> nat {
    ((to - from) % (v.total as int)) as nat
}

/// Number of stored positions.
pub open spec fn size_of(v: QueueView) -> nat {
    ring_distance(v, v.start, v.end)
}

/// Number of stored positions not yet sent.
pub open spec fn pending_of(v: QueueView) -> nat {
    ring_distance(v, v.send_index, v.end)
}

/// Writing the next record fills the file that holds `end`.
pub open spec fn fills_file(v: QueueView) -> bool {
    local_of(v, v.end) * (POSITION_SIZE as nat) + (POSITION_SIZE as nat) >= v.max_file_size
}

/// The slot after the one that holds `end`; it is erased when that file fills.
pub open spec fn next_slot(v: QueueView) -> nat {
    (slot_of(v, v.end) + 1) % v.queue_files
}

/// First position of the slot after `next_slot`.
pub open spec fn rotated_start(v: QueueView) -> nat {
    ((next_slot(v) + 1) % v.queue_files) * v.positions_per_file
}

/// An index that sat in the erased slot moves to the slot after it.
pub open spec fn after_rotation(v: QueueView, i: nat) -> nat {
    if fills_file(v) && slot_of(v, i) == next_slot(v) {
        rotated_start(v)
    } else {
        i
    }
}

/// The queue after one record has been appended at `end`.
pub open spec fn after_enqueue(v: QueueView) -> QueueView {
    QueueView {
        start: after_rotation(v, v.start),
        end: (v.end + 1) % v.total,
        send_index: after_rotation(v, v.send_index),
        ..v
    }
}

/// Slot `i` has no file, or its file is not full (smaller than
/// `max_file_size`): writing resumes there. `sizes[i]` is the size in bytes of
/// slot `i`'s file, or `None` where the file does not exist.
pub open spec fn slot_is_open(sizes: Seq<Option<usize>>, max_file_size: nat, i: int) -> bool {
    sizes[i] is None || sizes[i]->0 < max_file_size
}

/// `e` is the first slot whose file is missing or not full.
pub open spec fn is_end_slot(sizes: Seq<Option<usize>>, max_file_size: nat, e: int) -> bool {
    &&& 0 <= e < sizes.len()
    &&& slot_is_open(sizes, max_file_size, e)
    &&& forall|i: int| 0 <= i < e ==> !slot_is_open(sizes, max_file_size, i)
}

/// `s` is the first slot after `e` whose file exists, or 0 when there is none.
pub open spec fn is_start_slot(sizes: Seq<Option<usize>>, e: int, s: int) -> bool {
    ||| (s == 0 && forall|j: int| e < j < sizes.len() ==> sizes[j] is None)
    ||| (e < s < sizes.len() && sizes[s] is Some && forall|j: int| e < j < s ==> sizes[j] is None)
}

/// Slot bounds of a queue found on flash.
#[derive(Debug, Clone, Copy, PartialEq, Eq, Structural)]
pub struct QueueBounds {
    /// Slot where the stored positions begin.
    pub start_slot: usize,
    /// Slot where the next position goes.
    pub end_slot: usize,
    /// Record number inside `end_slot` where the next position goes.
    pub end_index: usize,
}

/// `b` are the bounds that the file sizes `sizes` describe, for files of at
/// most `max_file_size` bytes: the end is the first record not yet written in
/// the first file that is missing or not full, the start is the next existing
/// file after it (or slot 0). With every file full, the queue starts afresh:
/// end at slot 0, start at slot 1.
pub open spec fn bounds_of(sizes: Seq<Option<usize>>, max_file_size: nat, b: QueueBounds) -> bool {
    if exists|e: int| is_end_slot(sizes, max_file_size, e) {
        &&& is_end_slot(sizes, max_file_size, b.end_slot as int)
        &&& is_start_slot(sizes, b.end_slot as int, b.start_slot as int)
        &&& b.end_index == match sizes[b.end_slot as int] {
            Some(n) => n / POSITION_SIZE,
            None => 0,
        }
    } else {
        b == QueueBounds { start_slot: 1, end_slot: 0, end_index: 0 }
    }
}

/// The bounds that the file sizes `sizes` describe.
pub open spec fn bounds_from(sizes: Seq<Option<usize>>, max_file_size: nat) -> QueueBounds {
    choose|b: QueueBounds| bounds_of(sizes, max_file_size, b)
}

/// The queue after its bounds were restored from `b`.
pub open spec fn restored(v: QueueView, b: QueueBounds) -> QueueView {
    QueueView {
        start: (b.start_slot * v.positions_per_file) as nat,
        end: (b.end_slot * v.positions_per_file + b.end_index) as nat,
        send_index: (b.start_slot * v.positions_per_file) as nat,
        initialized: true,
        ..v
    }
}

/// The file sizes describe exactly one set of bounds.
pub proof fn lemma_bounds_unique(
    sizes: Seq<Option<usize>>,
    max_file_size: nat,
    b1: QueueBounds,
    b2: QueueBounds,
)
    requires
        bounds_of(sizes, max_file_size, b1),
        bounds_of(sizes, max_file_size, b2),
    ensures
        b1 == b2,
{
    if exists|e: int| is_end_slot(sizes, max_file_size, e) {
        let e1 = b1.end_slot as int;
        let e2 = b2.end_slot as int;
        if e1 < e2 {
            assert(!slot_is_open(sizes, max_file_size, e1));
        }
        if e2 < e1 {
            assert(!slot_is_open(sizes, max_file_size, e2));
        }
        let s1 = b1.start_slot as int;
        let s2 = b2.start_slot as int;
        if s1 != s2 {
            if s1 == 0 {
                assert(sizes[s2] is Some);
            } else if s2 == 0 {
                assert(sizes[s1] is Some);
            } else if s1 < s2 {
                assert(sizes[s1] is Some);
            } else {
                assert(sizes[s2] is Some);
            }
        }
    }
}

/// A file of `size` bytes, smaller than a full file of `max_file_size`
/// bytes, ends inside its record `size / POSITION_SIZE`.
proof fn lemma_record_index_in_file(size: int, max_file_size: int)
    requires
        0 <= size < max_file_size,
        max_file_size % 16 == 0,
    ensures
        size / 16 < max_file_size / 16,
        (size / 16) * 16 <= size,
{
    vstd::arithmetic::div_mod::lemma_fundamental_div_mod(size, 16);
    vstd::arithmetic::div_mod::lemma_fundamental_div_mod(max_file_size, 16);
}

proof fn lemma_index_split(ppf: int, qf: int, i: int)
    requires
        0 < ppf,
        0 < qf,
        0 <= i < ppf * qf,
    ensures
        0 <= i / ppf < qf,
        (i / ppf) % qf == i / ppf,
        0 <= i % ppf < ppf,
        i == (i / ppf) * ppf + i % ppf,
{
    vstd::arithmetic::div_mod::lemma_fundamental_div_mod(i, ppf);
    vstd::arithmetic::div_mod::lemma_mod_bound(i, ppf);
    let q = i / ppf;
    assert(q * ppf == ppf * q) by (nonlinear_arith);
    assert(0 <= q) by (nonlinear_arith)
        requires
            0 <= i,
            0 < ppf,
            q == i / ppf,
    ;
    assert(q < qf) by (nonlinear_arith)
        requires
            i == q * ppf + i % ppf,
            0 <= i % ppf,
            i < ppf * qf,
            0 < ppf,
    ;
    vstd::arithmetic::div_mod::lemma_small_mod(q as nat, qf as nat);
}

proof fn lemma_slot_start(ppf: int, qf: int, s: int, r: int)
    requires
        0 < ppf,
        0 <= s < qf,
        0 <= r < ppf,
    ensures
        0 <= s * ppf + r < ppf * qf,
        s * ppf + ppf <= ppf * qf,
        (s * ppf + r) / ppf == s,
        (s * ppf + r) % ppf == r,
{
    assert(s * ppf + ppf <= ppf * qf) by (nonlinear_arith)
        requires
            0 < ppf,
            0 <= s < qf,
    ;
    assert(0 <= s * ppf) by (nonlinear_arith)
        requires
            0 < ppf,
            0 <= s,
    ;
    vstd::arithmetic::div_mod::lemma_fundamental_div_mod_converse(s * ppf + r, ppf, s, r);
}

/// Rotation only ever moves an index onto the ring.
proof fn lemma_after_enqueue_valid(v: QueueView)
    requires
        valid_view(v),
    ensures
        valid_view(after_enqueue(v)),
{
    let ppf = v.positions_per_file as int;
    let qf = v.queue_files as int;
    let nxt = (next_slot(v) + 1) % v.queue_files;
    assert(nxt < qf);
    lemma_slot_start(ppf, qf, nxt as int, 0);
}

/// A position in the erased file moves to the first position of the slot after it.
proof fn lemma_rotated_start_slot(v: QueueView)
    requires
        valid_view(v),
    ensures
        rotated_start(v) < v.total,
        slot_of(v, rotated_start(v)) == (next_slot(v) + 1) % v.queue_files,
        slot_of(v, rotated_start(v)) != next_slot(v),
{
    let ppf = v.positions_per_file as int;
    let qf = v.queue_files as int;
    let nxt = (next_slot(v) + 1) % v.queue_files;
    lemma_slot_start(ppf, qf, nxt as int, 0);
    vstd::arithmetic::div_mod::lemma_small_mod(nxt, v.queue_files);
    let n = next_slot(v) as int;
    if n + 1 < qf {
        vstd::arithmetic::div_mod::lemma_small_mod((n + 1) as nat, v.queue_files);
    } else {
        assert(n + 1 == qf);
        assert(nxt == 0) by {
            vstd::arithmetic::div_mod::lemma_mod_self_0(qf);
        }
    }
}

/// When a record fills its file, the next record goes to the start of the
/// following slot, and neither the start of the queue nor the send mark is
/// left in that slot: the file about to be reused holds no queued position.
pub proof fn lemma_enqueue_frees_end_file(v: QueueView)
    requires
        valid_view(v),
        fills_file(v),
    ensures
        valid_view(after_enqueue(v)),
        after_enqueue(v).end == (next_slot(v) * v.positions_per_file) as nat,
        slot_of(after_enqueue(v), after_enqueue(v).end) == next_slot(v),
        local_of(after_enqueue(v), after_enqueue(v).end) == 0,
        slot_of(after_enqueue(v), after_enqueue(v).start) != next_slot(v),
        slot_of(after_enqueue(v), after_enqueue(v).send_index) != next_slot(v),
{
    lemma_after_enqueue_valid(v);
    lemma_rotated_start_slot(v);
    let ppf = v.positions_per_file as int;
    let qf = v.queue_files as int;
    let e = v.end as int;
    lemma_index_split(ppf, qf, e);
    let s = e / ppf;
    assert(e % ppf == ppf - 1) by (nonlinear_arith)
        requires
            (e % ppf) * 16 + 16 >= v.max_file_size,
            v.max_file_size == ppf * 16 + v.max_file_size % 16,
            v.max_file_size % 16 == 0,
            e % ppf < ppf,
    {
    }
    assert(e + 1 == (s + 1) * ppf) by (nonlinear_arith)
        requires
            e == s * ppf + e % ppf,
            e % ppf == ppf - 1,
    ;
    assert(slot_of(v, v.end) == s);
    if s + 1 < qf {
        lemma_slot_start(ppf, qf, s + 1, 0);
        assert((s + 1) * ppf + 0 == (s + 1) * ppf);
        vstd::arithmetic::div_mod::lemma_small_mod((e + 1) as nat, v.total);
        vstd::arithmetic::div_mod::lemma_small_mod((s + 1) as nat, v.queue_files);
        assert(next_slot(v) == s + 1);
        assert(after_enqueue(v).end == e + 1);
    } else {
        assert(s + 1 == qf);
        assert(e + 1 == ppf * qf) by (nonlinear_arith)
            requires
                e + 1 == (s + 1) * ppf,
                s + 1 == qf,
        ;
        vstd::arithmetic::div_mod::lemma_mod_self_0(v.total as int);
        vstd::arithmetic::div_mod::lemma_mod_self_0(qf);
        lemma_slot_start(ppf, qf, 0, 0);
    }
}

/// While a record leaves room in its file, enqueueing stores one more
/// position in the same file, right after the previous one, and moves
/// nothing else.
pub proof fn lemma_enqueue_within_file(v: QueueView)
    requires
        valid_view(v),
        !fills_file(v),
    ensures
        valid_view(after_enqueue(v)),
        after_enqueue(v).end == v.end + 1,
        after_enqueue(v).start == v.start,
        after_enqueue(v).send_index == v.send_index,
        slot_of(after_enqueue(v), after_enqueue(v).end) == slot_of(v, v.end),
        local_of(after_enqueue(v), after_enqueue(v).end) == local_of(v, v.end) + 1,
        size_of(after_enqueue(v)) == (size_of(v) + 1) % v.total,
        pending_of(after_enqueue(v)) == (pending_of(v) + 1) % v.total,
{
    lemma_after_enqueue_valid(v);
    let ppf = v.positions_per_file as int;
    let qf = v.queue_files as int;
    let t = v.total as int;
    let e = v.end as int;
    lemma_index_split(ppf, qf, e);
    let s = e / ppf;
    let r = e % ppf;
    assert(r + 1 < ppf) by (nonlinear_arith)
        requires
            r * 16 + 16 < v.max_file_size,
            v.max_file_size == ppf * 16 + v.max_file_size % 16,
            v.max_file_size % 16 == 0,
    {
    }
    lemma_slot_start(ppf, qf, s, r + 1);
    assert(e + 1 == s * ppf + (r + 1));
    vstd::arithmetic::div_mod::lemma_small_mod((e + 1) as nat, v.total);
    assert(after_enqueue(v).end == e + 1);
    vstd::arithmetic::div_mod::lemma_add_mod_noop(e - v.start, 1, t);
    vstd::arithmetic::div_mod::lemma_add_mod_noop(e - v.send_index, 1, t);
    vstd::arithmetic::div_mod::lemma_small_mod(1, v.total);
}

/// The shape that every queue of this library keeps: the start sits at the
/// first record of a file, and the files of the queue run forward from the
/// start's slot to the end's slot without wrapping past slot 0 before the
/// start (the start is in slot 0, or in a slot after the end's).
pub open spec fn queue_shape(v: QueueView) -> bool {
    &&& v.start % v.positions_per_file == 0
    &&& (slot_of(v, v.start) == 0 || slot_of(v, v.start) > slot_of(v, v.end))
}

/// Slot `s` holds a full file of the queue: it comes from the start's slot on,
/// before the end's slot.
pub open spec fn slot_is_full(v: QueueView, s: int) -> bool {
    let a = slot_of(v, v.start) as int;
    let e = slot_of(v, v.end) as int;
    if a <= e {
        a <= s < e
    } else {
        s >= a || s < e
    }
}

/// The sizes of the queue's files, slot by slot: the end's file holds the
/// records written before the end (no file when there is none), the slots of
/// the queue before it are full, and the other slots have no file.
pub open spec fn files_of(v: QueueView) -> Seq<Option<usize>> {
    Seq::new(
        v.queue_files,
        |s: int|
            if s == slot_of(v, v.end) {
                if local_of(v, v.end) == 0 {
                    None
                } else {
                    Some((local_of(v, v.end) * (POSITION_SIZE as nat)) as usize)
                }
            } else if slot_is_full(v, s) {
                Some(v.max_file_size as usize)
            } else {
                None
            },
    )
}

/// The file sizes after one enqueue writes its record to the end's file
/// and, when that fills the file, erases the next slot's file.
pub open spec fn files_after_write(v: QueueView, f: Seq<Option<usize>>) -> Seq<Option<usize>> {
    let grown = f.update(
        slot_of(v, v.end) as int,
        Some(((local_of(v, v.end) + 1) * (POSITION_SIZE as nat)) as usize),
    );
    if fills_file(v) {
        grown.update(next_slot(v) as int, None)
    } else {
        grown
    }
}

/// Where the start and the end are after one enqueue, slot by slot.
proof fn lemma_enqueue_slots(v: QueueView)
    requires
        valid_view(v),
        queue_shape(v),
    ensures
        ({
            let w = after_enqueue(v);
            let n = next_slot(v);
            &&& valid_view(w)
            &&& n == (slot_of(v, v.end) + 1) % v.queue_files
            &&& n < v.queue_files
            &&& fills_file(v) ==> slot_of(w, w.end) == n && local_of(w, w.end) == 0
            &&& !fills_file(v) ==> slot_of(w, w.end) == slot_of(v, v.end) && local_of(w, w.end)
                == local_of(v, v.end) + 1
            &&& fills_file(v) ==> local_of(v, v.end) + 1 == v.positions_per_file
            &&& (fills_file(v) && slot_of(v, v.start) == n) ==> slot_of(w, w.start) == (n + 1)
                % v.queue_files
            &&& !(fills_file(v) && slot_of(v, v.start) == n) ==> w.start == v.start
            &&& w.start % v.positions_per_file == 0
            &&& slot_of(v, v.start) < v.queue_files
            &&& slot_of(v, v.end) < v.queue_files
            &&& slot_of(w, w.start) < v.queue_files
            &&& local_of(v, v.end) < v.positions_per_file
            &&& slot_of(v, v.end) + 1 < v.queue_files ==> n == slot_of(v, v.end) + 1
            &&& slot_of(v, v.end) + 1 == v.queue_files ==> n == 0
            &&& n + 1 < v.queue_files ==> (n + 1) % v.queue_files == n + 1
            &&& n + 1 == v.queue_files ==> (n + 1) % v.queue_files == 0
        }),
{
    let ppf = v.positions_per_file as int;
    let qf = v.queue_files as int;
    lemma_index_split(ppf, qf, v.start as int);
    lemma_index_split(ppf, qf, v.end as int);
    lemma_after_enqueue_valid(v);
    lemma_rotated_start_slot(v);
    let w = after_enqueue(v);
    lemma_index_split(ppf, qf, w.start as int);
    lemma_file_fill_is_last_record(v);
    if fills_file(v) {
        lemma_enqueue_frees_end_file(v);
    } else {
        lemma_enqueue_within_file(v);
    }
    let nxt = (next_slot(v) + 1) % v.queue_files;
    lemma_slot_start(ppf, qf, nxt as int, 0);
    let e = slot_of(v, v.end);
    let n = next_slot(v);
    if e + 1 < qf {
        vstd::arithmetic::div_mod::lemma_small_mod((e + 1) as nat, v.queue_files);
    } else {
        vstd::arithmetic::div_mod::lemma_mod_self_0(qf);
    }
    vstd::arithmetic::div_mod::lemma_mod_bound((e + 1) as int, qf);
    if n + 1 < qf {
        vstd::arithmetic::div_mod::lemma_small_mod((n + 1) as nat, v.queue_files);
    } else if n + 1 == qf {
        vstd::arithmetic::div_mod::lemma_mod_self_0(qf);
    }
}

/// A record fills its file exactly when it is the last record of the file.
proof fn lemma_file_fill_is_last_record(v: QueueView)
    requires
        valid_view(v),
    ensures
        fills_file(v) <==> local_of(v, v.end) + 1 == v.positions_per_file,
{
    let ppf = v.positions_per_file as int;
    let r = local_of(v, v.end) as int;
    vstd::arithmetic::div_mod::lemma_mod_bound(v.end as int, ppf);
    lemma_file_size_is_records(v.max_file_size as int, ppf);
    assert(r * 16 + 16 >= ppf * 16 <==> r + 1 >= ppf) by (nonlinear_arith);
}

/// Record `local` of a file starts inside the file.
proof fn lemma_record_offset_in_file(local: int, ppf: int, max_file_size: int)
    requires
        0 <= local < ppf,
        max_file_size % 16 == 0,
        ppf == max_file_size / 16,
    ensures
        local * 16 < max_file_size,
{
    lemma_file_size_is_records(max_file_size, ppf);
    assert(local * 16 < ppf * 16) by (nonlinear_arith)
        requires
            local < ppf,
    ;
}

/// A full file holds `positions_per_file` records.
proof fn lemma_file_size_is_records(max_file_size: int, ppf: int)
    requires
        max_file_size % 16 == 0,
        ppf == max_file_size / 16,
    ensures
        max_file_size == ppf * 16,
{
    vstd::arithmetic::div_mod::lemma_fundamental_div_mod(max_file_size, 16);
}

/// Every queue of this library keeps its shape through an enqueue.
pub proof fn lemma_enqueue_keeps_shape(v: QueueView)
    requires
        valid_view(v),
        queue_shape(v),
    ensures
        queue_shape(after_enqueue(v)),
{
    lemma_enqueue_slots(v);
    let w = after_enqueue(v);
    let a = slot_of(v, v.start);
    let e = slot_of(v, v.end);
    let n = next_slot(v);
    if fills_file(v) && a == n {
        assert(slot_of(w, w.start) == 0 || slot_of(w, w.start) > slot_of(w, w.end));
    } else if fills_file(v) {
        assert(slot_of(w, w.start) == a);
        assert(slot_of(w, w.end) == n);
        if a != 0 {
            assert(e + 1 < v.queue_files);
        }
    }
}

/// A restored queue has the shape.
pub proof fn lemma_restored_shape(v: QueueView, sizes: Seq<Option<usize>>)
    requires
        valid_view(v),
        sizes.len() == v.queue_files,
        bounds_of(sizes, v.max_file_size, bounds_from(sizes, v.max_file_size)),
        bounds_from(sizes, v.max_file_size).end_index * (POSITION_SIZE as nat) < v.max_file_size,
    ensures
        queue_shape(restored(v, bounds_from(sizes, v.max_file_size))),
{
    let b = bounds_from(sizes, v.max_file_size);
    let ppf = v.positions_per_file as int;
    let qf = v.queue_files as int;
    lemma_file_size_is_records(v.max_file_size as int, ppf);
    assert(b.end_index < ppf) by (nonlinear_arith)
        requires
            b.end_index * 16 < v.max_file_size,
            v.max_file_size == ppf * 16,
    ;
    lemma_slot_start(ppf, qf, b.start_slot as int, 0);
    lemma_slot_start(ppf, qf, b.end_slot as int, b.end_index as int);
    vstd::arithmetic::div_mod::lemma_small_mod(b.start_slot as nat, v.queue_files);
    vstd::arithmetic::div_mod::lemma_small_mod(b.end_slot as nat, v.queue_files);
}

/// Writing a record as `enqueue` plans it turns the files of a queue into
/// the files of the queue after the enqueue.
pub proof fn lemma_enqueue_files(v: QueueView)
    requires
        valid_view(v),
        queue_shape(v),
    ensures
        files_of(after_enqueue(v)) == files_after_write(v, files_of(v)),
{
    lemma_enqueue_slots(v);
    let w = after_enqueue(v);
    let f = files_of(v);
    let g = files_after_write(v, f);
    let h = files_of(w);
    assert(h.len() == g.len());
    assert forall|s: int| 0 <= s < h.len() implies h[s] == g[s] by {
        let a = slot_of(v, v.start) as int;
        let e = slot_of(v, v.end) as int;
        let n = next_slot(v) as int;
        if fills_file(v) && a == n {
            assert(slot_is_full(w, s) <==> (s != n && (slot_is_full(v, s) || s == e)));
        } else if fills_file(v) {
            assert(!slot_is_full(v, n));
            assert(slot_is_full(w, s) <==> (slot_is_full(v, s) || s == e));
        } else {
            assert(slot_is_full(w, s) <==> slot_is_full(v, s));
        }
        if fills_file(v) {
            lemma_file_size_is_records(v.max_file_size as int, v.positions_per_file as int);
            assert(((local_of(v, v.end) + 1) * 16) as usize == v.max_file_size as usize)
                by (nonlinear_arith)
                requires
                    local_of(v, v.end) + 1 == v.positions_per_file,
                    v.max_file_size == v.positions_per_file * 16,
            ;
        }
    }
    assert(h =~= g);
}

/// The files of a queue restore the same start and end: what `begin` reads
/// back after a run of enqueues is where the queue stood.
pub proof fn lemma_files_restore_bounds(v: QueueView)
    requires
        valid_view(v),
        queue_shape(v),
    ensures
        restored(v, bounds_from(files_of(v), v.max_file_size)).start == v.start,
        restored(v, bounds_from(files_of(v), v.max_file_size)).end == v.end,
{
    let ppf = v.positions_per_file as int;
    let qf = v.queue_files as int;
    lemma_index_split(ppf, qf, v.start as int);
    lemma_index_split(ppf, qf, v.end as int);
    lemma_file_size_is_records(v.max_file_size as int, ppf);
    let f = files_of(v);
    let a = slot_of(v, v.start);
    let e = slot_of(v, v.end);
    let l = local_of(v, v.end);
    let b = QueueBounds { start_slot: a as usize, end_slot: e as usize, end_index: l as usize };
    assert(l * 16 < v.max_file_size) by (nonlinear_arith)
        requires
            l < ppf,
            v.max_file_size == ppf * 16,
    ;
    assert((l * 16) / 16 == l) by (nonlinear_arith);
    assert forall|i: int| 0 <= i < e implies !slot_is_open(f, v.max_file_size, i) by {
        assert(slot_is_full(v, i));
        assert(f[i] == Some(v.max_file_size as usize));
    }
    assert(slot_is_open(f, v.max_file_size, e as int));
    assert(is_end_slot(f, v.max_file_size, e as int));
    if a == 0 {
        assert forall|j: int| e < j < f.len() implies f[j] is None by {
            assert(!slot_is_full(v, j));
        }
    } else {
        assert(slot_is_full(v, a as int));
        assert forall|j: int| e < j < a implies f[j] is None by {
            assert(!slot_is_full(v, j));
        }
    }
    assert(is_start_slot(f, e as int, a as int));
    assert(b.end_index == match f[e as int] {
        Some(n) => n / POSITION_SIZE,
        None => 0,
    });
    assert(bounds_of(f, v.max_file_size, b));
    lemma_bounds_unique(f, v.max_file_size, b, bounds_from(f, v.max_file_size));
    assert(v.start == a * ppf) by {
        vstd::arithmetic::div_mod::lemma_fundamental_div_mod(v.start as int, ppf);
    }
}

/// The queue after `n` enqueues.
pub open spec fn enqueued(v: QueueView, n: nat) -> QueueView
    decreases n,
{
    if n == 0 {
        v
    } else {
        after_enqueue(enqueued(v, (n - 1) as nat))
    }
}

/// The file sizes after the files `files_of(v)` went through the writes of
/// `n` enqueues.
pub open spec fn written(v: QueueView, n: nat) -> Seq<Option<usize>>
    decreases n,
{
    if n == 0 {
        files_of(v)
    } else {
        files_after_write(enqueued(v, (n - 1) as nat), written(v, (n - 1) as nat))
    }
}

/// An empty queue at the start of the ring has no files.
pub proof fn lemma_fresh_files(v: QueueView)
    requires
        valid_view(v),
        v.start == 0,
        v.end == 0,
    ensures
        files_of(v) == Seq::new(v.queue_files, |s: int| None::<usize>),
{
    lemma_position(v, 0);
    assert(files_of(v) =~= Seq::new(v.queue_files, |s: int| None::<usize>));
}

/// After any run of enqueues, the files written restore the queue's start
/// and end: what `begin` reads back after a restart is where the queue stood.
pub proof fn lemma_run_restores(v: QueueView, n: nat)
    requires
        valid_view(v),
        queue_shape(v),
    ensures
        valid_view(enqueued(v, n)),
        queue_shape(enqueued(v, n)),
        enqueued(v, n).max_file_size == v.max_file_size,
        written(v, n) == files_of(enqueued(v, n)),
        restored(enqueued(v, n), bounds_from(written(v, n), v.max_file_size)).start == enqueued(
            v,
            n,
        ).start,
        restored(enqueued(v, n), bounds_from(written(v, n), v.max_file_size)).end == enqueued(
            v,
            n,
        ).end,
    decreases n,
{
    if n > 0 {
        let m = (n - 1) as nat;
        lemma_run_restores(v, m);
        let u = enqueued(v, m);
        lemma_enqueue_slots(u);
        lemma_enqueue_keeps_shape(u);
        lemma_enqueue_files(u);
    }
    lemma_files_restore_bounds(enqueued(v, n));
}

/// The send mark lies within the stored positions: no more positions wait
/// to be sent than are stored.
pub open spec fn send_within_queue(v: QueueView) -> bool {
    pending_of(v) <= size_of(v)
}

proof fn lemma_ring_distance(v: QueueView, x: nat, y: nat)
    requires
        valid_view(v),
        x < v.total,
        y < v.total,
    ensures
        ring_distance(v, x, y) == if y >= x {
            y - x
        } else {
            v.total + y - x
        },
{
    let t = v.total as int;
    vstd::arithmetic::div_mod::lemma_mod_add_multiples_vanish(y - x, t);
    if y >= x {
        vstd::arithmetic::div_mod::lemma_small_mod((y - x) as nat, v.total);
    } else {
        vstd::arithmetic::div_mod::lemma_small_mod((t + y - x) as nat, v.total);
    }
}

proof fn lemma_slot_order(ppf: int, x: int, y: int)
    requires
        0 < ppf,
        0 <= x < y,
    ensures
        x * ppf + ppf <= y * ppf,
{
    assert(x * ppf + ppf <= y * ppf) by (nonlinear_arith)
        requires
            0 < ppf,
            x + 1 <= y,
    ;
}

/// Every ring position is record `local_of` of slot `slot_of`, and each slot
/// lies wholly on the ring.
pub proof fn lemma_position(v: QueueView, i: nat)
    requires
        valid_view(v),
        i < v.total,
    ensures
        slot_of(v, i) < v.queue_files,
        local_of(v, i) < v.positions_per_file,
        i == slot_of(v, i) * v.positions_per_file + local_of(v, i),
        slot_of(v, i) * v.positions_per_file + v.positions_per_file <= v.total,
{
    let ppf = v.positions_per_file as int;
    let qf = v.queue_files as int;
    lemma_index_split(ppf, qf, i as int);
    lemma_slot_start(ppf, qf, slot_of(v, i) as int, 0);
}

/// After an enqueue the queue is not empty, and a send mark within the
/// stored positions stays within them.
pub proof fn lemma_enqueue_keeps_send_within(v: QueueView)
    requires
        valid_view(v),
        queue_shape(v),
        send_within_queue(v),
    ensures
        size_of(after_enqueue(v)) >= 1,
        send_within_queue(after_enqueue(v)),
{
    lemma_enqueue_slots(v);
    let w = after_enqueue(v);
    let ppf = v.positions_per_file as int;
    let qf = v.queue_files as int;
    let t = v.total as int;
    lemma_position(v, v.start);
    lemma_position(v, v.end);
    lemma_position(v, v.send_index);
    lemma_position(w, w.start);
    lemma_position(w, w.end);
    lemma_position(w, w.send_index);
    lemma_ring_distance(v, v.start, v.end);
    lemma_ring_distance(v, v.send_index, v.end);
    lemma_ring_distance(w, w.start, w.end);
    lemma_ring_distance(w, w.send_index, w.end);
    let a = slot_of(v, v.start) as int;
    let e = slot_of(v, v.end) as int;
    let sb = slot_of(v, v.send_index) as int;
    let n = next_slot(v) as int;
    assert(local_of(v, v.start) == 0);
    if !fills_file(v) {
        lemma_enqueue_within_file(v);
        assert(w.end != w.start);
    } else {
        lemma_enqueue_frees_end_file(v);
        assert(local_of(v, v.end) + 1 == ppf);
        assert(w.end == n * ppf);
        lemma_slot_start(ppf, qf, n, 0);
        if a != n {
            // The start stays; it is not in the end's new slot.
            assert(e + 1 < qf);
            assert(n == e + 1);
            assert((e + 1) * ppf == e * ppf + ppf) by (nonlinear_arith);
            assert(w.end == v.end + 1);
            assert(w.start == v.start);
            if a < n {
                lemma_slot_order(ppf, a, n);
            } else {
                lemma_slot_order(ppf, n, a);
            }
            if sb == n {
                // A send mark in the slot after the end lies outside the queue.
                assert(v.send_index > v.end);
                if a < n {
                    assert(size_of(v) == v.end - v.start);
                } else {
                    assert(size_of(v) == t + v.end - v.start);
                }
                assert(false);
            } else {
                assert(w.send_index == v.send_index);
                if sb < n {
                    lemma_slot_order(ppf, sb, n);
                } else {
                    lemma_slot_order(ppf, n, sb);
                }
            }
        } else {
            // The start moves on to the slot after the end's new slot.
            let r = (n + 1) % qf;
            assert(slot_of(w, w.start) == r);
            assert(w.start == r * ppf);
            if n + 1 < qf {
                assert(r == n + 1);
                assert((n + 1) * ppf == n * ppf + ppf) by (nonlinear_arith);
                assert(size_of(w) == t - ppf);
            } else {
                assert(r == 0);
                assert(r * ppf == 0) by (nonlinear_arith)
                    requires
                        r == 0,
                ;
                assert(w.start == 0);
                assert(n * ppf + ppf == t) by (nonlinear_arith)
                    requires
                        n + 1 == qf,
                        t == ppf * qf,
                ;
                assert(size_of(w) == t - ppf);
            }
            if sb == n {
                assert(w.send_index == w.start);
            } else {
                assert(w.send_index == v.send_index);
                if sb < n {
                    lemma_slot_order(ppf, sb, n);
                } else {
                    lemma_slot_order(ppf, n, sb);
                }
            }
        }
    }
}

/// The queue of positions kept in rotating files on flash.
pub struct PositionQueue {
    config: QueueConfig,
    /// Index of the first stored position.
    inicio: usize,
    /// Index where the next position will be written.
    fim: usize,
    /// Index of positions confirmed as sent.
    fim_envio: usize,
    /// Ring size in positions (the usable capacity is one less).
    tamanho: usize,
    inicializado: bool,
}

impl View for PositionQueue {
    type V = QueueView;

    closed spec fn view(&self) -> QueueView {
        QueueView {
            start: self.inicio as nat,
            end: self.fim as nat,
            send_index: self.fim_envio as nat,
            total: self.tamanho as nat,
            queue_files: self.config.queue_files as nat,
            max_file_size: self.config.max_file_size as nat,
            spi_write_chunk: self.config.spi_write_chunk as nat,
            positions_per_file: self.config.positions_per_file as nat,
            initialized: self.inicializado,
        }
    }
}

/// What to write to flash for one enqueue.
pub struct WritePlan {
    /// The record to append to the end file.
    pub bytes: Vec<u8>,
    /// The file to erase once the record is written, when it filled its file.
    pub remove_path: Option<String>,
}

/// Why a record cannot be appended.
pub enum QueueError {
    /// The end file does not have the size that the queue expects.
    UnexpectedOffset { path: String, expected: usize, found: usize },
}

impl PositionQueue {
    /// The queue's state is consistent with its layout.
    pub open spec fn wf(&self) -> bool {
        valid_view(self@) && queue_shape(self@)
    }

    /// An empty, not yet restored queue with the default layout
    /// (8 files of 4096 bytes, written in blocks of 256 bytes).
    pub fn new() -> (q: Self)
        ensures
            q.wf(),
            q@ == (QueueView {
                start: 0,
                end: 0,
                send_index: 0,
                total: 2048,
                queue_files: DEFAULT_QUEUE_FILES as nat,
                max_file_size: DEFAULT_MAX_FILE_SIZE as nat,
                spi_write_chunk: DEFAULT_SPI_WRITE_CHUNK as nat,
                positions_per_file: 256,
                initialized: false,
            }),
    {
        let config = QueueConfig {
            queue_files: DEFAULT_QUEUE_FILES,
            max_file_size: DEFAULT_MAX_FILE_SIZE,
            spi_write_chunk: DEFAULT_SPI_WRITE_CHUNK,
            positions_per_file: DEFAULT_MAX_FILE_SIZE / POSITION_SIZE,
        };
        Self::with_config(config)
    }

    /// An empty, not yet restored queue with the layout `config`.
    pub fn with_config(config: QueueConfig) -> (q: Self)
        requires
            config.valid(),
        ensures
            q.wf(),
            q@ == (QueueView {
                start: 0,
                end: 0,
                send_index: 0,
                total: (config.positions_per_file * config.queue_files) as nat,
                queue_files: config.queue_files as nat,
                max_file_size: config.max_file_size as nat,
                spi_write_chunk: config.spi_write_chunk as nat,
                positions_per_file: config.positions_per_file as nat,
                initialized: false,
            }),
    {
        let tamanho = config.positions_per_file * config.queue_files;
        assert(tamanho > 0) by (nonlinear_arith)
            requires
                tamanho == config.positions_per_file * config.queue_files,
                config.positions_per_file > 3,
                config.queue_files >= 2,
        ;
        proof {
            lemma_slot_start(config.positions_per_file as int, config.queue_files as int, 0, 0);
        }
        PositionQueue { config, inicio: 0, fim: 0, fim_envio: 0, tamanho, inicializado: false }
    }

    /// Whether the bounds were already restored from the files.
    pub fn is_initialized(&self) -> (r: bool)
        ensures
            r == self@.initialized,
    {
        self.inicializado
    }

    /// Slot bounds described by the sizes of the queue files, slot by slot
    /// (`None` where a file does not exist), for files of at most
    /// `max_file_size` bytes.
    pub fn locate_bounds(file_sizes: &Vec<Option<usize>>, max_file_size: usize) -> (b: QueueBounds)
        ensures
            bounds_of(file_sizes@, max_file_size as nat, b),
            b == bounds_from(file_sizes@, max_file_size as nat),
            file_sizes@.len() >= 2 ==> b.start_slot < file_sizes@.len() && b.end_slot
                < file_sizes@.len(),
    {
        let n = file_sizes.len();
        let mut inicio_slot: usize = 0;
        let mut fim_slot: Option<usize> = None;
        let mut fim_index: usize = 0;
        let mut i: usize = 0;
        while i < n
            invariant
                n == file_sizes@.len(),
                i <= n,
                fim_slot is None ==> inicio_slot == 0 && forall|k: int|
                    0 <= k < i ==> !slot_is_open(file_sizes@, max_file_size as nat, k),
                fim_slot matches Some(e) ==> {
                    &&& e < i
                    &&& is_end_slot(file_sizes@, max_file_size as nat, e as int)
                    &&& match file_sizes@[e as int] {
                        Some(sz) => fim_index == sz / POSITION_SIZE,
                        None => fim_index == 0,
                    }
                    &&& {
                        ||| (inicio_slot == 0 && forall|j: int|
                            e < j < i ==> file_sizes@[j] is None)
                        ||| (e < inicio_slot < i && file_sizes@[inicio_slot as int] is Some
                            && forall|j: int| e < j < inicio_slot ==> file_sizes@[j] is None)
                    }
                },
            decreases n - i,
        {
            match file_sizes[i] {
                Some(file_size) => {
                    if fim_slot.is_none() {
                        if file_size < max_file_size {
                            // The first file that is not full holds the end.
                            fim_slot = Some(i);
                            fim_index = file_size / POSITION_SIZE;
                        }
                    } else if inicio_slot == 0 {
                        // The first existing file after the end holds the start.
                        inicio_slot = i;
                    }
                },
                None => {
                    if fim_slot.is_none() {
                        fim_slot = Some(i);
                        fim_index = 0;
                    }
                },
            }
            i = i + 1;
        }
        let b = match fim_slot {
            Some(e) => {
                assert(is_start_slot(file_sizes@, e as int, inicio_slot as int));
                QueueBounds { start_slot: inicio_slot, end_slot: e, end_index: fim_index }
            },
            None => {
                assert(!exists|e: int| is_end_slot(file_sizes@, max_file_size as nat, e));
                QueueBounds { start_slot: 1, end_slot: 0, end_index: 0 }
            },
        };
        proof {
            assert(bounds_of(file_sizes@, max_file_size as nat, b));
            lemma_bounds_unique(
                file_sizes@,
                max_file_size as nat,
                b,
                bounds_from(file_sizes@, max_file_size as nat),
            );
        }
        b
    }

    /// Restores the queue bounds from the sizes of its files, slot by slot
    /// (`None` where a file does not exist). Does nothing once restored.
    pub fn begin(&mut self, file_sizes: &Vec<Option<usize>>)
        requires
            old(self).wf(),
            file_sizes@.len() == old(self)@.queue_files,
        ensures
            final(self).wf(),
            old(self)@.initialized ==> final(self)@ == old(self)@,
            !old(self)@.initialized ==> final(self)@ == restored(
                old(self)@,
                bounds_from(file_sizes@, old(self)@.max_file_size),
            ),
            !old(self)@.initialized ==> send_within_queue(final(self)@),
    {
        if self.inicializado {
            return;
        }
        let b = Self::locate_bounds(file_sizes, self.config.max_file_size);
        let ppf = self.config.positions_per_file;
        proof {
            if exists|e: int| is_end_slot(file_sizes@, self@.max_file_size, e) {
                if let Some(n) = file_sizes@[b.end_slot as int] {
                    lemma_record_index_in_file(n as int, self.config.max_file_size as int);
                }
            }
            lemma_restored_shape(self@, file_sizes@);
            lemma_slot_start(
                ppf as int,
                self.config.queue_files as int,
                b.end_slot as int,
                b.end_index as int,
            );
            lemma_slot_start(ppf as int, self.config.queue_files as int, b.start_slot as int, 0);
        }
        self.fim = b.end_slot * ppf + b.end_index;
        self.inicio = b.start_slot * ppf;
        self.fim_envio = self.inicio;
        self.inicializado = true;
    }

    /// Number of stored positions.
    pub fn size(&self) -> (r: usize)
        requires
            self.wf(),
        ensures
            r == size_of(self@),
            r < self@.total,
    {
        self.distance(self.inicio, self.fim)
    }

    /// Number of stored positions not yet confirmed as sent.
    pub fn pending_send(&self) -> (r: usize)
        requires
            self.wf(),
        ensures
            r == pending_of(self@),
            r < self@.total,
    {
        self.distance(self.fim_envio, self.fim)
    }

    fn distance(&self, from: usize, to: usize) -> (r: usize)
        requires
            valid_view(self@),
            from < self@.total,
            to < self@.total,
        ensures
            r == ring_distance(self@, from as nat, to as nat),
            r < self@.total,
    {
        proof {
            let t = self.tamanho as int;
            vstd::arithmetic::div_mod::lemma_mod_add_multiples_vanish(to - from, t);
            if to >= from {
                vstd::arithmetic::div_mod::lemma_small_mod((to - from) as nat, t as nat);
            } else {
                vstd::arithmetic::div_mod::lemma_small_mod((t + to - from) as nat, t as nat);
            }
        }
        // Same value as (total - from + to) % total, without leaving usize.
        if to >= from {
            to - from
        } else {
            self.tamanho - from + to
        }
    }

    /// How many positions the queue can hold: one slot always stays empty.
    pub fn capacity(&self) -> (r: usize)
        requires
            self.wf(),
        ensures
            r == self@.total - 1,
    {
        self.tamanho - 1
    }

    /// Whether no position is stored.
    pub fn is_empty(&self) -> (r: bool)
        requires
            self.wf(),
        ensures
            r == (self@.start == self@.end),
            r == (size_of(self@) == 0),
    {
        proof {
            let t = self.tamanho as int;
            let d = self.fim - self.inicio;
            vstd::arithmetic::div_mod::lemma_mod_add_multiples_vanish(d, t);
            if d >= 0 {
                vstd::arithmetic::div_mod::lemma_small_mod(d as nat, t as nat);
            } else {
                vstd::arithmetic::div_mod::lemma_small_mod((t + d) as nat, t as nat);
            }
        }
        self.inicio == self.fim
    }

    /// Index of the first stored position.
    pub fn get_start(&self) -> (r: usize)
        ensures
            r == self@.start,
    {
        self.inicio
    }

    /// Index up to which positions were sent.
    pub fn get_send_index(&self) -> (r: usize)
        ensures
            r == self@.send_index,
    {
        self.fim_envio
    }

    /// Index where the next position will be written.
    pub fn get_end(&self) -> (r: usize)
        ensures
            r == self@.end,
    {
        self.fim
    }

    /// Marks every position before `index` as sent.
    pub fn commit_send(&mut self, index: usize)
        requires
            old(self).wf(),
            index < old(self)@.total,
        ensures
            final(self).wf(),
            final(self)@ == (QueueView { send_index: index as nat, ..old(self)@ }),
    {
        self.fim_envio = index;
    }

    fn increment_index(&self, index: usize) -> (r: usize)
        requires
            valid_view(self@),
            index < self@.total,
        ensures
            r == (index + 1) % (self@.total as int),
            r < self@.total,
    {
        (index + 1) % self.tamanho
    }

    /// File slot and record number of ring position `index`.
    pub fn map_position_to_file(&self, index: usize) -> (r: (usize, usize))
        requires
            valid_view(self@),
            index < self@.total,
        ensures
            r.0 == slot_of(self@, index as nat),
            r.1 == local_of(self@, index as nat),
            r.0 < self@.queue_files,
            r.1 < self@.positions_per_file,
            index == r.0 * self@.positions_per_file + r.1,
    {
        proof {
            lemma_index_split(
                self.config.positions_per_file as int,
                self.config.queue_files as int,
                index as int,
            );
        }
        let file_slot = (index / self.config.positions_per_file) % self.config.queue_files;
        let file_index = index % self.config.positions_per_file;
        (file_slot, file_index)
    }

    /// Path of the file that holds slot `slot`.
    pub fn get_file_path(slot: usize) -> (path: String)
        ensures
            path@ == file_path(slot as nat),
    {
        let mut path = String::from_str("/positions.");
        proof {
            reveal_strlit("/positions.");
            assert(path@ =~= crate::file_path::path_prefix());
        }
        push_decimal(&mut path, slot);
        path.append(".bin");
        proof {
            reveal_strlit(".bin");
            assert(path@ =~= file_path(slot as nat));
        }
        path
    }

    /// Path of the file where the next position goes.
    pub fn end_file_path(&self) -> (path: String)
        requires
            self.wf(),
        ensures
            path@ == file_path(slot_of(self@, self@.end)),
    {
        let (slot, _) = self.map_position_to_file(self.fim);
        Self::get_file_path(slot)
    }

    /// Checks that the end file holds `actual_size` bytes as the queue
    /// expects, and gives the record to append and the file to erase after it.
    pub fn check_write(&self, position: &GPSPositionRaw, actual_size: usize) -> (r: Result<
        WritePlan,
        QueueError,
    >)
        requires
            self.wf(),
        ensures
            ({
                let v = self@;
                let expected = local_of(v, v.end) * POSITION_SIZE;
                match r {
                    Ok(plan) => {
                        &&& actual_size == expected
                        &&& plan.bytes@ == record_bytes(*position)
                        &&& (plan.remove_path is Some <==> fills_file(v))
                        &&& (plan.remove_path matches Some(p) ==> p@ == file_path(next_slot(v)))
                    },
                    Err(QueueError::UnexpectedOffset { path, expected: e, found }) => {
                        &&& actual_size != expected
                        &&& path@ == file_path(slot_of(v, v.end))
                        &&& e == expected
                        &&& found == actual_size
                    },
                }
            }),
    {
        let (file_slot, local_index) = self.map_position_to_file(self.fim);
        proof {
            lemma_record_offset_in_file(
                local_index as int,
                self.config.positions_per_file as int,
                self.config.max_file_size as int,
            );
        }
        let expected_offset = local_index * POSITION_SIZE;
        if actual_size != expected_offset {
            return Err(
                QueueError::UnexpectedOffset {
                    path: Self::get_file_path(file_slot),
                    expected: expected_offset,
                    found: actual_size,
                },
            );
        }
        let bytes = position.to_bytes();
        let remove_path = if actual_size + POSITION_SIZE >= self.config.max_file_size {
            let next_slot = (file_slot + 1) % self.config.queue_files;
            Some(Self::get_file_path(next_slot))
        } else {
            None
        };
        Ok(WritePlan { bytes, remove_path })
    }

    /// Advances the queue past the record just written at the end. When that
    /// record filled its file, the next slot's file has been erased, and the
    /// start and the send mark leave that slot for the one after it.
    pub fn enqueue(&mut self)
        requires
            old(self).wf(),
        ensures
            final(self).wf(),
            final(self)@ == after_enqueue(old(self)@),
    {
        let ghost v = self@;
        proof {
            lemma_after_enqueue_valid(v);
            lemma_rotated_start_slot(v);
            lemma_enqueue_keeps_shape(v);
        }
        let (file_slot, local_index) = self.map_position_to_file(self.fim);
        proof {
            lemma_record_offset_in_file(
                local_index as int,
                self.config.positions_per_file as int,
                self.config.max_file_size as int,
            );
        }
        if local_index * POSITION_SIZE + POSITION_SIZE >= self.config.max_file_size {
            let next_slot = (file_slot + 1) % self.config.queue_files;
            let novo_inicio = ((next_slot + 1) % self.config.queue_files)
                * self.config.positions_per_file;
            let (inicio_slot, _) = self.map_position_to_file(self.inicio);
            if inicio_slot == next_slot {
                self.inicio = novo_inicio;
            }
            let (envio_slot, _) = self.map_position_to_file(self.fim_envio);
            if envio_slot == next_slot {
                self.fim_envio = novo_inicio;
            }
        }
        self.fim = self.increment_index(self.fim);
    }
}

} // verus!
