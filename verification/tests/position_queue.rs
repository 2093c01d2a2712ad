use omni_track::position::{GPSPositionRaw, POSITION_SIZE};
use omni_track::positions_queue::{
    PositionQueue, QueueConfig, QueueConfigError, QueueError, DEFAULT_MAX_FILE_SIZE,
    DEFAULT_QUEUE_FILES, DEFAULT_SPI_WRITE_CHUNK,
};

fn sample() -> GPSPositionRaw {
    GPSPositionRaw {
        timestamp: 0x0102_0304,
        lat: -1,
        lng: 301_234_567,
        speed: 10,
        course: 20,
        hdop: 30,
        sats: 7,
    }
}

fn small_queue() -> PositionQueue {
    // 3 files of 4 records each: a ring of 12 positions.
    let config = match QueueConfig::new(3, 64, 64) {
        Ok(c) => c,
        Err(e) => panic!("unexpected config error {:?}", e),
    };
    PositionQueue::with_config(config)
}

#[test]
fn record_is_little_endian_and_packed() {
    let bytes = sample().to_bytes();
    assert_eq!(bytes.len(), POSITION_SIZE);
    assert_eq!(bytes, vec![4, 3, 2, 1, 255, 255, 255, 255, 135, 121, 244, 17, 10, 20, 30, 7]);
}

#[test]
fn default_queue_layout() {
    let q = PositionQueue::new();
    assert_eq!(q.size(), 0);
    assert_eq!(q.pending_send(), 0);
    assert_eq!(q.capacity(), 8 * 256 - 1);
    assert!(q.is_empty());
    assert!(!q.is_initialized());
    assert_eq!((q.get_start(), q.get_send_index(), q.get_end()), (0, 0, 0));
    assert_eq!(DEFAULT_QUEUE_FILES, 8);
    assert_eq!(DEFAULT_MAX_FILE_SIZE, 4096);
    assert_eq!(DEFAULT_SPI_WRITE_CHUNK, 256);
}

#[test]
fn config_errors() {
    assert_eq!(QueueConfig::new(8, 4096, 0).err(), Some(QueueConfigError::ZeroWriteChunk));
    assert_eq!(
        QueueConfig::new(8, 4000, 256).err(),
        Some(QueueConfigError::FileSizeNotChunkMultiple)
    );
    assert_eq!(
        QueueConfig::new(8, 24, 8).err(),
        Some(QueueConfigError::FileSizeNotRecordMultiple)
    );
    assert_eq!(QueueConfig::new(1, 4096, 256).err(), Some(QueueConfigError::BadFileCount));
    assert_eq!(QueueConfig::new(2, 4096, 256).err(), Some(QueueConfigError::BadFileCount));
    assert_eq!(QueueConfig::new(1025, 4096, 256).err(), Some(QueueConfigError::BadFileCount));
    assert!(QueueConfig::new(3, 4096, 256).is_ok());
    assert!(QueueConfig::new(1024, 4096, 256).is_ok());
    assert_eq!(
        QueueConfig::new(8, 48, 16).err(),
        Some(QueueConfigError::TooFewPositionsPerFile)
    );
    assert_eq!(
        QueueConfig::new(1023, usize::MAX - 15, 1).err(),
        Some(QueueConfigError::TooManyPositions)
    );
    let c = QueueConfig::new(3, 64, 64).ok().unwrap();
    assert_eq!(c.positions_per_file, 4);
    assert_eq!((c.queue_files, c.max_file_size, c.spi_write_chunk), (3, 64, 64));
}

#[test]
fn file_paths() {
    assert_eq!(PositionQueue::get_file_path(0), "/positions.0.bin");
    assert_eq!(PositionQueue::get_file_path(7), "/positions.7.bin");
    assert_eq!(PositionQueue::get_file_path(1023), "/positions.1023.bin");
    assert_eq!(PositionQueue::new().end_file_path(), "/positions.0.bin");
}

#[test]
fn begin_without_files_starts_at_slot_zero() {
    let mut q = PositionQueue::new();
    q.begin(&vec![None; 8]);
    assert!(q.is_initialized());
    // Slot 0 is missing, and no file follows it: start at slot 0 too.
    assert_eq!((q.get_start(), q.get_end(), q.get_send_index()), (0, 0, 0));
    assert!(q.is_empty());
}

#[test]
fn begin_with_all_files_full_uses_fresh_layout() {
    let mut q = PositionQueue::new();
    q.begin(&vec![Some(4096); 8]);
    assert_eq!((q.get_start(), q.get_end(), q.get_send_index()), (256, 0, 256));
    assert_eq!(q.size(), 2048 - 256);
}

#[test]
fn begin_finds_end_and_start() {
    let sizes = vec![Some(4096), Some(4096), None, None, Some(4096), Some(4096), None, Some(16)];
    let mut q = PositionQueue::new();
    q.begin(&sizes);
    assert_eq!(q.get_end(), 2 * 256);
    assert_eq!(q.get_start(), 4 * 256);
    assert_eq!(q.get_send_index(), 4 * 256);
    assert_eq!(q.size(), 2048 - 512);
    // A second call changes nothing.
    q.begin(&vec![None; 8]);
    assert_eq!((q.get_start(), q.get_end()), (4 * 256, 2 * 256));
}

#[test]
fn begin_end_in_file_smaller_than_a_record() {
    let sizes = vec![Some(4096), Some(8), Some(4096), None, None, None, None, None];
    let b = PositionQueue::locate_bounds(&sizes, 4096);
    assert_eq!((b.start_slot, b.end_slot, b.end_index), (2, 1, 0));
}

#[test]
fn check_write_rejects_unexpected_size() {
    let q = PositionQueue::new();
    match q.check_write(&sample(), 5) {
        Err(QueueError::UnexpectedOffset { path, expected, found }) => {
            assert_eq!(path, "/positions.0.bin");
            assert_eq!(expected, 0);
            assert_eq!(found, 5);
        }
        Ok(_) => panic!("a file of 5 bytes must be refused"),
    }
}

#[test]
fn check_write_gives_record() {
    let q = PositionQueue::new();
    match q.check_write(&sample(), 0) {
        Ok(plan) => {
            assert_eq!(plan.bytes, sample().to_bytes());
            assert!(plan.remove_path.is_none());
        }
        Err(_) => panic!("an empty end file is expected"),
    }
}

#[test]
fn enqueue_counts_and_wraps() {
    let mut q = small_queue();
    assert_eq!(q.capacity(), 11);
    for i in 0..3 {
        assert!(q.check_write(&sample(), i * POSITION_SIZE).is_ok());
        q.enqueue();
    }
    assert_eq!(q.size(), 3);
    assert_eq!(q.pending_send(), 3);
    q.commit_send(2);
    assert_eq!(q.pending_send(), 1);
    // The fourth record fills file 0: file 1 is to be erased.
    match q.check_write(&sample(), 3 * POSITION_SIZE) {
        Ok(plan) => assert_eq!(plan.remove_path.as_deref(), Some("/positions.1.bin")),
        Err(_) => panic!("offset 48 is expected"),
    }
    q.enqueue();
    assert_eq!(q.get_end(), 4);
    assert_eq!(q.end_file_path(), "/positions.1.bin");
    assert_eq!(q.size(), 4);
    assert_eq!(q.get_start(), 0);
}

#[test]
fn enqueue_rotation_moves_start_out_of_erased_file() {
    let mut q = small_queue();
    // All files full: end at slot 0, start at slot 1.
    q.begin(&vec![Some(64), Some(64), Some(64)]);
    assert_eq!((q.get_start(), q.get_end()), (4, 0));
    for _ in 0..3 {
        q.enqueue();
    }
    assert_eq!(q.get_start(), 4);
    q.enqueue();
    // File 1 was erased: start and send mark move on to slot 2.
    assert_eq!(q.get_end(), 4);
    assert_eq!(q.get_start(), 8);
    assert_eq!(q.get_send_index(), 8);
    assert_eq!(q.size(), 8);
    for _ in 0..4 {
        q.enqueue();
    }
    assert_eq!((q.get_start(), q.get_end(), q.size()), (0, 8, 8));
    // The end wraps around the ring.
    for _ in 0..4 {
        q.enqueue();
    }
    assert_eq!((q.get_start(), q.get_end(), q.size()), (4, 0, 8));
}

#[test]
fn map_position_to_file_splits_index() {
    let q = small_queue();
    assert_eq!(q.map_position_to_file(0), (0, 0));
    assert_eq!(q.map_position_to_file(7), (1, 3));
    assert_eq!(q.map_position_to_file(11), (2, 3));
}

#[test]
fn begin_resumes_in_partly_filled_file() {
    let mut q = PositionQueue::new();
    let mut sizes = vec![None; 8];
    sizes[0] = Some(48);
    q.begin(&sizes);
    assert_eq!((q.get_start(), q.get_end(), q.get_send_index()), (0, 3, 0));
    assert_eq!(q.size(), 3);
    assert_eq!(q.pending_send(), 3);
}

#[test]
fn begin_resumes_after_wrap() {
    let mut q = PositionQueue::new();
    let sizes = vec![Some(4096), Some(32), None, Some(4096), Some(4096), Some(4096), Some(4096), Some(4096)];
    q.begin(&sizes);
    assert_eq!(q.get_end(), 258);
    assert_eq!(q.get_start(), 768);
    assert_eq!(q.get_send_index(), 768);
    assert_eq!(q.size(), 1538);
    assert_eq!(q.pending_send(), 1538);
}

/// Applies the file operations of one enqueue to a model of the files.
fn write_model(q: &PositionQueue, files: &mut Vec<Option<usize>>) {
    let end = q.get_end();
    let slot = (end / 4) % 3;
    let size = files[slot].unwrap_or(0);
    let plan = match q.check_write(&sample(), size) {
        Ok(plan) => plan,
        Err(_) => panic!("the files must match the queue"),
    };
    files[slot] = Some(size + plan.bytes.len());
    if let Some(path) = plan.remove_path {
        let next = (0..3).find(|i| PositionQueue::get_file_path(*i) == path).unwrap();
        files[next] = None;
    }
}

#[test]
fn files_restore_the_queue() {
    let mut q = small_queue();
    q.begin(&vec![None, None, None]);
    let mut files = vec![None, None, None];
    for n in 0..30 {
        let mut r = small_queue();
        r.begin(&files);
        assert_eq!((r.get_start(), r.get_end()), (q.get_start(), q.get_end()), "after {} records", n);
        write_model(&q, &mut files);
        q.enqueue();
    }
}

#[test]
fn pending_never_exceeds_size() {
    let mut q = small_queue();
    q.begin(&vec![None, None, None]);
    for _ in 0..3 {
        q.enqueue();
    }
    q.commit_send(1);
    for _ in 0..20 {
        q.enqueue();
        assert!(!q.is_empty());
        assert!(q.pending_send() <= q.size());
        assert_eq!(q.get_start() % 4, 0);
    }
}
