use polaroid::chunk::{AdaptiveChunkStrategy, ChunkStrategy};
use polaroid::frame::{ColumnData, Field, Frame, LogicalType};
use polaroid::memory::MemoryManager;
use polaroid::parallel::ParallelStreamReader;
use polaroid::reader::{AdaptiveStreamingReader, KeepAll, MmapParquetReader, PredicatePushdown};
use polaroid::ServiceError;

fn rows_frame(rows: usize) -> Frame {
    let ids: Vec<i64> = (0..rows as i64).collect();
    Frame::new(
        vec![Field { name: "id".to_string(), dtype: LogicalType::Int64, nullable: false }],
        vec![ColumnData::Int64(ids)],
    )
    .unwrap()
}

#[test]
fn test_mmap_reader_creation() {
    let reader = MmapParquetReader::new(64_000, vec![600, 400], rows_frame(1000));
    assert!(reader.is_ok());

    // Footer row counts that do not add up to the data are a fault.
    let bad = MmapParquetReader::new(64_000, vec![600, 500], rows_frame(1000));
    assert!(matches!(bad, Err(ServiceError::Compute)));
}

#[test]
fn test_metadata() {
    let reader = MmapParquetReader::new(64_000, vec![600, 400], rows_frame(1000)).unwrap();
    assert_eq!(reader.num_row_groups(), 2);
    assert_eq!(reader.total_rows(), 1000);
    assert_eq!(reader.estimate_row_size(), 64);
    assert_eq!(reader.row_group_num_rows(0).unwrap(), 600);
    assert_eq!(reader.row_group_num_rows(1).unwrap(), 400);
    assert!(matches!(reader.row_group_num_rows(2), Err(ServiceError::InvalidConfig)));
    assert!(reader.can_fit_in_memory(100_000));
    assert!(!reader.can_fit_in_memory(1_000));
}

#[test]
fn test_read_row_group() {
    let reader = MmapParquetReader::new(64_000, vec![600, 400], rows_frame(1000)).unwrap();
    let first = reader.read_row_group(0).unwrap();
    assert_eq!(first.height(), 600);
    let second = reader.read_row_group(1).unwrap();
    assert_eq!(second.height(), 400);
    match second.column(&"id".to_string()).unwrap() {
        ColumnData::Int64(v) => {
            assert_eq!(v[0], 600);
            assert_eq!(v[399], 999);
        },
        _ => panic!("wrong column type"),
    }
    assert!(matches!(reader.read_row_group(2), Err(ServiceError::InvalidConfig)));
}

#[test]
fn test_adaptive_reader_creation() {
    let reader = MmapParquetReader::new(100_000, vec![1000], rows_frame(1000)).unwrap();
    let adaptive: AdaptiveStreamingReader<KeepAll> =
        AdaptiveStreamingReader::new(reader, MemoryManager::new(1_000_000));
    assert!(adaptive.can_fit_in_memory());
}

#[test]
fn test_collect_batches() {
    // A file of 1,000 rows in one row group yields one batch of 1,000.
    let reader = MmapParquetReader::new(100_000, vec![1000], rows_frame(1000)).unwrap();
    let mut adaptive: AdaptiveStreamingReader<KeepAll> =
        AdaptiveStreamingReader::new(reader, MemoryManager::new(1_000_000));

    let mut batches: Vec<Frame> = Vec::new();
    while let Some(item) = adaptive.next_batch() {
        batches.push(item.unwrap());
    }
    assert_eq!(batches.len(), 1);
    let total: usize = batches.iter().map(|b| b.height()).sum();
    assert_eq!(total, 1000);
}

#[test]
fn test_collect_single_dataframe() {
    let reader = MmapParquetReader::new(50_000, vec![200, 200, 100], rows_frame(500)).unwrap();
    let adaptive: AdaptiveStreamingReader<KeepAll> =
        AdaptiveStreamingReader::new(reader, MemoryManager::new(1_000_000));

    let df = adaptive.collect().unwrap();
    assert_eq!(df.height(), 500);

    let empty = MmapParquetReader::new(0, vec![], rows_frame(0)).unwrap();
    let adaptive: AdaptiveStreamingReader<KeepAll> =
        AdaptiveStreamingReader::new(empty, MemoryManager::new(1_000_000));
    assert!(matches!(adaptive.collect(), Err(ServiceError::NoData)));
}

struct EvenIds;

impl PredicatePushdown for EvenIds {
    fn apply(&self, frame: &Frame) -> Result<Vec<bool>, ServiceError> {
        match frame.column(&"id".to_string()) {
            Some(ColumnData::Int64(v)) => Ok(v.iter().map(|x| x % 2 == 0).collect()),
            _ => Err(ServiceError::Compute),
        }
    }
}

#[test]
fn test_pushdown_filters_batches() {
    let reader = MmapParquetReader::new(10_000, vec![50, 50], rows_frame(100)).unwrap();
    let adaptive: AdaptiveStreamingReader<EvenIds> =
        AdaptiveStreamingReader::new(reader, MemoryManager::new(1_000_000));
    let mut adaptive = adaptive.with_predicate(EvenIds);

    let mut total = 0;
    while let Some(item) = adaptive.next_batch() {
        total += item.unwrap().height();
    }
    assert_eq!(total, 50);
}

#[test]
fn test_memory_estimation() {
    let reader = MmapParquetReader::new(100_000, vec![1000], rows_frame(1000)).unwrap();
    let adaptive: AdaptiveStreamingReader<KeepAll> =
        AdaptiveStreamingReader::new(reader, MemoryManager::new(1_000_000));
    let estimated = adaptive.estimate_memory_required();
    assert_eq!(estimated, 100_000);
}

#[test]
fn test_memory_manager_ratio() {
    let mut mm = MemoryManager::new(1000);
    assert_eq!(mm.memory_ratio_percent(), 0);
    mm.track_usage(500);
    assert_eq!(mm.memory_ratio_percent(), 50);
    assert_eq!(mm.tracked_bytes(), 500);
    mm.track_usage(600);
    assert_eq!(mm.memory_ratio_percent(), 100);
    mm.release_usage(900);
    assert_eq!(mm.memory_ratio_percent(), 20);
    mm.set_available(0);
    assert_eq!(mm.memory_ratio_percent(), 100);
}

#[test]
fn test_adaptive_chunk_strategy() {
    let strategy = AdaptiveChunkStrategy::new();
    // 70% of one million bytes at 100 bytes per row: 7,000 rows.
    assert_eq!(strategy.calculate_chunk_size(1_000_000), 7_000);
    // Clamped to the floor and the ceiling.
    assert_eq!(strategy.calculate_chunk_size(0), 1_000);
    assert_eq!(strategy.calculate_chunk_size(usize::MAX), 1_000_000);
    // With a real row-size hint.
    assert_eq!(strategy.chunk_size_with_row_hint(1_000_000, 700), 1_000);
}

#[test]
fn test_chunk_size_adjustment() {
    let mut strategy = AdaptiveChunkStrategy::new();
    assert_eq!(strategy.current_chunk_size, 10_000);

    // High memory pressure shrinks to four fifths.
    strategy.adjust(90, 1000);
    assert_eq!(strategy.current_chunk_size, 8_000);

    // Low pressure and a fast batch grows by one fifth.
    strategy.adjust(40, 50);
    assert_eq!(strategy.current_chunk_size, 9_600);

    // Anything in between leaves the size alone.
    strategy.adjust(60, 50);
    assert_eq!(strategy.current_chunk_size, 9_600);

    assert!(strategy.current_chunk_size >= strategy.min_chunk_size);
    assert!(strategy.current_chunk_size <= strategy.max_chunk_size);
}

#[test]
fn test_chunk_strategy_builders() {
    let strategy = AdaptiveChunkStrategy::new()
        .with_min_chunk_size(500)
        .with_max_chunk_size(20_000)
        .with_target_ratio_percent(95);
    assert_eq!(strategy.min_chunk_size, 500);
    assert_eq!(strategy.max_chunk_size, 20_000);
    assert_eq!(strategy.target_ratio_percent, 90);
}

#[test]
fn test_parallel_reader_creation() {
    let paths = vec!["a.parquet".to_string(), "b.parquet".to_string(), "c.parquet".to_string()];
    let reader = ParallelStreamReader::new(paths, 4);
    assert_eq!(reader.num_files(), 3);
    assert_eq!(reader.max_concurrent, 4);
    assert_eq!(reader.buffer_size, 8);

    let reader = reader.with_max_concurrent(0).with_buffer_size(0);
    assert_eq!(reader.max_concurrent, 1);
    assert_eq!(reader.buffer_size, 1);
}

#[test]
fn test_parallel_concatenated() {
    // Five files of 50,000 rows each: the concatenation holds 250,000.
    let paths: Vec<String> = (0..5).map(|i| format!("f{}.parquet", i)).collect();
    let reader = ParallelStreamReader::new(paths, 2).with_buffer_size(4);
    let batches: Vec<Frame> = (0..5).map(|_| rows_frame(50_000)).collect();
    let df = reader.collect_concatenated(&batches).unwrap();
    assert_eq!(df.height(), 250_000);

    let none: Vec<Frame> = vec![];
    assert!(matches!(reader.collect_concatenated(&none), Err(ServiceError::NoData)));
}

#[test]
fn test_collect_with_pushdown() {
    let reader = MmapParquetReader::new(10_000, vec![50, 50], rows_frame(100)).unwrap();
    let adaptive: AdaptiveStreamingReader<EvenIds> =
        AdaptiveStreamingReader::new(reader, MemoryManager::new(1_000_000));
    let table = adaptive.with_predicate(EvenIds).collect().unwrap();
    assert_eq!(table.height(), 50);
}

#[test]
fn test_batch_timing_feedback() {
    let reader = MmapParquetReader::new(10_000, vec![100], rows_frame(100)).unwrap();
    let mut mm = MemoryManager::new(1000);
    mm.track_usage(900);
    let mut adaptive: AdaptiveStreamingReader<KeepAll> = AdaptiveStreamingReader::new(reader, mm);
    // 90 percent pressure shrinks the running chunk size to four fifths.
    adaptive.report_batch_timing(1000);
    assert_eq!(adaptive.chunk_strategy.current_chunk_size, 8_000);
}

#[test]
fn test_can_fit_in_memory_threshold() {
    // 1,000 rows at 100,000 bytes / 1,000 rows = 100 bytes per row:
    // the full load is estimated at exactly 100,000 bytes.
    let reader = MmapParquetReader::new(100_000, vec![1000], rows_frame(1000)).unwrap();
    let adaptive: AdaptiveStreamingReader<KeepAll> =
        AdaptiveStreamingReader::new(reader, MemoryManager::new(100_001));
    assert!(adaptive.can_fit_in_memory());

    let reader = MmapParquetReader::new(100_000, vec![1000], rows_frame(1000)).unwrap();
    let adaptive: AdaptiveStreamingReader<KeepAll> =
        AdaptiveStreamingReader::new(reader, MemoryManager::new(100_000));
    assert!(!adaptive.can_fit_in_memory());
}

#[test]
fn test_collect_returns_file_contents() {
    let reader = MmapParquetReader::new(50_000, vec![200, 300], rows_frame(500)).unwrap();
    let adaptive: AdaptiveStreamingReader<KeepAll> =
        AdaptiveStreamingReader::new(reader, MemoryManager::new(1_000_000));
    let table = adaptive.collect().unwrap();
    assert!(table.frames_equal(&rows_frame(500)));
}
