//! Device distribution and merging, managed buffers, registry protection,
//! and the integrity diagnostic.

use rust_annie::gpu_dispatch::{validate_l2_inputs, distribute_data, merge_device_results};
use rust_annie::gpu_memory::{GpuMemoryPool, GpuBufferBatch, pressure_decision, clamp_unit32, DEFAULT_PRESSURE_THRESHOLD32};
use rust_annie::gpu_convert::Precision;
use rust_annie::distance_registry::{DistanceRegistry, DistanceFunction};
use rust_annie::index::AnnIndex;
use rust_annie::metrics::Distance;

#[test]
fn l2_input_validation() {
    assert!(validate_l2_inputs(6, 12, 3, 2, 4).is_ok());
    assert!(validate_l2_inputs(0, 12, 3, 0, 4).is_err());
    assert!(validate_l2_inputs(5, 12, 3, 2, 4).is_err());
    assert!(validate_l2_inputs(6, 11, 3, 2, 4).is_err());
    assert!(validate_l2_inputs(6, 12, 0, 2, 4).is_err());
}

#[test]
fn distribution_partitions_whole_vectors() {
    let data: Vec<u32> = (0..12u32).collect();
    let devices = vec![0usize, 1, 2];
    let chunks = distribute_data(&data, 2, &devices).unwrap();
    assert_eq!(chunks.len(), 3);
    assert_eq!(chunks[0].0, 0);
    assert_eq!(chunks[0].1, vec![0, 1, 2, 3]);
    assert_eq!(chunks[1].1, vec![4, 5, 6, 7]);
    // the last device absorbs the remainder
    assert_eq!(chunks[2].1, vec![8, 9, 10, 11]);
    assert!(distribute_data(&data, 5, &devices).is_err());
    assert!(distribute_data(&data, 2, &vec![]).is_err());
}

#[test]
fn merge_offsets_and_selects() {
    // two devices, local indices offset by their partition starts
    let partials = vec![
        (0usize, vec![(0i64, 5.0f32.to_bits()), (1, 1.0f32.to_bits())]),
        (2usize, vec![(0i64, 3.0f32.to_bits()), (1, 4.0f32.to_bits())]),
    ];
    let top = merge_device_results(&partials, 3);
    assert_eq!(top.len(), 3);
    assert_eq!(top[0].0, 1); // local 1 of device at offset 0, distance 1
    assert_eq!(top[1].0, 2); // local 0 of the partition starting at 2
    assert_eq!(top[2].0, 3);
    assert_eq!(f32::from_bits(top[0].1), 1.0);
    assert_eq!(f32::from_bits(top[2].1), 4.0);
}

#[test]
fn managed_buffers_return_once() {
    let mut pool = GpuMemoryPool::new();
    let mut buf = pool.get_managed_buffer(1, 64, Precision::Fp32);
    assert_eq!(buf.len(), 256);
    assert!(!buf.is_empty());
    let (a, _) = pool.memory_usage(1).unwrap();
    assert_eq!(a, 256);
    buf.return_to_pool(&mut pool);
    let (a, _) = pool.memory_usage(1).unwrap();
    assert_eq!(a, 0);
    // the second return is a no-op
    buf.return_to_pool(&mut pool);
    let (a, peak) = pool.memory_usage(1).unwrap();
    assert_eq!(a, 0);
    assert_eq!(peak, 256);
    // and the bytes were cached: the next take is a hit
    let again = pool.get_buffer(1, 64, Precision::Fp32);
    assert_eq!(again.len(), 256);
}

#[test]
fn buffer_batches_release_together() {
    let mut pool = GpuMemoryPool::new();
    let mut batch = GpuBufferBatch::new(0);
    let b1 = pool.get_buffer(0, 16, Precision::Int8);
    let b2 = pool.get_buffer(0, 8, Precision::Fp16);
    batch.add_buffer(b1, 16, Precision::Int8);
    batch.add_buffer(b2, 8, Precision::Fp16);
    assert_eq!(batch.len(), 2);
    assert!(!batch.is_empty());
    assert!(batch.get_buffer(0).is_some());
    assert!(batch.get_buffer(2).is_none());
    let (a, _) = pool.memory_usage(0).unwrap();
    assert_eq!(a, 32);
    batch.return_all_to_pool(&mut pool);
    let (a, _) = pool.memory_usage(0).unwrap();
    assert_eq!(a, 0);
    // idempotent on the whole batch too
    batch.return_all_to_pool(&mut pool);
    let (a, _) = pool.memory_usage(0).unwrap();
    assert_eq!(a, 0);
}

struct ZeroMetric;

impl DistanceFunction for ZeroMetric {
    fn distance(&self, _a: &Vec<u32>, _b: &Vec<u32>) -> u32 {
        0
    }

    fn name(&self) -> String {
        "zero".to_string()
    }
}

#[test]
fn registry_protects_builtins() {
    let mut reg = DistanceRegistry::new();
    // overwriting a built-in name is ignored
    reg.register("euclidean", Box::new(ZeroMetric));
    let f = reg.get("euclidean").unwrap();
    let a: Vec<u32> = vec![0.0f32.to_bits()];
    let b: Vec<u32> = vec![3.0f32.to_bits()];
    assert_eq!(f32::from_bits(f.distance(&a, &b)), 3.0);
    // a custom name can be registered and later overwritten
    reg.register("zero", Box::new(ZeroMetric));
    let f = reg.get("zero").unwrap();
    assert_eq!(f.distance(&a, &b), 0);
}

#[test]
fn integrity_diagnostic_passes_on_maintained_store() {
    let mut idx = AnnIndex::new(2, Distance::Euclidean).unwrap();
    idx.add(
        vec![
            vec![1.0f32.to_bits(), 2.0f32.to_bits()],
            vec![3.0f32.to_bits(), 4.0f32.to_bits()],
        ],
        vec![1, 2],
    )
    .unwrap();
    assert!(idx.validate().is_ok());
    idx.update(1, vec![5.0f32.to_bits(), 6.0f32.to_bits()]).unwrap();
    idx.remove(vec![2]).unwrap();
    assert!(idx.validate().is_ok());
}

#[test]
fn batch_demands_full_rows() {
    let mut idx = AnnIndex::new(1, Distance::Euclidean).unwrap();
    idx.add(vec![vec![1.0f32.to_bits()]], vec![1]).unwrap();
    // more results demanded than live entries: the matrix cannot be formed
    let queries = vec![vec![0.0f32.to_bits()]];
    assert!(idx.search_batch(&queries, 2, None).is_err());
    let (ids, _) = idx.search_batch(&queries, 1, None).unwrap();
    assert_eq!(ids, vec![vec![1]]);
}

#[test]
fn pressure_reading_and_decisions() {
    let mut pool = GpuMemoryPool::new();
    let _b = pool.get_buffer(3, 64, Precision::Fp32); // 256 bytes on device 3
    let p = pool.memory_pressure(3).unwrap();
    assert_eq!(f32::from_bits(p), 256.0f32 / (0x4000_0000u32 as f32));
    assert_eq!(pool.memory_pressure(9), None);
    let (alert, emergency) = pressure_decision(p, DEFAULT_PRESSURE_THRESHOLD32);
    assert!(!alert && !emergency);
    let (alert, emergency) = pressure_decision(0.85f32.to_bits(), DEFAULT_PRESSURE_THRESHOLD32);
    assert!(alert && !emergency);
    let (alert, emergency) = pressure_decision(0.95f32.to_bits(), DEFAULT_PRESSURE_THRESHOLD32);
    assert!(alert && emergency);
    assert_eq!(clamp_unit32(1.5f32.to_bits()), 1.0f32.to_bits());
    assert_eq!(clamp_unit32((-0.5f32).to_bits()), 0.0f32.to_bits());
    assert_eq!(clamp_unit32(0.3f32.to_bits()), 0.3f32.to_bits());
}
