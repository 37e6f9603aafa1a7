//! Path validation against traversal payloads, and memory-pool accounting.

use rust_annie::path_validation::validate_path_secure;
use rust_annie::utils::validate_path;
use rust_annie::distance_registry::DistanceRegistry;
use rust_annie::gpu_memory::GpuMemoryPool;
use rust_annie::gpu_convert::Precision;

#[test]
fn test_validate_path_secure_basic() {
    let result = validate_path_secure("test.bin");
    assert!(result.is_ok());
}

#[test]
fn test_validate_path_secure_directory_traversal() {
    let result = validate_path_secure("../../../etc/passwd");
    assert!(result.is_err());
    let result = validate_path_secure("%2e%2e/etc/passwd");
    assert!(result.is_err());
    let result = validate_path_secure("..\\..\\windows\\system32");
    assert!(result.is_err());
}

#[test]
fn test_validate_path_secure_absolute_paths() {
    let result = validate_path_secure("/etc/passwd");
    assert!(result.is_err());
    let result = validate_path_secure("C:\\Windows\\System32");
    assert!(result.is_err());
}

#[test]
fn test_validate_path_secure_null_bytes() {
    let result = validate_path_secure("test.bin\0");
    assert!(result.is_err());
    let result = validate_path_secure("test\x01.bin");
    assert!(result.is_err());
}

#[test]
fn test_basic_directory_traversal() {
    let attacks = [
        "../../../etc/passwd",
        "..\\..\\..\\windows\\system32\\config\\sam",
        "../../../../root/.ssh/id_rsa",
        "../../../../../etc/shadow",
    ];
    for attack in attacks.iter() {
        assert!(validate_path_secure(attack).is_err(), "Should reject path: {}", attack);
    }
}

#[test]
fn test_url_encoded_traversal() {
    let attacks = [
        "%2e%2e%2f%2e%2e%2f%2e%2e%2fetc%2fpasswd",
        "%2e%2e%5c%2e%2e%5c%2e%2e%5cwindows%5csystem32",
        "..%2f..%2f..%2fetc%2fpasswd",
        "%252e%252e%252f%252e%252e%252f%252e%252e%252fetc%252fpasswd",
    ];
    for attack in attacks.iter() {
        assert!(validate_path_secure(attack).is_err(), "Should reject encoded path: {}", attack);
    }
}

#[test]
fn test_mixed_separators() {
    let attacks = [
        "..\\../../../etc/passwd",
        "../..\\../etc/passwd",
        "..\\..\\../etc/passwd",
        "....//....//etc/passwd",
    ];
    for attack in attacks.iter() {
        assert!(
            validate_path_secure(attack).is_err(),
            "Should reject mixed separator path: {}",
            attack
        );
    }
}

#[test]
fn test_absolute_path_rejection() {
    let attacks = [
        "/etc/passwd",
        "/root/.ssh/id_rsa",
        "\\Windows\\System32\\config\\sam",
        "C:\\Windows\\System32\\drivers\\etc\\hosts",
        "/proc/version",
        "/dev/null",
    ];
    for attack in attacks.iter() {
        assert!(validate_path_secure(attack).is_err(), "Should reject absolute path: {}", attack);
    }
}

#[test]
fn test_null_byte_injection() {
    let attacks = [
        "safe.txt\0../../../etc/passwd",
        "safe\0.txt",
        "safe.txt\0\0",
    ];
    for attack in attacks.iter() {
        assert!(validate_path_secure(attack).is_err(), "Should reject null byte path: {}", attack);
    }
}

#[test]
fn test_control_character_injection() {
    let attacks = ["safe\x01.txt", "safe\x02.txt", "safe\x7f.txt", "safe\x1f.txt"];
    for attack in attacks.iter() {
        assert!(
            validate_path_secure(attack).is_err(),
            "Should reject control character path: {}",
            attack
        );
    }
}

#[test]
fn test_double_encoding_attacks() {
    let attacks = [
        "%252e%252e%252f%252e%252e%252f%252e%252e%252fetc%252fpasswd",
        "%25252e%25252e%25252f",
        "%2527%2527%252e%252e%252f",
    ];
    for attack in attacks.iter() {
        assert!(
            validate_path_secure(attack).is_err(),
            "Should reject double encoded path: {}",
            attack
        );
    }
}

#[test]
fn test_case_sensitivity_bypasses() {
    let attacks = [
        "../../../ETC/passwd",
        "../../../etc/PASSWD",
        "../../../Etc/Passwd",
        "..\\..\\..\\WINDOWS\\system32",
    ];
    for attack in attacks.iter() {
        assert!(validate_path_secure(attack).is_err(), "Should reject case variant: {}", attack);
    }
}

#[test]
fn legacy_validate_path_checks_strings() {
    assert!(validate_path("model.bin").is_ok());
    assert_eq!(validate_path("model.bin").unwrap(), "model.bin");
    assert!(validate_path("../secret").is_err());
    assert!(validate_path("dir/file").is_err());
    assert!(validate_path("dir\\file").is_err());
}

#[test]
fn test_memory_pool_basic_operations() {
    let mut pool = GpuMemoryPool::new();
    let device_id = 0;
    let size = 1024;
    let precision = Precision::Fp32;
    let buffer = pool.get_buffer(device_id, size, precision);
    assert_eq!(buffer.len(), size * 4);
    pool.return_buffer(device_id, buffer, size, precision);
    let usage = pool.memory_usage(device_id);
    assert!(usage.is_some());
}

#[test]
fn pool_round_trip_hits_the_cache() {
    // taking, returning and taking the same key again reuses the buffer:
    // the counter after the second take equals the counter after the first
    let mut pool = GpuMemoryPool::new();
    let buffer = pool.get_buffer(3, 256, Precision::Int8);
    let (after_first, _) = pool.memory_usage(3).unwrap();
    assert_eq!(after_first, 256);
    pool.return_buffer(3, buffer, 256, Precision::Int8);
    let (after_return, _) = pool.memory_usage(3).unwrap();
    assert_eq!(after_return, 0);
    let _again = pool.get_buffer(3, 256, Precision::Int8);
    let (after_second, peak) = pool.memory_usage(3).unwrap();
    assert_eq!(after_second, 256);
    assert_eq!(peak, 256);
}

#[test]
fn test_emergency_cleanup() {
    let mut pool = GpuMemoryPool::new();
    let device_id = 0;
    let b1 = pool.get_buffer(device_id, 256, Precision::Fp32);
    let b2 = pool.get_buffer(device_id, 512, Precision::Fp16);
    pool.return_buffer(device_id, b1, 256, Precision::Fp32);
    pool.return_buffer(device_id, b2, 512, Precision::Fp16);
    pool.emergency_cleanup(device_id);
    let usage_after = pool.memory_usage(device_id).unwrap_or((0, 0));
    assert_eq!(usage_after.0, 0);
}

#[test]
fn test_total_memory_usage() {
    let mut pool = GpuMemoryPool::new();
    let _b1 = pool.get_buffer(0, 256, Precision::Fp32);
    let _b2 = pool.get_buffer(1, 512, Precision::Fp16);
    let (total_allocated, total_peak) = pool.total_memory_usage();
    assert!(total_allocated > 0);
    assert!(total_peak >= total_allocated);
}

#[test]
fn registry_resolves_and_lists() {
    let reg = DistanceRegistry::new();
    assert!(reg.get("euclidean").is_some());
    assert!(reg.get("cosine").is_some());
    assert!(reg.get("manhattan").is_some());
    assert!(reg.get("chebyshev").is_some());
    assert!(reg.get("missing").is_none());
    let names = reg.list_metrics();
    assert!(names.iter().any(|n| n == "euclidean"));
    // the built-in entry computes its metric over bit patterns
    let f = reg.get("manhattan").unwrap();
    let a: Vec<u32> = [1.0f32, 2.0].iter().map(|x| x.to_bits()).collect();
    let b: Vec<u32> = [4.0f32, 6.0].iter().map(|x| x.to_bits()).collect();
    assert_eq!(f32::from_bits(f.distance(&a, &b)), 7.0);
}
