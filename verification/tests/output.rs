use std::io::Write;
use ray_tracer::output::{cache_path, compress_cache, decompress_cache, output_path};
use sha3::{Digest, Sha3_256};

#[test]
fn output_path_replaces_the_extension() {
    assert_eq!(output_path("scenes/cover.yml").unwrap(), "./cover.png");
    assert_eq!(output_path("/tmp/models/teapot.obj").unwrap(), "./teapot.png");
    assert_eq!(output_path("a.b.c").unwrap(), "./a.b.png");
}

#[test]
fn output_path_without_extension_is_an_error() {
    assert_eq!(
        output_path("scenes/cover").unwrap_err(),
        "Can't get the extension of \"scenes/cover\""
    );
    assert_eq!(
        output_path(".hidden").unwrap_err(),
        "Can't get the extension of \".hidden\""
    );
}

#[test]
fn output_path_without_file_name_is_an_error() {
    assert_eq!(
        output_path("scenes/..").unwrap_err(),
        "Can't get the file name of \"scenes/..\""
    );
    assert_eq!(output_path("/").unwrap_err(), "Can't get the file name of \"/\"");
}

#[test]
fn output_path_with_a_trailing_dot() {
    assert_eq!(output_path("scene.").unwrap(), "./scene.png");
}

fn expected_cache_path(path: &str, rotations: [f64; 3], bvh_threshold: usize) -> String {
    let hash = Sha3_256::new()
        .chain(path)
        .chain(rotations[0].to_le_bytes())
        .chain(rotations[1].to_le_bytes())
        .chain(rotations[2].to_le_bytes())
        .chain(bvh_threshold.to_le_bytes())
        .finalize();
    format!(".rtc_{:x}.gz", hash)
}

fn rotation_bytes(rotations: [f64; 3]) -> Vec<u8> {
    rotations.iter().flat_map(|r| r.to_le_bytes()).collect()
}

#[test]
fn cache_path_is_the_digest_of_path_rotations_and_threshold() {
    let rotations = [0.5, -1.25, 3.0];
    let name = cache_path("models/teapot.obj", &rotation_bytes(rotations), 4);
    assert_eq!(name, expected_cache_path("models/teapot.obj", rotations, 4));
    assert!(name.starts_with(".rtc_"));
    assert!(name.ends_with(".gz"));
    assert_eq!(name.len(), ".rtc_".len() + 64 + ".gz".len());
}

#[test]
fn cache_path_changes_with_each_input() {
    let r = rotation_bytes([0.0, 0.0, 0.0]);
    let base = cache_path("a.obj", &r, 4);
    assert_ne!(base, cache_path("b.obj", &r, 4));
    assert_ne!(base, cache_path("a.obj", &r, 5));
    assert_ne!(base, cache_path("a.obj", &rotation_bytes([0.0, 1.0, 0.0]), 4));
    assert_eq!(base, expected_cache_path("a.obj", [0.0, 0.0, 0.0], 4));
}

#[test]
fn cache_round_trip() {
    let data: Vec<u8> = (0..2000u32).map(|i| (i * 7 % 251) as u8).collect();
    let compressed = compress_cache(&data).unwrap();
    assert_ne!(compressed, data);
    assert_eq!(&compressed[..2], &[0x1f, 0x8b]);
    assert_eq!(decompress_cache(&compressed).unwrap(), data);
}

#[test]
fn cache_round_trip_of_nothing() {
    let compressed = compress_cache(&[]).unwrap();
    assert!(!compressed.is_empty());
    assert_eq!(decompress_cache(&compressed).unwrap(), Vec::<u8>::new());
}

#[test]
fn decompressing_what_is_not_gzip_fails() {
    assert!(decompress_cache(b"not a gzip stream").is_err());
}

#[test]
fn cache_compression_is_the_gzip_stream_of_the_bytes() {
    let data: Vec<u8> = b"a model, serialized".repeat(50);
    let mut gz = flate2::write::GzEncoder::new(Vec::new(), flate2::Compression::default());
    gz.write_all(&data).unwrap();
    let expected = gz.finish().unwrap();
    assert_eq!(compress_cache(&data).unwrap(), expected);
}
