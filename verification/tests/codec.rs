use chunkstore::codec::{chunk_bounds, decode_upload_body, download_part, download_size, read_chunk};
use chunkstore::config::Config;
use chunkstore::errors::TransferError;

fn four_byte_config() -> Config {
    Config { download_part_size: 4, ..Config::default() }
}

#[test]
fn chunking_abcdefg() {
    let data: Vec<u8> = b"ABCDEFG".to_vec();
    assert_eq!(read_chunk(&data, 0, 4), b"ABCD".to_vec());
    assert_eq!(read_chunk(&data, 1, 4), b"EFG".to_vec());
    assert_eq!(read_chunk(&data, 2, 4), Vec::<u8>::new());
    assert_eq!(read_chunk(&data, 1000, 4), Vec::<u8>::new());
}

#[test]
fn chunks_reassemble_exactly() {
    let data: Vec<u8> = (0u8..=255u8).collect();
    for chunk_size in [1u64, 3, 7, 64, 255, 256, 1000] {
        let mut rebuilt: Vec<u8> = Vec::new();
        let mut part = 0u64;
        loop {
            let chunk = read_chunk(&data, part, chunk_size);
            if chunk.is_empty() {
                break;
            }
            rebuilt.extend_from_slice(&chunk);
            part += 1;
        }
        assert_eq!(rebuilt, data);
        let expected_parts = (data.len() as u64).div_ceil(chunk_size);
        assert_eq!(part, expected_parts);
    }
}

#[test]
fn bounds_for_download_window() {
    assert_eq!(chunk_bounds(7, 0, 4), Some((0, 4)));
    assert_eq!(chunk_bounds(7, 1, 4), Some((4, 7)));
    assert_eq!(chunk_bounds(7, 2, 4), None);
    assert_eq!(chunk_bounds(0, 0, 4), None);
}

#[test]
fn download_encodes_without_padding() {
    let config = four_byte_config();
    let data: Vec<u8> = b"ABCDEFG".to_vec();
    assert_eq!(download_part(&config, &data, 0), "QUJDRA");
    assert_eq!(download_part(&config, &data, 1), "RUZH");
    assert_eq!(download_part(&config, &data, 2), "");
}

#[test]
fn upload_body_decodes_with_padding() {
    assert_eq!(decode_upload_body("QUJDRA==").unwrap(), b"ABCD".to_vec());
    assert_eq!(decode_upload_body("RUZH").unwrap(), b"EFG".to_vec());
    assert_eq!(decode_upload_body("").unwrap(), Vec::<u8>::new());
}

#[test]
fn malformed_body_is_invalid_encoding() {
    assert_eq!(decode_upload_body("!!!").unwrap_err(), TransferError::InvalidEncoding);
    // the upload decoder demands canonical padding
    assert_eq!(decode_upload_body("QUJDRA").unwrap_err(), TransferError::InvalidEncoding);
}

#[test]
fn size_renders_in_decimal() {
    assert_eq!(download_size(0), "0");
    assert_eq!(download_size(7), "7");
    assert_eq!(download_size(10), "10");
    assert_eq!(download_size(8388608), "8388608");
    assert_eq!(download_size(u64::MAX), "18446744073709551615");
}

#[test]
fn default_config_values() {
    let c = Config::default();
    assert_eq!(c.download_part_size, 10000000);
    assert_eq!(c.upload_part_size, 10000000);
    assert_eq!(c.data_path, "data/");
    assert_eq!(c.max_simultaneous_uploads, 10);
    assert_eq!(c.max_upload_directory_size, 1000000000);
}
