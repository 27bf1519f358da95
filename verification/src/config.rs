use vstd::prelude::*;

verus! {

/// Read-only service configuration: chunk sizes for both transfer
/// directions, the storage root, the ceiling on simultaneous non-terminal
/// reservations, and the total storage quota in bytes.
pub struct Config {
    pub download_part_size: u64,
    pub upload_part_size: u64,
    pub data_path: String,
    pub max_simultaneous_uploads: usize,
    pub max_upload_directory_size: usize,
}

pub const DEFAULT_PART_SIZE: u64 = 10000000;

pub const DEFAULT_MAX_SIMULTANEOUS_UPLOADS: usize = 10;

pub const DEFAULT_MAX_DIRECTORY_SIZE: usize = 1000000000;

impl Default for Config {
    /// Ten-megabyte chunks in both directions, storage under `data/`, at most
    /// ten simultaneous uploads, and a one-gigabyte quota.
    fn default() -> (c: Config)
        ensures
            c.download_part_size == DEFAULT_PART_SIZE,
            c.upload_part_size == DEFAULT_PART_SIZE,
            c.data_path@ == "data/"@,
            c.max_simultaneous_uploads == DEFAULT_MAX_SIMULTANEOUS_UPLOADS,
            c.max_upload_directory_size == DEFAULT_MAX_DIRECTORY_SIZE,
    {
        Config {
            download_part_size: DEFAULT_PART_SIZE,
            upload_part_size: DEFAULT_PART_SIZE,
            data_path: "data/".to_string(),
            max_simultaneous_uploads: DEFAULT_MAX_SIMULTANEOUS_UPLOADS,
            max_upload_directory_size: DEFAULT_MAX_DIRECTORY_SIZE,
        }
    }
}

} // verus!
