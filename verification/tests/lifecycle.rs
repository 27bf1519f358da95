use chunkstore::config::Config;
use chunkstore::endpoints::{
    upload_commit, upload_part_backing_lost, upload_part_target, upload_reserve,
};
use chunkstore::errors::TransferError;
use chunkstore::quota::fits_quota;
use chunkstore::registry::{estimated_size_total, remove_expired_reservations, CurrentUploads};

fn config_with(max_uploads: usize, quota: usize) -> Config {
    Config {
        max_simultaneous_uploads: max_uploads,
        max_upload_directory_size: quota,
        ..Config::default()
    }
}

#[test]
fn quota_lifecycle_scenario() {
    // quota of 1000 bytes over an empty storage root
    let config = config_with(10, 1000);
    let mut uploads = CurrentUploads::new();

    // reserve "a" with declared size 600: fits (0 + 0 + 600 < 1000)
    let token_a = upload_reserve(&config, &mut uploads, "a".to_string(), 600, 0, false, 0)
        .expect("first reservation fits");

    // reserve "b" with declared size 500: 0 + 600 + 500 >= 1000
    let refused = upload_reserve(&config, &mut uploads, "b".to_string(), 500, 0, false, 0);
    assert_eq!(refused.unwrap_err(), TransferError::ResourceExhausted);

    // commit "a"'s token; 600 real bytes now sit on disk
    upload_commit(&mut uploads, &token_a);
    assert_eq!(estimated_size_total(&uploads), 0);

    // reserve "b" with declared size 300: 600 + 0 + 300 < 1000
    upload_reserve(&config, &mut uploads, "b".to_string(), 300, 0, false, 600)
        .expect("fits after the commit");
}

#[test]
fn quota_boundary_is_strict() {
    assert!(fits_quota(600, 0, 300, 1000));
    assert!(!fits_quota(600, 100, 300, 1000));
    assert!(!fits_quota(0, 0, 1000, 1000));
    assert!(fits_quota(0, 0, 999, 1000));
}

#[test]
fn existing_file_is_a_conflict() {
    let config = config_with(10, 1000);
    let mut uploads = CurrentUploads::new();
    let refused = upload_reserve(&config, &mut uploads, "a".to_string(), 1, 0, true, 0);
    assert_eq!(refused.unwrap_err(), TransferError::Conflict);
}

#[test]
fn ceiling_blocks_until_a_commit() {
    let config = config_with(2, 1000000);
    let mut uploads = CurrentUploads::new();
    let token_a = upload_reserve(&config, &mut uploads, "a".to_string(), 1, 0, false, 0).unwrap();
    let _token_b = upload_reserve(&config, &mut uploads, "b".to_string(), 1, 0, false, 0).unwrap();

    let refused = upload_reserve(&config, &mut uploads, "c".to_string(), 1, 0, false, 0);
    assert_eq!(refused.unwrap_err(), TransferError::ResourceExhausted);

    upload_commit(&mut uploads, &token_a);
    upload_reserve(&config, &mut uploads, "c".to_string(), 1, 0, false, 0)
        .expect("fits once a slot is free");
}

#[test]
fn unknown_token_is_refused() {
    let config = config_with(10, 1000);
    let mut uploads = CurrentUploads::new();

    let never_issued = "no-such-token".to_string();
    assert_eq!(
        upload_part_target(&uploads, &never_issued).unwrap_err(),
        TransferError::UnknownToken
    );

    let token = upload_reserve(&config, &mut uploads, "a".to_string(), 1, 0, false, 0).unwrap();
    assert_eq!(upload_part_target(&uploads, &token).unwrap(), "a");

    upload_commit(&mut uploads, &token);
    assert_eq!(
        upload_part_target(&uploads, &token).unwrap_err(),
        TransferError::UnknownToken
    );
}

#[test]
fn commit_is_idempotent() {
    let config = config_with(10, 1000);
    let mut uploads = CurrentUploads::new();
    let token_a = upload_reserve(&config, &mut uploads, "a".to_string(), 10, 0, false, 0).unwrap();
    let token_b = upload_reserve(&config, &mut uploads, "b".to_string(), 20, 0, false, 0).unwrap();

    upload_commit(&mut uploads, &token_a);
    upload_commit(&mut uploads, &token_a);
    upload_commit(&mut uploads, &"never-issued".to_string());

    // the other reservation is untouched
    assert_eq!(upload_part_target(&uploads, &token_b).unwrap(), "b");
    assert_eq!(estimated_size_total(&uploads), 20);
}

#[test]
fn backing_store_loss_forgets_the_token() {
    let config = config_with(10, 1000);
    let mut uploads = CurrentUploads::new();
    let token = upload_reserve(&config, &mut uploads, "a".to_string(), 1, 0, false, 0).unwrap();

    let fault = upload_part_backing_lost(&mut uploads, &token);
    assert_eq!(fault, TransferError::BackingStoreLost);
    assert_eq!(
        upload_part_target(&uploads, &token).unwrap_err(),
        TransferError::UnknownToken
    );
}

#[test]
fn stale_reservation_counts_until_swept() {
    // ceiling of one: the abandoned reservation blocks everything until it
    // expires, 600 seconds after creation, at the next reserve call
    let config = config_with(1, 1000000);
    let mut uploads = CurrentUploads::new();
    upload_reserve(&config, &mut uploads, "a".to_string(), 1, 0, false, 0).unwrap();

    let refused = upload_reserve(&config, &mut uploads, "b".to_string(), 1, 599, false, 0);
    assert_eq!(refused.unwrap_err(), TransferError::ResourceExhausted);

    upload_reserve(&config, &mut uploads, "b".to_string(), 1, 600, false, 0)
        .expect("the stale reservation no longer counts");
}

#[test]
fn stale_reservation_stops_charging_quota() {
    let config = config_with(10, 1000);
    let mut uploads = CurrentUploads::new();
    upload_reserve(&config, &mut uploads, "a".to_string(), 900, 0, false, 0).unwrap();

    let refused = upload_reserve(&config, &mut uploads, "b".to_string(), 200, 1, false, 0);
    assert_eq!(refused.unwrap_err(), TransferError::ResourceExhausted);

    upload_reserve(&config, &mut uploads, "b".to_string(), 200, 600, false, 0)
        .expect("the estimate of the expired reservation is gone");
    assert_eq!(estimated_size_total(&uploads), 200);
}

#[test]
fn sweep_only_drops_expired_entries() {
    let config = config_with(10, 1000000);
    let mut uploads = CurrentUploads::new();
    let token_a = upload_reserve(&config, &mut uploads, "a".to_string(), 5, 0, false, 0).unwrap();
    let token_b = upload_reserve(&config, &mut uploads, "b".to_string(), 7, 300, false, 0).unwrap();

    remove_expired_reservations(&mut uploads, 599);
    assert_eq!(upload_part_target(&uploads, &token_a).unwrap(), "a");
    assert_eq!(estimated_size_total(&uploads), 12);

    remove_expired_reservations(&mut uploads, 600);
    assert_eq!(
        upload_part_target(&uploads, &token_a).unwrap_err(),
        TransferError::UnknownToken
    );
    assert_eq!(upload_part_target(&uploads, &token_b).unwrap(), "b");
    assert_eq!(estimated_size_total(&uploads), 7);
}

#[test]
fn tokens_are_uuid_shaped() {
    let config = config_with(10, 1000);
    let mut uploads = CurrentUploads::new();
    let token = upload_reserve(&config, &mut uploads, "a".to_string(), 1, 0, false, 0).unwrap();
    assert_eq!(token.len(), 36);
    let hyphens = token.chars().filter(|c| *c == '-').count();
    assert_eq!(hyphens, 4);
}
