use vstd::prelude::*;
use crate::config::Config;
use crate::errors::TransferError;
use crate::quota::fits_quota;
use crate::registry::{
    contains_token, entry_expired, est_sum, estimated_size_total, fresh_token,
    lemma_remove_token_absent, lemma_remove_token_keeps, lemma_remove_token_not_contains,
    lemma_remove_token_only, lemma_sweep_unique, remove_expired_reservations, remove_token, sweep,
    tokens_unique, CurrentUploads, EntryView, UploadReservation,
};

verus! {

/// The decision that a reservation request meets, in the order the checks
/// run: a filename collision on disk is a conflict; then expired
/// reservations are swept; then the ceiling on simultaneous uploads and the
/// storage quota are enforced, both reported as exhaustion. `None` means the
/// reservation is accepted.
pub open spec fn reserve_decision(
    s: Seq<EntryView>,
    now: u64,
    file_exists: bool,
    data_dir_size: u64,
    size: usize,
    max_uploads: usize,
    max_total: usize,
) -> Option<TransferError> {
    if file_exists {
        Some(TransferError::Conflict)
    } else if sweep(s, now).len() >= max_uploads {
        Some(TransferError::ResourceExhausted)
    } else if data_dir_size + est_sum(sweep(s, now)) + size >= max_total {
        Some(TransferError::ResourceExhausted)
    } else {
        None
    }
}

/// Serves a reservation request. `file_exists` is the caller's answer to
/// "does the target path already exist under the storage root", checked
/// before anything else; `data_dir_size` is the measured on-disk usage of
/// the storage root; `now` is the current time in seconds on the caller's
/// monotonic clock. On refusal past the collision check the expiry sweep has
/// still run. On success the caller must create the empty file at
/// `filename`, and the fresh token is both returned and registered.
pub fn upload_reserve(
    config: &Config,
    current_uploads: &mut CurrentUploads,
    filename: String,
    size: usize,
    now: u64,
    file_exists: bool,
    data_dir_size: u64,
) -> (r: Result<String, TransferError>)
    requires
        old(current_uploads).wf(),
    ensures
        final(current_uploads).wf(),
        ({
            let decision = reserve_decision(
                old(current_uploads)@,
                now,
                file_exists,
                data_dir_size,
                size,
                config.max_simultaneous_uploads,
                config.max_upload_directory_size,
            );
            match r {
                Err(e) => Some(e) == decision && final(current_uploads)@ == (if file_exists {
                    old(current_uploads)@
                } else {
                    sweep(old(current_uploads)@, now)
                }),
                Ok(token) => decision is None && token@.len() == 36 && final(current_uploads)@
                    == remove_token(sweep(old(current_uploads)@, now), token@).push(
                    EntryView {
                        token: token@,
                        filename: filename@,
                        creation: now,
                        estimated_size_bytes: size,
                    },
                ),
            }
        }),
{
    if file_exists {
        return Err(TransferError::Conflict);
    }
    remove_expired_reservations(current_uploads, now);
    if current_uploads.len() >= config.max_simultaneous_uploads {
        return Err(TransferError::ResourceExhausted);
    }
    let in_flight = estimated_size_total(current_uploads);
    if !fits_quota(data_dir_size, in_flight, size, config.max_upload_directory_size) {
        return Err(TransferError::ResourceExhausted);
    }
    let token = fresh_token();
    let reservation = UploadReservation::new(filename, size, now);
    current_uploads.insert(token.clone(), reservation);
    Ok(token)
}

/// Resolves an append request's token to the registered filename, or refuses
/// a token not in the registry — never issued, already committed, or swept —
/// as `UnknownToken`.
pub fn upload_part_target(current_uploads: &CurrentUploads, uuid: &String) -> (r: Result<
    String,
    TransferError,
>)
    ensures
        match r {
            Ok(f) => exists|i: int|
                0 <= i < current_uploads@.len() && #[trigger] current_uploads@[i].token == uuid@
                    && current_uploads@[i].filename == f@,
            Err(e) => e == TransferError::UnknownToken && !contains_token(current_uploads@, uuid@),
        },
{
    match current_uploads.get_filename(uuid) {
        Some(f) => Ok(f),
        None => Err(TransferError::UnknownToken),
    }
}

/// The cleanup path of an append whose backing file has vanished from disk:
/// the reservation is force-removed and the condition is reported as the
/// fatal `BackingStoreLost`. The token is unusable from here on; the upload
/// must be re-created from scratch.
pub fn upload_part_backing_lost(current_uploads: &mut CurrentUploads, uuid: &String) -> (r:
    TransferError)
    requires
        old(current_uploads).wf(),
    ensures
        final(current_uploads).wf(),
        final(current_uploads)@ == remove_token(old(current_uploads)@, uuid@),
        r == TransferError::BackingStoreLost,
{
    current_uploads.delete_reservation(uuid);
    TransferError::BackingStoreLost
}

/// Commits an upload: the reservation is removed unconditionally, whatever
/// was appended, and the file becomes visible as complete. Committing an
/// unknown or already-committed token is a no-op, not an error.
pub fn upload_commit(current_uploads: &mut CurrentUploads, uuid: &String)
    requires
        old(current_uploads).wf(),
    ensures
        final(current_uploads).wf(),
        final(current_uploads)@ == remove_token(old(current_uploads)@, uuid@),
{
    current_uploads.delete_reservation(uuid);
}

/// While a reservation for `filename` is live, its backing file stands on
/// disk (reserve created it empty and only the disk forgets it), and a
/// completed file of that name stands on disk too. In either case a second
/// `reserve` for the same name is refused as a conflict.
pub proof fn lemma_reserve_filename_exclusive(
    s: Seq<EntryView>,
    disk: Set<Seq<char>>,
    filename: Seq<char>,
    file_exists: bool,
    now: u64,
    data_dir_size: u64,
    size: usize,
    max_uploads: usize,
    max_total: usize,
)
    requires
        file_exists == disk.contains(filename),
        forall|i: int| 0 <= i < s.len() ==> disk.contains(#[trigger] s[i].filename),
        (exists|i: int| 0 <= i < s.len() && #[trigger] s[i].filename == filename)
            || disk.contains(filename),
    ensures
        reserve_decision(s, now, file_exists, data_dir_size, size, max_uploads, max_total)
            == Some(TransferError::Conflict),
{
    if exists|i: int| 0 <= i < s.len() && #[trigger] s[i].filename == filename {
        let i = choose|i: int| 0 <= i < s.len() && #[trigger] s[i].filename == filename;
        assert(disk.contains(s[i].filename));
    }
}

proof fn lemma_sweep_remove_commute(s: Seq<EntryView>, t: Seq<char>, now: u64)
    ensures
        sweep(remove_token(s, t), now) == remove_token(sweep(s, now), t),
    decreases s.len(),
{
    if s.len() > 0 {
        lemma_sweep_remove_commute(s.drop_last(), t, now);
        let last = s.last();
        let rt_dl = remove_token(s.drop_last(), t);
        let sw_dl = sweep(s.drop_last(), now);
        if last.token == t {
            if !entry_expired(last, now) {
                assert(sw_dl.push(last).drop_last() =~= sw_dl);
                assert(remove_token(sweep(s, now), t) == remove_token(sw_dl, t));
            }
        } else {
            assert(rt_dl.push(last).drop_last() =~= rt_dl);
            if !entry_expired(last, now) {
                assert(sw_dl.push(last).drop_last() =~= sw_dl);
            }
        }
    }
}

proof fn lemma_remove_token_len(s: Seq<EntryView>, t: Seq<char>)
    requires
        tokens_unique(s),
        contains_token(s, t),
    ensures
        remove_token(s, t).len() == s.len() - 1,
    decreases s.len(),
{
    let dl = s.drop_last();
    assert forall|i: int, j: int| 0 <= i < j < dl.len() implies dl[i].token != dl[j].token by {
        assert(s[i] == dl[i]);
        assert(s[j] == dl[j]);
    }
    if s.last().token == t {
        assert forall|i: int| 0 <= i < dl.len() implies dl[i].token != t by {
            assert(s[i] == dl[i]);
            assert(s[i].token != s[s.len() - 1].token);
        }
        lemma_remove_token_absent(dl, t);
    } else {
        let i = choose|i: int| 0 <= i < s.len() && s[i].token == t;
        assert(dl[i] == s[i]);
        assert(contains_token(dl, t));
        lemma_remove_token_len(dl, t);
    }
}

/// Reservations at the ceiling: `reserve` is refused with
/// `ResourceExhausted` while the count of live reservations has reached the
/// ceiling, and is accepted again once one of them is committed, provided
/// the quota allows the declared size.
pub proof fn lemma_reserve_ceiling(
    s: Seq<EntryView>,
    t: Seq<char>,
    now: u64,
    data_dir_size: u64,
    size: usize,
    max_uploads: usize,
    max_total: usize,
)
    requires
        tokens_unique(s),
    ensures
        sweep(s, now).len() >= max_uploads ==> reserve_decision(
            s,
            now,
            false,
            data_dir_size,
            size,
            max_uploads,
            max_total,
        ) == Some(TransferError::ResourceExhausted),
        (contains_token(sweep(s, now), t) && sweep(s, now).len() <= max_uploads && data_dir_size
            + est_sum(sweep(remove_token(s, t), now)) + size < max_total) ==> reserve_decision(
            remove_token(s, t),
            now,
            false,
            data_dir_size,
            size,
            max_uploads,
            max_total,
        ) is None,
{
    if contains_token(sweep(s, now), t) && sweep(s, now).len() <= max_uploads {
        lemma_sweep_remove_commute(s, t, now);
        lemma_sweep_unique(s, now);
        lemma_remove_token_len(sweep(s, now), t);
    }
}

/// The quota decision: with the collision and ceiling checks passed,
/// `reserve` is refused with `ResourceExhausted` exactly when the measured
/// usage plus the in-flight estimate plus the declared size reaches the
/// quota, and accepted exactly when the sum stays strictly below it.
pub proof fn lemma_reserve_quota(
    s: Seq<EntryView>,
    now: u64,
    data_dir_size: u64,
    size: usize,
    max_uploads: usize,
    max_total: usize,
)
    ensures
        sweep(s, now).len() < max_uploads ==> (reserve_decision(
            s,
            now,
            false,
            data_dir_size,
            size,
            max_uploads,
            max_total,
        ) == Some(TransferError::ResourceExhausted) <==> data_dir_size + est_sum(sweep(s, now))
            + size >= max_total),
        sweep(s, now).len() < max_uploads ==> (reserve_decision(
            s,
            now,
            false,
            data_dir_size,
            size,
            max_uploads,
            max_total,
        ) is None <==> data_dir_size + est_sum(sweep(s, now)) + size < max_total),
{
}

/// Commit is idempotent: removing a token a second time changes nothing,
/// because the first removal already forgot it; and entries under every
/// other token are untouched by the removal.
pub proof fn lemma_commit_idempotent(s: Seq<EntryView>, t: Seq<char>, e: EntryView)
    ensures
        remove_token(remove_token(s, t), t) == remove_token(s, t),
        !contains_token(remove_token(s, t), t),
        remove_token(s, t).contains(e) <==> (s.contains(e) && e.token != t),
{
    lemma_remove_token_not_contains(s, t);
    lemma_remove_token_absent(remove_token(s, t), t);
    if remove_token(s, t).contains(e) {
        lemma_remove_token_only(s, t, e);
    }
    if s.contains(e) && e.token != t {
        lemma_remove_token_keeps(s, t, e);
    }
}

} // verus!
