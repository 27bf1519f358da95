use vstd::prelude::*;

verus! {

/// Reservations older than this many seconds are dropped by the expiry
/// sweep.
pub const RESERVATION_TTL_SECONDS: u64 = 600;

/// A pending upload slot: the target filename, the moment of creation (in
/// seconds on a monotonic clock supplied by the caller), and the
/// client-declared size. The declared size is used only for quota
/// accounting, never verified against the bytes actually written.
pub struct UploadReservation {
    pub filename: String,
    pub creation: u64,
    pub estimated_size_bytes: usize,
}

impl UploadReservation {
    pub fn new(filename: String, estimated_size_bytes: usize, now: u64) -> (r: UploadReservation)
        ensures
            r.filename == filename,
            r.creation == now,
            r.estimated_size_bytes == estimated_size_bytes,
    {
        UploadReservation { filename, creation: now, estimated_size_bytes }
    }
}

/// The mathematical image of one registry entry: a token bound to the
/// reservation it names.
pub ghost struct EntryView {
    pub token: Seq<char>,
    pub filename: Seq<char>,
    pub creation: u64,
    pub estimated_size_bytes: usize,
}

pub open spec fn entry_view(e: (String, UploadReservation)) -> EntryView {
    EntryView {
        token: e.0@,
        filename: e.1.filename@,
        creation: e.1.creation,
        estimated_size_bytes: e.1.estimated_size_bytes,
    }
}

/// Whether some entry carries the given token.
pub open spec fn contains_token(s: Seq<EntryView>, t: Seq<char>) -> bool {
    exists|i: int| 0 <= i < s.len() && s[i].token == t
}

/// No two entries carry the same token.
pub open spec fn tokens_unique(s: Seq<EntryView>) -> bool {
    forall|i: int, j: int| 0 <= i < j < s.len() ==> s[i].token != s[j].token
}

/// The sum of the declared sizes of all entries: the in-flight estimate that
/// quota accounting charges for reserved-but-uncommitted uploads.
pub open spec fn est_sum(s: Seq<EntryView>) -> int
    decreases s.len(),
{
    if s.len() == 0 {
        0
    } else {
        est_sum(s.drop_last()) + s.last().estimated_size_bytes
    }
}

/// Whether an entry's age at time `now` has reached the TTL.
pub open spec fn entry_expired(e: EntryView, now: u64) -> bool {
    now - e.creation >= RESERVATION_TTL_SECONDS
}

/// The entries that survive an expiry sweep at time `now`, in their original
/// order.
pub open spec fn sweep(s: Seq<EntryView>, now: u64) -> Seq<EntryView>
    decreases s.len(),
{
    if s.len() == 0 {
        Seq::empty()
    } else {
        let rest = sweep(s.drop_last(), now);
        if entry_expired(s.last(), now) {
            rest
        } else {
            rest.push(s.last())
        }
    }
}

/// The entries whose token differs from `t`, in their original order:
/// what removal of token `t` leaves behind.
pub open spec fn remove_token(s: Seq<EntryView>, t: Seq<char>) -> Seq<EntryView>
    decreases s.len(),
{
    if s.len() == 0 {
        Seq::empty()
    } else {
        let rest = remove_token(s.drop_last(), t);
        if s.last().token == t {
            rest
        } else {
            rest.push(s.last())
        }
    }
}

pub proof fn lemma_est_sum_nonneg(s: Seq<EntryView>)
    ensures
        est_sum(s) >= 0,
    decreases s.len(),
{
    if s.len() > 0 {
        lemma_est_sum_nonneg(s.drop_last());
    }
}

pub proof fn lemma_est_sum_take(s: Seq<EntryView>, i: int)
    requires
        0 <= i <= s.len(),
    ensures
        est_sum(s.take(i)) <= est_sum(s),
    decreases s.len(),
{
    if i == s.len() {
        assert(s.take(i) =~= s);
    } else {
        assert(s.take(i) =~= s.drop_last().take(i));
        lemma_est_sum_take(s.drop_last(), i);
    }
}

/// A registry entry that is not yet expired survives the sweep.
pub proof fn lemma_sweep_keeps(s: Seq<EntryView>, now: u64, e: EntryView)
    requires
        s.contains(e),
        !entry_expired(e, now),
    ensures
        sweep(s, now).contains(e),
    decreases s.len(),
{
    let i = choose|i: int| 0 <= i < s.len() && s[i] == e;
    if i == s.len() - 1 {
        assert(sweep(s, now).last() == e);
        assert(sweep(s, now).contains(e));
    } else {
        assert(s.drop_last()[i] == s[i]);
        assert(s.drop_last().contains(e));
        lemma_sweep_keeps(s.drop_last(), now, e);
        let rest = sweep(s.drop_last(), now);
        let j = choose|j: int| 0 <= j < rest.len() && rest[j] == e;
        if !entry_expired(s.last(), now) {
            assert(sweep(s, now)[j] == e);
        }
        assert(sweep(s, now).contains(e));
    }
}

/// What survives the sweep stood in the registry and is not expired: the
/// sweep invents nothing and keeps nothing stale.
pub proof fn lemma_sweep_only(s: Seq<EntryView>, now: u64, e: EntryView)
    requires
        sweep(s, now).contains(e),
    ensures
        s.contains(e),
        !entry_expired(e, now),
    decreases s.len(),
{
    let j = choose|j: int| 0 <= j < sweep(s, now).len() && sweep(s, now)[j] == e;
    if s.len() == 0 {
        assert(false);
    } else {
        let rest = sweep(s.drop_last(), now);
        if !entry_expired(s.last(), now) && j == sweep(s, now).len() - 1 {
            assert(e == s.last());
            assert(s[s.len() - 1] == e);
            assert(s.contains(e));
        } else {
            assert(rest[j] == e);
            assert(rest.contains(e));
            lemma_sweep_only(s.drop_last(), now, e);
            let i = choose|i: int| 0 <= i < s.drop_last().len() && s.drop_last()[i] == e;
            assert(s[i] == s.drop_last()[i]);
            assert(s.contains(e));
        }
    }
}

/// An entry survives the sweep exactly when it stood in the registry and its
/// age is below the TTL: an abandoned reservation keeps counting toward the
/// ceiling and the quota until a sweep past its TTL, and then no longer.
pub proof fn lemma_sweep_characterization(s: Seq<EntryView>, now: u64, e: EntryView)
    ensures
        sweep(s, now).contains(e) <==> (s.contains(e) && !entry_expired(e, now)),
{
    if sweep(s, now).contains(e) {
        lemma_sweep_only(s, now, e);
    }
    if s.contains(e) && !entry_expired(e, now) {
        lemma_sweep_keeps(s, now, e);
    }
}

pub proof fn lemma_sweep_est_sum(s: Seq<EntryView>, now: u64)
    ensures
        est_sum(sweep(s, now)) <= est_sum(s),
        est_sum(sweep(s, now)) >= 0,
    decreases s.len(),
{
    lemma_est_sum_nonneg(sweep(s, now));
    if s.len() > 0 {
        lemma_sweep_est_sum(s.drop_last(), now);
        let rest = sweep(s.drop_last(), now);
        if !entry_expired(s.last(), now) {
            assert(rest.push(s.last()).drop_last() =~= rest);
        }
    }
}

pub proof fn lemma_sweep_unique(s: Seq<EntryView>, now: u64)
    requires
        tokens_unique(s),
    ensures
        tokens_unique(sweep(s, now)),
    decreases s.len(),
{
    if s.len() > 0 {
        assert forall|i: int, j: int|
            0 <= i < j < s.drop_last().len() implies s.drop_last()[i].token
            != s.drop_last()[j].token by {
            assert(s[i] == s.drop_last()[i]);
            assert(s[j] == s.drop_last()[j]);
        }
        lemma_sweep_unique(s.drop_last(), now);
        let rest = sweep(s.drop_last(), now);
        if !entry_expired(s.last(), now) {
            let swept = rest.push(s.last());
            assert forall|i: int, j: int| 0 <= i < j < swept.len() implies swept[i].token
                != swept[j].token by {
                if j == swept.len() - 1 {
                    assert(rest.contains(rest[i]));
                    lemma_sweep_only(s.drop_last(), now, rest[i]);
                    let k = choose|k: int|
                        0 <= k < s.drop_last().len() && s.drop_last()[k] == rest[i];
                    assert(s[k] == s.drop_last()[k]);
                    assert(s[k].token != s[s.len() - 1].token);
                }
            }
        }
    }
}

/// An entry with a different token survives the removal: other reservations
/// are unaffected.
pub proof fn lemma_remove_token_keeps(s: Seq<EntryView>, t: Seq<char>, e: EntryView)
    requires
        s.contains(e),
        e.token != t,
    ensures
        remove_token(s, t).contains(e),
    decreases s.len(),
{
    let i = choose|i: int| 0 <= i < s.len() && s[i] == e;
    if i == s.len() - 1 {
        assert(remove_token(s, t).last() == e);
        assert(remove_token(s, t).contains(e));
    } else {
        assert(s.drop_last()[i] == s[i]);
        assert(s.drop_last().contains(e));
        lemma_remove_token_keeps(s.drop_last(), t, e);
        let rest = remove_token(s.drop_last(), t);
        let j = choose|j: int| 0 <= j < rest.len() && rest[j] == e;
        if s.last().token != t {
            assert(remove_token(s, t)[j] == e);
        }
        assert(remove_token(s, t).contains(e));
    }
}

/// What survives the removal stood in the registry and carries a different
/// token.
pub proof fn lemma_remove_token_only(s: Seq<EntryView>, t: Seq<char>, e: EntryView)
    requires
        remove_token(s, t).contains(e),
    ensures
        s.contains(e),
        e.token != t,
    decreases s.len(),
{
    let j = choose|j: int| 0 <= j < remove_token(s, t).len() && remove_token(s, t)[j] == e;
    if s.len() == 0 {
        assert(false);
    } else {
        let rest = remove_token(s.drop_last(), t);
        if s.last().token != t && j == remove_token(s, t).len() - 1 {
            assert(e == s.last());
            assert(s[s.len() - 1] == e);
            assert(s.contains(e));
        } else {
            assert(rest[j] == e);
            assert(rest.contains(e));
            lemma_remove_token_only(s.drop_last(), t, e);
            let i = choose|i: int| 0 <= i < s.drop_last().len() && s.drop_last()[i] == e;
            assert(s[i] == s.drop_last()[i]);
            assert(s.contains(e));
        }
    }
}

pub proof fn lemma_remove_token_not_contains(s: Seq<EntryView>, t: Seq<char>)
    ensures
        !contains_token(remove_token(s, t), t),
{
    let r = remove_token(s, t);
    assert forall|i: int| 0 <= i < r.len() implies r[i].token != t by {
        assert(r.contains(r[i]));
        lemma_remove_token_only(s, t, r[i]);
    }
}

pub proof fn lemma_remove_token_absent(s: Seq<EntryView>, t: Seq<char>)
    requires
        !contains_token(s, t),
    ensures
        remove_token(s, t) == s,
    decreases s.len(),
{
    if s.len() > 0 {
        assert forall|i: int| 0 <= i < s.drop_last().len() implies s.drop_last()[i].token != t by {
            assert(s[i] == s.drop_last()[i]);
        }
        lemma_remove_token_absent(s.drop_last(), t);
        assert(s[s.len() - 1].token != t);
        assert(remove_token(s, t) =~= s);
    }
}

pub proof fn lemma_remove_token_est_sum(s: Seq<EntryView>, t: Seq<char>)
    ensures
        est_sum(remove_token(s, t)) <= est_sum(s),
        est_sum(remove_token(s, t)) >= 0,
    decreases s.len(),
{
    lemma_est_sum_nonneg(remove_token(s, t));
    if s.len() > 0 {
        lemma_remove_token_est_sum(s.drop_last(), t);
        let rest = remove_token(s.drop_last(), t);
        if s.last().token != t {
            assert(rest.push(s.last()).drop_last() =~= rest);
        }
    }
}

pub proof fn lemma_remove_token_unique(s: Seq<EntryView>, t: Seq<char>)
    requires
        tokens_unique(s),
    ensures
        tokens_unique(remove_token(s, t)),
    decreases s.len(),
{
    if s.len() > 0 {
        assert forall|i: int, j: int|
            0 <= i < j < s.drop_last().len() implies s.drop_last()[i].token
            != s.drop_last()[j].token by {
            assert(s[i] == s.drop_last()[i]);
            assert(s[j] == s.drop_last()[j]);
        }
        lemma_remove_token_unique(s.drop_last(), t);
        let rest = remove_token(s.drop_last(), t);
        if s.last().token != t {
            let out = rest.push(s.last());
            assert forall|i: int, j: int| 0 <= i < j < out.len() implies out[i].token
                != out[j].token by {
                if j == out.len() - 1 {
                    assert(rest.contains(rest[i]));
                    lemma_remove_token_only(s.drop_last(), t, rest[i]);
                    let k = choose|k: int|
                        0 <= k < s.drop_last().len() && s.drop_last()[k] == rest[i];
                    assert(s[k] == s.drop_last()[k]);
                    assert(s[k].token != s[s.len() - 1].token);
                }
            }
        }
    }
}

/// The registry of live reservations, keyed by upload token. The token
/// column is duplicate-free; the lock that guards the registry in a
/// concurrent setting belongs to the caller.
pub struct CurrentUploads {
    entries: Vec<(String, UploadReservation)>,
}

impl View for CurrentUploads {
    type V = Seq<EntryView>;

    closed spec fn view(&self) -> Seq<EntryView> {
        Seq::new(self.entries@.len(), |i: int| entry_view(self.entries@[i]))
    }
}

impl CurrentUploads {
    /// Tokens are pairwise distinct and the in-flight estimate fits the
    /// machine word that `estimated_size_total` returns.
    pub open spec fn wf(&self) -> bool {
        tokens_unique(self@) && est_sum(self@) <= usize::MAX
    }

    /// An empty registry.
    pub fn new() -> (r: CurrentUploads)
        ensures
            r@ == Seq::<EntryView>::empty(),
            r.wf(),
    {
        let r = CurrentUploads { entries: Vec::new() };
        proof {
            assert(r@ =~= Seq::<EntryView>::empty());
        }
        r
    }

    pub fn len(&self) -> (n: usize)
        ensures
            n == self@.len(),
    {
        self.entries.len()
    }

    /// The filename registered under `uuid`, or `None` for a token not in
    /// the registry.
    pub fn get_filename(&self, uuid: &String) -> (r: Option<String>)
        ensures
            match r {
                Some(f) => exists|i: int|
                    0 <= i < self@.len() && #[trigger] self@[i].token == uuid@ && self@[i].filename
                        == f@,
                None => !contains_token(self@, uuid@),
            },
    {
        let n = self.entries.len();
        let mut i: usize = 0;
        while i < n
            invariant
                0 <= i <= n == self@.len(),
                n == self.entries@.len(),
                forall|j: int| 0 <= j < i ==> #[trigger] self@[j].token != uuid@,
            decreases n - i,
        {
            let e = &self.entries[i];
            if e.0 == *uuid {
                let f = e.1.filename.clone();
                proof {
                    assert(self@[i as int].token == uuid@);
                    assert(self@[i as int].filename == f@);
                }
                return Some(f);
            }
            i = i + 1;
        }
        None
    }

    /// Unconditional removal of a token: the success path of commit and the
    /// cleanup path when a backing file has vanished. Removing an unknown
    /// token is a no-op, not an error.
    pub fn delete_reservation(&mut self, uuid: &String)
        requires
            old(self).wf(),
        ensures
            final(self).wf(),
            final(self)@ == remove_token(old(self)@, uuid@),
    {
        let ghost orig = self@;
        let n = self.entries.len();
        let mut kept: Vec<(String, UploadReservation)> = Vec::new();
        let mut i: usize = 0;
        proof {
            assert(Seq::new(kept@.len(), |k: int| entry_view(kept@[k])) =~= remove_token(
                orig.take(0),
                uuid@,
            ));
        }
        while i < n
            invariant
                0 <= i <= n == self.entries@.len(),
                self@ == orig,
                Seq::new(kept@.len(), |k: int| entry_view(kept@[k])) == remove_token(
                    orig.take(i as int),
                    uuid@,
                ),
            decreases n - i,
        {
            let ghost before = Seq::new(kept@.len(), |k: int| entry_view(kept@[k]));
            let e = &self.entries[i];
            proof {
                assert(orig.take(i + 1).drop_last() =~= orig.take(i as int));
                assert(orig.take(i + 1).last() == orig[i as int]);
            }
            if !(e.0 == *uuid) {
                let copy = (
                    e.0.clone(),
                    UploadReservation {
                        filename: e.1.filename.clone(),
                        creation: e.1.creation,
                        estimated_size_bytes: e.1.estimated_size_bytes,
                    },
                );
                proof {
                    assert(entry_view(copy) == orig[i as int]);
                }
                kept.push(copy);
                proof {
                    assert(Seq::new(kept@.len(), |k: int| entry_view(kept@[k])) =~= before.push(
                        orig[i as int],
                    ));
                }
            }
            i = i + 1;
        }
        proof {
            assert(orig.take(n as int) =~= orig);
            lemma_remove_token_unique(orig, uuid@);
            lemma_remove_token_est_sum(orig, uuid@);
        }
        self.entries = kept;
    }

    /// Binds `token` to a reservation. A token already present is
    /// overwritten, as a map insertion would.
    pub fn insert(&mut self, token: String, reservation: UploadReservation)
        requires
            old(self).wf(),
            est_sum(old(self)@) + reservation.estimated_size_bytes <= usize::MAX,
        ensures
            final(self).wf(),
            final(self)@ == remove_token(old(self)@, token@).push(
                EntryView {
                    token: token@,
                    filename: reservation.filename@,
                    creation: reservation.creation,
                    estimated_size_bytes: reservation.estimated_size_bytes,
                },
            ),
    {
        let ghost orig = self@;
        self.delete_reservation(&token);
        let ghost cleaned = self@;
        let entry = (token, reservation);
        proof {
            lemma_remove_token_not_contains(orig, entry.0@);
            lemma_remove_token_est_sum(orig, entry.0@);
        }
        self.entries.push(entry);
        proof {
            assert(self@ =~= cleaned.push(entry_view(entry)));
            assert(cleaned.push(entry_view(entry)).drop_last() =~= cleaned);
            assert forall|i: int, j: int| 0 <= i < j < self@.len() implies self@[i].token
                != self@[j].token by {
                if j == self@.len() - 1 {
                    assert(0 <= i < cleaned.len() && cleaned[i].token == self@[i].token);
                }
            }
        }
    }
}

/// Drops every reservation whose age has reached the TTL. Invoked
/// opportunistically at the start of `upload_reserve`, not on a background
/// timer, so stale reservations stop counting only when someone next
/// reserves.
pub fn remove_expired_reservations(current_uploads: &mut CurrentUploads, now: u64)
    requires
        old(current_uploads).wf(),
    ensures
        final(current_uploads).wf(),
        final(current_uploads)@ == sweep(old(current_uploads)@, now),
{
    let ghost orig = current_uploads@;
    let n = current_uploads.entries.len();
    let mut kept: Vec<(String, UploadReservation)> = Vec::new();
    let mut i: usize = 0;
    proof {
        assert(Seq::new(kept@.len(), |k: int| entry_view(kept@[k])) =~= sweep(orig.take(0), now));
    }
    while i < n
        invariant
            0 <= i <= n == current_uploads.entries@.len(),
            current_uploads@ == orig,
            Seq::new(kept@.len(), |k: int| entry_view(kept@[k])) == sweep(orig.take(i as int), now),
        decreases n - i,
    {
        let ghost before = Seq::new(kept@.len(), |k: int| entry_view(kept@[k]));
        let e = &current_uploads.entries[i];
        proof {
            assert(orig.take(i + 1).drop_last() =~= orig.take(i as int));
            assert(orig.take(i + 1).last() == orig[i as int]);
        }
        let is_expired = now >= RESERVATION_TTL_SECONDS && e.1.creation <= now
            - RESERVATION_TTL_SECONDS;
        proof {
            assert(is_expired == entry_expired(orig[i as int], now));
        }
        if !is_expired {
            let copy = (
                e.0.clone(),
                UploadReservation {
                    filename: e.1.filename.clone(),
                    creation: e.1.creation,
                    estimated_size_bytes: e.1.estimated_size_bytes,
                },
            );
            proof {
                assert(entry_view(copy) == orig[i as int]);
            }
            kept.push(copy);
            proof {
                assert(Seq::new(kept@.len(), |k: int| entry_view(kept@[k])) =~= before.push(
                    orig[i as int],
                ));
            }
        }
        i = i + 1;
    }
    proof {
        assert(orig.take(n as int) =~= orig);
        lemma_sweep_unique(orig, now);
        lemma_sweep_est_sum(orig, now);
    }
    current_uploads.entries = kept;
}

/// The in-flight estimate: the sum of the declared sizes over all live
/// reservations.
pub fn estimated_size_total(current_uploads: &CurrentUploads) -> (r: usize)
    requires
        current_uploads.wf(),
    ensures
        r == est_sum(current_uploads@),
{
    let n = current_uploads.entries.len();
    let mut total: usize = 0;
    let mut i: usize = 0;
    proof {
        assert(current_uploads@.take(0) =~= Seq::<EntryView>::empty());
    }
    while i < n
        invariant
            0 <= i <= n == current_uploads.entries@.len(),
            current_uploads.wf(),
            n == current_uploads@.len(),
            total == est_sum(current_uploads@.take(i as int)),
        decreases n - i,
    {
        proof {
            assert(current_uploads@.take(i + 1).drop_last() =~= current_uploads@.take(i as int));
            assert(current_uploads@.take(i + 1).last() == current_uploads@[i as int]);
            lemma_est_sum_take(current_uploads@, i + 1);
        }
        total = total + current_uploads.entries[i].1.estimated_size_bytes;
        i = i + 1;
    }
    proof {
        assert(current_uploads@.take(n as int) =~= current_uploads@);
    }
    total
}

/// Relies on `uuid::Uuid::new_v4` and `Uuid::to_string`: a fresh random
/// 128-bit identifier in the 36-character hyphenated form. The value is
/// random, so nothing is promised of it beyond its length.
#[verifier::external_body]
pub(crate) fn fresh_token() -> (r: String)
    ensures
        r@.len() == 36,
{
    uuid::Uuid::new_v4().to_string()
}

} // verus!
