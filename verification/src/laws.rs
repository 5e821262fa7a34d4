//! The guarantees of a reconciliation pass, stated and proved once over
//! the pass's contract rather than re-derived by every caller: running
//! the same snapshot twice changes nothing the second time, exactly the
//! absent identities get marked removed, and the name history grows by
//! one row per genuinely new name and never duplicates a pair.

use vstd::prelude::*;

use crate::steam_api::{Friend, PlayerSummary};
use crate::store::{
    appended_entry, entry_after, fresh_names, fresh_profiles, has_profile_id, has_summary_id,
    hist_has_pair, hist_pair_witness, history_wf, inserted_row, lemma_fresh_names_empty,
    lemma_fresh_names_props, lemma_fresh_profiles_empty, lemma_fresh_profiles_props,
    lemma_reconciled_history_wf, lemma_reconciled_profiles_wf, observes_witness, profile_witness,
    profiles_wf, reconciled_history, reconciled_profiles, row_after, summary_observes,
    summary_witness, unique_summary_ids, valid_snapshot, NameHistoryEntry, PersistedProfile,
};

verus! {

/// Reconciling the same snapshot twice is a no-op the second time, up to
/// the last-seen stamps: the second pass leaves `removed_at` of every row
/// exactly as the first pass left it, and appends no new history row.
pub proof fn lemma_reconcile_idempotent(
    ps0: Seq<PersistedProfile>,
    ps1: Seq<PersistedProfile>,
    ps2: Seq<PersistedProfile>,
    h0: Seq<NameHistoryEntry>,
    h1: Seq<NameHistoryEntry>,
    h2: Seq<NameHistoryEntry>,
    fs: Seq<Friend>,
    ss: Seq<PlayerSummary>,
    t1: i64,
    t2: i64,
)
    requires
        profiles_wf(ps0),
        history_wf(h0),
        valid_snapshot(fs, ss),
        reconciled_profiles(ps0, ps1, fs, ss, t1),
        reconciled_history(h0, h1, ss, t1),
        reconciled_profiles(ps1, ps2, fs, ss, t2),
        reconciled_history(h1, h2, ss, t2),
    ensures
        ps2.len() == ps1.len(),
        forall|i: int| 0 <= i < ps1.len() ==> #[trigger] ps2[i].removed_at == ps1[i].removed_at,
        h2.len() == h1.len(),
{
    lemma_reconciled_profiles_wf(ps0, ps1, fs, ss, t1);
    lemma_fresh_profiles_props(ss, ps0);

    // After the first pass, every snapshot identity has a profile row.
    assert forall|k: int|
        0 <= k < ss.len() implies has_profile_id(ps1, #[trigger] ss[k].steam_id.0) by {
        if has_profile_id(ps0, ss[k].steam_id.0) {
            let m = profile_witness(ps0, ss[k].steam_id.0);
            assert(ps1[m].steam_id.0 == ss[k].steam_id.0);
        } else {
            let j = choose|j: int|
                0 <= j < fresh_profiles(ss, ps0).len() && (#[trigger] fresh_profiles(
                    ss,
                    ps0,
                )[j]).steam_id.0 == ss[k].steam_id.0;
            assert(inserted_row(fresh_profiles(ss, ps0)[j], ps1[ps0.len() + j], fs, t1));
            assert(ps1[ps0.len() + j].steam_id.0 == ss[k].steam_id.0);
        }
    };
    lemma_fresh_profiles_empty(ss, ps1);

    // So the second pass inserts nothing, and every row it touches either
    // gets refreshed (which keeps the removal stamp) or is already marked
    // removed (and is then left exactly as it is).
    assert forall|i: int|
        0 <= i < ps1.len() implies #[trigger] ps2[i].removed_at == ps1[i].removed_at by {
        assert(row_after(ps1[i], ps2[i], ss, t2));
        if !has_summary_id(ss, ps1[i].steam_id.0) {
            if i < ps0.len() {
                assert(row_after(ps0[i], ps1[i], ss, t1));
                assert(ps1[i].removed_at is Some);
            } else {
                let jj = i - ps0.len();
                assert(inserted_row(fresh_profiles(ss, ps0)[jj], ps1[ps0.len() + jj], fs, t1));
                assert(has_summary_id(ss, fresh_profiles(ss, ps0)[jj].steam_id.0));
                assert(false);
            }
        }
    };

    // After the first pass, every observed (identity, name) pair has a
    // history row, so the second pass appends nothing.
    lemma_reconciled_history_wf(h0, h1, ss, t1);
    lemma_fresh_names_props(ss, h0);
    assert forall|k: int|
        0 <= k < ss.len() implies hist_has_pair(
        h1,
        #[trigger] ss[k].steam_id.0,
        ss[k].persona_name@,
    ) by {
        if hist_has_pair(h0, ss[k].steam_id.0, ss[k].persona_name@) {
            let m = hist_pair_witness(h0, ss[k].steam_id.0, ss[k].persona_name@);
            assert(h1[m].steam_id.0 == ss[k].steam_id.0 && h1[m].persona_name@
                == ss[k].persona_name@);
        } else {
            let j = choose|j: int|
                0 <= j < fresh_names(ss, h0).len() && (#[trigger] fresh_names(
                    ss,
                    h0,
                )[j]).steam_id.0 == ss[k].steam_id.0 && fresh_names(ss, h0)[j].persona_name@
                    == ss[k].persona_name@;
            assert(appended_entry(fresh_names(ss, h0)[j], h1[h0.len() + j], t1));
            assert(h1[h0.len() + j].steam_id.0 == ss[k].steam_id.0 && h1[h0.len()
                + j].persona_name@ == ss[k].persona_name@);
        }
    };
    lemma_fresh_names_empty(ss, h1);
}

/// When no row is marked removed going in, a pass marks exactly the
/// identities that are persisted but absent from the snapshot; everything
/// else, rows still present and rows it inserts, stays unmarked.
///
/// The one starting state left out is a row already marked removed: such
/// a row keeps its old stamp whether or not its identity reappears.
pub proof fn lemma_soft_delete_exact(
    ps0: Seq<PersistedProfile>,
    ps1: Seq<PersistedProfile>,
    fs: Seq<Friend>,
    ss: Seq<PlayerSummary>,
    now: i64,
)
    requires
        profiles_wf(ps0),
        valid_snapshot(fs, ss),
        forall|i: int| 0 <= i < ps0.len() ==> #[trigger] ps0[i].removed_at is None,
        reconciled_profiles(ps0, ps1, fs, ss, now),
    ensures
        forall|i: int|
            0 <= i < ps0.len() ==> ((#[trigger] ps1[i].removed_at is Some) <==> !has_summary_id(
                ss,
                ps0[i].steam_id.0,
            )),
        forall|i: int|
            0 <= i < ps0.len() && !has_summary_id(ss, ps0[i].steam_id.0)
                ==> #[trigger] ps1[i].removed_at == Some(now),
        forall|j: int| ps0.len() <= j < ps1.len() ==> #[trigger] ps1[j].removed_at is None,
{
    assert forall|i: int| 0 <= i < ps0.len() implies ((#[trigger] ps1[i].removed_at is Some)
        <==> !has_summary_id(ss, ps0[i].steam_id.0)) by {
        assert(row_after(ps0[i], ps1[i], ss, now));
    };
    assert forall|i: int|
        0 <= i < ps0.len() && !has_summary_id(ss, ps0[i].steam_id.0)
        implies #[trigger] ps1[i].removed_at == Some(now) by {
        assert(row_after(ps0[i], ps1[i], ss, now));
    };
    assert forall|j: int|
        ps0.len() <= j < ps1.len() implies #[trigger] ps1[j].removed_at is None by {
        let jj = j - ps0.len();
        assert(inserted_row(fresh_profiles(ss, ps0)[jj], ps1[ps0.len() + jj], fs, now));
    };
}

/// Re-observing a display name an identity already has on record never
/// creates a second history row for that (identity, name) pair: the one
/// existing row keeps its place and only its stamp advances.
pub proof fn lemma_reobserved_name_not_duplicated(
    h0: Seq<NameHistoryEntry>,
    h1: Seq<NameHistoryEntry>,
    ss: Seq<PlayerSummary>,
    now: i64,
    id: u64,
    name: Seq<char>,
)
    requires
        history_wf(h0),
        unique_summary_ids(ss),
        hist_has_pair(h0, id, name),
        summary_observes(ss, id, name),
        reconciled_history(h0, h1, ss, now),
    ensures
        history_wf(h1),
        exists|j: int|
            0 <= j < h0.len() && (#[trigger] h1[j]).steam_id.0 == id && h1[j].persona_name@ == name
                && h1[j].updated_at == now,
        forall|j: int|
            h0.len() <= j < h1.len() ==> !((#[trigger] h1[j]).steam_id.0 == id
                && h1[j].persona_name@ == name),
{
    lemma_reconciled_history_wf(h0, h1, ss, now);
    let m = hist_pair_witness(h0, id, name);
    assert(entry_after(h0[m], h1[m], ss, now));
    assert(h1[m].steam_id.0 == id && h1[m].persona_name@ == name && h1[m].updated_at == now);
    lemma_fresh_names_props(ss, h0);
    assert forall|j: int|
        h0.len() <= j < h1.len() implies !((#[trigger] h1[j]).steam_id.0 == id
        && h1[j].persona_name@ == name) by {
        let jj = j - h0.len();
        assert(appended_entry(fresh_names(ss, h0)[jj], h1[h0.len() + jj], now));
        assert(!hist_has_pair(h0, fresh_names(ss, h0)[jj].steam_id.0, fresh_names(
            ss,
            h0,
        )[jj].persona_name@));
        if h1[j].steam_id.0 == id && h1[j].persona_name@ == name {
            assert(hist_has_pair(h0, fresh_names(ss, h0)[jj].steam_id.0, fresh_names(
                ss,
                h0,
            )[jj].persona_name@)) by {
                assert(h0[m].steam_id.0 == fresh_names(ss, h0)[jj].steam_id.0 && h0[m].persona_name@
                    == fresh_names(ss, h0)[jj].persona_name@);
            };
        }
    };
}

/// Observing a new display name for an identity already on record
/// appends exactly one history row for the new (identity, name) pair,
/// stamped with the pass time, while every prior row keeps its pair and
/// the identity's earlier names keep their stamps untouched.
pub proof fn lemma_new_name_appended_once(
    h0: Seq<NameHistoryEntry>,
    h1: Seq<NameHistoryEntry>,
    ss: Seq<PlayerSummary>,
    now: i64,
    id: u64,
    name: Seq<char>,
)
    requires
        history_wf(h0),
        unique_summary_ids(ss),
        !hist_has_pair(h0, id, name),
        summary_observes(ss, id, name),
        reconciled_history(h0, h1, ss, now),
    ensures
        history_wf(h1),
        forall|j: int|
            0 <= j < h0.len() ==> (#[trigger] h1[j]).steam_id.0 == h0[j].steam_id.0
                && h1[j].persona_name@ == h0[j].persona_name@,
        forall|j: int|
            0 <= j < h0.len() && h0[j].steam_id.0 == id && h0[j].persona_name@ != name
                ==> #[trigger] h1[j].updated_at == h0[j].updated_at,
        exists|j: int|
            h0.len() <= j < h1.len() && (#[trigger] h1[j]).steam_id.0 == id && h1[j].persona_name@
                == name && h1[j].updated_at == now,
{
    lemma_reconciled_history_wf(h0, h1, ss, now);
    lemma_fresh_names_props(ss, h0);
    let k0 = observes_witness(ss, id, name);

    // An earlier name of the same identity is not re-observed: the
    // snapshot holds at most one entry per identity, and for this one it
    // reports the new name.
    assert forall|j: int|
        0 <= j < h0.len() && h0[j].steam_id.0 == id && h0[j].persona_name@ != name
        implies #[trigger] h1[j].updated_at == h0[j].updated_at by {
        assert(entry_after(h0[j], h1[j], ss, now));
        if summary_observes(ss, id, h0[j].persona_name@) {
            let m = observes_witness(ss, id, h0[j].persona_name@);
            assert(m == k0);
            assert(false);
        }
    };

    // The new pair is among the appended rows, exactly once.
    let kk = choose|k: int|
        0 <= k < ss.len() && (#[trigger] ss[k]).steam_id.0 == id && ss[k].persona_name@ == name;
    let j = choose|j: int|
        0 <= j < fresh_names(ss, h0).len() && (#[trigger] fresh_names(ss, h0)[j]).steam_id.0 == id
            && fresh_names(ss, h0)[j].persona_name@ == name;
    assert(0 <= j < fresh_names(ss, h0).len() && fresh_names(ss, h0)[j].steam_id.0 == id
        && fresh_names(ss, h0)[j].persona_name@ == name) by {
        assert(ss[k0].steam_id.0 == id && !hist_has_pair(h0, ss[k0].steam_id.0, ss[k0].persona_name@));
    };
    assert(appended_entry(fresh_names(ss, h0)[j], h1[h0.len() + j], now));
    assert(h0.len() <= h0.len() + j < h1.len() && h1[h0.len() + j].steam_id.0 == id && h1[h0.len()
        + j].persona_name@ == name && h1[h0.len() + j].updated_at == now);
}

} // verus!
