//! The persisted record of the friends list and the reconciliation pass
//! that keeps it in step with a freshly fetched snapshot.
//!
//! The store holds one row per identity ever seen (`PersistedProfile`) and
//! one row per (identity, display name) pair ever observed
//! (`NameHistoryEntry`). A reconciliation pass first soft-deletes every
//! current row whose identity is absent from the snapshot, then upserts a
//! profile row and a history row for every snapshot entry.

use vstd::prelude::*;

use crate::steam_api::{Friend, PlayerSummary, SteamId};

verus! {

/// One durable row of current profile state.
///
/// `friend_since` is set at first insert and never changed afterwards.
/// `updated_at` is refreshed on every pass that touches the row.
/// `removed_at` is set once, when the identity first disappears from a
/// snapshot, and is never cleared or overwritten afterwards.
#[derive(Clone, Debug)]
pub struct PersistedProfile {
    pub steam_id: SteamId,
    pub persona_name: String,
    pub profile_url: String,
    pub friend_since: i64,
    pub updated_at: i64,
    pub removed_at: Option<i64>,
}

/// One durable, append-only row of name history: `persona_name` was
/// observed for `steam_id`, most recently at `updated_at`.
#[derive(Clone, Debug)]
pub struct NameHistoryEntry {
    pub steam_id: SteamId,
    pub persona_name: String,
    pub updated_at: i64,
}

pub open spec fn has_summary_id(ss: Seq<PlayerSummary>, id: u64) -> bool {
    exists|k: int| 0 <= k < ss.len() && ss[k].steam_id.0 == id
}

pub open spec fn summary_index(ss: Seq<PlayerSummary>, id: u64) -> int {
    choose|k: int| 0 <= k < ss.len() && (#[trigger] ss[k]).steam_id.0 == id
}

/// The snapshot entry for an identity; meaningful when the identity occurs
/// exactly once in the snapshot.
pub open spec fn summary_for(ss: Seq<PlayerSummary>, id: u64) -> PlayerSummary {
    ss[summary_index(ss, id)]
}

pub open spec fn has_friend_id(fs: Seq<Friend>, id: u64) -> bool {
    exists|k: int| 0 <= k < fs.len() && fs[k].steam_id.0 == id
}

/// The link timestamp of the first friend edge carrying the identity.
pub open spec fn friend_since_for(fs: Seq<Friend>, id: u64) -> i64
    decreases fs.len(),
{
    if fs.len() == 0 {
        0
    } else if fs[0].steam_id.0 == id {
        fs[0].friend_since
    } else {
        friend_since_for(fs.drop_first(), id)
    }
}

pub open spec fn has_profile_id(ps: Seq<PersistedProfile>, id: u64) -> bool {
    exists|i: int| 0 <= i < ps.len() && ps[i].steam_id.0 == id
}

pub open spec fn unique_summary_ids(ss: Seq<PlayerSummary>) -> bool {
    forall|k1: int, k2: int|
        0 <= k1 < k2 < ss.len() ==> ss[k1].steam_id.0 != ss[k2].steam_id.0
}

/// At most one profile row per identity.
pub open spec fn profiles_wf(ps: Seq<PersistedProfile>) -> bool {
    forall|i: int, j: int|
        0 <= i < j < ps.len() ==> ps[i].steam_id.0 != ps[j].steam_id.0
}

pub open spec fn hist_has_pair(h: Seq<NameHistoryEntry>, id: u64, name: Seq<char>) -> bool {
    exists|j: int| 0 <= j < h.len() && h[j].steam_id.0 == id && h[j].persona_name@ == name
}

/// At most one history row per (identity, display name) pair.
pub open spec fn history_wf(h: Seq<NameHistoryEntry>) -> bool {
    forall|i: int, j: int|
        0 <= i < j < h.len() ==> !(h[i].steam_id.0 == h[j].steam_id.0
            && h[i].persona_name@ == h[j].persona_name@)
}

/// The snapshot reports `name` as the current display name of `id`.
pub open spec fn summary_observes(ss: Seq<PlayerSummary>, id: u64, name: Seq<char>) -> bool {
    exists|k: int| 0 <= k < ss.len() && ss[k].steam_id.0 == id && ss[k].persona_name@ == name
}

/// The snapshot entries whose identity has no profile row yet, in
/// snapshot order: the rows a pass will insert.
pub open spec fn fresh_profiles(ss: Seq<PlayerSummary>, ps: Seq<PersistedProfile>) -> Seq<
    PlayerSummary,
>
    decreases ss.len(),
{
    if ss.len() == 0 {
        Seq::empty()
    } else {
        let rest = fresh_profiles(ss.drop_last(), ps);
        if has_profile_id(ps, ss.last().steam_id.0) {
            rest
        } else {
            rest.push(ss.last())
        }
    }
}

/// The snapshot entries whose (identity, display name) pair has no history
/// row yet, in snapshot order: the history rows a pass will append.
pub open spec fn fresh_names(ss: Seq<PlayerSummary>, h: Seq<NameHistoryEntry>) -> Seq<
    PlayerSummary,
>
    decreases ss.len(),
{
    if ss.len() == 0 {
        Seq::empty()
    } else {
        let rest = fresh_names(ss.drop_last(), h);
        if hist_has_pair(h, ss.last().steam_id.0, ss.last().persona_name@) {
            rest
        } else {
            rest.push(ss.last())
        }
    }
}

/// A row refreshed from its snapshot entry: display name, profile URL and
/// the last-seen stamp change; the link timestamp and any removal stamp
/// stay exactly as they were.
pub open spec fn refreshed_row(
    o: PersistedProfile,
    n: PersistedProfile,
    s: PlayerSummary,
    now: i64,
) -> bool {
    &&& n.steam_id.0 == o.steam_id.0
    &&& n.persona_name@ == s.persona_name@
    &&& n.profile_url@ == s.profile_url@
    &&& n.friend_since == o.friend_since
    &&& n.updated_at == now
    &&& n.removed_at == o.removed_at
}

/// A row marked removed: only the two stamps change, everything else is
/// kept for the record.
pub open spec fn soft_deleted_row(o: PersistedProfile, n: PersistedProfile, now: i64) -> bool {
    &&& n.steam_id.0 == o.steam_id.0
    &&& n.persona_name@ == o.persona_name@
    &&& n.profile_url@ == o.profile_url@
    &&& n.friend_since == o.friend_since
    &&& n.updated_at == now
    &&& n.removed_at == Some(now)
}

/// A row inserted for an identity seen for the first time: the link
/// timestamp is taken from the identity's friend edge, and the row starts
/// out not removed.
pub open spec fn inserted_row(
    s: PlayerSummary,
    n: PersistedProfile,
    fs: Seq<Friend>,
    now: i64,
) -> bool {
    &&& n.steam_id.0 == s.steam_id.0
    &&& n.persona_name@ == s.persona_name@
    &&& n.profile_url@ == s.profile_url@
    &&& n.friend_since == friend_since_for(fs, s.steam_id.0)
    &&& n.updated_at == now
    &&& n.removed_at is None
}

/// What one reconciliation pass does to a row that already existed:
/// present identities are refreshed, newly absent ones are soft-deleted,
/// and rows already marked removed are left untouched, so that re-running
/// with the same absent set changes nothing.
pub open spec fn row_after(
    o: PersistedProfile,
    n: PersistedProfile,
    ss: Seq<PlayerSummary>,
    now: i64,
) -> bool {
    if has_summary_id(ss, o.steam_id.0) {
        refreshed_row(o, n, summary_for(ss, o.steam_id.0), now)
    } else if o.removed_at is None {
        soft_deleted_row(o, n, now)
    } else {
        n == o
    }
}

/// The full effect of one pass on the profile table: every prior row is
/// transformed in place by `row_after`, and exactly the snapshot entries
/// with no prior row are appended, in snapshot order.
pub open spec fn reconciled_profiles(
    old_ps: Seq<PersistedProfile>,
    new_ps: Seq<PersistedProfile>,
    fs: Seq<Friend>,
    ss: Seq<PlayerSummary>,
    now: i64,
) -> bool {
    &&& new_ps.len() == old_ps.len() + fresh_profiles(ss, old_ps).len()
    &&& forall|i: int|
        0 <= i < old_ps.len() ==> row_after(old_ps[i], #[trigger] new_ps[i], ss, now)
    &&& forall|j: int|
        0 <= j < fresh_profiles(ss, old_ps).len() ==> inserted_row(
            fresh_profiles(ss, old_ps)[j],
            #[trigger] new_ps[old_ps.len() + j],
            fs,
            now,
        )
}

/// What one pass does to a history row that already existed: the pair is
/// kept; the stamp advances exactly when the pair is re-observed.
pub open spec fn entry_after(
    o: NameHistoryEntry,
    n: NameHistoryEntry,
    ss: Seq<PlayerSummary>,
    now: i64,
) -> bool {
    &&& n.steam_id.0 == o.steam_id.0
    &&& n.persona_name@ == o.persona_name@
    &&& n.updated_at == if summary_observes(ss, o.steam_id.0, o.persona_name@) {
        now
    } else {
        o.updated_at
    }
}

pub open spec fn appended_entry(s: PlayerSummary, n: NameHistoryEntry, now: i64) -> bool {
    &&& n.steam_id.0 == s.steam_id.0
    &&& n.persona_name@ == s.persona_name@
    &&& n.updated_at == now
}

/// The full effect of one pass on the name history: prior rows keep their
/// pair (stamps advance only for re-observed pairs), and exactly the
/// first-time (identity, name) pairs are appended, in snapshot order.
pub open spec fn reconciled_history(
    old_h: Seq<NameHistoryEntry>,
    new_h: Seq<NameHistoryEntry>,
    ss: Seq<PlayerSummary>,
    now: i64,
) -> bool {
    &&& new_h.len() == old_h.len() + fresh_names(ss, old_h).len()
    &&& forall|j: int| 0 <= j < old_h.len() ==> entry_after(old_h[j], #[trigger] new_h[j], ss, now)
    &&& forall|j: int|
        0 <= j < fresh_names(ss, old_h).len() ==> appended_entry(
            fresh_names(ss, old_h)[j],
            #[trigger] new_h[old_h.len() + j],
            now,
        )
}

/// What a caller must hand a pass: the deduplicated join of the friend
/// list and the profile summaries, so each identity occurs at most once
/// and each summary is backed by a friend edge.
pub open spec fn valid_snapshot(fs: Seq<Friend>, ss: Seq<PlayerSummary>) -> bool {
    &&& unique_summary_ids(ss)
    &&& forall|k: int| 0 <= k < ss.len() ==> has_friend_id(fs, #[trigger] ss[k].steam_id.0)
}

pub(crate) proof fn summary_witness(ss: Seq<PlayerSummary>, id: u64) -> (m: int)
    requires
        has_summary_id(ss, id),
    ensures
        0 <= m < ss.len(),
        ss[m].steam_id.0 == id,
{
    choose|m: int| 0 <= m < ss.len() && (#[trigger] ss[m]).steam_id.0 == id
}

pub(crate) proof fn observes_witness(ss: Seq<PlayerSummary>, id: u64, name: Seq<char>) -> (m: int)
    requires
        summary_observes(ss, id, name),
    ensures
        0 <= m < ss.len(),
        ss[m].steam_id.0 == id,
        ss[m].persona_name@ == name,
{
    choose|m: int|
        0 <= m < ss.len() && (#[trigger] ss[m]).steam_id.0 == id && ss[m].persona_name@ == name
}

pub(crate) proof fn profile_witness(ps: Seq<PersistedProfile>, id: u64) -> (m: int)
    requires
        has_profile_id(ps, id),
    ensures
        0 <= m < ps.len(),
        ps[m].steam_id.0 == id,
{
    choose|m: int| 0 <= m < ps.len() && (#[trigger] ps[m]).steam_id.0 == id
}

pub(crate) proof fn hist_pair_witness(h: Seq<NameHistoryEntry>, id: u64, name: Seq<char>) -> (m: int)
    requires
        hist_has_pair(h, id, name),
    ensures
        0 <= m < h.len(),
        h[m].steam_id.0 == id,
        h[m].persona_name@ == name,
{
    choose|m: int|
        0 <= m < h.len() && (#[trigger] h[m]).steam_id.0 == id && h[m].persona_name@ == name
}

proof fn lemma_take_step_summary(ss: Seq<PlayerSummary>, k: int)
    requires
        0 <= k < ss.len(),
    ensures
        ss.take(k + 1).drop_last() =~= ss.take(k),
        ss.take(k + 1).last() == ss[k],
        forall|x: u64|
            #[trigger] has_summary_id(ss.take(k + 1), x) <==> (has_summary_id(ss.take(k), x)
                || ss[k].steam_id.0 == x),
        forall|id: u64, name: Seq<char>|
            #[trigger] summary_observes(ss.take(k + 1), id, name) <==> (summary_observes(
                ss.take(k),
                id,
                name,
            ) || (ss[k].steam_id.0 == id && ss[k].persona_name@ == name)),
{
    assert(ss.take(k + 1).drop_last() =~= ss.take(k));
    assert forall|x: u64|
        #[trigger] has_summary_id(ss.take(k + 1), x) <==> (has_summary_id(ss.take(k), x)
            || ss[k].steam_id.0 == x) by {
        if has_summary_id(ss.take(k + 1), x) {
            let m = summary_witness(ss.take(k + 1), x);
            if m < k {
                assert(ss.take(k)[m].steam_id.0 == x);
            } else {
                assert(ss[k].steam_id.0 == x);
            }
        }
        if has_summary_id(ss.take(k), x) {
            let m = summary_witness(ss.take(k), x);
            assert(ss.take(k + 1)[m].steam_id.0 == x);
        }
        if ss[k].steam_id.0 == x {
            assert(ss.take(k + 1)[k].steam_id.0 == x);
        }
    };
    assert forall|id: u64, name: Seq<char>|
        #[trigger] summary_observes(ss.take(k + 1), id, name) <==> (summary_observes(
            ss.take(k),
            id,
            name,
        ) || (ss[k].steam_id.0 == id && ss[k].persona_name@ == name)) by {
        if summary_observes(ss.take(k + 1), id, name) {
            let m = observes_witness(ss.take(k + 1), id, name);
            if m < k {
                assert(ss.take(k)[m].steam_id.0 == id && ss.take(k)[m].persona_name@ == name);
            } else {
                assert(ss[k].steam_id.0 == id && ss[k].persona_name@ == name);
            }
        }
        if summary_observes(ss.take(k), id, name) {
            let m = observes_witness(ss.take(k), id, name);
            assert(ss.take(k + 1)[m].steam_id.0 == id && ss.take(k + 1)[m].persona_name@ == name);
        }
        if ss[k].steam_id.0 == id && ss[k].persona_name@ == name {
            assert(ss.take(k + 1)[k].steam_id.0 == id && ss.take(k + 1)[k].persona_name@ == name);
        }
    };
}

proof fn lemma_summary_for_stable(ss: Seq<PlayerSummary>, a: int, b: int, id: u64)
    requires
        unique_summary_ids(ss),
        0 <= a <= b <= ss.len(),
        has_summary_id(ss.take(a), id),
    ensures
        has_summary_id(ss.take(b), id),
        summary_for(ss.take(b), id) == summary_for(ss.take(a), id),
{
    let m = summary_witness(ss.take(a), id);
    assert(ss.take(b)[m].steam_id.0 == id);
    let ma = summary_index(ss.take(a), id);
    assert(0 <= ma < a && ss.take(a)[ma].steam_id.0 == id);
    let mb = summary_index(ss.take(b), id);
    assert(0 <= mb < b && ss.take(b)[mb].steam_id.0 == id);
    assert(ss[ma].steam_id.0 == id && ss[mb].steam_id.0 == id);
    assert(ma == mb);
    assert(ss.take(a)[ma] == ss[ma] && ss.take(b)[mb] == ss[mb]);
}

pub proof fn lemma_fresh_profiles_props(ss: Seq<PlayerSummary>, ps: Seq<PersistedProfile>)
    requires
        unique_summary_ids(ss),
    ensures
        forall|j: int|
            0 <= j < fresh_profiles(ss, ps).len() ==> !has_profile_id(
                ps,
                #[trigger] fresh_profiles(ss, ps)[j].steam_id.0,
            ) && has_summary_id(ss, fresh_profiles(ss, ps)[j].steam_id.0),
        forall|j1: int, j2: int|
            0 <= j1 < j2 < fresh_profiles(ss, ps).len() ==> fresh_profiles(ss, ps)[j1].steam_id.0
                != fresh_profiles(ss, ps)[j2].steam_id.0,
        forall|k: int|
            0 <= k < ss.len() && !has_profile_id(ps, #[trigger] ss[k].steam_id.0)
                ==> exists|j: int|
                0 <= j < fresh_profiles(ss, ps).len() && fresh_profiles(ss, ps)[j].steam_id.0
                    == ss[k].steam_id.0,
    decreases ss.len(),
{
    if ss.len() == 0 {
    } else {
        let pre = ss.drop_last();
        let last = ss.last();
        assert(unique_summary_ids(pre)) by {
            assert(forall|k1: int, k2: int|
                0 <= k1 < k2 < pre.len() ==> pre[k1] == ss[k1] && pre[k2] == ss[k2]);
        };
        lemma_fresh_profiles_props(pre, ps);
        let rest = fresh_profiles(pre, ps);
        assert forall|x: u64| #[trigger] has_summary_id(pre, x) implies has_summary_id(ss, x) by {
            let m = summary_witness(pre, x);
            assert(ss[m].steam_id.0 == x);
        };
        assert forall|j: int| 0 <= j < rest.len() implies rest[j].steam_id.0
            != last.steam_id.0 by {
            assert(has_summary_id(pre, rest[j].steam_id.0));
            let m = summary_witness(pre, rest[j].steam_id.0);
            assert(ss[m].steam_id.0 != ss[ss.len() - 1].steam_id.0);
        };
        if has_profile_id(ps, last.steam_id.0) {
            assert(fresh_profiles(ss, ps) == rest);
            assert forall|k: int|
                0 <= k < ss.len() && !has_profile_id(ps, #[trigger] ss[k].steam_id.0)
                implies exists|j: int|
                0 <= j < fresh_profiles(ss, ps).len() && fresh_profiles(ss, ps)[j].steam_id.0
                    == ss[k].steam_id.0 by {
                assert(k < pre.len() && pre[k] == ss[k]);
            };
        } else {
            assert(fresh_profiles(ss, ps) == rest.push(last));
            assert forall|k: int|
                0 <= k < ss.len() && !has_profile_id(ps, #[trigger] ss[k].steam_id.0)
                implies exists|j: int|
                0 <= j < fresh_profiles(ss, ps).len() && fresh_profiles(ss, ps)[j].steam_id.0
                    == ss[k].steam_id.0 by {
                if k < ss.len() - 1 {
                    assert(pre[k] == ss[k]);
                    let j = choose|j: int|
                        0 <= j < rest.len() && (#[trigger] rest[j]).steam_id.0
                            == ss[k].steam_id.0;
                    assert(fresh_profiles(ss, ps)[j].steam_id.0 == ss[k].steam_id.0);
                } else {
                    assert(fresh_profiles(ss, ps)[rest.len() as int].steam_id.0
                        == ss[k].steam_id.0);
                }
            };
        }
    }
}

pub proof fn lemma_fresh_names_props(ss: Seq<PlayerSummary>, h: Seq<NameHistoryEntry>)
    requires
        unique_summary_ids(ss),
    ensures
        forall|j: int|
            0 <= j < fresh_names(ss, h).len() ==> !hist_has_pair(
                h,
                #[trigger] fresh_names(ss, h)[j].steam_id.0,
                fresh_names(ss, h)[j].persona_name@,
            ) && summary_observes(
                ss,
                fresh_names(ss, h)[j].steam_id.0,
                fresh_names(ss, h)[j].persona_name@,
            ),
        forall|j1: int, j2: int|
            0 <= j1 < j2 < fresh_names(ss, h).len() ==> fresh_names(ss, h)[j1].steam_id.0
                != fresh_names(ss, h)[j2].steam_id.0,
        forall|k: int|
            0 <= k < ss.len() && !hist_has_pair(
                h,
                #[trigger] ss[k].steam_id.0,
                ss[k].persona_name@,
            ) ==> exists|j: int|
                0 <= j < fresh_names(ss, h).len() && fresh_names(ss, h)[j].steam_id.0
                    == ss[k].steam_id.0 && fresh_names(ss, h)[j].persona_name@
                    == ss[k].persona_name@,
    decreases ss.len(),
{
    if ss.len() == 0 {
    } else {
        let pre = ss.drop_last();
        let last = ss.last();
        assert(unique_summary_ids(pre)) by {
            assert(forall|k1: int, k2: int|
                0 <= k1 < k2 < pre.len() ==> pre[k1] == ss[k1] && pre[k2] == ss[k2]);
        };
        lemma_fresh_names_props(pre, h);
        let rest = fresh_names(pre, h);
        assert forall|x: u64, nm: Seq<char>| #[trigger] summary_observes(pre, x, nm)
            implies summary_observes(ss, x, nm) by {
            let m = observes_witness(pre, x, nm);
            assert(ss[m].steam_id.0 == x && ss[m].persona_name@ == nm);
        };
        assert forall|j: int| 0 <= j < rest.len() implies rest[j].steam_id.0
            != last.steam_id.0 by {
            assert(summary_observes(pre, rest[j].steam_id.0, rest[j].persona_name@));
            let m = observes_witness(pre, rest[j].steam_id.0, rest[j].persona_name@);
            assert(ss[m].steam_id.0 != ss[ss.len() - 1].steam_id.0);
        };
        if hist_has_pair(h, last.steam_id.0, last.persona_name@) {
            assert(fresh_names(ss, h) == rest);
            assert forall|k: int|
                0 <= k < ss.len() && !hist_has_pair(
                    h,
                    #[trigger] ss[k].steam_id.0,
                    ss[k].persona_name@,
                ) implies exists|j: int|
                0 <= j < fresh_names(ss, h).len() && fresh_names(ss, h)[j].steam_id.0
                    == ss[k].steam_id.0 && fresh_names(ss, h)[j].persona_name@
                    == ss[k].persona_name@ by {
                assert(k < pre.len() && pre[k] == ss[k]);
            };
        } else {
            assert(fresh_names(ss, h) == rest.push(last));
            assert forall|k: int|
                0 <= k < ss.len() && !hist_has_pair(
                    h,
                    #[trigger] ss[k].steam_id.0,
                    ss[k].persona_name@,
                ) implies exists|j: int|
                0 <= j < fresh_names(ss, h).len() && fresh_names(ss, h)[j].steam_id.0
                    == ss[k].steam_id.0 && fresh_names(ss, h)[j].persona_name@
                    == ss[k].persona_name@ by {
                if k < ss.len() - 1 {
                    assert(pre[k] == ss[k]);
                    let j = choose|j: int|
                        0 <= j < rest.len() && (#[trigger] rest[j]).steam_id.0 == ss[k].steam_id.0
                            && rest[j].persona_name@ == ss[k].persona_name@;
                    assert(fresh_names(ss, h)[j].steam_id.0 == ss[k].steam_id.0);
                } else {
                    assert(fresh_names(ss, h)[rest.len() as int].steam_id.0 == ss[k].steam_id.0);
                }
            };
        }
    }
}

/// When every snapshot identity already has a profile row, a pass inserts
/// nothing.
pub proof fn lemma_fresh_profiles_empty(ss: Seq<PlayerSummary>, ps: Seq<PersistedProfile>)
    requires
        forall|k: int| 0 <= k < ss.len() ==> has_profile_id(ps, #[trigger] ss[k].steam_id.0),
    ensures
        fresh_profiles(ss, ps).len() == 0,
    decreases ss.len(),
{
    if ss.len() > 0 {
        let pre = ss.drop_last();
        assert(forall|k: int|
            0 <= k < pre.len() ==> has_profile_id(ps, #[trigger] pre[k].steam_id.0)) by {
            assert(forall|k: int| 0 <= k < pre.len() ==> pre[k] == ss[k]);
        };
        lemma_fresh_profiles_empty(pre, ps);
        assert(has_profile_id(ps, ss[ss.len() - 1].steam_id.0));
    }
}

/// When every (identity, name) pair of the snapshot already has a history
/// row, a pass appends nothing.
pub proof fn lemma_fresh_names_empty(ss: Seq<PlayerSummary>, h: Seq<NameHistoryEntry>)
    requires
        forall|k: int|
            0 <= k < ss.len() ==> hist_has_pair(h, #[trigger] ss[k].steam_id.0, ss[k].persona_name@),
    ensures
        fresh_names(ss, h).len() == 0,
    decreases ss.len(),
{
    if ss.len() > 0 {
        let pre = ss.drop_last();
        assert(forall|k: int|
            0 <= k < pre.len() ==> hist_has_pair(
                h,
                #[trigger] pre[k].steam_id.0,
                pre[k].persona_name@,
            )) by {
            assert(forall|k: int| 0 <= k < pre.len() ==> pre[k] == ss[k]);
        };
        lemma_fresh_names_empty(pre, h);
        assert(hist_has_pair(h, ss[ss.len() - 1].steam_id.0, ss[ss.len() - 1].persona_name@));
    }
}

/// Which rows a pass inserts depends only on which identities already
/// have a row.
proof fn lemma_fresh_profiles_same_ids(
    ss: Seq<PlayerSummary>,
    a: Seq<PersistedProfile>,
    b: Seq<PersistedProfile>,
)
    requires
        a.len() == b.len(),
        forall|m: int| 0 <= m < a.len() ==> a[m].steam_id.0 == #[trigger] b[m].steam_id.0,
    ensures
        fresh_profiles(ss, a) == fresh_profiles(ss, b),
    decreases ss.len(),
{
    assert forall|x: u64| #[trigger] has_profile_id(a, x) <==> has_profile_id(b, x) by {
        if has_profile_id(a, x) {
            let m = profile_witness(a, x);
            assert(b[m].steam_id.0 == x);
        }
        if has_profile_id(b, x) {
            let m = profile_witness(b, x);
            assert(a[m].steam_id.0 == x);
        }
    };
    if ss.len() > 0 {
        lemma_fresh_profiles_same_ids(ss.drop_last(), a, b);
    }
}

/// A pass keeps the schema's uniqueness: still at most one profile row
/// per identity afterwards.
pub proof fn lemma_reconciled_profiles_wf(
    ps0: Seq<PersistedProfile>,
    ps1: Seq<PersistedProfile>,
    fs: Seq<Friend>,
    ss: Seq<PlayerSummary>,
    now: i64,
)
    requires
        profiles_wf(ps0),
        unique_summary_ids(ss),
        reconciled_profiles(ps0, ps1, fs, ss, now),
    ensures
        profiles_wf(ps1),
        forall|i: int| 0 <= i < ps0.len() ==> #[trigger] ps1[i].steam_id.0 == ps0[i].steam_id.0,
{
    lemma_fresh_profiles_props(ss, ps0);
    let fresh = fresh_profiles(ss, ps0);
    assert forall|i: int| 0 <= i < ps0.len() implies #[trigger] ps1[i].steam_id.0
        == ps0[i].steam_id.0 by {
        assert(row_after(ps0[i], ps1[i], ss, now));
    };
    assert forall|i: int, j: int| 0 <= i < j < ps1.len() implies ps1[i].steam_id.0
        != ps1[j].steam_id.0 by {
        if j < ps0.len() {
        } else if i < ps0.len() {
            let jj = j - ps0.len();
            assert(inserted_row(fresh[jj], ps1[ps0.len() + jj], fs, now));
            assert(!has_profile_id(ps0, fresh[jj].steam_id.0));
            assert(ps0[i].steam_id.0 != fresh[jj].steam_id.0) by {
                if ps0[i].steam_id.0 == fresh[jj].steam_id.0 {
                    assert(has_profile_id(ps0, fresh[jj].steam_id.0));
                }
            };
        } else {
            let ii = i - ps0.len();
            let jj = j - ps0.len();
            assert(inserted_row(fresh[ii], ps1[ps0.len() + ii], fs, now));
            assert(inserted_row(fresh[jj], ps1[ps0.len() + jj], fs, now));
        }
    };
}

/// A pass keeps the schema's uniqueness: still at most one history row
/// per (identity, name) pair afterwards.
pub proof fn lemma_reconciled_history_wf(
    h0: Seq<NameHistoryEntry>,
    h1: Seq<NameHistoryEntry>,
    ss: Seq<PlayerSummary>,
    now: i64,
)
    requires
        history_wf(h0),
        unique_summary_ids(ss),
        reconciled_history(h0, h1, ss, now),
    ensures
        history_wf(h1),
        forall|j: int|
            0 <= j < h0.len() ==> #[trigger] h1[j].steam_id.0 == h0[j].steam_id.0
                && h1[j].persona_name@ == h0[j].persona_name@,
{
    lemma_fresh_names_props(ss, h0);
    let fresh = fresh_names(ss, h0);
    assert forall|i: int, j: int|
        0 <= i < j < h1.len() implies !(h1[i].steam_id.0 == h1[j].steam_id.0
        && h1[i].persona_name@ == h1[j].persona_name@) by {
        if j < h0.len() {
        } else if i < h0.len() {
            let jj = j - h0.len();
            assert(appended_entry(fresh[jj], h1[h0.len() + jj], now));
            assert(!hist_has_pair(h0, fresh[jj].steam_id.0, fresh[jj].persona_name@));
            if h1[i].steam_id.0 == h1[j].steam_id.0 && h1[i].persona_name@ == h1[j].persona_name@ {
                assert(hist_has_pair(h0, fresh[jj].steam_id.0, fresh[jj].persona_name@)) by {
                    assert(entry_after(h0[i], h1[i], ss, now));
                    assert(h0[i].steam_id.0 == h1[i].steam_id.0 && h0[i].persona_name@
                        == h1[i].persona_name@);
                };
            }
        } else {
            let ii = i - h0.len();
            let jj = j - h0.len();
            assert(appended_entry(fresh[ii], h1[h0.len() + ii], now));
            assert(appended_entry(fresh[jj], h1[h0.len() + jj], now));
        }
    };
}

/// What the soft-delete pass alone does to one row.
spec fn phase1_row(
    o: PersistedProfile,
    n: PersistedProfile,
    ss: Seq<PlayerSummary>,
    now: i64,
) -> bool {
    if !has_summary_id(ss, o.steam_id.0) && o.removed_at is None {
        soft_deleted_row(o, n, now)
    } else {
        n == o
    }
}

/// What the upsert pass alone does to one pre-existing row, for the
/// processed prefix of the snapshot.
spec fn upserted_row(
    o: PersistedProfile,
    n: PersistedProfile,
    ssk: Seq<PlayerSummary>,
    now: i64,
) -> bool {
    if has_summary_id(ssk, o.steam_id.0) {
        refreshed_row(o, n, summary_for(ssk, o.steam_id.0), now)
    } else {
        n == o
    }
}

/// Invariant of the upsert loop: the processed prefix `ssk` of the
/// snapshot has been applied to the state the soft-delete pass left.
spec fn upserted_profiles(
    mid: Seq<PersistedProfile>,
    cur: Seq<PersistedProfile>,
    fs: Seq<Friend>,
    ssk: Seq<PlayerSummary>,
    now: i64,
) -> bool {
    &&& cur.len() == mid.len() + fresh_profiles(ssk, mid).len()
    &&& forall|i: int| 0 <= i < mid.len() ==> upserted_row(mid[i], #[trigger] cur[i], ssk, now)
    &&& forall|j: int|
        0 <= j < fresh_profiles(ssk, mid).len() ==> inserted_row(
            fresh_profiles(ssk, mid)[j],
            #[trigger] cur[mid.len() + j],
            fs,
            now,
        )
}

fn contains_summary_id(ss: &Vec<PlayerSummary>, id: u64) -> (r: bool)
    ensures
        r == has_summary_id(ss@, id),
{
    let mut k: usize = 0;
    while k < ss.len()
        invariant
            k <= ss@.len(),
            forall|m: int| 0 <= m < k ==> (#[trigger] ss@[m]).steam_id.0 != id,
        decreases ss@.len() - k,
    {
        if ss[k].steam_id.0 == id {
            assert(ss@[k as int].steam_id.0 == id);
            return true;
        }
        k += 1;
    }
    false
}

fn find_profile_index(ps: &Vec<PersistedProfile>, id: u64) -> (r: Option<usize>)
    ensures
        match r {
            Some(i) => i < ps@.len() && ps@[i as int].steam_id.0 == id,
            None => !has_profile_id(ps@, id),
        },
{
    let mut k: usize = 0;
    while k < ps.len()
        invariant
            k <= ps@.len(),
            forall|m: int| 0 <= m < k ==> (#[trigger] ps@[m]).steam_id.0 != id,
        decreases ps@.len() - k,
    {
        if ps[k].steam_id.0 == id {
            return Some(k);
        }
        k += 1;
    }
    None
}

fn find_history_index(h: &Vec<NameHistoryEntry>, id: u64, name: &String) -> (r: Option<usize>)
    ensures
        match r {
            Some(j) => j < h@.len() && h@[j as int].steam_id.0 == id && h@[j as int].persona_name@
                == name@,
            None => !hist_has_pair(h@, id, name@),
        },
{
    let mut k: usize = 0;
    while k < h.len()
        invariant
            k <= h@.len(),
            forall|m: int|
                0 <= m < k ==> !((#[trigger] h@[m]).steam_id.0 == id && h@[m].persona_name@
                    == name@),
        decreases h@.len() - k,
    {
        if h[k].steam_id.0 == id && h[k].persona_name == *name {
            return Some(k);
        }
        k += 1;
    }
    None
}

fn find_friend_since(fs: &Vec<Friend>, id: u64) -> (r: i64)
    requires
        has_friend_id(fs@, id),
    ensures
        r == friend_since_for(fs@, id),
{
    let mut k: usize = 0;
    proof {
        assert(fs@.skip(0) =~= fs@);
    }
    while k < fs.len()
        invariant
            k <= fs@.len(),
            friend_since_for(fs@, id) == friend_since_for(fs@.skip(k as int), id),
            exists|m: int| k <= m < fs@.len() && (#[trigger] fs@[m]).steam_id.0 == id,
        decreases fs@.len() - k,
    {
        if fs[k].steam_id.0 == id {
            proof {
                assert(fs@.skip(k as int)[0] == fs@[k as int]);
            }
            return fs[k].friend_since;
        }
        proof {
            assert(fs@.skip(k as int)[0] == fs@[k as int]);
            assert(fs@.skip(k as int).drop_first() =~= fs@.skip(k as int + 1));
            let m = choose|m: int|
                k <= m < fs@.len() && (#[trigger] fs@[m]).steam_id.0 == id;
            assert(k + 1 <= m < fs@.len() && fs@[m].steam_id.0 == id);
        }
        k += 1;
    }
    proof {
        assert(false);
    }
    0
}

/// Relies on chrono::Utc::now (with DateTime::timestamp): the current
/// wall-clock time as whole seconds since the Unix epoch. Nothing can be
/// promised of a clock reading; callers state what holds for every value.
/// chrono aborts if the system clock is set before the epoch.
#[verifier::external_body]
fn unix_now() -> i64 {
    chrono::Utc::now().timestamp()
}

/// The persisted store: current profile rows and the name history.
pub struct DbConnection {
    profiles: Vec<PersistedProfile>,
    history: Vec<NameHistoryEntry>,
}

impl DbConnection {
    pub closed spec fn profiles_view(self) -> Seq<PersistedProfile> {
        self.profiles@
    }

    pub closed spec fn history_view(self) -> Seq<NameHistoryEntry> {
        self.history@
    }

    /// The store's invariant: the uniqueness the schema enforces.
    pub open spec fn wf(self) -> bool {
        profiles_wf(self.profiles_view()) && history_wf(self.history_view())
    }

    /// An empty store, as a fresh schema leaves it.
    pub fn new() -> (db: DbConnection)
        ensures
            db.wf(),
            db.profiles_view() == Seq::<PersistedProfile>::empty(),
            db.history_view() == Seq::<NameHistoryEntry>::empty(),
    {
        let db = DbConnection { profiles: Vec::new(), history: Vec::new() };
        proof {
            assert(db.profiles_view() =~= Seq::<PersistedProfile>::empty());
            assert(db.history_view() =~= Seq::<NameHistoryEntry>::empty());
        }
        db
    }

    /// Rebuilds a store from previously persisted rows, refusing any set
    /// of rows that breaks the schema's uniqueness.
    pub fn from_rows(profiles: Vec<PersistedProfile>, history: Vec<NameHistoryEntry>) -> (r:
        Option<DbConnection>)
        ensures
            match r {
                Some(db) => db.wf() && db.profiles_view() == profiles@ && db.history_view()
                    == history@,
                None => !(profiles_wf(profiles@) && history_wf(history@)),
            },
    {
        let n = profiles.len();
        let mut i: usize = 0;
        while i < n
            invariant
                n == profiles@.len(),
                i <= n,
                forall|a: int, b: int|
                    0 <= a < b < n && a < i ==> profiles@[a].steam_id.0 != profiles@[b].steam_id.0,
            decreases n - i,
        {
            let mut j: usize = i + 1;
            while j < n
                invariant
                    i < j <= n,
                    n == profiles@.len(),
                    forall|b: int| i < b < j ==> profiles@[i as int].steam_id.0 != profiles@[b].steam_id.0,
                decreases n - j,
            {
                if profiles[i].steam_id.0 == profiles[j].steam_id.0 {
                    proof {
                        assert(!profiles_wf(profiles@));
                    }
                    return None;
                }
                j += 1;
            }
            i += 1;
        }
        let m = history.len();
        let mut i: usize = 0;
        while i < m
            invariant
                m == history@.len(),
                i <= m,
                profiles_wf(profiles@),
                forall|a: int, b: int|
                    0 <= a < b < m && a < i ==> !(history@[a].steam_id.0 == history@[b].steam_id.0
                        && history@[a].persona_name@ == history@[b].persona_name@),
            decreases m - i,
        {
            let mut j: usize = i + 1;
            while j < m
                invariant
                    i < j <= m,
                    m == history@.len(),
                    profiles_wf(profiles@),
                    forall|b: int|
                        i < b < j ==> !(history@[i as int].steam_id.0 == history@[b].steam_id.0
                            && history@[i as int].persona_name@ == history@[b].persona_name@),
                decreases m - j,
            {
                if history[i].steam_id.0 == history[j].steam_id.0 && history[i].persona_name
                    == history[j].persona_name {
                    proof {
                        assert(!history_wf(history@));
                    }
                    return None;
                }
                j += 1;
            }
            i += 1;
        }
        Some(DbConnection { profiles, history })
    }

    /// Read access to the current profile rows, for callers that persist
    /// or display them.
    pub fn profiles(&self) -> (r: &Vec<PersistedProfile>)
        ensures
            r@ == self.profiles_view(),
    {
        &self.profiles
    }

    /// Read access to the name history rows.
    pub fn history(&self) -> (r: &Vec<NameHistoryEntry>)
        ensures
            r@ == self.history_view(),
    {
        &self.history
    }

    /// One reconciliation pass against an already-fetched snapshot, at
    /// the given wall-clock time (seconds since the Unix epoch).
    ///
    /// Strictly ordered: first every not-yet-removed row whose identity
    /// is absent from the snapshot is marked removed; only then is every
    /// snapshot entry upserted (profile row and name-history row). An
    /// identity can never be both marked removed and refreshed by one
    /// pass, because it cannot be both absent from and present in the
    /// snapshot.
    pub fn update_player_summaries_at(
        &mut self,
        friends: &Vec<Friend>,
        summaries: &Vec<PlayerSummary>,
        now: i64,
    )
        requires
            old(self).wf(),
            valid_snapshot(friends@, summaries@),
        ensures
            final(self).wf(),
            reconciled_profiles(
                old(self).profiles_view(),
                final(self).profiles_view(),
                friends@,
                summaries@,
                now,
            ),
            reconciled_history(
                old(self).history_view(),
                final(self).history_view(),
                summaries@,
                now,
            ),
    {
        let ghost ps0 = self.profiles@;
        let ghost h0 = self.history@;

        // Soft-delete pass.
        let n = self.profiles.len();
        let mut i: usize = 0;
        while i < n
            invariant
                i <= n,
                self.profiles@.len() == n,
                self.history@ == h0,
                forall|m: int| i <= m < n ==> self.profiles@[m] == ps0[m],
                forall|m: int|
                    0 <= m < i ==> phase1_row(ps0[m], #[trigger] self.profiles@[m], summaries@, now),
            decreases n - i,
        {
            let absent = !contains_summary_id(summaries, self.profiles[i].steam_id.0);
            if absent && self.profiles[i].removed_at.is_none() {
                let marked = PersistedProfile {
                    steam_id: self.profiles[i].steam_id,
                    persona_name: self.profiles[i].persona_name.clone(),
                    profile_url: self.profiles[i].profile_url.clone(),
                    friend_since: self.profiles[i].friend_since,
                    updated_at: now,
                    removed_at: Some(now),
                };
                self.profiles.set(i, marked);
            }
            i += 1;
        }
        let ghost mid = self.profiles@;
        proof {
            assert forall|m: int| 0 <= m < n implies (#[trigger] mid[m]).steam_id.0
                == ps0[m].steam_id.0 by {
                assert(phase1_row(ps0[m], mid[m], summaries@, now));
            };
            assert(profiles_wf(mid));
        }

        // Upsert pass, over the snapshot entries in order.
        let mut k: usize = 0;
        proof {
            assert(summaries@.take(0) =~= Seq::<PlayerSummary>::empty());
            assert(upserted_profiles(mid, self.profiles@, friends@, summaries@.take(0), now));
            assert(reconciled_history(h0, self.history@, summaries@.take(0), now));
        }
        while k < summaries.len()
            invariant
                k <= summaries@.len(),
                upserted_profiles(mid, self.profiles@, friends@, summaries@.take(k as int), now),
                reconciled_history(h0, self.history@, summaries@.take(k as int), now),
            decreases summaries@.len() - k,
        {
            let ghost ssk = summaries@.take(k as int);
            let ghost ssk1 = summaries@.take(k as int + 1);
            let s_id = summaries[k].steam_id.0;
            proof {
                lemma_take_step_summary(summaries@, k as int);
                assert(unique_summary_ids(ssk)) by {
                    assert(forall|a: int, b: int|
                        0 <= a < b < ssk.len() ==> ssk[a] == summaries@[a] && ssk[b]
                            == summaries@[b]);
                };
                assert(!has_summary_id(ssk, s_id)) by {
                    if has_summary_id(ssk, s_id) {
                        let m = summary_witness(ssk, s_id);
                        assert(summaries@[m].steam_id.0 == s_id);
                        assert(summaries@[m].steam_id.0 != summaries@[k as int].steam_id.0);
                    }
                };
                assert(!summary_observes(ssk, s_id, summaries@[k as int].persona_name@)) by {
                    if summary_observes(ssk, s_id, summaries@[k as int].persona_name@) {
                        let m = observes_witness(ssk, s_id, summaries@[k as int].persona_name@);
                        assert(summaries@[m].steam_id.0 != summaries@[k as int].steam_id.0);
                    }
                };
                assert(has_summary_id(ssk1, s_id));
                assert(summary_for(ssk1, s_id) == summaries@[k as int]) by {
                    let m = summary_index(ssk1, s_id);
                    assert(0 <= m < ssk1.len() && ssk1[m].steam_id.0 == s_id);
                    assert(ssk1[m] == summaries@[m]);
                    if m < k as int {
                        assert(ssk[m].steam_id.0 == s_id);
                        assert(false);
                    }
                };
            }

            // Profile upsert.
            let ghost cur = self.profiles@;
            let idx = find_profile_index(&self.profiles, s_id);
            match idx {
                Some(i) => {
                    proof {
                        let ii = i as int;
                        if ii >= mid.len() {
                            lemma_fresh_profiles_props(ssk, mid);
                            let jj = ii - mid.len();
                            assert(inserted_row(
                                fresh_profiles(ssk, mid)[jj],
                                cur[mid.len() + jj],
                                friends@,
                                now,
                            ));
                            assert(has_summary_id(ssk, fresh_profiles(ssk, mid)[jj].steam_id.0));
                            assert(false);
                        }
                        assert(upserted_row(mid[ii], cur[ii], ssk, now));
                        assert(mid[ii].steam_id.0 == s_id);
                        assert(cur[ii] == mid[ii]);
                        assert(has_profile_id(mid, s_id));
                        assert(fresh_profiles(ssk1, mid) == fresh_profiles(ssk, mid));
                    }
                    let updated = PersistedProfile {
                        steam_id: self.profiles[i].steam_id,
                        persona_name: summaries[k].persona_name.clone(),
                        profile_url: summaries[k].profile_url.clone(),
                        friend_since: self.profiles[i].friend_since,
                        updated_at: now,
                        removed_at: self.profiles[i].removed_at,
                    };
                    self.profiles.set(i, updated);
                    proof {
                        let ii = i as int;
                        assert(refreshed_row(mid[ii], updated, summaries@[k as int], now));
                        assert forall|m: int|
                            0 <= m < mid.len() implies upserted_row(
                            mid[m],
                            #[trigger] self.profiles@[m],
                            ssk1,
                            now,
                        ) by {
                            if m == ii {
                                assert(self.profiles@[m] == updated);
                            } else {
                                assert(self.profiles@[m] == cur[m]);
                                assert(upserted_row(mid[m], cur[m], ssk, now));
                                assert(mid[m].steam_id.0 != s_id);
                                if has_summary_id(ssk, mid[m].steam_id.0) {
                                    lemma_summary_for_stable(
                                        summaries@,
                                        k as int,
                                        k as int + 1,
                                        mid[m].steam_id.0,
                                    );
                                }
                            }
                        };
                        assert forall|j: int|
                            0 <= j < fresh_profiles(ssk1, mid).len() implies inserted_row(
                            fresh_profiles(ssk1, mid)[j],
                            #[trigger] self.profiles@[mid.len() + j],
                            friends@,
                            now,
                        ) by {
                            assert(self.profiles@[mid.len() + j] == cur[mid.len() + j]);
                            assert(inserted_row(
                                fresh_profiles(ssk, mid)[j],
                                cur[mid.len() + j],
                                friends@,
                                now,
                            ));
                        };
                    }
                }
                None => {
                    proof {
                        assert(!has_profile_id(mid, s_id)) by {
                            if has_profile_id(mid, s_id) {
                                let m = profile_witness(mid, s_id);
                                assert(upserted_row(mid[m], cur[m], ssk, now));
                                assert(cur[m].steam_id.0 == s_id);
                            }
                        };
                        assert(fresh_profiles(ssk1, mid) == fresh_profiles(ssk, mid).push(
                            summaries@[k as int],
                        ));
                    }
                    let since = find_friend_since(friends, s_id);
                    let inserted = PersistedProfile {
                        steam_id: summaries[k].steam_id,
                        persona_name: summaries[k].persona_name.clone(),
                        profile_url: summaries[k].profile_url.clone(),
                        friend_since: since,
                        updated_at: now,
                        removed_at: None,
                    };
                    self.profiles.push(inserted);
                    proof {
                        let flen = fresh_profiles(ssk, mid).len() as int;
                        assert(self.profiles@ == cur.push(inserted));
                        assert forall|m: int|
                            0 <= m < mid.len() implies upserted_row(
                            mid[m],
                            #[trigger] self.profiles@[m],
                            ssk1,
                            now,
                        ) by {
                            assert(self.profiles@[m] == cur[m]);
                            assert(upserted_row(mid[m], cur[m], ssk, now));
                            assert(mid[m].steam_id.0 != s_id);
                            if has_summary_id(ssk, mid[m].steam_id.0) {
                                lemma_summary_for_stable(
                                    summaries@,
                                    k as int,
                                    k as int + 1,
                                    mid[m].steam_id.0,
                                );
                            }
                        };
                        assert forall|j: int|
                            0 <= j < fresh_profiles(ssk1, mid).len() implies inserted_row(
                            fresh_profiles(ssk1, mid)[j],
                            #[trigger] self.profiles@[mid.len() + j],
                            friends@,
                            now,
                        ) by {
                            if j < flen {
                                assert(fresh_profiles(ssk1, mid)[j] == fresh_profiles(ssk, mid)[j]);
                                assert(self.profiles@[mid.len() + j] == cur[mid.len() + j]);
                                assert(inserted_row(
                                    fresh_profiles(ssk, mid)[j],
                                    cur[mid.len() + j],
                                    friends@,
                                    now,
                                ));
                            } else {
                                assert(j == flen);
                                assert(mid.len() + j == cur.len());
                                assert(self.profiles@[mid.len() + j] == inserted);
                                assert(inserted_row(summaries@[k as int], inserted, friends@, now));
                            }
                        };
                    }
                }
            }

            // Name-history upsert.
            let ghost curh = self.history@;
            let hidx = find_history_index(&self.history, s_id, &summaries[k].persona_name);
            match hidx {
                Some(j) => {
                    proof {
                        let jj = j as int;
                        if jj >= h0.len() {
                            lemma_fresh_names_props(ssk, h0);
                            let aj = jj - h0.len();
                            assert(appended_entry(
                                fresh_names(ssk, h0)[aj],
                                curh[h0.len() + aj],
                                now,
                            ));
                            assert(summary_observes(
                                ssk,
                                fresh_names(ssk, h0)[aj].steam_id.0,
                                fresh_names(ssk, h0)[aj].persona_name@,
                            ));
                            let m = observes_witness(
                                ssk,
                                fresh_names(ssk, h0)[aj].steam_id.0,
                                fresh_names(ssk, h0)[aj].persona_name@,
                            );
                            assert(ssk[m].steam_id.0 == s_id);
                            assert(false);
                        }
                        assert(entry_after(h0[jj], curh[jj], ssk, now));
                        assert(h0[jj].steam_id.0 == s_id && h0[jj].persona_name@ == summaries@[k
                            as int].persona_name@);
                        assert(hist_has_pair(h0, s_id, summaries@[k as int].persona_name@));
                        assert(fresh_names(ssk1, h0) == fresh_names(ssk, h0));
                    }
                    let refreshed = NameHistoryEntry {
                        steam_id: self.history[j].steam_id,
                        persona_name: self.history[j].persona_name.clone(),
                        updated_at: now,
                    };
                    self.history.set(j, refreshed);
                    proof {
                        let jj = j as int;
                        assert forall|m: int|
                            0 <= m < h0.len() implies entry_after(
                            h0[m],
                            #[trigger] self.history@[m],
                            ssk1,
                            now,
                        ) by {
                            if m == jj {
                                assert(self.history@[m] == refreshed);
                            } else {
                                assert(self.history@[m] == curh[m]);
                                assert(entry_after(h0[m], curh[m], ssk, now));
                                if h0[m].steam_id.0 == s_id && h0[m].persona_name@ == summaries@[k
                                    as int].persona_name@ {
                                    assert(false);
                                }
                            }
                        };
                        assert forall|j2: int|
                            0 <= j2 < fresh_names(ssk1, h0).len() implies appended_entry(
                            fresh_names(ssk1, h0)[j2],
                            #[trigger] self.history@[h0.len() + j2],
                            now,
                        ) by {
                            assert(self.history@[h0.len() + j2] == curh[h0.len() + j2]);
                            assert(appended_entry(
                                fresh_names(ssk, h0)[j2],
                                curh[h0.len() + j2],
                                now,
                            ));
                        };
                    }
                }
                None => {
                    proof {
                        assert(!hist_has_pair(h0, s_id, summaries@[k as int].persona_name@)) by {
                            if hist_has_pair(h0, s_id, summaries@[k as int].persona_name@) {
                                let m = hist_pair_witness(
                                    h0,
                                    s_id,
                                    summaries@[k as int].persona_name@,
                                );
                                assert(entry_after(h0[m], curh[m], ssk, now));
                                assert(curh[m].steam_id.0 == s_id && curh[m].persona_name@
                                    == summaries@[k as int].persona_name@);
                            }
                        };
                        assert(fresh_names(ssk1, h0) == fresh_names(ssk, h0).push(
                            summaries@[k as int],
                        ));
                    }
                    let appended = NameHistoryEntry {
                        steam_id: summaries[k].steam_id,
                        persona_name: summaries[k].persona_name.clone(),
                        updated_at: now,
                    };
                    self.history.push(appended);
                    proof {
                        let flen = fresh_names(ssk, h0).len() as int;
                        assert(self.history@ == curh.push(appended));
                        assert forall|m: int|
                            0 <= m < h0.len() implies entry_after(
                            h0[m],
                            #[trigger] self.history@[m],
                            ssk1,
                            now,
                        ) by {
                            assert(self.history@[m] == curh[m]);
                            assert(entry_after(h0[m], curh[m], ssk, now));
                            if h0[m].steam_id.0 == s_id && h0[m].persona_name@ == summaries@[k
                                as int].persona_name@ {
                                assert(hist_has_pair(h0, s_id, summaries@[k as int].persona_name@));
                                assert(false);
                            }
                        };
                        assert forall|j2: int|
                            0 <= j2 < fresh_names(ssk1, h0).len() implies appended_entry(
                            fresh_names(ssk1, h0)[j2],
                            #[trigger] self.history@[h0.len() + j2],
                            now,
                        ) by {
                            if j2 < flen {
                                assert(fresh_names(ssk1, h0)[j2] == fresh_names(ssk, h0)[j2]);
                                assert(self.history@[h0.len() + j2] == curh[h0.len() + j2]);
                                assert(appended_entry(
                                    fresh_names(ssk, h0)[j2],
                                    curh[h0.len() + j2],
                                    now,
                                ));
                            } else {
                                assert(j2 == flen);
                                assert(h0.len() + j2 == curh.len());
                                assert(self.history@[h0.len() + j2] == appended);
                            }
                        };
                    }
                }
            }
            k += 1;
        }

        // The two passes compose into the full per-row transformation.
        proof {
            assert(summaries@.take(summaries@.len() as int) =~= summaries@);
            let ss = summaries@;
            let cur = self.profiles@;
            lemma_fresh_profiles_same_ids(ss, mid, ps0);
            assert forall|m: int|
                0 <= m < ps0.len() implies row_after(ps0[m], #[trigger] cur[m], ss, now) by {
                assert(phase1_row(ps0[m], mid[m], ss, now));
                assert(upserted_row(mid[m], cur[m], ss, now));
                if has_summary_id(ss, ps0[m].steam_id.0) {
                    assert(mid[m] == ps0[m]);
                } else if ps0[m].removed_at is None {
                    assert(soft_deleted_row(ps0[m], mid[m], now));
                    assert(cur[m] == mid[m]);
                } else {
                    assert(mid[m] == ps0[m] && cur[m] == mid[m]);
                }
            };
            assert forall|j: int|
                0 <= j < fresh_profiles(ss, ps0).len() implies inserted_row(
                fresh_profiles(ss, ps0)[j],
                #[trigger] cur[ps0.len() + j],
                friends@,
                now,
            ) by {
                assert(inserted_row(fresh_profiles(ss, mid)[j], cur[mid.len() + j], friends@, now));
                assert(cur[mid.len() + j] == cur[ps0.len() + j]);
            };
            assert(reconciled_profiles(ps0, cur, friends@, ss, now));
            lemma_reconciled_profiles_wf(ps0, cur, friends@, ss, now);
            lemma_reconciled_history_wf(h0, self.history@, ss, now);
        }
    }

    /// One reconciliation pass stamped with the current wall-clock time.
    ///
    /// The clock reading is the one thing this pass takes from the
    /// machine, so the contract holds for whatever second the pass ran
    /// at; every other aspect of the result is pinned by
    /// `update_player_summaries_at`, which this call hands the reading.
    pub fn update_player_summaries(
        &mut self,
        friends: &Vec<Friend>,
        summaries: &Vec<PlayerSummary>,
    )
        requires
            old(self).wf(),
            valid_snapshot(friends@, summaries@),
        ensures
            final(self).wf(),
            exists|t: i64|
                reconciled_profiles(
                    old(self).profiles_view(),
                    final(self).profiles_view(),
                    friends@,
                    summaries@,
                    t,
                ) && #[trigger] reconciled_history(
                    old(self).history_view(),
                    final(self).history_view(),
                    summaries@,
                    t,
                ),
    {
        let now = unix_now();
        self.update_player_summaries_at(friends, summaries, now);
        proof {
            assert(reconciled_history(
                old(self).history_view(),
                self.history_view(),
                summaries@,
                now,
            ));
        }
    }
}

} // verus!
