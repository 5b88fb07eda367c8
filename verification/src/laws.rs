//! Laws of the ledger, proved against the model.

use crate::model::{
    cast_model, has_row, inv, lemma_cast_preserves_inv, listed, restrict_item, row_index_of,
    row_keyed, same_key, user_id_of, vote_of, votes_for, RowView, StoreView, VoteView,
};
use vstd::prelude::*;

verus! {

/// A hash that no registered client bears yields the empty listing,
/// for any item filter — an unmatched lookup is not an error.
pub proof fn lemma_unknown_client_empty(sv: StoreView, h: Seq<char>, filt: Option<Seq<char>>)
    requires
        user_id_of(sv.users, h) is None,
    ensures
        votes_for(sv, h, filt) == Seq::<VoteView>::empty(),
{
}

/// Two casts for the same (client, item, revision) triple resolve to
/// the last one: casting `v1` and then `v2` leaves exactly the state
/// that casting `v2` alone would, with the same count of affected
/// rows. In particular no duplicate row is ever created, and the
/// surviving row carries the direction of the later cast.
pub proof fn lemma_cast_last_write_wins(sv: StoreView, v1: VoteView, v2: VoteView)
    requires
        inv(sv),
        v2.client_hash == v1.client_hash,
        v2.snap_id == v1.snap_id,
        v2.snap_revision == v1.snap_revision,
    ensures
        ({
            let s1 = cast_model(sv, v1).0;
            cast_model(s1, v2).0 == cast_model(sv, v2).0 && cast_model(s1, v2).1 == cast_model(
                sv,
                v2,
            ).1
        }),
{
    lemma_cast_preserves_inv(sv, v1);
    let s1 = cast_model(sv, v1).0;
    match user_id_of(sv.users, v1.client_hash) {
        None => {},
        Some(uid) => {
            if has_row(sv.votes, uid, v1.snap_id, v1.snap_revision) {
                let j = row_index_of(sv.votes, uid, v1.snap_id, v1.snap_revision);
                assert(0 <= j < sv.votes.len() && row_keyed(sv.votes[j], uid, v1.snap_id,
                v1.snap_revision));
                let r1 = RowView { vote_up: v1.vote_up, ..sv.votes[j] };
                assert(s1.votes == sv.votes.update(j, r1));
                assert(row_keyed(s1.votes[j], uid, v2.snap_id, v2.snap_revision));
                assert(has_row(s1.votes, uid, v2.snap_id, v2.snap_revision));
                let w = row_index_of(s1.votes, uid, v2.snap_id, v2.snap_revision);
                assert(0 <= w < s1.votes.len() && row_keyed(s1.votes[w], uid, v2.snap_id,
                v2.snap_revision));
                if w != j {
                    if w < j {
                        assert(!same_key(s1.votes[w], s1.votes[j]));
                    } else {
                        assert(!same_key(s1.votes[j], s1.votes[w]));
                    }
                    assert(false);
                }
                let r2 = RowView { vote_up: v2.vote_up, ..s1.votes[j] };
                assert(s1.votes.update(j, r2) =~= sv.votes.update(
                    j,
                    RowView { vote_up: v2.vote_up, ..sv.votes[j] },
                ));
                assert(cast_model(s1, v2).0 =~= cast_model(sv, v2).0);
            } else {
                let n = sv.votes.len() as int;
                let f1 = RowView {
                    user_id: uid,
                    snap_id: v1.snap_id,
                    snap_revision: v1.snap_revision,
                    vote_up: v1.vote_up,
                    timestamp: sv.now,
                };
                assert(s1.votes == sv.votes.push(f1));
                assert(row_keyed(s1.votes[n], uid, v2.snap_id, v2.snap_revision));
                assert(has_row(s1.votes, uid, v2.snap_id, v2.snap_revision));
                let w = row_index_of(s1.votes, uid, v2.snap_id, v2.snap_revision);
                assert(0 <= w < s1.votes.len() && row_keyed(s1.votes[w], uid, v2.snap_id,
                v2.snap_revision));
                if w != n {
                    assert(!same_key(s1.votes[w], s1.votes[n]));
                    assert(false);
                }
                if has_row(sv.votes, uid, v2.snap_id, v2.snap_revision) {
                    let u = choose|k: int|
                        0 <= k < sv.votes.len() && row_keyed(#[trigger] sv.votes[k], uid,
                        v2.snap_id, v2.snap_revision);
                    assert(row_keyed(sv.votes[u], uid, v1.snap_id, v1.snap_revision));
                    assert(has_row(sv.votes, uid, v1.snap_id, v1.snap_revision));
                }
                let r2 = RowView { vote_up: v2.vote_up, ..s1.votes[n] };
                let f2 = RowView {
                    user_id: uid,
                    snap_id: v2.snap_id,
                    snap_revision: v2.snap_revision,
                    vote_up: v2.vote_up,
                    timestamp: sv.now,
                };
                assert(s1.votes.update(n, r2) =~= sv.votes.push(f2));
                assert(cast_model(s1, v2).0 =~= cast_model(sv, v2).0);
            }
        },
    }
}

/// Casting the same vote twice is idempotent: the second cast leaves
/// the ledger exactly as the first did, and reports the same count of
/// affected rows. Exactly one row with that direction persists.
pub proof fn lemma_cast_idempotent(sv: StoreView, v: VoteView)
    requires
        inv(sv),
    ensures
        ({
            let s1 = cast_model(sv, v).0;
            cast_model(s1, v).0 == s1 && cast_model(s1, v).1 == cast_model(sv, v).1
        }),
{
    lemma_cast_last_write_wins(sv, v, v);
}

/// Rows with different keys are independent: a cast touches no row
/// other than the one bearing its own (identity, item, revision) key.
/// A row with any other key — in particular the same item at another
/// revision — exists afterwards exactly when it existed before, at the
/// same position and unchanged.
pub proof fn lemma_cast_isolates_other_rows(
    sv: StoreView,
    v: VoteView,
    uid2: u64,
    snap2: Seq<char>,
    rev2: u32,
)
    requires
        inv(sv),
        !(user_id_of(sv.users, v.client_hash) == Some(uid2) && v.snap_id == snap2
            && v.snap_revision == rev2),
    ensures
        ({
            let s1 = cast_model(sv, v).0;
            &&& has_row(s1.votes, uid2, snap2, rev2) == has_row(sv.votes, uid2, snap2, rev2)
            &&& has_row(sv.votes, uid2, snap2, rev2) ==> row_index_of(s1.votes, uid2, snap2, rev2)
                == row_index_of(sv.votes, uid2, snap2, rev2) && s1.votes[row_index_of(
                sv.votes,
                uid2,
                snap2,
                rev2,
            )] == sv.votes[row_index_of(sv.votes, uid2, snap2, rev2)]
        }),
{
    lemma_cast_preserves_inv(sv, v);
    let s1 = cast_model(sv, v).0;
    match user_id_of(sv.users, v.client_hash) {
        None => {},
        Some(uid) => {
            assert(!(uid == uid2 && v.snap_id == snap2 && v.snap_revision == rev2));
            if has_row(sv.votes, uid, v.snap_id, v.snap_revision) {
                let j = row_index_of(sv.votes, uid, v.snap_id, v.snap_revision);
                assert(0 <= j < sv.votes.len() && row_keyed(sv.votes[j], uid, v.snap_id,
                v.snap_revision));
                assert(s1.votes == sv.votes.update(
                    j,
                    RowView { vote_up: v.vote_up, ..sv.votes[j] },
                ));
                assert(!row_keyed(s1.votes[j], uid2, snap2, rev2));
                if has_row(sv.votes, uid2, snap2, rev2) {
                    let w = row_index_of(sv.votes, uid2, snap2, rev2);
                    assert(0 <= w < sv.votes.len() && row_keyed(sv.votes[w], uid2, snap2, rev2));
                    assert(w != j);
                    assert(s1.votes[w] == sv.votes[w]);
                    assert(has_row(s1.votes, uid2, snap2, rev2));
                    let w2 = row_index_of(s1.votes, uid2, snap2, rev2);
                    assert(0 <= w2 < s1.votes.len() && row_keyed(s1.votes[w2], uid2, snap2, rev2));
                    if w2 != w {
                        if w2 < w {
                            assert(!same_key(s1.votes[w2], s1.votes[w]));
                        } else {
                            assert(!same_key(s1.votes[w], s1.votes[w2]));
                        }
                        assert(false);
                    }
                } else {
                    if has_row(s1.votes, uid2, snap2, rev2) {
                        let w = choose|k: int|
                            0 <= k < s1.votes.len() && row_keyed(#[trigger] s1.votes[k], uid2,
                            snap2, rev2);
                        assert(w != j);
                        assert(row_keyed(sv.votes[w], uid2, snap2, rev2));
                        assert(has_row(sv.votes, uid2, snap2, rev2));
                    }
                }
            } else {
                let n = sv.votes.len() as int;
                assert(s1.votes == sv.votes.push(
                    RowView {
                        user_id: uid,
                        snap_id: v.snap_id,
                        snap_revision: v.snap_revision,
                        vote_up: v.vote_up,
                        timestamp: sv.now,
                    },
                ));
                assert(!row_keyed(s1.votes[n], uid2, snap2, rev2));
                if has_row(sv.votes, uid2, snap2, rev2) {
                    let w = row_index_of(sv.votes, uid2, snap2, rev2);
                    assert(0 <= w < sv.votes.len() && row_keyed(sv.votes[w], uid2, snap2, rev2));
                    assert(s1.votes[w] == sv.votes[w]);
                    assert(has_row(s1.votes, uid2, snap2, rev2));
                    let w2 = row_index_of(s1.votes, uid2, snap2, rev2);
                    assert(0 <= w2 < s1.votes.len() && row_keyed(s1.votes[w2], uid2, snap2, rev2));
                    if w2 != w {
                        if w2 < w {
                            assert(!same_key(s1.votes[w2], s1.votes[w]));
                        } else {
                            assert(!same_key(s1.votes[w], s1.votes[w2]));
                        }
                        assert(false);
                    }
                } else {
                    if has_row(s1.votes, uid2, snap2, rev2) {
                        let w = choose|k: int|
                            0 <= k < s1.votes.len() && row_keyed(#[trigger] s1.votes[k], uid2,
                            snap2, rev2);
                        assert(w != n);
                        assert(row_keyed(sv.votes[w], uid2, snap2, rev2));
                        assert(has_row(sv.votes, uid2, snap2, rev2));
                    }
                }
            }
        },
    }
}

/// With an item filter, a listing is exactly the unfiltered listing
/// restricted to that item.
pub proof fn lemma_filter_is_restriction(sv: StoreView, h: Seq<char>, s: Seq<char>)
    ensures
        votes_for(sv, h, Some(s)) == restrict_item(votes_for(sv, h, None), s),
{
    match user_id_of(sv.users, h) {
        None => {
            assert(restrict_item(Seq::<VoteView>::empty(), s) =~= Seq::<VoteView>::empty());
        },
        Some(uid) => {
            lemma_listed_restrict(sv.votes, uid, s, h);
        },
    }
}

/// Every entry of the unfiltered listing for a client appears in the
/// listing filtered to that entry's own item. Together with
/// [`lemma_filter_is_restriction`] this says the unfiltered listing is
/// the union of the per-item listings for the items the client voted
/// on.
pub proof fn lemma_entry_listed_under_its_item(sv: StoreView, h: Seq<char>, i: int)
    requires
        0 <= i < votes_for(sv, h, None).len(),
    ensures
        votes_for(sv, h, Some(votes_for(sv, h, None)[i].snap_id)).contains(
            votes_for(sv, h, None)[i],
        ),
{
    broadcast use Seq::lemma_filter_contains;

    let all = votes_for(sv, h, None);
    let x = all[i];
    lemma_filter_is_restriction(sv, h, x.snap_id);
    assert(restrict_item(all, x.snap_id).contains(all[i]));
}

/// Restricting a listing to one item commutes with building the
/// listing row by row.
proof fn lemma_listed_restrict(votes: Seq<RowView>, uid: u64, s: Seq<char>, h: Seq<char>)
    ensures
        listed(votes, uid, Some(s), h) == restrict_item(listed(votes, uid, None, h), s),
    decreases votes.len(),
{
    broadcast use Seq::lemma_filter_push;
    broadcast use Seq::lemma_push_map_commute;

    if votes.len() == 0 {
        assert(listed(votes, uid, Some(s), h) =~= Seq::<VoteView>::empty());
        assert(listed(votes, uid, None, h) =~= Seq::<VoteView>::empty());
        assert(restrict_item(Seq::<VoteView>::empty(), s) =~= Seq::<VoteView>::empty());
    } else {
        let prefix = votes.drop_last();
        let last = votes.last();
        lemma_listed_restrict(prefix, uid, s, h);
        assert(votes =~= prefix.push(last));
        let vo = vote_of(last, h);
        assert(vo.snap_id == last.snap_id);
        if last.user_id == uid {
            assert(listed(votes, uid, None, h) == listed(prefix, uid, None, h).push(vo));
            assert(restrict_item(listed(prefix, uid, None, h).push(vo), s) == if vo.snap_id == s {
                restrict_item(listed(prefix, uid, None, h), s).push(vo)
            } else {
                restrict_item(listed(prefix, uid, None, h), s)
            });
            if last.snap_id == s {
                assert(listed(votes, uid, Some(s), h) == listed(prefix, uid, Some(s), h).push(vo));
            } else {
                assert(listed(votes, uid, Some(s), h) == listed(prefix, uid, Some(s), h));
            }
        } else {
            assert(listed(votes, uid, None, h) == listed(prefix, uid, None, h));
            assert(listed(votes, uid, Some(s), h) == listed(prefix, uid, Some(s), h));
        }
    }
}

} // verus!
