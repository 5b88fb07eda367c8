//! Mathematical model of the ledger state.
//!
//! The ledger mirrors a two-table relational schema: a `users` table
//! mapping each opaque client hash to an internal numeric identity, and
//! a `votes` table holding one row per (identity, item, revision)
//! triple. The model describes both tables as sequences of rows, the
//! identity lookup as a partial function from hash to identity, and the
//! two operations — casting a vote and listing votes — as functions of
//! the whole state.

use vstd::prelude::*;

verus! {

/// One row of the identity table: an internal numeric identity paired
/// with the opaque client hash that the public surface uses.
#[verifier::ext_equal]
pub ghost struct UserView {
    pub id: u64,
    pub client_hash: Seq<char>,
}

/// One row of the vote table, scoped to an internal identity.
#[verifier::ext_equal]
pub ghost struct RowView {
    pub user_id: u64,
    pub snap_id: Seq<char>,
    pub snap_revision: u32,
    pub vote_up: bool,
    pub timestamp: i64,
}

/// One vote as the public surface reports it: the internal identity is
/// replaced by the client hash it resolves from.
#[verifier::ext_equal]
pub ghost struct VoteView {
    pub client_hash: Seq<char>,
    pub snap_id: Seq<char>,
    pub snap_revision: u32,
    pub vote_up: bool,
    pub timestamp: i64,
}

/// The whole ledger state: both tables, the next free internal
/// identity, and the storage clock that stamps newly created rows.
#[verifier::ext_equal]
pub ghost struct StoreView {
    pub users: Seq<UserView>,
    pub votes: Seq<RowView>,
    pub next_id: u64,
    pub now: i64,
}

/// Whether some registered client bears the hash `h`.
pub open spec fn registered(users: Seq<UserView>, h: Seq<char>) -> bool {
    exists|i: int| 0 <= i < users.len() && (#[trigger] users[i]).client_hash == h
}

/// The internal identity that the hash `h` resolves to, if any.
///
/// Under the ledger invariant hashes are unique, so the choice below is
/// determined whenever it is made.
pub open spec fn user_id_of(users: Seq<UserView>, h: Seq<char>) -> Option<u64> {
    if registered(users, h) {
        let i = choose|i: int| 0 <= i < users.len() && (#[trigger] users[i]).client_hash == h;
        Some(users[i].id)
    } else {
        None
    }
}

/// Whether two vote rows share the (identity, item, revision) key that
/// the schema keeps unique.
pub open spec fn same_key(a: RowView, b: RowView) -> bool {
    a.user_id == b.user_id && a.snap_id == b.snap_id && a.snap_revision == b.snap_revision
}

/// Whether the row `r` bears exactly the given key.
pub open spec fn row_keyed(r: RowView, uid: u64, snap: Seq<char>, rev: u32) -> bool {
    r.user_id == uid && r.snap_id == snap && r.snap_revision == rev
}

/// Whether some vote row bears the given key.
pub open spec fn has_row(votes: Seq<RowView>, uid: u64, snap: Seq<char>, rev: u32) -> bool {
    exists|i: int| 0 <= i < votes.len() && row_keyed(#[trigger] votes[i], uid, snap, rev)
}

/// The index of the vote row bearing the given key.
///
/// Meaningful only when `has_row` holds; under the ledger invariant
/// that index is unique.
pub open spec fn row_index_of(votes: Seq<RowView>, uid: u64, snap: Seq<char>, rev: u32) -> int {
    choose|i: int| 0 <= i < votes.len() && row_keyed(#[trigger] votes[i], uid, snap, rev)
}

/// Whether some registered client bears the internal identity `id`.
pub open spec fn id_registered(users: Seq<UserView>, id: u64) -> bool {
    exists|u: int| 0 <= u < users.len() && (#[trigger] users[u]).id == id
}

/// The identity table is well formed: client hashes and internal
/// identities are unique, and identities stay below the next free one.
pub open spec fn users_ok(users: Seq<UserView>, next_id: u64) -> bool {
    &&& forall|i: int, j: int|
        0 <= i < j < users.len()
            ==> (#[trigger] users[i]).client_hash != (#[trigger] users[j]).client_hash
    &&& forall|i: int, j: int|
        0 <= i < j < users.len() ==> (#[trigger] users[i]).id != (#[trigger] users[j]).id
    &&& forall|i: int| 0 <= i < users.len() ==> (#[trigger] users[i]).id < next_id
}

/// The vote table is well formed: at most one row exists per
/// (identity, item, revision) key, and every row refers to a
/// registered identity.
pub open spec fn votes_ok(users: Seq<UserView>, votes: Seq<RowView>) -> bool {
    &&& forall|i: int, j: int|
        0 <= i < j < votes.len() ==> !same_key(#[trigger] votes[i], #[trigger] votes[j])
    &&& forall|i: int|
        0 <= i < votes.len() ==> id_registered(users, (#[trigger] votes[i]).user_id)
}

/// The ledger invariant.
pub open spec fn inv(sv: StoreView) -> bool {
    users_ok(sv.users, sv.next_id) && votes_ok(sv.users, sv.votes)
}

/// The invariant reads only the two tables and the next free
/// identity; moving the storage clock cannot disturb it.
pub proof fn lemma_inv_ignores_clock(a: StoreView, b: StoreView)
    requires
        inv(a),
        b.users == a.users,
        b.votes == a.votes,
        b.next_id == a.next_id,
    ensures
        inv(b),
{
}

/// Recording a fresh hash under the next free identity preserves the
/// ledger invariant.
pub proof fn lemma_register_preserves_inv(sv: StoreView, h: Seq<char>)
    requires
        inv(sv),
        sv.next_id < u64::MAX,
        user_id_of(sv.users, h) is None,
    ensures
        inv(
            StoreView {
                users: sv.users.push(UserView { id: sv.next_id, client_hash: h }),
                next_id: (sv.next_id + 1) as u64,
                ..sv
            },
        ),
{
    let added = UserView { id: sv.next_id, client_hash: h };
    let nu = sv.users.push(added);
    let n = sv.users.len() as int;
    assert forall|k: int| 0 <= k < n implies (#[trigger] sv.users[k]).client_hash != h by {
        if sv.users[k].client_hash == h {
            assert(registered(sv.users, h));
        }
    }
    assert forall|i: int, j: int| 0 <= i < j < nu.len() implies (#[trigger] nu[i]).client_hash
        != (#[trigger] nu[j]).client_hash by {
        if j < n {
            assert(sv.users[i].client_hash != sv.users[j].client_hash);
        } else {
            assert(nu[j] == added);
            assert(sv.users[i].client_hash != h);
        }
    }
    assert forall|i: int, j: int| 0 <= i < j < nu.len() implies (#[trigger] nu[i]).id != (
    #[trigger] nu[j]).id by {
        if j < n {
            assert(sv.users[i].id != sv.users[j].id);
        } else {
            assert(sv.users[i].id < sv.next_id);
        }
    }
    assert forall|i: int| 0 <= i < sv.votes.len() implies id_registered(
        nu,
        (#[trigger] sv.votes[i]).user_id,
    ) by {
        assert(id_registered(sv.users, sv.votes[i].user_id));
        let u = choose|u: int|
            0 <= u < sv.users.len() && (#[trigger] sv.users[u]).id == sv.votes[i].user_id;
        assert((#[trigger] nu[u]).id == sv.votes[i].user_id);
    }
}

/// Casting a vote: resolve the hash; if no identity bears it, the state
/// is unchanged and zero rows are affected. Otherwise, if a row with
/// the (identity, item, revision) key exists, only its direction is
/// overwritten; if none exists, a fresh row stamped with the storage
/// clock is appended. Either write affects exactly one row. The
/// timestamp carried by the cast vote itself is ignored: storage
/// assigns it.
pub open spec fn cast_model(sv: StoreView, v: VoteView) -> (StoreView, u64) {
    match user_id_of(sv.users, v.client_hash) {
        None => (sv, 0),
        Some(uid) => {
            if has_row(sv.votes, uid, v.snap_id, v.snap_revision) {
                let j = row_index_of(sv.votes, uid, v.snap_id, v.snap_revision);
                let updated = RowView { vote_up: v.vote_up, ..sv.votes[j] };
                (StoreView { votes: sv.votes.update(j, updated), ..sv }, 1)
            } else {
                let fresh = RowView {
                    user_id: uid,
                    snap_id: v.snap_id,
                    snap_revision: v.snap_revision,
                    vote_up: v.vote_up,
                    timestamp: sv.now,
                };
                (StoreView { votes: sv.votes.push(fresh), ..sv }, 1)
            }
        },
    }
}

/// Casting a vote preserves the ledger invariant.
pub proof fn lemma_cast_preserves_inv(sv: StoreView, v: VoteView)
    requires
        inv(sv),
    ensures
        inv(cast_model(sv, v).0),
{
    match user_id_of(sv.users, v.client_hash) {
        None => {},
        Some(uid) => {
            let w = choose|i: int|
                0 <= i < sv.users.len() && (#[trigger] sv.users[i]).client_hash == v.client_hash;
            assert(sv.users[w].id == uid);
            assert(id_registered(sv.users, uid));
            if has_row(sv.votes, uid, v.snap_id, v.snap_revision) {
                let j = row_index_of(sv.votes, uid, v.snap_id, v.snap_revision);
                assert(0 <= j < sv.votes.len() && row_keyed(sv.votes[j], uid, v.snap_id,
                v.snap_revision));
                let nv = sv.votes.update(j, RowView { vote_up: v.vote_up, ..sv.votes[j] });
                assert forall|a: int, b: int| 0 <= a < b < nv.len() implies !same_key(
                    #[trigger] nv[a],
                    #[trigger] nv[b],
                ) by {
                    assert(nv[a].user_id == sv.votes[a].user_id && nv[a].snap_id
                        == sv.votes[a].snap_id && nv[a].snap_revision == sv.votes[a].snap_revision);
                    assert(nv[b].user_id == sv.votes[b].user_id && nv[b].snap_id
                        == sv.votes[b].snap_id && nv[b].snap_revision == sv.votes[b].snap_revision);
                    assert(!same_key(sv.votes[a], sv.votes[b]));
                }
                assert forall|a: int| 0 <= a < nv.len() implies id_registered(
                    sv.users,
                    (#[trigger] nv[a]).user_id,
                ) by {
                    assert(nv[a].user_id == sv.votes[a].user_id);
                    assert(id_registered(sv.users, sv.votes[a].user_id));
                }
            } else {
                let fresh = RowView {
                    user_id: uid,
                    snap_id: v.snap_id,
                    snap_revision: v.snap_revision,
                    vote_up: v.vote_up,
                    timestamp: sv.now,
                };
                let nv = sv.votes.push(fresh);
                let n = sv.votes.len() as int;
                assert forall|k: int| 0 <= k < n implies !row_keyed(
                    #[trigger] sv.votes[k],
                    uid,
                    v.snap_id,
                    v.snap_revision,
                ) by {
                    if row_keyed(sv.votes[k], uid, v.snap_id, v.snap_revision) {
                        assert(has_row(sv.votes, uid, v.snap_id, v.snap_revision));
                    }
                }
                assert forall|a: int, b: int| 0 <= a < b < nv.len() implies !same_key(
                    #[trigger] nv[a],
                    #[trigger] nv[b],
                ) by {
                    if b < n {
                        assert(!same_key(sv.votes[a], sv.votes[b]));
                    } else {
                        assert(nv[b] == fresh);
                        assert(!row_keyed(sv.votes[a], uid, v.snap_id, v.snap_revision));
                    }
                }
                assert forall|a: int| 0 <= a < nv.len() implies id_registered(
                    sv.users,
                    (#[trigger] nv[a]).user_id,
                ) by {
                    if a < n {
                        assert(id_registered(sv.users, sv.votes[a].user_id));
                        assert(nv[a].user_id == sv.votes[a].user_id);
                    } else {
                        assert(nv[a] == fresh);
                    }
                }
            }
        },
    }
}

/// Whether a vote row belongs to the identity `uid` and passes the
/// optional item filter.
pub open spec fn row_selected(r: RowView, uid: u64, filt: Option<Seq<char>>) -> bool {
    r.user_id == uid && match filt {
        None => true,
        Some(s) => r.snap_id == s,
    }
}

/// The vote row `r` as reported for the client bearing hash `h`.
pub open spec fn vote_of(r: RowView, h: Seq<char>) -> VoteView {
    VoteView {
        client_hash: h,
        snap_id: r.snap_id,
        snap_revision: r.snap_revision,
        vote_up: r.vote_up,
        timestamp: r.timestamp,
    }
}

/// The vote rows of the identity `uid` that pass the optional item
/// filter, in table order.
pub open spec fn selected_rows(votes: Seq<RowView>, uid: u64, filt: Option<Seq<char>>) -> Seq<
    RowView,
> {
    votes.filter(|r: RowView| row_selected(r, uid, filt))
}

/// The listing that a query over the vote rows reports for the client
/// bearing hash `h`: the selected rows, each carrying that hash.
pub open spec fn listed(
    votes: Seq<RowView>,
    uid: u64,
    filt: Option<Seq<char>>,
    h: Seq<char>,
) -> Seq<VoteView> {
    selected_rows(votes, uid, filt).map_values(|r: RowView| vote_of(r, h))
}

/// The entries of a listing that concern the item `s`, in order.
pub open spec fn restrict_item(vs: Seq<VoteView>, s: Seq<char>) -> Seq<VoteView> {
    vs.filter(|x: VoteView| x.snap_id == s)
}

/// Listing votes: resolve the hash; an unknown hash yields the empty
/// sequence, not an error. Otherwise the result holds, in table order,
/// every vote row of that identity that passes the optional item
/// filter.
pub open spec fn votes_for(sv: StoreView, h: Seq<char>, filt: Option<Seq<char>>) -> Seq<
    VoteView,
> {
    match user_id_of(sv.users, h) {
        None => Seq::empty(),
        Some(uid) => listed(sv.votes, uid, filt, h),
    }
}

/// Extending the prefix of rows under consideration by one row
/// extends the listing by that row exactly when the row is selected.
pub proof fn lemma_listed_step(
    votes: Seq<RowView>,
    uid: u64,
    filt: Option<Seq<char>>,
    h: Seq<char>,
    i: int,
)
    requires
        0 <= i < votes.len(),
    ensures
        listed(votes.take(i + 1), uid, filt, h) == if row_selected(votes[i], uid, filt) {
            listed(votes.take(i), uid, filt, h).push(vote_of(votes[i], h))
        } else {
            listed(votes.take(i), uid, filt, h)
        },
{
    broadcast use Seq::lemma_take_succ_push;
    broadcast use Seq::lemma_filter_push;
    broadcast use Seq::lemma_push_map_commute;

    assert(votes.take(i + 1) == votes.take(i).push(votes[i]));
}

} // verus!
