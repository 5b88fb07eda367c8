//! The executable ledger and its operations.
//!
//! `VoteStore` holds the two tables of the schema. The registration
//! subsystem owns the identity table; the transition that fills it is
//! mirrored here so the ledger's behaviour can be stated against a
//! complete state. Every operation is specified against the model in
//! [`crate::model`].

use crate::model::{
    cast_model, has_row, inv, listed, registered, row_index_of, row_keyed, row_selected,
    same_key, user_id_of, vote_of, votes_for, RowView, StoreView, UserView, VoteView,
};
use vstd::prelude::*;

verus! {

/// Why a ledger operation failed.
///
/// The ledger itself is total: its verified operations always succeed.
/// The variants exist for the storage boundary around the library,
/// which maps a failed statement on the write path to
/// `FailedToCastVote` and one on the read path to
/// `FailedToGetUserVote`.
#[derive(Debug, Clone, Copy, PartialEq, Eq)]
pub enum DbError {
    FailedToCastVote,
    FailedToGetUserVote,
}

/// The views of a sequence of votes, in order.
pub open spec fn views_of(votes: Seq<Vote>) -> Seq<VoteView> {
    votes.map_values(|v: Vote| v@)
}

/// The optional item filter, as the model sees it.
pub open spec fn opt_view(o: Option<&String>) -> Option<Seq<char>> {
    match o {
        None => None,
        Some(s) => Some(s@),
    }
}

/// A vote, as submitted by a client.
#[derive(Debug, Clone, PartialEq, Eq)]
pub struct Vote {
    /// The opaque hash identifying the voting client.
    pub client_hash: String,
    /// The item ("snap") being voted on.
    pub snap_id: String,
    /// The revision of the item being voted on.
    pub snap_revision: u32,
    /// Whether this is a positive or negative vote.
    pub vote_up: bool,
    /// When the vote was recorded, as assigned by storage.
    pub timestamp: i64,
}

impl View for Vote {
    type V = VoteView;

    open spec fn view(&self) -> VoteView {
        VoteView {
            client_hash: self.client_hash@,
            snap_id: self.snap_id@,
            snap_revision: self.snap_revision,
            vote_up: self.vote_up,
            timestamp: self.timestamp,
        }
    }
}

impl Vote {
    /// Casts this vote into the ledger.
    ///
    /// The client hash is resolved to an internal identity; an unknown
    /// hash leaves the ledger untouched and reports zero affected
    /// rows. Otherwise exactly one row is affected: an existing row
    /// for the (identity, item, revision) triple has only its
    /// direction overwritten, and a missing one is created, stamped
    /// with the storage clock. Repeating an identical cast therefore
    /// leaves exactly one row behind.
    ///
    /// Reporting the unknown client as a zero count rather than as a
    /// distinct error kind is deliberate: the write path signals
    /// "nothing was written" only through the count.
    pub fn save_to_db(self, store: &mut VoteStore) -> (r: Result<u64, DbError>)
        requires
            old(store).wf(),
        ensures
            final(store).wf(),
            r is Ok,
            ({
                let (sv, n) = cast_model(old(store)@, self@);
                final(store)@ == sv && r == Ok::<u64, DbError>(n)
            }),
    {
        proof {
            crate::model::lemma_cast_preserves_inv(old(store)@, self@);
        }
        let uid_opt = store.lookup_user(&self.client_hash);
        match uid_opt {
            None => Ok(0),
            Some(uid) => {
                let found = store.find_row(uid, &self.snap_id, self.snap_revision);
                match found {
                    Some(i) => {
                        let ghost prev = store@;
                        let ghost oldvec = store.votes@;
                        let ghost j = i as int;
                        let mut row = store.votes.remove(i);
                        row.vote_up = self.vote_up;
                        store.votes.insert(i, row);
                        proof {
                            let updated = RowView { vote_up: self@.vote_up, ..prev.votes[j] };
                            assert(store.votes@ =~= oldvec.update(j, store.votes@[j]));
                            assert(store.votes@[j]@ == updated);
                            assert(store@.votes =~= prev.votes.update(j, updated));
                            assert(store@ =~= (StoreView {
                                votes: prev.votes.update(j, updated),
                                ..prev
                            }));
                        }
                        Ok(1)
                    },
                    None => {
                        let ghost prev = store@;
                        let now = store.now;
                        let row = VoteRow {
                            user_id: uid,
                            snap_id: self.snap_id,
                            snap_revision: self.snap_revision,
                            vote_up: self.vote_up,
                            timestamp: now,
                        };
                        store.votes.push(row);
                        proof {
                            let fresh = RowView {
                                user_id: uid,
                                snap_id: self@.snap_id,
                                snap_revision: self@.snap_revision,
                                vote_up: self@.vote_up,
                                timestamp: prev.now,
                            };
                            assert(store@.votes =~= prev.votes.push(fresh));
                            assert(store@ =~= (StoreView { votes: prev.votes.push(fresh), ..prev }));
                        }
                        Ok(1)
                    },
                }
            },
        }
    }

    /// Lists every vote the client bearing `client_hash` has cast on
    /// the item `snap_id`, in table order.
    ///
    /// An unmatched hash or item yields an empty listing, not an
    /// error; under the ledger invariant at most one vote per revision
    /// appears. The verified ledger is total, so the operation always
    /// succeeds; the error variant belongs to the storage boundary
    /// around the library.
    pub fn get_all_by_client_hash_and_snap_id(
        snap_id: String,
        client_hash: String,
        store: &VoteStore,
    ) -> (r: Result<Vec<Vote>, DbError>)
        requires
            store.wf(),
        ensures
            r is Ok,
            views_of(r.unwrap()@) == votes_for(store@, client_hash@, Some(snap_id@)),
    {
        Ok(store.collect_votes(&client_hash, Some(&snap_id)))
    }

    /// Lists votes cast by the client bearing `client_hash`: every
    /// vote across all items when `snap_id_filter` is absent, only
    /// those on the given item when it is present. The same join,
    /// ordering and failure behaviour as
    /// [`Vote::get_all_by_client_hash_and_snap_id`], which this
    /// operation strictly generalizes.
    pub fn get_all_by_user(
        client_hash: String,
        snap_id_filter: Option<String>,
        store: &VoteStore,
    ) -> (r: Result<Vec<Vote>, DbError>)
        requires
            store.wf(),
        ensures
            r is Ok,
            views_of(r.unwrap()@) == votes_for(
                store@,
                client_hash@,
                match snap_id_filter {
                    None => None,
                    Some(s) => Some(s@),
                },
            ),
    {
        match snap_id_filter {
            None => Ok(store.collect_votes(&client_hash, None)),
            Some(s) => Ok(store.collect_votes(&client_hash, Some(&s))),
        }
    }
}

/// One row of the identity table.
struct UserRow {
    id: u64,
    client_hash: String,
}

impl View for UserRow {
    type V = UserView;

    closed spec fn view(&self) -> UserView {
        UserView { id: self.id, client_hash: self.client_hash@ }
    }
}

/// One row of the vote table.
struct VoteRow {
    user_id: u64,
    snap_id: String,
    snap_revision: u32,
    vote_up: bool,
    timestamp: i64,
}

impl View for VoteRow {
    type V = RowView;

    closed spec fn view(&self) -> RowView {
        RowView {
            user_id: self.user_id,
            snap_id: self.snap_id@,
            snap_revision: self.snap_revision,
            vote_up: self.vote_up,
            timestamp: self.timestamp,
        }
    }
}

/// The ledger state: the identity table, the vote table, the next free
/// internal identity, and the storage clock.
pub struct VoteStore {
    users: Vec<UserRow>,
    votes: Vec<VoteRow>,
    next_id: u64,
    now: i64,
}

impl View for VoteStore {
    type V = StoreView;

    closed spec fn view(&self) -> StoreView {
        StoreView {
            users: self.users@.map_values(|u: UserRow| u@),
            votes: self.votes@.map_values(|r: VoteRow| r@),
            next_id: self.next_id,
            now: self.now,
        }
    }
}

impl VoteStore {
    /// The ledger invariant, stated over the model state.
    pub open spec fn wf(&self) -> bool {
        inv(self@)
    }

    /// An empty ledger: no identities, no votes, clock at zero.
    pub fn new() -> (s: Self)
        ensures
            s.wf(),
            s@ == (StoreView {
                users: Seq::<UserView>::empty(),
                votes: Seq::<RowView>::empty(),
                next_id: 0,
                now: 0,
            }),
    {
        let s = VoteStore { users: Vec::new(), votes: Vec::new(), next_id: 0, now: 0 };
        proof {
            assert(s@.users =~= Seq::<UserView>::empty());
            assert(s@.votes =~= Seq::<RowView>::empty());
        }
        s
    }

    /// Resolves an opaque client hash to the internal identity that
    /// bears it, scanning the identity table.
    fn lookup_user(&self, h: &String) -> (r: Option<u64>)
        requires
            self.wf(),
        ensures
            r == user_id_of(self@.users, h@),
    {
        let ghost users = self@.users;
        let mut i: usize = 0;
        while i < self.users.len()
            invariant
                self.wf(),
                users == self@.users,
                0 <= i <= self.users.len(),
                users.len() == self.users.len(),
                forall|j: int| 0 <= j < i ==> (#[trigger] users[j]).client_hash != h@,
            decreases self.users.len() - i,
        {
            if self.users[i].client_hash == *h {
                proof {
                    assert(users[i as int].client_hash == h@);
                    assert(registered(users, h@));
                    let w = choose|k: int|
                        0 <= k < users.len() && (#[trigger] users[k]).client_hash == h@;
                    if w < i as int {
                        assert(users[w].client_hash != users[i as int].client_hash);
                    } else if w > i as int {
                        assert(users[i as int].client_hash != users[w].client_hash);
                    }
                    assert(user_id_of(users, h@) == Some(users[i as int].id));
                }
                return Some(self.users[i].id);
            }
            i += 1;
        }
        proof {
            if registered(users, h@) {
                let w = choose|k: int|
                    0 <= k < users.len() && (#[trigger] users[k]).client_hash == h@;
                assert(users[w].client_hash != h@);
            }
        }
        None
    }

    /// Finds the vote row bearing the (identity, item, revision) key,
    /// if one exists; under the ledger invariant there is at most one.
    fn find_row(&self, uid: u64, snap_id: &String, rev: u32) -> (r: Option<usize>)
        requires
            self.wf(),
        ensures
            match r {
                Some(i) => {
                    &&& 0 <= i < self@.votes.len()
                    &&& row_keyed(self@.votes[i as int], uid, snap_id@, rev)
                    &&& has_row(self@.votes, uid, snap_id@, rev)
                    &&& row_index_of(self@.votes, uid, snap_id@, rev) == i as int
                },
                None => !has_row(self@.votes, uid, snap_id@, rev),
            },
    {
        let ghost rows = self@.votes;
        let mut i: usize = 0;
        while i < self.votes.len()
            invariant
                self.wf(),
                rows == self@.votes,
                0 <= i <= self.votes.len(),
                rows.len() == self.votes.len(),
                forall|j: int| 0 <= j < i ==> !row_keyed(#[trigger] rows[j], uid, snap_id@, rev),
            decreases self.votes.len() - i,
        {
            let row = &self.votes[i];
            if row.user_id == uid && row.snap_id == *snap_id && row.snap_revision == rev {
                proof {
                    assert(row_keyed(rows[i as int], uid, snap_id@, rev));
                    assert(has_row(rows, uid, snap_id@, rev));
                    let w = choose|k: int|
                        0 <= k < rows.len() && row_keyed(#[trigger] rows[k], uid, snap_id@, rev);
                    if w < i as int {
                        assert(!same_key(rows[w], rows[i as int]));
                    } else if w > i as int {
                        assert(!same_key(rows[i as int], rows[w]));
                    }
                    assert(row_index_of(rows, uid, snap_id@, rev) == i as int);
                }
                return Some(i);
            }
            i += 1;
        }
        proof {
            if has_row(rows, uid, snap_id@, rev) {
                let w = choose|k: int|
                    0 <= k < rows.len() && row_keyed(#[trigger] rows[k], uid, snap_id@, rev);
                assert(!row_keyed(rows[w], uid, snap_id@, rev));
            }
        }
        None
    }

    /// Runs the one parameterized query that both listing operations
    /// share: resolve the hash, then collect, in table order, the
    /// votes of that identity that pass the optional item filter.
    fn collect_votes(&self, client_hash: &String, snap_filter: Option<&String>) -> (r: Vec<Vote>)
        requires
            self.wf(),
        ensures
            views_of(r@) == votes_for(self@, client_hash@, opt_view(snap_filter)),
    {
        let ghost hv = client_hash@;
        let ghost fview = opt_view(snap_filter);
        let uid_opt = self.lookup_user(client_hash);
        let mut out: Vec<Vote> = Vec::new();
        match uid_opt {
            None => {
                proof {
                    assert(views_of(out@) =~= Seq::<VoteView>::empty());
                }
                out
            },
            Some(uid) => {
                let ghost rows = self@.votes;
                proof {
                    assert(rows.take(0).filter(
                        |r: RowView| row_selected(r, uid, fview),
                    ) =~= Seq::<RowView>::empty());
                    assert(views_of(out@) =~= listed(rows.take(0), uid, fview, hv));
                }
                let mut i: usize = 0;
                while i < self.votes.len()
                    invariant
                        self.wf(),
                        rows == self@.votes,
                        rows.len() == self.votes.len(),
                        0 <= i <= self.votes.len(),
                        user_id_of(self@.users, hv) == Some(uid),
                        hv == client_hash@,
                        fview == opt_view(snap_filter),
                        views_of(out@) == listed(rows.take(i as int), uid, fview, hv),
                    decreases self.votes.len() - i,
                {
                    let row = &self.votes[i];
                    let keep = row.user_id == uid && (match snap_filter {
                        None => true,
                        Some(s) => row.snap_id == *s,
                    });
                    proof {
                        crate::model::lemma_listed_step(rows, uid, fview, hv, i as int);
                        assert(keep == row_selected(rows[i as int], uid, fview));
                    }
                    if keep {
                        let ghost prevout = out@;
                        let picked = Vote {
                            client_hash: client_hash.clone(),
                            snap_id: row.snap_id.clone(),
                            snap_revision: row.snap_revision,
                            vote_up: row.vote_up,
                            timestamp: row.timestamp,
                        };
                        let ghost pv = picked@;
                        out.push(picked);
                        proof {
                            assert(pv =~= vote_of(rows[i as int], hv));
                            assert(views_of(out@) =~= views_of(prevout).push(pv));
                        }
                    }
                    i += 1;
                }
                proof {
                    assert(rows.take(rows.len() as int) =~= rows);
                }
                out
            },
        }
    }

    /// Mirrors the external registration subsystem filling the
    /// identity table: an unknown hash is recorded under the next free
    /// internal identity; a hash already registered changes nothing.
    /// Either way the identity now bearing the hash is returned.
    pub fn register_client(&mut self, client_hash: String) -> (r: u64)
        requires
            old(self).wf(),
            old(self)@.next_id < u64::MAX,
        ensures
            final(self).wf(),
            match user_id_of(old(self)@.users, client_hash@) {
                Some(id) => final(self)@ == old(self)@ && r == id,
                None => {
                    &&& final(self)@ == (StoreView {
                        users: old(self)@.users.push(
                            UserView { id: old(self)@.next_id, client_hash: client_hash@ },
                        ),
                        next_id: (old(self)@.next_id + 1) as u64,
                        ..old(self)@
                    })
                    &&& r == old(self)@.next_id
                },
            },
    {
        let existing = self.lookup_user(&client_hash);
        match existing {
            Some(id) => id,
            None => {
                let ghost prev = self@;
                let id = self.next_id;
                let ghost hv = client_hash@;
                self.users.push(UserRow { id, client_hash });
                self.next_id = id + 1;
                proof {
                    let added = UserView { id: prev.next_id, client_hash: hv };
                    assert(self@.users =~= prev.users.push(added));
                    assert(self@ =~= (StoreView {
                        users: prev.users.push(added),
                        next_id: (prev.next_id + 1) as u64,
                        ..prev
                    }));
                    crate::model::lemma_register_preserves_inv(prev, hv);
                }
                id
            },
        }
    }

    /// Moves the storage clock to `t`. Rows created from now on are
    /// stamped with it; nothing already recorded changes.
    pub fn set_now(&mut self, t: i64)
        requires
            old(self).wf(),
        ensures
            final(self).wf(),
            final(self)@ == (StoreView { now: t, ..old(self)@ }),
    {
        self.now = t;
        proof {
            crate::model::lemma_inv_ignores_clock(old(self)@, self@);
        }
    }
}

} // verus!
