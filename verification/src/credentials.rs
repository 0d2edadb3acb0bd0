//! The credential store: user records with salted one-way password hashes.
//!
//! Only a salted hash of each password is kept, never the plaintext.  A
//! verification compares the stored hash against the hash of the presented
//! password under the stored salt; the comparison is a single 64-bit word
//! equality, which takes the same time whichever bits differ.

use vstd::prelude::*;
use crate::error::ApiError;
use crate::bytes::bytes_eq;
use crate::bytes::copy_bytes;

verus! {

/// Longest accepted username, in bytes.
pub const MAX_USERNAME_LEN: usize = 64;

/// Longest accepted password, in bytes.
pub const MAX_PASSWORD_LEN: usize = 128;

/// A username the store accepts: non-empty and bounded.
pub open spec fn wf_username(name: Seq<u8>) -> bool {
    1 <= name.len() <= MAX_USERNAME_LEN
}

/// A password the store accepts: non-empty and bounded.
pub open spec fn wf_password(pw: Seq<u8>) -> bool {
    1 <= pw.len() <= MAX_PASSWORD_LEN
}

/// One mixing step of the password hash: rotate and fold in one byte.
pub open spec fn mix(h: u64, b: u8) -> u64 {
    ((h << 7) | (h >> 57)) ^ (b as u64) ^ 0x9E37_79B9_7F4A_7C15
}

/// The salted one-way hash of a password.
pub open spec fn hash_spec(pw: Seq<u8>, salt: u64) -> u64
    decreases pw.len(),
{
    if pw.len() == 0 {
        salt
    } else {
        mix(hash_spec(pw.drop_last(), salt), pw.last())
    }
}

/// Compute the salted hash of a password.
pub fn password_hash(pw: &Vec<u8>, salt: u64) -> (r: u64)
    ensures
        r == hash_spec(pw@, salt),
{
    let mut h: u64 = salt;
    let mut i: usize = 0;
    while i < pw.len()
        invariant
            0 <= i <= pw@.len(),
            h == hash_spec(pw@.take(i as int), salt),
        decreases pw@.len() - i,
    {
        let b = pw[i];
        proof {
            assert(pw@.take(i as int + 1).drop_last() =~= pw@.take(i as int));
            assert(pw@.take(i as int + 1).last() == pw@[i as int]);
        }
        h = ((h << 7u64) | (h >> 57u64)) ^ (b as u64) ^ 0x9E37_79B9_7F4A_7C15;
        i += 1;
    }
    proof {
        assert(pw@.take(pw@.len() as int) =~= pw@);
    }
    h
}

/// One stored user record.
pub struct UserRecord {
    pub id: u64,
    pub username: Vec<u8>,
    pub salt: u64,
    pub hash: u64,
}

/// Mathematical value of a [`UserRecord`].
#[verifier::ext_equal]
pub ghost struct UserV {
    pub id: u64,
    pub username: Seq<u8>,
    pub salt: u64,
    pub hash: u64,
}

impl View for UserRecord {
    type V = UserV;

    open spec fn view(&self) -> UserV {
        UserV { id: self.id, username: self.username@, salt: self.salt, hash: self.hash }
    }
}

/// Views of a vector of user records.
pub open spec fn user_views(s: Seq<UserRecord>) -> Seq<UserV> {
    s.map_values(|u: UserRecord| u@)
}

/// The first user carrying a username, if any.
pub open spec fn find_user(users: Seq<UserV>, name: Seq<u8>) -> Option<UserV>
    decreases users.len(),
{
    if users.len() == 0 {
        None
    } else if users[0].username == name {
        Some(users[0])
    } else {
        find_user(users.drop_first(), name)
    }
}

/// Some user carries this username.
pub open spec fn has_username(users: Seq<UserV>, name: Seq<u8>) -> bool {
    exists|i: int| 0 <= i < users.len() && (#[trigger] users[i]).username == name
}

/// Some user carries this id.
pub open spec fn has_user_id(users: Seq<UserV>, id: u64) -> bool {
    exists|i: int| 0 <= i < users.len() && (#[trigger] users[i]).id == id
}

/// The users left after deleting the first record with this id.
pub open spec fn remove_user(users: Seq<UserV>, id: u64) -> Seq<UserV>
    decreases users.len(),
{
    if users.len() == 0 {
        users
    } else if users[0].id == id {
        users.drop_first()
    } else {
        seq![users[0]] + remove_user(users.drop_first(), id)
    }
}

/// The user store.
pub struct CredentialStore {
    pub users: Vec<UserRecord>,
    pub next_id: u64,
}

impl CredentialStore {
    /// Store invariant: unique ids, unique usernames, ids below the next
    /// one to be minted, and well-formed usernames throughout.
    pub open spec fn wf(self) -> bool {
        &&& forall|i: int, j: int|
            0 <= i < j < self.users@.len() ==> (#[trigger] self.users@[i])@.id != (
            #[trigger] self.users@[j])@.id
        &&& forall|i: int, j: int|
            0 <= i < j < self.users@.len() ==> (#[trigger] self.users@[i])@.username != (
            #[trigger] self.users@[j])@.username
        &&& forall|i: int| 0 <= i < self.users@.len() ==> (#[trigger] self.users@[i])@.id
            < self.next_id
        &&& forall|i: int| 0 <= i < self.users@.len() ==> wf_username(
            (#[trigger] self.users@[i])@.username,
        )
    }

    /// The stored users, as mathematical values.
    pub open spec fn model(self) -> Seq<UserV> {
        user_views(self.users@)
    }

    /// An empty store.
    pub fn new() -> (r: CredentialStore)
        ensures
            r.wf(),
            r.model() == Seq::<UserV>::empty(),
            r.next_id == 0,
    {
        let r = CredentialStore { users: Vec::new(), next_id: 0 };
        proof {
            assert(r.model() =~= Seq::<UserV>::empty());
        }
        r
    }

    /// Create a user with a fresh id, storing only the salted hash of the
    /// password.  Fails with `InvalidInput` on a malformed username or
    /// password, and with `Conflict` exactly when the username is taken.
    pub fn create_user(&mut self, username: &Vec<u8>, password: &Vec<u8>, salt: u64) -> (r: Result<
        u64,
        ApiError,
    >)
        requires
            old(self).wf(),
            old(self).next_id < u64::MAX,
        ensures
            final(self).wf(),
            match r {
                Ok(id) => {
                    &&& wf_username(username@) && wf_password(password@)
                    &&& !has_username(old(self).model(), username@)
                    &&& id == old(self).next_id
                    &&& final(self).model() == old(self).model().push(
                        UserV {
                            id: id,
                            username: username@,
                            salt: salt,
                            hash: hash_spec(password@, salt),
                        },
                    )
                    &&& final(self).next_id == old(self).next_id + 1
                },
                Err(e) => {
                    &&& *final(self) == *old(self)
                    &&& if !(wf_username(username@) && wf_password(password@)) {
                        e == ApiError::InvalidInput
                    } else {
                        e == ApiError::Conflict && has_username(old(self).model(), username@)
                    }
                },
            },
    {
        if username.len() == 0 || username.len() > MAX_USERNAME_LEN {
            return Err(ApiError::InvalidInput);
        }
        if password.len() == 0 || password.len() > MAX_PASSWORD_LEN {
            return Err(ApiError::InvalidInput);
        }
        let mut i: usize = 0;
        while i < self.users.len()
            invariant
                0 <= i <= self.users@.len(),
                *self == *old(self),
                old(self).wf(),
                wf_username(username@) && wf_password(password@),
                forall|j: int| 0 <= j < i ==> (#[trigger] self.users@[j])@.username != username@,
            decreases self.users@.len() - i,
        {
            if bytes_eq(&self.users[i].username, username) {
                proof {
                    assert(old(self).model()[i as int].username == username@);
                    assert(has_username(old(self).model(), username@));
                }
                return Err(ApiError::Conflict);
            }
            i += 1;
        }
        proof {
            assert(!has_username(self.model(), username@)) by {
                if has_username(self.model(), username@) {
                    let k = choose|k: int|
                        0 <= k < self.model().len() && self.model()[k].username == username@;
                    assert(self.users@[k]@.username == username@);
                }
            }
        }
        let id = self.next_id;
        let hash = password_hash(password, salt);
        let rec = UserRecord { id, username: copy_bytes(username), salt, hash };
        let ghost pre = self.model();
        self.users.push(rec);
        self.next_id = id + 1;
        proof {
            assert(self.model() =~= pre.push(rec@));
            assert forall|a: int, b: int| 0 <= a < b < self.users@.len() implies (
            #[trigger] self.users@[a])@.username != (#[trigger] self.users@[b])@.username by {
                if b == self.users@.len() - 1 {
                    assert(self.users@[b]@.username == username@);
                    if self.users@[a]@.username == username@ {
                        assert(self.model()[a].username == username@);
                        assert(has_username(pre, username@));
                    }
                }
            }
            assert forall|a: int, b: int| 0 <= a < b < self.users@.len() implies (
            #[trigger] self.users@[a])@.id != (#[trigger] self.users@[b])@.id by {
                if b == self.users@.len() - 1 {
                    assert(self.users@[b]@.id == id);
                }
            }
        }
        Ok(id)
    }

    /// Verify a username and password.  Returns the user's id exactly when
    /// the username is stored and the salted hash of the presented password
    /// matches; every failure is the uniform `Unauthenticated`.
    pub fn verify(&self, username: &Vec<u8>, password: &Vec<u8>) -> (r: Result<u64, ApiError>)
        ensures
            match r {
                Ok(uid) => {
                    &&& find_user(self.model(), username@) is Some
                    &&& {
                        let u = find_user(self.model(), username@).unwrap();
                        u.hash == hash_spec(password@, u.salt) && uid == u.id
                    }
                },
                Err(e) => {
                    &&& e == ApiError::Unauthenticated
                    &&& match find_user(self.model(), username@) {
                        None => true,
                        Some(u) => u.hash != hash_spec(password@, u.salt),
                    }
                },
            },
    {
        proof {
            assert(self.model().skip(0) =~= self.model());
        }
        let mut i: usize = 0;
        while i < self.users.len()
            invariant
                0 <= i <= self.users@.len(),
                find_user(self.model(), username@) == find_user(
                    self.model().skip(i as int),
                    username@,
                ),
                forall|j: int| 0 <= j < i ==> (#[trigger] self.users@[j])@.username != username@,
            decreases self.users@.len() - i,
        {
            let u = &self.users[i];
            proof {
                assert(self.model().skip(i as int)[0] == u@);
                assert(self.model().skip(i as int).drop_first() =~= self.model().skip(i as int + 1));
            }
            if bytes_eq(&u.username, username) {
                let h = password_hash(password, u.salt);
                if h == u.hash {
                    return Ok(u.id);
                } else {
                    return Err(ApiError::Unauthenticated);
                }
            }
            i += 1;
        }
        proof {
            assert(self.model().skip(self.users@.len() as int) =~= Seq::<UserV>::empty());
        }
        Err(ApiError::Unauthenticated)
    }

    /// Delete a user by id.  Fails with `NotFound` exactly when no user
    /// carries the id; on success exactly that record is removed.  The
    /// caller must then revoke the user's sessions.
    pub fn delete_user(&mut self, user_id: u64) -> (r: Result<(), ApiError>)
        requires
            old(self).wf(),
        ensures
            final(self).wf(),
            final(self).next_id == old(self).next_id,
            match r {
                Ok(()) => {
                    &&& has_user_id(old(self).model(), user_id)
                    &&& final(self).model() == remove_user(old(self).model(), user_id)
                },
                Err(e) => {
                    &&& e == ApiError::NotFound
                    &&& !has_user_id(old(self).model(), user_id)
                    &&& *final(self) == *old(self)
                },
            },
    {
        let mut i: usize = 0;
        while i < self.users.len()
            invariant
                0 <= i <= self.users@.len(),
                *self == *old(self),
                old(self).wf(),
                forall|j: int| 0 <= j < i ==> (#[trigger] self.users@[j])@.id != user_id,
            decreases self.users@.len() - i,
        {
            if self.users[i].id == user_id {
                proof {
                    assert(self.model()[i as int].id == user_id);
                    lemma_remove_user_at(self.model(), user_id, i as int);
                }
                let ghost pre = self.model();
                self.users.remove(i);
                proof {
                    assert(self.model() =~= pre.remove(i as int));
                }
                return Ok(());
            }
            i += 1;
        }
        proof {
            assert(!has_user_id(self.model(), user_id)) by {
                if has_user_id(self.model(), user_id) {
                    let k = choose|k: int|
                        0 <= k < self.model().len() && self.model()[k].id == user_id;
                    assert(self.users@[k]@.id == user_id);
                }
            }
        }
        Err(ApiError::NotFound)
    }
}

/// Where the first record with an id sits, removing that id is removing
/// that index.
pub proof fn lemma_remove_user_at(users: Seq<UserV>, id: u64, idx: int)
    requires
        0 <= idx < users.len(),
        users[idx].id == id,
        forall|j: int| 0 <= j < idx ==> (#[trigger] users[j]).id != id,
    ensures
        remove_user(users, id) == users.remove(idx),
    decreases idx,
{
    if idx == 0 {
        assert(remove_user(users, id) =~= users.remove(0));
    } else {
        assert(users[0].id != id);
        assert(forall|j: int|
            0 <= j < idx - 1 ==> (#[trigger] users.drop_first()[j]).id != id);
        lemma_remove_user_at(users.drop_first(), id, idx - 1);
        assert(seq![users[0]] + users.drop_first().remove(idx - 1) =~= users.remove(idx));
    }
}


/// A user just created under a fresh username is exactly the one a later
/// credential check finds.
pub proof fn lemma_created_user_found(users: Seq<UserV>, u: UserV)
    requires
        !has_username(users, u.username),
    ensures
        find_user(users.push(u), u.username) == Some(u),
    decreases users.len(),
{
    if users.len() == 0 {
        assert(users.push(u)[0] == u);
    } else {
        assert(users.push(u)[0] == users[0]);
        assert(users[0].username != u.username) by {
            if users[0].username == u.username {
                assert(has_username(users, u.username));
            }
        }
        assert(users.push(u).drop_first() =~= users.drop_first().push(u));
        assert(!has_username(users.drop_first(), u.username)) by {
            if has_username(users.drop_first(), u.username) {
                let i = choose|i: int|
                    0 <= i < users.drop_first().len() && (#[trigger] users.drop_first()[i]).username
                        == u.username;
                assert(users[i + 1].username == u.username);
            }
        }
        lemma_created_user_found(users.drop_first(), u);
    }
}

} // verus!

