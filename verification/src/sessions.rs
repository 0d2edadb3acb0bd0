//! The session authority: issues opaque tokens, validates them with a
//! sliding idle expiry, revokes them on logout or user deletion.
//!
//! A token is the pair of a serial number the authority mints and 128 bits
//! of caller-supplied entropy from a cryptographically secure source.  The
//! serial strictly increases, so no token value is ever reused, whatever
//! the entropy; the entropy makes tokens unguessable.
//!
//! A session is `Active` until logout, user deletion or expiry deactivates
//! it; a deactivated session is terminal and indistinguishable from an
//! expired one to callers.  Deactivated sessions stay recorded so that a
//! second logout of the same token still succeeds (logout is idempotent).

use vstd::prelude::*;
use crate::error::ApiError;

verus! {

/// An opaque session credential.
#[derive(Clone, Copy, PartialEq, Eq, Structural, Debug)]
pub struct Token {
    pub serial: u64,
    pub entropy_hi: u64,
    pub entropy_lo: u64,
}

/// One recorded session.
#[derive(Clone, Copy, PartialEq, Eq, Structural, Debug)]
pub struct Session {
    pub token: Token,
    pub user_id: u64,
    pub issued_at: u64,
    pub last_active: u64,
    pub expires_at: u64,
    pub active: bool,
}

/// The expiry written when a session is used at `now`: the idle timeout
/// later, saturating at the largest representable time.
pub open spec fn expiry_of(now: u64, timeout: u64) -> u64 {
    if now + timeout <= u64::MAX {
        (now + timeout) as u64
    } else {
        u64::MAX
    }
}

/// A session that a use at `now` may rely on: still active, not yet past
/// its expiry (a session expires the moment `now` reaches `expires_at`).
pub open spec fn live(s: Session, now: u64) -> bool {
    s.active && now < s.expires_at
}

/// The session, refreshed by a validated use at `now` (sliding expiry).
pub open spec fn refreshed(s: Session, now: u64, timeout: u64) -> Session {
    Session { last_active: now, expires_at: expiry_of(now, timeout), ..s }
}

/// The session, deactivated (terminal).
pub open spec fn deactivated(s: Session) -> Session {
    Session { active: false, ..s }
}

/// Some session carries this token.
pub open spec fn has_token(s: Seq<Session>, t: Token) -> bool {
    exists|i: int| 0 <= i < s.len() && (#[trigger] s[i]).token == t
}

/// The user id a validated use of the token returns at `now`: the owner of
/// the first session carrying the token, where that session is live.
pub open spec fn check_spec(s: Seq<Session>, t: Token, now: u64) -> Option<u64>
    decreases s.len(),
{
    if s.len() == 0 {
        None
    } else if s[0].token == t {
        if live(s[0], now) {
            Some(s[0].user_id)
        } else {
            None
        }
    } else {
        check_spec(s.drop_first(), t, now)
    }
}

/// All sessions after a validated use of the token at `now`.
pub open spec fn refresh_token(s: Seq<Session>, t: Token, now: u64, timeout: u64) -> Seq<Session> {
    Seq::new(
        s.len(),
        |i: int|
            if s[i].token == t && live(s[i], now) {
                refreshed(s[i], now, timeout)
            } else {
                s[i]
            },
    )
}

/// All sessions after a logout of the token.
pub open spec fn deactivate_token(s: Seq<Session>, t: Token) -> Seq<Session> {
    Seq::new(
        s.len(),
        |i: int|
            if s[i].token == t {
                deactivated(s[i])
            } else {
                s[i]
            },
    )
}

/// All sessions after every session of one user is revoked.
pub open spec fn deactivate_user(s: Seq<Session>, user_id: u64) -> Seq<Session> {
    Seq::new(
        s.len(),
        |i: int|
            if s[i].user_id == user_id {
                deactivated(s[i])
            } else {
                s[i]
            },
    )
}

/// All sessions after every session past its expiry is swept out.
pub open spec fn deactivate_expired(s: Seq<Session>, now: u64) -> Seq<Session> {
    Seq::new(
        s.len(),
        |i: int|
            if s[i].expires_at <= now {
                deactivated(s[i])
            } else {
                s[i]
            },
    )
}

/// The session authority.
pub struct SessionAuthority {
    pub sessions: Vec<Session>,
    pub next_serial: u64,
    pub idle_timeout: u64,
}

impl SessionAuthority {
    /// Invariant: serials are unique and below the next one to be minted,
    /// so a token value is never reused for the authority's lifetime.
    pub open spec fn wf(self) -> bool {
        &&& forall|i: int, j: int|
            0 <= i < j < self.sessions@.len() ==> (#[trigger] self.sessions@[i]).token.serial != (
            #[trigger] self.sessions@[j]).token.serial
        &&& forall|i: int|
            0 <= i < self.sessions@.len() ==> (#[trigger] self.sessions@[i]).token.serial
                < self.next_serial
    }

    /// A fresh authority with a fixed idle timeout.
    pub fn new(idle_timeout: u64) -> (r: SessionAuthority)
        ensures
            r.wf(),
            r.sessions@ == Seq::<Session>::empty(),
            r.next_serial == 0,
            r.idle_timeout == idle_timeout,
    {
        SessionAuthority { sessions: Vec::new(), next_serial: 0, idle_timeout }
    }

    /// Mint a session for a verified user.  The entropy words must come
    /// from a cryptographically secure random source; the serial makes the
    /// token unique even against entropy collisions, so the returned token
    /// has never been issued before.
    pub fn issue(&mut self, user_id: u64, now: u64, entropy_hi: u64, entropy_lo: u64) -> (r: Token)
        requires
            old(self).wf(),
            old(self).next_serial < u64::MAX,
        ensures
            final(self).wf(),
            !has_token(old(self).sessions@, r),
            r.serial == old(self).next_serial,
            final(self).sessions@ == old(self).sessions@.push(
                Session {
                    token: r,
                    user_id: user_id,
                    issued_at: now,
                    last_active: now,
                    expires_at: expiry_of(now, old(self).idle_timeout),
                    active: true,
                },
            ),
            final(self).next_serial == old(self).next_serial + 1,
            final(self).idle_timeout == old(self).idle_timeout,
    {
        let token = Token { serial: self.next_serial, entropy_hi, entropy_lo };
        let expires_at = if now <= u64::MAX - self.idle_timeout {
            now + self.idle_timeout
        } else {
            u64::MAX
        };
        let session = Session {
            token,
            user_id,
            issued_at: now,
            last_active: now,
            expires_at,
            active: true,
        };
        self.sessions.push(session);
        self.next_serial = self.next_serial + 1;
        proof {
            assert(!has_token(old(self).sessions@, token)) by {
                if has_token(old(self).sessions@, token) {
                    let i = choose|i: int|
                        0 <= i < old(self).sessions@.len() && old(self).sessions@[i].token
                            == token;
                    assert(old(self).sessions@[i].token.serial < token.serial);
                }
            }
        }
        token
    }

    /// Validate a token at `now`.  Returns the owning user's id exactly
    /// when the token names a live session; the use refreshes the session's
    /// sliding expiry.  Every failure is the uniform `Unauthenticated`,
    /// whether the token is unknown, revoked or expired.
    pub fn check_token(&mut self, token: Token, now: u64) -> (r: Result<u64, ApiError>)
        requires
            old(self).wf(),
        ensures
            final(self).wf(),
            final(self).next_serial == old(self).next_serial,
            final(self).idle_timeout == old(self).idle_timeout,
            match r {
                Ok(uid) => {
                    &&& check_spec(old(self).sessions@, token, now) == Some(uid)
                    &&& final(self).sessions@ == refresh_token(
                        old(self).sessions@,
                        token,
                        now,
                        old(self).idle_timeout,
                    )
                },
                Err(e) => {
                    &&& e == ApiError::Unauthenticated
                    &&& check_spec(old(self).sessions@, token, now) is None
                    &&& *final(self) == *old(self)
                },
            },
    {
        proof {
            assert(self.sessions@.skip(0) =~= self.sessions@);
        }
        let ghost orig = self.sessions@;
        let mut i: usize = 0;
        while i < self.sessions.len()
            invariant
                0 <= i <= self.sessions@.len(),
                *self == *old(self),
                old(self).wf(),
                orig == self.sessions@,
                check_spec(orig, token, now) == check_spec(orig.skip(i as int), token, now),
                forall|j: int| 0 <= j < i ==> (#[trigger] orig[j]).token != token,
            decreases self.sessions@.len() - i,
        {
            let s = self.sessions[i];
            proof {
                assert(orig.skip(i as int)[0] == orig[i as int]);
                assert(orig.skip(i as int).drop_first() =~= orig.skip(i as int + 1));
            }
            if s.token == token {
                if s.active && now < s.expires_at {
                    let expires_at = if now <= u64::MAX - self.idle_timeout {
                        now + self.idle_timeout
                    } else {
                        u64::MAX
                    };
                    let updated = Session { last_active: now, expires_at, ..s };
                    self.sessions.set(i, updated);
                    proof {
                        assert(updated == refreshed(orig[i as int], now, self.idle_timeout));
                        assert forall|k: int| 0 <= k < orig.len() implies self.sessions@[k]
                            == refresh_token(orig, token, now, old(self).idle_timeout)[k] by {
                            if k != i {
                                assert(orig[k].token != token || !live(orig[k], now)) by {
                                    if k > i && orig[k].token == token {
                                        assert(orig[k].token.serial == orig[i as int].token.serial);
                                    }
                                }
                            }
                        }
                        assert(self.sessions@ =~= refresh_token(
                            orig,
                            token,
                            now,
                            old(self).idle_timeout,
                        ));
                    }
                    return Ok(s.user_id);
                } else {
                    return Err(ApiError::Unauthenticated);
                }
            }
            i += 1;
        }
        proof {
            assert(orig.skip(orig.len() as int) =~= Seq::<Session>::empty());
        }
        Err(ApiError::Unauthenticated)
    }

    /// Log a token out.  Succeeds, idempotently, whenever the token was
    /// ever issued and is still recorded, active or not; fails with
    /// `Unauthenticated` exactly when the token was never valid.
    pub fn logout(&mut self, token: Token) -> (r: Result<(), ApiError>)
        requires
            old(self).wf(),
        ensures
            final(self).wf(),
            final(self).next_serial == old(self).next_serial,
            final(self).idle_timeout == old(self).idle_timeout,
            final(self).sessions@ == deactivate_token(old(self).sessions@, token),
            match r {
                Ok(()) => has_token(old(self).sessions@, token),
                Err(e) => {
                    &&& e == ApiError::Unauthenticated
                    &&& !has_token(old(self).sessions@, token)
                },
            },
    {
        let ghost orig = self.sessions@;
        let mut i: usize = 0;
        while i < self.sessions.len()
            invariant
                0 <= i <= self.sessions@.len(),
                *self == *old(self),
                old(self).wf(),
                orig == self.sessions@,
                forall|j: int| 0 <= j < i ==> (#[trigger] orig[j]).token != token,
            decreases self.sessions@.len() - i,
        {
            let s = self.sessions[i];
            if s.token == token {
                let updated = Session { active: false, ..s };
                self.sessions.set(i, updated);
                proof {
                    assert forall|k: int| 0 <= k < orig.len() implies self.sessions@[k]
                        == deactivate_token(orig, token)[k] by {
                        if k != i {
                            assert(orig[k].token != token) by {
                                if k > i && orig[k].token == token {
                                    assert(orig[k].token.serial == orig[i as int].token.serial);
                                }
                            }
                        }
                    }
                    assert(self.sessions@ =~= deactivate_token(orig, token));
                    assert(orig[i as int].token == token);
                }
                return Ok(());
            }
            i += 1;
        }
        proof {
            assert(self.sessions@ =~= deactivate_token(orig, token));
            assert(!has_token(orig, token)) by {
                if has_token(orig, token) {
                    let k = choose|k: int| 0 <= k < orig.len() && orig[k].token == token;
                }
            }
        }
        Err(ApiError::Unauthenticated)
    }

    /// Revoke every session of one user, as user deletion requires.
    pub fn revoke_user(&mut self, user_id: u64)
        requires
            old(self).wf(),
        ensures
            final(self).wf(),
            final(self).next_serial == old(self).next_serial,
            final(self).idle_timeout == old(self).idle_timeout,
            final(self).sessions@ == deactivate_user(old(self).sessions@, user_id),
    {
        let ghost orig = self.sessions@;
        let mut i: usize = 0;
        while i < self.sessions.len()
            invariant
                0 <= i <= self.sessions@.len(),
                self.sessions@.len() == orig.len(),
                self.next_serial == old(self).next_serial,
                self.idle_timeout == old(self).idle_timeout,
                old(self).wf(),
                orig == old(self).sessions@,
                forall|k: int|
                    0 <= k < orig.len() ==> #[trigger] self.sessions@[k] == if k < i
                        && orig[k].user_id == user_id {
                        deactivated(orig[k])
                    } else {
                        orig[k]
                    },
            decreases self.sessions@.len() - i,
        {
            let s = self.sessions[i];
            if s.user_id == user_id {
                let updated = Session { active: false, ..s };
                self.sessions.set(i, updated);
            }
            i += 1;
        }
        proof {
            assert(self.sessions@ =~= deactivate_user(orig, user_id));
        }
    }

    /// Sweep: deactivate every session past its expiry at `now`.  A swept
    /// session is indistinguishable from a revoked one to callers.
    pub fn sweep(&mut self, now: u64)
        requires
            old(self).wf(),
        ensures
            final(self).wf(),
            final(self).next_serial == old(self).next_serial,
            final(self).idle_timeout == old(self).idle_timeout,
            final(self).sessions@ == deactivate_expired(old(self).sessions@, now),
    {
        let ghost orig = self.sessions@;
        let mut i: usize = 0;
        while i < self.sessions.len()
            invariant
                0 <= i <= self.sessions@.len(),
                self.sessions@.len() == orig.len(),
                self.next_serial == old(self).next_serial,
                self.idle_timeout == old(self).idle_timeout,
                old(self).wf(),
                orig == old(self).sessions@,
                forall|k: int|
                    0 <= k < orig.len() ==> #[trigger] self.sessions@[k] == if k < i
                        && orig[k].expires_at <= now {
                        deactivated(orig[k])
                    } else {
                        orig[k]
                    },
            decreases self.sessions@.len() - i,
        {
            let s = self.sessions[i];
            if s.expires_at <= now {
                let updated = Session { active: false, ..s };
                self.sessions.set(i, updated);
            }
            i += 1;
        }
        proof {
            assert(self.sessions@ =~= deactivate_expired(orig, now));
        }
    }
}


/// A token never issued before authenticates as exactly the user it was
/// minted for, as long as its session is live: logging in and then checking
/// the token returns the same user id the credential check produced.
pub proof fn lemma_issue_then_check(s: Seq<Session>, x: Session, now2: u64)
    requires
        forall|i: int| 0 <= i < s.len() ==> (#[trigger] s[i]).token != x.token,
        x.active,
        now2 < x.expires_at,
    ensures
        check_spec(s.push(x), x.token, now2) == Some(x.user_id),
    decreases s.len(),
{
    if s.len() == 0 {
        assert(s.push(x)[0] == x);
        assert(live(x, now2));
    } else {
        assert(s.push(x)[0] == s[0]);
        assert(s[0].token != x.token);
        assert(s.push(x).drop_first() =~= s.drop_first().push(x));
        assert(forall|i: int|
            0 <= i < s.drop_first().len() ==> (#[trigger] s.drop_first()[i]).token != x.token);
        lemma_issue_then_check(s.drop_first(), x, now2);
    }
}

/// Logout is idempotent: logging the same token out twice leaves exactly
/// the state one logout leaves, and the second call still finds the token
/// recorded, so it succeeds too.
pub proof fn lemma_logout_idempotent(s: Seq<Session>, t: Token)
    ensures
        deactivate_token(deactivate_token(s, t), t) == deactivate_token(s, t),
        has_token(deactivate_token(s, t), t) == has_token(s, t),
{
    let d = deactivate_token(s, t);
    assert forall|i: int| 0 <= i < d.len() implies deactivate_token(d, t)[i] == d[i] by {
        assert(d[i].token == s[i].token);
    }
    assert(deactivate_token(d, t) =~= d);
    assert forall|i: int| 0 <= i < d.len() implies (#[trigger] d[i]).token == s[i].token by {}
    if has_token(s, t) {
        let i = choose|i: int| 0 <= i < s.len() && (#[trigger] s[i]).token == t;
        assert(d[i].token == t);
        assert(has_token(d, t));
    }
    if has_token(d, t) {
        let i = choose|i: int| 0 <= i < d.len() && (#[trigger] d[i]).token == t;
        assert(s[i].token == t);
        assert(has_token(s, t));
    }
}

/// After a logout, a check of the token fails, whenever it comes.
pub proof fn lemma_check_after_logout(s: Seq<Session>, t: Token, now: u64)
    ensures
        check_spec(deactivate_token(s, t), t, now) is None,
    decreases s.len(),
{
    let d = deactivate_token(s, t);
    if s.len() == 0 {
    } else {
        assert(d[0] == if s[0].token == t {
            deactivated(s[0])
        } else {
            s[0]
        });
        if s[0].token == t {
            assert(!d[0].active);
            assert(!live(d[0], now));
        } else {
            assert(d.drop_first() =~= deactivate_token(s.drop_first(), t));
            lemma_check_after_logout(s.drop_first(), t, now);
        }
    }
}

/// The sliding expiry: after a validated use at `now1`, a later check of
/// the same token succeeds with the same user exactly while `now2` is
/// within the idle timeout of `now1`, and fails once the timeout has
/// elapsed with no call.
pub proof fn lemma_sliding_expiry(s: Seq<Session>, t: Token, now1: u64, timeout: u64, now2: u64, uid: u64)
    requires
        check_spec(s, t, now1) == Some(uid),
    ensures
        check_spec(refresh_token(s, t, now1, timeout), t, now2) == if now2 < expiry_of(
            now1,
            timeout,
        ) {
            Some(uid)
        } else {
            None::<u64>
        },
    decreases s.len(),
{
    let r = refresh_token(s, t, now1, timeout);
    assert(s.len() > 0);
    if s[0].token == t {
        assert(live(s[0], now1));
        assert(r[0] == refreshed(s[0], now1, timeout));
        assert(r[0].token == t);
        assert(r[0].active && r[0].expires_at == expiry_of(now1, timeout));
        assert(r[0].user_id == uid);
    } else {
        assert(r[0] == s[0]);
        assert(r.drop_first() =~= refresh_token(s.drop_first(), t, now1, timeout));
        lemma_sliding_expiry(s.drop_first(), t, now1, timeout, now2, uid);
    }
}

/// Deleting a user revokes all of that user's sessions: afterwards no
/// token authenticates as that user, whenever it is checked.
pub proof fn lemma_check_after_revoke(s: Seq<Session>, user_id: u64, t: Token, now: u64)
    ensures
        check_spec(s, t, now) == Some(user_id) ==> check_spec(
            deactivate_user(s, user_id),
            t,
            now,
        ) is None,
    decreases s.len(),
{
    let d = deactivate_user(s, user_id);
    if s.len() == 0 {
    } else {
        assert(d[0] == if s[0].user_id == user_id {
            deactivated(s[0])
        } else {
            s[0]
        });
        if s[0].token == t {
            if check_spec(s, t, now) == Some(user_id) {
                assert(live(s[0], now) && s[0].user_id == user_id);
                assert(!d[0].active);
                assert(!live(d[0], now));
                assert(d[0].token == t);
            }
        } else {
            assert(d[0].token != t);
            assert(d.drop_first() =~= deactivate_user(s.drop_first(), user_id));
            lemma_check_after_revoke(s.drop_first(), user_id, t, now);
        }
    }
}

} // verus!

