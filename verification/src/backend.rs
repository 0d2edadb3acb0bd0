//! The token-gated operations a server exposes, tying the credential
//! store, the session authority and the telemetry store together.
//!
//! Every protected operation validates the caller's token first and
//! translates any failure into the uniform `Unauthenticated`, before any
//! other work; a validated use refreshes the session's sliding expiry.
//! The caller supplies the clock (`now`) and, where an operation mints a
//! credential, fresh entropy from a cryptographically secure source.

use vstd::prelude::*;
use crate::error::ApiError;
use crate::credentials::CredentialStore;
use crate::credentials::UserV;
use crate::credentials::find_user;
use crate::credentials::hash_spec;
use crate::credentials::has_username;
use crate::credentials::has_user_id;
use crate::credentials::remove_user;
use crate::credentials::wf_username;
use crate::credentials::wf_password;
use crate::sessions::SessionAuthority;
use crate::sessions::Token;
use crate::sessions::Session;
use crate::sessions::check_spec;
use crate::sessions::refresh_token;
use crate::sessions::deactivate_token;
use crate::sessions::deactivate_user;
use crate::sessions::deactivate_expired;
use crate::sessions::has_token;
use crate::sessions::expiry_of;
use crate::telemetry::Channel;
use crate::telemetry::SensorSample;
use crate::telemetry::TelemetryStore;
use crate::telemetry::sample_views;
use crate::telemetry::as_samples;
use crate::ingest::IngestSummary;
use crate::ingest::ingest_payload;
use crate::ingest::ingested_stream;
use crate::ingest::goods;
use crate::ingest::accepted_of;
use crate::ingest::key_counts_of;
use crate::ingest::key_count_views;
use crate::wire::parse_payload;
use crate::wire::encode_all;
use crate::export::ExportQuery;
use crate::export::export_records;
use crate::export::export_selection;

verus! {

/// The whole backend: users, sessions and telemetry.
pub struct Backend {
    pub creds: CredentialStore,
    pub auth: SessionAuthority,
    pub store: TelemetryStore,
}

impl Backend {
    /// Invariant: each component's invariant.
    pub open spec fn wf(self) -> bool {
        self.creds.wf() && self.auth.wf() && self.store.wf()
    }

    /// A fresh backend with no users, no sessions and no telemetry.
    pub fn new(idle_timeout: u64) -> (r: Backend)
        ensures
            r.wf(),
            r.creds.model() == Seq::<UserV>::empty(),
            r.creds.next_id == 0,
            r.auth.sessions@ == Seq::<Session>::empty(),
            r.auth.next_serial == 0,
            r.auth.idle_timeout == idle_timeout,
            forall|d: Seq<u8>, c: Channel|
                #[trigger] r.store.stream(d, c) == Seq::<crate::telemetry::StoredV>::empty(),
    {
        Backend {
            creds: CredentialStore::new(),
            auth: SessionAuthority::new(idle_timeout),
            store: TelemetryStore::new(),
        }
    }

    /// The liveness marker of the health check: the backend answers.
    pub fn ping(&self) -> (r: bool)
        ensures
            r,
    {
        true
    }

    /// Log in: verify the credentials, then mint a session token.  Fails
    /// with the uniform `Unauthenticated` on an unknown username or a hash
    /// mismatch; on success the token is one never issued before, owned by
    /// the verified user.
    pub fn login(
        &mut self,
        username: &Vec<u8>,
        password: &Vec<u8>,
        now: u64,
        entropy_hi: u64,
        entropy_lo: u64,
    ) -> (r: Result<Token, ApiError>)
        requires
            old(self).wf(),
            old(self).auth.next_serial < u64::MAX,
        ensures
            final(self).wf(),
            final(self).creds == old(self).creds,
            final(self).store == old(self).store,
            final(self).auth.idle_timeout == old(self).auth.idle_timeout,
            match r {
                Ok(t) => {
                    &&& find_user(old(self).creds.model(), username@) is Some
                    &&& {
                        let u = find_user(old(self).creds.model(), username@).unwrap();
                        &&& u.hash == hash_spec(password@, u.salt)
                        &&& !has_token(old(self).auth.sessions@, t)
                        &&& final(self).auth.sessions@ == old(self).auth.sessions@.push(
                            Session {
                                token: t,
                                user_id: u.id,
                                issued_at: now,
                                last_active: now,
                                expires_at: expiry_of(now, old(self).auth.idle_timeout),
                                active: true,
                            },
                        )
                    }
                },
                Err(e) => {
                    &&& e == ApiError::Unauthenticated
                    &&& *final(self) == *old(self)
                    &&& match find_user(old(self).creds.model(), username@) {
                        None => true,
                        Some(u) => u.hash != hash_spec(password@, u.salt),
                    }
                },
            },
    {
        let user_id = match self.creds.verify(username, password) {
            Ok(uid) => uid,
            Err(_) => {
                return Err(ApiError::Unauthenticated);
            },
        };
        let token = self.auth.issue(user_id, now, entropy_hi, entropy_lo);
        Ok(token)
    }

    /// Validate a token, refreshing its sliding expiry; the user id comes
    /// back exactly when the token names a live session.
    pub fn check_token(&mut self, token: Token, now: u64) -> (r: Result<u64, ApiError>)
        requires
            old(self).wf(),
        ensures
            final(self).wf(),
            final(self).creds == old(self).creds,
            final(self).store == old(self).store,
            final(self).auth.idle_timeout == old(self).auth.idle_timeout,
            match r {
                Ok(uid) => {
                    &&& check_spec(old(self).auth.sessions@, token, now) == Some(uid)
                    &&& final(self).auth.sessions@ == refresh_token(
                        old(self).auth.sessions@,
                        token,
                        now,
                        old(self).auth.idle_timeout,
                    )
                },
                Err(e) => {
                    &&& e == ApiError::Unauthenticated
                    &&& check_spec(old(self).auth.sessions@, token, now) is None
                    &&& *final(self) == *old(self)
                },
            },
    {
        self.auth.check_token(token, now)
    }

    /// Log a token out, idempotently; fails only for a token never issued.
    pub fn logout(&mut self, token: Token) -> (r: Result<(), ApiError>)
        requires
            old(self).wf(),
        ensures
            final(self).wf(),
            final(self).creds == old(self).creds,
            final(self).store == old(self).store,
            final(self).auth.idle_timeout == old(self).auth.idle_timeout,
            final(self).auth.sessions@ == deactivate_token(old(self).auth.sessions@, token),
            match r {
                Ok(()) => has_token(old(self).auth.sessions@, token),
                Err(e) => e == ApiError::Unauthenticated && !has_token(
                    old(self).auth.sessions@,
                    token,
                ),
            },
    {
        self.auth.logout(token)
    }

    /// Sweep expired sessions; swept sessions answer exactly like revoked
    /// ones.
    pub fn sweep(&mut self, now: u64)
        requires
            old(self).wf(),
        ensures
            final(self).wf(),
            final(self).creds == old(self).creds,
            final(self).store == old(self).store,
            final(self).auth.idle_timeout == old(self).auth.idle_timeout,
            final(self).auth.sessions@ == deactivate_expired(old(self).auth.sessions@, now),
    {
        self.auth.sweep(now)
    }

    /// Create a user (the caller must hold a valid session).  Fails fast
    /// with `Unauthenticated` on a bad token; then as the credential store
    /// does: `InvalidInput` on malformed fields, `Conflict` on a taken
    /// username.
    pub fn create_user(
        &mut self,
        token: Token,
        now: u64,
        username: &Vec<u8>,
        password: &Vec<u8>,
        salt: u64,
    ) -> (r: Result<u64, ApiError>)
        requires
            old(self).wf(),
            old(self).creds.next_id < u64::MAX,
        ensures
            final(self).wf(),
            final(self).store == old(self).store,
            final(self).auth.idle_timeout == old(self).auth.idle_timeout,
            match check_spec(old(self).auth.sessions@, token, now) {
                None => r == Err::<u64, ApiError>(ApiError::Unauthenticated) && *final(self)
                    == *old(self),
                Some(_) => {
                    &&& final(self).auth.sessions@ == refresh_token(
                        old(self).auth.sessions@,
                        token,
                        now,
                        old(self).auth.idle_timeout,
                    )
                    &&& match r {
                        Ok(id) => {
                            &&& wf_username(username@) && wf_password(password@)
                            &&& !has_username(old(self).creds.model(), username@)
                            &&& id == old(self).creds.next_id
                            &&& final(self).creds.model() == old(self).creds.model().push(
                                UserV {
                                    id: id,
                                    username: username@,
                                    salt: salt,
                                    hash: hash_spec(password@, salt),
                                },
                            )
                        },
                        Err(e) => {
                            &&& final(self).creds == old(self).creds
                            &&& if !(wf_username(username@) && wf_password(password@)) {
                                e == ApiError::InvalidInput
                            } else {
                                e == ApiError::Conflict && has_username(
                                    old(self).creds.model(),
                                    username@,
                                )
                            }
                        },
                    }
                },
            },
    {
        if self.auth.check_token(token, now).is_err() {
            return Err(ApiError::Unauthenticated);
        }
        self.creds.create_user(username, password, salt)
    }

    /// Delete a user (the caller must hold a valid session).  Fails fast
    /// with `Unauthenticated` on a bad token, with `NotFound` when no user
    /// carries the id; on success the record is removed and every session
    /// of the user is revoked.
    pub fn delete_user(&mut self, token: Token, now: u64, user_id: u64) -> (r: Result<
        (),
        ApiError,
    >)
        requires
            old(self).wf(),
        ensures
            final(self).wf(),
            final(self).store == old(self).store,
            final(self).auth.idle_timeout == old(self).auth.idle_timeout,
            match check_spec(old(self).auth.sessions@, token, now) {
                None => r == Err::<(), ApiError>(ApiError::Unauthenticated) && *final(self)
                    == *old(self),
                Some(_) => {
                    let refreshed_sessions = refresh_token(
                        old(self).auth.sessions@,
                        token,
                        now,
                        old(self).auth.idle_timeout,
                    );
                    match r {
                        Ok(()) => {
                            &&& has_user_id(old(self).creds.model(), user_id)
                            &&& final(self).creds.model() == remove_user(
                                old(self).creds.model(),
                                user_id,
                            )
                            &&& final(self).auth.sessions@ == deactivate_user(
                                refreshed_sessions,
                                user_id,
                            )
                        },
                        Err(e) => {
                            &&& e == ApiError::NotFound
                            &&& !has_user_id(old(self).creds.model(), user_id)
                            &&& final(self).creds == old(self).creds
                            &&& final(self).auth.sessions@ == refreshed_sessions
                        },
                    }
                },
            },
    {
        if self.auth.check_token(token, now).is_err() {
            return Err(ApiError::Unauthenticated);
        }
        match self.creds.delete_user(user_id) {
            Ok(()) => {
                self.auth.revoke_user(user_id);
                Ok(())
            },
            Err(e) => Err(e),
        }
    }

    /// Upload a bulk payload (the caller must hold a valid session).
    /// Fails fast with `Unauthenticated` on a bad token, with
    /// `InvalidInput` on a structurally unparsable payload; otherwise the
    /// summary reports accepted and rejected records, and every key's
    /// stream has its acceptable batch applied, last write wins.
    pub fn upload(&mut self, token: Token, now: u64, payload: &Vec<u8>) -> (r: Result<
        IngestSummary,
        ApiError,
    >)
        requires
            old(self).wf(),
        ensures
            final(self).wf(),
            final(self).creds == old(self).creds,
            final(self).auth.idle_timeout == old(self).auth.idle_timeout,
            match check_spec(old(self).auth.sessions@, token, now) {
                None => r == Err::<IngestSummary, ApiError>(ApiError::Unauthenticated) && *final(self) == *old(self),
                Some(_) => {
                    &&& final(self).auth.sessions@ == refresh_token(
                        old(self).auth.sessions@,
                        token,
                        now,
                        old(self).auth.idle_timeout,
                    )
                    &&& match r {
                        Ok(s) => {
                            &&& parse_payload(payload@) is Some
                            &&& {
                                let gs = goods(parse_payload(payload@).unwrap());
                                &&& s.accepted == accepted_of(gs)
                                &&& s.rejected == parse_payload(payload@).unwrap().len()
                                    - accepted_of(gs)
                                &&& key_count_views(s.per_key@) == key_counts_of(gs)
                                &&& forall|d: Seq<u8>, c: Channel|
                                    #[trigger] final(self).store.stream(d, c) == ingested_stream(
                                        old(self).store.stream(d, c),
                                        gs,
                                        d,
                                        c,
                                    )
                            }
                        },
                        Err(e) => {
                            &&& e == ApiError::InvalidInput
                            &&& parse_payload(payload@) is None
                            &&& final(self).store == old(self).store
                        },
                    }
                },
            },
    {
        if self.auth.check_token(token, now).is_err() {
            return Err(ApiError::Unauthenticated);
        }
        ingest_payload(&mut self.store, payload)
    }

    /// Export a selection as an upload-compatible payload (the caller must
    /// hold a valid session).  An empty selection is an empty payload, not
    /// an error.
    pub fn export(&mut self, token: Token, now: u64, query: &ExportQuery) -> (r: Result<
        Vec<u8>,
        ApiError,
    >)
        requires
            old(self).wf(),
        ensures
            final(self).wf(),
            final(self).creds == old(self).creds,
            final(self).store == old(self).store,
            final(self).auth.idle_timeout == old(self).auth.idle_timeout,
            match check_spec(old(self).auth.sessions@, token, now) {
                None => r == Err::<Vec<u8>, ApiError>(ApiError::Unauthenticated) && *final(self)
                    == *old(self),
                Some(_) => {
                    &&& final(self).auth.sessions@ == refresh_token(
                        old(self).auth.sessions@,
                        token,
                        now,
                        old(self).auth.idle_timeout,
                    )
                    &&& r is Ok
                    &&& r.unwrap()@ == encode_all(
                        export_records(old(self).store.parts@, query@),
                    )
                },
            },
    {
        if self.auth.check_token(token, now).is_err() {
            return Err(ApiError::Unauthenticated);
        }
        Ok(export_selection(&self.store, query))
    }

    /// The full fiber stream of one dancer (the caller must hold a valid
    /// session).  Fails with `NotFound` exactly when the store knows the
    /// dancer on no channel at all; a known dancer with no fiber data gets
    /// an empty sequence.
    pub fn get_dancer_fiber_data(&mut self, token: Token, now: u64, dancer: &Vec<u8>) -> (r: Result<
        Vec<SensorSample>,
        ApiError,
    >)
        requires
            old(self).wf(),
        ensures
            final(self).wf(),
            final(self).creds == old(self).creds,
            final(self).store == old(self).store,
            final(self).auth.idle_timeout == old(self).auth.idle_timeout,
            match check_spec(old(self).auth.sessions@, token, now) {
                None => r == Err::<Vec<SensorSample>, ApiError>(ApiError::Unauthenticated)
                    && *final(self) == *old(self),
                Some(_) => {
                    &&& final(self).auth.sessions@ == refresh_token(
                        old(self).auth.sessions@,
                        token,
                        now,
                        old(self).auth.idle_timeout,
                    )
                    &&& match r {
                        Ok(samples) => {
                            &&& old(self).store.knows_dancer(dancer@)
                            &&& sample_views(samples@) == as_samples(
                                dancer@,
                                Channel::Fiber,
                                old(self).store.stream(dancer@, Channel::Fiber),
                            )
                        },
                        Err(e) => {
                            &&& e == ApiError::NotFound
                            &&& !old(self).store.knows_dancer(dancer@)
                        },
                    }
                },
            },
    {
        if self.auth.check_token(token, now).is_err() {
            return Err(ApiError::Unauthenticated);
        }
        if !self.store.has_dancer(dancer) {
            return Err(ApiError::NotFound);
        }
        Ok(self.store.read_all(dancer, Channel::Fiber))
    }

    /// The full LED stream of one dancer (the caller must hold a valid
    /// session).  Fails with `NotFound` exactly when the store knows the
    /// dancer on no channel at all; a known dancer with no LED data gets
    /// an empty sequence.
    pub fn get_dancer_led_data(&mut self, token: Token, now: u64, dancer: &Vec<u8>) -> (r: Result<
        Vec<SensorSample>,
        ApiError,
    >)
        requires
            old(self).wf(),
        ensures
            final(self).wf(),
            final(self).creds == old(self).creds,
            final(self).store == old(self).store,
            final(self).auth.idle_timeout == old(self).auth.idle_timeout,
            match check_spec(old(self).auth.sessions@, token, now) {
                None => r == Err::<Vec<SensorSample>, ApiError>(ApiError::Unauthenticated)
                    && *final(self) == *old(self),
                Some(_) => {
                    &&& final(self).auth.sessions@ == refresh_token(
                        old(self).auth.sessions@,
                        token,
                        now,
                        old(self).auth.idle_timeout,
                    )
                    &&& match r {
                        Ok(samples) => {
                            &&& old(self).store.knows_dancer(dancer@)
                            &&& sample_views(samples@) == as_samples(
                                dancer@,
                                Channel::Led,
                                old(self).store.stream(dancer@, Channel::Led),
                            )
                        },
                        Err(e) => {
                            &&& e == ApiError::NotFound
                            &&& !old(self).store.knows_dancer(dancer@)
                        },
                    }
                },
            },
    {
        if self.auth.check_token(token, now).is_err() {
            return Err(ApiError::Unauthenticated);
        }
        if !self.store.has_dancer(dancer) {
            return Err(ApiError::NotFound);
        }
        Ok(self.store.read_all(dancer, Channel::Led))
    }
}


/// For all valid credentials: once `createUser` has stored the user under a
/// fresh username, the credential check of a `login` finds exactly that
/// user, and a `checkToken` of the issued token within the idle timeout
/// returns the same user id `createUser` produced.
pub proof fn lemma_login_then_check_same_user(
    users: Seq<UserV>,
    u: UserV,
    sessions: Seq<Session>,
    x: Session,
    now2: u64,
)
    requires
        !has_username(users, u.username),
        forall|i: int| 0 <= i < sessions.len() ==> (#[trigger] sessions[i]).token != x.token,
        x.active,
        x.user_id == u.id,
        now2 < x.expires_at,
    ensures
        find_user(users.push(u), u.username) == Some(u),
        check_spec(sessions.push(x), x.token, now2) == Some(u.id),
{
    crate::credentials::lemma_created_user_found(users, u);
    crate::sessions::lemma_issue_then_check(sessions, x, now2);
}

} // verus!

