//! The login / logout / sync / info state machine.
//!
//! Each operation is split into pure decisions, verified here, and the one
//! external call, made by the surrounding binary. `login_plan` decides what
//! a login needs; `login_commit` records a login the external agent has
//! accepted; `logout_apply` folds the outcome of the external
//! de-authentication into the store; `classify` is the read-only
//! reconciliation diagnostic.

use crate::error::GoatError;
use crate::store::{Config, ConfigView, str_eq};
use vstd::prelude::*;

verus! {

/// Outcome of the read-only reconciliation diagnostic.
#[derive(Debug, Clone, Copy, PartialEq, Eq)]
pub enum SyncStatus {
    /// No external session is recorded in the store.
    NoAuth,
    /// The recorded session matches the source-control identity.
    Synced,
    /// The recorded session and the source-control identity disagree.
    Conflict,
}

/// The classification rule: an unset active account is `NoAuth`; one equal
/// to the resolved identity is `Synced`; any other is `Conflict`.
pub open spec fn classify_spec(active: Option<Seq<char>>, identity: Seq<char>) -> SyncStatus {
    match active {
        None => SyncStatus::NoAuth,
        Some(a) => if a == identity {
            SyncStatus::Synced
        } else {
            SyncStatus::Conflict
        },
    }
}

/// Classify the pair (recorded active account, resolved identity). Pure:
/// it reads its arguments and touches neither the store nor any external
/// agent.
pub fn classify(active: &Option<String>, identity: &str) -> (r: SyncStatus)
    ensures
        r == classify_spec(active.deep_view(), identity@),
{
    match active {
        None => SyncStatus::NoAuth,
        Some(a) => if str_eq(a.as_str(), identity) {
            SyncStatus::Synced
        } else {
            SyncStatus::Conflict
        },
    }
}

/// Every (active account, resolved identity) pair falls in exactly one of
/// the three outcomes, by the rule of `classify_spec`.
pub proof fn lemma_info_classification(active: Option<Seq<char>>, identity: Seq<char>)
    ensures
        classify_spec(active, identity) == SyncStatus::NoAuth <==> active is None,
        classify_spec(active, identity) == SyncStatus::Synced <==> active == Some(identity),
        classify_spec(active, identity) == SyncStatus::Conflict <==> (active is Some
            && active->0 != identity),
{
}

/// What a login needs from the outside world, decided before any external
/// call is made.
#[derive(Debug)]
pub enum LoginAction {
    /// The store already records the target as active: nothing to do.
    AlreadyActive,
    /// Hand this stored secret to the external agent.
    Authenticate(String),
    /// No secret is stored for the target: the login fails.
    UnknownAccount,
}

/// Mathematical model of a login plan.
pub enum LoginActionView {
    AlreadyActive,
    Authenticate(Seq<char>),
    UnknownAccount,
}

impl View for LoginAction {
    type V = LoginActionView;

    open spec fn view(&self) -> LoginActionView {
        match self {
            LoginAction::AlreadyActive => LoginActionView::AlreadyActive,
            LoginAction::Authenticate(t) => LoginActionView::Authenticate(t@),
            LoginAction::UnknownAccount => LoginActionView::UnknownAccount,
        }
    }
}

/// The login decision rule: a target already recorded as active needs no
/// external call; otherwise its stored secret, if any, is handed out; a
/// target with no stored secret is refused.
pub open spec fn login_plan_spec(c: ConfigView, target: Seq<char>) -> LoginActionView {
    if c.active_is(target) {
        LoginActionView::AlreadyActive
    } else {
        match c.lookup(target) {
            Some(u) => LoginActionView::Authenticate(u.token),
            None => LoginActionView::UnknownAccount,
        }
    }
}

/// The store after a login of `target` that the external agent accepted.
pub open spec fn login_commit_spec(c: ConfigView, target: Seq<char>) -> ConfigView {
    ConfigView { current_user: Some(target), users: c.users }
}

/// Decide what logging in as `target` needs. Pure: the store is only read,
/// and no external call is made here.
pub fn login_plan(config: &Config, target: &str) -> (r: LoginAction)
    ensures
        r@ == login_plan_spec(config@, target@),
{
    if config.is_active(target) {
        LoginAction::AlreadyActive
    } else {
        match config.get(target) {
            Some(u) => LoginAction::Authenticate(u.token.clone()),
            None => LoginAction::UnknownAccount,
        }
    }
}

/// Record a login the external agent has accepted: the target becomes the
/// active account and the accounts themselves are untouched. To be called
/// only after the external authentication succeeded; the store must never
/// claim an active account for which authentication did not succeed.
pub fn login_commit(config: &mut Config, target: &str)
    ensures
        final(config)@ == login_commit_spec(old(config)@, target@),
        final(config)@.current_user == Some(target@),
        final(config)@.users == old(config)@.users,
        old(config)@.wf() ==> final(config)@.wf(),
{
    config.set_active(Some(String::from_str(target)));
    proof {
        assert(final(config)@ =~= login_commit_spec(old(config)@, target@));
    }
}

/// Fold the outcome of the external de-authentication into the store: on
/// external success the active account is always cleared, whatever it was;
/// on external failure the store is left exactly as it was and the failure
/// is surfaced as `AuthFailure`.
pub fn logout_apply(config: &mut Config, agent_ok: bool) -> (r: Result<(), GoatError>)
    ensures
        agent_ok ==> final(config)@.current_user is None && final(config)@.users == old(
            config,
        )@.users && r is Ok,
        !agent_ok ==> final(config)@ == old(config)@ && r == Result::<(), GoatError>::Err(
            GoatError::AuthFailure,
        ),
        old(config)@.wf() ==> final(config)@.wf(),
{
    if agent_ok {
        config.set_active(None);
        Ok(())
    } else {
        proof {
            assert(final(config)@ =~= old(config)@);
        }
        Err(GoatError::AuthFailure)
    }
}

/// Logging in with the already-active account is a no-op: the plan carries
/// no secret to hand to the external agent, so no external call is made,
/// and nothing is committed, so the store stays as it was.
pub proof fn lemma_login_idempotent(c: ConfigView, target: Seq<char>)
    requires
        c.active_is(target),
    ensures
        login_plan_spec(c, target) == LoginActionView::AlreadyActive,
{
}

/// The login decision is exact: each of the three plans comes on exactly
/// the stated inputs.
pub proof fn lemma_login_plan_cases(c: ConfigView, target: Seq<char>)
    ensures
        login_plan_spec(c, target) == LoginActionView::AlreadyActive <==> c.active_is(target),
        !c.active_is(target) ==> (login_plan_spec(c, target) == LoginActionView::UnknownAccount
            <==> c.lookup(target) is None),
        !c.active_is(target) && c.lookup(target) is Some ==> login_plan_spec(c, target)
            == LoginActionView::Authenticate(c.lookup(target)->0.token),
{
}

/// Sync is a login with the resolved identity as target. For an identity
/// with a stored secret, the operation ends with that identity active:
/// either the store already said so, or the plan hands out the stored
/// secret and the commit records the identity. For an identity with no
/// stored secret and not already recorded as active, the plan is
/// `UnknownAccount`, and since planning only reads the store, the store is
/// unchanged.
pub proof fn lemma_sync_correct(c: ConfigView, identity: Seq<char>)
    ensures
        c.lookup(identity) is Some && c.active_is(identity) ==> login_plan_spec(c, identity)
            == LoginActionView::AlreadyActive && c.current_user == Some(identity),
        c.lookup(identity) is Some && !c.active_is(identity) ==> login_plan_spec(c, identity)
            == LoginActionView::Authenticate(c.lookup(identity)->0.token) && login_commit_spec(
            c,
            identity,
        ).current_user == Some(identity) && login_commit_spec(c, identity).users == c.users,
        c.lookup(identity) is None && !c.active_is(identity) ==> login_plan_spec(c, identity)
            == LoginActionView::UnknownAccount,
{
}

} // verus!
