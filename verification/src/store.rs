//! The credential store: a list of named accounts, each with an opaque
//! secret and an optional email, plus the name of the account the store
//! believes is currently authenticated externally.
//!
//! The store is modelled as a sequence of `(name, account)` pairs whose
//! names are pairwise distinct; `lookup`, `upsert_users` and `remove_users`
//! are the spec-level meanings of the executable operations.

use vstd::prelude::*;

verus! {

/// One stored account: an opaque secret token and an optional email.
#[derive(Debug, Clone, PartialEq)]
pub struct ConfigUser {
    pub email: Option<String>,
    pub token: String,
}

/// Mathematical model of one stored account.
#[verifier::ext_equal]
pub struct UserView {
    pub email: Option<Seq<char>>,
    pub token: Seq<char>,
}

impl View for ConfigUser {
    type V = UserView;

    open spec fn view(&self) -> UserView {
        UserView { email: self.email.deep_view(), token: self.token@ }
    }
}

/// The persisted credential store.
#[derive(Debug, Clone, PartialEq)]
pub struct Config {
    pub current_user: Option<String>,
    pub users: Vec<(String, ConfigUser)>,
}

/// Mathematical model of the store.
#[verifier::ext_equal]
pub struct ConfigView {
    pub current_user: Option<Seq<char>>,
    pub users: Seq<(Seq<char>, UserView)>,
}

/// The model of an account table held in executable form.
pub open spec fn users_view(users: Seq<(String, ConfigUser)>) -> Seq<(Seq<char>, UserView)> {
    Seq::new(users.len(), |i: int| (users[i].0@, users[i].1@))
}

impl View for Config {
    type V = ConfigView;

    open spec fn view(&self) -> ConfigView {
        ConfigView {
            current_user: self.current_user.deep_view(),
            users: users_view(self.users@),
        }
    }
}

/// The account stored under `name`, if any: the first entry holding the
/// name, which under `names_unique` is the only one.
pub open spec fn lookup(
    users: Seq<(Seq<char>, UserView)>,
    name: Seq<char>,
) -> Option<UserView>
    decreases users.len(),
{
    if users.len() == 0 {
        None
    } else if users[0].0 == name {
        Some(users[0].1)
    } else {
        lookup(users.skip(1), name)
    }
}

/// Replace the first account stored under `name`, or append a new one.
pub open spec fn upsert_users(
    users: Seq<(Seq<char>, UserView)>,
    name: Seq<char>,
    user: UserView,
) -> Seq<(Seq<char>, UserView)>
    decreases users.len(),
{
    if users.len() == 0 {
        seq![(name, user)]
    } else if users[0].0 == name {
        seq![(name, user)] + users.skip(1)
    } else {
        seq![users[0]] + upsert_users(users.skip(1), name, user)
    }
}

/// Drop the first account stored under `name`; unchanged if absent.
pub open spec fn remove_users(
    users: Seq<(Seq<char>, UserView)>,
    name: Seq<char>,
) -> Seq<(Seq<char>, UserView)>
    decreases users.len(),
{
    if users.len() == 0 {
        users
    } else if users[0].0 == name {
        users.skip(1)
    } else {
        seq![users[0]] + remove_users(users.skip(1), name)
    }
}

/// No two accounts share a name.
pub open spec fn names_unique(users: Seq<(Seq<char>, UserView)>) -> bool {
    forall|i: int, j: int|
        0 <= i < j < users.len() ==> users[i].0 != users[j].0
}

impl ConfigView {
    /// The store's structural invariant.
    pub open spec fn wf(&self) -> bool {
        names_unique(self.users)
    }

    pub open spec fn lookup(&self, name: Seq<char>) -> Option<UserView> {
        lookup(self.users, name)
    }

    /// Whether the store believes `name` is the authenticated account.
    pub open spec fn active_is(&self, name: Seq<char>) -> bool {
        self.current_user == Some(name)
    }
}

/// `lookup` returns the entry at the first index holding `name`.
pub proof fn lemma_lookup_at_index(
    users: Seq<(Seq<char>, UserView)>,
    name: Seq<char>,
    i: int,
)
    requires
        0 <= i < users.len(),
        users[i].0 == name,
        forall|j: int| 0 <= j < i ==> users[j].0 != name,
    ensures
        lookup(users, name) == Some(users[i].1),
    decreases i,
{
    if i > 0 {
        lemma_lookup_at_index(users.skip(1), name, i - 1);
    }
}

/// `lookup` misses exactly when no entry holds `name`.
pub proof fn lemma_lookup_absent(users: Seq<(Seq<char>, UserView)>, name: Seq<char>)
    requires
        forall|j: int| 0 <= j < users.len() ==> users[j].0 != name,
    ensures
        lookup(users, name) is None,
    decreases users.len(),
{
    if users.len() > 0 {
        lemma_lookup_absent(users.skip(1), name);
    }
}

/// After an upsert, looking up the upserted name finds the new account and
/// every other name is untouched.
pub proof fn lemma_lookup_upsert(
    users: Seq<(Seq<char>, UserView)>,
    name: Seq<char>,
    user: UserView,
    m: Seq<char>,
)
    ensures
        lookup(upsert_users(users, name, user), m) == if m == name {
            Some(user)
        } else {
            lookup(users, m)
        },
    decreases users.len(),
{
    let out = upsert_users(users, name, user);
    if users.len() == 0 {
        assert(out =~= seq![(name, user)]);
        if m == name {
            assert(lookup(out, m) == Some(user));
        } else {
            assert(out.skip(1) =~= Seq::<(Seq<char>, UserView)>::empty());
            assert(lookup(out.skip(1), m) is None);
            assert(lookup(out, m) is None);
        }
    } else if users[0].0 == name {
        assert(out =~= seq![(name, user)] + users.skip(1));
        assert(out[0] == (name, user));
        if m == name {
            assert(lookup(out, m) == Some(user));
        } else {
            assert(out.skip(1) =~= users.skip(1));
            assert(lookup(out, m) == lookup(out.skip(1), m));
            assert(lookup(users, m) == lookup(users.skip(1), m));
        }
    } else {
        lemma_lookup_upsert(users.skip(1), name, user, m);
        assert(out =~= seq![users[0]] + upsert_users(users.skip(1), name, user));
        assert(out[0] == users[0]);
        assert(out.skip(1) =~= upsert_users(users.skip(1), name, user));
        if m == users[0].0 {
            assert(lookup(out, m) == Some(users[0].1));
            assert(lookup(users, m) == Some(users[0].1));
        } else {
            assert(lookup(out, m) == lookup(out.skip(1), m));
            assert(lookup(users, m) == lookup(users.skip(1), m));
        }
    }
}

/// An upsert keeps names pairwise distinct.
pub proof fn lemma_upsert_preserves_unique(
    users: Seq<(Seq<char>, UserView)>,
    name: Seq<char>,
    user: UserView,
)
    requires
        names_unique(users),
    ensures
        names_unique(upsert_users(users, name, user)),
    decreases users.len(),
{
    let out = upsert_users(users, name, user);
    if users.len() == 0 {
    } else if users[0].0 == name {
        assert(out =~= seq![(name, user)] + users.skip(1));
        assert forall|i: int, j: int| 0 <= i < j < out.len() implies out[i].0 != out[j].0 by {
            if i == 0 {
                assert(users[j].0 != users[0].0);
                assert(out[j] == users[j]);
            } else {
                assert(out[i] == users[i] && out[j] == users[j]);
            }
        }
    } else {
        assert(names_unique(users.skip(1))) by {
            assert forall|i: int, j: int|
                0 <= i < j < users.skip(1).len() implies users.skip(1)[i].0
                != users.skip(1)[j].0 by {
                assert(users[i + 1].0 != users[j + 1].0);
            }
        }
        lemma_upsert_preserves_unique(users.skip(1), name, user);
        let rest = upsert_users(users.skip(1), name, user);
        assert(out =~= seq![users[0]] + rest);
        lemma_lookup_upsert(users.skip(1), name, user, users[0].0);
        lemma_upsert_member_names(users.skip(1), name, user);
        assert forall|i: int, j: int| 0 <= i < j < out.len() implies out[i].0 != out[j].0 by {
            if i == 0 {
                assert(out[j] == rest[j - 1]);
            } else {
                assert(out[i] == rest[i - 1] && out[j] == rest[j - 1]);
            }
        }
    }
}

/// Every name in an upserted sequence is the upserted name or an old name.
pub proof fn lemma_upsert_member_names(
    users: Seq<(Seq<char>, UserView)>,
    name: Seq<char>,
    user: UserView,
)
    ensures
        forall|k: int|
            0 <= k < upsert_users(users, name, user).len()
                ==> #[trigger] upsert_users(users, name, user)[k].0 == name || exists|j: int|
                0 <= j < users.len() && users[j].0 == upsert_users(users, name, user)[k].0,
    decreases users.len(),
{
    let out = upsert_users(users, name, user);
    if users.len() == 0 {
    } else if users[0].0 == name {
        assert forall|k: int| 0 <= k < out.len() implies #[trigger] out[k].0 == name
            || exists|j: int| 0 <= j < users.len() && users[j].0 == out[k].0 by {
            if k > 0 {
                assert(out[k] == users[k]);
                assert(users[k].0 == out[k].0);
            }
        }
    } else {
        lemma_upsert_member_names(users.skip(1), name, user);
        let rest = upsert_users(users.skip(1), name, user);
        assert(out =~= seq![users[0]] + rest);
        assert forall|k: int| 0 <= k < out.len() implies #[trigger] out[k].0 == name
            || exists|j: int| 0 <= j < users.len() && users[j].0 == out[k].0 by {
            if k == 0 {
                assert(users[0].0 == out[0].0);
            } else {
                assert(out[k] == rest[k - 1]);
                if rest[k - 1].0 != name {
                    let j = choose|j: int|
                        0 <= j < users.skip(1).len() && users.skip(1)[j].0 == rest[k - 1].0;
                    assert(users[j + 1].0 == out[k].0);
                }
            }
        }
    }
}

/// After a removal, the removed name misses and every other name is
/// untouched, provided names were pairwise distinct.
pub proof fn lemma_lookup_remove(
    users: Seq<(Seq<char>, UserView)>,
    name: Seq<char>,
    m: Seq<char>,
)
    requires
        names_unique(users),
    ensures
        lookup(remove_users(users, name), m) == if m == name {
            None::<UserView>
        } else {
            lookup(users, m)
        },
    decreases users.len(),
{
    let out = remove_users(users, name);
    if users.len() == 0 {
    } else if users[0].0 == name {
        assert(out =~= users.skip(1));
        if m == name {
            assert forall|j: int| 0 <= j < users.skip(1).len() implies users.skip(1)[j].0
                != name by {
                assert(users[j + 1].0 != users[0].0);
            }
            lemma_lookup_absent(users.skip(1), name);
        }
    } else {
        assert(names_unique(users.skip(1))) by {
            assert forall|i: int, j: int|
                0 <= i < j < users.skip(1).len() implies users.skip(1)[i].0
                != users.skip(1)[j].0 by {
                assert(users[i + 1].0 != users[j + 1].0);
            }
        }
        lemma_lookup_remove(users.skip(1), name, m);
        assert(out =~= seq![users[0]] + remove_users(users.skip(1), name));
        assert(out[0] == users[0]);
        assert(out.skip(1) =~= remove_users(users.skip(1), name));
    }
}

/// A removal keeps names pairwise distinct.
pub proof fn lemma_remove_preserves_unique(
    users: Seq<(Seq<char>, UserView)>,
    name: Seq<char>,
)
    requires
        names_unique(users),
    ensures
        names_unique(remove_users(users, name)),
    decreases users.len(),
{
    let out = remove_users(users, name);
    if users.len() == 0 {
    } else if users[0].0 == name {
        assert(out =~= users.skip(1));
        assert forall|i: int, j: int| 0 <= i < j < out.len() implies out[i].0 != out[j].0 by {
            assert(users[i + 1].0 != users[j + 1].0);
        }
    } else {
        assert(names_unique(users.skip(1))) by {
            assert forall|i: int, j: int|
                0 <= i < j < users.skip(1).len() implies users.skip(1)[i].0
                != users.skip(1)[j].0 by {
                assert(users[i + 1].0 != users[j + 1].0);
            }
        }
        lemma_remove_preserves_unique(users.skip(1), name);
        let rest = remove_users(users.skip(1), name);
        assert(out =~= seq![users[0]] + rest);
        lemma_remove_member_names(users.skip(1), name);
        assert forall|i: int, j: int| 0 <= i < j < out.len() implies out[i].0 != out[j].0 by {
            if i == 0 {
                assert(out[j] == rest[j - 1]);
            } else {
                assert(out[i] == rest[i - 1] && out[j] == rest[j - 1]);
            }
        }
    }
}

/// Every name left after a removal was already there.
pub proof fn lemma_remove_member_names(users: Seq<(Seq<char>, UserView)>, name: Seq<char>)
    ensures
        forall|k: int|
            0 <= k < remove_users(users, name).len() ==> exists|j: int|
                0 <= j < users.len() && users[j].0
                    == #[trigger] remove_users(users, name)[k].0,
    decreases users.len(),
{
    let out = remove_users(users, name);
    if users.len() == 0 {
    } else if users[0].0 == name {
        assert forall|k: int| 0 <= k < out.len() implies exists|j: int|
            0 <= j < users.len() && users[j].0 == #[trigger] out[k].0 by {
            assert(users[k + 1].0 == out[k].0);
        }
    } else {
        lemma_remove_member_names(users.skip(1), name);
        let rest = remove_users(users.skip(1), name);
        assert(out =~= seq![users[0]] + rest);
        assert forall|k: int| 0 <= k < out.len() implies exists|j: int|
            0 <= j < users.len() && users[j].0 == #[trigger] out[k].0 by {
            if k == 0 {
                assert(users[0].0 == out[0].0);
            } else {
                assert(out[k] == rest[k - 1]);
                let j = choose|j: int|
                    0 <= j < users.skip(1).len() && users.skip(1)[j].0 == rest[k - 1].0;
                assert(users[j + 1].0 == out[k].0);
            }
        }
    }
}

/// Character-for-character string equality.
pub fn str_eq(a: &str, b: &str) -> (r: bool)
    ensures
        r == (a@ == b@),
{
    let a_len = a.unicode_len();
    let b_len = b.unicode_len();
    if a_len != b_len {
        return false;
    }
    let mut i: usize = 0;
    while i < a_len
        invariant
            a_len == a@.len(),
            b_len == b@.len(),
            a_len == b_len,
            0 <= i <= a_len,
            forall|j: int| 0 <= j < i ==> a@[j] == b@[j],
        decreases a_len - i,
    {
        if a.get_char(i) != b.get_char(i) {
            return false;
        }
        i += 1;
    }
    proof {
        assert(a@ =~= b@);
    }
    true
}

impl Config {
    /// The store created on first use: no accounts, no active account.
    pub fn empty() -> (r: Config)
        ensures
            r@.current_user is None,
            r@.users =~= Seq::<(Seq<char>, UserView)>::empty(),
            r@.wf(),
    {
        Config { current_user: None, users: Vec::new() }
    }

    /// The index of the first account stored under `name`, if any.
    fn find_index(&self, name: &str) -> (r: Option<usize>)
        ensures
            match r {
                Some(i) => i < self.users.len() && self@.users[i as int].0 == name@
                    && forall|j: int| 0 <= j < i ==> self@.users[j].0 != name@,
                None => forall|j: int|
                    0 <= j < self@.users.len() ==> self@.users[j].0 != name@,
            },
    {
        let mut i: usize = 0;
        while i < self.users.len()
            invariant
                0 <= i <= self.users.len(),
                forall|j: int| 0 <= j < i ==> self@.users[j].0 != name@,
            decreases self.users.len() - i,
        {
            if str_eq(self.users[i].0.as_str(), name) {
                return Some(i);
            }
            i += 1;
        }
        None
    }

    /// Look a stored account up by name.
    pub fn get(&self, name: &str) -> (r: Option<&ConfigUser>)
        ensures
            match r {
                Some(u) => self@.lookup(name@) == Some(u@),
                None => self@.lookup(name@) is None,
            },
    {
        match self.find_index(name) {
            Some(i) => {
                proof {
                    lemma_lookup_at_index(self@.users, name@, i as int);
                }
                Some(&self.users[i].1)
            },
            None => {
                proof {
                    lemma_lookup_absent(self@.users, name@);
                }
                None
            },
        }
    }

    /// Insert an account, or overwrite the one already stored under the
    /// same name. No validation of the secret takes place here.
    pub fn upsert(&mut self, name: String, user: ConfigUser)
        ensures
            final(self)@.current_user == old(self)@.current_user,
            final(self)@.users == upsert_users(old(self)@.users, name@, user@),
            old(self)@.wf() ==> final(self)@.wf(),
    {
        proof {
            if old(self)@.wf() {
                lemma_upsert_preserves_unique(old(self)@.users, name@, user@);
            }
        }
        match self.find_index(name.as_str()) {
            Some(i) => {
                proof {
                    lemma_upsert_at_index(self@.users, name@, user@, i as int);
                }
                self.users[i] = (name, user);
                assert(self@.users =~= upsert_users(old(self)@.users, name@, user@));
            },
            None => {
                proof {
                    lemma_upsert_absent_appends(self@.users, name@, user@);
                }
                self.users.push((name, user));
                assert(self@.users =~= upsert_users(old(self)@.users, name@, user@));
            },
        }
    }

    /// Drop the account stored under `name`; a no-op if it is absent.
    pub fn remove(&mut self, name: &str)
        ensures
            final(self)@.current_user == old(self)@.current_user,
            final(self)@.users == remove_users(old(self)@.users, name@),
            old(self)@.wf() ==> final(self)@.wf(),
    {
        proof {
            if old(self)@.wf() {
                lemma_remove_preserves_unique(old(self)@.users, name@);
            }
        }
        match self.find_index(name) {
            Some(i) => {
                proof {
                    lemma_remove_at_index(self@.users, name@, i as int);
                }
                self.users.remove(i);
                assert(self@.users =~= remove_users(old(self)@.users, name@));
            },
            None => {
                proof {
                    lemma_remove_absent_id(self@.users, name@);
                }
                assert(self@.users =~= remove_users(old(self)@.users, name@));
            },
        }
    }

    /// Record which account the store believes is authenticated.
    pub fn set_active(&mut self, name: Option<String>)
        ensures
            final(self)@.current_user == name.deep_view(),
            final(self)@.users == old(self)@.users,
    {
        self.current_user = name;
        assert(final(self)@.users =~= old(self)@.users);
    }

    /// Whether the store believes `name` is the authenticated account.
    pub fn is_active(&self, name: &str) -> (r: bool)
        ensures
            r == self@.active_is(name@),
    {
        match &self.current_user {
            Some(c) => str_eq(c.as_str(), name),
            None => false,
        }
    }
}

/// One mask character per secret character: the listing shows how long a
/// hidden secret is, never what it holds.
pub fn mask_token(token: &str) -> (r: String)
    ensures
        r@.len() == token@.len(),
        forall|i: int| 0 <= i < r@.len() ==> r@[i] == '*',
{
    let n = token.unicode_len();
    let mut out = String::new();
    let mut i: usize = 0;
    while i < n
        invariant
            0 <= i <= n,
            out@.len() == i,
            forall|j: int| 0 <= j < i ==> out@[j] == '*',
        decreases n - i,
    {
        proof {
            reveal_strlit("*");
        }
        out.append("*");
        i += 1;
    }
    out
}

/// The token column of the listing: the secret itself when `show` is set,
/// otherwise its mask.
pub fn rendered_token(user: &ConfigUser, show: bool) -> (r: String)
    ensures
        show ==> r@ == user@.token,
        !show ==> r@.len() == user@.token.len() && forall|i: int|
            0 <= i < r@.len() ==> r@[i] == '*',
{
    if show {
        user.token.clone()
    } else {
        mask_token(user.token.as_str())
    }
}

/// An upsert hitting its first occurrence is a pointwise update.
pub proof fn lemma_upsert_at_index(
    users: Seq<(Seq<char>, UserView)>,
    name: Seq<char>,
    user: UserView,
    i: int,
)
    requires
        0 <= i < users.len(),
        users[i].0 == name,
        forall|j: int| 0 <= j < i ==> users[j].0 != name,
    ensures
        upsert_users(users, name, user) =~= users.update(i, (name, user)),
    decreases i,
{
    if i == 0 {
        assert(upsert_users(users, name, user) =~= seq![(name, user)] + users.skip(1));
    } else {
        lemma_upsert_at_index(users.skip(1), name, user, i - 1);
        assert(upsert_users(users, name, user)
            =~= seq![users[0]] + upsert_users(users.skip(1), name, user));
    }
}

/// An upsert of an absent name is an append.
pub proof fn lemma_upsert_absent_appends(
    users: Seq<(Seq<char>, UserView)>,
    name: Seq<char>,
    user: UserView,
)
    requires
        forall|j: int| 0 <= j < users.len() ==> users[j].0 != name,
    ensures
        upsert_users(users, name, user) =~= users.push((name, user)),
    decreases users.len(),
{
    if users.len() > 0 {
        assert forall|j: int| 0 <= j < users.skip(1).len() implies users.skip(1)[j].0
            != name by {
            assert(users[j + 1].0 != name);
        }
        lemma_upsert_absent_appends(users.skip(1), name, user);
        assert(upsert_users(users, name, user)
            =~= seq![users[0]] + upsert_users(users.skip(1), name, user));
    }
}

/// A removal hitting its first occurrence drops exactly that index.
pub proof fn lemma_remove_at_index(
    users: Seq<(Seq<char>, UserView)>,
    name: Seq<char>,
    i: int,
)
    requires
        0 <= i < users.len(),
        users[i].0 == name,
        forall|j: int| 0 <= j < i ==> users[j].0 != name,
    ensures
        remove_users(users, name) =~= users.remove(i),
    decreases i,
{
    if i == 0 {
        assert(remove_users(users, name) =~= users.skip(1));
        assert(users.skip(1) =~= users.remove(0));
    } else {
        lemma_remove_at_index(users.skip(1), name, i - 1);
        assert(remove_users(users, name)
            =~= seq![users[0]] + remove_users(users.skip(1), name));
        assert(seq![users[0]] + users.skip(1).remove(i - 1) =~= users.remove(i));
    }
}

/// A removal of an absent name changes nothing.
pub proof fn lemma_remove_absent_id(users: Seq<(Seq<char>, UserView)>, name: Seq<char>)
    requires
        forall|j: int| 0 <= j < users.len() ==> users[j].0 != name,
    ensures
        remove_users(users, name) =~= users,
    decreases users.len(),
{
    if users.len() > 0 {
        assert forall|j: int| 0 <= j < users.skip(1).len() implies users.skip(1)[j].0
            != name by {
            assert(users[j + 1].0 != name);
        }
        lemma_remove_absent_id(users.skip(1), name);
        assert(remove_users(users, name)
            =~= seq![users[0]] + remove_users(users.skip(1), name));
    }
}

} // verus!
