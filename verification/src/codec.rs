//! The on-disk form of the credential store, and its proof of fidelity.
//!
//! The store file is a sequence of newline-terminated lines. An optional
//! first line `active <name>` records the active account; each account then
//! takes a `user <name>` line, a `token <secret>` line, and an optional
//! `email <address>` line, in that order. The empty file is the empty
//! store. Values run to the end of their line, so any string without a
//! newline round-trips exactly: `lemma_round_trip` proves that parsing an
//! encoded store gives the store back.
//!
//! The surrounding binary only reads and writes whole files; turning file
//! text into a store and back is done here, verified.

use crate::error::GoatError;
use crate::store::{names_unique, str_eq, users_view, Config, ConfigUser, ConfigView, UserView};
use vstd::prelude::*;

verus! {

/// The line tag that precedes the active-account name.
pub open spec fn active_tag() -> Seq<char> {
    "active "@
}

/// The line tag that opens an account and precedes its name.
pub open spec fn user_tag() -> Seq<char> {
    "user "@
}

/// The line tag that precedes an account's secret.
pub open spec fn token_tag() -> Seq<char> {
    "token "@
}

/// The line tag that precedes an account's email.
pub open spec fn email_tag() -> Seq<char> {
    "email "@
}

/// A single newline, the line terminator.
pub open spec fn nl() -> Seq<char> {
    seq!['\n']
}

/// Whether `s` holds no newline, so that it fits on one line.
pub open spec fn line_free(s: Seq<char>) -> bool {
    forall|i: int| 0 <= i < s.len() ==> s[i] != '\n'
}

/// The tags are line-free and each is told from the others by its first
/// character.
pub proof fn lemma_tag_facts()
    ensures
        line_free(active_tag()),
        line_free(user_tag()),
        line_free(token_tag()),
        line_free(email_tag()),
        active_tag().len() > 0,
        user_tag().len() > 0,
        token_tag().len() > 0,
        email_tag().len() > 0,
        active_tag()[0] == 'a',
        user_tag()[0] == 'u',
        token_tag()[0] == 't',
        email_tag()[0] == 'e',
{
    reveal_strlit("active ");
    reveal_strlit("user ");
    reveal_strlit("token ");
    reveal_strlit("email ");
}

/// A concatenation is line-free exactly when both parts are.
pub proof fn lemma_line_free_app(a: Seq<char>, b: Seq<char>)
    ensures
        line_free(a + b) <==> line_free(a) && line_free(b),
{
    if line_free(a) && line_free(b) {
        assert forall|i: int| 0 <= i < (a + b).len() implies (a + b)[i] != '\n' by {
            if i < a.len() {
                assert((a + b)[i] == a[i]);
            } else {
                assert((a + b)[i] == b[i - a.len()]);
            }
        }
    }
    if line_free(a + b) {
        assert forall|i: int| 0 <= i < a.len() implies a[i] != '\n' by {
            assert((a + b)[i] == a[i]);
        }
        assert forall|i: int| 0 <= i < b.len() implies b[i] != '\n' by {
            assert((a + b)[i + a.len()] == b[i]);
        }
    }
}

/// Whether `s` starts with `p`.
pub open spec fn starts_with(s: Seq<char>, p: Seq<char>) -> bool {
    s.len() >= p.len() && s.subrange(0, p.len() as int) == p
}

/// Cut `s` into its newline-terminated lines, the terminators dropped;
/// `cur` is the open line so far and `acc` the closed lines. Text after
/// the last newline closes no line, and such a tail is malformed.
pub open spec fn split_lines_rec(
    s: Seq<char>,
    cur: Seq<char>,
    acc: Seq<Seq<char>>,
) -> Option<Seq<Seq<char>>>
    decreases s.len(),
{
    if s.len() == 0 {
        if cur.len() == 0 {
            Some(acc)
        } else {
            None
        }
    } else if s[0] == '\n' {
        split_lines_rec(s.skip(1), Seq::empty(), acc.push(cur))
    } else {
        split_lines_rec(s.skip(1), cur.push(s[0]), acc)
    }
}

/// The lines of a file, or nothing when text follows the last newline.
pub open spec fn split_lines(s: Seq<char>) -> Option<Seq<Seq<char>>> {
    split_lines_rec(s, Seq::empty(), Seq::empty())
}

/// Consuming one terminated, newline-free line closes it.
pub proof fn lemma_split_consume_line(
    l: Seq<char>,
    rest: Seq<char>,
    cur: Seq<char>,
    acc: Seq<Seq<char>>,
)
    requires
        line_free(l),
    ensures
        split_lines_rec(l + nl() + rest, cur, acc) == split_lines_rec(
            rest,
            Seq::empty(),
            acc.push(cur + l),
        ),
    decreases l.len(),
{
    let s = l + nl() + rest;
    assert(s.len() > 0);
    if l.len() == 0 {
        assert(s[0] == '\n');
        assert(s.skip(1) =~= rest);
        assert(cur + l =~= cur);
    } else {
        assert(s[0] == l[0]);
        assert(l[0] != '\n');
        assert(s.skip(1) =~= l.skip(1) + nl() + rest);
        assert(line_free(l.skip(1))) by {
            assert forall|i: int| 0 <= i < l.skip(1).len() implies l.skip(1)[i] != '\n' by {
                assert(l.skip(1)[i] == l[i + 1]);
            }
        }
        lemma_split_consume_line(l.skip(1), rest, cur.push(l[0]), acc);
        assert(cur.push(l[0]) + l.skip(1) =~= cur + l);
    }
}

/// The model of one stored account on disk.
pub open spec fn encode_user(name: Seq<char>, u: UserView) -> Seq<char> {
    user_tag() + name + nl() + (token_tag() + u.token + nl()) + (match u.email {
        Some(e) => email_tag() + e + nl(),
        None => Seq::<char>::empty(),
    })
}

/// The model of the account table on disk.
pub open spec fn encode_users(users: Seq<(Seq<char>, UserView)>) -> Seq<char>
    decreases users.len(),
{
    if users.len() == 0 {
        Seq::empty()
    } else {
        encode_user(users[0].0, users[0].1) + encode_users(users.skip(1))
    }
}

/// The model of the whole store on disk.
pub open spec fn encode_spec(c: ConfigView) -> Seq<char> {
    (match c.current_user {
        Some(u) => active_tag() + u + nl(),
        None => Seq::<char>::empty(),
    }) + encode_users(c.users)
}

/// Whether one account's strings each fit on one line.
pub open spec fn user_line_safe(name: Seq<char>, u: UserView) -> bool {
    &&& line_free(name)
    &&& line_free(u.token)
    &&& match u.email {
        Some(e) => line_free(e),
        None => true,
    }
}

impl ConfigView {
    /// Whether every string of the store fits on one line, so that the
    /// store survives the trip through its file unchanged.
    pub open spec fn line_safe(&self) -> bool {
        &&& match self.current_user {
            Some(u) => line_free(u),
            None => true,
        }
        &&& forall|i: int|
            0 <= i < self.users.len() ==> user_line_safe(
                #[trigger] self.users[i].0,
                self.users[i].1,
            )
    }
}

/// The lines of one encoded account.
pub open spec fn user_lines(name: Seq<char>, u: UserView) -> Seq<Seq<char>> {
    seq![user_tag() + name, token_tag() + u.token] + (match u.email {
        Some(e) => seq![email_tag() + e],
        None => Seq::<Seq<char>>::empty(),
    })
}

/// The lines of the encoded account table.
pub open spec fn users_lines(users: Seq<(Seq<char>, UserView)>) -> Seq<Seq<char>>
    decreases users.len(),
{
    if users.len() == 0 {
        Seq::empty()
    } else {
        user_lines(users[0].0, users[0].1) + users_lines(users.skip(1))
    }
}

/// The lines of the encoded store.
pub open spec fn config_lines(c: ConfigView) -> Seq<Seq<char>> {
    (match c.current_user {
        Some(u) => seq![active_tag() + u],
        None => Seq::<Seq<char>>::empty(),
    }) + users_lines(c.users)
}

/// Splitting the encoded account table yields exactly its lines.
pub proof fn lemma_split_encode_users(users: Seq<(Seq<char>, UserView)>, acc: Seq<Seq<char>>)
    requires
        forall|i: int|
            0 <= i < users.len() ==> user_line_safe(#[trigger] users[i].0, users[i].1),
    ensures
        split_lines_rec(encode_users(users), Seq::empty(), acc) == Some(
            acc + users_lines(users),
        ),
    decreases users.len(),
{
    lemma_tag_facts();
    if users.len() == 0 {
        assert(acc + users_lines(users) =~= acc);
    } else {
        let name = users[0].0;
        let u = users[0].1;
        assert(user_line_safe(name, u));
        let l1 = user_tag() + name;
        let l2 = token_tag() + u.token;
        let tail = encode_users(users.skip(1));
        lemma_line_free_app(user_tag(), name);
        lemma_line_free_app(token_tag(), u.token);
        match u.email {
            Some(e) => {
                let l3 = email_tag() + e;
                lemma_line_free_app(email_tag(), e);
                assert(encode_users(users) =~= l1 + nl() + (l2 + nl() + (l3 + nl() + tail)));
                lemma_split_consume_line(l1, l2 + nl() + (l3 + nl() + tail), Seq::empty(), acc);
                assert(Seq::<char>::empty() + l1 =~= l1);
                lemma_split_consume_line(l2, l3 + nl() + tail, Seq::empty(), acc.push(l1));
                assert(Seq::<char>::empty() + l2 =~= l2);
                lemma_split_consume_line(l3, tail, Seq::empty(), acc.push(l1).push(l2));
                assert(Seq::<char>::empty() + l3 =~= l3);
                lemma_split_encode_users(users.skip(1), acc.push(l1).push(l2).push(l3));
                assert(acc.push(l1).push(l2).push(l3) + users_lines(users.skip(1)) =~= acc
                    + users_lines(users));
            },
            None => {
                assert(encode_users(users) =~= l1 + nl() + (l2 + nl() + tail));
                lemma_split_consume_line(l1, l2 + nl() + tail, Seq::empty(), acc);
                assert(Seq::<char>::empty() + l1 =~= l1);
                lemma_split_consume_line(l2, tail, Seq::empty(), acc.push(l1));
                assert(Seq::<char>::empty() + l2 =~= l2);
                lemma_split_encode_users(users.skip(1), acc.push(l1).push(l2));
                assert(acc.push(l1).push(l2) + users_lines(users.skip(1)) =~= acc + users_lines(
                    users,
                ));
            },
        }
    }
}

/// Read the account table from its lines: each account is a `user` line,
/// a `token` line, and an optional `email` line, in that order.
pub open spec fn parse_entries(lines: Seq<Seq<char>>) -> Option<Seq<(Seq<char>, UserView)>>
    decreases lines.len(),
{
    if lines.len() == 0 {
        Some(Seq::empty())
    } else if starts_with(lines[0], user_tag()) {
        let name = lines[0].skip(user_tag().len() as int);
        if lines.len() >= 2 && starts_with(lines[1], token_tag()) {
            let token = lines[1].skip(token_tag().len() as int);
            if lines.len() >= 3 && starts_with(lines[2], email_tag()) {
                let email = lines[2].skip(email_tag().len() as int);
                match parse_entries(lines.skip(3)) {
                    Some(rest) => Some(
                        seq![(name, UserView { email: Some(email), token })] + rest,
                    ),
                    None => None,
                }
            } else {
                match parse_entries(lines.skip(2)) {
                    Some(rest) => Some(seq![(name, UserView { email: None, token })] + rest),
                    None => None,
                }
            }
        } else {
            None
        }
    } else {
        None
    }
}

/// Read the store from its lines: an optional leading `active` line, then
/// the account table, whose names must be pairwise distinct.
pub open spec fn parse_lines(lines: Seq<Seq<char>>) -> Option<ConfigView> {
    if lines.len() > 0 && starts_with(lines[0], active_tag()) {
        match parse_entries(lines.skip(1)) {
            Some(us) => if names_unique(us) {
                Some(
                    ConfigView {
                        current_user: Some(lines[0].skip(active_tag().len() as int)),
                        users: us,
                    },
                )
            } else {
                None
            },
            None => None,
        }
    } else {
        match parse_entries(lines) {
            Some(us) => if names_unique(us) {
                Some(ConfigView { current_user: None, users: us })
            } else {
                None
            },
            None => None,
        }
    }
}

/// The meaning of a store file: its lines, read as a store.
pub open spec fn parse_spec(s: Seq<char>) -> Option<ConfigView> {
    match split_lines(s) {
        Some(lines) => parse_lines(lines),
        None => None,
    }
}

/// A tagged line gives its value back.
pub proof fn lemma_tag_extract(tag: Seq<char>, v: Seq<char>)
    ensures
        starts_with(tag + v, tag),
        (tag + v).skip(tag.len() as int) =~= v,
{
    assert((tag + v).subrange(0, tag.len() as int) =~= tag);
}

/// Reading the lines of the encoded account table gives the table back.
pub proof fn lemma_parse_encode_users(users: Seq<(Seq<char>, UserView)>)
    ensures
        parse_entries(users_lines(users)) == Some(users),
    decreases users.len(),
{
    lemma_tag_facts();
    if users.len() == 0 {
        assert(users_lines(users).len() == 0);
        assert(users =~= Seq::<(Seq<char>, UserView)>::empty());
    } else {
        let name = users[0].0;
        let u = users[0].1;
        let lines = users_lines(users);
        let rest_lines = users_lines(users.skip(1));
        lemma_parse_encode_users(users.skip(1));
        lemma_tag_extract(user_tag(), name);
        lemma_tag_extract(token_tag(), u.token);
        match u.email {
            Some(e) => {
                lemma_tag_extract(email_tag(), e);
                assert(lines =~= seq![user_tag() + name, token_tag() + u.token, email_tag() + e]
                    + rest_lines);
                assert(lines[0] == user_tag() + name);
                assert(lines[1] == token_tag() + u.token);
                assert(lines[2] == email_tag() + e);
                assert(lines.skip(3) =~= rest_lines);
                assert(lines[0].skip(user_tag().len() as int) == name);
                assert(lines[1].skip(token_tag().len() as int) == u.token);
                assert(lines[2].skip(email_tag().len() as int) == e);
                assert(UserView { email: Some(e), token: u.token } == u);
                assert(seq![(name, u)] + users.skip(1) =~= users);
            },
            None => {
                assert(lines =~= seq![user_tag() + name, token_tag() + u.token] + rest_lines);
                assert(lines[0] == user_tag() + name);
                assert(lines[1] == token_tag() + u.token);
                assert(lines.skip(2) =~= rest_lines);
                assert(lines[0].skip(user_tag().len() as int) == name);
                assert(lines[1].skip(token_tag().len() as int) == u.token);
                // A third line, if any, opens the next account, whose
                // `user` tag cannot pass for an `email` tag.
                if lines.len() >= 3 {
                    assert(users.skip(1).len() > 0);
                    assert(lines[2] == rest_lines[0]);
                    assert(rest_lines[0] == user_tag() + users.skip(1)[0].0);
                    assert(lines[2][0] == 'u');
                    if starts_with(lines[2], email_tag()) {
                        assert(lines[2].subrange(0, email_tag().len() as int)[0] == lines[2][0]);
                        assert(lines[2][0] == 'e');
                    }
                    assert(!starts_with(lines[2], email_tag()));
                }
                assert(UserView { email: None, token: u.token } == u);
                assert(seq![(name, u)] + users.skip(1) =~= users);
            },
        }
    }
}

/// Reading the lines of an encoded well-formed store gives the store back.
pub proof fn lemma_parse_encode_lines(c: ConfigView)
    requires
        names_unique(c.users),
    ensures
        parse_lines(config_lines(c)) == Some(c),
{
    lemma_tag_facts();
    let lines = config_lines(c);
    lemma_parse_encode_users(c.users);
    match c.current_user {
        Some(u) => {
            lemma_tag_extract(active_tag(), u);
            assert(lines =~= seq![active_tag() + u] + users_lines(c.users));
            assert(lines[0] == active_tag() + u);
            assert(lines.skip(1) =~= users_lines(c.users));
            assert(lines[0].skip(active_tag().len() as int) == u);
            assert(parse_lines(lines) == Some(
                ConfigView { current_user: Some(u), users: c.users },
            ));
            assert(ConfigView { current_user: Some(u), users: c.users } == c);
        },
        None => {
            assert(lines =~= users_lines(c.users));
            // An empty table has no lines; a non-empty one opens with a
            // `user` tag, which cannot pass for an `active` tag.
            if lines.len() > 0 {
                assert(c.users.len() > 0);
                assert(lines[0] == user_tag() + c.users[0].0);
                assert(lines[0][0] == 'u');
                if starts_with(lines[0], active_tag()) {
                    assert(lines[0].subrange(0, active_tag().len() as int)[0] == lines[0][0]);
                    assert(lines[0][0] == 'a');
                }
                assert(!starts_with(lines[0], active_tag()));
            }
            assert(parse_lines(lines) == Some(ConfigView { current_user: None, users: c.users }));
            assert(ConfigView { current_user: None, users: c.users } == c);
        },
    }
}

/// Round trip: a well-formed store whose strings hold no newline is
/// exactly recovered by reading back its encoded file.
pub proof fn lemma_round_trip(c: ConfigView)
    requires
        c.wf(),
        c.line_safe(),
    ensures
        parse_spec(encode_spec(c)) == Some(c),
{
    lemma_split_encode(c);
    lemma_parse_encode_lines(c);
}

/// The file whose lines are `lines`, each newline-terminated.
pub open spec fn unsplit(lines: Seq<Seq<char>>) -> Seq<char>
    decreases lines.len(),
{
    if lines.len() == 0 {
        Seq::empty()
    } else {
        lines[0] + nl() + unsplit(lines.skip(1))
    }
}

/// One more line appends its text and a terminator.
proof fn lemma_unsplit_snoc(lines: Seq<Seq<char>>, x: Seq<char>)
    ensures
        unsplit(lines.push(x)) == unsplit(lines) + x + nl(),
    decreases lines.len(),
{
    if lines.len() == 0 {
        assert(lines.push(x)[0] == x);
        assert(lines.push(x).skip(1) =~= lines);
        assert(unsplit(lines) =~= Seq::<char>::empty());
        assert(unsplit(lines.push(x)) =~= unsplit(lines) + x + nl());
    } else {
        assert(lines.push(x)[0] == lines[0]);
        assert(lines.push(x).skip(1) =~= lines.skip(1).push(x));
        lemma_unsplit_snoc(lines.skip(1), x);
        assert(lines[0] + nl() + (unsplit(lines.skip(1)) + x + nl()) =~= (lines[0] + nl()
            + unsplit(lines.skip(1))) + x + nl());
    }
}

/// `unsplit` distributes over concatenation of line sequences.
proof fn lemma_unsplit_app(a: Seq<Seq<char>>, b: Seq<Seq<char>>)
    ensures
        unsplit(a + b) == unsplit(a) + unsplit(b),
    decreases a.len(),
{
    if a.len() == 0 {
        assert(a + b =~= b);
        assert(unsplit(a) =~= Seq::<char>::empty());
        assert(unsplit(a) + unsplit(b) =~= unsplit(b));
    } else {
        assert((a + b)[0] == a[0]);
        assert((a + b).skip(1) =~= a.skip(1) + b);
        lemma_unsplit_app(a.skip(1), b);
        assert(a[0] + nl() + (unsplit(a.skip(1)) + unsplit(b)) =~= (a[0] + nl() + unsplit(
            a.skip(1),
        )) + unsplit(b));
    }
}

/// A split that succeeds loses nothing: the lines carry the whole file.
proof fn lemma_split_rec_inverse(s: Seq<char>, cur: Seq<char>, acc: Seq<Seq<char>>)
    requires
        split_lines_rec(s, cur, acc) is Some,
    ensures
        unsplit(split_lines_rec(s, cur, acc)->0) == unsplit(acc) + cur + s,
    decreases s.len(),
{
    if s.len() == 0 {
        assert(cur.len() == 0);
        assert(unsplit(acc) + cur + s =~= unsplit(acc));
    } else if s[0] == '\n' {
        lemma_split_rec_inverse(s.skip(1), Seq::empty(), acc.push(cur));
        lemma_unsplit_snoc(acc, cur);
        assert(unsplit(acc.push(cur)) + Seq::<char>::empty() + s.skip(1) =~= (unsplit(acc) + cur
            + nl()) + s.skip(1));
        assert((unsplit(acc) + cur + nl()) + s.skip(1) =~= unsplit(acc) + cur + s);
    } else {
        lemma_split_rec_inverse(s.skip(1), cur.push(s[0]), acc);
        assert(unsplit(acc) + cur.push(s[0]) + s.skip(1) =~= unsplit(acc) + cur + s);
    }
}

/// Putting the split lines back together gives the file.
proof fn lemma_split_inverse(s: Seq<char>, lines: Seq<Seq<char>>)
    requires
        split_lines(s) == Some(lines),
    ensures
        unsplit(lines) == s,
{
    lemma_split_rec_inverse(s, Seq::empty(), Seq::empty());
    assert(unsplit(Seq::<Seq<char>>::empty()) =~= Seq::<char>::empty());
    assert(Seq::<char>::empty() + Seq::<char>::empty() + s =~= s);
}

/// Lines the table parser accepts are exactly the lines of what it parsed.
proof fn lemma_parse_entries_inverse(lines: Seq<Seq<char>>)
    requires
        parse_entries(lines) is Some,
    ensures
        users_lines(parse_entries(lines)->0) == lines,
    decreases lines.len(),
{
    let us = parse_entries(lines)->0;
    if lines.len() == 0 {
        assert(users_lines(us) =~= lines);
    } else {
        let name = lines[0].skip(user_tag().len() as int);
        let token = lines[1].skip(token_tag().len() as int);
        assert(lines[0] =~= lines[0].subrange(0, user_tag().len() as int) + lines[0].skip(
            user_tag().len() as int,
        ));
        assert(lines[0] == user_tag() + name);
        assert(lines[1] =~= lines[1].subrange(0, token_tag().len() as int) + lines[1].skip(
            token_tag().len() as int,
        ));
        assert(lines[1] == token_tag() + token);
        if lines.len() >= 3 && starts_with(lines[2], email_tag()) {
            let email = lines[2].skip(email_tag().len() as int);
            assert(lines[2] =~= lines[2].subrange(0, email_tag().len() as int) + lines[2].skip(
                email_tag().len() as int,
            ));
            assert(lines[2] == email_tag() + email);
            let entry = (name, UserView { email: Some(email), token });
            let rest = parse_entries(lines.skip(3))->0;
            lemma_parse_entries_inverse(lines.skip(3));
            assert(us == seq![entry] + rest);
            assert(us[0] == entry);
            assert(us.skip(1) =~= rest);
            assert(users_lines(us) =~= lines);
        } else {
            let entry = (name, UserView { email: None, token });
            let rest = parse_entries(lines.skip(2))->0;
            lemma_parse_entries_inverse(lines.skip(2));
            assert(us == seq![entry] + rest);
            assert(us[0] == entry);
            assert(us.skip(1) =~= rest);
            assert(users_lines(us) =~= lines);
        }
    }
}

/// Lines the store parser accepts are exactly the lines of what it parsed.
proof fn lemma_parse_lines_inverse(lines: Seq<Seq<char>>, c: ConfigView)
    requires
        parse_lines(lines) == Some(c),
    ensures
        config_lines(c) == lines,
{
    if lines.len() > 0 && starts_with(lines[0], active_tag()) {
        lemma_parse_entries_inverse(lines.skip(1));
        assert(lines[0] =~= lines[0].subrange(0, active_tag().len() as int) + lines[0].skip(
            active_tag().len() as int,
        ));
        assert(lines[0] == active_tag() + lines[0].skip(active_tag().len() as int));
        assert(config_lines(c) =~= lines);
    } else {
        lemma_parse_entries_inverse(lines);
        assert(config_lines(c) =~= lines);
    }
}

/// The text of the table's lines is the table's encoding.
proof fn lemma_unsplit_users_lines(us: Seq<(Seq<char>, UserView)>)
    ensures
        unsplit(users_lines(us)) == encode_users(us),
    decreases us.len(),
{
    if us.len() == 0 {
        assert(unsplit(users_lines(us)) =~= encode_users(us));
    } else {
        let name = us[0].0;
        let u = us[0].1;
        let l1 = user_tag() + name;
        let l2 = token_tag() + u.token;
        lemma_unsplit_app(user_lines(name, u), users_lines(us.skip(1)));
        lemma_unsplit_users_lines(us.skip(1));
        match u.email {
            Some(e) => {
                let l3 = email_tag() + e;
                assert(user_lines(name, u) =~= seq![l1, l2, l3]);
                assert(seq![l1, l2, l3].skip(1) =~= seq![l2, l3]);
                assert(seq![l2, l3].skip(1) =~= seq![l3]);
                assert(seq![l3].skip(1) =~= Seq::<Seq<char>>::empty());
                assert(unsplit(Seq::<Seq<char>>::empty()) =~= Seq::<char>::empty());
                assert(unsplit(seq![l3]) =~= l3 + nl());
                assert(unsplit(seq![l2, l3]) =~= l2 + nl() + (l3 + nl()));
                assert(unsplit(seq![l1, l2, l3]) =~= l1 + nl() + (l2 + nl() + (l3 + nl())));
                assert(encode_user(name, u) =~= l1 + nl() + (l2 + nl() + (l3 + nl())));
            },
            None => {
                assert(user_lines(name, u) =~= seq![l1, l2]);
                assert(seq![l1, l2].skip(1) =~= seq![l2]);
                assert(seq![l2].skip(1) =~= Seq::<Seq<char>>::empty());
                assert(unsplit(Seq::<Seq<char>>::empty()) =~= Seq::<char>::empty());
                assert(unsplit(seq![l2]) =~= l2 + nl());
                assert(unsplit(seq![l1, l2]) =~= l1 + nl() + (l2 + nl()));
                assert(encode_user(name, u) =~= l1 + nl() + (l2 + nl()));
            },
        }
        assert(unsplit(users_lines(us)) =~= encode_users(us));
    }
}

/// The text of the store's lines is the store's encoding.
proof fn lemma_unsplit_config_lines(c: ConfigView)
    ensures
        unsplit(config_lines(c)) == encode_spec(c),
{
    lemma_unsplit_users_lines(c.users);
    match c.current_user {
        Some(u) => {
            let l0 = active_tag() + u;
            lemma_unsplit_app(seq![l0], users_lines(c.users));
            assert(seq![l0].skip(1) =~= Seq::<Seq<char>>::empty());
            assert(unsplit(Seq::<Seq<char>>::empty()) =~= Seq::<char>::empty());
            assert(unsplit(seq![l0]) =~= l0 + nl());
            assert(unsplit(config_lines(c)) =~= encode_spec(c));
        },
        None => {
            assert(config_lines(c) =~= users_lines(c.users));
            assert(unsplit(config_lines(c)) =~= encode_spec(c));
        },
    }
}

/// Saving what was just loaded writes the very same file: any file the
/// parser accepts is exactly the encoding of the store it yields.
pub proof fn lemma_save_after_load(s: Seq<char>, c: ConfigView)
    requires
        parse_spec(s) == Some(c),
    ensures
        encode_spec(c) == s,
{
    let lines = split_lines(s)->0;
    lemma_split_inverse(s, lines);
    lemma_parse_lines_inverse(lines, c);
    lemma_unsplit_config_lines(c);
}

/// The encoding is one-to-one on well-formed, line-safe stores: distinct
/// stores never write the same file.
pub proof fn lemma_encode_injective(a: ConfigView, b: ConfigView)
    requires
        a.wf(),
        a.line_safe(),
        b.wf(),
        b.line_safe(),
        encode_spec(a) == encode_spec(b),
    ensures
        a == b,
{
    lemma_round_trip(a);
    lemma_round_trip(b);
}

/// Splitting the encoded store yields exactly its lines.
pub proof fn lemma_split_encode(c: ConfigView)
    requires
        c.line_safe(),
    ensures
        split_lines(encode_spec(c)) == Some(config_lines(c)),
{
    lemma_tag_facts();
    match c.current_user {
        Some(u) => {
            let l0 = active_tag() + u;
            lemma_line_free_app(active_tag(), u);
            assert(encode_spec(c) =~= l0 + nl() + encode_users(c.users));
            lemma_split_consume_line(l0, encode_users(c.users), Seq::empty(), Seq::empty());
            assert(Seq::<char>::empty() + l0 =~= l0);
            lemma_split_encode_users(c.users, Seq::<Seq<char>>::empty().push(l0));
            assert(Seq::<Seq<char>>::empty().push(l0) + users_lines(c.users) =~= config_lines(
                c,
            ));
        },
        None => {
            assert(encode_spec(c) =~= encode_users(c.users));
            lemma_split_encode_users(c.users, Seq::<Seq<char>>::empty());
            assert(Seq::<Seq<char>>::empty() + users_lines(c.users) =~= config_lines(c));
        },
    }
}

/// The newline literal is the line terminator of the model.
proof fn lemma_nl_lit()
    ensures
        "\n"@ == nl(),
{
    reveal_strlit("\n");
    assert("\n"@ =~= nl());
}

/// Encoding one more account appends its encoding.
proof fn lemma_encode_users_snoc(users: Seq<(Seq<char>, UserView)>, x: (Seq<char>, UserView))
    ensures
        encode_users(users.push(x)) == encode_users(users) + encode_user(x.0, x.1),
    decreases users.len(),
{
    if users.len() == 0 {
        assert(users.push(x)[0] == x);
        assert(users.push(x).skip(1) =~= users);
        assert(encode_users(users) =~= Seq::<char>::empty());
        assert(encode_users(users.push(x)) =~= encode_users(users) + encode_user(x.0, x.1));
    } else {
        assert(users.push(x)[0] == users[0]);
        assert(users.push(x).skip(1) =~= users.skip(1).push(x));
        lemma_encode_users_snoc(users.skip(1), x);
        assert(encode_user(users[0].0, users[0].1) + (encode_users(users.skip(1)) + encode_user(
            x.0,
            x.1,
        )) =~= encode_users(users) + encode_user(x.0, x.1));
    }
}

/// Whether `s` starts with the prefix `p`, character for character.
fn has_prefix(s: &str, p: &str) -> (r: bool)
    ensures
        r == starts_with(s@, p@),
{
    let sn = s.unicode_len();
    let pn = p.unicode_len();
    if sn < pn {
        return false;
    }
    let mut i: usize = 0;
    while i < pn
        invariant
            sn == s@.len(),
            pn == p@.len(),
            pn <= sn,
            0 <= i <= pn,
            forall|j: int| 0 <= j < i ==> s@[j] == p@[j],
        decreases pn - i,
    {
        if s.get_char(i) != p.get_char(i) {
            proof {
                assert(s@.subrange(0, p@.len() as int)[i as int] == s@[i as int]);
            }
            return false;
        }
        i += 1;
    }
    proof {
        assert(s@.subrange(0, p@.len() as int) =~= p@);
    }
    true
}

/// The characters of `s` from index `k` on, as a fresh string.
fn suffix_from(s: &str, k: usize) -> (r: String)
    requires
        k <= s@.len(),
    ensures
        r@ == s@.skip(k as int),
{
    let piece = s.substring_char(k, s.unicode_len());
    proof {
        assert(s@.subrange(k as int, s@.len() as int) =~= s@.skip(k as int));
    }
    String::from_str(piece)
}

/// Whether `s` holds no newline.
pub fn line_free_str(s: &str) -> (r: bool)
    ensures
        r == line_free(s@),
{
    let n = s.unicode_len();
    let mut i: usize = 0;
    while i < n
        invariant
            n == s@.len(),
            0 <= i <= n,
            forall|j: int| 0 <= j < i ==> s@[j] != '\n',
        decreases n - i,
    {
        if s.get_char(i) == '\n' {
            return false;
        }
        i += 1;
    }
    true
}

/// Whether every string of the store fits on one line, so that writing the
/// store out produces a file that reads back to the same store.
pub fn is_line_safe(config: &Config) -> (r: bool)
    ensures
        r == config@.line_safe(),
{
    match &config.current_user {
        Some(u) => {
            if !line_free_str(u.as_str()) {
                return false;
            }
        },
        None => {},
    }
    let mut i: usize = 0;
    while i < config.users.len()
        invariant
            0 <= i <= config.users.len(),
            config@.users.len() == config.users.len(),
            match config@.current_user {
                Some(u) => line_free(u),
                None => true,
            },
            forall|j: int|
                0 <= j < i ==> user_line_safe(
                    #[trigger] config@.users[j].0,
                    config@.users[j].1,
                ),
        decreases config.users.len() - i,
    {
        let pair = &config.users[i];
        proof {
            assert(config@.users[i as int] == (pair.0@, pair.1@));
        }
        if !line_free_str(pair.0.as_str()) {
            proof {
                assert(!user_line_safe(config@.users[i as int].0, config@.users[i as int].1));
            }
            return false;
        }
        if !line_free_str(pair.1.token.as_str()) {
            proof {
                assert(!user_line_safe(config@.users[i as int].0, config@.users[i as int].1));
            }
            return false;
        }
        match &pair.1.email {
            Some(e) => {
                if !line_free_str(e.as_str()) {
                    proof {
                        assert(pair.1@.email == Some(e@));
                        assert(!user_line_safe(
                            config@.users[i as int].0,
                            config@.users[i as int].1,
                        ));
                    }
                    return false;
                }
            },
            None => {},
        }
        i += 1;
    }
    true
}

/// Whether the account names are pairwise distinct.
fn names_are_unique(users: &Vec<(String, ConfigUser)>) -> (r: bool)
    ensures
        r == names_unique(users_view(users@)),
{
    let ghost uv = users_view(users@);
    let mut k: usize = 0;
    while k < users.len()
        invariant
            uv == users_view(users@),
            0 <= k <= users.len(),
            uv.len() == users.len(),
            forall|i: int, j: int| 0 <= i < j < k ==> uv[i].0 != uv[j].0,
        decreases users.len() - k,
    {
        let mut j: usize = 0;
        while j < k
            invariant
                uv == users_view(users@),
                0 <= j <= k < users.len(),
                uv.len() == users.len(),
                forall|jj: int| 0 <= jj < j ==> uv[jj].0 != uv[k as int].0,
            decreases k - j,
        {
            if str_eq(users[j].0.as_str(), users[k].0.as_str()) {
                proof {
                    assert(uv[j as int].0 == uv[k as int].0);
                    assert(!names_unique(uv));
                }
                return false;
            }
            j += 1;
        }
        k += 1;
    }
    true
}

/// Write the store out in its on-disk form.
pub fn encode_config(config: &Config) -> (r: String)
    ensures
        r@ == encode_spec(config@),
{
    proof {
        lemma_nl_lit();
    }
    let mut out = String::new();
    match &config.current_user {
        Some(u) => {
            out.append("active ");
            out.append(u.as_str());
            out.append("\n");
        },
        None => {},
    }
    let ghost head = out@;
    proof {
        assert(head =~= (match config@.current_user {
            Some(u) => active_tag() + u + nl(),
            None => Seq::<char>::empty(),
        }));
        assert(config@.users.take(0) =~= Seq::<(Seq<char>, UserView)>::empty());
        assert(out@ =~= head + encode_users(config@.users.take(0)));
    }
    let mut i: usize = 0;
    while i < config.users.len()
        invariant
            0 <= i <= config.users.len(),
            config@.users.len() == config.users.len(),
            head == (match config@.current_user {
                Some(u) => active_tag() + u + nl(),
                None => Seq::<char>::empty(),
            }),
            out@ == head + encode_users(config@.users.take(i as int)),
        decreases config.users.len() - i,
    {
        proof {
            lemma_nl_lit();
        }
        let ghost before = out@;
        let pair = &config.users[i];
        out.append("user ");
        out.append(pair.0.as_str());
        out.append("\n");
        out.append("token ");
        out.append(pair.1.token.as_str());
        out.append("\n");
        match &pair.1.email {
            Some(e) => {
                out.append("email ");
                out.append(e.as_str());
                out.append("\n");
            },
            None => {},
        }
        proof {
            let entry = config@.users[i as int];
            assert(entry == (pair.0@, pair.1@));
            assert(out@ =~= before + encode_user(entry.0, entry.1));
            lemma_encode_users_snoc(config@.users.take(i as int), entry);
            assert(config@.users.take(i as int).push(entry) =~= config@.users.take(
                i as int + 1,
            ));
            assert(out@ =~= head + encode_users(config@.users.take(i as int + 1)));
        }
        i += 1;
    }
    proof {
        assert(config@.users.take(config.users.len() as int) =~= config@.users);
        assert(out@ =~= encode_spec(config@));
    }
    out
}

/// A failed account table fails the whole file.
proof fn lemma_parse_lines_none(lv: Seq<Seq<char>>, start: int)
    requires
        start == 0 || start == 1,
        (start == 1) <==> (lv.len() > 0 && starts_with(lv[0], active_tag())),
        parse_entries(lv.skip(start)) is None,
    ensures
        parse_lines(lv) is None,
{
    if start == 0 {
        assert(lv.skip(0) =~= lv);
    }
}

/// A duplicated account name fails the whole file.
proof fn lemma_parse_lines_dup(lv: Seq<Seq<char>>, start: int, us: Seq<(Seq<char>, UserView)>)
    requires
        start == 0 || start == 1,
        (start == 1) <==> (lv.len() > 0 && starts_with(lv[0], active_tag())),
        parse_entries(lv.skip(start)) == Some(us),
        !names_unique(us),
    ensures
        parse_lines(lv) is None,
{
    if start == 0 {
        assert(lv.skip(0) =~= lv);
    }
}

/// A parsed account table with distinct names makes the store.
proof fn lemma_parse_lines_done(lv: Seq<Seq<char>>, start: int, us: Seq<(Seq<char>, UserView)>)
    requires
        start == 0 || start == 1,
        (start == 1) <==> (lv.len() > 0 && starts_with(lv[0], active_tag())),
        parse_entries(lv.skip(start)) == Some(us),
        names_unique(us),
    ensures
        start == 1 ==> parse_lines(lv) == Some(
            ConfigView {
                current_user: Some(lv[0].skip(active_tag().len() as int)),
                users: us,
            },
        ),
        start == 0 ==> parse_lines(lv) == Some(ConfigView { current_user: None, users: us }),
{
    if start == 0 {
        assert(lv.skip(0) =~= lv);
    }
}

/// Read a store file back. Every malformed file is refused: text after the
/// last newline, a line out of order or under an unknown tag, or two
/// accounts sharing a name.
pub fn parse_config(s: &str) -> (r: Result<Config, GoatError>)
    ensures
        match r {
            Ok(c) => parse_spec(s@) == Some(c@) && c@.wf(),
            Err(e) => parse_spec(s@) is None && e == GoatError::ConfigRead,
        },
{
    let n = s.unicode_len();
    let mut lines: Vec<String> = Vec::new();
    let mut cur = String::new();
    proof {
        assert(s@.skip(0) =~= s@);
        assert(lines.deep_view() =~= Seq::<Seq<char>>::empty());
    }
    let mut i: usize = 0;
    while i < n
        invariant
            n == s@.len(),
            0 <= i <= n,
            split_lines_rec(s@.skip(i as int), cur@, lines.deep_view()) == split_lines(s@),
        decreases n - i,
    {
        let ghost t = s@.skip(i as int);
        let ghost lv0 = lines.deep_view();
        let ghost cur0 = cur@;
        let c = s.get_char(i);
        proof {
            assert(t[0] == s@[i as int]);
            assert(t.skip(1) =~= s@.skip(i as int + 1));
        }
        if c == '\n' {
            lines.push(cur);
            cur = String::new();
            proof {
                assert(lines.deep_view() =~= lv0.push(cur0));
            }
        } else {
            let piece = s.substring_char(i, i + 1);
            proof {
                assert(piece@ =~= seq![s@[i as int]]);
            }
            cur.append(piece);
            proof {
                assert(cur@ =~= cur0.push(t[0]));
            }
        }
        i += 1;
    }
    proof {
        assert(s@.skip(n as int) =~= Seq::<char>::empty());
    }
    if !cur.as_str().is_empty() {
        return Err(GoatError::ConfigRead);
    }
    let ghost lv = lines.deep_view();
    proof {
        assert(split_lines(s@) == Some(lv));
    }
    let mut current: Option<String> = None;
    let mut idx: usize = 0;
    let ghost start: int = if lv.len() > 0 && starts_with(lv[0], active_tag()) {
        1
    } else {
        0
    };
    if lines.len() > 0 {
        proof {
            assert(lv[0] == lines@[0]@);
        }
        let line0 = lines[0].as_str();
        if has_prefix(line0, "active ") {
            current = Some(suffix_from(line0, "active ".unicode_len()));
            idx = 1;
        }
    }
    let mut users: Vec<(String, ConfigUser)> = Vec::new();
    proof {
        assert(users_view(users@) =~= Seq::<(Seq<char>, UserView)>::empty());
        if parse_entries(lv.skip(start)) is Some {
            let rest = parse_entries(lv.skip(start))->0;
            assert(users_view(users@) + rest =~= rest);
        }
    }
    while idx < lines.len()
        invariant
            start == 0 || start == 1,
            start <= idx as int,
            idx <= lines.len(),
            lv == lines.deep_view(),
            lv.len() == lines.len(),
            split_lines(s@) == Some(lv),
            (start == 1) <==> (lv.len() > 0 && starts_with(lv[0], active_tag())),
            current.deep_view() == (if start == 1 {
                Some(lv[0].skip(active_tag().len() as int))
            } else {
                None::<Seq<char>>
            }),
            parse_entries(lv.skip(idx as int)) is Some ==> parse_entries(lv.skip(start))
                == Some(users_view(users@) + parse_entries(lv.skip(idx as int))->0),
            parse_entries(lv.skip(idx as int)) is None ==> parse_entries(lv.skip(start)) is None,
        decreases lines.len() - idx,
    {
        let ghost t = lv.skip(idx as int);
        proof {
            assert(t[0] == lv[idx as int]);
            assert(lv[idx as int] == lines@[idx as int]@);
        }
        let line = lines[idx].as_str();
        if !has_prefix(line, "user ") {
            proof {
                assert(parse_entries(t) is None);
                lemma_parse_lines_none(lv, start);
            }
            return Err(GoatError::ConfigRead);
        }
        let name = suffix_from(line, "user ".unicode_len());
        if idx + 1 >= lines.len() {
            proof {
                assert(t.len() < 2);
                assert(parse_entries(t) is None);
                lemma_parse_lines_none(lv, start);
            }
            return Err(GoatError::ConfigRead);
        }
        proof {
            assert(t[1] == lv[idx as int + 1]);
            assert(lv[idx as int + 1] == lines@[idx as int + 1]@);
        }
        let tline = lines[idx + 1].as_str();
        if !has_prefix(tline, "token ") {
            proof {
                assert(parse_entries(t) is None);
                lemma_parse_lines_none(lv, start);
            }
            return Err(GoatError::ConfigRead);
        }
        let token = suffix_from(tline, "token ".unicode_len());
        let mut email: Option<String> = None;
        let mut step: usize = 2;
        if idx + 2 < lines.len() {
            proof {
                assert(t[2] == lv[idx as int + 2]);
                assert(lv[idx as int + 2] == lines@[idx as int + 2]@);
            }
            let eline = lines[idx + 2].as_str();
            if has_prefix(eline, "email ") {
                email = Some(suffix_from(eline, "email ".unicode_len()));
                step = 3;
            }
        }
        let ghost uv0 = users_view(users@);
        let user = ConfigUser { email, token };
        let ghost entry = (name@, user@);
        users.push((name, user));
        proof {
            assert(users_view(users@) =~= uv0.push(entry));
        }
        idx += step;
        proof {
            assert(t.skip(step as int) =~= lv.skip(idx as int));
            assert(entry.0 == t[0].skip(user_tag().len() as int));
            if step == 3 {
                assert(t.len() >= 3 && starts_with(t[2], email_tag()));
                assert(entry.1 =~= UserView {
                    email: Some(t[2].skip(email_tag().len() as int)),
                    token: t[1].skip(token_tag().len() as int),
                });
            } else {
                assert(!(t.len() >= 3 && starts_with(t[2], email_tag())));
                assert(entry.1 =~= UserView {
                    email: None,
                    token: t[1].skip(token_tag().len() as int),
                });
            }
            if parse_entries(lv.skip(idx as int)) is Some {
                let rest = parse_entries(lv.skip(idx as int))->0;
                assert(parse_entries(t) == Some(seq![entry] + rest));
                assert(uv0 + (seq![entry] + rest) =~= users_view(users@) + rest);
            } else {
                assert(parse_entries(t) is None);
            }
        }
    }
    proof {
        assert(lv.skip(lines.len() as int) =~= Seq::<Seq<char>>::empty());
        assert(parse_entries(lv.skip(idx as int)) == Some(
            Seq::<(Seq<char>, UserView)>::empty(),
        ));
        assert(users_view(users@) + Seq::<(Seq<char>, UserView)>::empty() =~= users_view(
            users@,
        ));
    }
    if !names_are_unique(&users) {
        proof {
            lemma_parse_lines_dup(lv, start, users_view(users@));
        }
        return Err(GoatError::ConfigRead);
    }
    proof {
        lemma_parse_lines_done(lv, start, users_view(users@));
    }
    let config = Config { current_user: current, users };
    proof {
        if start == 1 {
            assert(config@ =~= ConfigView {
                current_user: Some(lv[0].skip(active_tag().len() as int)),
                users: users_view(config.users@),
            });
        } else {
            assert(config@ =~= ConfigView {
                current_user: None,
                users: users_view(config.users@),
            });
        }
    }
    Ok(config)
}

} // verus!

