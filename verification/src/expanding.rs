//! What the configuration says: how paths in it are expanded, which repositories it names,
//! and which patterns a repository keeps.
use crate::config::{
    before, config_from, config_home, error_text, expanded, expanded_path, expanded_repos,
    ignore_file, lemma_expanded_repos_fails, lemma_no_repos, lemma_only_texts_fails,
    lemma_plain_from, name_char, name_end, only_texts, patterns_of, repos_at, repos_in, slash_from,
    trim_from, trim_to, trimmed, white_space, EnvView, ErrorView, JsonView, MemberView, VarError,
};
use crate::telling::holds;
use crate::text::{begins_with, finishes_with};
use vstd::prelude::*;

verus! {

/// A letter, a digit or an underscore: what the name of a variable is made of.
pub open spec fn word_char(c: char) -> bool {
    ('A' <= c <= 'Z') || ('a' <= c <= 'z') || ('0' <= c <= '9') || c == '_'
}

/// The text is made of letters, digits and underscores, and is not empty.
pub open spec fn word(s: Seq<char>) -> bool {
    s.len() > 0 && forall|i: int| 0 <= i < s.len() ==> word_char(#[trigger] s[i])
}

/// A tilde with a slash behind it stands for the home directory, and all that follows is
/// kept. A tilde alone is the home directory.
pub proof fn law_home_path(rest: Seq<char>, name: Seq<char>, env: EnvView)
    requires
        !rest.contains('$'),
        !env.home.contains('$'),
    ensures
        expanded_path(seq!['~', '/'] + rest, name, env) == Ok::<Seq<char>, ErrorView>(
            env.home + seq!['/'] + rest,
        ),
        expanded_path(seq!['~'], name, env) == Ok::<Seq<char>, ErrorView>(env.home),
{
    reveal_strlit("~");
    reveal_strlit("~/");
    reveal_strlit("/");
    let raw = seq!['~', '/'] + rest;
    assert(raw.take(2) =~= "~/"@);
    assert(raw.skip(2) =~= rest);
    assert(raw != "~"@);
    let out = env.home + seq!['/'] + rest;
    assert(env.home + "/"@ + rest =~= out);
    assert(!out.contains('$')) by {
        if out.contains('$') {
            let k = choose|k: int| 0 <= k < out.len() && out[k] == '$';
            if k < env.home.len() {
                assert(env.home[k] == '$');
            } else {
                assert(rest[k - env.home.len() - 1] == '$');
            }
        }
    }
    lemma_plain_from(out, 0, env.vars);
    assert(out.skip(0) =~= out);
    lemma_plain_from(env.home, 0, env.vars);
    assert(env.home.skip(0) =~= env.home);
    assert(seq!['~'] =~= "~"@);
}

/// A tilde with the name of a user behind it stands for the home directory of the user, and
/// all that follows is kept. One that is not known is an error that names the user.
pub proof fn law_user_path(
    user: Seq<char>,
    rest: Seq<char>,
    name: Seq<char>,
    env: EnvView,
)
    requires
        user.len() > 0,
        !user.contains('/'),
        rest.len() == 0 || rest[0] == '/',
    ensures
        env.users.contains_key(user) && !env.users[user].contains('$') && !rest.contains('$')
            ==> expanded_path(seq!['~'] + user + rest, name, env) == Ok::<Seq<char>, ErrorView>(
            env.users[user] + rest,
        ),
        !env.users.contains_key(user) ==> expanded_path(seq!['~'] + user + rest, name, env)
            == Err::<Seq<char>, ErrorView>(
            ErrorView::UnknownUser { name, raw: seq!['~'] + user + rest, user },
        ),
{
    reveal_strlit("~");
    reveal_strlit("~/");
    let raw = seq!['~'] + user + rest;
    let n = 1 + user.len() as int;
    assert(raw[1] == user[0]);
    assert(user[0] != '/') by {
        if user[0] == '/' {
            assert(user.contains('/'));
        }
    }
    assert(raw != "~"@);
    if begins_with(raw, "~/"@) {
        assert(raw.take(2)[1] == raw[1]);
    }
    assert forall|k: int| 1 <= k < n implies raw[k] != '/' by {
        assert(raw[k] == user[k - 1]);
    }
    if rest.len() > 0 {
        assert(raw[n] == rest[0]);
    }
    lemma_slash_from(raw, 1, n);
    assert(raw.subrange(1, n) =~= user);
    assert(raw.skip(n) =~= rest);
    if env.users.contains_key(user) {
        let out = env.users[user] + rest;
        if !env.users[user].contains('$') && !rest.contains('$') {
            assert(!out.contains('$')) by {
                if out.contains('$') {
                    let k = choose|k: int| 0 <= k < out.len() && out[k] == '$';
                    if k < env.users[user].len() {
                        assert(env.users[user][k] == '$');
                    } else {
                        assert(rest[k - env.users[user].len()] == '$');
                    }
                }
            }
            lemma_plain_from(out, 0, env.vars);
            assert(out.skip(0) =~= out);
        }
    }
}

proof fn lemma_slash_from(s: Seq<char>, i: int, e: int)
    requires
        0 <= i <= e <= s.len(),
        e < s.len() ==> s[e] == '/',
        forall|k: int| i <= k < e ==> s[k] != '/',
    ensures
        slash_from(s, i) == e,
    decreases e - i,
{
    if i < e {
        lemma_slash_from(s, i + 1, e);
    }
}

/// Only a tilde in front has a meaning: any other path is expanded as it stands.
pub proof fn law_no_tilde(raw: Seq<char>, name: Seq<char>, env: EnvView)
    requires
        raw.len() == 0 || raw[0] != '~',
    ensures
        expanded_path(raw, name, env) == match expanded(raw, 0, env.vars) {
            Ok(path) => Ok(path),
            Err(VarError::Unclosed) => Err(ErrorView::UnclosedBrace { name, raw }),
            Err(VarError::Missing(missing_var)) => Err(
                ErrorView::RepoPathExpansion { name, raw, missing_var },
            ),
        },
{
    reveal_strlit("~");
    reveal_strlit("~/");
    if begins_with(raw, "~/"@) {
        assert(raw.take(2)[0] == raw[0]);
    }
}

proof fn lemma_name_end(s: Seq<char>, j: int, braced: bool, e: int)
    requires
        0 <= j <= e <= s.len(),
        e < s.len() ==> (braced && s[e] == '}') || (!braced && !name_char(s[e])),
        forall|k: int|
            j <= k < e ==> (braced ==> #[trigger] s[k] != '}') && (!braced ==> name_char(s[k])),
    ensures
        name_end(s, j, braced) == e,
    decreases e - j,
{
    if j < e {
        assert((braced ==> s[j] != '}') && (!braced ==> name_char(s[j])));
        lemma_name_end(s, j + 1, braced, e);
    }
}

proof fn lemma_name_stops(s: Seq<char>, j: int, braced: bool)
    requires
        0 <= j <= s.len(),
    ensures
        j <= name_end(s, j, braced) <= s.len(),
        name_end(s, j, braced) < s.len() ==> ({
            let e = name_end(s, j, braced);
            (braced && s[e] == '}') || (!braced && !name_char(s[e]))
        }),
        forall|k: int|
            j <= k < name_end(s, j, braced) ==> (braced ==> #[trigger] s[k] != '}') && (!braced
                ==> name_char(s[k])),
    decreases s.len() - j,
{
    if !(j >= s.len() || (braced && s[j] == '}') || (!braced && !name_char(s[j]))) {
        lemma_name_stops(s, j + 1, braced);
    }
}

/// What a text from a place on expands to is what the rest by itself does.
proof fn lemma_rest(head: Seq<char>, s: Seq<char>, i: int, vars: Map<Seq<char>, Seq<char>>)
    requires
        0 <= i <= s.len(),
    ensures
        expanded(head + s, head.len() + i, vars) == expanded(s, i, vars),
    decreases s.len() - i,
{
    let w = head + s;
    let d = head.len() as int;
    assert forall|k: int| 0 <= k < s.len() implies #[trigger] w[d + k] == s[k] by {}
    if i < s.len() {
        assert(w[d + i] == s[i]);
        if s[i] != '$' || i + 1 >= s.len() {
            lemma_rest(head, s, i + 1, vars);
        } else {
            assert(w[d + (i + 1)] == s[i + 1]);
            let braced = s[i + 1] == '{';
            let start = if braced {
                i + 2
            } else {
                i + 1
            };
            lemma_name_stops(s, start, braced);
            let end = name_end(s, start, braced);
            if end < s.len() {
                assert(w[d + end] == s[end]);
            }
            assert forall|k: int| d + start <= k < d + end implies (braced ==> #[trigger] w[k]
                != '}') && (!braced ==> name_char(w[k])) by {
                assert(w[d + (k - d)] == s[k - d]);
            }
            lemma_name_end(w, d + start, braced, d + end);
            assert(w.subrange(d + start, d + end) =~= s.subrange(start, end));
            lemma_rest(head, s, i + 1, vars);
            if end < s.len() {
                lemma_rest(
                    head,
                    s,
                    if braced {
                        end + 1
                    } else {
                        end
                    },
                    vars,
                );
            } else if !braced {
                lemma_rest(head, s, end, vars);
            }
        }
    }
}

/// Characters other than the dollar sign come out as they stand.
proof fn lemma_head(a: Seq<char>, s: Seq<char>, i: int, vars: Map<Seq<char>, Seq<char>>)
    requires
        !a.contains('$'),
        0 <= i <= a.len(),
    ensures
        expanded(a + s, i, vars) == before(a.skip(i), expanded(s, 0, vars)),
    decreases a.len() - i,
{
    let w = a + s;
    if i == a.len() {
        lemma_rest(a, s, 0, vars);
        assert(a.skip(i) =~= Seq::empty());
        match expanded(s, 0, vars) {
            Ok(t) => assert(Seq::<char>::empty() + t =~= t),
            Err(_) => {},
        }
    } else {
        assert(w[i] == a[i]);
        assert(a[i] != '$');
        lemma_head(a, s, i + 1, vars);
        match expanded(s, 0, vars) {
            Ok(t) => assert(seq![a[i]] + (a.skip(i + 1) + t) =~= a.skip(i) + t),
            Err(_) => {},
        }
    }
}

/// A reference to a variable, in either form, stands for its value, and what stands around it
/// is kept and expanded. The value is not expanded again. A variable that does not exist is
/// an error that names it.
pub proof fn law_variable(
    a: Seq<char>,
    name: Seq<char>,
    b: Seq<char>,
    vars: Map<Seq<char>, Seq<char>>,
)
    requires
        !a.contains('$'),
        word(name),
    ensures
        ({
            let braced = a + seq!['$', '{'] + name + seq!['}'] + b;
            let bare = a + seq!['$'] + name + b;
            let missing = Err::<Seq<char>, VarError>(VarError::Missing(name));
            let done = match expanded(b, 0, vars) {
                Ok(t) => Ok(a + vars[name] + t),
                Err(e) => Err(e),
            };
            &&& expanded(braced, 0, vars) == if vars.contains_key(name) {
                done
            } else {
                missing
            }
            &&& (b.len() == 0 || !word_char(b[0])) ==> expanded(bare, 0, vars)
                == if vars.contains_key(name) {
                done
            } else {
                missing
            }
        }),
{
    let n = name.len() as int;
    let one = seq!['$', '{'] + name + seq!['}'] + b;
    let two = seq!['$'] + name + b;
    assert(a + seq!['$', '{'] + name + seq!['}'] + b =~= a + one);
    assert(a + seq!['$'] + name + b =~= a + two);
    lemma_head(a, one, 0, vars);
    lemma_head(a, two, 0, vars);
    assert(a.skip(0) =~= a);
    assert forall|k: int| 0 <= k < n implies name_char(#[trigger] name[k]) && name[k] != '}'
        && name[k] != '{' by {
        assert(word_char(name[k]));
    }
    assert(one[0] == '$' && one[1] == '{' && one[n + 2] == '}');
    assert forall|k: int| 2 <= k < n + 2 implies #[trigger] one[k] != '}' by {
        assert(one[k] == name[k - 2]);
    }
    lemma_name_end(one, 2, true, n + 2);
    assert(one.subrange(2, n + 2) =~= name);
    let head = seq!['$', '{'] + name + seq!['}'];
    assert(one =~= head + b);
    lemma_rest(head, b, 0, vars);
    if b.len() == 0 || !word_char(b[0]) {
        assert(two[1] == name[0]);
        assert forall|k: int| 1 <= k < n + 1 implies name_char(#[trigger] two[k]) by {
            assert(two[k] == name[k - 1]);
        }
        if b.len() > 0 {
            assert(two[n + 1] == b[0]);
        }
        lemma_name_end(two, 1, false, n + 1);
        assert(two.subrange(1, n + 1) =~= name);
        let lead = seq!['$'] + name;
        assert(two =~= lead + b);
        lemma_rest(lead, b, 0, vars);
    }
    match expanded(b, 0, vars) {
        Ok(t) => {
            if vars.contains_key(name) {
                assert(a + (vars[name] + t) =~= a + vars[name] + t);
            }
        },
        Err(_) => {},
    }
}

/// A dollar sign without a name behind it stands for itself. A brace behind it that is not
/// closed is an error.
pub proof fn law_dollar_sign(a: Seq<char>, b: Seq<char>, vars: Map<Seq<char>, Seq<char>>)
    requires
        !a.contains('$'),
    ensures
        b.len() == 0 || (b[0] != '{' && !word_char(b[0])) ==> expanded(a + seq!['$'] + b, 0, vars)
            == match expanded(b, 0, vars) {
            Ok(t) => Ok(a + seq!['$'] + t),
            Err(e) => Err(e),
        },
        !b.contains('}') ==> expanded(a + seq!['$', '{'] + b, 0, vars) == Err::<
            Seq<char>,
            VarError,
        >(VarError::Unclosed),
{
    let one = seq!['$'] + b;
    assert(a + seq!['$'] + b =~= a + one);
    lemma_head(a, one, 0, vars);
    assert(a.skip(0) =~= a);
    lemma_rest(seq!['$'], b, 0, vars);
    if b.len() == 0 || (b[0] != '{' && !word_char(b[0])) {
        if b.len() > 0 {
            assert(one[1] == b[0]);
            lemma_name_end(one, 1, false, 1);
            assert(one.subrange(1, 1) =~= Seq::empty());
        }
        assert(expanded(one, 0, vars) == before(seq!['$'], expanded(b, 0, vars)));
        match expanded(b, 0, vars) {
            Ok(t) => assert(a + (seq!['$'] + t) =~= a + seq!['$'] + t),
            Err(_) => {},
        }
    }
    let two = seq!['$', '{'] + b;
    assert(a + seq!['$', '{'] + b =~= a + two);
    lemma_head(a, two, 0, vars);
    if !b.contains('}') {
        assert forall|k: int| 2 <= k < two.len() implies #[trigger] two[k] != '}' by {
            assert(two[k] == b[k - 2]);
        }
        lemma_name_end(two, 2, true, two.len() as int);
    }
}

/// The configuration has a root for each repository that it names, and for no other: where
/// no path is wrong, that which its path expands to, and the later where one is named twice.
pub proof fn law_expanded_repos(v: Seq<(Seq<char>, Seq<char>)>, env: EnvView, k: int)
    requires
        0 <= k < v.len(),
        forall|j: int| k < j < v.len() ==> (#[trigger] v[j]).0 != v[k].0,
    ensures
        expanded_repos(v, env) matches Ok(m) ==> {
            &&& m.contains_key(v[k].0)
            &&& expanded_path(v[k].1, v[k].0, env) == Ok::<Seq<char>, ErrorView>(m[v[k].0])
        },
        expanded_path(v[k].1, v[k].0, env) is Err ==> expanded_repos(v, env) is Err,
    decreases v.len(),
{
    let before = v.drop_last();
    assert(v.last() == v[v.len() - 1]);
    if k < v.len() - 1 {
        assert(before[k] == v[k]);
        assert forall|j: int| k < j < before.len() implies (#[trigger] before[j]).0
            != before[k].0 by {
            assert(before[j] == v[j]);
        }
        law_expanded_repos(before, env, k);
    }
}

/// Only repositories that the configuration names have a root, and where every path is right
/// there is no error.
pub proof fn law_only_named_repos(v: Seq<(Seq<char>, Seq<char>)>, env: EnvView, name: Seq<char>)
    ensures
        expanded_repos(v, env) matches Ok(m) ==> m.contains_key(name) ==> exists|k: int|
            0 <= k < v.len() && (#[trigger] v[k]).0 == name,
        (forall|k: int|
            0 <= k < v.len() ==> expanded_path((#[trigger] v[k]).1, v[k].0, env) is Ok)
            ==> expanded_repos(v, env) is Ok,
    decreases v.len(),
{
    if v.len() > 0 {
        let before = v.drop_last();
        law_only_named_repos(before, env, name);
        assert(v.last() == v[v.len() - 1]);
        if let Ok(m) = expanded_repos(before, env) {
            if m.contains_key(name) {
                let k = choose|k: int| 0 <= k < before.len() && (#[trigger] before[k]).0 == name;
                assert(v[k].0 == name);
            }
        }
        if forall|k: int|
            0 <= k < v.len() ==> expanded_path((#[trigger] v[k]).1, v[k].0, env) is Ok {
            assert forall|k: int| 0 <= k < before.len() implies expanded_path(
                (#[trigger] before[k]).1,
                before[k].0,
                env,
            ) is Ok by {
                assert(v[k] == before[k]);
            }
        }
    }
}

/// A file that is no object, whose `repos` is no map, or whose values are no texts is an
/// error that names the file.
pub proof fn law_malformed(json: JsonView, path: Seq<char>)
    ensures
        json is Other ==> repos_in(json, path) is Err,
        json matches JsonView::Object(v) ==> v.len() == 1 && v[0].0 == "repos"@ && !(
        v[0].1 is Texts) ==> repos_in(json, path) is Err,
        json matches JsonView::Object(v) ==> (forall|i: int|
            0 <= i < v.len() ==> (#[trigger] v[i]).0 != "repos"@) && (exists|i: int|
            0 <= i < v.len() && !((#[trigger] v[i]).1 is Text)) ==> repos_in(json, path) is Err,
        repos_in(json, path) matches Err(e) ==> (e matches ErrorView::MalformedJson { path: p, .. }
            ==> p == path) && e is MalformedJson,
{
    if let JsonView::Object(v) = json {
        if v.len() == 1 && v[0].0 == "repos"@ {
            assert(repos_at(v, 0) == Some(0int));
        }
        if forall|i: int| 0 <= i < v.len() ==> (#[trigger] v[i]).0 != "repos"@ {
            lemma_no_repos(v, 0);
        }
        lemma_repos_at(v, 0);
        if let Some(i) = repos_at(v, 0) {
            if let MemberView::Texts(m) = v[i].1 {
                lemma_text_errors(m, path);
            }
        }
    }
}

proof fn lemma_repos_at(v: Seq<(Seq<char>, MemberView)>, i: int)
    requires
        0 <= i,
    ensures
        repos_at(v, i) matches Some(k) ==> i <= k < v.len(),
    decreases v.len() - i,
{
    if i < v.len() {
        lemma_repos_at(v, i + 1);
    }
}

proof fn lemma_text_errors(m: Seq<(Seq<char>, Option<Seq<char>>)>, path: Seq<char>)
    ensures
        only_texts(m, path) matches Err(e) ==> (e matches ErrorView::MalformedJson {
            path: p,
            ..
        } ==> p == path) && e is MalformedJson,
        (exists|i: int| 0 <= i < m.len() && (#[trigger] m[i]).1 is None) ==> only_texts(
            m,
            path,
        ) is Err,
    decreases m.len(),
{
    if m.len() > 0 {
        let before = m.drop_last();
        lemma_text_errors(before, path);
        if exists|i: int| 0 <= i < m.len() && (#[trigger] m[i]).1 is None {
            let i = choose|i: int| 0 <= i < m.len() && (#[trigger] m[i]).1 is None;
            if i < before.len() {
                assert(before[i].1 is None);
            }
        }
    }
}

/// A value under `repos` that is no text is an error, whatever the others are.
pub proof fn law_values_are_texts(m: Seq<(Seq<char>, Option<Seq<char>>)>, path: Seq<char>, i: int)
    requires
        0 <= i < m.len(),
        m[i].1 is None,
    ensures
        only_texts(m, path) is Err,
{
    lemma_text_errors(m, path);
}

/// The message about an error names what is wrong: the file and the reason, or the
/// repository, its path, and the variable or the user.
pub proof fn law_error_text(e: ErrorView)
    ensures
        match e {
            ErrorView::Unreadable { path, message } => holds(error_text(e), path) && holds(
                error_text(e),
                message,
            ),
            ErrorView::MalformedJson { path, message } => holds(error_text(e), path) && holds(
                error_text(e),
                message,
            ),
            ErrorView::RepoPathExpansion { name, raw, missing_var } => holds(error_text(e), name)
                && holds(error_text(e), raw) && holds(error_text(e), missing_var),
            ErrorView::UnclosedBrace { name, raw } => holds(error_text(e), name) && holds(
                error_text(e),
                raw,
            ),
            ErrorView::UnknownUser { name, raw, user } => holds(error_text(e), name) && holds(
                error_text(e),
                raw,
            ) && holds(error_text(e), user),
        },
{
    let t = error_text(e);
    let none = Seq::<char>::empty();
    match e {
        ErrorView::Unreadable { path, message } => {
            let a = ": cannot read: "@;
            lemma_part(t, none, path, a + message);
            lemma_part(t, path + a, message, none);
        },
        ErrorView::MalformedJson { path, message } => {
            let a = ": malformed JSON: "@;
            lemma_part(t, none, path, a + message);
            lemma_part(t, path + a, message, none);
        },
        ErrorView::RepoPathExpansion { name, raw, missing_var } => {
            let a = "repo '"@;
            let b = "' path '"@;
            let c = "': undefined env var $"@;
            lemma_part(t, a, name, b + raw + c + missing_var);
            lemma_part(t, a + name + b, raw, c + missing_var);
            lemma_part(t, a + name + b + raw + c, missing_var, none);
        },
        ErrorView::UnclosedBrace { name, raw } => {
            let a = "repo '"@;
            let b = "' path '"@;
            let c = "': unclosed `${` brace expansion"@;
            lemma_part(t, a, name, b + raw + c);
            lemma_part(t, a + name + b, raw, c);
        },
        ErrorView::UnknownUser { name, raw, user } => {
            let a = "repo '"@;
            let b = "' path '"@;
            let c = "': unknown user in `~"@;
            let d = "/` expansion"@;
            lemma_part(t, a, name, b + raw + c + user + d);
            lemma_part(t, a + name + b, raw, c + user + d);
            lemma_part(t, a + name + b + raw + c, user, d);
        },
    }
}

proof fn lemma_part(t: Seq<char>, a: Seq<char>, part: Seq<char>, b: Seq<char>)
    requires
        t =~= a + part + b,
    ensures
        holds(t, part),
{
    let i = a.len() as int;
    assert(t.subrange(i, i + part.len()) =~= part);
}

/// The configuration directory is the one that is set, or `.config` in the home directory
/// when none is set or it is empty.
pub proof fn law_config_home(dir: Seq<char>, home: Seq<char>)
    ensures
        dir.len() > 0 ==> config_home(Some(dir), home) == dir,
        config_home(Some(Seq::empty()), home) == home + "/.config"@,
        config_home(None, home) == home + "/.config"@,
{
}

/// White space around a text is taken off, and nothing else.
pub proof fn law_trimmed(left: Seq<char>, t: Seq<char>, right: Seq<char>)
    requires
        forall|i: int| 0 <= i < left.len() ==> white_space(#[trigger] left[i]),
        forall|i: int| 0 <= i < right.len() ==> white_space(#[trigger] right[i]),
        t.len() > 0 ==> !white_space(t[0]) && !white_space(t.last()),
    ensures
        trimmed(left + t + right) == t,
{
    let s = left + t + right;
    let n = s.len() as int;
    let a = left.len() as int;
    let b = a + t.len();
    assert forall|k: int| 0 <= k < a implies s[k] == left[k] by {}
    assert forall|k: int| a <= k < b implies s[k] == t[k - a] by {}
    assert forall|k: int| b <= k < n implies s[k] == right[k - b] by {}
    if t.len() > 0 {
        assert(s[a] == t[0]);
        assert(s[b - 1] == t.last());
        lemma_trim_from(s, 0, n, a);
        lemma_trim_to(s, a, n, b);
        assert(s.subrange(a, b) =~= t);
    } else {
        lemma_trim_from(s, 0, n, n);
        assert(trim_to(s, n, n) == n);
        assert(s.subrange(n, n) =~= t);
    }
}

proof fn lemma_trim_from(s: Seq<char>, i: int, end: int, e: int)
    requires
        0 <= i <= e <= end,
        e < end ==> !white_space(s[e]),
        forall|k: int| i <= k < e ==> white_space(#[trigger] s[k]),
    ensures
        trim_from(s, i, end) == e,
    decreases e - i,
{
    if i < e {
        assert(white_space(s[i]));
        lemma_trim_from(s, i + 1, end, e);
    }
}

proof fn lemma_trim_to(s: Seq<char>, start: int, end: int, e: int)
    requires
        start < e <= end,
        !white_space(s[e - 1]),
        forall|k: int| e <= k < end ==> white_space(#[trigger] s[k]),
    ensures
        trim_to(s, start, end) == e,
    decreases end - e,
{
    if e < end {
        assert(white_space(s[end - 1]));
        lemma_trim_to(s, start, end - 1, e);
    }
}

/// ASCII white space is the space, the tab and the line breaks.
pub proof fn law_white_space(c: char)
    requires
        c <= '\u{7f}',
    ensures
        white_space(c) <==> c == ' ' || c == '\t' || c == '\n' || c == '\r' || c == '\u{b}' || c
            == '\u{c}',
{
}

/// Each line gives its pattern by itself, in order: none when it is blank or a comment, and
/// else all of it but the white space around it.
pub proof fn law_ignore_lines(
    lines: Seq<Seq<char>>,
    left: Seq<char>,
    t: Seq<char>,
    right: Seq<char>,
)
    requires
        forall|i: int| 0 <= i < left.len() ==> white_space(#[trigger] left[i]),
        forall|i: int| 0 <= i < right.len() ==> white_space(#[trigger] right[i]),
        t.len() > 0 ==> !white_space(t[0]) && !white_space(t.last()),
    ensures
        patterns_of(Seq::empty()) == Seq::<Seq<char>>::empty(),
        patterns_of(lines.push(left + t + right)) == if t.len() == 0 || t[0] == '#' {
            patterns_of(lines)
        } else {
            patterns_of(lines).push(t)
        },
{
    law_trimmed(left, t, right);
    assert(lines.push(left + t + right).drop_last() =~= lines);
}

/// The file that a directory keeps its patterns in is `.md-orphan`, right below it.
pub proof fn law_ignore_file(dir: Seq<char>)
    requires
        dir.len() > 0,
        dir.last() != '/',
    ensures
        ignore_file(dir) == dir + "/.md-orphan"@,
        ignore_file(dir + seq!['/']) == dir + "/.md-orphan"@,
        ignore_file(seq!['/']) == "/.md-orphan"@,
{
    reveal_strlit("/");
    reveal_strlit("/.md-orphan");
    reveal_strlit(".md-orphan");
    if finishes_with(dir, "/"@) {
        assert(dir.skip(dir.len() - 1)[0] == dir.last());
    }
    let slashed = dir + seq!['/'];
    assert(slashed.skip(slashed.len() - 1) =~= "/"@);
    assert(slashed + ".md-orphan"@ =~= dir + "/.md-orphan"@);
    assert(seq!['/'].skip(0) =~= "/"@);
    assert(seq!['/'] + ".md-orphan"@ =~= "/.md-orphan"@);
}

/// A file that does not parse is an error with the reason, and one that does is what its
/// repositories expand to.
pub proof fn law_config_from(
    json: JsonView,
    message: Seq<char>,
    path: Seq<char>,
    env: EnvView,
    v: Seq<(Seq<char>, Seq<char>)>,
)
    ensures
        config_from(Err(message), path, env) == Err::<Map<Seq<char>, Seq<char>>, ErrorView>(
            ErrorView::MalformedJson { path, message },
        ),
        repos_in(json, path) == Ok::<_, ErrorView>(v) ==> config_from(Ok(json), path, env)
            == expanded_repos(v, env),
        repos_in(json, path) is Err ==> config_from(Ok(json), path, env) is Err,
{
}

/// A tilde is replaced first, and what comes of that is expanded as any other path. An error
/// names the path as it is written in the file.
pub proof fn law_tilde_first(rest: Seq<char>, user: Seq<char>, name: Seq<char>, env: EnvView)
    ensures
        ({
            let raw = seq!['~', '/'] + rest;
            expanded_path(raw, name, env) == match expanded(
                env.home + seq!['/'] + rest,
                0,
                env.vars,
            ) {
                Ok(path) => Ok(path),
                Err(VarError::Unclosed) => Err(ErrorView::UnclosedBrace { name, raw }),
                Err(VarError::Missing(missing_var)) => Err(
                    ErrorView::RepoPathExpansion { name, raw, missing_var },
                ),
            }
        }),
        user.len() > 0 && !user.contains('/') && env.users.contains_key(user) ==> ({
            let raw = seq!['~'] + user + seq!['/'] + rest;
            expanded_path(raw, name, env) == match expanded(
                env.users[user] + seq!['/'] + rest,
                0,
                env.vars,
            ) {
                Ok(path) => Ok(path),
                Err(VarError::Unclosed) => Err(ErrorView::UnclosedBrace { name, raw }),
                Err(VarError::Missing(missing_var)) => Err(
                    ErrorView::RepoPathExpansion { name, raw, missing_var },
                ),
            }
        }),
{
    reveal_strlit("~");
    reveal_strlit("~/");
    reveal_strlit("/");
    let raw = seq!['~', '/'] + rest;
    assert(raw.take(2) =~= "~/"@);
    assert(raw.skip(2) =~= rest);
    assert(raw != "~"@);
    assert(env.home + "/"@ + rest =~= env.home + seq!['/'] + rest);
    if user.len() > 0 && !user.contains('/') && env.users.contains_key(user) {
        let at = 1 + user.len() as int;
        let long = seq!['~'] + user + seq!['/'] + rest;
        assert(long.len() > 1 && long != "~"@);
        assert(long.take(2)[1] == user[0]);
        assert(user.contains(user[0]));
        assert(!begins_with(long, "~/"@));
        assert(long[0] == '~');
        assert forall|j: int| 1 <= j < at implies long[j] != '/' by {
            assert(long[j] == user[j - 1]);
            assert(user.contains(user[j - 1]));
        }
        assert(long[at] == '/');
        lemma_slash_at(long, 1, at);
        assert(long.subrange(1, at) =~= user);
        assert(long.skip(at) =~= seq!['/'] + rest);
        assert(env.users[user] + (seq!['/'] + rest) =~= env.users[user] + seq!['/'] + rest);
    }
}

proof fn lemma_slash_at(s: Seq<char>, i: int, at: int)
    requires
        0 <= i <= at < s.len(),
        s[at] == '/',
        forall|j: int| i <= j < at ==> s[j] != '/',
    ensures
        slash_from(s, i) == at,
    decreases at - i,
{
    if i < at {
        lemma_slash_at(s, i + 1, at);
    }
}

/// The messages about errors, word for word.
pub proof fn law_error_words(
    path: Seq<char>,
    message: Seq<char>,
    name: Seq<char>,
    raw: Seq<char>,
    what: Seq<char>,
)
    ensures
        error_text(ErrorView::Unreadable { path, message }) == path + ": cannot read: "@ + message,
        error_text(ErrorView::MalformedJson { path, message }) == path + ": malformed JSON: "@
            + message,
        error_text(ErrorView::RepoPathExpansion { name, raw, missing_var: what }) == "repo '"@
            + name + "' path '"@ + raw + "': undefined env var $"@ + what,
        error_text(ErrorView::UnclosedBrace { name, raw }) == "repo '"@ + name + "' path '"@ + raw
            + "': unclosed `${` brace expansion"@,
        error_text(ErrorView::UnknownUser { name, raw, user: what }) == "repo '"@ + name
            + "' path '"@ + raw + "': unknown user in `~"@ + what + "/` expansion"@,
{
}

/// In braces a name may hold any character but the closing brace. Empty braces stand for
/// themselves.
pub proof fn law_braces(
    a: Seq<char>,
    name: Seq<char>,
    b: Seq<char>,
    vars: Map<Seq<char>, Seq<char>>,
)
    requires
        !a.contains('$'),
        !name.contains('}'),
    ensures
        ({
            let braced = a + seq!['$', '{'] + name + seq!['}'] + b;
            expanded(braced, 0, vars) == if name.len() == 0 {
                match expanded(b, 0, vars) {
                    Ok(t) => Ok(a + seq!['$', '{', '}'] + t),
                    Err(e) => Err(e),
                }
            } else if !vars.contains_key(name) {
                Err(VarError::Missing(name))
            } else {
                match expanded(b, 0, vars) {
                    Ok(t) => Ok(a + vars[name] + t),
                    Err(e) => Err(e),
                }
            }
        }),
{
    let n = name.len() as int;
    let one = seq!['$', '{'] + name + seq!['}'] + b;
    assert(a + seq!['$', '{'] + name + seq!['}'] + b =~= a + one);
    lemma_head(a, one, 0, vars);
    assert(a.skip(0) =~= a);
    assert(one[0] == '$' && one[1] == '{' && one[n + 2] == '}');
    assert forall|k: int| 2 <= k < n + 2 implies #[trigger] one[k] != '}' by {
        assert(one[k] == name[k - 2]);
        assert(name.contains(name[k - 2]));
    }
    lemma_name_end(one, 2, true, n + 2);
    assert(one.subrange(2, n + 2) =~= name);
    let head = seq!['$', '{'] + name + seq!['}'];
    assert(one =~= head + b);
    lemma_rest(head, b, 0, vars);
    if n == 0 {
        assert(one[2] == '}');
        let rest = expanded(one, 3, vars);
        assert(expanded(one, 2, vars) == before(seq!['}'], rest));
        assert(expanded(one, 1, vars) == before(seq!['{'], expanded(one, 2, vars)));
        assert(expanded(one, 0, vars) == before(seq!['$'], expanded(one, 1, vars)));
        match rest {
            Ok(t) => {
                assert(seq!['$'] + (seq!['{'] + (seq!['}'] + t)) =~= seq!['$', '{', '}'] + t);
                assert(a + (seq!['$', '{', '}'] + t) =~= a + seq!['$', '{', '}'] + t);
            },
            Err(_) => {},
        }
    } else if vars.contains_key(name) {
        match expanded(b, 0, vars) {
            Ok(t) => assert(a + (vars[name] + t) =~= a + vars[name] + t),
            Err(_) => {},
        }
    }
}

/// The first value under `repos` that is no text is the one that the error names.
pub proof fn law_first_bad_value(
    good: Seq<(Seq<char>, Option<Seq<char>>)>,
    name: Seq<char>,
    more: Seq<(Seq<char>, Option<Seq<char>>)>,
    path: Seq<char>,
)
    requires
        forall|i: int| 0 <= i < good.len() ==> (#[trigger] good[i]).1 is Some,
    ensures
        only_texts(good + seq![(name, None)] + more, path) == Err::<
            Seq<(Seq<char>, Seq<char>)>,
            ErrorView,
        >(
            ErrorView::MalformedJson {
                path,
                message: "value for '"@ + name + "' must be a string"@,
            },
        ),
        only_texts(good, path) == Ok::<Seq<(Seq<char>, Seq<char>)>, ErrorView>(
            Seq::new(good.len(), |i: int| (good[i].0, good[i].1->0)),
        ),
{
    let all = good + seq![(name, None)] + more;
    let n = good.len() as int;
    lemma_all_good(good, path);
    assert(all.take(n + 1).drop_last() =~= good);
    assert(all.take(n + 1).last() == all[n]);
    lemma_only_texts_fails(all, path, n + 1);
}

proof fn lemma_all_good(good: Seq<(Seq<char>, Option<Seq<char>>)>, path: Seq<char>)
    requires
        forall|i: int| 0 <= i < good.len() ==> (#[trigger] good[i]).1 is Some,
    ensures
        only_texts(good, path) == Ok::<Seq<(Seq<char>, Seq<char>)>, ErrorView>(
            Seq::new(good.len(), |i: int| (good[i].0, good[i].1->0)),
        ),
    decreases good.len(),
{
    let pairs = Seq::new(good.len(), |i: int| (good[i].0, good[i].1->0));
    if good.len() == 0 {
        assert(pairs =~= Seq::empty());
    } else {
        let before = good.drop_last();
        assert forall|i: int| 0 <= i < before.len() implies (#[trigger] before[i]).1 is Some by {
            assert(before[i] == good[i]);
        }
        lemma_all_good(before, path);
        assert(good[good.len() - 1].1 is Some);
        let old = Seq::new(before.len(), |i: int| (before[i].0, before[i].1->0));
        assert(old.push((good.last().0, good.last().1->0)) =~= pairs);
    }
}

/// The first path that is wrong is the one that the error is about.
pub proof fn law_first_bad_path(
    good: Seq<(Seq<char>, Seq<char>)>,
    name: Seq<char>,
    raw: Seq<char>,
    more: Seq<(Seq<char>, Seq<char>)>,
    env: EnvView,
)
    requires
        expanded_repos(good, env) is Ok,
        expanded_path(raw, name, env) is Err,
    ensures
        expanded_repos(good + seq![(name, raw)] + more, env) == Err::<
            Map<Seq<char>, Seq<char>>,
            ErrorView,
        >(expanded_path(raw, name, env)->Err_0),
{
    let all = good + seq![(name, raw)] + more;
    let n = good.len() as int;
    assert(all.take(n + 1).drop_last() =~= good);
    assert(all.take(n + 1).last() == all[n]);
    lemma_expanded_repos_fails(all, env, n + 1);
}

/// Where there is a member `repos`, it alone counts, whatever stands around it. What is wrong
/// with a file is told word for word.
pub proof fn law_repos_member(
    before: Seq<(Seq<char>, MemberView)>,
    m: MemberView,
    after: Seq<(Seq<char>, MemberView)>,
    path: Seq<char>,
)
    requires
        forall|i: int| 0 <= i < before.len() ==> (#[trigger] before[i]).0 != "repos"@,
    ensures
        repos_in(JsonView::Object(before + seq![("repos"@, m)] + after), path) == match m {
            MemberView::Texts(texts) => only_texts(texts, path),
            _ => Err(
                ErrorView::MalformedJson {
                    path,
                    message: "'repos' must be a {string:string} map"@,
                },
            ),
        },
        repos_in(JsonView::Other, path) == Err::<Seq<(Seq<char>, Seq<char>)>, ErrorView>(
            ErrorView::MalformedJson { path, message: "top-level must be an object"@ },
        ),
        (exists|i: int| 0 <= i < before.len() && !((#[trigger] before[i]).1 is Text)) ==> repos_in(
            JsonView::Object(before),
            path,
        ) == Err::<Seq<(Seq<char>, Seq<char>)>, ErrorView>(
            ErrorView::MalformedJson {
                path,
                message: "expected {\"repos\": {...}} or a flat {name: path} map"@,
            },
        ),
{
    let all = before + seq![("repos"@, m)] + after;
    let n = before.len() as int;
    assert(all[n] == ("repos"@, m));
    assert forall|i: int| 0 <= i < n implies (#[trigger] all[i]).0 != "repos"@ by {
        assert(all[i] == before[i]);
    }
    lemma_repos_found(all, 0, n);
    lemma_no_repos(before, 0);
}

proof fn lemma_repos_found(v: Seq<(Seq<char>, MemberView)>, i: int, n: int)
    requires
        0 <= i <= n < v.len(),
        v[n].0 == "repos"@,
        forall|k: int| i <= k < n ==> (#[trigger] v[k]).0 != "repos"@,
    ensures
        repos_at(v, i) == Some(n),
    decreases n - i,
{
    if i < n {
        assert(v[i].0 != "repos"@);
        lemma_repos_found(v, i + 1, n);
    }
}

} // verus!
