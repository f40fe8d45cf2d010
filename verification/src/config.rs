//! The global configuration, which names the known repositories, and the patterns that a
//! repository keeps in its `.md-orphan` file.
use crate::collections::{lemma_take_next, StringMap, StringSet};
use crate::resolve::{absolute, law_segments, lemma_segments_of_absolute, plain};
use crate::text::{
    begins_with, chars_of, concat2, concat3, ends_with, finishes_with, join, join_first, segments,
    segments_of, split, split_text, starts_with, str_eq, text_of, texts,
};
use vstd::prelude::*;
use vstd::string::{StrSliceExecFns, StringExecFns};

verus! {

/// What can be wrong with the configuration.
#[derive(Debug, PartialEq, Eq)]
pub enum ConfigError {
    Unreadable { path: String, message: String },
    MalformedJson { path: String, message: String },
    RepoPathExpansion { name: String, raw: String, missing_var: String },
    UnclosedBrace { name: String, raw: String },
    UnknownUser { name: String, raw: String, user: String },
}

/// What a [`ConfigError`] stands for.
pub enum ErrorView {
    Unreadable { path: Seq<char>, message: Seq<char> },
    MalformedJson { path: Seq<char>, message: Seq<char> },
    RepoPathExpansion { name: Seq<char>, raw: Seq<char>, missing_var: Seq<char> },
    UnclosedBrace { name: Seq<char>, raw: Seq<char> },
    UnknownUser { name: Seq<char>, raw: Seq<char>, user: Seq<char> },
}

impl View for ConfigError {
    type V = ErrorView;

    open spec fn view(&self) -> ErrorView {
        match self {
            ConfigError::Unreadable { path, message } => ErrorView::Unreadable {
                path: path@,
                message: message@,
            },
            ConfigError::MalformedJson { path, message } => ErrorView::MalformedJson {
                path: path@,
                message: message@,
            },
            ConfigError::RepoPathExpansion { name, raw, missing_var } =>
                ErrorView::RepoPathExpansion { name: name@, raw: raw@, missing_var: missing_var@ },
            ConfigError::UnclosedBrace { name, raw } => ErrorView::UnclosedBrace {
                name: name@,
                raw: raw@,
            },
            ConfigError::UnknownUser { name, raw, user } => ErrorView::UnknownUser {
                name: name@,
                raw: raw@,
                user: user@,
            },
        }
    }
}

/// How an error is told to the user.
pub open spec fn error_text(e: ErrorView) -> Seq<char> {
    match e {
        ErrorView::Unreadable { path, message } => path + ": cannot read: "@ + message,
        ErrorView::MalformedJson { path, message } => path + ": malformed JSON: "@ + message,
        ErrorView::RepoPathExpansion { name, raw, missing_var } => "repo '"@ + name + "' path '"@
            + raw + "': undefined env var $"@ + missing_var,
        ErrorView::UnclosedBrace { name, raw } => "repo '"@ + name + "' path '"@ + raw
            + "': unclosed `${` brace expansion"@,
        ErrorView::UnknownUser { name, raw, user } => "repo '"@ + name + "' path '"@ + raw
            + "': unknown user in `~"@ + user + "/` expansion"@,
    }
}

impl ConfigError {
    /// How the error is told to the user.
    pub fn text(&self) -> (r: String)
        ensures
            r@ == error_text(self@),
    {
        match self {
            ConfigError::Unreadable { path, message } => concat3(
                path.as_str(),
                ": cannot read: ",
                message.as_str(),
            ),
            ConfigError::MalformedJson { path, message } => concat3(
                path.as_str(),
                ": malformed JSON: ",
                message.as_str(),
            ),
            ConfigError::RepoPathExpansion { name, raw, missing_var } => {
                let mut r = concat3("repo '", name.as_str(), "' path '");
                r.append(raw.as_str());
                r.append("': undefined env var $");
                r.append(missing_var.as_str());
                r
            },
            ConfigError::UnclosedBrace { name, raw } => {
                let mut r = concat3("repo '", name.as_str(), "' path '");
                r.append(raw.as_str());
                r.append("': unclosed `${` brace expansion");
                r
            },
            ConfigError::UnknownUser { name, raw, user } => {
                let mut r = concat3("repo '", name.as_str(), "' path '");
                r.append(raw.as_str());
                r.append("': unknown user in `~");
                r.append(user.as_str());
                r.append("/` expansion");
                r
            },
        }
    }
}

/// What paths in the configuration may refer to.
pub struct Env {
    /// The home directory.
    pub home: String,
    /// The home directories of other users, as far as they were looked up.
    pub users: StringMap<String>,
    /// The environment variables.
    pub vars: StringMap<String>,
}

/// What an [`Env`] stands for.
pub struct EnvView {
    pub home: Seq<char>,
    pub users: Map<Seq<char>, Seq<char>>,
    pub vars: Map<Seq<char>, Seq<char>>,
}

/// What a map of texts stands for.
pub open spec fn text_values(m: Map<Seq<char>, String>) -> Map<Seq<char>, Seq<char>> {
    m.map_values(|s: String| s@)
}

impl View for Env {
    type V = EnvView;

    open spec fn view(&self) -> EnvView {
        EnvView {
            home: self.home@,
            users: text_values(self.users@),
            vars: text_values(self.vars@),
        }
    }
}

/// Position of the first slash from `i` on, or the length.
pub open spec fn slash_from(s: Seq<char>, i: int) -> int
    decreases s.len() - i,
{
    if i >= s.len() || s[i] == '/' {
        i
    } else {
        slash_from(s, i + 1)
    }
}

/// The path with a leading `~` or `~user` replaced by the home directory; the user's name
/// when it is not known.
pub open spec fn untilde(raw: Seq<char>, env: EnvView) -> Result<Seq<char>, Seq<char>> {
    if raw == "~"@ {
        Ok(env.home)
    } else if begins_with(raw, "~/"@) {
        Ok(env.home + "/"@ + raw.skip(2))
    } else if raw.len() > 0 && raw[0] == '~' {
        let at = slash_from(raw, 1);
        let user = raw.subrange(1, at);
        if env.users.contains_key(user) {
            Ok(env.users[user] + raw.skip(at))
        } else {
            Err(user)
        }
    } else {
        Ok(raw)
    }
}

/// A character of the name of a variable.
pub open spec fn name_char(c: char) -> bool {
    ('0' <= c && c <= '9') || ('A' <= c && c <= 'Z') || ('a' <= c && c <= 'z') || c == '_'
}

/// Where the name of a variable that starts at `j` ends: at the closing brace, or at the
/// first character that is in no name.
pub open spec fn name_end(s: Seq<char>, j: int, braced: bool) -> int
    decreases s.len() - j,
{
    if j >= s.len() || (braced && s[j] == '}') || (!braced && !name_char(s[j])) {
        j
    } else {
        name_end(s, j + 1, braced)
    }
}

/// What can be wrong with a reference to a variable.
pub enum VarError {
    /// The brace is not closed.
    Unclosed,
    /// There is no such variable.
    Missing(Seq<char>),
}

/// The text `a` before what `r` has.
pub open spec fn before(a: Seq<char>, r: Result<Seq<char>, VarError>) -> Result<
    Seq<char>,
    VarError,
> {
    match r {
        Ok(b) => Ok(a + b),
        Err(e) => Err(e),
    }
}

/// The text from `i` on with its references to variables, `$NAME` and `${NAME}`, replaced.
/// A dollar sign without a name stands for itself.
pub open spec fn expanded(s: Seq<char>, i: int, vars: Map<Seq<char>, Seq<char>>) -> Result<
    Seq<char>,
    VarError,
>
    decreases s.len() - i,
    via expanded_goes_on
{
    if i < 0 || i >= s.len() {
        Ok(Seq::empty())
    } else if s[i] != '$' || i + 1 >= s.len() {
        before(seq![s[i]], expanded(s, i + 1, vars))
    } else {
        let braced = s[i + 1] == '{';
        let start = if braced {
            i + 2
        } else {
            i + 1
        };
        let end = name_end(s, start, braced);
        let name = s.subrange(start, end);
        if braced && end >= s.len() {
            Err(VarError::Unclosed)
        } else if name.len() == 0 {
            before(seq!['$'], expanded(s, i + 1, vars))
        } else if !vars.contains_key(name) {
            Err(VarError::Missing(name))
        } else {
            before(
                vars[name],
                expanded(
                    s,
                    if braced {
                        end + 1
                    } else {
                        end
                    },
                    vars,
                ),
            )
        }
    }
}

#[via_fn]
proof fn expanded_goes_on(s: Seq<char>, i: int, vars: Map<Seq<char>, Seq<char>>) {
    lemma_name_end(s, i + 2, true);
    lemma_name_end(s, i + 1, false);
}

proof fn lemma_name_end(s: Seq<char>, j: int, braced: bool)
    ensures
        j <= name_end(s, j, braced),
        j <= s.len() ==> name_end(s, j, braced) <= s.len(),
        braced && name_end(s, j, braced) < s.len() ==> s[name_end(s, j, braced)] == '}',
    decreases s.len() - j,
{
    if !(j >= s.len() || (braced && s[j] == '}') || (!braced && !name_char(s[j]))) {
        lemma_name_end(s, j + 1, braced);
    }
}

/// The path of the repository `name` with its references replaced.
pub open spec fn expanded_path(raw: Seq<char>, name: Seq<char>, env: EnvView) -> Result<
    Seq<char>,
    ErrorView,
> {
    match untilde(raw, env) {
        Err(user) => Err(ErrorView::UnknownUser { name, raw, user }),
        Ok(s) => match expanded(s, 0, env.vars) {
            Ok(path) => Ok(path),
            Err(VarError::Unclosed) => Err(ErrorView::UnclosedBrace { name, raw }),
            Err(VarError::Missing(missing_var)) => Err(
                ErrorView::RepoPathExpansion { name, raw, missing_var },
            ),
        },
    }
}

/// What a result with a text stands for.
pub open spec fn path_result(r: Result<String, ConfigError>) -> Result<Seq<char>, ErrorView> {
    match r {
        Ok(s) => Ok(s@),
        Err(e) => Err(e@),
    }
}

fn expand_tilde(raw: &str, env: &Env) -> (r: Result<String, String>)
    ensures
        (match r {
            Ok(s) => Ok(s@),
            Err(u) => Err(u@),
        }) == untilde(raw@, env@),
{
    if str_eq(raw, "~") {
        return Ok(env.home.clone());
    }
    let len: usize = raw.unicode_len();
    proof {
        reveal_strlit("~/");
    }
    if starts_with(raw, "~/") {
        let rest = raw.substring_char(2, len);
        assert(rest@ =~= raw@.skip(2));
        return Ok(concat3(env.home.as_str(), "/", rest));
    }
    let cs = chars_of(raw);
    if !(cs.len() > 0 && cs[0] == '~') {
        return Ok(raw.to_owned());
    }
    let mut at: usize = 1;
    while at < cs.len() && cs[at] != '/'
        invariant
            1 <= at <= cs.len(),
            cs@ == raw@,
            slash_from(raw@, 1) == slash_from(raw@, at as int),
        decreases cs.len() - at,
    {
        at += 1;
    }
    let user = text_of(&cs, 1, at);
    let rest = text_of(&cs, at, cs.len());
    assert(rest@ =~= raw@.skip(at as int));
    match env.users.get(user.as_str()) {
        Some(home) => {
            assert(env@.users[user@] == home@);
            Ok(concat2(home.as_str(), rest.as_str()))
        },
        None => Err(user),
    }
}

fn is_name_char(c: char) -> (r: bool)
    ensures
        r == name_char(c),
{
    ('0' <= c && c <= '9') || ('A' <= c && c <= 'Z') || ('a' <= c && c <= 'z') || c == '_'
}

/// The path `raw` of the repository `repo_name` with a leading `~` or `~user` and all
/// references to environment variables replaced.
pub fn expand_path(raw: &str, repo_name: &str, env: &Env) -> (r: Result<String, ConfigError>)
    ensures
        path_result(r) == expanded_path(raw@, repo_name@, env@),
{
    let s = match expand_tilde(raw, env) {
        Ok(s) => s,
        Err(user) => {
            return Err(
                ConfigError::UnknownUser {
                    name: repo_name.to_owned(),
                    raw: raw.to_owned(),
                    user,
                },
            );
        },
    };
    let cs = chars_of(s.as_str());
    let ghost vars = env@.vars;
    let mut out = String::new();
    let mut i: usize = 0;
    assert(before(out@, expanded(s@, 0, vars)) == expanded(s@, 0, vars)) by {
        match expanded(s@, 0, vars) {
            Ok(b) => assert(Seq::<char>::empty() + b =~= b),
            Err(_) => {},
        }
    }
    while i < cs.len()
        invariant
            i <= cs.len(),
            cs@ == s@,
            vars == env@.vars,
            untilde(raw@, env@) == Ok::<Seq<char>, Seq<char>>(s@),
            before(out@, expanded(s@, i as int, vars)) == expanded(s@, 0, vars),
        decreases cs.len() - i,
    {
        let ghost out0 = out@;
        if cs[i] != '$' || cs.len() - i <= 1 {
            proof {
                lemma_before(out0, seq![s@[i as int]], expanded(s@, i + 1, vars));
                assert(out0.push(s@[i as int]) =~= out0 + seq![s@[i as int]]);
            }
            out.push(cs[i]);
            i += 1;
        } else {
            let braced: bool = cs[i + 1] == '{';
            let start: usize = if braced {
                i + 2
            } else {
                i + 1
            };
            let mut end: usize = start;
            while end < cs.len() && !(braced && cs[end] == '}') && (braced || is_name_char(cs[end]))
                invariant
                    start <= end <= cs.len(),
                    cs@ == s@,
                    name_end(s@, start as int, braced) == name_end(s@, end as int, braced),
                decreases cs.len() - end,
            {
                end += 1;
            }
            if braced && end >= cs.len() {
                return Err(
                    ConfigError::UnclosedBrace { name: repo_name.to_owned(), raw: raw.to_owned() },
                );
            }
            let name = text_of(&cs, start, end);
            if start == end {
                proof {
                    lemma_before(out0, seq!['$'], expanded(s@, i + 1, vars));
                    assert(out0.push('$') =~= out0 + seq!['$']);
                }
                out.push('$');
                i += 1;
            } else {
                match env.vars.get(name.as_str()) {
                    Some(value) => {
                        assert(vars[name@] == value@);
                        let next: usize = if braced {
                            end + 1
                        } else {
                            end
                        };
                        proof {
                            lemma_before(out0, value@, expanded(s@, next as int, vars));
                        }
                        out.append(value.as_str());
                        i = next;
                    },
                    None => {
                        return Err(
                            ConfigError::RepoPathExpansion {
                                name: repo_name.to_owned(),
                                raw: raw.to_owned(),
                                missing_var: name,
                            },
                        );
                    },
                }
            }
        }
    }
    assert(out@ + Seq::<char>::empty() =~= out@);
    Ok(out)
}

proof fn lemma_before(a: Seq<char>, b: Seq<char>, r: Result<Seq<char>, VarError>)
    ensures
        before(a, before(b, r)) == before(a + b, r),
{
    match r {
        Ok(c) => assert(a + (b + c) =~= (a + b) + c),
        Err(_) => {},
    }
}

/// A path without `~` in front and without `$` is left as it is.
pub proof fn law_plain_path(raw: Seq<char>, name: Seq<char>, env: EnvView)
    requires
        !raw.contains('$'),
        raw.len() > 0 ==> raw[0] != '~',
    ensures
        expanded_path(raw, name, env) == Ok::<Seq<char>, ErrorView>(raw),
{
    reveal_strlit("~");
    reveal_strlit("~/");
    if begins_with(raw, "~/"@) {
        assert(raw.take(2)[0] == raw[0]);
    }
    lemma_plain_from(raw, 0, env.vars);
    assert(raw.skip(0) =~= raw);
}

pub(crate) proof fn lemma_plain_from(s: Seq<char>, i: int, vars: Map<Seq<char>, Seq<char>>)
    requires
        !s.contains('$'),
        0 <= i <= s.len(),
    ensures
        expanded(s, i, vars) == Ok::<Seq<char>, VarError>(s.skip(i)),
    decreases s.len() - i,
{
    if i < s.len() {
        assert(s.contains(s[i]));
        lemma_plain_from(s, i + 1, vars);
        assert(seq![s[i]] + s.skip(i + 1) =~= s.skip(i));
    } else {
        assert(s.skip(i) =~= Seq::empty());
    }
}

/// A member of the configuration file: a text, a map whose texts are given and whose other
/// values are not, or anything else.
pub enum Member {
    Text(String),
    Texts(Vec<(String, Option<String>)>),
    Other,
}

/// The configuration file: an object with its members in the order of their names, or
/// anything else.
pub enum ConfigJson {
    Object(Vec<(String, Member)>),
    Other,
}

/// What a [`Member`] stands for.
pub enum MemberView {
    Text(Seq<char>),
    Texts(Seq<(Seq<char>, Option<Seq<char>>)>),
    Other,
}

/// What a [`ConfigJson`] stands for.
pub enum JsonView {
    Object(Seq<(Seq<char>, MemberView)>),
    Other,
}

/// What a list of named texts stands for.
pub open spec fn texts_view(v: Seq<(String, Option<String>)>) -> Seq<
    (Seq<char>, Option<Seq<char>>),
> {
    Seq::new(v.len(), |i: int| (v[i].0@, crate::extract::opt_text(v[i].1)))
}

impl View for Member {
    type V = MemberView;

    open spec fn view(&self) -> MemberView {
        match self {
            Member::Text(s) => MemberView::Text(s@),
            Member::Texts(v) => MemberView::Texts(texts_view(v@)),
            Member::Other => MemberView::Other,
        }
    }
}

/// What a list of members stands for.
pub open spec fn members_view(v: Seq<(String, Member)>) -> Seq<(Seq<char>, MemberView)> {
    Seq::new(v.len(), |i: int| (v[i].0@, v[i].1@))
}

impl View for ConfigJson {
    type V = JsonView;

    open spec fn view(&self) -> JsonView {
        match self {
            ConfigJson::Object(v) => JsonView::Object(members_view(v@)),
            ConfigJson::Other => JsonView::Other,
        }
    }
}

/// What `serde_json` makes of a text: its object members, or what is wrong with it.
pub uninterp spec fn json_of(text: Seq<char>) -> Result<JsonView, Seq<char>>;

/// What a parse result stands for.
pub open spec fn json_result(r: Result<ConfigJson, String>) -> Result<JsonView, Seq<char>> {
    match r {
        Ok(j) => Ok(j@),
        Err(e) => Err(e@),
    }
}

/// `serde_json::from_str`, for a value of any shape, of which two levels are kept: the
/// result, or the text of the error, depends on the text alone.
#[verifier::external_body]
fn parse_json(text: &str) -> (r: Result<ConfigJson, String>)
    ensures
        json_result(r) == json_of(text@),
{
    let member = |v| match v {
        serde_json::Value::String(s) => Member::Text(s),
        serde_json::Value::Object(m) => Member::Texts(
            m.into_iter().map(|(k, v)| (k, v.as_str().map(str::to_owned))).collect(),
        ),
        _ => Member::Other,
    };
    match serde_json::from_str(text) {
        Ok(serde_json::Value::Object(m)) => Ok(
            ConfigJson::Object(m.into_iter().map(|(k, v)| (k, member(v))).collect()),
        ),
        Ok(_) => Ok(ConfigJson::Other),
        Err(e) => Err(e.to_string()),
    }
}

/// The repositories by name, in the order of their names.
pub open spec fn pair_views(v: Seq<(String, String)>) -> Seq<(Seq<char>, Seq<char>)> {
    Seq::new(v.len(), |i: int| (v[i].0@, v[i].1@))
}

/// What a list of repositories, or an error, stands for.
pub open spec fn pairs_result(r: Result<Vec<(String, String)>, ConfigError>) -> Result<
    Seq<(Seq<char>, Seq<char>)>,
    ErrorView,
> {
    match r {
        Ok(v) => Ok(pair_views(v@)),
        Err(e) => Err(e@),
    }
}

/// The map has only texts; the first that is none is an error.
pub open spec fn only_texts(v: Seq<(Seq<char>, Option<Seq<char>>)>, path: Seq<char>) -> Result<
    Seq<(Seq<char>, Seq<char>)>,
    ErrorView,
>
    decreases v.len(),
{
    if v.len() == 0 {
        Ok(Seq::empty())
    } else {
        match only_texts(v.drop_last(), path) {
            Err(e) => Err(e),
            Ok(before) => match v.last().1 {
                Some(s) => Ok(before.push((v.last().0, s))),
                None => Err(
                    ErrorView::MalformedJson {
                        path,
                        message: "value for '"@ + v.last().0 + "' must be a string"@,
                    },
                ),
            },
        }
    }
}

/// Position of the member `repos`, from `i` on.
pub open spec fn repos_at(v: Seq<(Seq<char>, MemberView)>, i: int) -> Option<int>
    decreases v.len() - i,
{
    if i >= v.len() {
        None
    } else if v[i].0 == "repos"@ {
        Some(i)
    } else {
        repos_at(v, i + 1)
    }
}

/// The members that are texts, each with its text.
pub open spec fn text_members(v: Seq<(Seq<char>, MemberView)>) -> Seq<(Seq<char>, Seq<char>)> {
    Seq::new(v.len(), |i: int| (v[i].0, v[i].1->Text_0))
}

/// The repositories of a configuration file: those of the member `repos`, or else all
/// members, when all are texts.
pub open spec fn repos_in(json: JsonView, path: Seq<char>) -> Result<
    Seq<(Seq<char>, Seq<char>)>,
    ErrorView,
> {
    match json {
        JsonView::Other => Err(
            ErrorView::MalformedJson { path, message: "top-level must be an object"@ },
        ),
        JsonView::Object(v) => match repos_at(v, 0) {
            Some(i) => match v[i].1 {
                MemberView::Texts(m) => only_texts(m, path),
                _ => Err(
                    ErrorView::MalformedJson {
                        path,
                        message: "'repos' must be a {string:string} map"@,
                    },
                ),
            },
            None => if forall|i: int| 0 <= i < v.len() ==> (#[trigger] v[i]).1 is Text {
                Ok(text_members(v))
            } else {
                Err(
                    ErrorView::MalformedJson {
                        path,
                        message: "expected {\"repos\": {...}} or a flat {name: path} map"@,
                    },
                )
            },
        },
    }
}

fn malformed(path: &str, message: String) -> (r: ConfigError)
    ensures
        r@ == (ErrorView::MalformedJson { path: path@, message: message@ }),
{
    ConfigError::MalformedJson { path: path.to_owned(), message }
}

fn strings_only(v: &Vec<(String, Option<String>)>, path: &str) -> (r: Result<
    Vec<(String, String)>,
    ConfigError,
>)
    ensures
        pairs_result(r) == only_texts(texts_view(v@), path@),
{
    let ghost all = texts_view(v@);
    let mut out: Vec<(String, String)> = Vec::new();
    let mut i: usize = 0;
    assert(all.take(0) =~= Seq::empty());
    assert(pair_views(out@) =~= Seq::empty());
    while i < v.len()
        invariant
            i <= v.len(),
            all == texts_view(v@),
            only_texts(all.take(i as int), path@) == Ok::<_, ErrorView>(pair_views(out@)),
        decreases v.len() - i,
    {
        assert(all.take(i + 1).drop_last() =~= all.take(i as int));
        assert(all.take(i + 1).last() == all[i as int]);
        let ghost before = out@;
        match &v[i].1 {
            Some(s) => {
                out.push((v[i].0.clone(), s.clone()));
                assert(pair_views(out@) =~= pair_views(before).push((v@[i as int].0@, s@)));
            },
            None => {
                proof {
                    lemma_only_texts_fails(all, path@, i + 1);
                }
                return Err(
                    malformed(
                        path,
                        concat3("value for '", v[i].0.as_str(), "' must be a string"),
                    ),
                );
            },
        }
        i += 1;
    }
    assert(all.take(i as int) =~= all);
    Ok(out)
}

/// An error in the first `n` is the error of all.
pub(crate) proof fn lemma_only_texts_fails(
    v: Seq<(Seq<char>, Option<Seq<char>>)>,
    path: Seq<char>,
    n: int,
)
    requires
        0 <= n <= v.len(),
        only_texts(v.take(n), path) is Err,
    ensures
        only_texts(v, path) == only_texts(v.take(n), path),
    decreases v.len() - n,
{
    if n < v.len() {
        assert(v.take(n + 1).drop_last() =~= v.take(n));
        lemma_only_texts_fails(v, path, n + 1);
    } else {
        assert(v.take(n) =~= v);
    }
}

/// The repositories of a configuration file, by name. Both `{"repos": {...}}` and a flat
/// map are accepted.
pub fn extract_repos(value: &ConfigJson, path: &str) -> (r: Result<
    Vec<(String, String)>,
    ConfigError,
>)
    ensures
        pairs_result(r) == repos_in(value@, path@),
{
    let v = match value {
        ConfigJson::Object(v) => v,
        ConfigJson::Other => {
            return Err(malformed(path, "top-level must be an object".to_owned()));
        },
    };
    let ghost all = members_view(v@);
    let mut i: usize = 0;
    while i < v.len()
        invariant
            i <= v.len(),
            all == members_view(v@),
            value@ == JsonView::Object(all),
            repos_at(all, 0) == repos_at(all, i as int),
        decreases v.len() - i,
    {
        assert(all[i as int] == (v@[i as int].0@, v@[i as int].1@));
        if str_eq(v[i].0.as_str(), "repos") {
            return match &v[i].1 {
                Member::Texts(m) => strings_only(m, path),
                _ => Err(malformed(path, "'repos' must be a {string:string} map".to_owned())),
            };
        }
        i += 1;
    }
    let mut out: Vec<(String, String)> = Vec::new();
    i = 0;
    while i < v.len()
        invariant
            i <= v.len(),
            all == members_view(v@),
            value@ == JsonView::Object(all),
            repos_at(all, 0) is None,
            out.len() == i,
            forall|j: int|
                0 <= j < i ==> (#[trigger] all[j]).1 is Text && out@[j].0@ == all[j].0
                    && out@[j].1@ == all[j].1->Text_0,
        decreases v.len() - i,
    {
        assert(all[i as int] == (v@[i as int].0@, v@[i as int].1@));
        match &v[i].1 {
            Member::Text(s) => {
                out.push((v[i].0.clone(), s.clone()));
            },
            _ => {
                assert(!(all[i as int].1 is Text));
                return Err(
                    malformed(
                        path,
                        "expected {\"repos\": {...}} or a flat {name: path} map".to_owned(),
                    ),
                );
            },
        }
        i += 1;
    }
    assert(pair_views(out@) =~= text_members(all));
    Ok(out)
}

/// The roots of the known repositories, by name.
pub struct GlobalConfig {
    pub repos: StringMap<String>,
}

impl View for GlobalConfig {
    type V = Map<Seq<char>, Seq<char>>;

    open spec fn view(&self) -> Map<Seq<char>, Seq<char>> {
        text_values(self.repos@)
    }
}

/// What the configuration file is.
pub enum ConfigFile {
    Missing,
    /// It cannot be read, for this reason.
    Unreadable(String),
    Text(String),
}

/// What a [`ConfigFile`] stands for.
pub enum FileView {
    Missing,
    Unreadable(Seq<char>),
    Text(Seq<char>),
}

impl View for ConfigFile {
    type V = FileView;

    open spec fn view(&self) -> FileView {
        match self {
            ConfigFile::Missing => FileView::Missing,
            ConfigFile::Unreadable(m) => FileView::Unreadable(m@),
            ConfigFile::Text(t) => FileView::Text(t@),
        }
    }
}

/// The repositories with their paths expanded; the first that cannot be is an error.
pub open spec fn expanded_repos(v: Seq<(Seq<char>, Seq<char>)>, env: EnvView) -> Result<
    Map<Seq<char>, Seq<char>>,
    ErrorView,
>
    decreases v.len(),
{
    if v.len() == 0 {
        Ok(Map::empty())
    } else {
        match expanded_repos(v.drop_last(), env) {
            Err(e) => Err(e),
            Ok(before) => match expanded_path(v.last().1, v.last().0, env) {
                Ok(path) => Ok(before.insert(v.last().0, path)),
                Err(e) => Err(e),
            },
        }
    }
}

/// The configuration that parsed as `json`.
pub open spec fn config_from(
    json: Result<JsonView, Seq<char>>,
    path: Seq<char>,
    env: EnvView,
) -> Result<Map<Seq<char>, Seq<char>>, ErrorView> {
    match json {
        Err(message) => Err(ErrorView::MalformedJson { path, message }),
        Ok(json) => match repos_in(json, path) {
            Err(e) => Err(e),
            Ok(v) => expanded_repos(v, env),
        },
    }
}

/// What a configuration, or an error, stands for.
pub open spec fn config_result(r: Result<GlobalConfig, ConfigError>) -> Result<
    Map<Seq<char>, Seq<char>>,
    ErrorView,
> {
    match r {
        Ok(c) => Ok(c@),
        Err(e) => Err(e@),
    }
}

fn expand_repos(v: &Vec<(String, String)>, env: &Env) -> (r: Result<GlobalConfig, ConfigError>)
    ensures
        config_result(r) == expanded_repos(pair_views(v@), env@),
{
    let ghost all = pair_views(v@);
    let mut c = GlobalConfig { repos: StringMap::new() };
    let mut i: usize = 0;
    assert(all.take(0) =~= Seq::empty());
    assert(c@ =~= Map::empty());
    while i < v.len()
        invariant
            i <= v.len(),
            all == pair_views(v@),
            expanded_repos(all.take(i as int), env@) == Ok::<_, ErrorView>(c@),
        decreases v.len() - i,
    {
        assert(all.take(i + 1).drop_last() =~= all.take(i as int));
        assert(all.take(i + 1).last() == all[i as int]);
        let ghost before = c@;
        match expand_path(v[i].1.as_str(), v[i].0.as_str(), env) {
            Ok(path) => {
                let ghost pv = path@;
                c.repos.insert(v[i].0.clone(), path);
                assert(c@ =~= before.insert(v@[i as int].0@, pv));
            },
            Err(e) => {
                proof {
                    lemma_expanded_repos_fails(all, env@, i + 1);
                }
                return Err(e);
            },
        }
        i += 1;
    }
    assert(all.take(i as int) =~= all);
    Ok(c)
}

/// An error in the first `n` is the error of all.
pub(crate) proof fn lemma_expanded_repos_fails(v: Seq<(Seq<char>, Seq<char>)>, env: EnvView, n: int)
    requires
        0 <= n <= v.len(),
        expanded_repos(v.take(n), env) is Err,
    ensures
        expanded_repos(v, env) == expanded_repos(v.take(n), env),
    decreases v.len() - n,
{
    if n < v.len() {
        assert(v.take(n + 1).drop_last() =~= v.take(n));
        lemma_expanded_repos_fails(v, env, n + 1);
    } else {
        assert(v.take(n) =~= v);
    }
}

/// The configuration from what its file at `path` parsed as.
pub fn config_from_json(json: Result<ConfigJson, String>, path: &str, env: &Env) -> (r: Result<
    GlobalConfig,
    ConfigError,
>)
    ensures
        config_result(r) == config_from(json_result(json), path@, env@),
{
    match json {
        Err(message) => Err(malformed(path, message)),
        Ok(value) => match extract_repos(&value, path) {
            Err(e) => Err(e),
            Ok(v) => expand_repos(&v, env),
        },
    }
}

/// The configuration, where its file at `path` is as given. Without a file there are no
/// known repositories.
pub fn load_global_config(path: &str, file: &ConfigFile, env: &Env) -> (r: Result<
    GlobalConfig,
    ConfigError,
>)
    ensures
        config_result(r) == (match file@ {
            FileView::Missing => Ok(Map::empty()),
            FileView::Unreadable(message) => Err(
                ErrorView::Unreadable { path: path@, message },
            ),
            FileView::Text(text) => config_from(json_of(text), path@, env@),
        }),
{
    match file {
        ConfigFile::Missing => {
            let c = GlobalConfig { repos: StringMap::new() };
            assert(c@ =~= Map::empty());
            Ok(c)
        },
        ConfigFile::Unreadable(message) => Err(
            ConfigError::Unreadable { path: path.to_owned(), message: message.clone() },
        ),
        ConfigFile::Text(text) => config_from_json(parse_json(text.as_str()), path, env),
    }
}

impl GlobalConfig {
    /// Drops the repositories whose root is not one of the existing directories `dirs`.
    /// References to a repository that is not here then count as plain code.
    pub fn retain_existing(&mut self, dirs: &StringSet)
        ensures
            final(self)@ == old(self)@.restrict(
                Set::new(
                    |name: Seq<char>|
                        old(self)@.contains_key(name) && dirs@.contains(old(self)@[name]),
                ),
            ),
    {
        let n: usize = self.repos.len();
        let ghost order = self.repos.order();
        let ghost m = self@;
        let mut keep = StringSet::new();
        let mut i: usize = 0;
        while i < n
            invariant
                i <= n == order.len(),
                order == self.repos.order(),
                m == self@,
                forall|k: Seq<char>| #[trigger]
                    keep@.contains(k) <==> order.take(i as int).contains(k) && dirs@.contains(m[k]),
            decreases n - i,
        {
            let ghost k = order[i as int];
            proof {
                lemma_take_next(order, i as int);
            }
            let name = self.repos.key_at(i);
            let path = self.repos.value_at(i);
            assert(m[k] == path@);
            if dirs.contains(path.as_str()) {
                let _ = keep.insert(name.to_owned());
            }
            i += 1;
        }
        assert(order.take(n as int) =~= order);
        assert forall|k: Seq<char>| m.contains_key(k) <==> order.contains(k) by {
            assert(self.repos@.contains_key(k) <==> order.contains(k));
        }
        self.repos.retain(&keep);
        assert(self@ =~= m.restrict(
            Set::new(|name: Seq<char>| m.contains_key(name) && dirs@.contains(m[name])),
        ));
    }
}

/// The directory that configuration and caches lie under: as set, or `.config` in the home
/// directory when it is not set or empty.
pub open spec fn config_home(xdg: Option<Seq<char>>, home: Seq<char>) -> Seq<char> {
    match xdg {
        Some(dir) => if dir.len() > 0 {
            dir
        } else {
            home + "/.config"@
        },
        None => home + "/.config"@,
    }
}

/// The directory that configuration and caches lie under.
pub fn xdg_config_home(xdg: Option<&str>, home: &str) -> (r: String)
    ensures
        r@ == config_home(
            match xdg {
                Some(d) => Some(d@),
                None => None,
            },
            home@,
        ),
{
    match xdg {
        Some(dir) => {
            if dir.is_empty() {
                concat2(home, "/.config")
            } else {
                dir.to_owned()
            }
        },
        None => concat2(home, "/.config"),
    }
}

/// The configuration file, below the configuration directory.
pub fn default_config_path(config_home: &str) -> (r: String)
    ensures
        r@ == config_home@ + "/md-orphan/md-orphan.json"@,
{
    concat2(config_home, "/md-orphan/md-orphan.json")
}

/// The characters beyond ASCII with the Unicode property `White_Space`.
pub uninterp spec fn wide_white_space(c: char) -> bool;

/// The ASCII characters with the Unicode property `White_Space`.
pub open spec fn ascii_white_space(c: char) -> bool {
    c == ' ' || ('\u{9}' <= c && c <= '\u{d}')
}

/// White space.
pub open spec fn white_space(c: char) -> bool {
    if c <= '\u{7f}' {
        ascii_white_space(c)
    } else {
        wide_white_space(c)
    }
}

/// `char::is_whitespace`: of ASCII characters, the space and those from the tab to the
/// carriage return; otherwise the result depends on the character alone.
pub assume_specification[ char::is_whitespace ](c: char) -> (r: bool)
    ensures
        c <= '\u{7f}' ==> r == ascii_white_space(c),
        c > '\u{7f}' ==> r == wide_white_space(c),
;

/// The first position in `i..end` that holds no white space; `end` when there is none.
pub open spec fn trim_from(s: Seq<char>, i: int, end: int) -> int
    decreases end - i,
{
    if i < end && white_space(s[i]) {
        trim_from(s, i + 1, end)
    } else {
        i
    }
}

/// The end of `start..end` without the white space at its end.
pub open spec fn trim_to(s: Seq<char>, start: int, end: int) -> int
    decreases end - start,
{
    if start < end && white_space(s[end - 1]) {
        trim_to(s, start, end - 1)
    } else {
        end
    }
}

/// The text without the white space around it.
pub open spec fn trimmed(s: Seq<char>) -> Seq<char> {
    let start = trim_from(s, 0, s.len() as int);
    s.subrange(start, trim_to(s, start, s.len() as int))
}

/// The patterns of the lines: each line without the white space around it, but for blank
/// lines and those that start with `#`.
pub open spec fn patterns_of(lines: Seq<Seq<char>>) -> Seq<Seq<char>>
    decreases lines.len(),
{
    if lines.len() == 0 {
        Seq::empty()
    } else {
        let before = patterns_of(lines.drop_last());
        let t = trimmed(lines.last());
        if t.len() == 0 || t[0] == '#' {
            before
        } else {
            before.push(t)
        }
    }
}

fn trim(s: &str) -> (r: String)
    ensures
        r@ == trimmed(s@),
{
    let cs = chars_of(s);
    let mut start: usize = 0;
    while start < cs.len() && cs[start].is_whitespace()
        invariant
            start <= cs.len(),
            cs@ == s@,
            trim_from(s@, 0, s@.len() as int) == trim_from(s@, start as int, s@.len() as int),
        decreases cs.len() - start,
    {
        start += 1;
    }
    let mut end: usize = cs.len();
    while start < end && cs[end - 1].is_whitespace()
        invariant
            start <= end <= cs.len(),
            cs@ == s@,
            trim_to(s@, start as int, s@.len() as int) == trim_to(s@, start as int, end as int),
        decreases end - start,
    {
        end -= 1;
    }
    text_of(&cs, start, end)
}

/// The patterns that a repository keeps, where `content` is what its `.md-orphan` file
/// holds; none without a file.
pub fn load_project_ignore(content: Option<&str>) -> (r: Vec<String>)
    ensures
        texts(r@) == (match content {
            Some(text) => patterns_of(split(text@, '\n')),
            None => Seq::empty(),
        }),
{
    let mut r: Vec<String> = Vec::new();
    assert(texts(r@) =~= Seq::empty());
    let text = match content {
        Some(t) => t,
        None => {
            return r;
        },
    };
    let lines = split_text(text, '\n');
    let ghost all = texts(lines@);
    let mut i: usize = 0;
    assert(all.take(0) =~= Seq::empty());
    while i < lines.len()
        invariant
            i <= lines.len(),
            all == texts(lines@),
            texts(r@) == patterns_of(all.take(i as int)),
        decreases lines.len() - i,
    {
        assert(all.take(i + 1).drop_last() =~= all.take(i as int));
        assert(all.take(i + 1).last() == lines@[i as int]@);
        let ghost before = r@;
        let t = trim(lines[i].as_str());
        let len: usize = t.as_str().unicode_len();
        if len > 0 && t.as_str().get_char(0) != '#' {
            let ghost tv = t@;
            r.push(t);
            assert(texts(r@) =~= texts(before).push(tv));
        }
        i += 1;
    }
    assert(all.take(i as int) =~= all);
    r
}

/// The path made of the segments: absolute or relative.
pub open spec fn path_of(rooted: bool, segs: Seq<Seq<char>>) -> Seq<char> {
    if rooted {
        "/"@ + join(segs, "/"@)
    } else {
        join(segs, "/"@)
    }
}

/// The segments without those that stand for the directory they are in. The first segment of
/// a relative path is kept.
pub open spec fn drop_dots(segs: Seq<Seq<char>>, relative: bool) -> Seq<Seq<char>>
    decreases segs.len(),
{
    if segs.len() == 0 {
        Seq::empty()
    } else {
        let before = drop_dots(segs.drop_last(), relative);
        if segs.last() != "."@ || (relative && segs.len() == 1) {
            before.push(segs.last())
        } else {
            before
        }
    }
}

/// The directories and the file that a path names, one below the other.
pub open spec fn components(path: Seq<char>) -> Seq<Seq<char>> {
    drop_dots(segments(path), !begins_with(path, "/"@))
}

/// The directories and the file that a path names, one below the other.
pub fn components_of(path: &str) -> (r: Vec<String>)
    ensures
        texts(r@) == components(path@),
{
    let relative: bool = !starts_with(path, "/");
    let segs = segments_of(path);
    let ghost all = texts(segs@);
    let mut r: Vec<String> = Vec::new();
    let mut i: usize = 0;
    assert(all.take(0) =~= Seq::empty());
    assert(texts(r@) =~= Seq::empty());
    while i < segs.len()
        invariant
            i <= segs.len(),
            all == texts(segs@),
            texts(r@) == drop_dots(all.take(i as int), relative),
        decreases segs.len() - i,
    {
        assert(all.take(i + 1).drop_last() =~= all.take(i as int));
        assert(all.take(i + 1).last() == segs@[i as int]@);
        if !str_eq(segs[i].as_str(), ".") || (relative && i == 0) {
            let ghost before = r@;
            r.push(segs[i].clone());
            assert(texts(r@) =~= texts(before).push(segs@[i as int]@));
        }
        i += 1;
    }
    assert(all.take(i as int) =~= all);
    r
}

/// The directories above a path with these segments, the nearest first.
pub open spec fn above(rooted: bool, segs: Seq<Seq<char>>) -> Seq<Seq<char>>
    decreases segs.len(),
{
    if segs.len() == 0 {
        Seq::empty()
    } else {
        let up = segs.drop_last();
        seq![path_of(rooted, up)] + above(rooted, up)
    }
}

/// The directories above a path, the nearest first.
pub open spec fn ancestors_of(path: Seq<char>) -> Seq<Seq<char>> {
    above(begins_with(path, "/"@), components(path))
}

/// The directories above a path, the nearest first.
pub fn ancestors(path: &str) -> (r: Vec<String>)
    ensures
        texts(r@) == ancestors_of(path@),
{
    let rooted: bool = starts_with(path, "/");
    let segs = components_of(path);
    let ghost all = texts(segs@);
    let mut r: Vec<String> = Vec::new();
    let mut n: usize = segs.len();
    assert(all.take(n as int) =~= all);
    assert(texts(r@) + above(rooted, all) =~= above(rooted, all));
    while n > 0
        invariant
            n <= segs.len(),
            all == texts(segs@),
            texts(r@) + above(rooted, all.take(n as int)) == above(rooted, all),
        decreases n,
    {
        assert(all.take(n as int).drop_last() =~= all.take(n - 1));
        n -= 1;
        let joined = join_first(&segs, n, "/");
        let dir = if rooted {
            concat2("/", joined.as_str())
        } else {
            joined
        };
        let ghost before = r@;
        let ghost dv = dir@;
        r.push(dir);
        assert(texts(r@) =~= texts(before).push(dv));
        assert(texts(before) + (seq![dv] + above(rooted, all.take(n as int))) =~= texts(r@)
            + above(rooted, all.take(n as int)));
    }
    assert(texts(r@) + above(rooted, all.take(0)) =~= texts(r@));
    r
}

/// The `.md-orphan` file of a directory.
pub open spec fn ignore_file(dir: Seq<char>) -> Seq<char> {
    if dir.len() == 0 || finishes_with(dir, "/"@) {
        dir + ".md-orphan"@
    } else {
        dir + "/.md-orphan"@
    }
}

/// The `.md-orphan` file of a directory.
pub fn project_ignore_path(dir: &str) -> (r: String)
    ensures
        r@ == ignore_file(dir@),
{
    if dir.is_empty() || ends_with(dir, "/") {
        concat2(dir, ".md-orphan")
    } else {
        concat2(dir, "/.md-orphan")
    }
}

/// Whether the repository keeps patterns of its own, given which files exist.
pub fn project_ignore_exists(root: &str, existing: &StringSet) -> (r: bool)
    ensures
        r == existing@.contains(ignore_file(root@)),
{
    existing.contains(project_ignore_path(root).as_str())
}

/// The first of the directories that has an `.md-orphan` file.
pub open spec fn first_with_ignore(dirs: Seq<Seq<char>>, existing: Set<Seq<char>>) -> Option<
    Seq<char>,
>
    decreases dirs.len(),
{
    if dirs.len() == 0 {
        None
    } else if existing.contains(ignore_file(dirs[0])) {
        Some(dirs[0])
    } else {
        first_with_ignore(dirs.skip(1), existing)
    }
}

/// The nearest directory above `start` that has an `.md-orphan` file, given which files
/// exist. `start` itself does not count.
pub fn find_project_ignore_ancestor(start: &str, existing: &StringSet) -> (r: Option<String>)
    ensures
        (match r {
            Some(d) => Some(d@),
            None => None,
        }) == first_with_ignore(ancestors_of(start@), existing@),
{
    let dirs = ancestors(start);
    let ghost all = texts(dirs@);
    let mut i: usize = 0;
    assert(all.skip(0) =~= all);
    while i < dirs.len()
        invariant
            i <= dirs.len(),
            all == texts(dirs@),
            all == ancestors_of(start@),
            first_with_ignore(all, existing@) == first_with_ignore(all.skip(i as int), existing@),
        decreases dirs.len() - i,
    {
        assert(all.skip(i as int)[0] == dirs@[i as int]@);
        assert(all.skip(i as int).skip(1) =~= all.skip(i + 1));
        if project_ignore_exists(dirs[i].as_str(), existing) {
            return Some(dirs[i].clone());
        }
        i += 1;
    }
    None
}

/// The directory found is above `start`, and none nearer has an `.md-orphan` file.
pub proof fn law_nearest_ancestor(start: Seq<char>, existing: Set<Seq<char>>)
    ensures
        match first_with_ignore(ancestors_of(start), existing) {
            Some(dir) => exists|i: int|
                0 <= i < ancestors_of(start).len() && #[trigger] ancestors_of(start)[i] == dir
                    && existing.contains(ignore_file(dir)) && (forall|j: int|
                    0 <= j < i ==> !existing.contains(
                        ignore_file(#[trigger] ancestors_of(start)[j]),
                    )),
            None => forall|j: int|
                0 <= j < ancestors_of(start).len() ==> !existing.contains(
                    ignore_file(#[trigger] ancestors_of(start)[j]),
                ),
        },
{
    lemma_first_with_ignore(ancestors_of(start), existing);
}

/// Each directory above an absolute path names what the path names, but for the last few.
/// So none of them is the path itself.
pub proof fn law_strictly_above(path: Seq<char>, i: int)
    requires
        begins_with(path, "/"@),
        0 <= i < ancestors_of(path).len(),
    ensures
        ancestors_of(path).len() == components(path).len(),
        components(ancestors_of(path)[i]) == components(path).take(components(path).len() - 1 - i),
{
    law_segments(path);
    lemma_drop_dots(segments(path));
    lemma_above(components(path), i);
    let up = components(path).take(components(path).len() - 1 - i);
    assert forall|j: int| 0 <= j < up.len() implies plain(#[trigger] up[j]) && up[j] != "."@ by {
        assert(up[j] == components(path)[j]);
    }
    lemma_segments_of_absolute(up);
    lemma_no_dots(up);
    reveal_strlit("/");
    assert(absolute(up).take(1) =~= "/"@);
}

proof fn lemma_above(segs: Seq<Seq<char>>, i: int)
    requires
        0 <= i,
    ensures
        above(true, segs).len() == segs.len(),
        i < segs.len() ==> above(true, segs)[i] == absolute(segs.take(segs.len() - 1 - i)),
    decreases segs.len(),
{
    if segs.len() > 0 {
        let up = segs.drop_last();
        lemma_above(up, if i > 0 {
            i - 1
        } else {
            0
        });
        if i > 0 {
            if i < segs.len() {
                assert(up.take(up.len() - i) =~= segs.take(segs.len() - 1 - i));
            }
        } else {
            assert(up =~= segs.take(segs.len() - 1));
        }
    }
}

proof fn lemma_drop_dots(segs: Seq<Seq<char>>)
    requires
        forall|j: int| 0 <= j < segs.len() ==> plain(#[trigger] segs[j]),
    ensures
        forall|j: int|
            0 <= j < drop_dots(segs, false).len() ==> plain(#[trigger] drop_dots(segs, false)[j])
                && drop_dots(segs, false)[j] != "."@,
    decreases segs.len(),
{
    if segs.len() > 0 {
        let before = segs.drop_last();
        assert forall|j: int| 0 <= j < before.len() implies plain(#[trigger] before[j]) by {
            assert(before[j] == segs[j]);
        }
        lemma_drop_dots(before);
        assert(plain(segs[segs.len() - 1]));
        let kept = drop_dots(segs, false);
        assert forall|j: int| 0 <= j < kept.len() implies plain(#[trigger] kept[j]) && kept[j]
            != "."@ by {
            if j < drop_dots(before, false).len() {
                assert(kept[j] == drop_dots(before, false)[j]);
            }
        }
    }
}

pub(crate) proof fn lemma_no_dots(segs: Seq<Seq<char>>)
    requires
        forall|j: int| 0 <= j < segs.len() ==> (#[trigger] segs[j]) != "."@,
    ensures
        drop_dots(segs, false) == segs,
    decreases segs.len(),
{
    if segs.len() > 0 {
        let before = segs.drop_last();
        assert forall|j: int| 0 <= j < before.len() implies (#[trigger] before[j]) != "."@ by {
            assert(before[j] == segs[j]);
        }
        lemma_no_dots(before);
        assert(segs.last() == segs[segs.len() - 1]);
        assert(before.push(segs.last()) =~= segs);
    } else {
        assert(segs =~= Seq::empty());
    }
}

proof fn lemma_first_with_ignore(dirs: Seq<Seq<char>>, existing: Set<Seq<char>>)
    ensures
        match first_with_ignore(dirs, existing) {
            Some(dir) => exists|i: int|
                0 <= i < dirs.len() && #[trigger] dirs[i] == dir && existing.contains(
                    ignore_file(dir),
                ) && (forall|j: int|
                    0 <= j < i ==> !existing.contains(ignore_file(#[trigger] dirs[j]))),
            None => forall|j: int|
                0 <= j < dirs.len() ==> !existing.contains(ignore_file(#[trigger] dirs[j])),
        },
    decreases dirs.len(),
{
    if dirs.len() > 0 && !existing.contains(ignore_file(dirs[0])) {
        let rest = dirs.skip(1);
        lemma_first_with_ignore(rest, existing);
        match first_with_ignore(rest, existing) {
            Some(dir) => {
                let i = choose|i: int|
                    0 <= i < rest.len() && #[trigger] rest[i] == dir && existing.contains(
                        ignore_file(dir),
                    ) && (forall|j: int|
                        0 <= j < i ==> !existing.contains(ignore_file(#[trigger] rest[j])));
                assert(dirs[i + 1] == dir);
                assert forall|j: int| 0 <= j < i + 1 implies !existing.contains(
                    ignore_file(#[trigger] dirs[j]),
                ) by {
                    if j > 0 {
                        assert(rest[j - 1] == dirs[j]);
                    }
                }
            },
            None => {
                assert forall|j: int| 0 <= j < dirs.len() implies !existing.contains(
                    ignore_file(#[trigger] dirs[j]),
                ) by {
                    if j > 0 {
                        assert(rest[j - 1] == dirs[j]);
                    }
                }
            },
        }
    } else if dirs.len() > 0 {
        assert(dirs[0] == first_with_ignore(dirs, existing)->0);
    }
}

/// The repositories as the members of an object.
pub open spec fn flat_members(v: Seq<(Seq<char>, Seq<char>)>) -> Seq<(Seq<char>, MemberView)> {
    Seq::new(v.len(), |i: int| (v[i].0, MemberView::Text(v[i].1)))
}

/// The repositories as the one member `repos` of an object.
pub open spec fn wrapped_members(v: Seq<(Seq<char>, Seq<char>)>) -> Seq<(Seq<char>, MemberView)> {
    seq![("repos"@, MemberView::Texts(Seq::new(v.len(), |i: int| (v[i].0, Some(v[i].1)))))]
}

/// A configuration file may list the repositories under `repos` or by themselves, unless
/// one is called `repos`: both come to the same.
pub proof fn law_both_shapes(v: Seq<(Seq<char>, Seq<char>)>, path: Seq<char>)
    requires
        forall|i: int| 0 <= i < v.len() ==> (#[trigger] v[i]).0 != "repos"@,
    ensures
        repos_in(JsonView::Object(flat_members(v)), path) == Ok::<_, ErrorView>(v),
        repos_in(JsonView::Object(wrapped_members(v)), path) == Ok::<_, ErrorView>(v),
{
    lemma_no_repos(flat_members(v), 0);
    assert(text_members(flat_members(v)) =~= v);
    assert(wrapped_members(v)[0].0 == "repos"@);
    lemma_all_texts(v, path);
}

pub(crate) proof fn lemma_no_repos(members: Seq<(Seq<char>, MemberView)>, i: int)
    requires
        0 <= i,
        forall|k: int| 0 <= k < members.len() ==> (#[trigger] members[k]).0 != "repos"@,
    ensures
        repos_at(members, i) is None,
    decreases members.len() - i,
{
    if i < members.len() {
        lemma_no_repos(members, i + 1);
    }
}

proof fn lemma_all_texts(v: Seq<(Seq<char>, Seq<char>)>, path: Seq<char>)
    ensures
        only_texts(Seq::new(v.len(), |i: int| (v[i].0, Some(v[i].1))), path) == Ok::<_, ErrorView>(v),
    decreases v.len(),
{
    let m = Seq::new(v.len(), |i: int| (v[i].0, Some(v[i].1)));
    if v.len() == 0 {
        assert(v =~= Seq::empty());
    } else {
        let before = v.drop_last();
        lemma_all_texts(before, path);
        assert(m.drop_last() =~= Seq::new(before.len(), |i: int| (before[i].0, Some(before[i].1))));
        assert(before.push(v.last()) =~= v);
    }
}

} // verus!
