//! The init system: the legacy init scripts and their commands, the unit
//! store and the loading of a unit with its dependencies, and the
//! scheduler that starts units once their dependencies were started.
//!
//! Text is handled as sequences of `char`s; the environment the scripts
//! substitute from is handed in as data.

use vstd::prelude::*;
use std::collections::VecDeque;

verus! {

/// `c` is white space as `char::is_whitespace` documents it: the Unicode
/// `White_Space` property.
pub open spec fn is_white(c: char) -> bool {
    let u = c as u32;
    (0x09 <= u <= 0x0D) || u == 0x20 || u == 0x85 || u == 0xA0 || u == 0x1680 || (0x2000 <= u <= 0x200A)
        || u == 0x2028 || u == 0x2029 || u == 0x202F || u == 0x205F || u == 0x3000
}

/// Whether `c` is white space.
pub fn char_is_white(c: char) -> (r: bool)
    ensures
        r == is_white(c),
{
    let u = c as u32;
    (0x09 <= u && u <= 0x0D) || u == 0x20 || u == 0x85 || u == 0xA0 || u == 0x1680 || (0x2000 <= u && u <= 0x200A)
        || u == 0x2028 || u == 0x2029 || u == 0x202F || u == 0x205F || u == 0x3000
}

/// Number of white characters at the start of `s`.
pub open spec fn lead_white(s: Seq<char>) -> nat
    decreases s.len(),
{
    if s.len() > 0 && is_white(s[0]) { 1 + lead_white(s.skip(1)) } else { 0 }
}

/// Number of white characters at the end of `s`.
pub open spec fn trail_white(s: Seq<char>) -> nat
    decreases s.len(),
{
    if s.len() > 0 && is_white(s.last()) { 1 + trail_white(s.drop_last()) } else { 0 }
}

/// `s` without white space at either end.
pub open spec fn trim(s: Seq<char>) -> Seq<char> {
    let a = lead_white(s);
    let rest = s.skip(a as int);
    rest.take(rest.len() - trail_white(rest))
}

proof fn lemma_lead_white(s: Seq<char>, i: int)
    requires
        0 <= i <= s.len(),
        forall|k: int| 0 <= k < i ==> is_white(s[k]),
        i == s.len() || !is_white(s[i]),
    ensures
        lead_white(s) == i,
    decreases i,
{
    if i > 0 {
        lemma_lead_white(s.skip(1), i - 1);
    } else if s.len() > 0 {
    }
}

proof fn lemma_trail_white(s: Seq<char>, j: int)
    requires
        0 <= j <= s.len(),
        forall|k: int| j <= k < s.len() ==> is_white(s[k]),
        j == 0 || !is_white(s[j - 1]),
    ensures
        trail_white(s) == s.len() - j,
    decreases s.len() - j,
{
    if j < s.len() {
        assert forall|k: int| j <= k < s.drop_last().len() implies is_white(s.drop_last()[k]) by {}
        lemma_trail_white(s.drop_last(), j);
    }
}

/// `s` without white space at either end.
pub fn trim_chars(s: &[char]) -> (r: Vec<char>)
    ensures
        r@ == trim(s@),
{
    let n = s.len();
    let mut i: usize = 0;
    while i < n && char_is_white(s[i])
        invariant
            n == s@.len(),
            i <= n,
            forall|k: int| 0 <= k < i ==> is_white(s@[k]),
        decreases n - i,
    {
        i += 1;
    }
    proof {
        lemma_lead_white(s@, i as int);
    }
    let mut j: usize = n;
    while j > i && char_is_white(s[j - 1])
        invariant
            n == s@.len(),
            i <= j <= n,
            forall|k: int| j <= k < n ==> is_white(s@[k]),
        decreases j,
    {
        j -= 1;
    }
    proof {
        let rest = s@.skip(i as int);
        assert forall|k: int| j - i <= k < rest.len() implies is_white(rest[k]) by {}
        lemma_trail_white(rest, (j - i) as int);
    }
    let mut r: Vec<char> = Vec::new();
    let mut k: usize = i;
    while k < j
        invariant
            i <= k <= j <= n,
            n == s@.len(),
            r@ == s@.subrange(i as int, k as int),
        decreases j - k,
    {
        r.push(s[k]);
        k += 1;
        assert(r@ =~= s@.subrange(i as int, k as int));
    }
    assert(s@.skip(i as int).take((j - i) as int) =~= s@.subrange(i as int, j as int));
    r
}

/// The pieces of `s` between the separator `sep`, in order; `s` with no
/// separator is one piece, and two separators in a row leave an empty piece
/// between them.
pub open spec fn split(s: Seq<char>, sep: char) -> Seq<Seq<char>>
    decreases s.len(),
{
    if s.len() == 0 {
        seq![Seq::<char>::empty()]
    } else {
        let prev = split(s.drop_last(), sep);
        if s.last() == sep {
            prev.push(Seq::empty())
        } else {
            prev.update(prev.len() - 1, prev.last().push(s.last()))
        }
    }
}

proof fn lemma_split_nonempty(s: Seq<char>, sep: char)
    ensures
        split(s, sep).len() >= 1,
    decreases s.len(),
{
    if s.len() > 0 {
        lemma_split_nonempty(s.drop_last(), sep);
    }
}

/// Splits `s` at every `sep`.
pub fn split_chars(s: &[char], sep: char) -> (r: Vec<Vec<char>>)
    ensures
        r@.len() == split(s@, sep).len(),
        forall|i: int| 0 <= i < r@.len() ==> (#[trigger] r@[i])@ == split(s@, sep)[i],
{
    let mut pieces: Vec<Vec<char>> = Vec::new();
    let mut cur: Vec<char> = Vec::new();
    let mut i: usize = 0;
    while i < s.len()
        invariant
            i <= s@.len(),
            ({
                let sp = split(s@.take(i as int), sep);
                &&& pieces@.len() + 1 == sp.len()
                &&& forall|k: int| 0 <= k < pieces@.len() ==> (#[trigger] pieces@[k])@ == sp[k]
                &&& cur@ == sp.last()
            }),
        decreases s.len() - i,
    {
        proof {
            assert(s@.take(i + 1).drop_last() =~= s@.take(i as int));
            assert(s@.take(i + 1).last() == s@[i as int]);
            lemma_split_nonempty(s@.take(i as int), sep);
        }
        let c = s[i];
        if c == sep {
            let mut done: Vec<char> = Vec::new();
            std::mem::swap(&mut done, &mut cur);
            pieces.push(done);
        } else {
            cur.push(c);
        }
        i += 1;
    }
    assert(s@.take(s@.len() as int) =~= s@);
    pieces.push(cur);
    pieces
}

/// The value of the variable `name` in an environment, when it has one (the
/// first entry of that name).
pub open spec fn env_lookup(env: Seq<(Seq<char>, Seq<char>)>, name: Seq<char>) -> Option<Seq<char>>
    decreases env.len(),
{
    if env.len() == 0 {
        None
    } else if env[0].0 == name {
        Some(env[0].1)
    } else {
        env_lookup(env.skip(1), name)
    }
}

/// The environment's entries as character sequences.
pub open spec fn env_view(env: Seq<(Vec<char>, Vec<char>)>) -> Seq<(Seq<char>, Seq<char>)> {
    Seq::new(env.len(), |i: int| (env[i].0@, env[i].1@))
}

fn copy_chars(s: &[char]) -> (r: Vec<char>)
    ensures
        r@ == s@,
{
    let mut r: Vec<char> = Vec::new();
    let mut i: usize = 0;
    while i < s.len()
        invariant
            i <= s@.len(),
            r@ == s@.take(i as int),
        decreases s.len() - i,
    {
        r.push(s[i]);
        i += 1;
        assert(r@ =~= s@.take(i as int));
    }
    assert(s@.take(s@.len() as int) =~= s@);
    r
}

pub fn chars_eq(a: &[char], b: &[char]) -> (r: bool)
    ensures
        r == (a@ == b@),
{
    if a.len() != b.len() {
        return false;
    }
    let mut i: usize = 0;
    while i < a.len()
        invariant
            a@.len() == b@.len(),
            i <= a@.len(),
            forall|k: int| 0 <= k < i ==> a@[k] == b@[k],
        decreases a.len() - i,
    {
        if a[i] != b[i] {
            return false;
        }
        i += 1;
    }
    assert(a@ =~= b@);
    true
}

/// The value of the variable `name`, if the environment has it.
pub fn env_get(env: &Vec<(Vec<char>, Vec<char>)>, name: &[char]) -> (r: Option<Vec<char>>)
    ensures
        match env_lookup(env_view(env@), name@) {
            Some(v) => r matches Some(x) && x@ == v,
            None => r is None,
        },
{
    let ghost ev = env_view(env@);
    let mut i: usize = 0;
    assert(ev.skip(0) =~= ev);
    while i < env.len()
        invariant
            i <= env@.len(),
            ev == env_view(env@),
            env_lookup(ev, name@) == env_lookup(ev.skip(i as int), name@),
        decreases env.len() - i,
    {
        assert(ev.skip(i as int)[0] == (env@[i as int].0@, env@[i as int].1@));
        if chars_eq(env[i].0.as_slice(), name) {
            return Some(copy_chars(env[i].1.as_slice()));
        }
        assert(ev.skip(i as int).skip(1) =~= ev.skip(i + 1));
        i += 1;
    }
    None
}

/// An argument with `$NAME` replaced by the variable's value (empty when
/// it is not set).
pub open spec fn spec_subst_env(env: Seq<(Seq<char>, Seq<char>)>, arg: Seq<char>) -> Seq<char> {
    if arg.len() > 0 && arg[0] == '$' {
        match env_lookup(env, arg.skip(1)) {
            Some(v) => v,
            None => Seq::empty(),
        }
    } else {
        arg
    }
}

/// Replaces an argument `$NAME` by the value of the variable `NAME`.
pub fn subst_env(env: &Vec<(Vec<char>, Vec<char>)>, arg: &[char]) -> (r: Vec<char>)
    ensures
        r@ == spec_subst_env(env_view(env@), arg@),
{
    if arg.len() > 0 && arg[0] == '$' {
        let name = vstd::slice::slice_subrange(arg, 1, arg.len());
        assert(name@ =~= arg@.skip(1));
        match env_get(env, name) {
            Some(v) => v,
            None => Vec::new(),
        }
    } else {
        copy_chars(arg)
    }
}

/// The contents of a list of strings.
pub open spec fn views(v: Seq<Vec<char>>) -> Seq<Seq<char>> {
    Seq::new(v.len(), |i: int| v[i]@)
}

/// Position of the first `=` in `s`, or -1.
pub open spec fn first_eq(s: Seq<char>) -> int
    decreases s.len(),
{
    if s.len() == 0 {
        -1
    } else if s[0] == '=' {
        0
    } else {
        let r = first_eq(s.skip(1));
        if r < 0 { -1 } else { r + 1 }
    }
}

/// The variables after `name` was set to `value`: an existing entry of
/// that name takes the value, otherwise a new entry is added at the end.
pub open spec fn env_insert(envs: Seq<(Seq<char>, Seq<char>)>, name: Seq<char>, value: Seq<char>) -> Seq<(Seq<char>, Seq<char>)> {
    let i = first_key(envs, name);
    if i >= 0 {
        envs.update(i, (name, value))
    } else {
        envs.push((name, value))
    }
}

/// Position of the first entry named `name`, or -1.
pub open spec fn first_key(envs: Seq<(Seq<char>, Seq<char>)>, name: Seq<char>) -> int
    decreases envs.len(),
{
    if envs.len() == 0 {
        -1
    } else if envs[0].0 == name {
        0
    } else {
        let r = first_key(envs.skip(1), name);
        if r < 0 { -1 } else { r + 1 }
    }
}

/// The state of parsing a process: its command once seen, its arguments
/// and its variables.
pub type ProcessParse = (Option<Seq<char>>, Seq<Seq<char>>, Seq<(Seq<char>, Seq<char>)>);

/// One word of a process line: before the command, `NAME=VALUE` sets a
/// variable (`$` as value takes it from the environment, `$OTHER` takes
/// `OTHER`'s value; an empty value sets nothing) and any other word is the
/// command; after the command every word is an argument.
pub open spec fn process_step(st: ProcessParse, arg: Seq<char>, env: Seq<(Seq<char>, Seq<char>)>) -> ProcessParse {
    if st.0 is None {
        let k = first_eq(arg);
        if k >= 0 {
            let name = arg.take(k);
            let raw = arg.skip(k + 1);
            let value = if raw == seq!['$'] {
                match env_lookup(env, name) {
                    Some(v) => v,
                    None => Seq::empty(),
                }
            } else {
                spec_subst_env(env, raw)
            };
            if value.len() > 0 { (None, st.1, env_insert(st.2, name, value)) } else { st }
        } else {
            (Some(arg), st.1, st.2)
        }
    } else {
        (st.0, st.1.push(arg), st.2)
    }
}

/// The state after all the words.
pub open spec fn process_parse(parts: Seq<Seq<char>>, env: Seq<(Seq<char>, Seq<char>)>) -> ProcessParse
    decreases parts.len(),
{
    if parts.len() == 0 {
        (None, Seq::empty(), Seq::empty())
    } else {
        process_step(process_parse(parts.drop_last(), env), parts.last(), env)
    }
}

/// A process to start: its command, arguments and variables.
#[derive(Debug)]
pub struct Process {
    pub cmd: Vec<char>,
    pub args: Vec<Vec<char>>,
    pub envs: Vec<(Vec<char>, Vec<char>)>,
}

fn find_eq(s: &[char]) -> (r: Option<usize>)
    ensures
        match r {
            Some(k) => k == first_eq(s@) && k < s@.len(),
            None => first_eq(s@) == -1,
        },
{
    assert(s@.skip(0) =~= s@);
    let mut i: usize = 0;
    while i < s.len()
        invariant
            i <= s@.len(),
            first_eq(s@) == (if first_eq(s@.skip(i as int)) < 0 { -1 } else { first_eq(s@.skip(i as int)) + i }),
        decreases s.len() - i,
    {
        if s[i] == '=' {
            assert(s@.skip(i as int)[0] == s@[i as int]);
            return Some(i);
        }
        assert(s@.skip(i as int).skip(1) =~= s@.skip(i + 1));
        i += 1;
    }
    None
}

fn insert_env(envs: &mut Vec<(Vec<char>, Vec<char>)>, name: Vec<char>, value: Vec<char>)
    ensures
        env_view(final(envs)@) == env_insert(env_view(old(envs)@), name@, value@),
{
    let ghost ev = env_view(envs@);
    assert(ev.skip(0) =~= ev);
    let mut i: usize = 0;
    while i < envs.len()
        invariant
            i <= envs@.len(),
            envs@ == old(envs)@,
            ev == env_view(envs@),
            first_key(ev, name@) == (if first_key(ev.skip(i as int), name@) < 0 { -1 } else { first_key(ev.skip(i as int), name@) + i }),
        decreases envs.len() - i,
    {
        assert(ev.skip(i as int)[0] == ev[i as int]);
        if chars_eq(envs[i].0.as_slice(), name.as_slice()) {
            let mut entry = envs.remove(i);
            entry.1 = value;
            envs.insert(i, entry);
            assert(env_view(envs@) =~= ev.update(i as int, (name@, value@)));
            return;
        }
        assert(ev.skip(i as int).skip(1) =~= ev.skip(i + 1));
        i += 1;
    }
    envs.push((name, value));
    assert(env_view(envs@) =~= ev.push((name@, value@)));
}

/// The error of a process line with no command.
pub open spec fn no_command_msg() -> Seq<char> {
    "no command given"@
}

/// The error of a `scheme` line with no scheme name.
pub open spec fn no_scheme_msg() -> Seq<char> {
    "init: failed to run scheme: no argument"@
}

fn str_chars(s: &str) -> (r: Vec<char>)
    ensures
        r@ == s@,
{
    let mut r: Vec<char> = Vec::new();
    let n = s.unicode_len();
    let mut i: usize = 0;
    while i < n
        invariant
            n == s@.len(),
            i <= n,
            r@ == s@.take(i as int),
        decreases n - i,
    {
        r.push(s.get_char(i));
        i += 1;
        assert(r@ =~= s@.take(i as int));
    }
    assert(s@.take(n as int) =~= s@);
    r
}

impl Process {
    /// Parses the words of a process line (see `process_step`); an error
    /// when no word is a command.
    pub fn parse(parts: &Vec<Vec<char>>, env: &Vec<(Vec<char>, Vec<char>)>) -> (r: Result<Process, Vec<char>>)
        ensures
            ({
                let st = process_parse(views(parts@), env_view(env@));
                &&& st.0 is None ==> (r matches Err(m) && m@ == no_command_msg())
                &&& st.0 matches Some(c) ==> (r matches Ok(p) && p.cmd@ == c && views(p.args@) == st.1 && env_view(p.envs@) == st.2)
            }),
    {
        let ghost ps = views(parts@);
        let ghost ev = env_view(env@);
        let mut cmd: Option<Vec<char>> = None;
        let mut args: Vec<Vec<char>> = Vec::new();
        let mut envs: Vec<(Vec<char>, Vec<char>)> = Vec::new();
        let mut i: usize = 0;
        while i < parts.len()
            invariant
                i <= parts@.len(),
                ps == views(parts@),
                ev == env_view(env@),
                ({
                    let st = process_parse(ps.take(i as int), ev);
                    &&& (match cmd { Some(c) => st.0 == Some(c@), None => st.0 is None })
                    &&& views(args@) == st.1
                    &&& env_view(envs@) == st.2
                }),
            decreases parts.len() - i,
        {
            proof {
                assert(ps.take(i + 1).drop_last() =~= ps.take(i as int));
                assert(ps.take(i + 1).last() == parts@[i as int]@);
            }
            let arg = &parts[i];
            let _alen = arg.len();
            if cmd.is_none() {
                match find_eq(arg.as_slice()) {
                    Some(k) => {
                        let name_s = vstd::slice::slice_subrange(arg.as_slice(), 0, k);
                        let raw = vstd::slice::slice_subrange(arg.as_slice(), k + 1, arg.len());
                        assert(name_s@ =~= arg@.take(k as int));
                        assert(raw@ =~= arg@.skip(k + 1));
                        let dollar = ['$'];
                        let value = if chars_eq(raw, dollar.as_slice()) {
                            assert(dollar@ =~= seq!['$']);
                            match env_get(env, name_s) {
                                Some(v) => v,
                                None => Vec::new(),
                            }
                        } else {
                            assert(dollar@ =~= seq!['$']);
                            subst_env(env, raw)
                        };
                        if value.len() > 0 {
                            insert_env(&mut envs, copy_chars(name_s), value);
                        }
                    },
                    None => {
                        cmd = Some(copy_chars(arg.as_slice()));
                    },
                }
            } else {
                args.push(copy_chars(arg.as_slice()));
                assert(views(args@) =~= process_parse(ps.take(i as int), ev).1.push(arg@));
            }
            i += 1;
        }
        assert(ps.take(parts@.len() as int) =~= ps);
        match cmd {
            Some(c) => Ok(Process { cmd: c, args, envs }),
            None => Err(str_chars("no command given")),
        }
    }
}

/// How init supervises a service.
#[derive(Debug)]
pub enum ServiceType {
    /// It tells init when it is ready.
    Notify,
    /// It provides the named scheme; ready once that scheme exists.
    Scheme(Vec<char>),
    /// Init waits for it to exit.
    Oneshot,
    /// Init starts it and goes on.
    OneshotAsync,
}

/// A service to start.
#[derive(Debug)]
pub struct Service {
    pub cmd: Vec<char>,
    pub args: Vec<Vec<char>>,
    pub envs: Vec<(Vec<char>, Vec<char>)>,
    pub inherit_envs: Vec<Vec<char>>,
    pub type_: ServiceType,
}

/// The name of a unit: its file name.
#[derive(Debug)]
pub struct UnitId(pub Vec<char>);

/// A command of a legacy init script.
#[derive(Debug)]
pub enum Command {
    /// The units to start first, when they exist.
    RequiresWeak(Vec<UnitId>),
    /// A service to start.
    Service(Service),
    /// A line to print.
    Echo(Vec<char>),
    /// An empty command.
    Nothing,
}

/// The words joined with single spaces.
pub open spec fn join_spaces(ws: Seq<Seq<char>>) -> Seq<char>
    decreases ws.len(),
{
    if ws.len() == 0 {
        Seq::empty()
    } else if ws.len() == 1 {
        ws[0]
    } else {
        join_spaces(ws.drop_last()) + seq![' '] + ws.last()
    }
}

/// What a script line means, by its first word.
pub enum LineKind {
    /// No words: nothing to do.
    Empty,
    /// `requires_weak`: the rest lists units.
    RequiresWeak,
    /// `echo`: the rest is printed.
    Echo,
    /// `notify`: the rest is a service that reports readiness.
    Notify,
    /// `scheme NAME`: the rest is a service that provides a scheme.
    Scheme,
    /// `nowait`: the rest is a service init does not wait for.
    NoWait,
    /// Anything else: the whole line is a service init waits for.
    Oneshot,
}

/// The meaning of a line of words `args`, by its first word.
pub open spec fn command_kind(args: Seq<Seq<char>>) -> LineKind {
    if args.len() == 0 {
        LineKind::Empty
    } else if args[0] == "requires_weak"@ {
        LineKind::RequiresWeak
    } else if args[0] == "echo"@ {
        LineKind::Echo
    } else if args[0] == "notify"@ {
        LineKind::Notify
    } else if args[0] == "scheme"@ {
        LineKind::Scheme
    } else if args[0] == "nowait"@ {
        LineKind::NoWait
    } else {
        LineKind::Oneshot
    }
}

/// A service's contents match a parsed process, of the service type the
/// line kind `t` gives (a scheme service provides `scheme`).
pub open spec fn service_matches(s: Service, st: ProcessParse, t: LineKind, scheme: Seq<char>) -> bool {
    &&& st.0 == Some(s.cmd@)
    &&& views(s.args@) == st.1
    &&& env_view(s.envs@) == st.2
    &&& s.inherit_envs@.len() == 0
    &&& match s.type_ {
        ServiceType::Notify => t is Notify,
        ServiceType::Scheme(n) => t is Scheme && n@ == scheme,
        ServiceType::OneshotAsync => t is NoWait,
        ServiceType::Oneshot => t is Oneshot,
    }
}

pub fn chars_is(a: &[char], lit: &str) -> (r: bool)
    ensures
        r == (a@ == lit@),
{
    let l = str_chars(lit);
    chars_eq(a, l.as_slice())
}

fn copy_words(ws: &Vec<Vec<char>>, from: usize) -> (r: Vec<Vec<char>>)
    requires
        from <= ws@.len(),
    ensures
        views(r@) == views(ws@).skip(from as int),
{
    let mut r: Vec<Vec<char>> = Vec::new();
    let mut i: usize = from;
    while i < ws.len()
        invariant
            from <= i <= ws@.len(),
            views(r@) == views(ws@).subrange(from as int, i as int),
        decreases ws.len() - i,
    {
        let ghost before = views(r@);
        r.push(copy_chars(ws[i].as_slice()));
        assert(views(r@) =~= before.push(ws@[i as int]@));
        i += 1;
        assert(views(r@) =~= views(ws@).subrange(from as int, i as int));
    }
    assert(views(ws@).subrange(from as int, ws@.len() as int) =~= views(ws@).skip(from as int));
    r
}

/// `r` is what the command line of words `a` means (see `command_kind`).
pub open spec fn parses_to(a: Seq<Seq<char>>, ev: Seq<(Seq<char>, Seq<char>)>, r: Result<Command, Vec<char>>) -> bool {
    let k = command_kind(a);
    &&& k is Empty ==> (r matches Ok(Command::Nothing))
    &&& k is RequiresWeak ==> (r matches Ok(Command::RequiresWeak(ids)) && ids@.len() == a.len() - 1
        && forall|i: int| 0 <= i < ids@.len() ==> (#[trigger] ids@[i]).0@ == a[i + 1])
    &&& k is Echo ==> (r matches Ok(Command::Echo(t)) && t@ == join_spaces(a.skip(1)))
    &&& (k is Notify || k is NoWait) ==> ({
        let st = process_parse(a.skip(1), ev);
        &&& st.0 is None ==> (r matches Err(m) && m@ == no_command_msg())
        &&& st.0 is Some ==> (r matches Ok(Command::Service(s)) && service_matches(s, st, k, Seq::empty()))
    })
    &&& k is Scheme ==> (if a.len() < 2 {
        r matches Err(m) && m@ == no_scheme_msg()
    } else {
        let st = process_parse(a.skip(2), ev);
        &&& st.0 is None ==> (r matches Err(m) && m@ == no_command_msg())
        &&& st.0 is Some ==> (r matches Ok(Command::Service(s)) && service_matches(s, st, LineKind::Scheme, a[1]))
    })
    &&& k is Oneshot ==> ({
        let st = process_parse(a, ev);
        &&& st.0 is None ==> (r matches Err(m) && m@ == no_command_msg())
        &&& st.0 is Some ==> (r matches Ok(Command::Service(s)) && service_matches(s, st, LineKind::Oneshot, Seq::empty()))
    })
}

/// The command line of words `a` means a command (not an error).
pub open spec fn parse_ok(a: Seq<Seq<char>>, ev: Seq<(Seq<char>, Seq<char>)>) -> bool {
    let k = command_kind(a);
    if k is Notify || k is NoWait {
        process_parse(a.skip(1), ev).0 is Some
    } else if k is Scheme {
        a.len() >= 2 && process_parse(a.skip(2), ev).0 is Some
    } else if k is Oneshot {
        process_parse(a, ev).0 is Some
    } else {
        true
    }
}

impl Command {
    /// Parses the words of a script line (see `command_kind`); an error
    /// when a `scheme` line names no scheme or a service line has no
    /// command.
    pub fn parse(args: &Vec<Vec<char>>, env: &Vec<(Vec<char>, Vec<char>)>) -> (r: Result<Command, Vec<char>>)
        ensures
            parses_to(views(args@), env_view(env@), r),
    {
        if args.len() == 0 {
            return Ok(Command::Nothing);
        }
        let first = args[0].as_slice();
        if chars_is(first, "requires_weak") {
            let mut ids: Vec<UnitId> = Vec::new();
            let mut i: usize = 1;
            while i < args.len()
                invariant
                    1 <= i <= args@.len(),
                    ids@.len() == i - 1,
                    forall|k: int| 0 <= k < ids@.len() ==> (#[trigger] ids@[k]).0@ == args@[k + 1]@,
                decreases args.len() - i,
            {
                ids.push(UnitId(copy_chars(args[i].as_slice())));
                i += 1;
            }
            return Ok(Command::RequiresWeak(ids));
        }
        if chars_is(first, "echo") {
            let mut text: Vec<char> = Vec::new();
            let mut i: usize = 1;
            let ghost rest = views(args@).skip(1);
            while i < args.len()
                invariant
                    1 <= i <= args@.len(),
                    rest == views(args@).skip(1),
                    text@ == join_spaces(rest.take(i - 1)),
                decreases args.len() - i,
            {
                proof {
                    assert(rest.take(i as int).drop_last() =~= rest.take(i - 1));
                    assert(rest.take(i as int).last() == args@[i as int]@);
                }
                if i > 1 {
                    text.push(' ');
                }
                let ghost before = text@;
                let w = args[i].as_slice();
                let mut k: usize = 0;
                while k < w.len()
                    invariant
                        k <= w@.len(),
                        text@ == before + w@.take(k as int),
                    decreases w.len() - k,
                {
                    text.push(w[k]);
                    k += 1;
                    assert(text@ =~= before + w@.take(k as int));
                }
                assert(w@.take(w@.len() as int) =~= w@);
                i += 1;
                proof {
                    if i - 1 == 1 {
                        assert(rest.take(1) =~= seq![args@[1]@]);
                    }
                }
            }
            assert(rest.take(args@.len() - 1) =~= rest);
            return Ok(Command::Echo(text));
        }
        if chars_is(first, "notify") {
            let rest = copy_words(args, 1);
            let p = match Process::parse(&rest, env) {
                Ok(p) => p,
                Err(e) => return Err(e),
            };
            return Ok(Command::Service(Service { cmd: p.cmd, args: p.args, envs: p.envs, inherit_envs: Vec::new(), type_: ServiceType::Notify }));
        }
        if chars_is(first, "scheme") {
            if args.len() < 2 {
                return Err(str_chars("init: failed to run scheme: no argument"));
            }
            let scheme = copy_chars(args[1].as_slice());
            let rest = copy_words(args, 2);
            let p = match Process::parse(&rest, env) {
                Ok(p) => p,
                Err(e) => return Err(e),
            };
            return Ok(Command::Service(Service { cmd: p.cmd, args: p.args, envs: p.envs, inherit_envs: Vec::new(), type_: ServiceType::Scheme(scheme) }));
        }
        if chars_is(first, "nowait") {
            let rest = copy_words(args, 1);
            let p = match Process::parse(&rest, env) {
                Ok(p) => p,
                Err(e) => return Err(e),
            };
            return Ok(Command::Service(Service { cmd: p.cmd, args: p.args, envs: p.envs, inherit_envs: Vec::new(), type_: ServiceType::OneshotAsync }));
        }
        let all = copy_words(args, 0);
        assert(views(args@).skip(0) =~= views(args@));
        let p = match Process::parse(&all, env) {
            Ok(p) => p,
            Err(e) => return Err(e),
        };
        Ok(Command::Service(Service { cmd: p.cmd, args: p.args, envs: p.envs, inherit_envs: Vec::new(), type_: ServiceType::Oneshot }))
    }
}

/// A legacy init script: its commands in order.
#[derive(Debug)]
pub struct Script(pub Vec<Command>);

/// The lines of a script that hold a command: each line trimmed, without
/// the empty lines and the comments (`#`).
pub open spec fn script_lines(config: Seq<char>) -> Seq<Seq<char>> {
    split(config, '\n').map_values(|l: Seq<char>| trim(l)).filter(|l: Seq<char>| l.len() > 0 && l[0] != '#')
}

/// The words of a script line, each with `$NAME` substituted.
pub open spec fn line_words(line: Seq<char>, ev: Seq<(Seq<char>, Seq<char>)>) -> Seq<Seq<char>> {
    split(line, ' ').map_values(|w: Seq<char>| spec_subst_env(ev, w))
}

/// The command lines of a script that mean a command.
pub open spec fn ok_lines(config: Seq<char>, ev: Seq<(Seq<char>, Seq<char>)>) -> Seq<Seq<char>> {
    script_lines(config).filter(|l: Seq<char>| parse_ok(line_words(l, ev), ev))
}

/// The command lines of a script that are errors.
pub open spec fn error_lines(config: Seq<char>, ev: Seq<(Seq<char>, Seq<char>)>) -> Seq<Seq<char>> {
    script_lines(config).filter(|l: Seq<char>| !parse_ok(line_words(l, ev), ev))
}

proof fn lemma_filter_split<A>(s: Seq<A>, p: spec_fn(A) -> bool, q: spec_fn(A) -> bool)
    requires
        forall|x: A| #[trigger] q(x) == !p(x),
    ensures
        s.filter(p).len() + s.filter(q).len() == s.len(),
    decreases s.len(),
{
    reveal(Seq::filter);
    if s.len() > 0 {
        lemma_filter_split(s.drop_last(), p, q);
        assert(q(s.last()) == !p(s.last()));
    }
}

/// Every command line of a script gives exactly one command or one error:
/// the command lines that parse and those that do not are all of them.
pub proof fn lemma_script_lines_partition(config: Seq<char>, ev: Seq<(Seq<char>, Seq<char>)>)
    ensures
        ok_lines(config, ev).len() + error_lines(config, ev).len() == script_lines(config).len(),
{
    let p = |l: Seq<char>| parse_ok(line_words(l, ev), ev);
    let q = |l: Seq<char>| !parse_ok(line_words(l, ev), ev);
    lemma_filter_split(script_lines(config), p, q);
}

/// No command of a parsed script is the empty command: every command line
/// has at least one word.
pub proof fn lemma_script_has_no_empty_command(config: Seq<char>, ev: Seq<(Seq<char>, Seq<char>)>, script: Script, errors: Vec<Vec<char>>)
    requires
        Script::from_str_spec(config, ev, script, errors),
    ensures
        forall|i: int| 0 <= i < script.0@.len() ==> !(#[trigger] script.0@[i] is Nothing),
{
    assert forall|i: int| 0 <= i < script.0@.len() implies !(#[trigger] script.0@[i] is Nothing) by {
        let l = ok_lines(config, ev)[i];
        lemma_split_nonempty(l, ' ');
        assert(line_words(l, ev).len() >= 1);
        assert(parses_to(line_words(l, ev), ev, Ok(script.0@[i])));
    }
}

proof fn lemma_parse_ok(a: Seq<Seq<char>>, ev: Seq<(Seq<char>, Seq<char>)>, r: Result<Command, Vec<char>>)
    requires
        parses_to(a, ev, r),
    ensures
        r is Ok <==> parse_ok(a, ev),
{
}

impl Script {
    /// Parses a script: every command line (see `script_lines`) is split at
    /// spaces, its words substituted from `env`, and parsed; the commands
    /// come out in order, and the errors of the lines that are not commands
    /// in order beside them.
    pub fn from_str(config: &[char], env: &Vec<(Vec<char>, Vec<char>)>) -> (r: (Script, Vec<Vec<char>>))
        ensures
            r.0.0@.len() == ok_lines(config@, env_view(env@)).len(),
            forall|i: int| 0 <= i < r.0.0@.len() ==> parses_to(
                line_words(ok_lines(config@, env_view(env@))[i], env_view(env@)),
                env_view(env@),
                Ok(#[trigger] r.0.0@[i]),
            ),
            r.1@.len() == error_lines(config@, env_view(env@)).len(),
            forall|i: int| 0 <= i < r.1@.len() ==> parses_to(
                line_words(error_lines(config@, env_view(env@))[i], env_view(env@)),
                env_view(env@),
                Err(#[trigger] r.1@[i]),
            ),
    {
        let ghost ev = env_view(env@);
        let lines = split_chars(config, '\n');
        let ghost raw = split(config@, '\n');
        let ghost trimmed = raw.map_values(|l: Seq<char>| trim(l));
        let ghost keep = |l: Seq<char>| l.len() > 0 && l[0] != '#';
        let ghost okp = |l: Seq<char>| parse_ok(line_words(l, ev), ev);
        let ghost errp = |l: Seq<char>| !parse_ok(line_words(l, ev), ev);
        let mut cmds: Vec<Command> = Vec::new();
        let mut errors: Vec<Vec<char>> = Vec::new();
        let mut i: usize = 0;
        while i < lines.len()
            invariant
                i <= lines@.len(),
                lines@.len() == raw.len(),
                forall|k: int| 0 <= k < lines@.len() ==> (#[trigger] lines@[k])@ == raw[k],
                ev == env_view(env@),
                trimmed == raw.map_values(|l: Seq<char>| trim(l)),
                keep == (|l: Seq<char>| l.len() > 0 && l[0] != '#'),
                okp == (|l: Seq<char>| parse_ok(line_words(l, ev), ev)),
                errp == (|l: Seq<char>| !parse_ok(line_words(l, ev), ev)),
                cmds@.len() == trimmed.take(i as int).filter(keep).filter(okp).len(),
                forall|k: int| 0 <= k < cmds@.len() ==> parses_to(line_words(trimmed.take(i as int).filter(keep).filter(okp)[k], ev), ev, Ok(#[trigger] cmds@[k])),
                errors@.len() == trimmed.take(i as int).filter(keep).filter(errp).len(),
                forall|k: int| 0 <= k < errors@.len() ==> parses_to(line_words(trimmed.take(i as int).filter(keep).filter(errp)[k], ev), ev, Err(#[trigger] errors@[k])),
            decreases lines.len() - i,
        {
            let line = trim_chars(lines[i].as_slice());
            let ghost t = trimmed.take(i as int);
            proof {
                assert(trimmed.take(i + 1) =~= t.push(line@));
                t.lemma_filter_push(line@, keep);
            }
            if line.len() == 0 || line[0] == '#' {
                i += 1;
                continue;
            }
            let ghost kt = t.filter(keep);
            proof {
                assert(trimmed.take(i + 1).filter(keep) == kt.push(line@));
                kt.lemma_filter_push(line@, okp);
                kt.lemma_filter_push(line@, errp);
            }
            let words = split_chars(line.as_slice(), ' ');
            let mut args: Vec<Vec<char>> = Vec::new();
            let mut w: usize = 0;
            while w < words.len()
                invariant
                    w <= words@.len(),
                    words@.len() == split(line@, ' ').len(),
                    forall|k: int| 0 <= k < words@.len() ==> (#[trigger] words@[k])@ == split(line@, ' ')[k],
                    ev == env_view(env@),
                    args@.len() == w,
                    forall|k: int| 0 <= k < w ==> (#[trigger] args@[k])@ == spec_subst_env(ev, split(line@, ' ')[k]),
                decreases words.len() - w,
            {
                args.push(subst_env(env, words[w].as_slice()));
                w += 1;
            }
            assert(views(args@) =~= line_words(line@, ev));
            let res = Command::parse(&args, env);
            proof {
                lemma_parse_ok(line_words(line@, ev), ev, res);
            }
            match res {
                Ok(cmd) => {
                    cmds.push(cmd);
                },
                Err(e) => {
                    errors.push(e);
                },
            }
            i += 1;
        }
        proof {
            assert(trimmed.take(lines@.len() as int) =~= trimmed);
        }
        (Script(cmds), errors)
    }
}

impl UnitId {
    /// The same name.
    pub fn copy(&self) -> (r: UnitId)
        ensures
            r.0@ == self.0@,
    {
        UnitId(copy_chars(self.0.as_slice()))
    }
}

/// What a unit says of itself.
#[derive(Debug)]
pub struct UnitInfo {
    pub description: Option<Vec<char>>,
    pub default_dependencies: bool,
    pub requires_weak: Vec<UnitId>,
    pub condition_architecture: Option<Vec<Vec<char>>>,
    pub condition_board: Option<Vec<Vec<char>>>,
}

/// What a unit starts.
#[derive(Debug)]
pub enum UnitKind {
    LegacyScript { script: Script },
    Service { service: Service },
    Target {},
}

/// A unit of the init system.
#[derive(Debug)]
pub struct Unit {
    pub id: UnitId,
    pub info: UnitInfo,
    pub kind: UnitKind,
}

/// The default of a unit's `default_dependencies`.
pub fn true_bool() -> (b: bool)
    ensures
        b,
{
    true
}

/// The names a list of units gives.
pub open spec fn ids_view(ids: Seq<UnitId>) -> Seq<Seq<char>> {
    Seq::new(ids.len(), |i: int| ids[i].0@)
}

/// The units listed by the `requires_weak` commands of a script, in order.
pub open spec fn script_requires(cmds: Seq<Command>) -> Seq<Seq<char>>
    decreases cmds.len(),
{
    if cmds.len() == 0 {
        Seq::empty()
    } else {
        script_requires(cmds.drop_last()) + match cmds.last() {
            Command::RequiresWeak(ids) => ids_view(ids@),
            _ => Seq::empty(),
        }
    }
}

/// The kind of a unit file, by its extension.
#[derive(Debug, Copy, Clone, PartialEq, Eq, Structural)]
pub enum UnitFileKind {
    /// No extension: a legacy script.
    Script,
    /// `.service`.
    Service,
    /// `.target`.
    Target,
    /// Any other extension.
    Invalid,
}

/// Position of the last `.` of a file name, or -1.
pub open spec fn last_dot(name: Seq<char>) -> int
    decreases name.len(),
{
    if name.len() == 0 {
        -1
    } else if name.last() == '.' {
        name.len() - 1
    } else {
        last_dot(name.drop_last())
    }
}

/// The extension of a file name, as `Path::extension` gives it: what
/// follows the last `.`, none when there is no `.` or the only one starts
/// the name.
pub open spec fn extension(name: Seq<char>) -> Option<Seq<char>> {
    let d = last_dot(name);
    if d <= 0 { None } else { Some(name.skip(d + 1)) }
}

fn find_last_dot(name: &[char]) -> (r: Option<usize>)
    ensures
        match r {
            Some(d) => d == last_dot(name@) && d < name@.len(),
            None => last_dot(name@) == -1,
        },
{
    let mut j: usize = name.len();
    assert(name@.take(j as int) =~= name@);
    while j > 0
        invariant
            j <= name@.len(),
            last_dot(name@) == last_dot(name@.take(j as int)),
        decreases j,
    {
        assert(name@.take(j as int).drop_last() =~= name@.take(j - 1));
        if name[j - 1] == '.' {
            return Some(j - 1);
        }
        j -= 1;
    }
    assert(name@.take(0) =~= Seq::<char>::empty());
    None
}

/// The kind of the unit file named `name`.
pub fn unit_file_kind(name: &[char]) -> (k: UnitFileKind)
    ensures
        k == (match extension(name@) {
            None => UnitFileKind::Script,
            Some(e) => if e == "service"@ {
                UnitFileKind::Service
            } else if e == "target"@ {
                UnitFileKind::Target
            } else {
                UnitFileKind::Invalid
            },
        }),
{
    assert(name@.take(name@.len() as int) =~= name@);
    let _n = name.len();
    match find_last_dot(name) {
        Some(d) => {
            if d == 0 {
                return UnitFileKind::Script;
            }
            let ext = vstd::slice::slice_subrange(name, d + 1, name.len());
            assert(ext@ =~= name@.skip(d + 1));
            if chars_is(ext, "service") {
                UnitFileKind::Service
            } else if chars_is(ext, "target") {
                UnitFileKind::Target
            } else {
                UnitFileKind::Invalid
            }
        },
        None => UnitFileKind::Script,
    }
}

impl Unit {
    /// The unit of a legacy script named `name`: it requires (weakly) the
    /// units its `requires_weak` commands list, and has the default
    /// dependencies. The errors of the script's lines come out beside it.
    pub fn from_script(name: Vec<char>, config: &[char], env: &Vec<(Vec<char>, Vec<char>)>) -> (r: (Unit, Vec<Vec<char>>))
        ensures
            r.0.id.0@ == name@,
            r.0.info.default_dependencies,
            r.0.info.description is None,
            r.0.info.condition_architecture is None && r.0.info.condition_board is None,
            r.0.kind matches UnitKind::LegacyScript { script } && ids_view(r.0.info.requires_weak@) == script_requires(script.0@)
                && Script::from_str_spec(config@, env_view(env@), script, r.1),
    {
        let (script, errors) = Script::from_str(config, env);
        let mut requires_weak: Vec<UnitId> = Vec::new();
        let mut i: usize = 0;
        while i < script.0.len()
            invariant
                i <= script.0@.len(),
                ids_view(requires_weak@) == script_requires(script.0@.take(i as int)),
            decreases script.0.len() - i,
        {
            proof {
                assert(script.0@.take(i + 1).drop_last() =~= script.0@.take(i as int));
                assert(script.0@.take(i + 1).last() == script.0@[i as int]);
            }
            match &script.0[i] {
                Command::RequiresWeak(deps) => {
                    let ghost before = ids_view(requires_weak@);
                    let mut k: usize = 0;
                    while k < deps.len()
                        invariant
                            k <= deps@.len(),
                            ids_view(requires_weak@) == before + ids_view(deps@).take(k as int),
                        decreases deps.len() - k,
                    {
                        let ghost pre = ids_view(requires_weak@);
                        requires_weak.push(deps[k].copy());
                        assert(ids_view(requires_weak@) =~= pre.push(deps@[k as int].0@));
                        k += 1;
                        assert(ids_view(requires_weak@) =~= before + ids_view(deps@).take(k as int));
                    }
                    assert(ids_view(deps@).take(deps@.len() as int) =~= ids_view(deps@));
                },
                _ => {
                    assert(script_requires(script.0@.take(i + 1)) =~= script_requires(script.0@.take(i as int)));
                },
            }
            i += 1;
        }
        assert(script.0@.take(script.0@.len() as int) =~= script.0@);
        let info = UnitInfo {
            description: None,
            default_dependencies: true,
            requires_weak,
            condition_architecture: None,
            condition_board: None,
        };
        (Unit { id: UnitId(name), info, kind: UnitKind::LegacyScript { script } }, errors)
    }
}

impl Script {
    /// What `from_str` promises of `script` and `errors` for `config`.
    pub open spec fn from_str_spec(config: Seq<char>, ev: Seq<(Seq<char>, Seq<char>)>, script: Script, errors: Vec<Vec<char>>) -> bool {
        &&& script.0@.len() == ok_lines(config, ev).len()
        &&& forall|i: int| 0 <= i < script.0@.len() ==> parses_to(line_words(ok_lines(config, ev)[i], ev), ev, Ok(#[trigger] script.0@[i]))
        &&& errors@.len() == error_lines(config, ev).len()
        &&& forall|i: int| 0 <= i < errors@.len() ==> parses_to(line_words(error_lines(config, ev)[i], ev), ev, Err(#[trigger] errors@[i]))
    }
}

/// The units known to init, each under its own name, and the directories
/// unit files are looked up in (the last one first).
pub struct UnitStore {
    pub config_dirs: Vec<Vec<char>>,
    pub units: Vec<Unit>,
}


/// Some unit of the store is named `name`.
pub open spec fn has_unit(units: Seq<Unit>, name: Seq<char>) -> bool {
    exists|i: int| 0 <= i < units.len() && units[i].id.0@ == name
}

impl UnitStore {
    /// Unit names do not repeat.
    pub open spec fn wf(&self) -> bool {
        forall|i: int, j: int| 0 <= i < j < self.units@.len() ==> #[trigger] self.units@[i].id.0@ != #[trigger] self.units@[j].id.0@
    }

    /// No units and no directories.
    pub fn new() -> (s: UnitStore)
        ensures
            s.wf(),
            s.config_dirs@.len() == 0,
            s.units@.len() == 0,
    {
        UnitStore { config_dirs: Vec::new(), units: Vec::new() }
    }

    /// Position of the unit `name`, if the store has it.
    pub fn find(&self, name: &UnitId) -> (r: Option<usize>)
        ensures
            match r {
                Some(i) => i < self.units@.len() && self.units@[i as int].id.0@ == name.0@,
                None => !has_unit(self.units@, name.0@),
            },
    {
        let mut i: usize = 0;
        while i < self.units.len()
            invariant
                i <= self.units@.len(),
                forall|k: int| 0 <= k < i ==> self.units@[k].id.0@ != name.0@,
            decreases self.units.len() - i,
        {
            if chars_eq(self.units[i].id.0.as_slice(), name.0.as_slice()) {
                return Some(i);
            }
            i += 1;
        }
        None
    }

    /// The unit `name`.
    pub fn unit(&self, name: &UnitId) -> (u: &Unit)
        requires
            has_unit(self.units@, name.0@),
        ensures
            u.id.0@ == name.0@,
            exists|i: int| 0 <= i < self.units@.len() && self.units@[i] == *u,
    {
        let i = self.find(name).unwrap();
        &self.units[i]
    }

    /// The files a unit named `name` is looked for in, in order: under each
    /// directory, the last one first.
    pub fn unit_paths(&self, name: &UnitId) -> (r: Vec<Vec<char>>)
        ensures
            views(r@) == Seq::new(
                self.config_dirs@.len(),
                |i: int| path_join(self.config_dirs@[self.config_dirs@.len() - 1 - i]@, name.0@),
            ),
    {
        let n = self.config_dirs.len();
        let mut r: Vec<Vec<char>> = Vec::new();
        let mut i: usize = 0;
        while i < n
            invariant
                n == self.config_dirs@.len(),
                i <= n,
                views(r@) == Seq::new(i as nat, |k: int| path_join(self.config_dirs@[n - 1 - k]@, name.0@)),
            decreases n - i,
        {
            let ghost pre = views(r@);
            let path = join_chars(self.config_dirs[n - 1 - i].as_slice(), name.0.as_slice());
            let ghost pv = path@;
            r.push(path);
            assert(views(r@) =~= pre.push(pv));
            i += 1;
            assert(views(r@) =~= Seq::new(i as nat, |k: int| path_join(self.config_dirs@[n - 1 - k]@, name.0@)));
        }
        r
    }

    /// Takes in the outcome of loading the unit `name` (None when it was not
    /// found or did not parse): a loaded unit goes into the store and its
    /// name is handed back.
    pub fn load_single_unit(&mut self, name: &UnitId, unit: Option<Unit>) -> (r: Option<UnitId>)
        requires
            old(self).wf(),
            unit matches Some(u) ==> u.id.0@ == name.0@,
        ensures
            final(self).wf(),
            final(self).config_dirs == old(self).config_dirs,
            unit is None ==> r is None && final(self).units@ == old(self).units@,
            unit is Some ==> (r matches Some(id) && id.0@ == name.0@) && has_unit(final(self).units@, name.0@)
                && (forall|n: Seq<char>| #[trigger] has_unit(final(self).units@, n) <==> (has_unit(old(self).units@, n) || n == name.0@)),
    {
        match unit {
            None => None,
            Some(u) => {
                self.insert(u);
                Some(name.copy())
            },
        }
    }

    /// The unit `name`, to change in place.
    pub fn unit_mut(&mut self, name: &UnitId) -> (u: &mut Unit)
        requires
            has_unit(old(self).units@, name.0@),
        ensures
            u.id.0@ == name.0@,
            exists|i: int|
                0 <= i < old(self).units@.len() && old(self).units@[i] == *u
                    && final(self).units@ == old(self).units@.update(i, *final(u)),
            final(self).config_dirs == old(self).config_dirs,
    {
        let i = self.find(name).unwrap();
        &mut self.units[i]
    }

    /// Takes a loaded unit in; a unit already known under its name is
    /// replaced.
    pub fn insert(&mut self, unit: Unit)
        requires
            old(self).wf(),
        ensures
            final(self).wf(),
            final(self).config_dirs == old(self).config_dirs,
            has_unit(final(self).units@, unit.id.0@),
            forall|n: Seq<char>| has_unit(old(self).units@, n) ==> #[trigger] has_unit(final(self).units@, n),
            forall|n: Seq<char>| #[trigger] has_unit(final(self).units@, n) ==> has_unit(old(self).units@, n) || n == unit.id.0@,
    {
        let ghost name = unit.id.0@;
        match self.find(&unit.id) {
            Some(i) => {
                let ghost before = self.units@;
                let _old = self.units.remove(i);
                self.units.insert(i, unit);
                proof {
                    assert forall|a: int| 0 <= a < self.units@.len() && a != i implies self.units@[a] == before[a] by {}
                    assert forall|a: int, b: int| 0 <= a < b < self.units@.len() implies #[trigger] self.units@[a].id.0@ != #[trigger] self.units@[b].id.0@ by {
                        assert(self.units@[a].id.0@ == before[a].id.0@ && self.units@[b].id.0@ == before[b].id.0@);
                        assert(before[a].id.0@ != before[b].id.0@);
                    }
                    assert(self.units@[i as int].id.0@ == name);
                    assert forall|n: Seq<char>| has_unit(before, n) implies #[trigger] has_unit(self.units@, n) by {
                        let k = choose|k: int| 0 <= k < before.len() && before[k].id.0@ == n;
                        assert(self.units@[k].id.0@ == before[k].id.0@);
                    }
                    assert forall|n: Seq<char>| #[trigger] has_unit(self.units@, n) implies has_unit(before, n) || n == name by {
                        let k = choose|k: int| 0 <= k < self.units@.len() && self.units@[k].id.0@ == n;
                        if k != i {
                            assert(self.units@[k] == before[k]);
                        }
                    }
                }
            },
            None => {
                let ghost before = self.units@;
                self.units.push(unit);
                proof {
                    assert forall|a: int, b: int| 0 <= a < b < self.units@.len() implies #[trigger] self.units@[a].id.0@ != #[trigger] self.units@[b].id.0@ by {
                        if b < before.len() {
                            assert(before[a].id.0@ != before[b].id.0@);
                        } else {
                            assert(self.units@[a] == before[a]);
                        }
                    }
                    assert(self.units@[before.len() as int].id.0@ == name);
                    assert forall|n: Seq<char>| has_unit(before, n) implies #[trigger] has_unit(self.units@, n) by {
                        let k = choose|k: int| 0 <= k < before.len() && before[k].id.0@ == n;
                        assert(self.units@[k] == before[k]);
                    }
                    assert forall|n: Seq<char>| #[trigger] has_unit(self.units@, n) implies has_unit(before, n) || n == name by {
                        let k = choose|k: int| 0 <= k < self.units@.len() && self.units@[k].id.0@ == n;
                        if k < before.len() {
                            assert(self.units@[k] == before[k]);
                        }
                    }
                }
            },
        }
    }

    /// Starts loading the unit `root` and the units it requires (weakly),
    /// transitively: see `UnitLoad`.
    pub fn load_units(&self, root: UnitId) -> (l: UnitLoad)
        ensures
            ids_view(l.pending@) == seq![root.0@],
            l.loaded@.len() == 0,
            l.current is None,
            l.load_ok(self.units@),
    {
        let mut pending: Vec<UnitId> = Vec::new();
        let ghost r = root.0@;
        pending.push(root);
        assert(ids_view(pending@) =~= seq![r]);
        UnitLoad { pending, loaded: Vec::new(), current: None }
    }
}

/// The loading of a unit and its dependencies, depth first: the units
/// still to look at, last first, the units loaded so far in order, and the
/// unit named by the last step, whose outcome is awaited. Each step names
/// the next unit to load (skipping those the store knows); its file is
/// read outside, and the result handed back.
pub struct UnitLoad {
    pub pending: Vec<UnitId>,
    pub loaded: Vec<UnitId>,
    pub current: Option<UnitId>,
}

/// Every unit loaded is in the store, and none was loaded twice.
pub open spec fn loads_ok(loaded: Seq<Seq<char>>, units: Seq<Unit>) -> bool {
    &&& forall|i: int| 0 <= i < loaded.len() ==> has_unit(units, #[trigger] loaded[i])
    &&& forall|i: int, j: int| 0 <= i < j < loaded.len() ==> #[trigger] loaded[i] != #[trigger] loaded[j]
}

impl UnitLoad {
    /// Every unit loaded is in the store and none was loaded twice, and the
    /// unit awaited is not in the store.
    pub open spec fn load_ok(&self, units: Seq<Unit>) -> bool {
        &&& loads_ok(ids_view(self.loaded@), units)
        &&& self.current matches Some(c) ==> !has_unit(units, c.0@)
    }

    /// The next unit to load: the last pending unit the store does not know
    /// yet (the ones it knows are dropped), which becomes the unit awaited;
    /// None when none is left.
    pub fn next(&mut self, store: &UnitStore) -> (r: Option<UnitId>)
        ensures
            final(self).loaded@ == old(self).loaded@,
            match r {
                Some(id) => final(self).current matches Some(c) && c.0@ == id.0@,
                None => final(self).current is None,
            },
            loads_ok(ids_view(old(self).loaded@), store.units@) ==> final(self).load_ok(store.units@),
            match r {
                Some(id) => !has_unit(store.units@, id.0@) && ({
                    let k = final(self).pending@.len();
                    &&& k < old(self).pending@.len()
                    &&& ids_view(final(self).pending@) == ids_view(old(self).pending@).take(k as int)
                    &&& old(self).pending@[k as int].0@ == id.0@
                    &&& forall|j: int| k < j < old(self).pending@.len() ==> has_unit(store.units@, #[trigger] old(self).pending@[j].0@)
                }),
                None => final(self).pending@.len() == 0 && forall|j: int| 0 <= j < old(self).pending@.len() ==> has_unit(store.units@, #[trigger] old(self).pending@[j].0@),
            },
    {
        let ghost start = self.pending@;
        loop
            invariant
                self.loaded@ == old(self).loaded@,
                start == old(self).pending@,
                self.pending@.len() <= start.len(),
                ids_view(self.pending@) == ids_view(start).take(self.pending@.len() as int),
                forall|k: int| 0 <= k < self.pending@.len() ==> (#[trigger] self.pending@[k]).0@ == start[k].0@,
                forall|j: int| self.pending@.len() <= j < start.len() ==> has_unit(store.units@, #[trigger] start[j].0@),
            decreases self.pending@.len(),
        {
            match self.pending.pop() {
                None => {
                    self.current = None;
                    return None;
                },
                Some(id) => {
                    proof {
                        assert(ids_view(self.pending@) =~= ids_view(start).take(self.pending@.len() as int));
                    }
                    match store.find(&id) {
                        Some(_) => {},
                        None => {
                            self.current = Some(id.copy());
                            return Some(id);
                        },
                    }
                },
            }
        }
    }

    /// Records the outcome of loading the unit awaited: a loaded unit (which
    /// carries the name awaited) goes into the store, is counted as loaded,
    /// and its dependencies become pending in the order it lists them (so
    /// the last one is looked at first). No unit is awaited afterwards.
    pub fn loaded(&mut self, store: &mut UnitStore, unit: Option<Unit>)
        requires
            old(store).wf(),
            unit matches Some(u) ==> (old(self).current matches Some(c) && c.0@ == u.id.0@),
        ensures
            final(store).wf(),
            final(self).current is None,
            forall|n: Seq<char>| #[trigger] has_unit(final(store).units@, n)
                <==> (has_unit(old(store).units@, n) || (unit matches Some(u) && n == u.id.0@)),
            old(self).load_ok(old(store).units@) ==> final(self).load_ok(final(store).units@),
            old(self).load_ok(old(store).units@) && unit is Some ==> !has_unit(old(store).units@, unit->0.id.0@),
            unit is None ==> final(self).pending@ == old(self).pending@ && final(self).loaded@ == old(self).loaded@
                && final(store).units@ == old(store).units@,
            unit is Some ==> ids_view(final(self).loaded@) == ids_view(old(self).loaded@).push(unit->0.id.0@)
                && ids_view(final(self).pending@) == ids_view(old(self).pending@) + ids_view(unit->0.info.requires_weak@)
                && has_unit(final(store).units@, unit->0.id.0@),
            loads_ok(ids_view(old(self).loaded@), old(store).units@)
                && (unit matches Some(u) ==> !has_unit(old(store).units@, u.id.0@))
                ==> loads_ok(ids_view(final(self).loaded@), final(store).units@),
    {
        self.current = None;
        match unit {
            None => {},
            Some(u) => {
                let ghost uid = u.id.0@;
                let ghost deps = ids_view(u.info.requires_weak@);
                let ghost p0 = ids_view(self.pending@);
                let mut k: usize = 0;
                while k < u.info.requires_weak.len()
                    invariant
                        k <= u.info.requires_weak@.len(),
                        self.loaded@ == old(self).loaded@,
                        self.current is None,
                        deps == ids_view(u.info.requires_weak@),
                        ids_view(self.pending@) == p0 + deps.take(k as int),
                    decreases u.info.requires_weak@.len() - k,
                {
                    let ghost pre = ids_view(self.pending@);
                    self.pending.push(u.info.requires_weak[k].copy());
                    assert(ids_view(self.pending@) =~= pre.push(deps[k as int]));
                    k += 1;
                    assert(ids_view(self.pending@) =~= p0 + deps.take(k as int));
                }
                assert(deps.take(deps.len() as int) =~= deps);
                let ghost l0 = ids_view(self.loaded@);
                self.loaded.push(u.id.copy());
                assert(ids_view(self.loaded@) =~= l0.push(uid));
                let ghost units0 = store.units@;
                store.insert(u);
                proof {
                    let lv = ids_view(self.loaded@);
                    if loads_ok(l0, units0) && !has_unit(units0, uid) {
                        assert forall|i: int| 0 <= i < lv.len() implies has_unit(store.units@, #[trigger] lv[i]) by {
                            if i < l0.len() {
                                assert(lv[i] == l0[i]);
                                assert(has_unit(units0, l0[i]));
                            }
                        }
                        assert forall|i: int, j: int| 0 <= i < j < lv.len() implies #[trigger] lv[i] != #[trigger] lv[j] by {
                            assert(lv[i] == l0[i]);
                            if j < l0.len() {
                                assert(lv[j] == l0[j]);
                            } else {
                                assert(has_unit(units0, l0[i]));
                            }
                        }
                    }
                }
                assert(ids_view(self.loaded@) == ids_view(old(self).loaded@).push(uid));
                assert(ids_view(self.pending@) == ids_view(old(self).pending@) + deps);
                assert(has_unit(store.units@, uid));
            },
        }
    }
}

/// A unit waiting to be started.
pub struct Job {
    pub unit: UnitId,
}

/// What a scheduler step did.
#[derive(Debug)]
pub enum StepOutcome {
    /// No unit waits.
    Idle,
    /// The next unit waits for a dependency that waits too; it went to the
    /// back of the queue.
    Deferred(UnitId),
    /// The next unit is to be run now.
    Run(UnitId),
}

/// The queue of units to start, in order.
pub struct Scheduler {
    pub pending: VecDeque<Job>,
}

/// The units waiting in a queue.
pub open spec fn jobs_view(jobs: Seq<Job>) -> Seq<Seq<char>> {
    Seq::new(jobs.len(), |i: int| jobs[i].unit.0@)
}

/// The unit's conditions hold on architecture `arch` and board `board`:
/// each list it gives names them.
pub open spec fn conditions_met(info: UnitInfo, arch: Seq<char>, board: Seq<char>) -> bool {
    &&& info.condition_architecture matches Some(l) ==> views(l@).contains(arch)
    &&& info.condition_board matches Some(l) ==> views(l@).contains(board)
}

fn list_contains(l: &Vec<Vec<char>>, x: &[char]) -> (r: bool)
    ensures
        r == views(l@).contains(x@),
{
    let mut i: usize = 0;
    while i < l.len()
        invariant
            i <= l@.len(),
            forall|k: int| 0 <= k < i ==> l@[k]@ != x@,
        decreases l.len() - i,
    {
        if chars_eq(l[i].as_slice(), x) {
            assert(views(l@)[i as int] == x@);
            return true;
        }
        i += 1;
    }
    false
}

impl Scheduler {
    /// An empty queue.
    pub fn new() -> (s: Scheduler)
        ensures
            s.pending@.len() == 0,
    {
        Scheduler { pending: VecDeque::new() }
    }

    /// Queues the units just loaded whose conditions hold on `arch` and
    /// `board`, in order.
    pub fn schedule_start(&mut self, store: &UnitStore, loaded_units: &Vec<UnitId>, arch: &[char], board: &[char])
        requires
            store.wf(),
            forall|i: int| 0 <= i < loaded_units@.len() ==> has_unit(store.units@, #[trigger] loaded_units@[i].0@),
        ensures
            jobs_view(final(self).pending@) == jobs_view(old(self).pending@) + ids_view(loaded_units@).filter(
                |n: Seq<char>| exists|k: int| 0 <= k < store.units@.len() && store.units@[k].id.0@ == n && conditions_met(store.units@[k].info, arch@, board@),
            ),
    {
        let ghost pred = |n: Seq<char>| exists|k: int| 0 <= k < store.units@.len() && store.units@[k].id.0@ == n && conditions_met(store.units@[k].info, arch@, board@);
        let ghost ids = ids_view(loaded_units@);
        let ghost p0 = jobs_view(self.pending@);
        let mut i: usize = 0;
        while i < loaded_units.len()
            invariant
                i <= loaded_units@.len(),
                store.wf(),
                ids == ids_view(loaded_units@),
                pred == (|n: Seq<char>| exists|k: int| 0 <= k < store.units@.len() && store.units@[k].id.0@ == n && conditions_met(store.units@[k].info, arch@, board@)),
                forall|k: int| 0 <= k < loaded_units@.len() ==> has_unit(store.units@, #[trigger] loaded_units@[k].0@),
                jobs_view(self.pending@) == p0 + ids.take(i as int).filter(pred),
            decreases loaded_units.len() - i,
        {
            proof {
                assert(ids.take(i + 1) =~= ids.take(i as int).push(ids[i as int]));
                ids.take(i as int).lemma_filter_push(ids[i as int], pred);
                assert(has_unit(store.units@, loaded_units@[i as int].0@));
            }
            let u = store.unit(&loaded_units[i]);
            let arch_ok = match &u.info.condition_architecture {
                Some(l) => list_contains(l, arch),
                None => true,
            };
            let board_ok = match &u.info.condition_board {
                Some(l) => list_contains(l, board),
                None => true,
            };
            proof {
                let k = choose|k: int| 0 <= k < store.units@.len() && store.units@[k] == *u;
                assert(store.units@[k].id.0@ == ids[i as int]);
                if pred(ids[i as int]) {
                    let k2 = choose|k2: int| 0 <= k2 < store.units@.len() && store.units@[k2].id.0@ == ids[i as int] && conditions_met(store.units@[k2].info, arch@, board@);
                    if k < k2 {
                        assert(store.units@[k].id.0@ != store.units@[k2].id.0@);
                    } else if k2 < k {
                        assert(store.units@[k2].id.0@ != store.units@[k].id.0@);
                    }
                }
            }
            if arch_ok && board_ok {
                let ghost pre = jobs_view(self.pending@);
                self.pending.push_back(Job { unit: loaded_units[i].copy() });
                assert(jobs_view(self.pending@) =~= pre.push(ids[i as int]));
            }
            i += 1;
        }
        assert(ids.take(loaded_units@.len() as int) =~= ids);
    }
}

/// Some job of the queue is for the unit `name`.
pub open spec fn queued(jobs: Seq<Job>, name: Seq<char>) -> bool {
    exists|i: int| 0 <= i < jobs.len() && jobs[i].unit.0@ == name
}

/// Some (weak) dependency of the unit `u` is still queued.
pub open spec fn waits(u: Unit, jobs: Seq<Job>) -> bool {
    exists|d: int| 0 <= d < u.info.requires_weak@.len() && queued(jobs, #[trigger] u.info.requires_weak@[d].0@)
}

fn is_queued(jobs: &VecDeque<Job>, name: &UnitId) -> (r: bool)
    ensures
        r == queued(jobs@, name.0@),
{
    let mut i: usize = 0;
    while i < jobs.len()
        invariant
            i <= jobs@.len(),
            forall|k: int| 0 <= k < i ==> jobs@[k].unit.0@ != name.0@,
        decreases jobs.len() - i,
    {
        if chars_eq(jobs[i].unit.0.as_slice(), name.0.as_slice()) {
            return true;
        }
        i += 1;
    }
    false
}

proof fn lemma_waits_at_head(store: UnitStore, jobs: Seq<Job>, k: int)
    requires
        store.wf(),
        jobs.len() > 0,
        0 <= k < store.units@.len(),
        store.units@[k].id.0@ == jobs[0].unit.0@,
    ensures
        waits(store.units@[k], jobs.skip(1)) == waits_at(store.units@, jobs_view(jobs), 0),
{
    let units = store.units@;
    let q = jobs_view(jobs);
    let n = jobs[0].unit.0@;
    assert(has_unit(units, n));
    let kc = choose|kk: int| 0 <= kk < units.len() && units[kk].id.0@ == n;
    assert(kc == k) by {
        if kc != k {
            if kc < k {
                assert(units[kc].id.0@ != units[k].id.0@);
            } else {
                assert(units[k].id.0@ != units[kc].id.0@);
            }
        }
    }
    let deps = ids_view(units[k].info.requires_weak@);
    assert(deps_of(units, q[0]) == deps);
    assert(q.remove(0) =~= jobs_view(jobs.skip(1)));
    assert forall|x: Seq<char>| queued(jobs.skip(1), x) == jobs_view(jobs.skip(1)).contains(x) by {
        if queued(jobs.skip(1), x) {
            let i = choose|i: int| 0 <= i < jobs.skip(1).len() && jobs.skip(1)[i].unit.0@ == x;
            assert(jobs_view(jobs.skip(1))[i] == x);
        }
        if jobs_view(jobs.skip(1)).contains(x) {
            let i = choose|i: int| 0 <= i < jobs_view(jobs.skip(1)).len() && jobs_view(jobs.skip(1))[i] == x;
            assert(jobs.skip(1)[i].unit.0@ == x);
        }
    }
    if waits(units[k], jobs.skip(1)) {
        let d = choose|d: int| 0 <= d < units[k].info.requires_weak@.len() && queued(jobs.skip(1), #[trigger] units[k].info.requires_weak@[d].0@);
        assert(deps[d] == units[k].info.requires_weak@[d].0@);
        assert(q.remove(0).contains(deps[d]));
    }
    if waits_at(units, q, 0) {
        let d = choose|d: int| 0 <= d < deps_of(units, q[0]).len() && #[trigger] q.remove(0).contains(deps_of(units, q[0])[d]);
        assert(deps[d] == units[k].info.requires_weak@[d].0@);
        assert(queued(jobs.skip(1), units[k].info.requires_weak@[d].0@));
    }
}

impl Scheduler {
    /// One step of the scheduler: takes the first queued unit; when one of
    /// its dependencies is still queued it goes to the back of the queue,
    /// otherwise it is to be run now.
    #[verifier::spinoff_prover]
    pub fn step(&mut self, store: &UnitStore) -> (r: StepOutcome)
        requires
            store.wf(),
            forall|i: int| 0 <= i < old(self).pending@.len() ==> has_unit(store.units@, #[trigger] old(self).pending@[i].unit.0@),
        ensures
            old(self).pending@.len() == 0 ==> r is Idle && final(self).pending@.len() == 0,
            old(self).pending@.len() > 0 ==> {
                let first = old(self).pending@[0].unit.0@;
                let rest = jobs_view(old(self).pending@).skip(1);
                &&& (forall|k: int| 0 <= k < store.units@.len() && store.units@[k].id.0@ == first ==> (waits(store.units@[k], old(self).pending@.skip(1)) <==> r is Deferred))
                &&& (waits_at(store.units@, jobs_view(old(self).pending@), 0) <==> r is Deferred)
                &&& r matches StepOutcome::Deferred(id) ==> id.0@ == first && jobs_view(final(self).pending@) == rest.push(first)
                &&& r matches StepOutcome::Run(id) ==> id.0@ == first && jobs_view(final(self).pending@) == rest
                &&& !(r is Idle)
            },
            forall|i: int| 0 <= i < final(self).pending@.len() ==> has_unit(store.units@, #[trigger] final(self).pending@[i].unit.0@),
    {
        let ghost start = self.pending@;
        match self.pending.pop_front() {
            None => StepOutcome::Idle,
            Some(job) => {
                assert(self.pending@ =~= start.skip(1));
                assert(jobs_view(self.pending@) =~= jobs_view(start).skip(1));
                assert(has_unit(store.units@, start[0].unit.0@));
                let u = store.unit(&job.unit);
                let mut d: usize = 0;
                let mut blocked = false;
                while d < u.info.requires_weak.len()
                    invariant
                        d <= u.info.requires_weak@.len(),
                        self.pending@ == start.skip(1),
                        blocked == exists|k: int| 0 <= k < d && queued(self.pending@, #[trigger] u.info.requires_weak@[k].0@),
                    decreases u.info.requires_weak@.len() - d,
                {
                    if is_queued(&self.pending, &u.info.requires_weak[d]) {
                        blocked = true;
                    }
                    d += 1;
                }
                proof {
                    assert forall|k: int| 0 <= k < store.units@.len() && store.units@[k].id.0@ == job.unit.0@ implies
                        (waits(store.units@[k], self.pending@) <==> blocked) by {
                        let j = choose|j: int| 0 <= j < store.units@.len() && store.units@[j] == *u;
                        if k < j {
                            assert(store.units@[k].id.0@ != store.units@[j].id.0@);
                        } else if j < k {
                            assert(store.units@[j].id.0@ != store.units@[k].id.0@);
                        }
                        assert(store.units@[k] == *u);
                    }
                    let j = choose|j: int| 0 <= j < store.units@.len() && store.units@[j] == *u;
                    lemma_waits_at_head(*store, start, j);
                }
                let id = job.unit.copy();
                if blocked {
                    let ghost pre = jobs_view(self.pending@);
                    self.pending.push_back(job);
                    assert(jobs_view(self.pending@) =~= pre.push(start[0].unit.0@));
                    StepOutcome::Deferred(id)
                } else {
                    StepOutcome::Run(id)
                }
            },
        }
    }
}

/// The log levels under which init says what it does.
pub open spec fn is_debug_level(l: Seq<char>) -> bool {
    l == "DEBUG"@ || l == "TRACE"@
}

/// The commands to skip, from the value of `INIT_SKIP`: the pieces between
/// commas, or none for an unset or empty value.
pub open spec fn skip_list(skip: Option<Seq<char>>) -> Seq<Seq<char>> {
    match skip {
        Some(s) => if s.len() > 0 { split(s, ',') } else { Seq::empty() },
        None => Seq::empty(),
    }
}

/// `base` with `rel` appended as a path: an absolute `rel` stands alone,
/// otherwise a `/` joins them unless `base` is empty or ends in one.
pub open spec fn path_join(base: Seq<char>, rel: Seq<char>) -> Seq<char> {
    if rel.len() > 0 && rel[0] == '/' {
        rel
    } else if base.len() == 0 || base.last() == '/' {
        base + rel
    } else {
        base + seq!['/'] + rel
    }
}

/// Joins the path `rel` to the path `base`.
pub fn join_chars(base: &[char], rel: &[char]) -> (r: Vec<char>)
    ensures
        r@ == path_join(base@, rel@),
{
    if rel.len() > 0 && rel[0] == '/' {
        return copy_chars(rel);
    }
    let mut r = copy_chars(base);
    if base.len() > 0 && base[base.len() - 1] != '/' {
        r.push('/');
    }
    let ghost head = r@;
    let mut i: usize = 0;
    while i < rel.len()
        invariant
            i <= rel@.len(),
            r@ == head + rel@.take(i as int),
        decreases rel.len() - i,
    {
        r.push(rel[i]);
        i += 1;
        assert(r@ =~= head + rel@.take(i as int));
    }
    assert(rel@.take(rel@.len() as int) =~= rel@);
    r
}

fn join_path(base: &[char], rel: &str) -> (r: Vec<char>)
    ensures
        r@ == path_join(base@, rel@),
{
    let rel = str_chars(rel);
    join_chars(base, rel.as_slice())
}

/// init's settings: whether to say what it runs, the commands not to run,
/// and the environment services start with.
pub struct InitConfig {
    pub log_debug: bool,
    pub skip_cmd: Vec<Vec<char>>,
    pub envs: Vec<(Vec<char>, Vec<char>)>,
}

impl InitConfig {
    /// The settings from the values of `INIT_LOG_LEVEL` and `INIT_SKIP`,
    /// where they are set; services get `RUST_BACKTRACE=1`.
    pub fn new(log_level: Option<&[char]>, skip: Option<&[char]>) -> (c: InitConfig)
        ensures
            c.log_debug == (match log_level {
                Some(l) => is_debug_level(l@),
                None => false,
            }),
            views(c.skip_cmd@) == skip_list(match skip {
                Some(s) => Some(s@),
                None => None,
            }),
            env_view(c.envs@) == seq![("RUST_BACKTRACE"@, "1"@)],
    {
        let log_debug = match log_level {
            Some(l) => chars_is(l, "DEBUG") || chars_is(l, "TRACE"),
            None => false,
        };
        let skip_cmd = match skip {
            Some(s) => if s.len() > 0 {
                let v = split_chars(s, ',');
                assert(views(v@) =~= split(s@, ','));
                v
            } else {
                let v: Vec<Vec<char>> = Vec::new();
                assert(views(v@) =~= Seq::<Seq<char>>::empty());
                v
            },
            None => {
                let v: Vec<Vec<char>> = Vec::new();
                assert(views(v@) =~= Seq::<Seq<char>>::empty());
                v
            },
        };
        let mut envs: Vec<(Vec<char>, Vec<char>)> = Vec::new();
        envs.push((str_chars("RUST_BACKTRACE"), str_chars("1")));
        assert(env_view(envs@) =~= seq![("RUST_BACKTRACE"@, "1"@)]);
        InitConfig { log_debug, skip_cmd, envs }
    }

    /// Whether the command `cmd` is to be skipped.
    pub fn skips(&self, cmd: &[char]) -> (r: bool)
        ensures
            r == views(self.skip_cmd@).contains(cmd@),
    {
        list_contains(&self.skip_cmd, cmd)
    }
}

/// Moves init to the root `prefix` with its configuration under `etcdir`:
/// services find programs in `prefix/bin` and libraries in `prefix/lib`,
/// and units are looked up in `prefix/lib/init.d`, then `etcdir/init.d`.
pub fn switch_root(store: &mut UnitStore, config: &mut InitConfig, prefix: &[char], etcdir: &[char])
    ensures
        env_view(final(config).envs@) == env_insert(
            env_insert(env_view(old(config).envs@), "PATH"@, path_join(prefix@, "bin"@)),
            "LD_LIBRARY_PATH"@,
            path_join(prefix@, "lib"@),
        ),
        final(config).log_debug == old(config).log_debug,
        final(config).skip_cmd@ == old(config).skip_cmd@,
        views(final(store).config_dirs@) == seq![
            path_join(path_join(prefix@, "lib"@), "init.d"@),
            path_join(etcdir@, "init.d"@),
        ],
        final(store).units@ == old(store).units@,
{
    let bin = join_path(prefix, "bin");
    let lib = join_path(prefix, "lib");
    insert_env(&mut config.envs, str_chars("PATH"), bin);
    let lib_dir = join_path(lib.as_slice(), "init.d");
    insert_env(&mut config.envs, str_chars("LD_LIBRARY_PATH"), lib);
    let etc_dir = join_path(etcdir, "init.d");
    let mut dirs: Vec<Vec<char>> = Vec::new();
    dirs.push(lib_dir);
    dirs.push(etc_dir);
    assert(views(dirs@) =~= seq![
        path_join(path_join(prefix@, "lib"@), "init.d"@),
        path_join(etcdir@, "init.d"@),
    ]);
    store.config_dirs = dirs;
}

/// What running one command of a script comes to.
#[derive(Debug)]
pub enum CommandAction {
    /// Nothing to do.
    Ignore,
    /// Print the text.
    Print(Vec<char>),
    /// The service's command is to be skipped.
    Skip,
    /// Start the service.
    Spawn,
}

/// What running the command `cmd` comes to under `config`.
pub fn command_action(cmd: &Command, config: &InitConfig) -> (a: CommandAction)
    ensures
        match cmd {
            Command::RequiresWeak(_) => a is Ignore,
            Command::Nothing => a is Ignore,
            Command::Echo(t) => a matches CommandAction::Print(p) && p@ == t@,
            Command::Service(s) => if views(config.skip_cmd@).contains(s.cmd@) { a is Skip } else { a is Spawn },
        },
{
    match cmd {
        Command::RequiresWeak(_) => CommandAction::Ignore,
        Command::Nothing => CommandAction::Ignore,
        Command::Echo(t) => CommandAction::Print(copy_chars(t.as_slice())),
        Command::Service(s) => if config.skips(s.cmd.as_slice()) {
            CommandAction::Skip
        } else {
            CommandAction::Spawn
        },
    }
}

/// What running a unit comes to.
#[derive(Debug)]
pub enum UnitAction {
    /// Run the commands of its script in order.
    RunScript,
    /// Its service's command is to be skipped.
    Skip,
    /// Start its service.
    Spawn,
    /// A target was reached; nothing runs.
    Reached,
}

/// What running `unit` comes to under `config`.
pub fn unit_action(unit: &Unit, config: &InitConfig) -> (a: UnitAction)
    ensures
        match unit.kind {
            UnitKind::LegacyScript { .. } => a is RunScript,
            UnitKind::Service { service } => if views(config.skip_cmd@).contains(service.cmd@) { a is Skip } else { a is Spawn },
            UnitKind::Target {} => a is Reached,
        },
{
    match &unit.kind {
        UnitKind::LegacyScript { .. } => UnitAction::RunScript,
        UnitKind::Service { service } => if config.skips(service.cmd.as_slice()) {
            UnitAction::Skip
        } else {
            UnitAction::Spawn
        },
        UnitKind::Target {} => UnitAction::Reached,
    }
}

/// The weak dependencies of the unit named `n` in `units` (none when there
/// is no such unit).
pub open spec fn deps_of(units: Seq<Unit>, n: Seq<char>) -> Seq<Seq<char>> {
    if has_unit(units, n) {
        let k = choose|k: int| 0 <= k < units.len() && units[k].id.0@ == n;
        ids_view(units[k].info.requires_weak@)
    } else {
        Seq::empty()
    }
}

/// The unit at position `i` of the queue `q` of unit names waits: one of
/// its weak dependencies is elsewhere in the queue.
pub open spec fn waits_at(units: Seq<Unit>, q: Seq<Seq<char>>, i: int) -> bool {
    exists|d: int| 0 <= d < deps_of(units, q[i]).len() && #[trigger] q.remove(i).contains(deps_of(units, q[i])[d])
}

/// The position of the first unit of `q`, from `i` on, that waits for
/// nothing (the queue's length when there is none).
pub open spec fn first_free(units: Seq<Unit>, q: Seq<Seq<char>>, i: int) -> int
    decreases q.len() - i,
{
    if i < 0 || i >= q.len() {
        q.len() as int
    } else if !waits_at(units, q, i) {
        i
    } else {
        first_free(units, q, i + 1)
    }
}

/// The queue ranks each queued weak dependency of a queued unit lower
/// than the unit: its units and their dependencies form no cycle.
pub open spec fn ranked(units: Seq<Unit>, q: Seq<Seq<char>>, rank: spec_fn(Seq<char>) -> int) -> bool {
    forall|i: int, d: int|
        0 <= i < q.len() && 0 <= d < deps_of(units, q[i]).len() && #[trigger] q.contains(#[trigger] deps_of(units, q[i])[d])
            ==> rank(deps_of(units, q[i])[d]) < rank(q[i])
}

/// How far a queue is from empty: its length squared, plus the position of
/// its first unit that waits for nothing.
pub open spec fn drain_measure(units: Seq<Unit>, q: Seq<Seq<char>>) -> int {
    q.len() * q.len() + first_free(units, q, 0)
}

proof fn lemma_first_free(units: Seq<Unit>, q: Seq<Seq<char>>, i: int, j: int)
    requires
        0 <= i <= j < q.len(),
        !waits_at(units, q, j),
    ensures
        i <= first_free(units, q, i) <= j,
        !waits_at(units, q, first_free(units, q, i)),
        forall|k: int| i <= k < first_free(units, q, i) ==> waits_at(units, q, k),
    decreases j - i,
{
    if waits_at(units, q, i) {
        lemma_first_free(units, q, i + 1, j);
    }
}

proof fn lemma_first_free_bound(units: Seq<Unit>, q: Seq<Seq<char>>, i: int)
    requires
        0 <= i,
    ensures
        first_free(units, q, i) <= q.len(),
    decreases q.len() - i,
{
    if i < q.len() && waits_at(units, q, i) {
        lemma_first_free_bound(units, q, i + 1);
    }
}

proof fn lemma_min_rank(q: Seq<Seq<char>>, rank: spec_fn(Seq<char>) -> int) -> (m: int)
    requires
        q.len() > 0,
    ensures
        0 <= m < q.len(),
        forall|j: int| 0 <= j < q.len() ==> rank(q[m]) <= rank(#[trigger] q[j]),
    decreases q.len(),
{
    if q.len() == 1 {
        0
    } else {
        let m0 = lemma_min_rank(q.drop_last(), rank);
        assert(forall|j: int| 0 <= j < q.len() - 1 ==> q.drop_last()[j] == q[j]);
        if rank(q.last()) < rank(q[m0]) {
            (q.len() - 1) as int
        } else {
            m0
        }
    }
}

/// Rotating the head of a queue to its back leaves every other unit with
/// the same other units around it.
proof fn lemma_rotate_same_others(q: Seq<Seq<char>>, j: int, x: Seq<char>)
    requires
        0 <= j < q.len() - 1,
    ensures
        q.skip(1).push(q[0]).remove(j).contains(x) == q.remove(j + 1).contains(x),
{
    let q2 = q.skip(1).push(q[0]);
    let a = q2.remove(j);
    let b = q.remove(j + 1);
    if a.contains(x) {
        let k = choose|k: int| 0 <= k < a.len() && a[k] == x;
        if k < j {
            assert(b[k + 1] == x);
        } else if k < q.len() - 2 {
            assert(a[k] == q2[k + 1]);
            assert(b[k + 1] == q[k + 2]);
        } else {
            assert(a[k] == q[0]);
            assert(b[0] == q[0]);
        }
    }
    if b.contains(x) {
        let k = choose|k: int| 0 <= k < b.len() && b[k] == x;
        if k == 0 {
            assert(a[a.len() - 1] == q[0]);
        } else if k <= j {
            assert(b[k] == q[k]);
            assert(a[k - 1] == q2[k - 1]);
        } else {
            assert(b[k] == q[k + 1]);
            assert(a[k - 1] == q2[k]);
        }
    }
}

/// A scheduler step on a queue whose units rank every queued weak
/// dependency lower (no dependency cycle) keeps that ranking and brings the
/// queue closer to empty: the first unit runs when it waits for nothing,
/// else it goes to the back, and `drain_measure` drops. So repeated steps
/// empty such a queue, each unit running once, only when no weak
/// dependency of it is still queued.
pub proof fn lemma_step_drains(units: Seq<Unit>, q: Seq<Seq<char>>, q2: Seq<Seq<char>>, rank: spec_fn(Seq<char>) -> int)
    requires
        q.len() > 0,
        ranked(units, q, rank),
        (waits_at(units, q, 0) && q2 == q.skip(1).push(q[0])) || (!waits_at(units, q, 0) && q2 == q.skip(1)),
    ensures
        ranked(units, q2, rank),
        drain_measure(units, q2) < drain_measure(units, q),
{
    let n = q.len();
    let m = lemma_min_rank(q, rank);
    assert(!waits_at(units, q, m)) by {
        if waits_at(units, q, m) {
            let d = choose|d: int| 0 <= d < deps_of(units, q[m]).len() && #[trigger] q.remove(m).contains(deps_of(units, q[m])[d]);
            let x = deps_of(units, q[m])[d];
            let k = choose|k: int| 0 <= k < q.remove(m).len() && q.remove(m)[k] == x;
            let kk = if k < m { k } else { k + 1 };
            assert(q[kk] == x);
            assert(q.contains(x));
            assert(rank(x) < rank(q[m]));
            assert(rank(q[m]) <= rank(q[kk]));
        }
    }
    lemma_first_free(units, q, 0, m);
    let f = first_free(units, q, 0);
    // Every unit of the new queue has the same units of the old one around it.
    assert forall|x: Seq<char>| #[trigger] q2.contains(x) ==> q.contains(x) by {
        if q2.contains(x) {
            let k = choose|k: int| 0 <= k < q2.len() && q2[k] == x;
            if k < n - 1 {
                assert(q[k + 1] == x);
            } else {
                assert(q[0] == x);
            }
        }
    }
    assert forall|i: int, d: int|
        0 <= i < q2.len() && 0 <= d < deps_of(units, q2[i]).len() && #[trigger] q2.contains(#[trigger] deps_of(units, q2[i])[d])
        implies rank(deps_of(units, q2[i])[d]) < rank(q2[i]) by {
        let oi = if i < n - 1 { i + 1 } else { 0 };
        assert(q2[i] == q[oi]);
        assert(q.contains(deps_of(units, q[oi])[d]));
    }
    if waits_at(units, q, 0) {
        assert(f >= 1);
        assert forall|j: int| 0 <= j < n - 1 implies #[trigger] waits_at(units, q2, j) == waits_at(units, q, j + 1) by {
            assert(q2[j] == q[j + 1]);
            if waits_at(units, q2, j) {
                let d = choose|d: int| 0 <= d < deps_of(units, q2[j]).len() && #[trigger] q2.remove(j).contains(deps_of(units, q2[j])[d]);
                lemma_rotate_same_others(q, j, deps_of(units, q2[j])[d]);
            }
            if waits_at(units, q, j + 1) {
                let d = choose|d: int| 0 <= d < deps_of(units, q[j + 1]).len() && #[trigger] q.remove(j + 1).contains(deps_of(units, q[j + 1])[d]);
                lemma_rotate_same_others(q, j, deps_of(units, q[j + 1])[d]);
            }
        }
        assert(!waits_at(units, q2, f - 1));
        lemma_first_free(units, q2, 0, f - 1);
        let f2 = first_free(units, q2, 0);
        assert(f2 == f - 1) by {
            if f2 < f - 1 {
                assert(!waits_at(units, q2, f2));
                assert(waits_at(units, q, f2 + 1));
            }
        }
    } else {
        lemma_first_free_bound(units, q2, 0);
        assert((n - 1) * (n - 1) + (n - 1) < n * n) by (nonlinear_arith)
            requires n >= 1;
    }
}

} // verus!
