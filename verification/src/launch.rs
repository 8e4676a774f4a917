//! Launch resolution: from a requested name and the aggregated entries to the
//! argument vector of the process to start.

use vstd::prelude::*;

use crate::apps::{aggregated, Ini, Installed, RunError};
use crate::decode::IniView;

verus! {

/// Whitespace for the purpose of splitting a command line into tokens.
pub open spec fn is_space(c: char) -> bool {
    c == ' ' || c == '\t' || c == '\n' || c == '\r' || c == '\u{b}' || c == '\u{c}'
}

/// Index of the first whitespace character, or `t.len()` if there is none.
pub open spec fn first_space(t: Seq<char>) -> int
    decreases t.len(),
{
    if t.len() == 0 {
        0
    } else if is_space(t[0]) {
        0
    } else {
        1 + first_space(t.drop_first())
    }
}

pub proof fn lemma_first_space(t: Seq<char>)
    ensures
        0 <= first_space(t) <= t.len(),
        forall|k: int| 0 <= k < first_space(t) ==> !is_space(t[k]),
        first_space(t) < t.len() ==> is_space(t[first_space(t)]),
    decreases t.len(),
{
    if t.len() > 0 && !is_space(t[0]) {
        lemma_first_space(t.drop_first());
        assert forall|k: int| 0 <= k < first_space(t) implies !is_space(t[k]) by {
            if k > 0 {
                assert(t.drop_first()[k - 1] == t[k]);
            }
        }
    }
}

pub proof fn lemma_first_space_is(t: Seq<char>, j: int)
    requires
        0 <= j <= t.len(),
        forall|k: int| 0 <= k < j ==> !is_space(t[k]),
        j < t.len() ==> is_space(t[j]),
    ensures
        first_space(t) == j,
    decreases t.len(),
{
    if t.len() > 0 && !is_space(t[0]) {
        assert forall|k: int| 0 <= k < j - 1 implies !is_space(t.drop_first()[k]) by {
            assert(t.drop_first()[k] == t[k + 1]);
        }
        lemma_first_space_is(t.drop_first(), j - 1);
    }
}

/// The whitespace-separated tokens of a command line, in order, with no
/// empty tokens.
pub open spec fn tokens_of(s: Seq<char>) -> Seq<Seq<char>>
    decreases s.len(),
{
    if s.len() == 0 {
        Seq::empty()
    } else if is_space(s[0]) {
        tokens_of(s.drop_first())
    } else {
        let j = first_space(s);
        if 1 <= j <= s.len() {
            seq![s.subrange(0, j)] + tokens_of(s.subrange(j, s.len() as int))
        } else {
            seq![s]
        }
    }
}

/// A reserved field-code placeholder: `%` and one of the fourteen code
/// letters, standing alone as a token. Unsupported, so stripped.
pub open spec fn is_placeholder(t: Seq<char>) -> bool {
    &&& t.len() == 2
    &&& t[0] == '%'
    &&& (t[1] == 'f' || t[1] == 'F' || t[1] == 'u' || t[1] == 'U' || t[1] == 'd' || t[1] == 'D'
        || t[1] == 'n' || t[1] == 'N' || t[1] == 'k' || t[1] == 'v' || t[1] == 'm' || t[1] == 'c'
        || t[1] == 'i' || t[1] == 's')
}

/// The tokens that survive placeholder stripping, in order.
pub open spec fn strip_placeholders(ts: Seq<Seq<char>>) -> Seq<Seq<char>>
    decreases ts.len(),
{
    if ts.len() == 0 {
        Seq::empty()
    } else {
        let rest = strip_placeholders(ts.drop_last());
        if is_placeholder(ts.last()) {
            rest
        } else {
            rest.push(ts.last())
        }
    }
}

/// The argument vector an entry's command line yields: its tokens, less every
/// placeholder.
pub open spec fn stripped_tokens(cmd: Seq<char>) -> Seq<Seq<char>> {
    strip_placeholders(tokens_of(cmd))
}

fn is_space_char(c: char) -> (r: bool)
    ensures
        r == is_space(c),
{
    c == ' ' || c == '\t' || c == '\n' || c == '\r' || c == '\u{b}' || c == '\u{c}'
}

/// Index of the first whitespace character at or after `from`.
fn find_space(s: &str, from: usize, n: usize) -> (r: usize)
    requires
        from <= n,
        n == s@.len(),
    ensures
        from <= r <= n,
        r - from == first_space(s@.subrange(from as int, n as int)),
{
    let mut i: usize = from;
    while i < n
        invariant
            from <= i <= n,
            n == s@.len(),
            forall|k: int| from <= k < i ==> !is_space(s@[k]),
        decreases n - i,
    {
        if is_space_char(s.get_char(i)) {
            proof {
                let rest = s@.subrange(from as int, n as int);
                assert forall|k: int| 0 <= k < i - from implies !is_space(rest[k]) by {
                    assert(rest[k] == s@[from + k]);
                }
                assert(rest[i - from] == s@[i as int]);
                lemma_first_space_is(rest, i - from);
            }
            return i;
        }
        i += 1;
    }
    proof {
        let rest = s@.subrange(from as int, n as int);
        assert forall|k: int| 0 <= k < n - from implies !is_space(rest[k]) by {
            assert(rest[k] == s@[from + k]);
        }
        lemma_first_space_is(rest, n - from);
    }
    n
}

/// Splits a command line into its whitespace-separated tokens.
fn tokenize(s: &str) -> (r: Vec<String>)
    ensures
        r.deep_view() == tokens_of(s@),
{
    let n = s.unicode_len();
    let mut r: Vec<String> = Vec::new();
    let mut pos: usize = 0;
    proof {
        assert(s@.subrange(0, n as int) =~= s@);
        assert(Seq::<Seq<char>>::empty() + tokens_of(s@) =~= tokens_of(s@));
    }
    while pos < n
        invariant
            pos <= n,
            n == s@.len(),
            tokens_of(s@) == r.deep_view() + tokens_of(s@.subrange(pos as int, n as int)),
        decreases n - pos,
    {
        let ghost rest = s@.subrange(pos as int, n as int);
        let c = s.get_char(pos);
        if is_space_char(c) {
            proof {
                assert(rest[0] == c);
                assert(rest.drop_first() =~= s@.subrange(pos as int + 1, n as int));
            }
            pos += 1;
        } else {
            let end = find_space(s, pos, n);
            let tok = s.substring_char(pos, end);
            let ghost r0 = r.deep_view();
            r.push(tok.to_owned());
            proof {
                assert(rest[0] == c);
                lemma_first_space(rest);
                assert(first_space(rest) == end - pos);
                assert(end > pos);
                assert(tok@ =~= rest.subrange(0, end - pos));
                assert(rest.subrange(end - pos, rest.len() as int) =~= s@.subrange(
                    end as int,
                    n as int,
                ));
                assert(tokens_of(rest) == seq![tok@] + tokens_of(
                    s@.subrange(end as int, n as int),
                ));
                assert(r.deep_view() =~= r0.push(tok@));
                assert(r0 + (seq![tok@] + tokens_of(s@.subrange(end as int, n as int)))
                    =~= r0.push(tok@) + tokens_of(s@.subrange(end as int, n as int)));
            }
            pos = end;
        }
    }
    proof {
        assert(s@.subrange(n as int, n as int) =~= Seq::<char>::empty());
        assert(tokens_of(s@) =~= r.deep_view());
    }
    r
}

fn is_placeholder_tok(t: &str) -> (r: bool)
    ensures
        r == is_placeholder(t@),
{
    if t.unicode_len() != 2 {
        return false;
    }
    let c0 = t.get_char(0);
    if c0 != '%' {
        return false;
    }
    let c1 = t.get_char(1);
    c1 == 'f' || c1 == 'F' || c1 == 'u' || c1 == 'U' || c1 == 'd' || c1 == 'D' || c1 == 'n' || c1
        == 'N' || c1 == 'k' || c1 == 'v' || c1 == 'm' || c1 == 'c' || c1 == 'i' || c1 == 's'
}

/// The tokens of a command line with every placeholder token removed; all
/// other tokens keep their order.
fn build_args(cmd: &str) -> (r: Vec<String>)
    ensures
        r.deep_view() == stripped_tokens(cmd@),
{
    let toks = tokenize(cmd);
    let ghost tv = toks.deep_view();
    let mut r: Vec<String> = Vec::new();
    let n = toks.len();
    let mut i: usize = 0;
    proof {
        assert(tv.take(0) =~= Seq::<Seq<char>>::empty());
        assert(tv.len() == n);
    }
    while i < n
        invariant
            i <= n,
            n == toks@.len(),
            tv == toks.deep_view(),
            tv.len() == n,
            r.deep_view() == strip_placeholders(tv.take(i as int)),
        decreases n - i,
    {
        proof {
            assert(tv.take(i as int + 1).drop_last() =~= tv.take(i as int));
            assert(tv.take(i as int + 1).last() == tv[i as int]);
            assert(tv[i as int] == toks@[i as int]@);
        }
        if !is_placeholder_tok(toks[i].as_str()) {
            let tok = toks[i].clone();
            r.push(tok);
            proof {
                assert(r.deep_view() =~= strip_placeholders(tv.take(i as int + 1)));
            }
        }
        i += 1;
    }
    proof {
        assert(tv.take(n as int) =~= tv);
    }
    r
}

/// What the folding of a string to lowercase yields; the folding itself is
/// the standard library's.
pub uninterp spec fn lower_of(s: Seq<char>) -> Seq<char>;

/// Relies on str::to_lowercase: the result is a function of the characters
/// alone.
#[verifier::external_body]
fn lowercase(s: &str) -> (r: String)
    ensures
        r@ == lower_of(s@),
{
    s.to_lowercase()
}

/// Two names are the same application name: equal once folded to lowercase.
pub open spec fn matches_query(entry_name: Seq<char>, wanted: Seq<char>) -> bool {
    lower_of(entry_name) == lower_of(wanted)
}

/// Case-insensitive name comparison, by folding both sides to lowercase.
fn name_matches(a: &str, b: &str) -> (r: bool)
    ensures
        r == matches_query(a@, b@),
{
    let la = lowercase(a);
    let lb = lowercase(b);
    la == lb
}

/// Index of the first aggregated entry whose name matches the requested one,
/// or the aggregate's length if none does.
pub open spec fn first_hit(apps: Seq<IniView>, wanted: Seq<char>) -> int
    decreases apps.len(),
{
    if apps.len() == 0 {
        0
    } else if matches_query(apps[0].name, wanted) {
        0
    } else {
        1 + first_hit(apps.drop_first(), wanted)
    }
}

pub proof fn lemma_first_hit_is(apps: Seq<IniView>, wanted: Seq<char>, j: int)
    requires
        0 <= j <= apps.len(),
        forall|k: int| 0 <= k < j ==> !matches_query(apps[k].name, wanted),
        j < apps.len() ==> matches_query(apps[j].name, wanted),
    ensures
        first_hit(apps, wanted) == j,
    decreases apps.len(),
{
    if apps.len() > 0 && !matches_query(apps[0].name, wanted) {
        assert forall|k: int| 0 <= k < j - 1 implies !matches_query(
            apps.drop_first()[k].name,
            wanted,
        ) by {
            assert(apps.drop_first()[k] == apps[k + 1]);
        }
        lemma_first_hit_is(apps.drop_first(), wanted, j - 1);
    }
}

/// A resolved launch: the argument vector to execute, the program first, and
/// whether the child's output is shown (and then awaited).
#[derive(Debug)]
pub struct LaunchCommand {
    pub argv: Vec<String>,
    pub show_output: bool,
}

/// A launch request: the requested application name and the configured
/// terminal-emulator program, if any.
#[verifier::ext_equal]
pub ghost struct SpawnView {
    pub name: Seq<char>,
    pub terminal: Option<Seq<char>>,
}

pub struct Spawn {
    name: String,
    terminal: Option<String>,
}

impl View for Spawn {
    type V = SpawnView;

    closed spec fn view(&self) -> SpawnView {
        SpawnView { name: self.name@, terminal: self.terminal.deep_view() }
    }
}

/// The full argument vector for an entry: a terminal-requiring entry runs
/// under `terminal -e`, every other entry runs as its stripped tokens alone.
pub open spec fn plan_argv(app: IniView, terminal: Option<Seq<char>>) -> Seq<Seq<char>> {
    if app.terminal {
        seq![terminal->0, "-e"@] + stripped_tokens(app.command)
    } else {
        stripped_tokens(app.command)
    }
}

/// Exactly what resolving one entry yields: the command, or the error owed.
pub open spec fn launch_outcome(
    r: Result<LaunchCommand, RunError>,
    app: IniView,
    me: SpawnView,
    show: bool,
) -> bool {
    if app.terminal && me.terminal is None {
        r matches Err(e) && e matches RunError::NoTerminal(nm) && nm@ == app.name
    } else {
        let argv = plan_argv(app, me.terminal);
        if argv.len() == 0 {
            r matches Err(e) && e is Exec
        } else {
            r matches Ok(cmd) && cmd.argv.deep_view() == argv && cmd.show_output == show
        }
    }
}

impl Spawn {
    pub fn new(name: String, terminal: Option<String>) -> (r: Self)
        ensures
            r@.name == name@,
            r@.terminal == terminal.deep_view(),
    {
        Spawn { name, terminal }
    }

    /// Builds the command that launches one resolved entry: tokenizes its
    /// command line, strips the reserved placeholders, and prepends the
    /// configured terminal program and `-e` where the entry wants a terminal.
    /// An entry that wants a terminal while none is configured is refused,
    /// and so is a command line with no program left.
    pub fn sys_exec(&self, app: Ini, stdout: bool) -> (r: Result<LaunchCommand, RunError>)
        ensures
            launch_outcome(r, app@, self@, stdout),
    {
        let mut args = build_args(app.command.as_str());
        if app.terminal {
            match &self.terminal {
                Some(term) => {
                    let ghost base = args.deep_view();
                    let mut argv2: Vec<String> = Vec::new();
                    argv2.push(term.clone());
                    argv2.push("-e".to_owned());
                    argv2.append(&mut args);
                    proof {
                        assert(argv2.deep_view() =~= seq![term@, "-e"@] + base);
                    }
                    args = argv2;
                },
                None => {
                    return Err(RunError::NoTerminal(app.name));
                },
            }
        }
        if args.len() == 0 {
            proof {
                assert(args.deep_view().len() == 0);
            }
            return Err(RunError::Exec("the command line holds no program to execute".to_owned()));
        }
        proof {
            assert(args.deep_view().len() > 0);
        }
        Ok(LaunchCommand { argv: args, show_output: stdout })
    }

    /// Resolves the request against every installed entry: the first entry,
    /// in source priority order, whose name matches case-insensitively is
    /// launched; a request no entry matches is refused by name, and a source
    /// that could not be enumerated fails the whole resolution.
    pub fn run(&self, installed: &Installed, stdout: bool) -> (r: Result<LaunchCommand, RunError>)
        ensures
            installed.user_texts is None ==> r == Err::<LaunchCommand, RunError>(RunError::User),
            installed.user_texts is Some && installed.system_texts is None ==> r == Err::<
                LaunchCommand,
                RunError,
            >(RunError::System),
            installed.user_texts is Some && installed.system_texts is Some
                && installed.flatpak_texts is None ==> r == Err::<LaunchCommand, RunError>(
                RunError::Flatpak,
            ),
            (installed.user_texts is Some && installed.system_texts is Some
                && installed.flatpak_texts is Some) ==> {
                let apps = aggregated(*installed);
                let h = first_hit(apps, self@.name);
                &&& h < apps.len() ==> launch_outcome(r, apps[h], self@, stdout)
                &&& h == apps.len() ==> (r matches Err(e) && e matches RunError::NotFound(nm)
                    && nm@ == self@.name)
            },
    {
        let mut all_apps = match installed.all() {
            Ok(v) => v,
            Err(e) => {
                return Err(e);
            },
        };
        let ghost apps = aggregated(*installed);
        let n = all_apps.len();
        let mut i: usize = 0;
        proof {
            assert(all_apps.deep_view().len() == n);
        }
        while i < n
            invariant
                i <= n,
                n == all_apps@.len(),
                installed.user_texts is Some && installed.system_texts is Some
                    && installed.flatpak_texts is Some,
                apps == aggregated(*installed),
                all_apps.deep_view() == apps,
                apps.len() == n,
                forall|k: int| 0 <= k < i ==> !matches_query(apps[k].name, self@.name),
            decreases n - i,
        {
            proof {
                assert(apps[i as int] == all_apps@[i as int]@);
            }
            if name_matches(all_apps[i].name.as_str(), self.name.as_str()) {
                let app = all_apps.remove(i);
                proof {
                    lemma_first_hit_is(apps, self@.name, i as int);
                }
                return self.sys_exec(app, stdout);
            }
            i += 1;
        }
        proof {
            lemma_first_hit_is(apps, self@.name, n as int);
        }
        Err(RunError::NotFound(self.name.clone()))
    }
}

} // verus!
