//! The argument interpreter: flag and command registration, resolution of
//! the invoked command, the single-pass token scan that classifies the
//! remaining tokens into flags and positionals, and dispatch to the matched
//! command's handler. The scan is specified by the recursive model
//! [`scan`], and the executable parser is proved to agree with it.

use vstd::prelude::*;

use crate::strutil::contains_seq;
use crate::strutil::str_contains;
use crate::strutil::str_starts_with;

verus! {

// ---------------------------------------------------------------------------
// Flags
// ---------------------------------------------------------------------------

/// Whether a flag consumes the following token as its value or merely
/// records its own presence.
#[derive(PartialEq, Eq, Structural, Clone, Copy, Debug)]
pub enum FlagKind {
    InputFlag,
    OptFlag,
}

/// One recognized flag of a command: its canonical identifier (the long
/// name, and the key under which a match is recorded), an optional
/// single-dash short form, and its kind.
#[derive(Debug)]
pub struct Flag {
    ident: String,
    alias: Option<String>,
    description: String,
    kind: FlagKind,
}

/// The mathematical value of a [`Flag`].
pub struct FlagView {
    pub ident: Seq<char>,
    pub alias: Option<Seq<char>>,
    pub description: Seq<char>,
    pub kind: FlagKind,
}

impl View for Flag {
    type V = FlagView;

    closed spec fn view(&self) -> FlagView {
        FlagView {
            ident: self.ident@,
            alias: self.alias.deep_view(),
            description: self.description@,
            kind: self.kind,
        }
    }
}

impl Flag {
    pub fn new(ident: &str, alias: Option<&str>, kind: FlagKind) -> (r: Flag)
        ensures
            r@ == (FlagView {
                ident: ident@,
                alias: alias.deep_view(),
                description: Seq::<char>::empty(),
                kind: kind,
            }),
    {
        let r = Flag {
            ident: ident.to_owned(),
            alias: match alias {
                Some(a) => Some(a.to_owned()),
                None => None,
            },
            description: String::new(),
            kind,
        };
        proof {
            assert(r@.description =~= Seq::<char>::empty());
        }
        r
    }

    /// Attaches the help description, leaving everything else alone.
    pub fn description(self, desc: &str) -> (r: Flag)
        ensures
            r@ == (FlagView { description: desc@, ..self@ }),
    {
        let mut this = self;
        this.description = desc.to_owned();
        this
    }
}

// ---------------------------------------------------------------------------
// Parse results: resolved flags and the Context
// ---------------------------------------------------------------------------

/// A resolved flag occurrence: either the value handed to a value-taking
/// flag, or the bare presence of a switch-style flag.
#[derive(Debug)]
pub enum FlagRes {
    Input(String),
    Opt,
}

/// The mathematical value of a [`FlagRes`].
pub enum FlagResView {
    Input(Seq<char>),
    Opt,
}

impl View for FlagRes {
    type V = FlagResView;

    closed spec fn view(&self) -> FlagResView {
        match self {
            FlagRes::Input(v) => FlagResView::Input(v@),
            FlagRes::Opt => FlagResView::Opt,
        }
    }
}

impl FlagRes {
    /// The value carried by a value-taking flag occurrence.
    pub fn val(&self) -> (r: String)
        requires
            self@ is Input,
        ensures
            self@ == FlagResView::Input(r@),
    {
        match self {
            FlagRes::Input(value) => value.clone(),
            FlagRes::Opt => unreached(),
        }
    }
}

/// The mapping that a sequence of `(identifier, result)` entries denotes:
/// later entries shadow earlier ones with the same identifier.
pub open spec fn entries_map(s: Seq<(String, FlagRes)>) -> Map<Seq<char>, FlagResView>
    decreases s.len(),
{
    if s.len() == 0 {
        Map::empty()
    } else {
        entries_map(s.drop_last()).insert(s.last().0@, s.last().1@)
    }
}

/// The parse result of one invocation: the positional arguments in encounter
/// order, and the resolved flags keyed by their canonical identifier.
#[derive(Debug)]
pub struct Context {
    pub arg: Vec<String>,
    flagmap: Vec<(String, FlagRes)>,
}

/// The mathematical value of a [`Context`].
pub struct ContextView {
    pub arg: Seq<Seq<char>>,
    pub flagmap: Map<Seq<char>, FlagResView>,
}

impl View for Context {
    type V = ContextView;

    closed spec fn view(&self) -> ContextView {
        ContextView { arg: self.arg.deep_view(), flagmap: entries_map(self.flagmap@) }
    }
}

/// The context every invocation starts from: nothing seen yet.
pub open spec fn ctx_empty() -> ContextView {
    ContextView { arg: Seq::empty(), flagmap: Map::empty() }
}

/// `ctx` with one more resolved flag recorded.
pub open spec fn ctx_set(ctx: ContextView, k: Seq<char>, v: FlagResView) -> ContextView {
    ContextView { arg: ctx.arg, flagmap: ctx.flagmap.insert(k, v) }
}

/// `ctx` with one more positional argument appended.
pub open spec fn ctx_push(ctx: ContextView, a: Seq<char>) -> ContextView {
    ContextView { arg: ctx.arg.push(a), flagmap: ctx.flagmap }
}

/// Entries at positions `i..` of `s` whose key differs from `k` do not
/// affect what the denoted mapping says about `k`.
proof fn lemma_entries_map_skip(s: Seq<(String, FlagRes)>, i: int, k: Seq<char>)
    requires
        0 <= i <= s.len(),
        forall|j: int| i <= j < s.len() ==> #[trigger] s[j].0@ != k,
    ensures
        entries_map(s).contains_key(k) == entries_map(s.take(i)).contains_key(k),
        entries_map(s).contains_key(k) ==> entries_map(s)[k] == entries_map(s.take(i))[k],
    decreases s.len() - i,
{
    if i == s.len() {
        assert(s.take(i) =~= s);
    } else {
        let s2 = s.drop_last();
        assert(s.last().0@ != k);
        assert(forall|j: int| i <= j < s2.len() ==> #[trigger] s2[j].0@ != k);
        lemma_entries_map_skip(s2, i, k);
        assert(s2.take(i) =~= s.take(i));
    }
}

/// When the entry at position `j` is the last one with key `k`, the denoted
/// mapping sends `k` to that entry's value.
proof fn lemma_entries_map_found(s: Seq<(String, FlagRes)>, j: int, k: Seq<char>)
    requires
        0 <= j < s.len(),
        s[j].0@ == k,
        forall|j2: int| j < j2 < s.len() ==> #[trigger] s[j2].0@ != k,
    ensures
        entries_map(s).contains_key(k),
        entries_map(s)[k] == s[j].1@,
{
    lemma_entries_map_skip(s, j + 1, k);
    let t = s.take(j + 1);
    assert(t.last() == s[j]);
    assert(entries_map(t) == entries_map(t.drop_last()).insert(k, s[j].1@));
}

impl Context {
    pub fn new() -> (r: Context)
        ensures
            r@ == ctx_empty(),
    {
        let r = Context { arg: Vec::new(), flagmap: Vec::new() };
        proof {
            assert(r@.arg =~= ctx_empty().arg);
            assert(r@.flagmap =~= ctx_empty().flagmap);
            assert(r@ == ctx_empty());
        }
        r
    }

    /// True exactly when a flag with this identifier was seen, of either kind.
    pub fn is_set(&self, ident: &str) -> (r: bool)
        ensures
            r == self@.flagmap.contains_key(ident@),
    {
        let key: String = ident.to_owned();
        let mut i: usize = self.flagmap.len();
        while i > 0
            invariant
                i <= self.flagmap@.len(),
                key@ == ident@,
                forall|j: int| i <= j < self.flagmap@.len()
                    ==> #[trigger] self.flagmap@[j].0@ != ident@,
            decreases i,
        {
            i = i - 1;
            if self.flagmap[i].0 == key {
                proof {
                    lemma_entries_map_found(self.flagmap@, i as int, ident@);
                }
                return true;
            }
        }
        proof {
            lemma_entries_map_skip(self.flagmap@, 0, ident@);
            assert(self.flagmap@.take(0) =~= Seq::<(String, FlagRes)>::empty());
        }
        false
    }

    /// The value recorded for a value-taking flag; nothing for a switch-style
    /// flag or for an identifier that was not seen.
    pub fn get(&self, ident: &str) -> (r: Option<String>)
        ensures
            (r is Some) == (self@.flagmap.contains_key(ident@)
                && self@.flagmap[ident@] is Input),
            r is Some ==> FlagResView::Input(r->0@) == self@.flagmap[ident@],
    {
        let key: String = ident.to_owned();
        let mut i: usize = self.flagmap.len();
        while i > 0
            invariant
                i <= self.flagmap@.len(),
                key@ == ident@,
                forall|j: int| i <= j < self.flagmap@.len()
                    ==> #[trigger] self.flagmap@[j].0@ != ident@,
            decreases i,
        {
            i = i - 1;
            if self.flagmap[i].0 == key {
                proof {
                    lemma_entries_map_found(self.flagmap@, i as int, ident@);
                }
                match &self.flagmap[i].1 {
                    FlagRes::Input(content) => {
                        return Some(content.clone());
                    },
                    FlagRes::Opt => {
                        return None;
                    },
                }
            }
        }
        proof {
            lemma_entries_map_skip(self.flagmap@, 0, ident@);
            assert(self.flagmap@.take(0) =~= Seq::<(String, FlagRes)>::empty());
        }
        None
    }

    /// Records one resolved flag, shadowing any earlier record for the same
    /// identifier.
    fn set_flag(&mut self, ident: &String, res: FlagRes)
        ensures
            final(self)@ == ctx_set(old(self)@, ident@, res@),
    {
        let ghost oldmap = self.flagmap@;
        let ghost resv = res@;
        self.flagmap.push((ident.clone(), res));
        proof {
            assert(self.flagmap@.drop_last() =~= oldmap);
            assert(entries_map(self.flagmap@) == entries_map(oldmap).insert(ident@, resv));
            assert(final(self)@ == ctx_set(old(self)@, ident@, resv));
        }
    }

    /// Appends one positional argument.
    fn push_arg(&mut self, a: String)
        ensures
            final(self)@ == ctx_push(old(self)@, a@),
    {
        let ghost av = a@;
        self.arg.push(a);
        proof {
            assert(self.arg.deep_view() =~= old(self).arg.deep_view().push(av));
        }
    }
}

// ---------------------------------------------------------------------------
// Commands and handlers
// ---------------------------------------------------------------------------

/// What runs once a command is matched and its tokens are parsed. The
/// interpreter promises nothing about the handler itself: it is the boundary
/// to the surrounding program, which registers one implementation per
/// command and does its I/O there.
pub trait Handler: Sized {
    /// The application state handed to the handler by ownership transfer.
    type State;

    fn invoke(self, state: Self::State, ctx: Context);
}

/// One registered subcommand: its identifier, an optional second name it is
/// also matched by, its recognized flags in declaration order, optional help
/// text, and the handler dispatched to.
pub struct Command<H> {
    ident: String,
    alias: Option<String>,
    description: String,
    help_text: Option<String>,
    directive: H,
    flags: Vec<Flag>,
}

/// The mathematical value of a [`Command`] (the handler has none).
pub struct CommandView {
    pub ident: Seq<char>,
    pub alias: Option<Seq<char>>,
    pub description: Seq<char>,
    pub help_text: Option<Seq<char>>,
    pub flags: Seq<FlagView>,
}

impl<H> View for Command<H> {
    type V = CommandView;

    closed spec fn view(&self) -> CommandView {
        CommandView {
            ident: self.ident@,
            alias: self.alias.deep_view(),
            description: self.description@,
            help_text: self.help_text.deep_view(),
            flags: self.flags@.map_values(|f: Flag| f@),
        }
    }
}

impl<H> Command<H> {
    pub fn new(ident: &str, alias: Option<&str>, desc: &str, directive: H) -> (r: Command<H>)
        ensures
            r@ == (CommandView {
                ident: ident@,
                alias: alias.deep_view(),
                description: desc@,
                help_text: None,
                flags: Seq::<FlagView>::empty(),
            }),
    {
        let r = Command {
            ident: ident.to_owned(),
            alias: match alias {
                Some(a) => Some(a.to_owned()),
                None => None,
            },
            description: desc.to_owned(),
            help_text: None,
            directive,
            flags: Vec::new(),
        };
        proof {
            assert(r@.flags =~= Seq::<FlagView>::empty());
        }
        r
    }

    /// Appends one recognized flag; declaration order decides which flag a
    /// token matches first.
    pub fn flag(self, f: Flag) -> (r: Command<H>)
        ensures
            r@ == (CommandView { flags: self@.flags.push(f@), ..self@ }),
    {
        let mut this = self;
        this.flags.push(f);
        proof {
            assert(this@.flags =~= self@.flags.push(f@));
        }
        this
    }

    /// Attaches the static help text shown for this command.
    pub fn set_help(self, help: &str) -> (r: Command<H>)
        ensures
            r@ == (CommandView { help_text: Some(help@), ..self@ }),
    {
        let mut this = self;
        this.help_text = Some(help.to_owned());
        this
    }
}

// ---------------------------------------------------------------------------
// Errors
// ---------------------------------------------------------------------------

/// Everything that makes an invocation fail before its handler runs.
#[derive(Debug)]
pub enum RunError {
    /// The argument list was empty and no default command exists.
    CommandNotSpecified,
    /// The first token named no registered command and no default exists.
    NoCommandFound(String),
    /// A value-taking flag stood last or right before another flag token.
    NoArgumentForFlag(String),
    /// A value-taking flag's identifier was resolved a second time.
    DuplicateFlag(String),
    /// A single-dash token matched a value-taking flag without being exactly
    /// its short form.
    InputFlagAlongsideOptFlag,
}

/// The mathematical value of a [`RunError`].
pub enum RunErrorView {
    CommandNotSpecified,
    NoCommandFound(Seq<char>),
    NoArgumentForFlag(Seq<char>),
    DuplicateFlag(Seq<char>),
    InputFlagAlongsideOptFlag,
}

impl View for RunError {
    type V = RunErrorView;

    closed spec fn view(&self) -> RunErrorView {
        match self {
            RunError::CommandNotSpecified => RunErrorView::CommandNotSpecified,
            RunError::NoCommandFound(t) => RunErrorView::NoCommandFound(t@),
            RunError::NoArgumentForFlag(t) => RunErrorView::NoArgumentForFlag(t@),
            RunError::DuplicateFlag(t) => RunErrorView::DuplicateFlag(t@),
            RunError::InputFlagAlongsideOptFlag => RunErrorView::InputFlagAlongsideOptFlag,
        }
    }
}

impl RunError {
    /// The wording printed on the error stream for this failure.
    pub fn message(&self) -> (r: String)
        ensures
            self@ is CommandNotSpecified ==> r@ == "command not specified; try using --help"@,
            self@ is NoCommandFound ==> r@ == "no command "@ + self@->NoCommandFound_0
                + " found"@,
            self@ is NoArgumentForFlag ==> r@ == "No argument for flag "@
                + self@->NoArgumentForFlag_0 + " found"@,
            self@ is DuplicateFlag ==> r@ == "error: the flag -"@ + self@->DuplicateFlag_0
                + " has already been specified before"@,
            self@ is InputFlagAlongsideOptFlag ==> r@
                == "You can't put an input flag alongside an option flag"@,
    {
        match self {
            RunError::CommandNotSpecified => "command not specified; try using --help".to_owned(),
            RunError::NoCommandFound(t) => {
                let mut out = "no command ".to_owned();
                out.append(t.as_str());
                out.append(" found");
                out
            },
            RunError::NoArgumentForFlag(t) => {
                let mut out = "No argument for flag ".to_owned();
                out.append(t.as_str());
                out.append(" found");
                out
            },
            RunError::DuplicateFlag(t) => {
                let mut out = "error: the flag -".to_owned();
                out.append(t.as_str());
                out.append(" has already been specified before");
                out
            },
            RunError::InputFlagAlongsideOptFlag => {
                "You can't put an input flag alongside an option flag".to_owned()
            },
        }
    }
}

// ---------------------------------------------------------------------------
// The token-scanning model
// ---------------------------------------------------------------------------

/// The token begins with a dash: it refers to a flag rather than being a
/// positional argument.
pub open spec fn starts_dash(s: Seq<char>) -> bool {
    s.len() >= 1 && s[0] == '-'
}

/// The token begins with two dashes: it refers to a flag by its long name.
pub open spec fn starts_dash_dash(s: Seq<char>) -> bool {
    s.len() >= 2 && s[0] == '-' && s[1] == '-'
}

/// The first flag at position `j` or later whose long name occurs inside the
/// token; long-name matching is by substring containment, not equality.
pub open spec fn first_long_match(flags: Seq<FlagView>, token: Seq<char>, j: int) -> Option<int>
    decreases flags.len() - j,
{
    if j < 0 || j >= flags.len() {
        None
    } else if contains_seq(token, flags[j].ident) {
        Some(j)
    } else {
        first_long_match(flags, token, j + 1)
    }
}

/// One single-dash token scanned against the flags from position `j` on,
/// with `next` the token after it, if any. Every flag whose short form
/// occurs inside the token fires: a switch-style flag records its presence
/// and scanning goes on; a value-taking flag must be named exactly as
/// `-<short form>`, consumes `next` as its value, and stops the scan (the
/// second component says whether that happened).
pub open spec fn scan_abbrev(
    flags: Seq<FlagView>,
    token: Seq<char>,
    next: Option<Seq<char>>,
    j: int,
    ctx: ContextView,
) -> Result<(ContextView, bool), RunErrorView>
    decreases flags.len() - j,
{
    if j < 0 || j >= flags.len() {
        Ok((ctx, false))
    } else {
        let f = flags[j];
        if f.alias is Some && contains_seq(token, f.alias->0) {
            if f.kind is InputFlag {
                if token == seq!['-'] + f.alias->0 {
                    if next is None || starts_dash(next->0) {
                        Err(RunErrorView::NoArgumentForFlag(token))
                    } else if ctx.flagmap.contains_key(f.ident) {
                        Err(RunErrorView::DuplicateFlag(f.alias->0))
                    } else {
                        Ok((ctx_set(ctx, f.ident, FlagResView::Input(next->0)), true))
                    }
                } else {
                    Err(RunErrorView::InputFlagAlongsideOptFlag)
                }
            } else {
                scan_abbrev(flags, token, next, j + 1, ctx_set(ctx, f.ident, FlagResView::Opt))
            }
        } else {
            scan_abbrev(flags, token, next, j + 1, ctx)
        }
    }
}

/// One `--` token handled against the flags: the first flag whose long name
/// the token contains fires; a value-taking flag consumes `next` (the second
/// component says so), a switch-style flag records its presence, and a token
/// containing no long name changes nothing.
pub open spec fn long_step(
    flags: Seq<FlagView>,
    token: Seq<char>,
    next: Option<Seq<char>>,
    ctx: ContextView,
) -> Result<(ContextView, bool), RunErrorView> {
    match first_long_match(flags, token, 0) {
        None => Ok((ctx, false)),
        Some(j) => {
            let f = flags[j];
            if f.kind is InputFlag {
                if next is None || starts_dash(next->0) {
                    Err(RunErrorView::NoArgumentForFlag(token))
                } else if ctx.flagmap.contains_key(f.ident) {
                    Err(RunErrorView::DuplicateFlag(f.ident))
                } else {
                    Ok((ctx_set(ctx, f.ident, FlagResView::Input(next->0)), true))
                }
            } else {
                Ok((ctx_set(ctx, f.ident, FlagResView::Opt), false))
            }
        },
    }
}

/// The whole scan from token position `i` on: positional tokens are
/// collected in order, `--` tokens resolve the first flag whose long name
/// they contain, single-dash tokens fire every flag whose short form they
/// contain, and a value-taking flag consumes the following token, which must
/// exist and must not itself begin with a dash. A dash token that matches no
/// flag is skipped. Resolving a value-taking flag's identifier twice fails.
pub open spec fn scan(
    flags: Seq<FlagView>,
    arg: Seq<Seq<char>>,
    i: int,
    ctx: ContextView,
) -> Result<ContextView, RunErrorView>
    decreases arg.len() - i,
{
    if i < 0 || i >= arg.len() {
        Ok(ctx)
    } else {
        let token = arg[i];
        let next: Option<Seq<char>> = if i + 1 < arg.len() {
            Some(arg[i + 1])
        } else {
            None
        };
        if starts_dash_dash(token) {
            match long_step(flags, token, next, ctx) {
                Err(e) => Err(e),
                Ok((c2, consumed)) => if consumed && i + 2 <= arg.len() {
                    scan(flags, arg, i + 2, c2)
                } else if consumed {
                    Ok(c2)
                } else {
                    scan(flags, arg, i + 1, c2)
                },
            }
        } else if starts_dash(token) {
            match scan_abbrev(flags, token, next, 0, ctx) {
                Err(e) => Err(e),
                Ok((c2, consumed)) => if consumed && i + 2 <= arg.len() {
                    scan(flags, arg, i + 2, c2)
                } else if consumed {
                    Ok(c2)
                } else {
                    scan(flags, arg, i + 1, c2)
                },
            }
        } else {
            scan(flags, arg, i + 1, ctx_push(ctx, token))
        }
    }
}

/// The token names this command: it equals the identifier or the second name.
pub open spec fn cmd_matches(c: CommandView, token: Seq<char>) -> bool {
    token == c.ident || (c.alias is Some && token == c.alias->0)
}

/// The first command at position `j` or later whose identifier or second
/// name equals the token; registration order decides collisions.
pub open spec fn resolve_from(cmds: Seq<CommandView>, token: Seq<char>, j: int) -> Option<int>
    decreases cmds.len() - j,
{
    if j < 0 || j >= cmds.len() {
        None
    } else if cmd_matches(cmds[j], token) {
        Some(j)
    } else {
        resolve_from(cmds, token, j + 1)
    }
}

// ---------------------------------------------------------------------------
// The application: registration, resolution, parsing, dispatch
// ---------------------------------------------------------------------------

/// The registered commands plus the shared application state. At most one
/// command may be nominated as the default that an unmatched or absent first
/// token falls through to.
pub struct App<H: Handler> {
    cmds: Vec<Command<H>>,
    default_idx: Option<usize>,
    pub inner: H::State,
}

/// The mathematical value of an [`App`] (the state has none).
pub struct AppView {
    pub cmds: Seq<CommandView>,
    pub default_idx: Option<int>,
}

impl<H: Handler> View for App<H> {
    type V = AppView;

    closed spec fn view(&self) -> AppView {
        AppView {
            cmds: self.cmds@.map_values(|c: Command<H>| c@),
            default_idx: match self.default_idx {
                Some(i) => Some(i as int),
                None => None,
            },
        }
    }
}

/// A nominated default command, if any, names a registered command.
pub open spec fn app_wf(a: AppView) -> bool {
    match a.default_idx {
        Some(d) => 0 <= d < a.cmds.len(),
        None => true,
    }
}

/// What one invocation comes to: the index of the selected command and the
/// parse result handed to its handler, or the failure. An empty argument
/// list, or a first token naming no command, falls through to the default
/// command when one exists (scanning then starts at the first token) and
/// fails otherwise.
pub open spec fn run_outcome(app: AppView, arg: Seq<Seq<char>>) -> Result<
    (int, ContextView),
    RunErrorView,
> {
    if arg.len() == 0 {
        match app.default_idx {
            Some(d) => Ok((d, ctx_empty())),
            None => Err(RunErrorView::CommandNotSpecified),
        }
    } else {
        match resolve_from(app.cmds, arg[0], 0) {
            Some(j) => match scan(app.cmds[j].flags, arg, 1, ctx_empty()) {
                Ok(c) => Ok((j, c)),
                Err(e) => Err(e),
            },
            None => match app.default_idx {
                Some(d) => match scan(app.cmds[d].flags, arg, 0, ctx_empty()) {
                    Ok(c) => Ok((d, c)),
                    Err(e) => Err(e),
                },
                None => Err(RunErrorView::NoCommandFound(arg[0])),
            },
        }
    }
}

/// The executable parse result agrees with the modelled outcome.
pub open spec fn parse_agrees(
    r: Result<(usize, Context), RunError>,
    o: Result<(int, ContextView), RunErrorView>,
) -> bool {
    match (r, o) {
        (Ok(p), Ok(q)) => p.0 as int == q.0 && p.1@ == q.1,
        (Err(e), Err(oe)) => e@ == oe,
        _ => false,
    }
}

/// Bridges the executable prefix tests to the dash predicates of the model.
proof fn lemma_dash_iff(s: Seq<char>)
    ensures
        "-"@.is_prefix_of(s) == starts_dash(s),
        "--"@.is_prefix_of(s) == starts_dash_dash(s),
        "-"@ == seq!['-'],
{
    reveal_strlit("-");
    reveal_strlit("--");
    assert("-"@ =~= seq!['-']);
    if "-"@.is_prefix_of(s) {
        assert(s.subrange(0, 1)[0] == s[0]);
    }
    if starts_dash(s) {
        assert(s.subrange(0, 1) =~= "-"@);
    }
    if "--"@.is_prefix_of(s) {
        assert(s.subrange(0, 2)[0] == s[0]);
        assert(s.subrange(0, 2)[1] == s[1]);
    }
    if starts_dash_dash(s) {
        assert(s.subrange(0, 2) =~= "--"@);
    }
}

/// Handles one `--` token: walks the flags in declaration order and applies
/// the first whose long name the token contains. Returns whether the next
/// token was consumed as a value.
fn handle_long(flags: &Vec<Flag>, token: &String, next: Option<&String>, ctx: &mut Context) -> (r:
    Result<bool, RunError>)
    ensures
        ({
            let fseq = flags@.map_values(|f: Flag| f@);
            let nextv = match next {
                Some(n) => Some(n@),
                None => None,
            };
            match long_step(fseq, token@, nextv, old(ctx)@) {
                Ok(p) => r == Ok::<bool, RunError>(p.1) && final(ctx)@ == p.0,
                Err(e) => r is Err && (r matches Err(re) && re@ == e) && final(ctx)@ == old(
                    ctx,
                )@,
            }
        }),
        r == Ok::<bool, RunError>(true) ==> next is Some,
{
    let ghost fseq = flags@.map_values(|f: Flag| f@);
    let mut fi: usize = 0;
    while fi < flags.len()
        invariant
            fi <= flags@.len(),
            fseq == flags@.map_values(|f: Flag| f@),
            ctx@ == old(ctx)@,
            first_long_match(fseq, token@, 0) == first_long_match(fseq, token@, fi as int),
        decreases flags@.len() - fi,
    {
        let f = &flags[fi];
        if str_contains(token.as_str(), f.ident.as_str()) {
            proof {
                assert(first_long_match(fseq, token@, fi as int) == Some(fi as int));
            }
            if f.kind == FlagKind::InputFlag {
                match next {
                    None => {
                        return Err(RunError::NoArgumentForFlag(token.clone()));
                    },
                    Some(n) => {
                        let n_dash = str_starts_with(n.as_str(), "-");
                        proof {
                            lemma_dash_iff(n@);
                        }
                        if n_dash {
                            return Err(RunError::NoArgumentForFlag(token.clone()));
                        }
                        if ctx.is_set(f.ident.as_str()) {
                            return Err(RunError::DuplicateFlag(f.ident.clone()));
                        }
                        ctx.set_flag(&f.ident, FlagRes::Input(n.clone()));
                        return Ok(true);
                    },
                }
            } else {
                ctx.set_flag(&f.ident, FlagRes::Opt);
                return Ok(false);
            }
        }
        fi += 1;
    }
    Ok(false)
}

/// Handles one single-dash token: walks all the flags, firing every one
/// whose short form the token contains, as [`scan_abbrev`] describes.
/// Returns whether the next token was consumed as a value.
fn handle_abbrev(flags: &Vec<Flag>, token: &String, next: Option<&String>, ctx: &mut Context) -> (r:
    Result<bool, RunError>)
    ensures
        ({
            let fseq = flags@.map_values(|f: Flag| f@);
            let nextv = match next {
                Some(n) => Some(n@),
                None => None,
            };
            match scan_abbrev(fseq, token@, nextv, 0, old(ctx)@) {
                Ok(p) => r == Ok::<bool, RunError>(p.1) && final(ctx)@ == p.0,
                Err(e) => r is Err && (r matches Err(re) && re@ == e),
            }
        }),
        r == Ok::<bool, RunError>(true) ==> next is Some,
{
    let ghost fseq = flags@.map_values(|f: Flag| f@);
    let ghost nextv: Option<Seq<char>> = match next {
        Some(n) => Some(n@),
        None => None,
    };
    let mut fi: usize = 0;
    while fi < flags.len()
        invariant
            fi <= flags@.len(),
            fseq == flags@.map_values(|f: Flag| f@),
            nextv == (match next {
                Some(n) => Some(n@),
                None => None,
            }),
            scan_abbrev(fseq, token@, nextv, 0, old(ctx)@) == scan_abbrev(
                fseq,
                token@,
                nextv,
                fi as int,
                ctx@,
            ),
        decreases flags@.len() - fi,
    {
        let ghost ctx_head = ctx@;
        let f = &flags[fi];
        proof {
            assert(fseq[fi as int] == f@);
        }
        let mut fired = false;
        match &f.alias {
            Some(a) => {
                if str_contains(token.as_str(), a.as_str()) {
                    fired = true;
                    if f.kind == FlagKind::InputFlag {
                        let mut dashed = "-".to_owned();
                        dashed.append(a.as_str());
                        proof {
                            lemma_dash_iff(token@);
                            assert(dashed@ == seq!['-'] + a@);
                        }
                        if token.eq(&dashed) {
                            proof {
                                assert(token@ == seq!['-'] + f@.alias->0);
                            }
                            match next {
                                None => {
                                    proof {
                                        assert(scan_abbrev(fseq, token@, nextv, fi as int, ctx_head)
                                            == Err::<(ContextView, bool), RunErrorView>(
                                            RunErrorView::NoArgumentForFlag(token@),
                                        ));
                                    }
                                    return Err(RunError::NoArgumentForFlag(token.clone()));
                                },
                                Some(n) => {
                                    let n_dash = str_starts_with(n.as_str(), "-");
                                    proof {
                                        lemma_dash_iff(n@);
                                    }
                                    if n_dash {
                                        proof {
                                            assert(scan_abbrev(
                                                fseq,
                                                token@,
                                                nextv,
                                                fi as int,
                                                ctx_head,
                                            ) == Err::<(ContextView, bool), RunErrorView>(
                                                RunErrorView::NoArgumentForFlag(token@),
                                            ));
                                        }
                                        return Err(RunError::NoArgumentForFlag(token.clone()));
                                    }
                                    if ctx.is_set(f.ident.as_str()) {
                                        proof {
                                            assert(scan_abbrev(
                                                fseq,
                                                token@,
                                                nextv,
                                                fi as int,
                                                ctx_head,
                                            ) == Err::<(ContextView, bool), RunErrorView>(
                                                RunErrorView::DuplicateFlag(a@),
                                            ));
                                        }
                                        return Err(RunError::DuplicateFlag(a.clone()));
                                    }
                                    ctx.set_flag(&f.ident, FlagRes::Input(n.clone()));
                                    proof {
                                        assert(scan_abbrev(fseq, token@, nextv, fi as int, ctx_head)
                                            == Ok::<(ContextView, bool), RunErrorView>(
                                            (ctx@, true),
                                        ));
                                    }
                                    return Ok(true);
                                },
                            }
                        } else {
                            proof {
                                assert(token@ != seq!['-'] + f@.alias->0);
                                assert(scan_abbrev(fseq, token@, nextv, fi as int, ctx_head)
                                    == Err::<(ContextView, bool), RunErrorView>(
                                    RunErrorView::InputFlagAlongsideOptFlag,
                                ));
                            }
                            return Err(RunError::InputFlagAlongsideOptFlag);
                        }
                    } else {
                        ctx.set_flag(&f.ident, FlagRes::Opt);
                    }
                }
            },
            None => {},
        }
        proof {
            assert(scan_abbrev(fseq, token@, nextv, fi as int, ctx_head) == scan_abbrev(
                fseq,
                token@,
                nextv,
                fi as int + 1,
                ctx@,
            ));
        }
        fi += 1;
    }
    Ok(false)
}

/// Scans the tokens from position `start` on against the command's flags,
/// building the context that the handler will receive.
fn scan_tokens(flags: &Vec<Flag>, arg: &Vec<String>, start: usize) -> (r: Result<
    Context,
    RunError,
>)
    ensures
        ({
            let fseq = flags@.map_values(|f: Flag| f@);
            let argv = arg.deep_view();
            match scan(fseq, argv, start as int, ctx_empty()) {
                Ok(c) => r is Ok && (r matches Ok(ctx) && ctx@ == c),
                Err(e) => r is Err && (r matches Err(re) && re@ == e),
            }
        }),
{
    let ghost fseq = flags@.map_values(|f: Flag| f@);
    let ghost argv = arg.deep_view();
    let mut ctx = Context::new();
    let mut count: usize = start;
    while count < arg.len()
        invariant
            fseq == flags@.map_values(|f: Flag| f@),
            argv == arg.deep_view(),
            scan(fseq, argv, start as int, ctx_empty()) == scan(fseq, argv, count as int, ctx@),
        decreases arg@.len() - count,
    {
        let ghost ctx0 = ctx@;
        let token = &arg[count];
        proof {
            lemma_dash_iff(token@);
            assert(argv[count as int] == token@);
        }
        let is_long = str_starts_with(token.as_str(), "--");
        let is_short = str_starts_with(token.as_str(), "-");
        if is_long || is_short {
            let next: Option<&String> = if count + 1 < arg.len() {
                Some(&arg[count + 1])
            } else {
                None
            };
            proof {
                let nextv: Option<Seq<char>> = if count as int + 1 < argv.len() {
                    Some(argv[count as int + 1])
                } else {
                    None
                };
                assert(nextv == (match next {
                    Some(n) => Some(n@),
                    None => None,
                }));
            }
            let step = if is_long {
                handle_long(flags, token, next, &mut ctx)
            } else {
                handle_abbrev(flags, token, next, &mut ctx)
            };
            match step {
                Err(e) => {
                    proof {
                        assert(scan(fseq, argv, count as int, ctx0) == Err::<
                            ContextView,
                            RunErrorView,
                        >(e@));
                    }
                    return Err(e);
                },
                Ok(consumed) => {
                    if consumed {
                        proof {
                            assert(scan(fseq, argv, count as int, ctx0) == scan(
                                fseq,
                                argv,
                                count as int + 2,
                                ctx@,
                            ));
                        }
                        count += 2;
                    } else {
                        proof {
                            assert(scan(fseq, argv, count as int, ctx0) == scan(
                                fseq,
                                argv,
                                count as int + 1,
                                ctx@,
                            ));
                        }
                        count += 1;
                    }
                },
            }
        } else {
            ctx.push_arg(token.clone());
            proof {
                assert(scan(fseq, argv, count as int, ctx0) == scan(
                    fseq,
                    argv,
                    count as int + 1,
                    ctx@,
                ));
            }
            count += 1;
        }
    }
    proof {
        assert(scan(fseq, argv, count as int, ctx@) == Ok::<ContextView, RunErrorView>(ctx@));
    }
    Ok(ctx)
}

impl<H: Handler> App<H> {
    /// The stored application state, for specification purposes.
    pub closed spec fn state(&self) -> H::State {
        self.inner
    }

    pub fn new(inner: H::State) -> (r: App<H>)
        ensures
            r@ == (AppView { cmds: Seq::<CommandView>::empty(), default_idx: None }),
            r.state() == inner,
    {
        let r = App { cmds: Vec::new(), default_idx: None, inner };
        proof {
            assert(r@.cmds =~= Seq::<CommandView>::empty());
        }
        r
    }

    /// Appends one command; registration order decides which command a
    /// colliding first token selects.
    pub fn register(self, cmd: Command<H>) -> (r: App<H>)
        ensures
            r@ == (AppView { cmds: self@.cmds.push(cmd@), ..self@ }),
            r.state() == self.state(),
    {
        let ghost pre = self@;
        let ghost cmdv = cmd@;
        let mut this = self;
        this.cmds.push(cmd);
        proof {
            assert(this@.cmds =~= pre.cmds.push(cmdv));
        }
        this
    }

    /// Appends one command and nominates it as the fallback that an
    /// unmatched or absent first token routes to. At most one command may be
    /// nominated.
    pub fn register_default(self, cmd: Command<H>) -> (r: App<H>)
        requires
            self@.default_idx is None,
        ensures
            r@ == (AppView {
                cmds: self@.cmds.push(cmd@),
                default_idx: Some(self@.cmds.len() as int),
            }),
            r.state() == self.state(),
    {
        let ghost pre = self@;
        let ghost cmdv = cmd@;
        let mut this = self;
        let d = this.cmds.len();
        this.cmds.push(cmd);
        this.default_idx = Some(d);
        proof {
            assert(this@.cmds =~= pre.cmds.push(cmdv));
        }
        this
    }

    /// The first registered command whose identifier or second name equals
    /// the token.
    fn resolve(&self, token: &String) -> (r: Option<usize>)
        ensures
            match r {
                Some(j) => resolve_from(self@.cmds, token@, 0) == Some(j as int) && j
                    < self@.cmds.len(),
                None => resolve_from(self@.cmds, token@, 0) is None,
            },
    {
        let ghost cmds = self@.cmds;
        let mut j: usize = 0;
        while j < self.cmds.len()
            invariant
                j <= self.cmds@.len(),
                cmds == self@.cmds,
                cmds.len() == self.cmds@.len(),
                resolve_from(cmds, token@, 0) == resolve_from(cmds, token@, j as int),
            decreases self.cmds@.len() - j,
        {
            let c = &self.cmds[j];
            proof {
                assert(cmds[j as int] == c@);
            }
            let mut hit = token.eq(&c.ident);
            if !hit {
                match &c.alias {
                    Some(a) => {
                        hit = token.eq(a);
                    },
                    None => {},
                }
            }
            if hit {
                proof {
                    assert(resolve_from(cmds, token@, j as int) == Some(j as int));
                }
                return Some(j);
            }
            j += 1;
        }
        None
    }

    /// Turns one raw argument list into the selected command and the parse
    /// result its handler would receive, or the failure that would stop the
    /// invocation; nothing is dispatched.
    pub fn parse(&self, arg: &Vec<String>) -> (r: Result<(usize, Context), RunError>)
        requires
            app_wf(self@),
        ensures
            parse_agrees(r, run_outcome(self@, arg.deep_view())),
            r matches Ok(p) ==> p.0 < self@.cmds.len(),
    {
        let ghost argv = arg.deep_view();
        if arg.len() == 0 {
            proof {
                assert(argv.len() == 0);
            }
            match self.default_idx {
                Some(d) => {
                    let ctx = Context::new();
                    return Ok((d, ctx));
                },
                None => {
                    return Err(RunError::CommandNotSpecified);
                },
            }
        }
        let first = &arg[0];
        proof {
            assert(argv[0] == first@);
        }
        match self.resolve(first) {
            Some(j) => {
                match scan_tokens(&self.cmds[j].flags, arg, 1) {
                    Ok(ctx) => {
                        proof {
                            assert(self@.cmds[j as int] == self.cmds@[j as int]@);
                        }
                        Ok((j, ctx))
                    },
                    Err(e) => Err(e),
                }
            },
            None => {
                match self.default_idx {
                    Some(d) => {
                        match scan_tokens(&self.cmds[d].flags, arg, 0) {
                            Ok(ctx) => {
                                proof {
                                    assert(self@.cmds[d as int] == self.cmds@[d as int]@);
                                }
                                Ok((d, ctx))
                            },
                            Err(e) => Err(e),
                        }
                    },
                    None => Err(RunError::NoCommandFound(first.clone())),
                }
            },
        }
    }

    /// Resolves the command, scans the tokens, and hands the application
    /// state and the parse result to the matched command's handler. Returns
    /// the failure instead when resolution or scanning rejects the input;
    /// the handler then never ran.
    pub fn run(self, arg: Vec<String>) -> (r: Result<(), RunError>)
        requires
            app_wf(self@),
        ensures
            (r is Ok) == (run_outcome(self@, arg.deep_view()) is Ok),
            r matches Err(e) ==> run_outcome(self@, arg.deep_view()) matches Err(oe) && e@ == oe,
    {
        let mut this = self;
        match this.parse(&arg) {
            Err(e) => Err(e),
            Ok((j, ctx)) => {
                let cmd = this.cmds.remove(j);
                cmd.directive.invoke(this.inner, ctx);
                Ok(())
            },
        }
    }
}

} // verus!
