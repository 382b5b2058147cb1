//! What holds of every invocation, proved against the scanning model of the
//! interpreter: how command resolution treats registration order, that
//! recorded flags keep their values, how positional arguments are collected,
//! and which inputs are rejected outright.

use vstd::prelude::*;

use crate::interpreter::{
    cmd_matches, first_long_match, long_step, resolve_from, run_outcome, scan, scan_abbrev,
    ctx_empty, ctx_push, ctx_set, starts_dash, starts_dash_dash, AppView, CommandView, ContextView,
    FlagKind, FlagResView, FlagView, RunErrorView,
};
use crate::strutil::contains_seq;

verus! {

// ---------------------------------------------------------------------------
// Command resolution
// ---------------------------------------------------------------------------

proof fn lemma_resolve_from_finds(cmds: Seq<CommandView>, tok: Seq<char>, s: int, j: int)
    requires
        0 <= s <= j < cmds.len(),
        cmd_matches(cmds[j], tok),
    ensures
        resolve_from(cmds, tok, s) is Some,
        ({
            let k = resolve_from(cmds, tok, s)->0;
            s <= k <= j && cmd_matches(cmds[k], tok) && forall|m: int|
                s <= m < k ==> !cmd_matches(#[trigger] cmds[m], tok)
        }),
    decreases j - s,
{
    if !cmd_matches(cmds[s], tok) {
        lemma_resolve_from_finds(cmds, tok, s + 1, j);
    }
}

/// A first token equal to some registered command's identifier or second
/// name always selects a command: the one among those it names that was
/// registered first, so that registration order decides collisions.
pub proof fn lemma_resolution_selects(cmds: Seq<CommandView>, tok: Seq<char>, j: int)
    requires
        0 <= j < cmds.len(),
        cmd_matches(cmds[j], tok),
    ensures
        resolve_from(cmds, tok, 0) is Some,
        ({
            let k = resolve_from(cmds, tok, 0)->0;
            0 <= k <= j && cmd_matches(cmds[k], tok) && forall|m: int|
                0 <= m < k ==> !cmd_matches(#[trigger] cmds[m], tok)
        }),
{
    lemma_resolve_from_finds(cmds, tok, 0, j);
}

/// What [`lemma_resolution_selects`] says carried to a whole invocation:
/// when some registered command's name equals the first token and the
/// invocation goes through, the command dispatched to is the first-registered
/// one the token names.
pub proof fn lemma_run_outcome_selects(app: AppView, arg: Seq<Seq<char>>, j: int)
    requires
        arg.len() > 0,
        0 <= j < app.cmds.len(),
        cmd_matches(app.cmds[j], arg[0]),
        run_outcome(app, arg) is Ok,
    ensures
        ({
            let k = run_outcome(app, arg)->Ok_0.0;
            0 <= k <= j && cmd_matches(app.cmds[k], arg[0]) && forall|m: int|
                0 <= m < k ==> !cmd_matches(#[trigger] app.cmds[m], arg[0])
        }),
{
    lemma_resolution_selects(app.cmds, arg[0], j);
}

// ---------------------------------------------------------------------------
// Growth of the resolved-flag table
// ---------------------------------------------------------------------------

proof fn lemma_abbrev_flagmap_monotone(
    flags: Seq<FlagView>,
    token: Seq<char>,
    next: Option<Seq<char>>,
    j: int,
    ctx: ContextView,
    k: Seq<char>,
)
    requires
        scan_abbrev(flags, token, next, j, ctx) is Ok,
        ctx.flagmap.contains_key(k),
    ensures
        scan_abbrev(flags, token, next, j, ctx)->Ok_0.0.flagmap.contains_key(k),
    decreases flags.len() - j,
{
    if j < 0 || j >= flags.len() {
    } else {
        let f = flags[j];
        if f.alias is Some && contains_seq(token, f.alias->0) {
            if f.kind is InputFlag {
            } else {
                lemma_abbrev_flagmap_monotone(
                    flags,
                    token,
                    next,
                    j + 1,
                    ctx_set(ctx, f.ident, FlagResView::Opt),
                    k,
                );
            }
        } else {
            lemma_abbrev_flagmap_monotone(flags, token, next, j + 1, ctx, k);
        }
    }
}

/// Scanning never forgets a resolved flag: every identifier recorded before
/// some suffix of the scan is still recorded when the scan succeeds.
pub proof fn lemma_flagmap_monotone(
    flags: Seq<FlagView>,
    arg: Seq<Seq<char>>,
    i: int,
    ctx: ContextView,
    k: Seq<char>,
)
    requires
        scan(flags, arg, i, ctx) is Ok,
        ctx.flagmap.contains_key(k),
    ensures
        scan(flags, arg, i, ctx)->Ok_0.flagmap.contains_key(k),
    decreases arg.len() - i,
{
    if i < 0 || i >= arg.len() {
    } else {
        let token = arg[i];
        let next: Option<Seq<char>> = if i + 1 < arg.len() {
            Some(arg[i + 1])
        } else {
            None
        };
        if starts_dash_dash(token) {
            match long_step(flags, token, next, ctx) {
                Err(e) => {},
                Ok((c2, consumed)) => {
                    assert(c2.flagmap.contains_key(k));
                    if consumed && i + 2 <= arg.len() {
                        lemma_flagmap_monotone(flags, arg, i + 2, c2, k);
                    } else if !consumed {
                        lemma_flagmap_monotone(flags, arg, i + 1, c2, k);
                    }
                },
            }
        } else if starts_dash(token) {
            match scan_abbrev(flags, token, next, 0, ctx) {
                Err(e) => {},
                Ok((c2, consumed)) => {
                    lemma_abbrev_flagmap_monotone(flags, token, next, 0, ctx, k);
                    if consumed && i + 2 <= arg.len() {
                        lemma_flagmap_monotone(flags, arg, i + 2, c2, k);
                    } else if !consumed {
                        lemma_flagmap_monotone(flags, arg, i + 1, c2, k);
                    }
                },
            }
        } else {
            lemma_flagmap_monotone(flags, arg, i + 1, ctx_push(ctx, token), k);
        }
    }
}

// ---------------------------------------------------------------------------
// Resolved flags keep their values
// ---------------------------------------------------------------------------

/// Every flag of the set whose identifier is `k` has this kind.
pub open spec fn ident_has_kind(flags: Seq<FlagView>, k: Seq<char>, kind: FlagKind) -> bool {
    forall|j: int| 0 <= j < flags.len() && (#[trigger] flags[j]).ident == k ==> flags[j].kind
        == kind
}

proof fn lemma_first_long_match_in_range(flags: Seq<FlagView>, token: Seq<char>, s: int)
    requires
        first_long_match(flags, token, s) is Some,
    ensures
        ({
            let j = first_long_match(flags, token, s)->0;
            s <= j < flags.len() && contains_seq(token, flags[j].ident)
        }),
    decreases flags.len() - s,
{
    if s < 0 || s >= flags.len() {
    } else if contains_seq(token, flags[s].ident) {
    } else {
        lemma_first_long_match_in_range(flags, token, s + 1);
    }
}

proof fn lemma_abbrev_entry_persists(
    flags: Seq<FlagView>,
    token: Seq<char>,
    next: Option<Seq<char>>,
    j: int,
    ctx: ContextView,
    k: Seq<char>,
)
    requires
        scan_abbrev(flags, token, next, j, ctx) is Ok,
        ctx.flagmap.contains_key(k),
        ctx.flagmap[k] is Input ==> ident_has_kind(flags, k, FlagKind::InputFlag),
        ctx.flagmap[k] is Opt ==> ident_has_kind(flags, k, FlagKind::OptFlag),
    ensures
        ({
            let out = scan_abbrev(flags, token, next, j, ctx)->Ok_0.0;
            out.flagmap.contains_key(k) && out.flagmap[k] == ctx.flagmap[k]
        }),
    decreases flags.len() - j,
{
    if j < 0 || j >= flags.len() {
    } else {
        let f = flags[j];
        if f.alias is Some && contains_seq(token, f.alias->0) {
            if f.kind is InputFlag {
                // a value-taking flag with identifier `k` cannot fire again:
                // the scan would stop with the duplicate-flag failure
            } else {
                let c2 = ctx_set(ctx, f.ident, FlagResView::Opt);
                if f.ident == k {
                    assert(ctx.flagmap[k] is Opt);
                    assert(c2.flagmap[k] == ctx.flagmap[k]);
                }
                lemma_abbrev_entry_persists(flags, token, next, j + 1, c2, k);
            }
        } else {
            lemma_abbrev_entry_persists(flags, token, next, j + 1, ctx, k);
        }
    }
}

/// A recorded flag keeps its recorded value through the rest of a successful
/// scan, as long as the command declares no second flag under the same
/// identifier with the opposite kind: a value-taking flag cannot fire again
/// without the scan failing, and a switch-style flag only re-records its
/// presence.
pub proof fn lemma_entry_persists(
    flags: Seq<FlagView>,
    arg: Seq<Seq<char>>,
    i: int,
    ctx: ContextView,
    k: Seq<char>,
)
    requires
        scan(flags, arg, i, ctx) is Ok,
        ctx.flagmap.contains_key(k),
        ctx.flagmap[k] is Input ==> ident_has_kind(flags, k, FlagKind::InputFlag),
        ctx.flagmap[k] is Opt ==> ident_has_kind(flags, k, FlagKind::OptFlag),
    ensures
        ({
            let out = scan(flags, arg, i, ctx)->Ok_0;
            out.flagmap.contains_key(k) && out.flagmap[k] == ctx.flagmap[k]
        }),
    decreases arg.len() - i,
{
    if i < 0 || i >= arg.len() {
    } else {
        let token = arg[i];
        let next: Option<Seq<char>> = if i + 1 < arg.len() {
            Some(arg[i + 1])
        } else {
            None
        };
        if starts_dash_dash(token) {
            match long_step(flags, token, next, ctx) {
                Err(e) => {},
                Ok((c2, consumed)) => {
                    if first_long_match(flags, token, 0) is Some {
                        lemma_first_long_match_in_range(flags, token, 0);
                    }
                    assert(c2.flagmap.contains_key(k) && c2.flagmap[k] == ctx.flagmap[k]);
                    if consumed && i + 2 <= arg.len() {
                        lemma_entry_persists(flags, arg, i + 2, c2, k);
                    } else if !consumed {
                        lemma_entry_persists(flags, arg, i + 1, c2, k);
                    }
                },
            }
        } else if starts_dash(token) {
            match scan_abbrev(flags, token, next, 0, ctx) {
                Err(e) => {},
                Ok((c2, consumed)) => {
                    lemma_abbrev_entry_persists(flags, token, next, 0, ctx, k);
                    if consumed && i + 2 <= arg.len() {
                        lemma_entry_persists(flags, arg, i + 2, c2, k);
                    } else if !consumed {
                        lemma_entry_persists(flags, arg, i + 1, c2, k);
                    }
                },
            }
        } else {
            lemma_entry_persists(flags, arg, i + 1, ctx_push(ctx, token), k);
        }
    }
}

/// A value-taking flag resolved by a `--` token takes the following token as
/// its value: when the whole scan goes through, the context records exactly
/// that token under the flag's identifier, so `get` on the identifier
/// returns it.
pub proof fn lemma_long_value_flag(
    flags: Seq<FlagView>,
    arg: Seq<Seq<char>>,
    i: int,
    ctx: ContextView,
    fi: int,
)
    requires
        0 <= i < arg.len(),
        starts_dash_dash(arg[i]),
        first_long_match(flags, arg[i], 0) == Some(fi),
        flags[fi].kind is InputFlag,
        i + 1 < arg.len(),
        !starts_dash(arg[i + 1]),
        !ctx.flagmap.contains_key(flags[fi].ident),
        ident_has_kind(flags, flags[fi].ident, FlagKind::InputFlag),
        scan(flags, arg, i, ctx) is Ok,
    ensures
        ({
            let out = scan(flags, arg, i, ctx)->Ok_0;
            out.flagmap.contains_key(flags[fi].ident) && out.flagmap[flags[fi].ident]
                == FlagResView::Input(arg[i + 1])
        }),
{
    let k = flags[fi].ident;
    let c2 = ctx_set(ctx, k, FlagResView::Input(arg[i + 1]));
    assert(scan(flags, arg, i, ctx) == scan(flags, arg, i + 2, c2));
    lemma_entry_persists(flags, arg, i + 2, c2, k);
}

/// A switch-style flag resolved by a `--` token records its bare presence:
/// when the whole scan goes through, the context holds the presence mark
/// under the flag's identifier, so `is_set` on the identifier is true while
/// `get` returns nothing.
pub proof fn lemma_long_switch_flag(
    flags: Seq<FlagView>,
    arg: Seq<Seq<char>>,
    i: int,
    ctx: ContextView,
    fi: int,
)
    requires
        0 <= i < arg.len(),
        starts_dash_dash(arg[i]),
        first_long_match(flags, arg[i], 0) == Some(fi),
        flags[fi].kind is OptFlag,
        ident_has_kind(flags, flags[fi].ident, FlagKind::OptFlag),
        scan(flags, arg, i, ctx) is Ok,
    ensures
        ({
            let out = scan(flags, arg, i, ctx)->Ok_0;
            out.flagmap.contains_key(flags[fi].ident) && out.flagmap[flags[fi].ident]
                == FlagResView::Opt
        }),
{
    let k = flags[fi].ident;
    let c2 = ctx_set(ctx, k, FlagResView::Opt);
    assert(scan(flags, arg, i, ctx) == scan(flags, arg, i + 1, c2));
    lemma_entry_persists(flags, arg, i + 1, c2, k);
}

// ---------------------------------------------------------------------------
// Recorded flags come from the declared flags
// ---------------------------------------------------------------------------

/// Some flag of the set declares this identifier with this kind.
pub open spec fn declares_ident_kind(flags: Seq<FlagView>, k: Seq<char>, kind: FlagKind) -> bool {
    exists|j: int| 0 <= j < flags.len() && (#[trigger] flags[j]).ident == k && flags[j].kind
        == kind
}

proof fn lemma_abbrev_entries_declared(
    flags: Seq<FlagView>,
    token: Seq<char>,
    next: Option<Seq<char>>,
    j: int,
    ctx: ContextView,
    k: Seq<char>,
)
    requires
        scan_abbrev(flags, token, next, j, ctx) is Ok,
        scan_abbrev(flags, token, next, j, ctx)->Ok_0.0.flagmap.contains_key(k),
    ensures
        ({
            let out = scan_abbrev(flags, token, next, j, ctx)->Ok_0.0;
            (ctx.flagmap.contains_key(k) && out.flagmap[k] == ctx.flagmap[k]) || (out.flagmap[k]
                is Input && declares_ident_kind(flags, k, FlagKind::InputFlag)) || (out.flagmap[k]
                is Opt && declares_ident_kind(flags, k, FlagKind::OptFlag))
        }),
    decreases flags.len() - j,
{
    if j < 0 || j >= flags.len() {
    } else {
        let f = flags[j];
        if f.alias is Some && contains_seq(token, f.alias->0) {
            if f.kind is InputFlag {
            } else {
                lemma_abbrev_entries_declared(
                    flags,
                    token,
                    next,
                    j + 1,
                    ctx_set(ctx, f.ident, FlagResView::Opt),
                    k,
                );
            }
        } else {
            lemma_abbrev_entries_declared(flags, token, next, j + 1, ctx, k);
        }
    }
}

proof fn lemma_scan_entries_declared(
    flags: Seq<FlagView>,
    arg: Seq<Seq<char>>,
    i: int,
    ctx: ContextView,
    k: Seq<char>,
)
    requires
        scan(flags, arg, i, ctx) is Ok,
        scan(flags, arg, i, ctx)->Ok_0.flagmap.contains_key(k),
    ensures
        ({
            let out = scan(flags, arg, i, ctx)->Ok_0;
            (ctx.flagmap.contains_key(k) && out.flagmap[k] == ctx.flagmap[k]) || (out.flagmap[k]
                is Input && declares_ident_kind(flags, k, FlagKind::InputFlag)) || (out.flagmap[k]
                is Opt && declares_ident_kind(flags, k, FlagKind::OptFlag))
        }),
    decreases arg.len() - i,
{
    if i < 0 || i >= arg.len() {
    } else {
        let token = arg[i];
        let next: Option<Seq<char>> = if i + 1 < arg.len() {
            Some(arg[i + 1])
        } else {
            None
        };
        if starts_dash_dash(token) {
            match long_step(flags, token, next, ctx) {
                Err(e) => {},
                Ok((c2, consumed)) => {
                    if first_long_match(flags, token, 0) is Some {
                        lemma_first_long_match_in_range(flags, token, 0);
                    }
                    if consumed && i + 2 <= arg.len() {
                        lemma_scan_entries_declared(flags, arg, i + 2, c2, k);
                    } else if !consumed {
                        lemma_scan_entries_declared(flags, arg, i + 1, c2, k);
                    }
                },
            }
        } else if starts_dash(token) {
            match scan_abbrev(flags, token, next, 0, ctx) {
                Err(e) => {},
                Ok((c2, consumed)) => {
                    if consumed && i + 2 <= arg.len() {
                        lemma_scan_entries_declared(flags, arg, i + 2, c2, k);
                        if c2.flagmap.contains_key(k) {
                            lemma_abbrev_entries_declared(flags, token, next, 0, ctx, k);
                        }
                    } else if !consumed {
                        lemma_scan_entries_declared(flags, arg, i + 1, c2, k);
                        if c2.flagmap.contains_key(k) {
                            lemma_abbrev_entries_declared(flags, token, next, 0, ctx, k);
                        }
                    } else {
                        lemma_abbrev_entries_declared(flags, token, next, 0, ctx, k);
                    }
                },
            }
        } else {
            lemma_scan_entries_declared(flags, arg, i + 1, ctx_push(ctx, token), k);
        }
    }
}

/// The context an invocation hands its handler records only identifiers
/// declared by the matched command's flags: a value entry stands under some
/// value-taking flag's identifier and a presence entry under some
/// switch-style flag's identifier, never the other way round.
pub proof fn lemma_context_keys_declared(app: AppView, arg: Seq<Seq<char>>, k: Seq<char>)
    requires
        run_outcome(app, arg) is Ok,
        run_outcome(app, arg)->Ok_0.1.flagmap.contains_key(k),
    ensures
        ({
            let sel = run_outcome(app, arg)->Ok_0.0;
            let out = run_outcome(app, arg)->Ok_0.1;
            (out.flagmap[k] is Input && declares_ident_kind(
                app.cmds[sel].flags,
                k,
                FlagKind::InputFlag,
            )) || (out.flagmap[k] is Opt && declares_ident_kind(
                app.cmds[sel].flags,
                k,
                FlagKind::OptFlag,
            ))
        }),
{
    let sel = run_outcome(app, arg)->Ok_0.0;
    if arg.len() == 0 {
    } else {
        match resolve_from(app.cmds, arg[0], 0) {
            Some(j) => {
                lemma_scan_entries_declared(app.cmds[j].flags, arg, 1, ctx_empty(), k);
            },
            None => {
                lemma_scan_entries_declared(app.cmds[sel].flags, arg, 0, ctx_empty(), k);
            },
        }
    }
}

// ---------------------------------------------------------------------------
// Positional arguments
// ---------------------------------------------------------------------------

/// A single-dash token makes the scan consume the token after it: some flag
/// whose short form the token contains is value-taking (and, on any scan
/// that goes through, the token is exactly that flag's short form).
pub open spec fn abbrev_consumes(flags: Seq<FlagView>, token: Seq<char>, j: int) -> bool
    decreases flags.len() - j,
{
    if j < 0 || j >= flags.len() {
        false
    } else {
        let f = flags[j];
        if f.alias is Some && contains_seq(token, f.alias->0) {
            if f.kind is InputFlag {
                token == seq!['-'] + f.alias->0
            } else {
                abbrev_consumes(flags, token, j + 1)
            }
        } else {
            abbrev_consumes(flags, token, j + 1)
        }
    }
}

/// This token makes the scan consume the token after it as a flag value.
pub open spec fn token_consumes(flags: Seq<FlagView>, token: Seq<char>) -> bool {
    if starts_dash_dash(token) {
        match first_long_match(flags, token, 0) {
            Some(j) => flags[j].kind is InputFlag,
            None => false,
        }
    } else if starts_dash(token) {
        abbrev_consumes(flags, token, 0)
    } else {
        false
    }
}

/// The positional arguments that scanning from token position `i` collects:
/// exactly the tokens that carry no leading dash and are not consumed as
/// some value-taking flag's value, in encounter order.
pub open spec fn scan_positionals(flags: Seq<FlagView>, arg: Seq<Seq<char>>, i: int) -> Seq<
    Seq<char>,
>
    decreases arg.len() - i,
{
    if i < 0 || i >= arg.len() {
        Seq::empty()
    } else {
        let token = arg[i];
        if starts_dash(token) {
            if token_consumes(flags, token) && i + 2 <= arg.len() {
                scan_positionals(flags, arg, i + 2)
            } else if token_consumes(flags, token) {
                Seq::empty()
            } else {
                scan_positionals(flags, arg, i + 1)
            }
        } else {
            seq![token] + scan_positionals(flags, arg, i + 1)
        }
    }
}

proof fn lemma_abbrev_consumption(
    flags: Seq<FlagView>,
    token: Seq<char>,
    next: Option<Seq<char>>,
    j: int,
    ctx: ContextView,
)
    requires
        scan_abbrev(flags, token, next, j, ctx) is Ok,
    ensures
        ({
            let p = scan_abbrev(flags, token, next, j, ctx)->Ok_0;
            p.1 == abbrev_consumes(flags, token, j) && p.0.arg == ctx.arg
        }),
    decreases flags.len() - j,
{
    if j < 0 || j >= flags.len() {
    } else {
        let f = flags[j];
        if f.alias is Some && contains_seq(token, f.alias->0) {
            if f.kind is InputFlag {
            } else {
                lemma_abbrev_consumption(
                    flags,
                    token,
                    next,
                    j + 1,
                    ctx_set(ctx, f.ident, FlagResView::Opt),
                );
            }
        } else {
            lemma_abbrev_consumption(flags, token, next, j + 1, ctx);
        }
    }
}

/// A scan that goes through collects as positional arguments exactly the
/// tokens that neither begin with a dash nor are consumed as a flag's value,
/// in encounter order, appended after whatever was collected before it.
pub proof fn lemma_positionals_collected(
    flags: Seq<FlagView>,
    arg: Seq<Seq<char>>,
    i: int,
    ctx: ContextView,
)
    requires
        scan(flags, arg, i, ctx) is Ok,
    ensures
        scan(flags, arg, i, ctx)->Ok_0.arg == ctx.arg + scan_positionals(flags, arg, i),
    decreases arg.len() - i,
{
    if i < 0 || i >= arg.len() {
        assert(ctx.arg + scan_positionals(flags, arg, i) =~= ctx.arg);
    } else {
        let token = arg[i];
        let next: Option<Seq<char>> = if i + 1 < arg.len() {
            Some(arg[i + 1])
        } else {
            None
        };
        if starts_dash_dash(token) {
            match long_step(flags, token, next, ctx) {
                Err(e) => {},
                Ok((c2, consumed)) => {
                    assert(c2.arg == ctx.arg);
                    assert(consumed == token_consumes(flags, token));
                    if consumed && i + 2 <= arg.len() {
                        lemma_positionals_collected(flags, arg, i + 2, c2);
                    } else if consumed {
                        assert(ctx.arg + scan_positionals(flags, arg, i) =~= ctx.arg);
                    } else {
                        lemma_positionals_collected(flags, arg, i + 1, c2);
                    }
                },
            }
        } else if starts_dash(token) {
            match scan_abbrev(flags, token, next, 0, ctx) {
                Err(e) => {},
                Ok((c2, consumed)) => {
                    lemma_abbrev_consumption(flags, token, next, 0, ctx);
                    assert(consumed == token_consumes(flags, token));
                    if consumed && i + 2 <= arg.len() {
                        lemma_positionals_collected(flags, arg, i + 2, c2);
                    } else if consumed {
                        assert(ctx.arg + scan_positionals(flags, arg, i) =~= ctx.arg);
                    } else {
                        lemma_positionals_collected(flags, arg, i + 1, c2);
                    }
                },
            }
        } else {
            let c2 = ctx_push(ctx, token);
            lemma_positionals_collected(flags, arg, i + 1, c2);
            assert(c2.arg + scan_positionals(flags, arg, i + 1) =~= ctx.arg + (seq![token]
                + scan_positionals(flags, arg, i + 1)));
        }
    }
}

// ---------------------------------------------------------------------------
// Fatal misuse of value-taking flags
// ---------------------------------------------------------------------------

/// Resolving a value-taking flag whose identifier is already recorded is
/// fatal: the scan stops with the duplicate-flag failure, so the handler
/// never runs.
pub proof fn lemma_duplicate_rejected(
    flags: Seq<FlagView>,
    arg: Seq<Seq<char>>,
    i: int,
    ctx: ContextView,
    fi: int,
)
    requires
        0 <= i < arg.len(),
        starts_dash_dash(arg[i]),
        first_long_match(flags, arg[i], 0) == Some(fi),
        flags[fi].kind is InputFlag,
        i + 1 < arg.len(),
        !starts_dash(arg[i + 1]),
        ctx.flagmap.contains_key(flags[fi].ident),
    ensures
        scan(flags, arg, i, ctx) == Err::<ContextView, RunErrorView>(
            RunErrorView::DuplicateFlag(flags[fi].ident),
        ),
{
}

/// A value-taking flag standing last, or right before another dash token, is
/// fatal: the scan stops with the missing-argument failure.
pub proof fn lemma_missing_value_rejected(
    flags: Seq<FlagView>,
    arg: Seq<Seq<char>>,
    i: int,
    ctx: ContextView,
    fi: int,
)
    requires
        0 <= i < arg.len(),
        starts_dash_dash(arg[i]),
        first_long_match(flags, arg[i], 0) == Some(fi),
        flags[fi].kind is InputFlag,
        i + 1 >= arg.len() || starts_dash(arg[i + 1]),
    ensures
        scan(flags, arg, i, ctx) == Err::<ContextView, RunErrorView>(
            RunErrorView::NoArgumentForFlag(arg[i]),
        ),
{
}

} // verus!
