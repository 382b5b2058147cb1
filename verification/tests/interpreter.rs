use akita::interpreter::{App, Command, Context, Flag, FlagKind, Handler, RunError};

/// A handler that only prints the context it received, as a stand-in for the
/// real command bodies.
struct PrintHandler;

impl Handler for PrintHandler {
    type State = ();

    fn invoke(self, _state: (), ctx: Context) {
        println!("{:?}", ctx);
    }
}

/// A handler that must never run: used to check that parse failures stop the
/// invocation before dispatch.
struct NeverHandler;

impl Handler for NeverHandler {
    type State = ();

    fn invoke(self, _state: (), _ctx: Context) {
        panic!("handler ran although parsing failed");
    }
}

fn put_app() -> App<PrintHandler> {
    App::new(()).register(
        Command::new("put", None, "upload", PrintHandler)
            .flag(Flag::new("slug", Some("s"), FlagKind::InputFlag).description("desired slug"))
            .flag(Flag::new("content", Some("c"), FlagKind::InputFlag)),
    )
}

fn strings(words: &[&str]) -> Vec<String> {
    words.iter().map(|w| w.to_string()).collect()
}

#[test]
fn interpreter_test() {
    let intr = App::new(()).register(
        Command::new("test", Some("t"), "", PrintHandler)
            .flag(Flag::new("o", Some("output"), FlagKind::InputFlag))
            .flag(Flag::new("i", Some("input"), FlagKind::InputFlag)),
    );

    let args: Vec<String> = vec![
        "test".to_string(),
        "--output".to_string(),
        "flag_input".to_string(),
        "--input".to_string(),
        "input_two".to_string(),
        "input_three".to_string(),
        "input_four".to_string(),
    ];
    let (idx, ctx) = intr.parse(&args).unwrap();
    assert_eq!(idx, 0);
    assert_eq!(ctx.get("o"), Some("flag_input".to_string()));
    assert_eq!(ctx.get("i"), Some("input_two".to_string()));
    assert_eq!(ctx.arg, strings(&["input_three", "input_four"]));
    intr.run(args).unwrap();
}

#[test]
fn put_with_slug_and_content() {
    let app = put_app();
    let args = strings(&["put", "--slug", "note", "--content", "hello"]);
    let (idx, ctx) = app.parse(&args).unwrap();
    assert_eq!(idx, 0);
    assert!(ctx.arg.is_empty());
    assert_eq!(ctx.get("slug"), Some("note".to_string()));
    assert_eq!(ctx.get("content"), Some("hello".to_string()));
}

#[test]
fn get_with_short_output_flag() {
    let app = App::new(()).register(
        Command::new("get", None, "download", PrintHandler)
            .flag(Flag::new("output", Some("o"), FlagKind::InputFlag)),
    );
    let args = strings(&["get", "mydoc", "-o", "out.txt"]);
    let (idx, ctx) = app.parse(&args).unwrap();
    assert_eq!(idx, 0);
    assert_eq!(ctx.arg, strings(&["mydoc"]));
    assert_eq!(ctx.get("output"), Some("out.txt".to_string()));
}

#[test]
fn empty_input_without_default_fails() {
    let app = App::new(()).register(Command::new("put", None, "", NeverHandler));
    let err = app.run(Vec::new()).unwrap_err();
    assert!(matches!(err, RunError::CommandNotSpecified));
    assert_eq!(err.message(), "command not specified; try using --help");
}

#[test]
fn unknown_command_without_default_fails() {
    let app = App::new(()).register(Command::new("put", None, "", NeverHandler));
    let err = app.run(strings(&["zzz"])).unwrap_err();
    assert!(matches!(err, RunError::NoCommandFound(_)));
    assert_eq!(err.message(), "no command zzz found");
}

#[test]
fn duplicate_value_flag_fails_before_dispatch() {
    let app = App::new(()).register(
        Command::new("put", None, "", NeverHandler)
            .flag(Flag::new("slug", Some("s"), FlagKind::InputFlag)),
    );
    let err = app.run(strings(&["put", "--slug", "a", "--slug", "b"])).unwrap_err();
    assert!(matches!(err, RunError::DuplicateFlag(ref f) if f == "slug"));
    assert_eq!(
        err.message(),
        "error: the flag -slug has already been specified before"
    );
}

#[test]
fn value_flag_at_end_fails() {
    let app = put_app();
    let err = app.parse(&strings(&["put", "--slug"])).unwrap_err();
    assert!(matches!(err, RunError::NoArgumentForFlag(ref t) if t == "--slug"));
    assert_eq!(err.message(), "No argument for flag --slug found");
}

#[test]
fn value_flag_before_another_flag_fails() {
    let app = put_app();
    let err = app
        .parse(&strings(&["put", "--slug", "--content", "x"]))
        .unwrap_err();
    assert!(matches!(err, RunError::NoArgumentForFlag(ref t) if t == "--slug"));
}

#[test]
fn command_matched_by_alias() {
    let app = App::new(()).register(Command::new("logout", Some("lo"), "", PrintHandler));
    let (idx, ctx) = app.parse(&strings(&["lo"])).unwrap();
    assert_eq!(idx, 0);
    assert!(ctx.arg.is_empty());
}

#[test]
fn first_registered_command_wins_collision() {
    let app = App::new(())
        .register(Command::new("get", None, "first", PrintHandler))
        .register(Command::new("get", None, "second", PrintHandler));
    let (idx, _ctx) = app.parse(&strings(&["get"])).unwrap();
    assert_eq!(idx, 0);
}

#[test]
fn long_switch_flag_is_set_without_value() {
    let app = App::new(()).register(
        Command::new("ls", None, "", PrintHandler)
            .flag(Flag::new("verbose", Some("v"), FlagKind::OptFlag)),
    );
    let (_, ctx) = app.parse(&strings(&["ls", "--verbose"])).unwrap();
    assert!(ctx.is_set("verbose"));
    assert_eq!(ctx.get("verbose"), None);
}

#[test]
fn one_short_token_fires_every_contained_switch() {
    let app = App::new(()).register(
        Command::new("ls", None, "", PrintHandler)
            .flag(Flag::new("alpha", Some("a"), FlagKind::OptFlag))
            .flag(Flag::new("beta", Some("b"), FlagKind::OptFlag)),
    );
    let (_, ctx) = app.parse(&strings(&["ls", "-ab"])).unwrap();
    assert!(ctx.is_set("alpha"));
    assert!(ctx.is_set("beta"));
    assert!(ctx.arg.is_empty());
}

#[test]
fn short_value_flag_requires_exact_token() {
    let app = App::new(()).register(
        Command::new("get", None, "", NeverHandler)
            .flag(Flag::new("output", Some("o"), FlagKind::InputFlag)),
    );
    let err = app.run(strings(&["get", "-ox"])).unwrap_err();
    assert!(matches!(err, RunError::InputFlagAlongsideOptFlag));
    assert_eq!(
        err.message(),
        "You can't put an input flag alongside an option flag"
    );
}

#[test]
fn unmatched_dash_token_is_ignored() {
    let app = App::new(()).register(
        Command::new("get", None, "", PrintHandler)
            .flag(Flag::new("output", Some("o"), FlagKind::InputFlag)),
    );
    let (_, ctx) = app.parse(&strings(&["get", "--nxyz", "mydoc"])).unwrap();
    assert!(!ctx.is_set("output"));
    assert_eq!(ctx.arg, strings(&["mydoc"]));
}

#[test]
fn positionals_keep_encounter_order() {
    let app = put_app();
    let (_, ctx) = app
        .parse(&strings(&["put", "one", "--slug", "x", "two", "three"]))
        .unwrap();
    assert_eq!(ctx.arg, strings(&["one", "two", "three"]));
}

#[test]
fn default_command_takes_all_tokens() {
    let app = App::new(()).register_default(
        Command::new("put", None, "", PrintHandler)
            .flag(Flag::new("slug", Some("s"), FlagKind::InputFlag)),
    );
    let (idx, ctx) = app.parse(&strings(&["notes.txt", "--slug", "n"])).unwrap();
    assert_eq!(idx, 0);
    assert_eq!(ctx.arg, strings(&["notes.txt"]));
    assert_eq!(ctx.get("slug"), Some("n".to_string()));
}

#[test]
fn default_command_on_empty_input() {
    let app = App::new(())
        .register(Command::new("get", None, "", PrintHandler))
        .register_default(Command::new("put", None, "", PrintHandler));
    let (idx, ctx) = app.parse(&Vec::new()).unwrap();
    assert_eq!(idx, 1);
    assert!(ctx.arg.is_empty());
}

#[test]
fn matched_command_still_preferred_over_default() {
    let app = App::new(())
        .register_default(Command::new("put", None, "", PrintHandler))
        .register(Command::new("get", None, "", PrintHandler));
    let (idx, ctx) = app.parse(&strings(&["get", "doc"])).unwrap();
    assert_eq!(idx, 1);
    assert_eq!(ctx.arg, strings(&["doc"]));
}

#[test]
fn short_value_flag_repeated_fails() {
    let app = App::new(()).register(
        Command::new("get", None, "", NeverHandler)
            .flag(Flag::new("output", Some("o"), FlagKind::InputFlag)),
    );
    let err = app.run(strings(&["get", "-o", "a", "-o", "b"])).unwrap_err();
    assert!(matches!(err, RunError::DuplicateFlag(ref f) if f == "o"));
    assert_eq!(err.message(), "error: the flag -o has already been specified before");
}

#[test]
fn short_value_flag_at_end_fails() {
    let app = App::new(()).register(
        Command::new("get", None, "", NeverHandler)
            .flag(Flag::new("output", Some("o"), FlagKind::InputFlag)),
    );
    let err = app.run(strings(&["get", "-o"])).unwrap_err();
    assert!(matches!(err, RunError::NoArgumentForFlag(ref t) if t == "-o"));
}

#[test]
fn long_match_is_by_containment_not_equality() {
    // "--out" is not a declared name, but it contains the long name "o"
    let app = App::new(()).register(
        Command::new("test", None, "", PrintHandler)
            .flag(Flag::new("o", Some("output"), FlagKind::InputFlag)),
    );
    let (_, ctx) = app.parse(&strings(&["test", "--out", "v"])).unwrap();
    assert_eq!(ctx.get("o"), Some("v".to_string()));
    assert!(ctx.arg.is_empty());
}

#[test]
fn flag_declaration_order_decides_long_match() {
    // both long names occur inside the token; the first declared flag wins
    let app = App::new(()).register(
        Command::new("test", None, "", PrintHandler)
            .flag(Flag::new("put", Some("p"), FlagKind::OptFlag))
            .flag(Flag::new("output", Some("o"), FlagKind::OptFlag)),
    );
    let (_, ctx) = app.parse(&strings(&["test", "--output"])).unwrap();
    assert!(ctx.is_set("put"));
    assert!(!ctx.is_set("output"));
}

#[test]
fn context_empty_by_default() {
    let ctx = Context::new();
    assert!(!ctx.is_set("anything"));
    assert_eq!(ctx.get("anything"), None);
    assert!(ctx.arg.is_empty());
}
