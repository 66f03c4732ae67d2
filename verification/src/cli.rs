//! The command line: what the arguments ask for, and what is said when they
//! cannot be used.
use vstd::prelude::*;

use crate::report::{is_known_rule, known_rule_names, string_views};
use crate::text::same_text;

verus! {

/// What a run of the tool is asked to lint, and how.
pub struct Options {
    pub json: bool,
    pub path: String,
    pub only_rules: Vec<String>,
    pub ignore_rules: Vec<String>,
}

/// What the arguments ask for.
pub enum Command {
    Help,
    Lint(Options),
}

/// Why the arguments cannot be used.
pub enum ArgError {
    /// `--rule` or `--ignore` names no known rule.
    UnknownRule(String),
    /// `--rule` or `--ignore` (the flag given) is the last argument.
    MissingRuleName(String),
    /// A second path.
    UnexpectedArgument(String),
    /// No path.
    MissingPath,
}

/// The mathematical value of `Options`.
pub struct OptionsView {
    pub json: bool,
    pub path: Seq<char>,
    pub only_rules: Seq<Seq<char>>,
    pub ignore_rules: Seq<Seq<char>>,
}

/// The mathematical value of a `Command`.
pub enum CommandView {
    Help,
    Lint(OptionsView),
}

/// The mathematical value of an `ArgError`.
pub enum ArgErrorView {
    UnknownRule(Seq<char>),
    MissingRuleName(Seq<char>),
    UnexpectedArgument(Seq<char>),
    MissingPath,
}

impl View for Options {
    type V = OptionsView;

    open spec fn view(&self) -> OptionsView {
        OptionsView {
            json: self.json,
            path: self.path@,
            only_rules: string_views(self.only_rules@),
            ignore_rules: string_views(self.ignore_rules@),
        }
    }
}

impl View for Command {
    type V = CommandView;

    open spec fn view(&self) -> CommandView {
        match self {
            Command::Help => CommandView::Help,
            Command::Lint(o) => CommandView::Lint(o@),
        }
    }
}

impl View for ArgError {
    type V = ArgErrorView;

    open spec fn view(&self) -> ArgErrorView {
        match self {
            ArgError::UnknownRule(s) => ArgErrorView::UnknownRule(s@),
            ArgError::MissingRuleName(s) => ArgErrorView::MissingRuleName(s@),
            ArgError::UnexpectedArgument(s) => ArgErrorView::UnexpectedArgument(s@),
            ArgError::MissingPath => ArgErrorView::MissingPath,
        }
    }
}

/// The options read so far; `path` is `None` until a path is given.
pub struct ScanState {
    pub json: bool,
    pub path: Option<Seq<char>>,
    pub only_rules: Seq<Seq<char>>,
    pub ignore_rules: Seq<Seq<char>>,
}

/// The state before any argument is read.
pub open spec fn initial_state() -> ScanState {
    ScanState { json: false, path: None, only_rules: Seq::empty(), ignore_rules: Seq::empty() }
}

/// The outcome of reading `args` from index `i` on, in state `st`: `--json`
/// asks for JSON; `-h` or `--help` asks for help at once; `--rule NAME` and
/// `--ignore NAME` add a known rule to the respective list; any other
/// argument is the path, and a second one is an error; at the end a path is
/// required.
pub open spec fn scan_args(args: Seq<Seq<char>>, i: int, st: ScanState) -> Result<
    CommandView,
    ArgErrorView,
>
    decreases args.len() - i,
{
    if i >= args.len() || i < 0 {
        match st.path {
            Some(p) => Ok(
                CommandView::Lint(
                    OptionsView {
                        json: st.json,
                        path: p,
                        only_rules: st.only_rules,
                        ignore_rules: st.ignore_rules,
                    },
                ),
            ),
            None => Err(ArgErrorView::MissingPath),
        }
    } else {
        let a = args[i];
        if a == "--json"@ {
            scan_args(args, i + 1, ScanState { json: true, ..st })
        } else if a == "-h"@ || a == "--help"@ {
            Ok(CommandView::Help)
        } else if a == "--rule"@ || a == "--ignore"@ {
            if i + 1 >= args.len() {
                Err(ArgErrorView::MissingRuleName(a))
            } else if !known_rule_names().contains(args[i + 1]) {
                Err(ArgErrorView::UnknownRule(args[i + 1]))
            } else if a == "--rule"@ {
                scan_args(args, i + 2, ScanState { only_rules: st.only_rules.push(args[i + 1]), ..st })
            } else {
                scan_args(
                    args,
                    i + 2,
                    ScanState { ignore_rules: st.ignore_rules.push(args[i + 1]), ..st },
                )
            }
        } else if st.path is Some {
            Err(ArgErrorView::UnexpectedArgument(a))
        } else {
            scan_args(args, i + 1, ScanState { path: Some(a), ..st })
        }
    }
}

/// What the arguments (the program's name left out) ask for.
pub open spec fn args_spec(args: Seq<Seq<char>>) -> Result<CommandView, ArgErrorView> {
    scan_args(args, 0, initial_state())
}

/// A copy of a string.
fn copy_string(s: &String) -> (r: String)
    ensures
        r@ == s@,
{
    String::from_str(s.as_str())
}

/// Reads the arguments (the program's name left out).
pub fn parse_args(args: &[String]) -> (r: Result<Command, ArgError>)
    ensures
        match r {
            Ok(c) => args_spec(string_views(args@)) == Ok::<CommandView, ArgErrorView>(c@),
            Err(e) => args_spec(string_views(args@)) == Err::<CommandView, ArgErrorView>(e@),
        },
{
    let ghost a = string_views(args@);
    let mut json = false;
    let mut path: Option<String> = None;
    let mut only_rules: Vec<String> = Vec::new();
    let mut ignore_rules: Vec<String> = Vec::new();
    let mut i: usize = 0;
    proof {
        assert(string_views(only_rules@) =~= Seq::<Seq<char>>::empty());
        assert(string_views(ignore_rules@) =~= Seq::<Seq<char>>::empty());
    }
    while i < args.len()
        invariant
            i <= args@.len(),
            a == string_views(args@),
            args_spec(a) == scan_args(
                a,
                i as int,
                ScanState {
                    json,
                    path: match path {
                        Some(p) => Some(p@),
                        None => None,
                    },
                    only_rules: string_views(only_rules@),
                    ignore_rules: string_views(ignore_rules@),
                },
            ),
        decreases args.len() - i,
    {
        let arg = &args[i];
        assert(a[i as int] == arg@);
        if same_text(arg.as_str(), "--json") {
            json = true;
            i = i + 1;
        } else if same_text(arg.as_str(), "-h") || same_text(arg.as_str(), "--help") {
            return Ok(Command::Help);
        } else if same_text(arg.as_str(), "--rule") || same_text(arg.as_str(), "--ignore") {
            if i + 1 >= args.len() {
                return Err(ArgError::MissingRuleName(copy_string(arg)));
            }
            let name = &args[i + 1];
            assert(a[i + 1] == name@);
            if !is_known_rule(name.as_str()) {
                return Err(ArgError::UnknownRule(copy_string(name)));
            }
            if same_text(arg.as_str(), "--rule") {
                let ghost before = string_views(only_rules@);
                only_rules.push(copy_string(name));
                assert(string_views(only_rules@) =~= before.push(name@));
            } else {
                let ghost before = string_views(ignore_rules@);
                ignore_rules.push(copy_string(name));
                assert(string_views(ignore_rules@) =~= before.push(name@));
            }
            i = i + 2;
        } else {
            if path.is_some() {
                return Err(ArgError::UnexpectedArgument(copy_string(arg)));
            }
            path = Some(copy_string(arg));
            i = i + 1;
        }
    }
    match path {
        Some(p) => Ok(Command::Lint(Options { json, path: p, only_rules, ignore_rules })),
        None => Err(ArgError::MissingPath),
    }
}

/// The text a path stands for in output: `-` reads standard input and is
/// shown as `<stdin>`.
pub open spec fn label_spec(path: Seq<char>) -> Seq<char> {
    if path == "-"@ {
        "<stdin>"@
    } else {
        path
    }
}

impl Options {
    /// Whether the route table is read from standard input.
    pub fn reads_stdin(&self) -> (r: bool)
        ensures
            r == (self.path@ == "-"@),
    {
        same_text(self.path.as_str(), "-")
    }

    /// The name of the route table in output.
    pub fn label(&self) -> (r: String)
        ensures
            r@ == label_spec(self.path@),
    {
        if same_text(self.path.as_str(), "-") {
            String::from_str("<stdin>")
        } else {
            copy_string(&self.path)
        }
    }
}

/// The message printed for an argument error, if any.
pub open spec fn arg_error_message(e: ArgErrorView) -> Option<Seq<char>> {
    match e {
        ArgErrorView::UnknownRule(n) => Some("routelint: unknown rule \""@ + n + "\""@),
        ArgErrorView::MissingRuleName(f) => Some("routelint: "@ + f + " requires a rule name"@),
        ArgErrorView::UnexpectedArgument(x) => Some("routelint: unexpected argument \""@ + x + "\""@),
        ArgErrorView::MissingPath => None,
    }
}

/// Whether the usage text follows an argument error.
pub open spec fn arg_error_shows_usage(e: ArgErrorView) -> bool {
    !(e is UnknownRule)
}

impl ArgError {
    /// The message printed for this error, if any.
    pub fn message(&self) -> (r: Option<String>)
        ensures
            match r {
                Some(m) => arg_error_message(self@) == Some(m@),
                None => arg_error_message(self@) is None,
            },
    {
        match self {
            ArgError::UnknownRule(n) => {
                let mut m = String::from_str("routelint: unknown rule \"");
                m.append(n.as_str());
                m.append("\"");
                Some(m)
            },
            ArgError::MissingRuleName(f) => {
                let mut m = String::from_str("routelint: ");
                m.append(f.as_str());
                m.append(" requires a rule name");
                Some(m)
            },
            ArgError::UnexpectedArgument(x) => {
                let mut m = String::from_str("routelint: unexpected argument \"");
                m.append(x.as_str());
                m.append("\"");
                Some(m)
            },
            ArgError::MissingPath => None,
        }
    }

    /// Whether the usage text follows this error.
    pub fn shows_usage(&self) -> (r: bool)
        ensures
            r == arg_error_shows_usage(self@),
    {
        match self {
            ArgError::UnknownRule(_) => false,
            _ => true,
        }
    }
}

/// The argument after each occurrence of `flag` in `args`, in order.
pub open spec fn values_after(args: Seq<Seq<char>>, flag: Seq<char>) -> Seq<Seq<char>>
    decreases args.len(),
{
    if args.len() < 2 {
        Seq::empty()
    } else {
        (if args[0] == flag {
            seq![args[1]]
        } else {
            Seq::empty()
        }) + values_after(args.drop_first(), flag)
    }
}

proof fn lemma_known_rules_are_not_flags(name: Seq<char>)
    requires
        known_rule_names().contains(name),
    ensures
        name != "--rule"@,
        name != "--ignore"@,
{
    reveal_strlit("--rule");
    reveal_strlit("--ignore");
    reveal_strlit("shadowed-route");
    reveal_strlit("duplicate-route");
    reveal_strlit("missing-leading-slash");
    reveal_strlit("trailing-slash");
    reveal_strlit("empty-segment");
    reveal_strlit("unparsable-line");
    let k = choose|k: int| 0 <= k < known_rule_names().len() && known_rule_names()[k] == name;
    assert(name[0] != '-');
}

proof fn lemma_scan_rule_lists(args: Seq<Seq<char>>, i: int, st: ScanState)
    requires
        0 <= i <= args.len(),
        i > 0 ==> args[i - 1] != "--rule"@ && args[i - 1] != "--ignore"@,
    ensures
        scan_args(args, i, st) matches Ok(CommandView::Lint(o)) ==> {
            &&& o.only_rules == st.only_rules + values_after(args.skip(i), "--rule"@)
            &&& o.ignore_rules == st.ignore_rules + values_after(args.skip(i), "--ignore"@)
        },
    decreases args.len() - i,
{
    reveal_strlit("--rule");
    reveal_strlit("--ignore");
    reveal_strlit("--json");
    let t = args.skip(i);
    if i >= args.len() {
        assert(t.len() == 0);
        assert(st.only_rules + Seq::<Seq<char>>::empty() =~= st.only_rules);
        assert(st.ignore_rules + Seq::<Seq<char>>::empty() =~= st.ignore_rules);
    } else {
        let a = args[i];
        assert(t[0] == a);
        assert(t.drop_first() =~= args.skip(i + 1));
        if a == "--json"@ {
            assert("--json"@[2] != "--rule"@[2]);
            assert("--json"@.len() != "--ignore"@.len());
            assert(a != "--rule"@ && a != "--ignore"@);
            lemma_scan_rule_lists(args, i + 1, ScanState { json: true, ..st });
            if t.len() >= 2 {
                assert(values_after(t, "--rule"@) =~= values_after(args.skip(i + 1), "--rule"@));
                assert(values_after(t, "--ignore"@) =~= values_after(
                    args.skip(i + 1),
                    "--ignore"@,
                ));
            }
        } else if a == "-h"@ || a == "--help"@ {
        } else if a == "--rule"@ || a == "--ignore"@ {
            if i + 1 < args.len() && known_rule_names().contains(args[i + 1]) {
                let name = args[i + 1];
                lemma_known_rules_are_not_flags(name);
                let t1 = args.skip(i + 1);
                assert(t1[0] == name);
                assert(t1.drop_first() =~= args.skip(i + 2));
                let st2 = if a == "--rule"@ {
                    ScanState { only_rules: st.only_rules.push(name), ..st }
                } else {
                    ScanState { ignore_rules: st.ignore_rules.push(name), ..st }
                };
                lemma_scan_rule_lists(args, i + 2, st2);
                if t1.len() >= 2 {
                    assert(values_after(t1, "--rule"@) =~= values_after(args.skip(i + 2), "--rule"@));
                    assert(values_after(t1, "--ignore"@) =~= values_after(
                        args.skip(i + 2),
                        "--ignore"@,
                    ));
                } else {
                    assert(args.skip(i + 2).len() == 0);
                }
                assert(t[1] == name);
                if a == "--rule"@ {
                    assert(values_after(t, "--rule"@) =~= seq![name] + values_after(t1, "--rule"@));
                    assert(values_after(t, "--ignore"@) =~= values_after(t1, "--ignore"@));
                    assert(st.only_rules.push(name) + values_after(args.skip(i + 2), "--rule"@)
                        =~= st.only_rules + (seq![name] + values_after(args.skip(i + 2), "--rule"@)));
                } else {
                    assert(values_after(t, "--ignore"@) =~= seq![name] + values_after(
                        t1,
                        "--ignore"@,
                    ));
                    assert(values_after(t, "--rule"@) =~= values_after(t1, "--rule"@));
                    assert(st.ignore_rules.push(name) + values_after(args.skip(i + 2), "--ignore"@)
                        =~= st.ignore_rules + (seq![name] + values_after(
                        args.skip(i + 2),
                        "--ignore"@,
                    )));
                }
            }
        } else if st.path is Some {
        } else {
            lemma_scan_rule_lists(args, i + 1, ScanState { path: Some(a), ..st });
            if t.len() >= 2 {
                assert(values_after(t, "--rule"@) =~= values_after(args.skip(i + 1), "--rule"@));
                assert(values_after(t, "--ignore"@) =~= values_after(
                    args.skip(i + 1),
                    "--ignore"@,
                ));
            }
        }
    }
}

/// When the arguments ask for a run, its `only_rules` are the arguments
/// after each `--rule`, and its `ignore_rules` those after each `--ignore`,
/// all of them and in their order.
pub proof fn lemma_rule_lists(args: Seq<Seq<char>>)
    ensures
        args_spec(args) matches Ok(CommandView::Lint(o)) ==> {
            &&& o.only_rules == values_after(args, "--rule"@)
            &&& o.ignore_rules == values_after(args, "--ignore"@)
        },
{
    lemma_scan_rule_lists(args, 0, initial_state());
    assert(args.skip(0) =~= args);
    assert(Seq::<Seq<char>>::empty() + values_after(args, "--rule"@) =~= values_after(
        args,
        "--rule"@,
    ));
    assert(Seq::<Seq<char>>::empty() + values_after(args, "--ignore"@) =~= values_after(
        args,
        "--ignore"@,
    ));
}

} // verus!
