//! Reading the arguments of `#[mqtt_topic(...)]`: the topic pattern, the
//! optional `subscriber` / `publisher` flags and `serializer = Type`.
use vstd::prelude::*;

use crate::cache_strategy::CacheStrategy;
use crate::text::{append_chars, owned_string};
use crate::topic_pattern_item::{pattern_error_message, ItemView, PatternErrorView};
use crate::topic_pattern_path::{pattern_parse, PatternView, TopicPatternPath};

verus! {

/// The left side of a `name = value` argument.
#[derive(Debug, Clone, Copy, PartialEq, Eq, Structural)]
pub enum AssignTarget {
    /// Not a path.
    NotPath,
    /// A path: whether it is exactly the identifier `serializer`.
    Path {
        /// The path is the identifier `serializer`.
        is_serializer: bool,
    },
}

/// What the macro reads of one argument.
#[derive(Debug, Clone, PartialEq, Eq)]
pub enum MacroArg {
    /// A string literal, with its text.
    Str(String),
    /// A path: its identifier when the path is a single identifier.
    Path(Option<String>),
    /// `left = right`, and whether `right` is a path.
    Assign {
        /// The left side.
        left: AssignTarget,
        /// The right side is a path.
        right_is_path: bool,
    },
    /// Any other expression.
    Other,
}

/// The mathematical content of a [`MacroArg`].
pub enum ArgView {
    Str(Seq<char>),
    Path(Option<Seq<char>>),
    Assign(AssignTarget, bool),
    Other,
}

impl View for MacroArg {
    type V = ArgView;

    open spec fn view(&self) -> ArgView {
        match self {
            MacroArg::Str(s) => ArgView::Str(s@),
            MacroArg::Path(p) => ArgView::Path(
                match p {
                    Some(s) => Some(s@),
                    None => None,
                },
            ),
            MacroArg::Assign { left, right_is_path } => ArgView::Assign(*left, *right_is_path),
            MacroArg::Other => ArgView::Other,
        }
    }
}

/// Where the error of the argument reading points.
#[derive(Debug, Clone, Copy, PartialEq, Eq, Structural)]
pub enum ArgSpan {
    /// The macro invocation.
    CallSite,
    /// The argument at this position.
    Arg(usize),
    /// The left side of the `=` argument at this position.
    AssignLeft(usize),
    /// The right side of the `=` argument at this position.
    AssignRight(usize),
}

/// Rejected arguments: where the error points and what it says.
#[derive(Debug, Clone, PartialEq, Eq)]
pub struct MacroArgsError {
    /// Where the error points.
    pub span: ArgSpan,
    /// What it says.
    pub message: String,
}

/// The configuration that the arguments give.
#[derive(Debug)]
pub struct MacroArgs {
    /// The topic pattern.
    pub pattern: TopicPatternPath,
    /// Generate the subscriber side.
    pub generate_subscriber: bool,
    /// Generate the publisher side.
    pub generate_publisher: bool,
    /// Generate the typed client.
    pub generate_typed_client: bool,
    /// Generate the last-will helpers.
    pub generate_last_will: bool,
    /// The `serializer = Type` argument, by position.
    pub custom_serializer: Option<usize>,
}

/// The mathematical content of a [`MacroArgs`].
pub struct ArgsView {
    pub pattern: PatternView,
    pub generate_subscriber: bool,
    pub generate_publisher: bool,
    pub generate_typed_client: bool,
    pub generate_last_will: bool,
    pub custom_serializer: Option<int>,
}

impl View for MacroArgs {
    type V = ArgsView;

    open spec fn view(&self) -> ArgsView {
        ArgsView {
            pattern: self.pattern@,
            generate_subscriber: self.generate_subscriber,
            generate_publisher: self.generate_publisher,
            generate_typed_client: self.generate_typed_client,
            generate_last_will: self.generate_last_will,
            custom_serializer: match self.custom_serializer {
                Some(i) => Some(i as int),
                None => None,
            },
        }
    }
}

/// The mode flags and serializer read so far.
pub struct ArgScan {
    /// The flags in order: `true` for `subscriber`, `false` for `publisher`.
    pub modes: Seq<bool>,
    pub serializer: Option<int>,
}

pub open spec fn serializer_path_message() -> Seq<char> {
    "Serializer must be a simple type path (e.g. `JsonSerializer`). For a generic serializer, declare a type alias first: `type MySer = MySerializer<Foo>;` then use `serializer = MySer`."@
}

pub open spec fn unknown_parameter_message() -> Seq<char> {
    "Unknown attribute parameter. Only 'serializer' is supported"@
}

pub open spec fn invalid_syntax_message() -> Seq<char> {
    "Invalid attribute syntax"@
}

pub open spec fn invalid_argument_message() -> Seq<char> {
    "Invalid argument. Supported: 'subscriber', 'publisher', or 'serializer = Type'"@
}

/// The argument at position `i` after the pattern.
pub open spec fn arg_step(st: ArgScan, a: ArgView, i: int) -> Result<ArgScan, (ArgSpan, Seq<char>)> {
    match a {
        ArgView::Path(Some(id)) => if id == "subscriber"@ {
            Ok(ArgScan { modes: st.modes.push(true), ..st })
        } else if id == "publisher"@ {
            Ok(ArgScan { modes: st.modes.push(false), ..st })
        } else {
            Err((ArgSpan::Arg(i as usize), invalid_argument_message()))
        },
        ArgView::Assign(left, right_is_path) => match left {
            AssignTarget::NotPath => Err((ArgSpan::AssignLeft(i as usize), invalid_syntax_message())),
            AssignTarget::Path { is_serializer } => if !is_serializer {
                Err((ArgSpan::AssignLeft(i as usize), unknown_parameter_message()))
            } else if !right_is_path {
                Err((ArgSpan::AssignRight(i as usize), serializer_path_message()))
            } else {
                Ok(ArgScan { serializer: Some(i), ..st })
            },
        },
        _ => Err((ArgSpan::Arg(i as usize), invalid_argument_message())),
    }
}

/// The arguments after the pattern, up to position `n`, in order; the scan
/// stops at the first error.
pub open spec fn scan_args(args: Seq<ArgView>, n: int) -> Result<ArgScan, (ArgSpan, Seq<char>)>
    decreases n,
{
    if n <= 1 {
        Ok(ArgScan { modes: Seq::empty(), serializer: None })
    } else {
        match scan_args(args, n - 1) {
            Err(e) => Err(e),
            Ok(st) => arg_step(st, args[n - 1], n - 1),
        }
    }
}

/// The message for a publisher asked for a pattern with `#`.
pub open spec fn publisher_hash_message(template: Seq<char>) -> Seq<char> {
    "Cannot generate publisher methods for patterns with '#' wildcards.\n\nSolutions:\n• Use subscriber-only mode: #[mqtt_topic(\""@
        + template
        + "\", subscriber)]\n• Create separate structs for different purposes:\n\n#[mqtt_topic(\""@
        + template
        + "\", subscriber)]\nstruct EventReceived { /* fields */ }\n\n#[mqtt_topic(\"events/{category}\", publisher)]\nstruct EventToSend { /* fields */ }\n\nWhy: Publishers need concrete topic strings, but '#' represents \nvariable-length paths that cannot be determined at compile time."@
}

/// What the arguments give.
pub open spec fn macro_args_result(args: Seq<ArgView>) -> Result<ArgsView, (ArgSpan, Seq<char>)> {
    if args.len() == 0 {
        Err((ArgSpan::CallSite, "mqtt_topic macro requires at least a topic pattern string"@))
    } else {
        match args[0] {
            ArgView::Str(p) => match pattern_parse(p) {
                Err(e) => Err((ArgSpan::Arg(0), "Invalid topic pattern: "@ + pattern_error_message(e))),
                Ok(items) => match scan_args(args, args.len() as int) {
                    Err(e) => Err(e),
                    Ok(st) => {
                        let sub = st.modes.len() == 0 || st.modes.contains(true);
                        let publ = st.modes.len() == 0 || st.modes.contains(false);
                        if st.modes.len() > 2 {
                            Err(
                                (
                                    ArgSpan::CallSite,
                                    "Too many arguments. Only 'subscriber' and 'publisher' flags are allowed"@,
                                ),
                            )
                        } else if !(sub || publ) {
                            Err((ArgSpan::CallSite, "At least one of 'subscriber' or 'publisher' must be enabled"@))
                        } else if publ && items.len() > 0 && items.last() is Hash {
                            Err((ArgSpan::Arg(0), publisher_hash_message(p)))
                        } else {
                            Ok(
                                ArgsView {
                                    pattern: PatternView { template: p, items: items, bindings: None },
                                    generate_subscriber: sub,
                                    generate_publisher: publ,
                                    generate_typed_client: true,
                                    generate_last_will: publ,
                                    custom_serializer: st.serializer,
                                },
                            )
                        }
                    },
                },
            },
            _ => Err((ArgSpan::Arg(0), "First argument must be a string literal containing the topic pattern"@)),
        }
    }
}

proof fn lemma_scan_args_error_persists(args: Seq<ArgView>, k: int, n: int)
    requires
        1 <= k <= n,
        scan_args(args, k) is Err,
    ensures
        scan_args(args, n) == scan_args(args, k),
    decreases n - k,
{
    if k < n {
        lemma_scan_args_error_persists(args, k, n - 1);
    }
}

fn err(span: ArgSpan, message: &str) -> (r: MacroArgsError)
    ensures
        r.span == span,
        r.message@ == message@,
{
    MacroArgsError { span, message: owned_string(message) }
}

fn text_is(s: &String, t: &str) -> (r: bool)
    ensures
        r == (s@ == t@),
{
    let o = owned_string(t);
    crate::text::string_eq(s, &o)
}

/// Some argument after the pattern, before position `n`, is the flag `flag`.
pub open spec fn has_flag(args: Seq<ArgView>, n: int, flag: Seq<char>) -> bool {
    exists|k: int| 1 <= k < n && #[trigger] args[k] == ArgView::Path(Some(flag))
}

proof fn lemma_scan_modes(args: Seq<ArgView>, n: int)
    requires
        n <= args.len(),
        scan_args(args, n) is Ok,
    ensures
        scan_args(args, n)->Ok_0.modes.contains(true) <==> has_flag(args, n, "subscriber"@),
        scan_args(args, n)->Ok_0.modes.contains(false) <==> has_flag(args, n, "publisher"@),
    decreases n,
{
    reveal_strlit("subscriber");
    reveal_strlit("publisher");
    if n <= 1 {
        assert(!has_flag(args, n, "subscriber"@));
        assert(!has_flag(args, n, "publisher"@));
    } else {
        lemma_scan_modes(args, n - 1);
        let st = scan_args(args, n - 1)->Ok_0;
        let a = args[n - 1];
        let st2 = scan_args(args, n)->Ok_0;
        assert(st2 == arg_step(st, a, n - 1)->Ok_0);
        assert(has_flag(args, n, "publisher"@) == (has_flag(args, n - 1, "publisher"@) || args[n - 1]
            == ArgView::Path(Some("publisher"@)))) by {
            if args[n - 1] == ArgView::Path(Some("publisher"@)) {
                assert(args[n - 1] == ArgView::Path(Some("publisher"@)));
            }
        }
        assert(has_flag(args, n, "subscriber"@) == (has_flag(args, n - 1, "subscriber"@) || args[n - 1]
            == ArgView::Path(Some("subscriber"@)))) by {
            if args[n - 1] == ArgView::Path(Some("subscriber"@)) {
                assert(args[n - 1] == ArgView::Path(Some("subscriber"@)));
            }
        }
        assert("subscriber"@ != "publisher"@) by {
            assert("subscriber"@.len() != "publisher"@.len());
        }
        if has_flag(args, n, "subscriber"@) && !has_flag(args, n - 1, "subscriber"@) {
            let k = choose|k: int| 1 <= k < n && #[trigger] args[k] == ArgView::Path(Some("subscriber"@));
            assert(k == n - 1);
        }
        if has_flag(args, n, "publisher"@) && !has_flag(args, n - 1, "publisher"@) {
            let k = choose|k: int| 1 <= k < n && #[trigger] args[k] == ArgView::Path(Some("publisher"@));
            assert(k == n - 1);
        }
        if has_flag(args, n - 1, "subscriber"@) {
            let k = choose|k: int| 1 <= k < n - 1 && #[trigger] args[k] == ArgView::Path(Some("subscriber"@));
            assert(args[k] == ArgView::Path(Some("subscriber"@)));
        }
        if has_flag(args, n - 1, "publisher"@) {
            let k = choose|k: int| 1 <= k < n - 1 && #[trigger] args[k] == ArgView::Path(Some("publisher"@));
            assert(args[k] == ArgView::Path(Some("publisher"@)));
        }
        match a {
            ArgView::Path(Some(id)) => {
                if id == "subscriber"@ {
                    assert(st2.modes == st.modes.push(true));
                    assert(st2.modes.last() == true);
                    assert(args[n - 1] == ArgView::Path(Some("subscriber"@)));
                    assert(st.modes.contains(false) ==> st2.modes.contains(false)) by {
                        if st.modes.contains(false) {
                            let x = choose|x: int| 0 <= x < st.modes.len() && st.modes[x] == false;
                            assert(st2.modes[x] == false);
                        }
                    }
                    assert(st2.modes.contains(false) ==> st.modes.contains(false)) by {
                        if st2.modes.contains(false) {
                            let x = choose|x: int| 0 <= x < st2.modes.len() && st2.modes[x] == false;
                            assert(st.modes[x] == false);
                        }
                    }
                } else {
                    assert(st2.modes == st.modes.push(false));
                    assert(id == "publisher"@);
                    assert(st2.modes.last() == false);
                    assert(args[n - 1] == ArgView::Path(Some("publisher"@)));
                    assert(st.modes.contains(true) ==> st2.modes.contains(true)) by {
                        if st.modes.contains(true) {
                            let x = choose|x: int| 0 <= x < st.modes.len() && st.modes[x] == true;
                            assert(st2.modes[x] == true);
                        }
                    }
                    assert(st2.modes.contains(true) ==> st.modes.contains(true)) by {
                        if st2.modes.contains(true) {
                            let x = choose|x: int| 0 <= x < st2.modes.len() && st2.modes[x] == true;
                            assert(st.modes[x] == true);
                        }
                    }
                }
            },
            _ => {
                assert(st2.modes == st.modes);
            },
        }
    }
}

/// What accepted macro arguments configure: the subscriber side is
/// generated when `subscriber` is given or no `publisher` flag is, the
/// publisher side when `publisher` is given or no `subscriber` flag is; at
/// least one side is generated; last-will helpers come exactly with the
/// publisher side, which a pattern ending in `#` never gets; the typed client
/// is always asked for, and the pattern is the text of the first argument.
pub proof fn lemma_macro_args_configuration(args: Seq<ArgView>)
    requires
        macro_args_result(args) is Ok,
    ensures
        ({
            let v = macro_args_result(args)->Ok_0;
            let sub = has_flag(args, args.len() as int, "subscriber"@);
            let publ = has_flag(args, args.len() as int, "publisher"@);
            &&& v.generate_subscriber == (sub || !publ)
            &&& v.generate_publisher == (publ || !sub)
            &&& v.generate_subscriber || v.generate_publisher
            &&& v.generate_last_will == v.generate_publisher
            &&& v.generate_typed_client
            &&& v.generate_publisher ==> !(v.pattern.items.len() > 0 && v.pattern.items.last() is Hash)
            &&& args[0] matches ArgView::Str(p) && v.pattern.template == p
        }),
{
    lemma_scan_modes(args, args.len() as int);
    let st = scan_args(args, args.len() as int)->Ok_0;
    if st.modes.len() == 0 {
        assert(!st.modes.contains(true));
        assert(!st.modes.contains(false));
    }
}

/// Reads the macro arguments: a pattern string first, then any of
/// `subscriber`, `publisher` and `serializer = Type`. Without flags both
/// sides are generated; the publisher side is refused for patterns that end
/// with `#`.
pub fn parse_macro_args(args: &[MacroArg]) -> (r: Result<MacroArgs, MacroArgsError>)
    ensures
        match macro_args_result(args@.map_values(|a: MacroArg| a@)) {
            Ok(v) => r is Ok && r->Ok_0@ == v,
            Err(e) => r is Err && r->Err_0.span == e.0 && r->Err_0.message@ == e.1,
        },
        r matches Ok(m) ==> m.generate_last_will == m.generate_publisher && (m.generate_subscriber
            || m.generate_publisher) && m.generate_typed_client,
{
    let ghost av = args@.map_values(|a: MacroArg| a@);
    proof {
        if macro_args_result(av) is Ok {
            lemma_macro_args_configuration(av);
        }
    }
    if args.len() == 0 {
        return Err(err(ArgSpan::CallSite, "mqtt_topic macro requires at least a topic pattern string"));
    }
    assert(av[0] == args@[0]@);
    let text = match &args[0] {
        MacroArg::Str(s) => s,
        _ => {
            return Err(
                err(ArgSpan::Arg(0), "First argument must be a string literal containing the topic pattern"),
            );
        },
    };
    let pattern = match TopicPatternPath::new_from_string(text.as_str(), CacheStrategy::NoCache) {
        Ok(p) => p,
        Err(e) => {
            let mut msg = owned_string("Invalid topic pattern: ");
            let m = e.message();
            append_chars(&mut msg, m.as_str());
            return Err(MacroArgsError { span: ArgSpan::Arg(0), message: msg });
        },
    };
    let mut modes: Vec<bool> = Vec::new();
    let mut custom_serializer: Option<usize> = None;
    let mut i: usize = 1;
    while i < args.len()
        invariant
            1 <= i <= args.len(),
            av == args@.map_values(|a: MacroArg| a@),
            scan_args(av, i as int) == Ok::<ArgScan, (ArgSpan, Seq<char>)>(
                ArgScan {
                    modes: modes@,
                    serializer: match custom_serializer {
                        Some(k) => Some(k as int),
                        None => None,
                    },
                },
            ),
            av[0] == ArgView::Str(text@),
            pattern_parse(text@) == Ok::<Seq<ItemView>, PatternErrorView>(pattern@.items),
            pattern@.template == text@,
            pattern@.bindings is None,
        decreases args.len() - i,
    {
        assert(av[i as int] == args@[i as int]@);
        match &args[i] {
            MacroArg::Path(Some(id)) => {
                if text_is(id, "subscriber") {
                    modes.push(true);
                } else if text_is(id, "publisher") {
                    modes.push(false);
                } else {
                    proof {
                        lemma_scan_args_error_persists(av, i + 1, av.len() as int);
                    }
                    return Err(err(ArgSpan::Arg(i), "Invalid argument. Supported: 'subscriber', 'publisher', or 'serializer = Type'"));
                }
            },
            MacroArg::Assign { left, right_is_path } => {
                match left {
                    AssignTarget::NotPath => {
                        proof {
                            lemma_scan_args_error_persists(av, i + 1, av.len() as int);
                        }
                        return Err(err(ArgSpan::AssignLeft(i), "Invalid attribute syntax"));
                    },
                    AssignTarget::Path { is_serializer } => {
                        if !*is_serializer {
                            proof {
                                lemma_scan_args_error_persists(av, i + 1, av.len() as int);
                            }
                            return Err(
                                err(ArgSpan::AssignLeft(i), "Unknown attribute parameter. Only 'serializer' is supported"),
                            );
                        }
                        if !*right_is_path {
                            proof {
                                lemma_scan_args_error_persists(av, i + 1, av.len() as int);
                            }
                            return Err(
                                err(
                                    ArgSpan::AssignRight(i),
                                    "Serializer must be a simple type path (e.g. `JsonSerializer`). For a generic serializer, declare a type alias first: `type MySer = MySerializer<Foo>;` then use `serializer = MySer`.",
                                ),
                            );
                        }
                        custom_serializer = Some(i);
                    },
                }
            },
            _ => {
                proof {
                    lemma_scan_args_error_persists(av, i + 1, av.len() as int);
                }
                return Err(err(ArgSpan::Arg(i), "Invalid argument. Supported: 'subscriber', 'publisher', or 'serializer = Type'"));
            },
        }
        i += 1;
    }
    if modes.len() > 2 {
        return Err(err(ArgSpan::CallSite, "Too many arguments. Only 'subscriber' and 'publisher' flags are allowed"));
    }
    let mut generate_subscriber = true;
    let mut generate_publisher = true;
    if modes.len() > 0 {
        generate_subscriber = modes_hold(&modes, true);
        generate_publisher = modes_hold(&modes, false);
    }
    if !(generate_subscriber || generate_publisher) {
        return Err(err(ArgSpan::CallSite, "At least one of 'subscriber' or 'publisher' must be enabled"));
    }
    if generate_publisher && pattern.contains_hash() {
        let template = pattern.topic_pattern();
        let mut msg = owned_string(
            "Cannot generate publisher methods for patterns with '#' wildcards.\n\nSolutions:\n• Use subscriber-only mode: #[mqtt_topic(\"",
        );
        append_chars(&mut msg, template.as_str());
        append_chars(
            &mut msg,
            "\", subscriber)]\n• Create separate structs for different purposes:\n\n#[mqtt_topic(\"",
        );
        append_chars(&mut msg, template.as_str());
        append_chars(
            &mut msg,
            "\", subscriber)]\nstruct EventReceived { /* fields */ }\n\n#[mqtt_topic(\"events/{category}\", publisher)]\nstruct EventToSend { /* fields */ }\n\nWhy: Publishers need concrete topic strings, but '#' represents \nvariable-length paths that cannot be determined at compile time.",
        );
        return Err(MacroArgsError { span: ArgSpan::Arg(0), message: msg });
    }
    Ok(
        MacroArgs {
            pattern,
            generate_subscriber,
            generate_publisher,
            generate_typed_client: true,
            generate_last_will: generate_publisher,
            custom_serializer,
        },
    )
}

/// Whether `flag` occurs among the flags.
fn modes_hold(modes: &Vec<bool>, flag: bool) -> (r: bool)
    ensures
        r == modes@.contains(flag),
{
    let mut i: usize = 0;
    while i < modes.len()
        invariant
            i <= modes.len(),
            forall|j: int| 0 <= j < i ==> modes@[j] != flag,
        decreases modes.len() - i,
    {
        if modes[i] == flag {
            assert(modes@[i as int] == flag);
            return true;
        }
        i += 1;
    }
    false
}

} // verus!
