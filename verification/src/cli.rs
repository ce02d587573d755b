//! The command-line argument parser of the classifier.
use vstd::prelude::*;

use crate::external::{debug_quote, debug_quoted, string_from_chars};
use crate::text::{chars_equal, chars_of, concat_chars};

verus! {

/// What to classify, and whether to pretty-print the result.
#[derive(Debug)]
pub struct Arguments {
    pub email: String,
    pub pretty: bool,
}

/// What the command line asks for.
#[derive(Debug)]
pub enum Action {
    Classify(Arguments),
    Help,
    Version,
}

/// The contents of an action.
pub enum ActionView {
    Classify { email: Seq<char>, pretty: bool },
    Help,
    Version,
}

impl View for Action {
    type V = ActionView;

    open spec fn view(&self) -> ActionView {
        match self {
            Action::Classify(a) => ActionView::Classify { email: a.email@, pretty: a.pretty },
            Action::Help => ActionView::Help,
            Action::Version => ActionView::Version,
        }
    }
}

/// The state of the parser after some arguments: still reading, with whether
/// options are still recognized, whether `--pretty` was given and the email
/// so far; or finished with a result.
pub enum ParseState {
    Reading { options: bool, pretty: bool, email: Option<Seq<char>> },
    Finished(Result<ActionView, Seq<char>>),
}

/// The message when there is not exactly one email address.
pub open spec fn one_email_message() -> Seq<char> {
    "provide exactly one email address"@
}

/// The message for an argument that is not valid UTF-8.
pub open spec fn utf8_message() -> Seq<char> {
    "arguments must be valid UTF-8"@
}

/// One argument read in state `state` (`None` for one that is not valid
/// UTF-8, which is an error): `--` ends the options; `-h`/`--help`
/// and `-V`/`--version` finish with that action; `--pretty` turns pretty
/// printing on; another argument starting with `-` is an unknown option; any
/// other argument is the email, and a second email is an error.
pub open spec fn parse_step(state: ParseState, argument: Option<Seq<char>>) -> ParseState {
    match state {
        ParseState::Finished(r) => ParseState::Finished(r),
        ParseState::Reading { options, pretty, email } => if argument is None {
            ParseState::Finished(Err(utf8_message()))
        } else if options && argument->0 == "--"@ {
            ParseState::Reading { options: false, pretty, email }
        } else if options && (argument->0 == "-h"@ || argument->0 == "--help"@) {
            ParseState::Finished(Ok(ActionView::Help))
        } else if options && (argument->0 == "-V"@ || argument->0 == "--version"@) {
            ParseState::Finished(Ok(ActionView::Version))
        } else if options && argument->0 == "--pretty"@ {
            ParseState::Reading { options, pretty: true, email }
        } else if options && argument->0.len() > 0 && argument->0[0] == '-' {
            ParseState::Finished(Err("unknown option "@ + debug_quoted(argument->0)))
        } else if email is Some {
            ParseState::Finished(Err(one_email_message()))
        } else {
            ParseState::Reading { options, pretty, email: Some(argument->0) }
        },
    }
}

/// The state after reading `args` in order.
pub open spec fn parse_state(args: Seq<Option<Seq<char>>>) -> ParseState
    decreases args.len(),
{
    if args.len() == 0 {
        ParseState::Reading { options: true, pretty: false, email: None }
    } else {
        parse_step(parse_state(args.drop_last()), args.last())
    }
}

/// The action that `args` ask for, or the message of the error.
pub open spec fn spec_parse_arguments(args: Seq<Option<Seq<char>>>) -> Result<ActionView, Seq<char>> {
    match parse_state(args) {
        ParseState::Finished(r) => r,
        ParseState::Reading { pretty, email, .. } => match email {
            Some(e) => Ok(ActionView::Classify { email: e, pretty }),
            None => Err(one_email_message()),
        },
    }
}

proof fn lemma_finished_persists(args: Seq<Option<Seq<char>>>, k: int)
    requires
        0 <= k <= args.len(),
        parse_state(args.take(k)) is Finished,
    ensures
        parse_state(args) == parse_state(args.take(k)),
    decreases args.len() - k,
{
    if k < args.len() {
        assert(args.drop_last().take(k) =~= args.take(k));
        lemma_finished_persists(args.drop_last(), k);
    } else {
        assert(args.take(k) =~= args);
    }
}

/// The contents of the arguments.
pub open spec fn argument_views(arguments: Seq<Option<String>>) -> Seq<Option<Seq<char>>> {
    arguments.map_values(
        |a: Option<String>|
            match a {
                Some(s) => Some(s@),
                None => None,
            },
    )
}

/// Parses the command-line arguments (without the program name); `None`
/// stands for an argument that is not valid UTF-8.
pub fn parse_arguments(arguments: Vec<Option<String>>) -> (r: Result<Action, String>)
    ensures
        match r {
            Ok(a) => spec_parse_arguments(argument_views(arguments@)) == Ok::<
                ActionView,
                Seq<char>,
            >(a@),
            Err(m) => spec_parse_arguments(argument_views(arguments@)) == Err::<
                ActionView,
                Seq<char>,
            >(m@),
        },
{
    let ghost args = argument_views(arguments@);
    let mut email: Option<String> = None;
    let mut pretty = false;
    let mut parse_options = true;
    let mut i: usize = 0;
    assert(args.take(0) =~= Seq::<Option<Seq<char>>>::empty());
    while i < arguments.len()
        invariant
            i <= arguments.len(),
            args == argument_views(arguments@),
            parse_state(args.take(i as int)) == (ParseState::Reading {
                options: parse_options,
                pretty,
                email: match email {
                    Some(e) => Some(e@),
                    None => None,
                },
            }),
        decreases arguments.len() - i,
    {
        assert(args.take(i + 1).drop_last() =~= args.take(i as int));
        let text = match &arguments[i] {
            Some(text) => text,
            None => {
                proof {
                    lemma_finished_persists(args, i + 1);
                }
                return Err("arguments must be valid UTF-8".to_owned());
            },
        };
        assert(args.take(i + 1).last() == Some(text@));
        let argument = chars_of(text.as_str());
        let is_help = chars_equal(&argument, &chars_of("-h")) || chars_equal(
            &argument,
            &chars_of("--help"),
        );
        let is_version = chars_equal(&argument, &chars_of("-V")) || chars_equal(
            &argument,
            &chars_of("--version"),
        );
        if parse_options && chars_equal(&argument, &chars_of("--")) {
            parse_options = false;
        } else if parse_options && is_help {
            proof {
                lemma_finished_persists(args, i + 1);
            }
            return Ok(Action::Help);
        } else if parse_options && is_version {
            proof {
                lemma_finished_persists(args, i + 1);
            }
            return Ok(Action::Version);
        } else if parse_options && chars_equal(&argument, &chars_of("--pretty")) {
            pretty = true;
        } else if parse_options && argument.len() > 0 && argument[0] == '-' {
            let message = concat_chars(
                &chars_of("unknown option "),
                &chars_of(debug_quote(text.as_str()).as_str()),
            );
            proof {
                lemma_finished_persists(args, i + 1);
            }
            return Err(string_from_chars(&message));
        } else if email.is_some() {
            proof {
                lemma_finished_persists(args, i + 1);
            }
            return Err("provide exactly one email address".to_owned());
        } else {
            email = Some(text.as_str().to_owned());
        }
        i = i + 1;
    }
    assert(args.take(arguments.len() as int) =~= args);
    match email {
        Some(email) => Ok(Action::Classify(Arguments { email, pretty })),
        None => Err("provide exactly one email address".to_owned()),
    }
}

/// The state after reading `args` in order, starting from `state`.
pub open spec fn run_from(state: ParseState, args: Seq<Option<Seq<char>>>) -> ParseState
    decreases args.len(),
{
    if args.len() == 0 {
        state
    } else {
        parse_step(run_from(state, args.drop_last()), args.last())
    }
}

/// `state` with pretty printing turned on, where it is still reading.
pub open spec fn with_pretty(state: ParseState) -> ParseState {
    match state {
        ParseState::Reading { options, email, .. } => ParseState::Reading { options, pretty: true, email },
        ParseState::Finished(r) => ParseState::Finished(r),
    }
}

proof fn lemma_parse_state_is_run(args: Seq<Option<Seq<char>>>)
    ensures
        parse_state(args) == run_from(ParseState::Reading { options: true, pretty: false, email: None }, args),
    decreases args.len(),
{
    if args.len() > 0 {
        lemma_parse_state_is_run(args.drop_last());
    }
}

proof fn lemma_run_concat(state: ParseState, a: Seq<Option<Seq<char>>>, b: Seq<Option<Seq<char>>>)
    ensures
        run_from(state, a + b) == run_from(run_from(state, a), b),
    decreases b.len(),
{
    if b.len() == 0 {
        assert(a + b =~= a);
    } else {
        lemma_run_concat(state, a, b.drop_last());
        assert((a + b).drop_last() =~= a + b.drop_last());
        assert((a + b).last() == b.last());
    }
}

/// Turning pretty printing on before or after reading arguments makes no difference.
proof fn lemma_run_with_pretty(state: ParseState, args: Seq<Option<Seq<char>>>)
    ensures
        run_from(with_pretty(state), args) == with_pretty(run_from(state, args)),
    decreases args.len(),
{
    if args.len() > 0 {
        lemma_run_with_pretty(state, args.drop_last());
    }
}

/// Options stay recognized while no `--` has been read.
proof fn lemma_options_before_separator(args: Seq<Option<Seq<char>>>)
    requires
        forall|i: int| 0 <= i < args.len() ==> args[i] != Some("--"@),
    ensures
        parse_state(args) matches ParseState::Reading { options, .. } ==> options,
    decreases args.len(),
{
    if args.len() > 0 {
        lemma_options_before_separator(args.drop_last());
    }
}

/// Reading `--pretty` while options are recognized turns pretty printing on.
proof fn lemma_pretty_step(state: ParseState)
    requires
        state matches ParseState::Reading { options, .. } ==> options,
    ensures
        run_from(state, seq![Some("--pretty"@)]) == with_pretty(state),
{
    let p = seq![Some("--pretty"@)];
    assert(p.drop_last() =~= Seq::<Option<Seq<char>>>::empty());
    assert(p.last() == Some("--pretty"@));
    reveal_strlit("--pretty");
    reveal_strlit("--");
    reveal_strlit("-h");
    reveal_strlit("--help");
    reveal_strlit("-V");
    reveal_strlit("--version");
    assert("--pretty"@.len() == 8);
    assert("--pretty"@ != "--"@);
    assert("--pretty"@ != "-h"@);
    assert("--pretty"@ != "--help"@);
    assert("--pretty"@ != "-V"@);
    assert("--pretty"@ != "--version"@);
    assert(run_from(state, p.drop_last()) == state);
    assert(run_from(state, p) == parse_step(state, Some("--pretty"@)));
    match state {
        ParseState::Reading { options, pretty, email } => {
            assert(parse_step(state, Some("--pretty"@)) == ParseState::Reading {
                options,
                pretty: true,
                email,
            });
        },
        ParseState::Finished(r) => {},
    }
}

/// Where `--pretty` stands among the options does not matter: an argument
/// list with `--pretty` somewhere before any `--` asks for the same as the
/// list with that `--pretty` moved to the front.
pub proof fn law_pretty_position_is_irrelevant(
    before: Seq<Option<Seq<char>>>,
    after: Seq<Option<Seq<char>>>,
)
    requires
        forall|i: int| 0 <= i < before.len() ==> before[i] != Some("--"@),
    ensures
        spec_parse_arguments(before + seq![Some("--pretty"@)] + after) == spec_parse_arguments(
            seq![Some("--pretty"@)] + before + after,
        ),
{
    let p = seq![Some("--pretty"@)];
    let start = ParseState::Reading { options: true, pretty: false, email: None };
    lemma_parse_state_is_run(before + p + after);
    lemma_parse_state_is_run(p + before + after);
    lemma_parse_state_is_run(before);
    lemma_run_concat(start, before + p, after);
    lemma_run_concat(start, before, p);
    lemma_run_concat(start, p, before + after);
    assert(p + before + after =~= p + (before + after));
    lemma_run_concat(start, before, after);
    lemma_options_before_separator(before);
    lemma_pretty_step(start);
    lemma_pretty_step(run_from(start, before));
    lemma_run_with_pretty(start, before + after);
    lemma_run_with_pretty(run_from(start, before), after);
    let mid = run_from(start, before);
    assert(run_from(start, before + p) == with_pretty(mid));
    assert(parse_state(before + p + after) == with_pretty(run_from(mid, after)));
    assert(run_from(mid, after) == run_from(start, before + after));
    assert(parse_state(p + before + after) == run_from(with_pretty(start), before + after));
    assert(parse_state(before + p + after) == parse_state(p + before + after));
}

/// The parser finishes early only with help, the version or an error.
proof fn lemma_finished_is_not_classify(args: Seq<Option<Seq<char>>>)
    ensures
        parse_state(args) matches ParseState::Finished(Ok(a)) ==> !(a is Classify),
    decreases args.len(),
{
    if args.len() > 0 {
        lemma_finished_is_not_classify(args.drop_last());
    }
}

/// With `--pretty` among the options of a command line that asks to classify
/// an address, the classification is pretty-printed.
pub proof fn law_pretty_option_is_honoured(
    before: Seq<Option<Seq<char>>>,
    after: Seq<Option<Seq<char>>>,
)
    requires
        forall|i: int| 0 <= i < before.len() ==> before[i] != Some("--"@),
        spec_parse_arguments(before + seq![Some("--pretty"@)] + after) is Ok,
        spec_parse_arguments(before + seq![Some("--pretty"@)] + after)->Ok_0 is Classify,
    ensures
        spec_parse_arguments(before + seq![Some("--pretty"@)] + after)->Ok_0->Classify_pretty,
{
    law_pretty_position_is_irrelevant(before, after);
    let p = seq![Some("--pretty"@)];
    let start = ParseState::Reading { options: true, pretty: false, email: None };
    lemma_parse_state_is_run(p + before + after);
    assert(p + before + after =~= p + (before + after));
    lemma_run_concat(start, p, before + after);
    lemma_pretty_step(start);
    lemma_run_with_pretty(start, before + after);
    lemma_parse_state_is_run(before + after);
    lemma_finished_is_not_classify(before + after);
}

} // verus!
