//! The command line: the settings of a run, the commands, and the tokens
//! that declare their arguments.
//!
//! The words that set up the run may stand anywhere on the command line.
//! What is left of it are the commands, separated by `,`, then `--`, then the
//! tokens of the argument matrix.
use crate::error::ConfigError;
use crate::rules::{has_empty_value, parse_rules, parsed_rules};
use crate::sequences::lemma_pushed_row;
use crate::text::{chars_of, is_dashed, number, read_number, split, starts_with_dash};
use vstd::prelude::*;

verus! {

/// How a run is set up.
#[derive(Debug)]
pub struct Settings {
    /// How many processes may be in flight at a time; at least 1.
    pub runners: usize,
    /// Whether the commands are only shown.
    pub dry_run: bool,
    /// Whether the processes still in flight at the end are left alone.
    pub background: bool,
    /// Whether all options are taken position for position.
    pub ordered: bool,
    pub filters: Vec<Vec<String>>,
    pub allows: Vec<Vec<String>>,
    /// The command line without the words that set up the run.
    pub rest: Vec<String>,
}

/// The model of the settings.
pub struct SettingsView {
    pub runners: nat,
    pub dry_run: bool,
    pub background: bool,
    pub ordered: bool,
    pub filters: Seq<Seq<Seq<char>>>,
    pub allows: Seq<Seq<Seq<char>>>,
    pub rest: Seq<Seq<char>>,
}

impl View for Settings {
    type V = SettingsView;

    open spec fn view(&self) -> SettingsView {
        SettingsView {
            runners: self.runners as nat,
            dry_run: self.dry_run,
            background: self.background,
            ordered: self.ordered,
            filters: self.filters.deep_view(),
            allows: self.allows.deep_view(),
            rest: self.rest.deep_view(),
        }
    }
}

/// What the next argument is read as.
#[derive(Clone, Copy, Debug, PartialEq, Eq, Structural)]
pub enum Mode {
    /// A word that sets up the run, or a part of the rest.
    Plain,
    /// A filter rule, unless it begins with a dash.
    Filter,
    /// An allow rule, unless it begins with a dash.
    Allow,
    /// The number of runners.
    Runners,
}

/// The settings read so far, and what the next argument is read as.
pub struct Reading {
    pub settings: SettingsView,
    pub mode: Mode,
}

/// The settings before any argument is read: one runner, no rules, and a real
/// run in the foreground.
pub open spec fn defaults() -> SettingsView {
    SettingsView {
        runners: 1,
        dry_run: false,
        background: false,
        ordered: false,
        filters: Seq::empty(),
        allows: Seq::empty(),
        rest: Seq::empty(),
    }
}

/// The number that `arg` writes as a count: decimal digits, which a `+` may
/// precede, for a number no greater than `limit`.
pub open spec fn count_written(arg: Seq<char>, limit: nat) -> Option<nat> {
    if arg.len() > 0 && arg[0] == '+' {
        number(arg.skip(1), limit)
    } else {
        number(arg, limit)
    }
}

/// The reading after the word `arg`, which is no rule and no number.
pub open spec fn read_word(settings: SettingsView, arg: Seq<char>) -> Reading {
    if arg == "--dry-runner"@ {
        Reading { settings: SettingsView { dry_run: true, ..settings }, mode: Mode::Plain }
    } else if arg == "--runners"@ {
        Reading { settings, mode: Mode::Runners }
    } else if arg == "--bg-runner"@ {
        Reading { settings: SettingsView { background: true, ..settings }, mode: Mode::Plain }
    } else if arg == "--filter-runs"@ {
        Reading { settings, mode: Mode::Filter }
    } else if arg == "--allow-runs"@ {
        Reading { settings, mode: Mode::Allow }
    } else if arg == "--ordered-runner"@ {
        Reading { settings: SettingsView { ordered: true, ..settings }, mode: Mode::Plain }
    } else {
        Reading {
            settings: SettingsView { rest: settings.rest.push(arg), ..settings },
            mode: Mode::Plain,
        }
    }
}

/// The reading after the argument `arg`.
///
/// After `--filter-runs` and after `--allow-runs` every argument is a rule of
/// that kind, up to the first that begins with a dash, which is read as a
/// word. After `--runners` the argument is the number of runners, which is at
/// least 1.
pub open spec fn read_arg(reading: Reading, arg: Seq<char>) -> Result<Reading, ConfigError> {
    let settings = reading.settings;
    match reading.mode {
        Mode::Runners => match count_written(arg, usize::MAX as nat) {
            None => Err(ConfigError::RunnersNotANumber),
            Some(n) => if n == 0 {
                Err(ConfigError::RunnersZero)
            } else {
                Ok(Reading { settings: SettingsView { runners: n, ..settings }, mode: Mode::Plain })
            },
        },
        Mode::Filter => if is_dashed(arg) {
            Ok(read_word(settings, arg))
        } else if has_empty_value(arg) {
            Err(ConfigError::EmptyRuleValue)
        } else {
            Ok(
                Reading {
                    settings: SettingsView {
                        filters: settings.filters + parsed_rules(arg),
                        ..settings
                    },
                    mode: Mode::Filter,
                },
            )
        },
        Mode::Allow => if is_dashed(arg) {
            Ok(read_word(settings, arg))
        } else if has_empty_value(arg) {
            Err(ConfigError::EmptyRuleValue)
        } else {
            Ok(
                Reading {
                    settings: SettingsView { allows: settings.allows + parsed_rules(arg), ..settings },
                    mode: Mode::Allow,
                },
            )
        },
        Mode::Plain => Ok(read_word(settings, arg)),
    }
}

/// The reading after the arguments `args`, or the first error among them.
pub open spec fn read_args(args: Seq<Seq<char>>) -> Result<Reading, ConfigError>
    decreases args.len(),
{
    if args.len() == 0 {
        Ok(Reading { settings: defaults(), mode: Mode::Plain })
    } else {
        match read_args(args.drop_last()) {
            Ok(reading) => read_arg(reading, args.last()),
            Err(e) => Err(e),
        }
    }
}

/// The settings that the arguments `args` give.
pub open spec fn settings_of(args: Seq<Seq<char>>) -> Result<SettingsView, ConfigError> {
    match read_args(args) {
        Ok(reading) => Ok(reading.settings),
        Err(e) => Err(e),
    }
}

/// An error among the first arguments is the error of all of them.
pub proof fn lemma_read_error_stays(args: Seq<Seq<char>>, n: int)
    requires
        0 <= n <= args.len(),
        read_args(args.take(n)) is Err,
    ensures
        read_args(args) == read_args(args.take(n)),
    decreases args.len(),
{
    if n == args.len() {
        assert(args.take(n) =~= args);
    } else {
        assert(args.drop_last().take(n) =~= args.take(n));
        lemma_read_error_stays(args.drop_last(), n);
    }
}

/// The index of the first token at or after `from` that is `word`, or the
/// number of tokens where there is none.
pub open spec fn next_word(tokens: Seq<Seq<char>>, word: Seq<char>, from: int) -> int
    decreases tokens.len() - from,
{
    if from < 0 || from >= tokens.len() {
        tokens.len() as int
    } else if tokens[from] == word {
        from
    } else {
        next_word(tokens, word, from + 1)
    }
}

/// The commands on the command line `rest`: the tokens before the first `--`,
/// cut at every `,`. Without a `--` what follows the last `,` is no command.
pub open spec fn commands_of(rest: Seq<Seq<char>>) -> Seq<Seq<Seq<char>>> {
    let end = next_word(rest, "--"@, 0);
    let groups = split(rest.take(end), ","@);
    if end < rest.len() {
        groups
    } else {
        groups.drop_last()
    }
}

/// The tokens of the argument matrix on the command line `rest`: those after
/// the first `--`.
pub open spec fn tail_of(rest: Seq<Seq<char>>) -> Seq<Seq<char>> {
    let end = next_word(rest, "--"@, 0);
    if end < rest.len() {
        rest.skip(end + 1)
    } else {
        Seq::empty()
    }
}

/// Cuts the command line `rest` into the commands and the tokens of the
/// argument matrix.
pub fn split_commands(rest: &Vec<String>) -> (r: (Vec<Vec<String>>, Vec<String>))
    ensures
        r.0.deep_view() == commands_of(rest.deep_view()),
        r.1.deep_view() == tail_of(rest.deep_view()),
{
    let ghost all = rest.deep_view();
    let mut end: usize = 0;
    while end < rest.len() && !is_word(&rest[end], "--")
        invariant
            all == rest.deep_view(),
            end <= rest.len(),
            next_word(all, "--"@, 0) == next_word(all, "--"@, end as int),
        decreases rest.len() - end,
    {
        assert(all[end as int] == rest[end as int]@);
        end += 1;
    }
    proof {
        if end < rest.len() {
            assert(all[end as int] == rest[end as int]@);
        }
        assert(next_word(all, "--"@, 0) == end);
    }
    let ghost head = all.take(end as int);
    let mut commands: Vec<Vec<String>> = Vec::new();
    let mut current: Vec<String> = Vec::new();
    let mut at: usize = 0;
    proof {
        assert(head.take(0) =~= Seq::empty());
        assert(commands.deep_view() =~= Seq::empty());
        assert(current.deep_view() =~= Seq::empty());
        assert(commands.deep_view().push(current.deep_view()) =~= seq![Seq::empty()]);
    }
    while at < end
        invariant
            all == rest.deep_view(),
            head == all.take(end as int),
            at <= end <= rest.len(),
            split(head.take(at as int), ","@) == commands.deep_view().push(current.deep_view()),
        decreases end - at,
    {
        let ghost done = commands.deep_view();
        let ghost piece = current.deep_view();
        proof {
            assert(all[at as int] == rest[at as int]@);
            assert(head.take(at + 1).drop_last() =~= head.take(at as int));
            assert(head.take(at + 1).last() == rest[at as int]@);
        }
        if is_word(&rest[at], ",") {
            let ghost earlier = commands;
            commands.push(current);
            proof {
                lemma_pushed_row(earlier, commands, current);
            }
            current = Vec::new();
            assert(current.deep_view() =~= Seq::empty());
        } else {
            let word = rest[at].clone();
            let ghost earlier = current;
            current.push(word);
            proof {
                lemma_pushed_row(earlier, current, word);
                assert(done.push(piece).drop_last() =~= done);
            }
        }
        at += 1;
    }
    assert(head.take(end as int) =~= head);
    let mut tail: Vec<String> = Vec::new();
    if end < rest.len() {
        let ghost earlier = commands;
        commands.push(current);
        proof {
            lemma_pushed_row(earlier, commands, current);
        }
        tail = crate::matrix::copy_range(rest, end + 1, rest.len());
        assert(all.subrange(end + 1, rest.len() as int) =~= all.skip(end + 1));
    } else {
        assert(commands.deep_view().push(current.deep_view()).drop_last()
            =~= commands.deep_view());
        assert(tail.deep_view() =~= Seq::empty());
    }
    (commands, tail)
}

/// Whether `arg` is the word `word`.
fn is_word(arg: &String, word: &str) -> (r: bool)
    ensures
        r == (arg@ == word@),
{
    let wanted = String::from_str(word);
    *arg == wanted
}

/// The number that `arg` writes as a count no greater than `usize::MAX`.
pub fn read_count(arg: &str) -> (r: Option<usize>)
    ensures
        r is Some <==> count_written(arg@, usize::MAX as nat) is Some,
        r matches Some(n) ==> count_written(arg@, usize::MAX as nat) == Some(n as nat),
{
    let chars = chars_of(arg);
    let from: usize = if chars.len() > 0 && chars[0] == '+' {
        1
    } else {
        0
    };
    proof {
        assert(chars@.subrange(from as int, chars.len() as int) =~= if from == 1 {
            arg@.skip(1)
        } else {
            arg@
        });
    }
    match read_number(&chars, from, chars.len(), usize::MAX as u64) {
        Some(n) => Some(n as usize),
        None => None,
    }
}

/// Reads the settings of a run from the arguments `args` of the program.
pub fn parse_args(args: &Vec<String>) -> (r: Result<Settings, ConfigError>)
    ensures
        match r {
            Ok(settings) => settings_of(args.deep_view()) == Ok::<SettingsView, ConfigError>(
                settings@,
            ) && settings.runners >= 1,
            Err(e) => settings_of(args.deep_view()) == Err::<SettingsView, ConfigError>(e),
        },
{
    let ghost all = args.deep_view();
    let mut settings = Settings {
        runners: 1,
        dry_run: false,
        background: false,
        ordered: false,
        filters: Vec::new(),
        allows: Vec::new(),
        rest: Vec::new(),
    };
    let mut mode = Mode::Plain;
    let mut at: usize = 0;
    proof {
        assert(all.take(0) =~= Seq::empty());
        assert(settings.filters.deep_view() =~= Seq::empty());
        assert(settings.allows.deep_view() =~= Seq::empty());
        assert(settings.rest.deep_view() =~= Seq::empty());
    }
    while at < args.len()
        invariant
            all == args.deep_view(),
            at <= args.len(),
            settings.runners >= 1,
            read_args(all.take(at as int)) == Ok::<Reading, ConfigError>(
                Reading { settings: settings@, mode },
            ),
        decreases args.len() - at,
    {
        let arg = &args[at];
        let ghost before = settings@;
        proof {
            assert(all[at as int] == arg@);
            assert(all.take(at + 1).drop_last() =~= all.take(at as int));
            assert(all.take(at + 1).last() == arg@);
        }
        let rule = match mode {
            Mode::Filter => !starts_with_dash(arg.as_str()),
            Mode::Allow => !starts_with_dash(arg.as_str()),
            _ => false,
        };
        let ghost next = read_arg(Reading { settings: before, mode }, arg@);
        assert(read_args(all.take(at + 1)) == next);
        match mode {
            Mode::Runners => {
                match read_count(arg.as_str()) {
                    None => {
                        proof {
                            lemma_read_error_stays(all, at + 1);
                        }
                        return Err(ConfigError::RunnersNotANumber);
                    },
                    Some(n) => {
                        if n == 0 {
                            proof {
                                lemma_read_error_stays(all, at + 1);
                            }
                            return Err(ConfigError::RunnersZero);
                        }
                        settings.runners = n;
                        mode = Mode::Plain;
                    },
                }
            },
            Mode::Filter if rule => {
                match parse_rules(arg.as_str(), &mut settings.filters) {
                    Ok(()) => {},
                    Err(e) => {
                        proof {
                            lemma_read_error_stays(all, at + 1);
                        }
                        return Err(e);
                    },
                }
            },
            Mode::Allow if rule => {
                match parse_rules(arg.as_str(), &mut settings.allows) {
                    Ok(()) => {},
                    Err(e) => {
                        proof {
                            lemma_read_error_stays(all, at + 1);
                        }
                        return Err(e);
                    },
                }
            },
            _ => {
                assert(next == Ok::<Reading, ConfigError>(read_word(before, arg@)));
                if is_word(arg, "--dry-runner") {
                    settings.dry_run = true;
                    mode = Mode::Plain;
                } else if is_word(arg, "--runners") {
                    mode = Mode::Runners;
                } else if is_word(arg, "--bg-runner") {
                    settings.background = true;
                    mode = Mode::Plain;
                } else if is_word(arg, "--filter-runs") {
                    mode = Mode::Filter;
                } else if is_word(arg, "--allow-runs") {
                    mode = Mode::Allow;
                } else if is_word(arg, "--ordered-runner") {
                    settings.ordered = true;
                    mode = Mode::Plain;
                } else {
                    let word = arg.clone();
                    let ghost earlier = settings.rest;
                    settings.rest.push(word);
                    proof {
                        lemma_pushed_row(earlier, settings.rest, word);
                    }
                    mode = Mode::Plain;
                }
            },
        }
        at += 1;
    }
    assert(all.take(at as int) =~= all);
    Ok(settings)
}

} // verus!
