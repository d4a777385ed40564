//! Command-line parsing: the top-level command word and the flag map that
//! the individual commands read their options from.

use vstd::prelude::*;

use crate::text::split_ws_seq;
use crate::text::split_ws_str;
use crate::text::str_eq;
use crate::text::to_owned_str;

verus! {

/// A parsed top-level command with its remaining arguments.
pub enum Command {
    Spawn(Vec<String>),
    Add(Vec<String>),
    Remove(Vec<String>),
    List,
    Version,
}

/// Spec mirror of `Command`.
pub ghost enum CommandV {
    Spawn(Seq<Seq<char>>),
    Add(Seq<Seq<char>>),
    Remove(Seq<Seq<char>>),
    List,
    Version,
}

impl View for Command {
    type V = CommandV;

    open spec fn view(&self) -> CommandV {
        match self {
            Command::Spawn(args) => CommandV::Spawn(args.deep_view()),
            Command::Add(args) => CommandV::Add(args.deep_view()),
            Command::Remove(args) => CommandV::Remove(args.deep_view()),
            Command::List => CommandV::List,
            Command::Version => CommandV::Version,
        }
    }
}

/// Why a command line could not be parsed.
#[derive(Debug)]
pub enum CommandBuildError {
    NotRecognisedCommand,
    NotEnoughArgsIntroduced,
}

/// The command a whitespace-tokenized line names: the first token picks
/// the command, the remaining tokens are its arguments.  An empty line
/// yields `NotEnoughArgsIntroduced`; an unknown first token yields
/// `NotRecognisedCommand`.
pub open spec fn spec_parse_command(s: Seq<char>) -> Result<CommandV, CommandBuildError> {
    let toks = split_ws_seq(s);
    if toks.len() == 0 {
        Result::Err(CommandBuildError::NotEnoughArgsIntroduced)
    } else if toks[0] == "spawn"@ {
        Result::Ok(CommandV::Spawn(toks.skip(1)))
    } else if toks[0] == "add"@ {
        Result::Ok(CommandV::Add(toks.skip(1)))
    } else if toks[0] == "rm"@ {
        Result::Ok(CommandV::Remove(toks.skip(1)))
    } else if toks[0] == "list"@ {
        Result::Ok(CommandV::List)
    } else if toks[0] == "version"@ {
        Result::Ok(CommandV::Version)
    } else {
        Result::Err(CommandBuildError::NotRecognisedCommand)
    }
}

impl Command {
    /// Parse a command line; see `spec_parse_command`.
    pub fn parse(s: &str) -> (r: Result<Command, CommandBuildError>)
        ensures
            (match r {
                Result::Ok(c) => spec_parse_command(s@) == Result::<
                    CommandV,
                    CommandBuildError,
                >::Ok(c@),
                Result::Err(CommandBuildError::NotEnoughArgsIntroduced) => spec_parse_command(s@)
                    == Result::<CommandV, CommandBuildError>::Err(
                    CommandBuildError::NotEnoughArgsIntroduced,
                ),
                Result::Err(CommandBuildError::NotRecognisedCommand) => spec_parse_command(s@)
                    == Result::<CommandV, CommandBuildError>::Err(
                    CommandBuildError::NotRecognisedCommand,
                ),
            }),
    {
        let toks = split_ws_str(s);
        if toks.len() == 0 {
            return Result::Err(CommandBuildError::NotEnoughArgsIntroduced);
        }
        let head = to_owned_str(toks[0].as_str());
        let mut args: Vec<String> = Vec::new();
        let mut i: usize = 1;
        while i < toks.len()
            invariant
                1 <= i <= toks@.len(),
                args.deep_view() =~= toks.deep_view().subrange(1, i as int),
            decreases toks@.len() - i,
        {
            args.push(to_owned_str(toks[i].as_str()));
            proof {
                assert(args.deep_view() =~= toks.deep_view().subrange(1, i + 1));
            }
            i = i + 1;
        }
        proof {
            assert(args.deep_view() =~= toks.deep_view().skip(1));
        }
        if str_eq(head.as_str(), "spawn") {
            Result::Ok(Command::Spawn(args))
        } else if str_eq(head.as_str(), "add") {
            Result::Ok(Command::Add(args))
        } else if str_eq(head.as_str(), "rm") {
            Result::Ok(Command::Remove(args))
        } else if str_eq(head.as_str(), "list") {
            Result::Ok(Command::List)
        } else if str_eq(head.as_str(), "version") {
            Result::Ok(Command::Version)
        } else {
            Result::Err(CommandBuildError::NotRecognisedCommand)
        }
    }
}

/// A flag is any token beginning with `-`.
pub open spec fn spec_is_flag(s: Seq<char>) -> bool {
    s.len() >= 1 && s[0] == '-'
}

/// The flag/value pairs read from the arguments, from index `i` on: a flag
/// followed by a non-flag takes it as its value and both are consumed; a
/// flag followed by another flag or by nothing gets the empty value;
/// non-flag words outside that position are skipped.
pub open spec fn spec_map_flags(args: Seq<Seq<char>>, i: int) -> Seq<(Seq<char>, Seq<char>)>
    decreases args.len() - i,
{
    if i < 0 || i >= args.len() {
        seq![]
    } else if spec_is_flag(args[i]) {
        if i + 1 < args.len() && !spec_is_flag(args[i + 1]) {
            seq![(args[i], args[i + 1])] + spec_map_flags(args, i + 2)
        } else {
            seq![(args[i], Seq::<char>::empty())] + spec_map_flags(args, i + 1)
        }
    } else {
        spec_map_flags(args, i + 1)
    }
}

/// The value of `key` among the collected pairs: the last occurrence
/// wins, as a map built by repeated insertion behaves.
pub open spec fn spec_flag_value(pairs: Seq<(Seq<char>, Seq<char>)>, key: Seq<char>) -> Option<
    Seq<char>,
>
    decreases pairs.len(),
{
    if pairs.len() == 0 {
        Option::None
    } else if pairs.last().0 == key {
        Option::Some(pairs.last().1)
    } else {
        spec_flag_value(pairs.drop_last(), key)
    }
}

/// Whether `s` is a flag word; see `spec_is_flag`.
pub fn is_flag(s: &str) -> (r: bool)
    ensures
        r == spec_is_flag(s@),
{
    if crate::text::len_chars(s) == 0 {
        return false;
    }
    crate::text::char_at(s, 0) == '-'
}

/// Collect the flag/value pairs of an argument list; see `spec_map_flags`.
pub fn map_flags(args: &Vec<String>) -> (r: Vec<(String, String)>)
    ensures
        r.deep_view() == spec_map_flags(args.deep_view(), 0),
{
    let ghost av = args.deep_view();
    let mut out: Vec<(String, String)> = Vec::new();
    proof {
        assert(out.deep_view() + spec_map_flags(av, 0) =~= spec_map_flags(av, 0));
    }
    let mut i: usize = 0;
    while i < args.len()
        invariant
            0 <= i <= av.len(),
            spec_map_flags(av, 0) == out.deep_view() + spec_map_flags(av, i as int),
        decreases av.len() - i,
    {
        let ghost out0 = out.deep_view();
        let word: &String = &args[i];
        if is_flag(word.as_str()) {
            if i + 1 < args.len() && !is_flag(args[i + 1].as_str()) {
                out.push((to_owned_str(word.as_str()), to_owned_str(args[i + 1].as_str())));
                proof {
                    assert(out.deep_view() =~= out0.push((av[i as int], av[i + 1])));
                    assert(out0.push((av[i as int], av[i + 1])) + spec_map_flags(av, i + 2)
                        =~= out0 + (seq![(av[i as int], av[i + 1])] + spec_map_flags(av, i + 2)));
                }
                i = i + 2;
            } else {
                out.push((to_owned_str(word.as_str()), String::new()));
                proof {
                    assert(out.deep_view() =~= out0.push(
                        (av[i as int], Seq::<char>::empty()),
                    ));
                    assert(out0.push((av[i as int], Seq::<char>::empty())) + spec_map_flags(
                        av,
                        i + 1,
                    ) =~= out0 + (seq![(av[i as int], Seq::<char>::empty())] + spec_map_flags(
                        av,
                        i + 1,
                    )));
                }
                i = i + 1;
            }
        } else {
            i = i + 1;
        }
    }
    out
}

/// Look up a flag's value among the collected pairs; see
/// `spec_flag_value`.
pub fn flag_value(pairs: &Vec<(String, String)>, key: &str) -> (r: Option<String>)
    ensures
        (match r {
            Option::Some(v) => spec_flag_value(pairs.deep_view(), key@) == Option::Some(v@),
            Option::None => spec_flag_value(pairs.deep_view(), key@) is None,
        }),
{
    let ghost pv = pairs.deep_view();
    proof {
        assert(pv.take(pv.len() as int) =~= pv);
    }
    let mut i: usize = pairs.len();
    while i > 0
        invariant
            0 <= i <= pv.len(),
            spec_flag_value(pv, key@) == spec_flag_value(pv.take(i as int), key@),
        decreases i,
    {
        proof {
            assert(pv.take(i as int).last() == pv[i - 1]);
            assert(pv.take(i as int).drop_last() =~= pv.take(i - 1));
        }
        if str_eq(pairs[i - 1].0.as_str(), key) {
            return Option::Some(to_owned_str(pairs[i - 1].1.as_str()));
        }
        i = i - 1;
    }
    proof {
        assert(pv.take(0) =~= Seq::<(Seq<char>, Seq<char>)>::empty());
    }
    Option::None
}

} // verus!
