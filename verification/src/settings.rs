//! What the user asks for: command-line arguments, with the environment behind them.
use crate::number::{number_read, parse_number, NumberError};
use crate::text::{same_text, text_of, texts};
use vstd::prelude::*;

verus! {

/// The argument that stands behind the first `name` that has anything behind it.
pub open spec fn argument(args: Seq<Seq<char>>, name: Seq<char>) -> Option<Seq<char>>
    decreases args.len(),
{
    if args.len() < 2 {
        None
    } else if args[0] == name {
        Some(args[1])
    } else {
        argument(args.skip(1), name)
    }
}

/// The value of an argument stands right behind its name, and no earlier argument with anything behind
/// it has that name.
pub proof fn lemma_argument_first(args: Seq<Seq<char>>, name: Seq<char>, value: Seq<char>)
    ensures
        argument(args, name) == Some(value) <==> exists|i: int|
            #![trigger args[i]]
            0 <= i < args.len() - 1 && args[i] == name && args[i + 1] == value && forall|j: int|
                0 <= j < i ==> args[j] != name,
    decreases args.len(),
{
    if args.len() >= 2 {
        let rest = args.skip(1);
        if args[0] != name {
            lemma_argument_first(rest, name, value);
            if argument(args, name) == Some(value) {
                let i = choose|i: int|
                    #![trigger rest[i]]
                    0 <= i < rest.len() - 1 && rest[i] == name && rest[i + 1] == value && forall|
                        j: int,
                    |
                        0 <= j < i ==> rest[j] != name;
                assert(args[i + 1] == name);
                assert forall|j: int| 0 <= j < i + 1 implies args[j] != name by {
                    if j > 0 {
                        assert(rest[j - 1] != name);
                    }
                }
            }
            if exists|i: int|
                #![trigger args[i]]
                0 <= i < args.len() - 1 && args[i] == name && args[i + 1] == value && forall|j: int|
                    0 <= j < i ==> args[j] != name {
                let i = choose|i: int|
                    #![trigger args[i]]
                    0 <= i < args.len() - 1 && args[i] == name && args[i + 1] == value && forall|
                        j: int,
                    |
                        0 <= j < i ==> args[j] != name;
                assert(rest[i - 1] == name);
                assert(rest[i] == value);
                assert forall|j: int| 0 <= j < i - 1 implies rest[j] != name by {
                    assert(args[j + 1] != name);
                }
            }
        }
    }
}

/// The argument `name`, or what the environment gives where it is missing.
pub open spec fn chosen(
    args: Seq<Seq<char>>,
    name: Seq<char>,
    fallback: Option<Seq<char>>,
) -> Option<Seq<char>> {
    match argument(args, name) {
        Some(text) => Some(text),
        None => fallback,
    }
}

/// Looks up the value of the command-line argument `name`.
pub fn get_arg(args: &[String], name: &str) -> (value: Option<String>)
    ensures
        text_of(value) == argument(texts(args@), name@),
{
    let ghost all = texts(args@);
    let mut i: usize = 0;
    assert(all.skip(0) =~= all);
    while i < args.len()
        invariant
            i <= args.len(),
            all == texts(args@),
            argument(all, name@) == argument(all.skip(i as int), name@),
        decreases args.len() - i,
    {
        if same_text(args[i].as_str(), name) {
            if i + 1 < args.len() {
                return Some(args[i + 1].clone());
            }
        }
        proof {
            assert(all.skip(i as int).skip(1) =~= all.skip(i + 1));
        }
        i += 1;
    }
    None
}

/// The range of blocks to extract, and the chain that they stand on.
pub struct Settings {
    pub chain: String,
    pub start_block: u64,
    pub end_block: u64,
}

/// What the environment says, where an argument is missing.
pub struct Fallbacks {
    pub chain: Option<String>,
    pub start_block: Option<String>,
    pub end_block: Option<String>,
}

/// Why there are no settings.
#[derive(Clone, Copy, Debug, PartialEq, Eq, Structural)]
pub enum SettingsError {
    MissingStartBlock,
    StartBlock(NumberError),
    MissingEndBlock,
    EndBlock(NumberError),
    StartAfterEnd,
}

/// The chain that is meant: an argument, else the environment, else `bnb`.
pub open spec fn chosen_chain(args: Seq<Seq<char>>, fallback: Option<Seq<char>>) -> Seq<char> {
    match chosen(args, "--chain"@, fallback) {
        Some(chain) => chain,
        None => "bnb"@,
    }
}

/// The range that is meant, or the first thing that is wrong with it.
pub open spec fn chosen_range(start: Option<Seq<char>>, end: Option<Seq<char>>) -> Result<
    (u64, u64),
    SettingsError,
> {
    match start {
        None => Err(SettingsError::MissingStartBlock),
        Some(start) => match number_read(start, 10) {
            Err(error) => Err(SettingsError::StartBlock(error)),
            Ok(first) => match end {
                None => Err(SettingsError::MissingEndBlock),
                Some(end) => match number_read(end, 10) {
                    Err(error) => Err(SettingsError::EndBlock(error)),
                    Ok(last) => if first > last {
                        Err(SettingsError::StartAfterEnd)
                    } else {
                        Ok((first, last))
                    },
                },
            },
        },
    }
}

/// What an argument says wins; the environment is asked only where the argument is missing; and the
/// chain is `bnb` only where both are silent.
pub proof fn lemma_chosen(
    args: Seq<Seq<char>>,
    name: Seq<char>,
    fallback: Option<Seq<char>>,
)
    ensures
        argument(args, name) is Some ==> chosen(args, name, fallback) == argument(args, name),
        argument(args, name) is None ==> chosen(args, name, fallback) == fallback,
        argument(args, "--chain"@) is Some ==> chosen_chain(args, fallback) == argument(
            args,
            "--chain"@,
        )->0,
        argument(args, "--chain"@) is None && fallback is Some ==> chosen_chain(args, fallback)
            == fallback->0,
        argument(args, "--chain"@) is None && fallback is None ==> chosen_chain(args, fallback)
            == "bnb"@,
{
}

/// There is a range exactly where both ends are given, both are decimal numbers, and the first is not
/// behind the last; and then it is these two. Else the first of the reasons, in the order in which they
/// are looked for, is given.
pub proof fn lemma_chosen_range(
    start: Option<Seq<char>>,
    end: Option<Seq<char>>,
    first: u64,
    last: u64,
    error: NumberError,
)
    ensures
        chosen_range(start, end) == Ok::<(u64, u64), SettingsError>((first, last)) <==> {
            &&& start is Some
            &&& end is Some
            &&& number_read(start->0, 10) == Ok::<u64, NumberError>(first)
            &&& number_read(end->0, 10) == Ok::<u64, NumberError>(last)
            &&& first <= last
        },
        chosen_range(start, end) == Err::<(u64, u64), SettingsError>(SettingsError::MissingStartBlock)
            <==> start is None,
        chosen_range(start, end) == Err::<(u64, u64), SettingsError>(SettingsError::StartBlock(error))
            <==> start is Some && number_read(start->0, 10) == Err::<u64, NumberError>(error),
        chosen_range(start, end) == Err::<(u64, u64), SettingsError>(SettingsError::MissingEndBlock)
            <==> start is Some && number_read(start->0, 10) is Ok && end is None,
        chosen_range(start, end) == Err::<(u64, u64), SettingsError>(SettingsError::EndBlock(error))
            <==> start is Some && number_read(start->0, 10) is Ok && end is Some && number_read(
                end->0,
                10,
            ) == Err::<u64, NumberError>(error),
        chosen_range(start, end) == Err::<(u64, u64), SettingsError>(SettingsError::StartAfterEnd)
            <==> start is Some && number_read(start->0, 10) is Ok && end is Some && number_read(
            end->0,
            10,
        ) is Ok && number_read(start->0, 10)->Ok_0 > number_read(end->0, 10)->Ok_0,
{
}

impl SettingsError {
    /// The words for the error.
    pub open spec fn words(self) -> Seq<char> {
        match self {
            SettingsError::MissingStartBlock => "Missing --start-block"@,
            SettingsError::StartBlock(error) => error.words(),
            SettingsError::MissingEndBlock => "Missing --end-block"@,
            SettingsError::EndBlock(error) => error.words(),
            SettingsError::StartAfterEnd => "start-block cannot be greater than end-block"@,
        }
    }

    /// The error in words.
    pub fn message(&self) -> (text: String)
        ensures
            text@ == self.words(),
    {
        match self {
            SettingsError::MissingStartBlock => "Missing --start-block".to_owned(),
            SettingsError::StartBlock(error) => error.message(),
            SettingsError::MissingEndBlock => "Missing --end-block".to_owned(),
            SettingsError::EndBlock(error) => error.message(),
            SettingsError::StartAfterEnd => "start-block cannot be greater than end-block".to_owned(),
        }
    }
}

/// The argument `name`, or `fallback` where it is missing.
fn choose_text(args: &[String], name: &str, fallback: Option<String>) -> (text: Option<String>)
    ensures
        text_of(text) == chosen(texts(args@), name@, text_of(fallback)),
{
    match get_arg(args, name) {
        Some(text) => Some(text),
        None => fallback,
    }
}

/// Settles chain and range from the arguments, with the environment behind them.
pub fn read_settings(args: &[String], fallbacks: Fallbacks) -> (result: Result<
    Settings,
    SettingsError,
>)
    ensures
        match result {
            Ok(settings) => {
                &&& settings.chain@ == chosen_chain(texts(args@), text_of(fallbacks.chain))
                &&& chosen_range(
                    chosen(texts(args@), "--start-block"@, text_of(fallbacks.start_block)),
                    chosen(texts(args@), "--end-block"@, text_of(fallbacks.end_block)),
                ) == Ok::<(u64, u64), SettingsError>((settings.start_block, settings.end_block))
                &&& settings.start_block <= settings.end_block
            },
            Err(error) => chosen_range(
                chosen(texts(args@), "--start-block"@, text_of(fallbacks.start_block)),
                chosen(texts(args@), "--end-block"@, text_of(fallbacks.end_block)),
            ) == Err::<(u64, u64), SettingsError>(error),
        },
{
    let chain: String = match choose_text(args, "--chain", fallbacks.chain) {
        Some(chain) => chain,
        None => "bnb".to_owned(),
    };
    let start: String = match choose_text(args, "--start-block", fallbacks.start_block) {
        Some(text) => text,
        None => return Err(SettingsError::MissingStartBlock),
    };
    let start_block: u64 = match parse_number(start.as_str(), 10) {
        Ok(number) => number,
        Err(error) => return Err(SettingsError::StartBlock(error)),
    };
    let end: String = match choose_text(args, "--end-block", fallbacks.end_block) {
        Some(text) => text,
        None => return Err(SettingsError::MissingEndBlock),
    };
    let end_block: u64 = match parse_number(end.as_str(), 10) {
        Ok(number) => number,
        Err(error) => return Err(SettingsError::EndBlock(error)),
    };
    if start_block > end_block {
        return Err(SettingsError::StartAfterEnd);
    }
    Ok(Settings { chain, start_block, end_block })
}

} // verus!
