//! Choosing an audio input.
//!
//! The host enumerates; this picks an input the way a `--device` flag means it, and says
//! what there is to pick from.

pub mod laws;

use vstd::prelude::*;

use crate::text;

verus! {

/// What can go wrong getting hold of an input.
#[derive(Debug)]
#[non_exhaustive]
pub enum Error {
    /// The host has no default input, and none was named.
    NoDefaultInput,
    /// Nothing matched what was asked for.
    NoMatch(String),
    /// More than one device matched, so the choice would be arbitrary.
    Ambiguous { want: String, matches: Vec<String> },
    /// A sample format that nothing here converts from.
    UnsupportedFormat(String),
    /// The host or the device refused something; the context says what was being done.
    Cpal { context: String, source: String },
}

/// Texts with `, ` between them.
pub open spec fn joined(texts: Seq<String>) -> Seq<char>
    decreases texts.len(),
{
    if texts.len() == 0 {
        Seq::empty()
    } else if texts.len() == 1 {
        texts[0]@
    } else {
        joined(texts.drop_last()) + ", "@ + texts.last()@
    }
}

fn put_joined(out: &mut String, texts: &[String])
    ensures
        final(out)@ == old(out)@ + joined(texts@),
{
    let mut i: usize = 0;
    assert(texts@.take(0) =~= Seq::empty());
    assert(out@ =~= old(out)@ + joined(texts@.take(0)));
    while i < texts.len()
        invariant
            i <= texts.len(),
            out@ == old(out)@ + joined(texts@.take(i as int)),
        decreases texts.len() - i,
    {
        assert(texts@.take(i + 1).drop_last() =~= texts@.take(i as int));
        if i > 0 {
            out.push_str(", ");
        }
        out.push_str(texts[i].as_str());
        assert(out@ =~= old(out)@ + joined(texts@.take(i + 1)));
        i = i + 1;
    }
    assert(texts@.take(i as int) =~= texts@);
}

/// What an error says.
pub open spec fn error_text(e: Error) -> Seq<char> {
    match e {
        Error::NoDefaultInput => "no default input device"@,
        Error::NoMatch(want) => "no input device matches "@ + text::quoted(want@),
        Error::Ambiguous { want, matches } => text::quoted(want@)
            + " matches several input devices: "@ + joined(matches@),
        Error::UnsupportedFormat(format) => "unsupported sample format "@ + format@,
        Error::Cpal { context, source } => context@ + ": "@ + source@,
    }
}

impl Error {
    /// The error in words.
    pub fn to_string(&self) -> (out: String)
        ensures
            out@ == error_text(*self),
    {
        let mut out = String::new();
        match self {
            Error::NoDefaultInput => {
                out.push_str("no default input device");
            },
            Error::NoMatch(want) => {
                out.push_str("no input device matches ");
                out.push_str(text::quote(want.as_str()).as_str());
            },
            Error::Ambiguous { want, matches } => {
                out.push_str(text::quote(want.as_str()).as_str());
                out.push_str(" matches several input devices: ");
                put_joined(&mut out, matches.as_slice());
            },
            Error::UnsupportedFormat(format) => {
                out.push_str("unsupported sample format ");
                out.push_str(format.as_str());
            },
            Error::Cpal { context, source } => {
                out.push_str(context.as_str());
                out.push_str(": ");
                out.push_str(source.as_str());
            },
        }
        assert(out@ =~= error_text(*self));
        out
    }
}

/// An input as the host describes it.
#[derive(Debug)]
pub struct Input {
    /// What to call it, if the host can say.
    pub name: Option<String>,
    /// What the host knows it by, if it can say.
    pub id: Option<String>,
}

/// What an input is called in a message.
pub open spec fn description(input: Input) -> Seq<char> {
    match input.name {
        Some(name) => name@,
        None => "<unnamed>"@,
    }
}

/// What to call an input in a message.
pub fn describe(input: &Input) -> (name: String)
    ensures
        name@ == description(*input),
{
    match &input.name {
        Some(name) => name.clone(),
        None => "<unnamed>".to_owned(),
    }
}

/// Whether an input is one that `want` names: it is part of its name or of its id, in
/// either case.
pub open spec fn named_by(input: Input, want: Seq<char>) -> bool {
    let needle = text::lowercase(want);
    ||| text::holds_text(text::lowercase(description(input)), needle)
    ||| match input.id {
        Some(id) => text::holds_text(text::lowercase(id@), needle),
        None => false,
    }
}

/// The places of the inputs that `want` names.
pub open spec fn places(inputs: Seq<Input>, want: Seq<char>) -> Seq<int>
    decreases inputs.len(),
{
    if inputs.len() == 0 {
        Seq::empty()
    } else if named_by(inputs.last(), want) {
        places(inputs.drop_last(), want).push(inputs.len() - 1)
    } else {
        places(inputs.drop_last(), want)
    }
}

fn is_named_by(input: &Input, needle: &str, want: Ghost<Seq<char>>) -> (yes: bool)
    requires
        needle@ == text::lowercase(want@),
    ensures
        yes == named_by(*input, want@),
{
    let name = describe(input);
    let lower = text::lower(name.as_str());
    if text::contains(lower.as_str(), needle) {
        return true;
    }
    match &input.id {
        Some(id) => {
            let lower = text::lower(id.as_str());
            text::contains(lower.as_str(), needle)
        },
        None => false,
    }
}

/// Where among the inputs stands the one that `want` names: a device id, or part of a
/// device name.
///
/// Matching on part of a name is what makes a `--device external` usable, and it is also
/// how two devices can match one word, which is [`Error::Ambiguous`] rather than a guess.
pub fn find_device(inputs: &[Input], want: &str) -> (found: Result<usize, Error>)
    ensures
        ({
            let at = places(inputs@, want@);
            match found {
                Ok(i) => at == seq![i as int] && i < inputs@.len(),
                Err(Error::NoMatch(asked)) => at.len() == 0 && asked@ == want@,
                Err(Error::Ambiguous { want: asked, matches }) => at.len() > 1 && asked@ == want@
                    && matches@.len() == at.len() && forall|k: int|
                    0 <= k < at.len() ==> (#[trigger] matches@[k])@ == description(inputs@[at[k]]),
                _ => false,
            }
        }),
{
    let needle = text::lower(want);
    let mut at: Vec<usize> = Vec::new();
    let mut matches: Vec<String> = Vec::new();
    let mut i: usize = 0;
    assert(inputs@.take(0) =~= Seq::empty());
    while i < inputs.len()
        invariant
            i <= inputs.len(),
            needle@ == text::lowercase(want@),
            at@.len() == matches@.len(),
            at@.len() == places(inputs@.take(i as int), want@).len(),
            forall|k: int|
                0 <= k < at@.len() ==> #[trigger] at@[k] == places(
                    inputs@.take(i as int),
                    want@,
                )[k] && at@[k] < i,
            forall|k: int|
                0 <= k < at@.len() ==> (#[trigger] matches@[k])@ == description(
                    inputs@[at@[k] as int],
                ),
        decreases inputs.len() - i,
    {
        assert(inputs@.take(i + 1).drop_last() =~= inputs@.take(i as int));
        if is_named_by(&inputs[i], needle.as_str(), Ghost(want@)) {
            at.push(i);
            matches.push(describe(&inputs[i]));
        }
        i = i + 1;
    }
    assert(inputs@.take(i as int) =~= inputs@);
    if at.len() == 0 {
        return Err(Error::NoMatch(want.to_owned()));
    }
    if at.len() == 1 {
        assert(places(inputs@, want@) =~= seq![at@[0] as int]);
        return Ok(at[0]);
    }
    Err(Error::Ambiguous { want: want.to_owned(), matches })
}

/// What an input says of its configuration: its sample rate, its channels and its sample
/// format, or why it would not say.
#[derive(Debug)]
pub enum Config {
    Given { sample_rate: u32, channels: u16, sample_format: String },
    Refused(String),
}

/// A configuration in words. A device that won't report one still appears in a list, with
/// the reason where its config would be.
pub open spec fn config_text(config: Config) -> Seq<char> {
    match config {
        Config::Given { sample_rate, channels, sample_format } => text::decimal(sample_rate as nat)
            + " Hz, "@ + text::decimal(channels as nat) + " ch, "@ + sample_format@,
        Config::Refused(why) => "no input config: "@ + why@,
    }
}

/// One line of a list of inputs.
#[derive(Debug)]
pub struct Line {
    /// `*` on the default input.
    pub marker: char,
    pub name: String,
    pub id: String,
    pub config: String,
}

/// A line says what there is to say of an input.
pub open spec fn is_line(line: Line, input: Input, config: Config, default: Option<String>) -> bool {
    &&& line.name@ == description(input)
    &&& line.id@ == (match input.id {
        Some(id) => id@,
        None => Seq::empty(),
    })
    &&& line.marker == (match default {
        Some(default) => if line.id@ == default@ {
            '*'
        } else {
            ' '
        },
        None => ' ',
    })
    &&& line.config@ == config_text(config)
}

fn line_of(input: &Input, config: &Config, default: &Option<String>) -> (line: Line)
    ensures
        is_line(line, *input, *config, *default),
{
    let id: String = match &input.id {
        Some(id) => id.clone(),
        None => String::new(),
    };
    let marker: char = match default {
        Some(default) => if id == *default {
            '*'
        } else {
            ' '
        },
        None => ' ',
    };
    let mut said = String::new();
    match config {
        Config::Given { sample_rate, channels, sample_format } => {
            text::put_decimal(&mut said, *sample_rate as u128);
            said.push_str(" Hz, ");
            text::put_decimal(&mut said, *channels as u128);
            said.push_str(" ch, ");
            said.push_str(sample_format.as_str());
        },
        Config::Refused(why) => {
            said.push_str("no input config: ");
            said.push_str(why.as_str());
        },
    }
    assert(said@ =~= config_text(*config));
    Line { marker, name: describe(input), id, config: said }
}

/// Every input the host has, ready to print. `default` is the id of the default input, if
/// there is one.
pub fn describe_inputs(inputs: &[(Input, Config)], default: Option<String>) -> (lines: Vec<Line>)
    ensures
        lines@.len() == inputs@.len(),
        forall|k: int|
            0 <= k < lines@.len() ==> is_line(
                #[trigger] lines@[k],
                inputs@[k].0,
                inputs@[k].1,
                default,
            ),
{
    let mut lines: Vec<Line> = Vec::new();
    let mut i: usize = 0;
    while i < inputs.len()
        invariant
            i <= inputs.len(),
            lines@.len() == i,
            forall|k: int|
                0 <= k < lines@.len() ==> is_line(
                    #[trigger] lines@[k],
                    inputs@[k].0,
                    inputs@[k].1,
                    default,
                ),
        decreases inputs.len() - i,
    {
        lines.push(line_of(&inputs[i].0, &inputs[i].1, &default));
        i = i + 1;
    }
    lines
}

/// One input's lines in a list.
pub open spec fn entry_text(line: Line) -> Seq<char> {
    seq![line.marker] + " "@ + line.name@ + "\n    id: "@ + line.id@ + "\n    "@ + line.config@
        + "\n"@
}

/// Several of them.
pub open spec fn entries_text(lines: Seq<Line>) -> Seq<char>
    decreases lines.len(),
{
    if lines.len() == 0 {
        Seq::empty()
    } else {
        entries_text(lines.drop_last()) + entry_text(lines.last())
    }
}

/// A list of inputs.
pub open spec fn listing_text(lines: Seq<Line>) -> Seq<char> {
    "input devices:\n"@ + entries_text(lines)
        + "\n* = default. Pass an id or part of a name to --device.\n"@
}

/// What [`describe_inputs`] found, in the form it is shown.
pub fn list_devices(lines: &[Line]) -> (out: String)
    ensures
        out@ == listing_text(lines@),
{
    let mut out = String::new();
    out.push_str("input devices:\n");
    let mut i: usize = 0;
    assert(lines@.take(0) =~= Seq::empty());
    assert(out@ =~= "input devices:\n"@ + entries_text(lines@.take(0)));
    while i < lines.len()
        invariant
            i <= lines.len(),
            out@ == "input devices:\n"@ + entries_text(lines@.take(i as int)),
        decreases lines.len() - i,
    {
        assert(lines@.take(i + 1).drop_last() =~= lines@.take(i as int));
        let line = &lines[i];
        out.push(line.marker);
        out.push_str(" ");
        out.push_str(line.name.as_str());
        out.push_str("\n    id: ");
        out.push_str(line.id.as_str());
        out.push_str("\n    ");
        out.push_str(line.config.as_str());
        out.push_str("\n");
        assert(out@ =~= "input devices:\n"@ + entries_text(lines@.take(i + 1)));
        i = i + 1;
    }
    assert(lines@.take(i as int) =~= lines@);
    out.push_str("\n* = default. Pass an id or part of a name to --device.\n");
    assert(out@ =~= listing_text(lines@));
    out
}

/// A word that picks one input picks it whatever else is plugged in that it does not name.
pub proof fn an_input_it_does_not_name_changes_nothing(
    inputs: Seq<Input>,
    other: Input,
    want: Seq<char>,
)
    requires
        !named_by(other, want),
    ensures
        places(inputs.push(other), want) == places(inputs, want),
{
    assert(inputs.push(other).drop_last() =~= inputs);
}

/// A word and the same word in other capitals name the same inputs.
pub proof fn capitals_do_not_matter(input: Input, want: Seq<char>, shouted: Seq<char>)
    requires
        text::lowercase(want) == text::lowercase(shouted),
    ensures
        named_by(input, want) == named_by(input, shouted),
{
}

} // verus!
