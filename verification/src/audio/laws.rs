//! Which inputs a name finds, and what is said of them.

use vstd::prelude::*;

use crate::audio;
use crate::audio::{Config, Input, Line};
use crate::text;

verus! {

/// A name finds just the inputs that it names, in the order they are listed.
pub proof fn a_name_finds_what_it_names(inputs: Seq<Input>, want: Seq<char>)
    ensures
        ({
            let at = audio::places(inputs, want);
            &&& forall|k: int|
                0 <= k < at.len() ==> 0 <= #[trigger] at[k] < inputs.len() && audio::named_by(
                    inputs[at[k]],
                    want,
                )
            &&& forall|j: int, k: int| 0 <= j < k < at.len() ==> #[trigger] at[j] < #[trigger] at[k]
            &&& forall|i: int|
                0 <= i < inputs.len() && audio::named_by(#[trigger] inputs[i], want) ==> at.contains(
                    i,
                )
        }),
    decreases inputs.len(),
{
    if inputs.len() > 0 {
        let front = inputs.drop_last();
        a_name_finds_what_it_names(front, want);
        let before = audio::places(front, want);
        let at = audio::places(inputs, want);
        assert forall|k: int| 0 <= k < at.len() implies 0 <= #[trigger] at[k] < inputs.len()
            && audio::named_by(inputs[at[k]], want) by {
            if k < before.len() {
                assert(at[k] == before[k]);
                assert(front[before[k]] == inputs[before[k]]);
            }
        }
        assert forall|i: int|
            0 <= i < inputs.len() && audio::named_by(
                #[trigger] inputs[i],
                want,
            ) implies at.contains(i) by {
            if i < front.len() {
                assert(front[i] == inputs[i]);
                assert(before.contains(i));
                let k = choose|k: int| 0 <= k < before.len() && before[k] == i;
                assert(at[k] == i);
            } else {
                assert(at[at.len() - 1] == i);
            }
        }
    }
}

/// An input is named by a part of its name, or by a part of its id.
pub proof fn a_part_of_the_name_or_the_id_will_do(input: Input, want: Seq<char>)
    ensures
        text::holds_text(text::lowercase(audio::description(input)), text::lowercase(want))
            ==> audio::named_by(input, want),
        input.id matches Some(id) ==> text::holds_text(text::lowercase(id@), text::lowercase(want))
            ==> audio::named_by(input, want),
        audio::named_by(input, want) && input.id is None ==> text::holds_text(
            text::lowercase(audio::description(input)),
            text::lowercase(want),
        ),
{
}

/// The configuration of an input has its sample rate, its channels and its format, in that
/// order.
pub proof fn a_configuration_reads_back(sample_rate: u32, channels: u16, sample_format: String)
    ensures
        ({
            let s = audio::config_text(Config::Given { sample_rate, channels, sample_format });
            exists|rate: Seq<char>, count: Seq<char>|
                {
                    &&& s == #[trigger] (rate + " Hz, "@ + count + " ch, "@ + sample_format@)
                    &&& text::laws::all_digits(rate)
                    &&& text::laws::numeral(rate) == sample_rate
                    &&& text::laws::all_digits(count)
                    &&& text::laws::numeral(count) == channels
                }
        }),
{
    text::laws::a_decimal_reads_back(sample_rate as nat);
    text::laws::a_decimal_reads_back(channels as nat);
    let rate = text::decimal(sample_rate as nat);
    let count = text::decimal(channels as nat);
    assert(audio::config_text(Config::Given { sample_rate, channels, sample_format }) =~= rate
        + " Hz, "@ + count + " ch, "@ + sample_format@);
}

/// An entry has what the input is called, its id and its configuration, each on a line of its
/// own, behind a star where it is the default one.
pub proof fn an_entry_reads_back(line: Line, input: Input, config: Config, default: Option<String>)
    requires
        audio::is_line(line, input, config, default),
    ensures
        ({
            let s = audio::entry_text(line);
            let id = match input.id {
                Some(id) => id@,
                None => Seq::empty(),
            };
            &&& s[0] == '*' || s[0] == ' '
            &&& s[0] == '*' <==> default is Some && default->0@ == id
            &&& text::laws::has_text(s, " "@, audio::description(input), "\n    id: "@)
            &&& text::laws::has_text(s, "\n    id: "@, id, "\n    "@)
            &&& text::laws::has_text(s, "\n    "@, audio::config_text(config), "\n"@)
        }),
{
    let s = audio::entry_text(line);
    let mark = seq![line.marker];
    let none = Seq::<char>::empty();
    assert(s =~= mark + " "@ + line.name@ + "\n    id: "@ + (line.id@ + "\n    "@ + line.config@
        + "\n"@));
    assert(s =~= (mark + " "@ + line.name@) + "\n    id: "@ + line.id@ + "\n    "@ + (line.config@
        + "\n"@));
    assert(s =~= (mark + " "@ + line.name@ + "\n    id: "@ + line.id@) + "\n    "@ + line.config@
        + "\n"@ + none);
}

/// Every input is listed, in order: the entries in front of one are those of the inputs in
/// front of it.
pub proof fn every_input_is_listed(lines: Seq<Line>, i: int)
    requires
        0 <= i < lines.len(),
    ensures
        audio::entries_text(lines.take(i)) + audio::entry_text(lines[i]) == audio::entries_text(
            lines,
        ).take(
            (audio::entries_text(lines.take(i)).len() + audio::entry_text(lines[i]).len()) as int,
        ),
        audio::entries_text(lines).len() >= audio::entries_text(lines.take(i)).len()
            + audio::entry_text(lines[i]).len(),
        exists|front: Seq<char>, back: Seq<char>|
            audio::listing_text(lines) == #[trigger] (front + audio::entries_text(lines) + back),
    decreases lines.len(),
{
    let all = audio::entries_text(lines);
    let before = audio::entries_text(lines.take(i));
    let one = audio::entry_text(lines[i]);
    let upto = (before.len() + one.len()) as int;
    if i == lines.len() - 1 {
        assert(lines.take(i) =~= lines.drop_last());
        assert(before + one =~= all.take(upto));
    } else {
        let less = lines.drop_last();
        every_input_is_listed(less, i);
        assert(less.take(i) =~= lines.take(i));
        assert(audio::entries_text(less).take(upto) =~= all.take(upto));
    }
    assert(audio::listing_text(lines) == "input devices:\n"@ + all
        + "\n* = default. Pass an id or part of a name to --device.\n"@);
}

} // verus!
