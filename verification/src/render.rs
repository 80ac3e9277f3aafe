//! One output line for each record: the source's name, the line number where it is asked for,
//! and the text, with colours where they are asked for.

use vstd::prelude::*;
use vstd::string::*;
use crate::record::{LineRecord, LineView};

verus! {

/// The colours of an output line.
#[derive(Clone, Copy, Debug, PartialEq, Eq, Structural)]
pub enum Tone {
    /// For the source's name and the line number.
    Green,
    /// For the text of a selected line.
    Red,
}

/// The escape sequence that switches a terminal to `tone`.
pub open spec fn tone_on(tone: Tone) -> Seq<char> {
    match tone {
        Tone::Green => seq!['\u{1b}', '[', '3', '2', 'm'],
        Tone::Red => seq!['\u{1b}', '[', '3', '1', 'm'],
    }
}

/// The escape sequence that switches a terminal back to its own colours.
pub open spec fn tone_off() -> Seq<char> {
    seq!['\u{1b}', '[', '0', 'm']
}

/// `text` between the escape sequences that show it in `tone`.
pub open spec fn painted(tone: Tone, text: Seq<char>) -> Seq<char> {
    tone_on(tone) + text + tone_off()
}

/// The character of one decimal digit.
pub open spec fn digit_char(digit: nat) -> char {
    if digit == 0 {
        '0'
    } else if digit == 1 {
        '1'
    } else if digit == 2 {
        '2'
    } else if digit == 3 {
        '3'
    } else if digit == 4 {
        '4'
    } else if digit == 5 {
        '5'
    } else if digit == 6 {
        '6'
    } else if digit == 7 {
        '7'
    } else if digit == 8 {
        '8'
    } else {
        '9'
    }
}

/// `number` in decimal digits, without leading zeros.
pub open spec fn decimal(number: nat) -> Seq<char>
    decreases number,
{
    if number < 10 {
        seq![digit_char(number)]
    } else {
        decimal(number / 10).push(digit_char(number % 10))
    }
}

/// What stands between the source's name and the text: the line number and a colon, or
/// nothing.
pub open spec fn number_label(line_number: nat, show_line_numbers: bool) -> Seq<char> {
    if show_line_numbers {
        decimal(line_number).push(':')
    } else {
        Seq::empty()
    }
}

/// The output line of `record`.
///
/// Without colours it is the name, a colon, the label and the text. With colours the name and
/// the label are green; a selected line has its text in red after one more colon, a context
/// line has its text as it is.
pub open spec fn rendered(
    file_name: Seq<char>,
    record: LineView,
    show_line_numbers: bool,
    use_color: bool,
) -> Seq<char> {
    let label = number_label(record.line_number, show_line_numbers);
    if !use_color {
        file_name.push(':') + label + record.text
    } else if record.matched {
        painted(Tone::Green, file_name).push(':') + painted(Tone::Green, label).push(':') + painted(
            Tone::Red,
            record.text,
        )
    } else {
        painted(Tone::Green, file_name).push(':') + painted(Tone::Green, label) + record.text
    }
}

/// ansi_term's `Colour::paint`, shown as text: the colour's escape sequence, the text, and
/// the reset sequence.
#[verifier::external_body]
fn paint(tone: Tone, text: &str) -> (shown: String)
    ensures
        shown@ == painted(tone, text@),
{
    let colour = match tone {
        Tone::Green => ansi_term::Colour::Green,
        Tone::Red => ansi_term::Colour::Red,
    };
    colour.paint(text).to_string()
}

/// `usize::to_string`: the number in decimal digits.
#[verifier::external_body]
fn decimal_text(number: usize) -> (digits: String)
    ensures
        digits@ == decimal(number as nat),
{
    number.to_string()
}

/// The line number of an output line, as text.
pub fn label_text(line_number: usize, show_line_numbers: bool) -> (label: String)
    ensures
        label@ == number_label(line_number as nat, show_line_numbers),
{
    if show_line_numbers {
        let mut label: String = decimal_text(line_number);
        label.append(":");
        proof {
            reveal_strlit(":");
            assert(":"@ =~= seq![':']);
            assert(decimal(line_number as nat) + seq![':'] =~= decimal(line_number as nat).push(':'));
        }
        label
    } else {
        String::new()
    }
}

/// The output line of `record`, found in the source called `file_name`.
pub fn render_line(file_name: &str, record: &LineRecord, show_line_numbers: bool, use_color: bool) -> (line:
    String)
    ensures
        line@ == rendered(file_name@, record@, show_line_numbers, use_color),
{
    let label: String = label_text(record.line_number, show_line_numbers);
    proof {
        reveal_strlit(":");
        assert(":"@ =~= seq![':']);
    }
    if !use_color {
        let mut line: String = String::from_str(file_name);
        line.append(":");
        line.append(label.as_str());
        line.append(record.text.as_str());
        proof {
            assert(line@ =~= file_name@.push(':') + label@ + record.text@);
        }
        line
    } else if record.matched {
        let mut line: String = paint(Tone::Green, file_name);
        let shown_label: String = paint(Tone::Green, label.as_str());
        let shown_text: String = paint(Tone::Red, record.text.as_str());
        line.append(":");
        line.append(shown_label.as_str());
        line.append(":");
        line.append(shown_text.as_str());
        proof {
            assert(line@ =~= painted(Tone::Green, file_name@).push(':') + painted(
                Tone::Green,
                label@,
            ).push(':') + painted(Tone::Red, record.text@));
        }
        line
    } else {
        let mut line: String = paint(Tone::Green, file_name);
        let shown_label: String = paint(Tone::Green, label.as_str());
        line.append(":");
        line.append(shown_label.as_str());
        line.append(record.text.as_str());
        proof {
            assert(line@ =~= painted(Tone::Green, file_name@).push(':') + painted(
                Tone::Green,
                label@,
            ) + record.text@);
        }
        line
    }
}

} // verus!
