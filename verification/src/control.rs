//! The remote-control command language: one command per line.

use vstd::prelude::*;

verus! {

/// Commands that can be sent to the application.
#[derive(Debug, Clone, PartialEq, Eq)]
pub enum Command {
    Left,
    Right,
    Tab,
    ToggleFps,
    Save,
    Load,
    Quit,
    Effect(usize),
}

/// Unicode `White_Space` characters (the ones `char::is_whitespace` accepts).
pub open spec fn is_unicode_whitespace(c: char) -> bool {
    ||| ('\u{9}' <= c && c <= '\u{d}')
    ||| c == ' '
    ||| c == '\u{85}'
    ||| c == '\u{a0}'
    ||| c == '\u{1680}'
    ||| ('\u{2000}' <= c && c <= '\u{200a}')
    ||| c == '\u{2028}'
    ||| c == '\u{2029}'
    ||| c == '\u{202f}'
    ||| c == '\u{205f}'
    ||| c == '\u{3000}'
}

/// `s` without leading whitespace.
pub open spec fn trim_start_chars(s: Seq<char>) -> Seq<char>
    decreases s.len(),
{
    if s.len() > 0 && is_unicode_whitespace(s[0]) {
        trim_start_chars(s.skip(1))
    } else {
        s
    }
}

/// `s` without trailing whitespace.
pub open spec fn trim_end_chars(s: Seq<char>) -> Seq<char>
    decreases s.len(),
{
    if s.len() > 0 && is_unicode_whitespace(s.last()) {
        trim_end_chars(s.drop_last())
    } else {
        s
    }
}

/// `s` without leading and trailing whitespace.
pub open spec fn trim_chars(s: Seq<char>) -> Seq<char> {
    trim_end_chars(trim_start_chars(s))
}

/// The lowercase mapping of a string, as `str::to_lowercase` computes it from the
/// Unicode tables.
pub uninterp spec fn str_lowercase(s: Seq<char>) -> Seq<char>;

/// Whether `c` is one of `'0'..='9'`.
pub open spec fn is_ascii_digit(c: char) -> bool {
    '0' <= c && c <= '9'
}

/// The value of a string of decimal digits.
pub open spec fn decimal_value(d: Seq<char>) -> int
    decreases d.len(),
{
    if d.len() == 0 {
        0
    } else {
        decimal_value(d.drop_last()) * 10 + (d.last() as int - '0' as int)
    }
}

/// What `usize::from_str` gives: an optional `+` followed by at least one decimal digit
/// and nothing else, with a value that fits in `usize`.
pub open spec fn parse_usize_spec(s: Seq<char>) -> Option<usize> {
    let digits = if s.len() > 0 && s[0] == '+' { s.skip(1) } else { s };
    if digits.len() > 0 && (forall|i: int| 0 <= i < digits.len() ==> is_ascii_digit(#[trigger] digits[i]))
        && decimal_value(digits) <= usize::MAX {
        Some(decimal_value(digits) as usize)
    } else {
        None
    }
}

/// The command a trimmed, lowercased line stands for.
pub open spec fn command_of(s: Seq<char>) -> Option<Command> {
    if s == "left"@ || s == "prev"@ {
        Some(Command::Left)
    } else if s == "right"@ || s == "next"@ {
        Some(Command::Right)
    } else if s == "tab"@ || s == "calibrate"@ {
        Some(Command::Tab)
    } else if s == "f"@ || s == "fps"@ {
        Some(Command::ToggleFps)
    } else if s == "s"@ || s == "save"@ {
        Some(Command::Save)
    } else if s == "l"@ || s == "load"@ {
        Some(Command::Load)
    } else if s == "q"@ || s == "quit"@ || s == "exit"@ {
        Some(Command::Quit)
    } else {
        let n = if "effect "@.is_prefix_of(s) {
            parse_usize_spec(trim_chars(s.skip("effect "@.len() as int)))
        } else {
            parse_usize_spec(s)
        };
        match n {
            Some(k) => Some(Command::Effect(k)),
            None => None,
        }
    }
}

/// Calls `str::trim`: the string without leading and trailing Unicode white space.
#[verifier::external_body]
pub(crate) fn trim_str(s: &str) -> (r: &str)
    ensures
        r@ == trim_chars(s@),
{
    s.trim()
}

/// Calls `str::to_lowercase`: the lowercase mapping of the string.
#[verifier::external_body]
fn to_lowercase_str(s: &str) -> (r: String)
    ensures
        r@ == str_lowercase(s@),
{
    s.to_lowercase()
}

/// Calls `str::strip_prefix` with a string pattern: the rest of `s` after `prefix` when
/// `s` starts with it, `None` otherwise.
#[verifier::external_body]
fn strip_prefix_str<'a>(s: &'a str, prefix: &str) -> (r: Option<&'a str>)
    ensures
        prefix@.is_prefix_of(s@) <==> r is Some,
        r matches Some(rest) ==> rest@ == s@.skip(prefix@.len() as int),
{
    s.strip_prefix(prefix)
}

/// Calls `usize::from_str` (through `str::parse`): an optional `+` and decimal digits
/// whose value fits in `usize`; anything else fails.
#[verifier::external_body]
fn parse_usize_str(s: &str) -> (r: Option<usize>)
    ensures
        r == parse_usize_spec(s@),
{
    s.parse::<usize>().ok()
}

/// Calls `<str as PartialEq>::eq`: the two strings hold the same characters.
#[verifier::external_body]
pub(crate) fn str_equals(a: &str, b: &str) -> (r: bool)
    ensures
        r == (a@ == b@),
{
    a == b
}

/// The command a line stands for once it has been trimmed and lowercased: keywords
/// left/prev, right/next, tab/calibrate, f/fps, s/save, l/load, q/quit/exit; `effect N`
/// or a bare number `N` selects effect `N`.
pub fn command_from_normalized(s: &str) -> (c: Option<Command>)
    ensures
        c == command_of(s@),
{
    if str_equals(s, "left") || str_equals(s, "prev") {
        Some(Command::Left)
    } else if str_equals(s, "right") || str_equals(s, "next") {
        Some(Command::Right)
    } else if str_equals(s, "tab") || str_equals(s, "calibrate") {
        Some(Command::Tab)
    } else if str_equals(s, "f") || str_equals(s, "fps") {
        Some(Command::ToggleFps)
    } else if str_equals(s, "s") || str_equals(s, "save") {
        Some(Command::Save)
    } else if str_equals(s, "l") || str_equals(s, "load") {
        Some(Command::Load)
    } else if str_equals(s, "q") || str_equals(s, "quit") || str_equals(s, "exit") {
        Some(Command::Quit)
    } else {
        let n = match strip_prefix_str(s, "effect ") {
            Some(rest) => parse_usize_str(trim_str(rest)),
            None => parse_usize_str(s),
        };
        match n {
            Some(k) => Some(Command::Effect(k)),
            None => None,
        }
    }
}

/// Parse one command line: surrounding white space is ignored and letters may be in
/// any case; the rest is `command_from_normalized`.
pub fn parse_command(line: &str) -> (c: Option<Command>)
    ensures
        c == command_of(str_lowercase(trim_chars(line@))),
{
    let trimmed = trim_str(line);
    let lowered = to_lowercase_str(trimmed);
    command_from_normalized(lowered.as_str())
}

/// The remote-control keywords, spelled out: left/prev step back, right/next step forward,
/// tab/calibrate switch calibration, f/fps toggle the overlay, s/save and l/load the scene,
/// q/quit/exit quit.
pub proof fn lemma_command_keywords()
    ensures
        command_of(seq!['l', 'e', 'f', 't']) == Some(Command::Left),
        command_of(seq!['p', 'r', 'e', 'v']) == Some(Command::Left),
        command_of(seq!['r', 'i', 'g', 'h', 't']) == Some(Command::Right),
        command_of(seq!['n', 'e', 'x', 't']) == Some(Command::Right),
        command_of(seq!['t', 'a', 'b']) == Some(Command::Tab),
        command_of(seq!['c', 'a', 'l', 'i', 'b', 'r', 'a', 't', 'e']) == Some(Command::Tab),
        command_of(seq!['f']) == Some(Command::ToggleFps),
        command_of(seq!['f', 'p', 's']) == Some(Command::ToggleFps),
        command_of(seq!['s']) == Some(Command::Save),
        command_of(seq!['s', 'a', 'v', 'e']) == Some(Command::Save),
        command_of(seq!['l']) == Some(Command::Load),
        command_of(seq!['l', 'o', 'a', 'd']) == Some(Command::Load),
        command_of(seq!['q']) == Some(Command::Quit),
        command_of(seq!['q', 'u', 'i', 't']) == Some(Command::Quit),
        command_of(seq!['e', 'x', 'i', 't']) == Some(Command::Quit),
{
    reveal_strlit("left");
    reveal_strlit("prev");
    reveal_strlit("right");
    reveal_strlit("next");
    reveal_strlit("tab");
    reveal_strlit("calibrate");
    reveal_strlit("f");
    reveal_strlit("fps");
    reveal_strlit("s");
    reveal_strlit("save");
    reveal_strlit("l");
    reveal_strlit("load");
    reveal_strlit("q");
    reveal_strlit("quit");
    reveal_strlit("exit");
    reveal_strlit("effect ");
    assert(seq!['l', 'e', 'f', 't'] =~= "left"@);
    assert(seq!['p', 'r', 'e', 'v'] =~= "prev"@);
    assert(seq!['r', 'i', 'g', 'h', 't'] =~= "right"@);
    assert(seq!['n', 'e', 'x', 't'] =~= "next"@);
    assert(seq!['t', 'a', 'b'] =~= "tab"@);
    assert(seq!['c', 'a', 'l', 'i', 'b', 'r', 'a', 't', 'e'] =~= "calibrate"@);
    assert(seq!['f'] =~= "f"@);
    assert(seq!['f', 'p', 's'] =~= "fps"@);
    assert(seq!['s'] =~= "s"@);
    assert(seq!['s', 'a', 'v', 'e'] =~= "save"@);
    assert(seq!['l'] =~= "l"@);
    assert(seq!['l', 'o', 'a', 'd'] =~= "load"@);
    assert(seq!['q'] =~= "q"@);
    assert(seq!['q', 'u', 'i', 't'] =~= "quit"@);
    assert(seq!['e', 'x', 'i', 't'] =~= "exit"@);
}

/// A line of decimal digits, or `effect ` followed by one (with spaces around it allowed),
/// selects the effect with that number when it fits in `usize`.
pub proof fn lemma_effect_numbers(d: Seq<char>)
    requires
        d.len() > 0,
        forall|i: int| 0 <= i < d.len() ==> is_ascii_digit(#[trigger] d[i]),
        decimal_value(d) <= usize::MAX,
    ensures
        command_of(d) == Some(Command::Effect(decimal_value(d) as usize)),
        command_of(seq!['e', 'f', 'f', 'e', 'c', 't', ' '] + d) == Some(
            Command::Effect(decimal_value(d) as usize),
        ),
{
    reveal_strlit("left");
    reveal_strlit("prev");
    reveal_strlit("right");
    reveal_strlit("next");
    reveal_strlit("tab");
    reveal_strlit("calibrate");
    reveal_strlit("f");
    reveal_strlit("fps");
    reveal_strlit("s");
    reveal_strlit("save");
    reveal_strlit("l");
    reveal_strlit("load");
    reveal_strlit("q");
    reveal_strlit("quit");
    reveal_strlit("exit");
    reveal_strlit("effect ");
    assert(!is_ascii_digit('l') && !is_ascii_digit('p') && !is_ascii_digit('r') && !is_ascii_digit('n'));
    assert(d[0] != 'l' && d[0] != 'p' && d[0] != 'r' && d[0] != 'n' && d[0] != 't' && d[0] != 'c'
        && d[0] != 'f' && d[0] != 's' && d[0] != 'q' && d[0] != 'e' && d[0] != '+');
    assert(d[0] != ("left"@)[0]);
    assert(d != "left"@);
    assert(d[0] != ("prev"@)[0]);
    assert(d != "prev"@);
    assert(d[0] != ("right"@)[0]);
    assert(d != "right"@);
    assert(d[0] != ("next"@)[0]);
    assert(d != "next"@);
    assert(d[0] != ("tab"@)[0]);
    assert(d != "tab"@);
    assert(d[0] != ("calibrate"@)[0]);
    assert(d != "calibrate"@);
    assert(d[0] != ("f"@)[0]);
    assert(d != "f"@);
    assert(d[0] != ("fps"@)[0]);
    assert(d != "fps"@);
    assert(d[0] != ("s"@)[0]);
    assert(d != "s"@);
    assert(d[0] != ("save"@)[0]);
    assert(d != "save"@);
    assert(d[0] != ("l"@)[0]);
    assert(d != "l"@);
    assert(d[0] != ("load"@)[0]);
    assert(d != "load"@);
    assert(d[0] != ("q"@)[0]);
    assert(d != "q"@);
    assert(d[0] != ("quit"@)[0]);
    assert(d != "quit"@);
    assert(d[0] != ("exit"@)[0]);
    assert(d != "exit"@);
    let e = seq!['e', 'f', 'f', 'e', 'c', 't', ' '] + d;
    assert(e.len() > 7);
    assert("effect "@.is_prefix_of(e)) by {
        assert(e.subrange(0, 7) =~= "effect "@);
    }
    assert(e.skip(7) =~= d);
    assert(is_ascii_digit(d[0]) && is_ascii_digit(d[d.len() - 1]));
    assert(trim_start_chars(d) == d);
    assert(trim_end_chars(d) == d);
    assert(e != "left"@) by {
        if e.len() == ("left"@).len() {
            assert(e[1] != ("left"@)[1] || e[0] != ("left"@)[0]);
        }
    }
    assert(e != "prev"@) by {
        if e.len() == ("prev"@).len() {
            assert(e[1] != ("prev"@)[1] || e[0] != ("prev"@)[0]);
        }
    }
    assert(e != "right"@) by {
        if e.len() == ("right"@).len() {
            assert(e[1] != ("right"@)[1] || e[0] != ("right"@)[0]);
        }
    }
    assert(e != "next"@) by {
        if e.len() == ("next"@).len() {
            assert(e[1] != ("next"@)[1] || e[0] != ("next"@)[0]);
        }
    }
    assert(e != "tab"@) by {
        if e.len() == ("tab"@).len() {
            assert(e[1] != ("tab"@)[1] || e[0] != ("tab"@)[0]);
        }
    }
    assert(e != "calibrate"@) by {
        if e.len() == ("calibrate"@).len() {
            assert(e[1] != ("calibrate"@)[1] || e[0] != ("calibrate"@)[0]);
        }
    }
    assert(e != "f"@);
    assert(e != "fps"@) by {
        if e.len() == ("fps"@).len() {
            assert(e[1] != ("fps"@)[1] || e[0] != ("fps"@)[0]);
        }
    }
    assert(e != "s"@);
    assert(e != "save"@) by {
        if e.len() == ("save"@).len() {
            assert(e[1] != ("save"@)[1] || e[0] != ("save"@)[0]);
        }
    }
    assert(e != "l"@);
    assert(e != "load"@) by {
        if e.len() == ("load"@).len() {
            assert(e[1] != ("load"@)[1] || e[0] != ("load"@)[0]);
        }
    }
    assert(e != "q"@);
    assert(e != "quit"@) by {
        if e.len() == ("quit"@).len() {
            assert(e[1] != ("quit"@)[1] || e[0] != ("quit"@)[0]);
        }
    }
    assert(e != "exit"@) by {
        if e.len() == ("exit"@).len() {
            assert(e[1] != ("exit"@)[1] || e[0] != ("exit"@)[0]);
        }
    }
    assert(trim_chars(e.skip(7)) == d);
    assert(("effect "@).len() == 7);
    assert(parse_usize_spec(d) == Some(decimal_value(d) as usize));
    assert(command_of(e) == Some(Command::Effect(decimal_value(d) as usize)));
    assert(!("effect "@).is_prefix_of(d)) by {
        if ("effect "@).is_prefix_of(d) {
            assert(d[0] == ("effect "@)[0]);
        }
    }
}

} // verus!
