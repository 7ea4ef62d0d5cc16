use vstd::prelude::*;
use crate::decimal::{all_digits, digits_value, digits_value_capped, is_digit, lemma_digits_bounds};
use crate::text::{chars_of, push_char};

verus! {

/// The colour the reading is drawn in.
#[derive(PartialEq, Eq, Structural, Clone, Copy, Debug)]
pub enum DisplayColor {
    Red,
    Green,
    Blue,
}

/// The settings of a session, from the command line.
#[derive(Debug)]
pub struct Config {
    pub port_name: String,
    pub baud_rate: u32,
    pub channel_no: u32,
    pub unit: String,
    pub window_position: String,
    pub scpi_protocol_enabled: bool,
    pub enable_chart: String,
    pub color: DisplayColor,
    pub enable_csv_logger: bool,
}

/// The value of `s` as an unsigned integer: an optional `+` and at least one digit.
pub open spec fn unsigned_value(s: Seq<char>) -> Option<int> {
    let start: int = if s.len() > 0 && s[0] == '+' {
        1
    } else {
        0
    };
    let d = s.subrange(start, s.len() as int);
    if d.len() > 0 && all_digits(d) {
        Some(digits_value(d))
    } else {
        None
    }
}

/// The value of `s` as a signed integer: an optional `+` or `-` and at least one digit.
pub open spec fn signed_value(s: Seq<char>) -> Option<int> {
    let start: int = if s.len() > 0 && (s[0] == '+' || s[0] == '-') {
        1
    } else {
        0
    };
    let d = s.subrange(start, s.len() as int);
    if d.len() > 0 && all_digits(d) {
        Some(
            if start == 1 && s[0] == '-' {
                -digits_value(d)
            } else {
                digits_value(d)
            },
        )
    } else {
        None
    }
}

pub open spec fn u32_value(s: Seq<char>) -> Option<u32> {
    match unsigned_value(s) {
        Some(v) => if v <= u32::MAX {
            Some(v as u32)
        } else {
            None
        },
        None => None,
    }
}

pub open spec fn i32_value(s: Seq<char>) -> Option<i32> {
    match signed_value(s) {
        Some(v) => if i32::MIN <= v <= i32::MAX {
            Some(v as i32)
        } else {
            None
        },
        None => None,
    }
}

/// Whether `t[from..to]` is made of digits only.
fn only_digits(t: &Vec<char>, from: usize, to: usize) -> (r: bool)
    requires
        from <= to <= t@.len(),
    ensures
        r == all_digits(t@.subrange(from as int, to as int)),
{
    let mut i = from;
    while i < to
        invariant
            from <= i <= to <= t@.len(),
            forall|k: int| from <= k < i ==> is_digit(#[trigger] t@[k]),
        decreases to - i,
    {
        if t[i] < '0' || t[i] > '9' {
            assert(!is_digit(t@.subrange(from as int, to as int)[i - from]));
            return false;
        }
        i = i + 1;
    }
    assert forall|k: int| 0 <= k < to - from implies is_digit(
        #[trigger] t@.subrange(from as int, to as int)[k],
    ) by {
        assert(t@.subrange(from as int, to as int)[k] == t@[from + k]);
    }
    true
}

/// Reads `t[from..to]`, with an optional sign (a `-` only where `signed`), as a magnitude
/// capped at `2^32` and whether it is negative.
fn magnitude_of(t: &Vec<char>, from: usize, to: usize, signed: bool) -> (r: Option<(bool, u128)>)
    requires
        from <= to <= t@.len(),
    ensures
        ({
            let s = t@.subrange(from as int, to as int);
            let v = if signed {
                signed_value(s)
            } else {
                unsigned_value(s)
            };
            match r {
                None => v is None,
                Some((neg, m)) if !signed && neg => false,
                Some((neg, m)) => v is Some && m <= 0x1_0000_0000 && (m < 0x1_0000_0000 ==> v->0
                    == if neg {
                    -(m as int)
                } else {
                    m as int
                }) && (m == 0x1_0000_0000 ==> if neg {
                    v->0 <= -0x1_0000_0000
                } else {
                    v->0 >= 0x1_0000_0000
                }),
            }
        }),
{
    let ghost s = t@.subrange(from as int, to as int);
    let sign = from < to && (t[from] == '+' || (signed && t[from] == '-'));
    let start = if sign {
        from + 1
    } else {
        from
    };
    proof {
        assert(s.subrange(start - from, s.len() as int) == t@.subrange(start as int, to as int));
    }
    if start == to || !only_digits(t, start, to) {
        return None;
    }
    proof {
        let d = t@.subrange(start as int, to as int);
        lemma_digits_bounds(d);
        assert forall|k: int| start <= k < to implies is_digit(#[trigger] t@[k]) by {
            assert(t@[k] == d[k - start]);
        }
    }
    let m = digits_value_capped(t, start, to, 0x1_0000_0000);
    Some((sign && t[from] == '-', m))
}

/// Reads a `u32` as std's parser does: an optional `+`, digits, no overflow.
pub fn parse_u32(s: &str) -> (r: Option<u32>)
    ensures
        r == u32_value(s@),
{
    let t = chars_of(s);
    proof {
        assert(t@.subrange(0, t@.len() as int) == s@);
    }
    match magnitude_of(&t, 0, t.len(), false) {
        None => None,
        Some((_, m)) => if m <= 0xffff_ffff {
            Some(m as u32)
        } else {
            None
        },
    }
}

/// Reads `t[from..to]` as an `i32`, as std's parser does: an optional sign, digits, no overflow.
pub fn parse_i32_range(t: &Vec<char>, from: usize, to: usize) -> (r: Option<i32>)
    requires
        from <= to <= t@.len(),
    ensures
        r == i32_value(t@.subrange(from as int, to as int)),
{
    match magnitude_of(t, from, to, true) {
        None => None,
        Some((neg, m)) => if neg {
            if m <= 0x8000_0000 {
                Some((0 - m as i64) as i32)
            } else {
                None
            }
        } else {
            if m <= 0x7fff_ffff {
                Some(m as i32)
            } else {
                None
            }
        },
    }
}

/// Reads an `i32` as std's parser does: an optional sign, digits, no overflow.
pub fn parse_i32(s: &str) -> (r: Option<i32>)
    ensures
        r == i32_value(s@),
{
    let t = chars_of(s);
    proof {
        assert(t@.subrange(0, t@.len() as int) == s@);
    }
    parse_i32_range(&t, 0, t.len())
}

/// Whether `s` is the one character `c`.
fn is_single(s: &str, c: char) -> (r: bool)
    ensures
        r == (s@ == seq![c]),
{
    let n = s.unicode_len();
    if n != 1 {
        proof {
            if s@ == seq![c] {
                assert(s@.len() == 1);
            }
        }
        return false;
    }
    let r = s.get_char(0) == c;
    proof {
        if r {
            assert(s@ == seq![c]);
        }
    }
    r
}

pub open spec fn color_of(s: Seq<char>) -> DisplayColor {
    if s == seq!['g'] {
        DisplayColor::Green
    } else if s == seq!['b'] {
        DisplayColor::Blue
    } else {
        DisplayColor::Red
    }
}

/// `"g"` and `"b"` pick green and blue; anything else red.
pub fn color_from_code(s: &str) -> (r: DisplayColor)
    ensures
        r == color_of(s@),
{
    if is_single(s, 'g') {
        DisplayColor::Green
    } else if is_single(s, 'b') {
        DisplayColor::Blue
    } else {
        DisplayColor::Red
    }
}

/// `"1"` turns a switch on; anything else leaves it off.
pub fn switch_from_code(s: &str) -> (r: bool)
    ensures
        r == (s@ == seq!['1']),
{
    is_single(s, '1')
}

/// Appends the characters of `t` to `s`.
fn push_text(s: &mut String, t: &str)
    ensures
        final(s)@ == old(s)@ + t@,
{
    let cs = chars_of(t);
    let mut i: usize = 0;
    while i < cs.len()
        invariant
            i <= cs@.len(),
            cs@ == t@,
            s@ == old(s)@ + t@.take(i as int),
        decreases cs@.len() - i,
    {
        push_char(s, cs[i]);
        i = i + 1;
        assert(t@.take(i as int) == t@.take(i - 1).push(t@[i - 1]));
    }
    assert(t@.take(t@.len() as int) == t@);
}

impl Config {
    /// Builds the settings from the command line's values; the baud rate and the channel
    /// number must be unsigned integers.
    pub fn new(
        port: &str,
        baud: &str,
        channel_no: &str,
        unit: &str,
        window_position: &str,
        scpi_protocol_enabled: &str,
        enable_chart: &str,
        color: &str,
        enable_csv_logger: &str,
    ) -> (r: Result<Config, String>)
        ensures
            u32_value(baud@) is None ==> (r matches Err(m) && m@ == "Invalid baud rate"@),
            u32_value(baud@) is Some && u32_value(channel_no@) is None ==> (r matches Err(m) && m@
                == "Invalid channel number"@),
            u32_value(baud@) is Some && u32_value(channel_no@) is Some ==> (r matches Ok(c) && {
                &&& c.port_name@ == port@
                &&& c.baud_rate == u32_value(baud@)->0
                &&& c.channel_no == u32_value(channel_no@)->0
                &&& c.unit@ == unit@
                &&& c.window_position@ == window_position@
                &&& c.scpi_protocol_enabled == (scpi_protocol_enabled@ == seq!['1'])
                &&& c.enable_chart@ == enable_chart@
                &&& c.color == color_of(color@)
                &&& c.enable_csv_logger == (enable_csv_logger@ == seq!['1'])
            }),
    {
        let baud_rate = match parse_u32(baud) {
            Some(b) => b,
            None => {
                return Err("Invalid baud rate".to_owned());
            },
        };
        let channel = match parse_u32(channel_no) {
            Some(c) => c,
            None => {
                return Err("Invalid channel number".to_owned());
            },
        };
        Ok(
            Config {
                port_name: port.to_owned(),
                baud_rate,
                channel_no: channel,
                unit: unit.to_owned(),
                window_position: window_position.to_owned(),
                scpi_protocol_enabled: switch_from_code(scpi_protocol_enabled),
                enable_chart: enable_chart.to_owned(),
                color: color_from_code(color),
                enable_csv_logger: switch_from_code(enable_csv_logger),
            },
        )
    }

    /// Accepts an `i32`; otherwise says that the value is not a valid integer.
    pub fn validate_number(val: &str) -> (r: Result<(), String>)
        ensures
            i32_value(val@) is Some ==> r is Ok,
            i32_value(val@) is None ==> (r matches Err(m) && m@ == "`"@ + val@
                + "` is not a valid integer!"@),
    {
        if parse_i32(val).is_some() {
            Ok(())
        } else {
            let mut m = String::new();
            push_text(&mut m, "`");
            push_text(&mut m, val);
            push_text(&mut m, "` is not a valid integer!");
            Err(m)
        }
    }

    /// Accepts a `u32`; otherwise says that the baud rate is invalid.
    pub fn valid_baud(val: &str) -> (r: Result<(), String>)
        ensures
            u32_value(val@) is Some ==> r is Ok,
            u32_value(val@) is None ==> (r matches Err(m) && m@ == "Invalid baud rate '"@
                + val@ + "' specified"@),
    {
        if parse_u32(val).is_some() {
            Ok(())
        } else {
            let mut m = String::new();
            push_text(&mut m, "Invalid baud rate '");
            push_text(&mut m, val);
            push_text(&mut m, "' specified");
            Err(m)
        }
    }
}

} // verus!
