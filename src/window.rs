use vstd::prelude::*;
use crate::config::{i32_value, parse_i32_range};
use crate::text::chars_of;

verus! {

/// Why a window position code was refused.
#[derive(PartialEq, Eq, Structural, Clone, Copy, Debug)]
pub enum PositionError {
    /// The code is not two parts joined by one `_`.
    Format,
    /// The first part is not an integer.
    Horizontal,
    /// The second part is not an integer.
    Vertical,
    /// A part lies outside `1..=4`.
    Sections,
}

pub open spec fn underscore_count(s: Seq<char>) -> int
    decreases s.len(),
{
    if s.len() == 0 {
        0
    } else {
        underscore_count(s.drop_last()) + if s.last() == '_' {
            1int
        } else {
            0int
        }
    }
}

/// Where the one `_` of a code stands, where it has exactly one.
pub open spec fn sole_underscore(s: Seq<char>) -> Option<int> {
    if underscore_count(s) == 1 {
        Some(choose|i: int| 0 <= i < s.len() && s[i] == '_')
    } else {
        None
    }
}

/// The horizontal and vertical sections that a code such as `3_3` names, each in `1..=4`.
pub open spec fn position_sections(s: Seq<char>) -> Result<(i32, i32), PositionError> {
    match sole_underscore(s) {
        None => Err(PositionError::Format),
        Some(i) => match i32_value(s.take(i)) {
            None => Err(PositionError::Horizontal),
            Some(h) => match i32_value(s.skip(i + 1)) {
                None => Err(PositionError::Vertical),
                Some(v) => if 1 <= h <= 4 && 1 <= v <= 4 {
                    Ok((h, v))
                } else {
                    Err(PositionError::Sections)
                },
            },
        },
    }
}

/// Half of `a`, rounded toward zero.
pub open spec fn half_toward_zero(a: int) -> int {
    if a >= 0 {
        a / 2
    } else {
        -((-a) / 2)
    }
}

/// Where a window of `window` pixels is centred in section `section` of four across `screen`
/// pixels, kept off the negative side.
pub open spec fn section_origin(section: int, screen: int, window: int) -> int {
    let width = screen / 4;
    let x = (section - 1) * width + half_toward_zero(width - window);
    if x < 0 {
        0
    } else {
        x
    }
}

proof fn lemma_underscore_count(s: Seq<char>)
    ensures
        underscore_count(s) >= 0,
        underscore_count(s) == 0 ==> forall|i: int| 0 <= i < s.len() ==> s[i] != '_',
        underscore_count(s) == 1 ==> exists|i: int| 0 <= i < s.len() && s[i] == '_',
        underscore_count(s) == 1 ==> forall|i: int, j: int|
            0 <= i < s.len() && 0 <= j < s.len() && s[i] == '_' && s[j] == '_' ==> i == j,
    decreases s.len(),
{
    if s.len() > 0 {
        let t = s.drop_last();
        lemma_underscore_count(t);
        assert forall|i: int| 0 <= i < t.len() implies s[i] == t[i] by {}
        if underscore_count(s) == 1 && s.last() == '_' {
            assert(s[s.len() - 1] == '_');
        }
    }
}

fn section_coordinate(section: i32, screen: i32, window: i32) -> (r: i32)
    requires
        1 <= section <= 4,
        screen >= 0,
        window >= 0,
    ensures
        r == section_origin(section as int, screen as int, window as int),
{
    let width = screen / 4;
    let d: i64 = width as i64 - window as i64;
    let half: i64 = if d >= 0 {
        d / 2
    } else {
        -((-d) / 2)
    };
    assert(0 <= (section as i64 - 1) * width as i64 <= 3 * width as i64) by (nonlinear_arith)
        requires 1 <= section <= 4, width >= 0;
    let x: i64 = (section as i64 - 1) * width as i64 + half;
    if x < 0 {
        0
    } else {
        x as i32
    }
}

/// The window's top-left corner for a position code of the form `<x>_<y>`, each in `1..=4`,
/// centring the window in that quarter of the screen across and down.
pub fn calculate_window_position(
    position_code: &str,
    screen_width: i32,
    screen_height: i32,
    window_width: i32,
    window_height: i32,
) -> (r: Result<(i32, i32), PositionError>)
    requires
        screen_width >= 0,
        screen_height >= 0,
        window_width >= 0,
        window_height >= 0,
    ensures
        match position_sections(position_code@) {
            Err(e) => r == Err::<(i32, i32), PositionError>(e),
            Ok((h, v)) => r matches Ok((x, y)) && x == section_origin(
                h as int,
                screen_width as int,
                window_width as int,
            ) && y == section_origin(v as int, screen_height as int, window_height as int),
        },
{
    let t = chars_of(position_code);
    let ghost s = position_code@;
    let mut count: usize = 0;
    let mut at: usize = 0;
    let mut i: usize = 0;
    while i < t.len()
        invariant
            t@ == s,
            i <= t@.len(),
            count as int == underscore_count(s.take(i as int)),
            count <= i,
            count >= 1 ==> at < i && s[at as int] == '_',
        decreases t@.len() - i,
    {
        assert(s.take(i as int + 1).drop_last() == s.take(i as int));
        if t[i] == '_' {
            if count == 0 {
                at = i;
            }
            count = count + 1;
        }
        i = i + 1;
    }
    assert(s.take(s.len() as int) == s);
    if count != 1 {
        return Err(PositionError::Format);
    }
    proof {
        lemma_underscore_count(s);
        assert(sole_underscore(s) == Some(at as int));
        assert(t@.subrange(0, at as int) == s.take(at as int));
        assert(t@.subrange(at + 1, t@.len() as int) == s.skip(at + 1));
    }
    let h = match parse_i32_range(&t, 0, at) {
        Some(h) => h,
        None => {
            return Err(PositionError::Horizontal);
        },
    };
    let v = match parse_i32_range(&t, at + 1, t.len()) {
        Some(v) => v,
        None => {
            return Err(PositionError::Vertical);
        },
    };
    if h < 1 || h > 4 || v < 1 || v > 4 {
        return Err(PositionError::Sections);
    }
    Ok(
        (
            section_coordinate(h, screen_width, window_width),
            section_coordinate(v, screen_height, window_height),
        ),
    )
}

} // verus!
