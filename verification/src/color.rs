//! The closed set of entity colors. Only equality on colors matters; an
//! agent may manipulate exactly the boxes of its own color.

use vstd::prelude::*;

verus! {

#[derive(Debug, Clone, Copy, PartialEq, Eq, Structural)]
pub enum Color {
    Blue,
    Red,
    Cyan,
    Purple,
    Green,
    Orange,
    Pink,
    Grey,
    Lightblue,
    Brown,
}

impl View for Color {
    type V = Color;

    open spec fn view(&self) -> Color {
        *self
    }
}

impl DeepView for Color {
    type V = Color;

    open spec fn deep_view(&self) -> Color {
        *self
    }
}

/// ASCII lowercasing of a single character.
pub open spec fn lower_char(c: char) -> char {
    if 'A' <= c && c <= 'Z' {
        ((c as u8) + 32) as char
    } else {
        c
    }
}

/// ASCII lowercasing of a character sequence.
pub open spec fn lower_seq(s: Seq<char>) -> Seq<char> {
    s.map_values(|c: char| lower_char(c))
}

/// The color a (lowercased) name denotes; unknown names fall back to blue.
pub open spec fn spec_color_of_name(s: Seq<char>) -> Color {
    if s == "blue"@ {
        Color::Blue
    } else if s == "red"@ {
        Color::Red
    } else if s == "cyan"@ {
        Color::Cyan
    } else if s == "purple"@ {
        Color::Purple
    } else if s == "green"@ {
        Color::Green
    } else if s == "orange"@ {
        Color::Orange
    } else if s == "pink"@ {
        Color::Pink
    } else if s == "grey"@ {
        Color::Grey
    } else if s == "lightblue"@ {
        Color::Lightblue
    } else if s == "brown"@ {
        Color::Brown
    } else {
        Color::Blue
    }
}

fn lower(c: char) -> (r: char)
    ensures
        r == lower_char(c),
{
    if 'A' <= c && c <= 'Z' {
        ((c as u8) + 32) as char
    } else {
        c
    }
}

/// Compares a name, case-insensitively in ASCII, against a lowercase pattern.
fn name_matches(v: &Vec<char>, pat: &str) -> (r: bool)
    ensures
        r == (lower_seq(v@) == pat@),
{
    let pat_len = pat.unicode_len();
    if v.len() != pat_len {
        proof {
            assert(lower_seq(v@).len() == v@.len());
        }
        return false;
    }
    let mut i: usize = 0;
    while i < pat_len
        invariant
            0 <= i <= pat_len,
            v@.len() == pat_len,
            pat@.len() == pat_len,
            forall|k: int| 0 <= k < i ==> lower_char(v@[k]) == pat@[k],
        decreases pat_len - i,
    {
        let c = pat.get_char(i);
        if lower(v[i]) != c {
            proof {
                assert(lower_seq(v@)[i as int] != pat@[i as int]);
            }
            return false;
        }
        i += 1;
    }
    proof {
        assert(lower_seq(v@) =~= pat@);
    }
    true
}

impl Color {
    /// Parses a color name, ignoring ASCII case; unknown names yield blue.
    pub fn from_chars(v: &Vec<char>) -> (r: Color)
        ensures
            r == spec_color_of_name(lower_seq(v@)),
    {
        if name_matches(v, "blue") {
            Color::Blue
        } else if name_matches(v, "red") {
            Color::Red
        } else if name_matches(v, "cyan") {
            Color::Cyan
        } else if name_matches(v, "purple") {
            Color::Purple
        } else if name_matches(v, "green") {
            Color::Green
        } else if name_matches(v, "orange") {
            Color::Orange
        } else if name_matches(v, "pink") {
            Color::Pink
        } else if name_matches(v, "grey") {
            Color::Grey
        } else if name_matches(v, "lightblue") {
            Color::Lightblue
        } else if name_matches(v, "brown") {
            Color::Brown
        } else {
            Color::Blue
        }
    }

    /// Parses a color name given as a string slice. Every color name is
    /// ASCII; other input names no color and falls back to blue.
    pub fn from_string(s: &str) -> (r: Color)
        ensures
            s.is_ascii() ==> r == spec_color_of_name(lower_seq(s@)),
            !s.is_ascii() ==> r == Color::Blue,
    {
        if !s.is_ascii() {
            return Color::Blue;
        }
        let n = s.unicode_len();
        let mut v: Vec<char> = Vec::new();
        let mut i: usize = 0;
        while i < n
            invariant
                0 <= i <= n,
                s@.len() == n,
                s.is_ascii(),
                v@ =~= s@.take(i as int),
            decreases n - i,
        {
            v.push(s.get_char(i));
            i += 1;
        }
        proof {
            assert(v@ =~= s@);
        }
        Color::from_chars(&v)
    }
}

} // verus!
