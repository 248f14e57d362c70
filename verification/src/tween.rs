//! Easing functions and tween states.
//!
//! The easing curves themselves are floating-point formulas and are applied
//! outside this crate; here are the easing identifiers, their names and
//! parsing, and the states a tween moves through.

use vstd::prelude::*;

verus! {

/// Easing functions for tweens
///
/// Easing functions transform a linear time value into a curved one,
/// creating more natural-feeling animations.
#[derive(Clone, Copy, Debug, PartialEq, Eq, Hash, Structural)]
pub enum EasingFunction {
    /// Linear interpolation (no easing)
    Linear,
    /// Quadratic ease-in (slow start)
    EaseInQuad,
    /// Quadratic ease-out (slow end)
    EaseOutQuad,
    /// Quadratic ease-in-out (slow start and end)
    EaseInOutQuad,
    /// Cubic ease-in (slower start)
    EaseInCubic,
    /// Cubic ease-out (slower end)
    EaseOutCubic,
    /// Cubic ease-in-out (slower start and end)
    EaseInOutCubic,
}

impl Default for EasingFunction {
    fn default() -> (r: Self)
        ensures
            r == EasingFunction::Linear,
    {
        EasingFunction::Linear
    }
}

/// The lowercase form of a string, as `str::to_lowercase` computes it
/// (Unicode lowercase mapping).
pub uninterp spec fn lowercase(s: Seq<char>) -> Seq<char>;

/// The character is an ASCII capital letter.
pub open spec fn is_ascii_upper(c: char) -> bool {
    'A' <= c && c <= 'Z'
}

/// The character is an ASCII small letter.
pub open spec fn is_ascii_lower(c: char) -> bool {
    'a' <= c && c <= 'z'
}

/// Every character of the text is ASCII.
pub open spec fn is_ascii(s: Seq<char>) -> bool {
    forall|i: int| 0 <= i < s.len() ==> (#[trigger] s[i] as u32) < 128
}

/// The text with ASCII capitals turned into small letters.
pub open spec fn ascii_lowercase(s: Seq<char>) -> Seq<char> {
    s.map_values(|c: char| if is_ascii_upper(c) { ((c as u32) + 32) as char } else { c })
}

/// The text with ASCII small letters turned into capitals.
pub open spec fn ascii_uppercase(s: Seq<char>) -> Seq<char> {
    s.map_values(|c: char| if is_ascii_lower(c) { ((c as u32) - 32) as char } else { c })
}

/// Lowercases a string with `str::to_lowercase`.
///
/// Trusted: the result is named [`lowercase`]; it depends on the input
/// only. For ASCII text the Unicode lowercase mapping turns `A`..`Z` into
/// `a`..`z` and keeps every other character, which the contract states.
#[verifier::external_body]
fn to_lowercase(s: &str) -> (r: String)
    ensures
        r@ == lowercase(s@),
        is_ascii(s@) ==> r@ == ascii_lowercase(s@),
{
    s.to_lowercase()
}

/// Compares two strings character by character.
pub fn str_equals(a: &str, b: &str) -> (r: bool)
    ensures
        r == (a@ == b@),
{
    let n = a.unicode_len();
    if n != b.unicode_len() {
        return false;
    }
    let mut i: usize = 0;
    while i < n
        invariant
            n == a@.len(),
            n == b@.len(),
            i <= n,
            forall|k: int| 0 <= k < i ==> a@[k] == b@[k],
        decreases n - i,
    {
        if a.get_char(i) != b.get_char(i) {
            return false;
        }
        i = i + 1;
    }
    assert(a@ == b@);
    true
}

/// The easing function a lowercase name denotes, if any.
pub open spec fn easing_for_lowercase_name(s: Seq<char>) -> Option<EasingFunction> {
    if s == "linear"@ {
        Some(EasingFunction::Linear)
    } else if s == "ease_in_quad"@ || s == "easeinquad"@ || s == "in_quad"@ || s == "inquad"@ {
        Some(EasingFunction::EaseInQuad)
    } else if s == "ease_out_quad"@ || s == "easeoutquad"@ || s == "out_quad"@ || s == "outquad"@ {
        Some(EasingFunction::EaseOutQuad)
    } else if s == "ease_in_out_quad"@ || s == "easeinoutquad"@ || s == "in_out_quad"@ || s
        == "inoutquad"@ {
        Some(EasingFunction::EaseInOutQuad)
    } else if s == "ease_in_cubic"@ || s == "easeincubic"@ || s == "in_cubic"@ || s == "incubic"@ {
        Some(EasingFunction::EaseInCubic)
    } else if s == "ease_out_cubic"@ || s == "easeoutcubic"@ || s == "out_cubic"@ || s
        == "outcubic"@ {
        Some(EasingFunction::EaseOutCubic)
    } else if s == "ease_in_out_cubic"@ || s == "easeinoutcubic"@ || s == "in_out_cubic"@ || s
        == "inoutcubic"@ {
        Some(EasingFunction::EaseInOutCubic)
    } else {
        None
    }
}

/// The canonical name of each easing function.
pub open spec fn easing_name(e: EasingFunction) -> Seq<char> {
    match e {
        EasingFunction::Linear => "linear"@,
        EasingFunction::EaseInQuad => "ease_in_quad"@,
        EasingFunction::EaseOutQuad => "ease_out_quad"@,
        EasingFunction::EaseInOutQuad => "ease_in_out_quad"@,
        EasingFunction::EaseInCubic => "ease_in_cubic"@,
        EasingFunction::EaseOutCubic => "ease_out_cubic"@,
        EasingFunction::EaseInOutCubic => "ease_in_out_cubic"@,
    }
}

impl EasingFunction {
    /// Parse an easing function from a string (for Lua API)
    ///
    /// The input is lowercased first, so matching ignores case. Accepts
    /// various formats:
    /// - `"linear"`
    /// - `"ease_in_quad"`, `"easeinquad"`, `"in_quad"` or `"inquad"`
    /// - etc. for the other curves
    ///
    /// # Returns
    /// `Some(EasingFunction)` if recognized, `None` otherwise
    pub fn from_str(s: &str) -> (r: Option<Self>)
        ensures
            r == easing_for_lowercase_name(lowercase(s@)),
            is_ascii(s@) ==> r == easing_for_lowercase_name(ascii_lowercase(s@)),
    {
        let lower = to_lowercase(s);
        Self::from_lowercase(lower.as_str())
    }

    /// Parse an already-lowercased easing name (the part of
    /// [`from_str`](Self::from_str) after lowercasing).
    pub fn from_lowercase(s: &str) -> (r: Option<Self>)
        ensures
            r == easing_for_lowercase_name(s@),
            forall|e: EasingFunction, i: int|
                0 <= i < documented_aliases(e).len() && s@ == #[trigger] documented_aliases(e)[i] ==> r == Some(e),
    {
        proof {
            assert forall|e: EasingFunction, i: int|
                0 <= i < documented_aliases(e).len() && s@ == #[trigger] documented_aliases(e)[i] implies easing_for_lowercase_name(
                s@,
            ) == Some(e) by {
                law_documented_aliases_parse(e, i);
            }
        }
        if str_equals(s, "linear") {
            Some(EasingFunction::Linear)
        } else if str_equals(s, "ease_in_quad") || str_equals(s, "easeinquad") || str_equals(
            s,
            "in_quad",
        ) || str_equals(s, "inquad") {
            Some(EasingFunction::EaseInQuad)
        } else if str_equals(s, "ease_out_quad") || str_equals(s, "easeoutquad") || str_equals(
            s,
            "out_quad",
        ) || str_equals(s, "outquad") {
            Some(EasingFunction::EaseOutQuad)
        } else if str_equals(s, "ease_in_out_quad") || str_equals(s, "easeinoutquad") || str_equals(
            s,
            "in_out_quad",
        ) || str_equals(s, "inoutquad") {
            Some(EasingFunction::EaseInOutQuad)
        } else if str_equals(s, "ease_in_cubic") || str_equals(s, "easeincubic") || str_equals(
            s,
            "in_cubic",
        ) || str_equals(s, "incubic") {
            Some(EasingFunction::EaseInCubic)
        } else if str_equals(s, "ease_out_cubic") || str_equals(s, "easeoutcubic") || str_equals(
            s,
            "out_cubic",
        ) || str_equals(s, "outcubic") {
            Some(EasingFunction::EaseOutCubic)
        } else if str_equals(s, "ease_in_out_cubic") || str_equals(s, "easeinoutcubic")
            || str_equals(s, "in_out_cubic") || str_equals(s, "inoutcubic") {
            Some(EasingFunction::EaseInOutCubic)
        } else {
            None
        }
    }

    /// Get the string name of this easing function
    pub fn name(&self) -> (r: &'static str)
        ensures
            r@ == easing_name(*self),
    {
        match self {
            EasingFunction::Linear => "linear",
            EasingFunction::EaseInQuad => "ease_in_quad",
            EasingFunction::EaseOutQuad => "ease_out_quad",
            EasingFunction::EaseInOutQuad => "ease_in_out_quad",
            EasingFunction::EaseInCubic => "ease_in_cubic",
            EasingFunction::EaseOutCubic => "ease_out_cubic",
            EasingFunction::EaseInOutCubic => "ease_in_out_cubic",
        }
    }

    /// Parse an easing function, reporting the input on failure.
    pub fn parse(s: &str) -> (r: Result<Self, ParseEasingError>)
        ensures
            is_ascii(s@) ==> easing_for_lowercase_name(lowercase(s@)) == easing_for_lowercase_name(
                ascii_lowercase(s@),
            ),
            easing_for_lowercase_name(lowercase(s@)) matches Some(e) ==> r == Ok::<Self, ParseEasingError>(e),
            easing_for_lowercase_name(lowercase(s@)) is None ==> (r matches Err(err) && err.input@ == s@),
    {
        match Self::from_str(s) {
            Some(e) => Ok(e),
            None => Err(ParseEasingError { input: String::from_str(s) }),
        }
    }
}

/// Error type for parsing easing function from string
#[derive(Clone, Debug, PartialEq, Eq)]
pub struct ParseEasingError {
    /// The input string that failed to parse
    pub input: String,
}

impl ParseEasingError {
    /// The human-readable description of this error.
    pub fn message(&self) -> (r: String)
        ensures
            r@ == "unknown easing function '"@ + self.input@ + "', expected one of: linear, ease_in_quad, ease_out_quad, ease_in_out_quad, ease_in_cubic, ease_out_cubic, ease_in_out_cubic"@,
    {
        String::from_str("unknown easing function '").concat(self.input.as_str()).concat(
            "', expected one of: linear, ease_in_quad, ease_out_quad, ease_in_out_quad, ease_in_cubic, ease_out_cubic, ease_in_out_cubic",
        )
    }
}

/// Text without ASCII capitals is its own ASCII lowercase, and so is its
/// ASCII uppercase once lowercased again; ASCII text stays ASCII in upper
/// case.
pub proof fn lemma_ascii_case_round_trip(s: Seq<char>)
    requires
        forall|i: int| 0 <= i < s.len() ==> !is_ascii_upper(#[trigger] s[i]),
    ensures
        ascii_lowercase(s) == s,
        ascii_lowercase(ascii_uppercase(s)) == s,
        is_ascii(s) ==> is_ascii(ascii_uppercase(s)),
{
    let up = ascii_uppercase(s);
    assert(ascii_lowercase(s) =~= s);
    assert forall|i: int| 0 <= i < s.len() implies #[trigger] ascii_lowercase(up)[i] == s[i] by {
        let c = s[i];
        if is_ascii_lower(c) {
            let u = ((c as u32) - 32) as char;
            assert(up[i] == u);
            assert(u as u32 == (c as u32) - 32);
            assert(is_ascii_upper(u));
            assert(((u as u32) + 32) as char == c);
        } else {
            assert(up[i] == c);
        }
    }
    assert(ascii_lowercase(up) =~= s);
    if is_ascii(s) {
        assert forall|i: int| 0 <= i < up.len() implies (#[trigger] up[i] as u32) < 128 by {
            let c = s[i];
            assert((c as u32) < 128);
            if is_ascii_lower(c) {
                assert(up[i] as u32 == (c as u32) - 32);
            }
        }
    }
}

/// Every easing function's name is ASCII without capitals, so it parses
/// back to the same function as it is and in ASCII upper case (the inputs
/// of `from_str` on which `lowercase` is the ASCII lowercasing).
pub proof fn law_easing_name_round_trips_in_any_case(e: EasingFunction)
    ensures
        is_ascii(easing_name(e)),
        easing_for_lowercase_name(ascii_lowercase(easing_name(e))) == Some(e),
        is_ascii(ascii_uppercase(easing_name(e))),
        easing_for_lowercase_name(ascii_lowercase(ascii_uppercase(easing_name(e)))) == Some(e),
{
    law_easing_name_round_trip(e);
    let n = easing_name(e);
    reveal_strlit("linear");
    reveal_strlit("ease_in_quad");
    reveal_strlit("ease_out_quad");
    reveal_strlit("ease_in_out_quad");
    reveal_strlit("ease_in_cubic");
    reveal_strlit("ease_out_cubic");
    reveal_strlit("ease_in_out_cubic");
    assert forall|i: int| 0 <= i < n.len() implies !is_ascii_upper(#[trigger] n[i]) && (n[i] as u32) < 128 by {
        assert(n[i] == '_' || is_ascii_lower(n[i]));
    }
    lemma_ascii_case_round_trip(n);
}

/// The documented spellings of each curve: the snake-case name, the
/// run-together name, and both without the `ease_` prefix.
pub open spec fn documented_aliases(e: EasingFunction) -> Seq<Seq<char>> {
    match e {
        EasingFunction::Linear => seq!["linear"@],
        EasingFunction::EaseInQuad => seq!["ease_in_quad"@, "easeinquad"@, "in_quad"@, "inquad"@],
        EasingFunction::EaseOutQuad => seq!["ease_out_quad"@, "easeoutquad"@, "out_quad"@, "outquad"@],
        EasingFunction::EaseInOutQuad => seq!["ease_in_out_quad"@, "easeinoutquad"@, "in_out_quad"@, "inoutquad"@],
        EasingFunction::EaseInCubic => seq!["ease_in_cubic"@, "easeincubic"@, "in_cubic"@, "incubic"@],
        EasingFunction::EaseOutCubic => seq!["ease_out_cubic"@, "easeoutcubic"@, "out_cubic"@, "outcubic"@],
        EasingFunction::EaseInOutCubic => seq!["ease_in_out_cubic"@, "easeinoutcubic"@, "in_out_cubic"@, "inoutcubic"@],
    }
}

/// Every documented spelling of each curve parses to that curve.
pub proof fn law_documented_aliases_parse(e: EasingFunction, i: int)
    requires
        0 <= i < documented_aliases(e).len(),
    ensures
        easing_for_lowercase_name(documented_aliases(e)[i]) == Some(e),
{
    reveal_strlit("linear");
    reveal_strlit("ease_in_quad");
    reveal_strlit("easeinquad");
    reveal_strlit("in_quad");
    reveal_strlit("inquad");
    reveal_strlit("ease_out_quad");
    reveal_strlit("easeoutquad");
    reveal_strlit("out_quad");
    reveal_strlit("outquad");
    reveal_strlit("ease_in_out_quad");
    reveal_strlit("easeinoutquad");
    reveal_strlit("in_out_quad");
    reveal_strlit("inoutquad");
    reveal_strlit("ease_in_cubic");
    reveal_strlit("easeincubic");
    reveal_strlit("in_cubic");
    reveal_strlit("incubic");
    reveal_strlit("ease_out_cubic");
    reveal_strlit("easeoutcubic");
    reveal_strlit("out_cubic");
    reveal_strlit("outcubic");
    reveal_strlit("ease_in_out_cubic");
    reveal_strlit("easeinoutcubic");
    reveal_strlit("in_out_cubic");
    reveal_strlit("inoutcubic");
    assert("linear"@.len() == 6);
    assert("ease_in_quad"@.len() == 12 && "easeinquad"@.len() == 10 && "in_quad"@.len() == 7 && "inquad"@.len() == 6);
    assert("ease_out_quad"@.len() == 13 && "easeoutquad"@.len() == 11 && "out_quad"@.len() == 8 && "outquad"@.len() == 7);
    assert("ease_in_out_quad"@.len() == 16 && "easeinoutquad"@.len() == 13 && "in_out_quad"@.len() == 11 && "inoutquad"@.len() == 9);
    assert("ease_in_cubic"@.len() == 13 && "easeincubic"@.len() == 11 && "in_cubic"@.len() == 8 && "incubic"@.len() == 7);
    assert("ease_out_cubic"@.len() == 14 && "easeoutcubic"@.len() == 12 && "out_cubic"@.len() == 9 && "outcubic"@.len() == 8);
    assert("ease_in_out_cubic"@.len() == 17 && "easeinoutcubic"@.len() == 14 && "in_out_cubic"@.len() == 12 && "inoutcubic"@.len() == 10);
    match e {
        EasingFunction::Linear => {
        },
        EasingFunction::EaseInQuad => {
            assert("inquad"@[0] != "linear"@[0]);
        },
        EasingFunction::EaseOutQuad => {
            assert("outquad"@[0] != "in_quad"@[0]);
        },
        EasingFunction::EaseInOutQuad => {
            assert("easeinoutquad"@[4] != "ease_out_quad"@[4]);
            assert("in_out_quad"@[0] != "easeoutquad"@[0]);
        },
        EasingFunction::EaseInCubic => {
            assert("ease_in_cubic"@[5] != "ease_out_quad"@[5]);
            assert("ease_in_cubic"@[4] != "easeinoutquad"@[4]);
            assert("easeincubic"@[4] != "easeoutquad"@[4]);
            assert("easeincubic"@[0] != "in_out_quad"@[0]);
            assert("in_cubic"@[0] != "out_quad"@[0]);
            assert("incubic"@[2] != "in_quad"@[2]);
            assert("incubic"@[0] != "outquad"@[0]);
        },
        EasingFunction::EaseOutCubic => {
            assert("easeoutcubic"@[4] != "ease_in_quad"@[4]);
            assert("out_cubic"@[0] != "inoutquad"@[0]);
            assert("outcubic"@[3] != "out_quad"@[3]);
            assert("outcubic"@[0] != "in_cubic"@[0]);
        },
        EasingFunction::EaseInOutCubic => {
            assert("easeinoutcubic"@[4] != "ease_out_cubic"@[4]);
            assert("in_out_cubic"@[0] != "ease_in_quad"@[0]);
            assert("in_out_cubic"@[0] != "easeoutcubic"@[0]);
            assert("inoutcubic"@[0] != "easeinquad"@[0]);
        },
    }
}

/// Every easing function's name parses back to it.
pub proof fn law_easing_name_round_trip(e: EasingFunction)
    ensures
        easing_for_lowercase_name(easing_name(e)) == Some(e),
{
    assert(documented_aliases(e)[0] == easing_name(e));
    law_documented_aliases_parse(e, 0);
}

impl std::str::FromStr for EasingFunction {
    type Err = ParseEasingError;

    fn from_str(s: &str) -> Result<Self, Self::Err> {
        EasingFunction::parse(s)
    }
}

/// State of a tween
#[derive(Clone, Copy, Debug, PartialEq, Eq, Hash, Structural)]
pub enum TweenState {
    /// Tween is actively running
    Running,
    /// Tween is paused (can be resumed)
    Paused,
    /// Tween has finished
    Completed,
}

} // verus!
