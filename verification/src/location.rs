//! Reading a `LAT,LON` endpoint: the text must name no place, and must hold exactly two
//! comma-separated values. Turning the values into numbers is left to the caller.

use vstd::prelude::*;
use vstd::string::StrSliceExecFns;

verus! {

/// Why an endpoint text is not a `LAT,LON` pair.
#[derive(Clone, Copy, Debug, PartialEq, Eq, Structural)]
pub enum LocationError {
    /// The text contains letters: place names are not looked up.
    PlaceName,
    /// The text has no comma.
    MissingComma,
    /// The text has more than one comma.
    TooManyValues,
}

/// Whether `c` has the Unicode `Alphabetic` property, as `char::is_alphabetic` decides it.
pub uninterp spec fn is_alphabetic(c: char) -> bool;

/// `char::is_alphabetic`. Its result is named by `is_alphabetic`; std's tables of the
/// Unicode `Alphabetic` property decide it, and nothing more is stated here.
#[verifier::external_body]
fn char_is_alphabetic(c: char) -> (r: bool)
    ensures
        r == is_alphabetic(c),
{
    c.is_alphabetic()
}

/// The position of the first comma of `s`, or its length when it has none.
pub open spec fn first_comma(s: Seq<char>) -> int
    decreases s.len(),
{
    if s.len() == 0 {
        0
    } else if s[0] == ',' {
        0
    } else {
        1 + first_comma(s.drop_first())
    }
}

proof fn lemma_first_comma(s: Seq<char>, c: int)
    requires
        0 <= c <= s.len(),
        c < s.len() ==> s[c] == ',',
        forall|j: int| 0 <= j < c ==> s[j] != ',',
    ensures
        first_comma(s) == c,
    decreases c,
{
    if c > 0 {
        let t = s.drop_first();
        assert forall|j: int| 0 <= j < c - 1 implies t[j] != ',' by {
            assert(t[j] == s[j + 1]);
        }
        if c - 1 < t.len() {
            assert(t[c - 1] == s[c]);
        }
        lemma_first_comma(t, c - 1);
    }
}

/// How a text without letters splits into latitude and longitude text: at its first comma,
/// with no comma after it.
pub open spec fn spec_split_coordinates(s: Seq<char>) -> Result<(Seq<char>, Seq<char>), LocationError> {
    let c = first_comma(s);
    if c == s.len() {
        Err(LocationError::MissingComma)
    } else {
        let rest = s.subrange(c + 1, s.len() as int);
        if rest.contains(',') {
            Err(LocationError::TooManyValues)
        } else {
            Ok((s.subrange(0, c), rest))
        }
    }
}

/// Splits `LAT,LON` text at its comma.
pub fn split_coordinates(input: &str) -> (r: Result<(&str, &str), LocationError>)
    ensures
        match (r, spec_split_coordinates(input@)) {
            (Ok((lat, lon)), Ok((a, b))) => lat@ == a && lon@ == b,
            (Err(e), Err(f)) => e == f,
            _ => false,
        },
{
    let n = input.unicode_len();
    let mut c: usize = 0;
    while c < n && input.get_char(c) != ','
        invariant
            n == input@.len(),
            c <= n,
            forall|j: int| 0 <= j < c ==> input@[j] != ',',
        decreases n - c,
    {
        c = c + 1;
    }
    proof {
        lemma_first_comma(input@, c as int);
    }
    if c == n {
        return Err(LocationError::MissingComma);
    }
    let mut k: usize = c + 1;
    while k < n
        invariant
            n == input@.len(),
            c < n,
            c + 1 <= k <= n,
            first_comma(input@) == c,
            forall|j: int| c < j < k ==> input@[j] != ',',
        decreases n - k,
    {
        if input.get_char(k) == ',' {
            proof {
                let rest = input@.subrange(c + 1, n as int);
                assert(rest[k - c - 1] == ',');
                assert(rest.contains(','));
            }
            return Err(LocationError::TooManyValues);
        }
        k = k + 1;
    }
    proof {
        let rest = input@.subrange(c + 1, n as int);
        if rest.contains(',') {
            let j = choose|j: int| 0 <= j < rest.len() && rest[j] == ',';
            assert(input@[c + 1 + j] == ',');
        }
    }
    Ok((input.substring_char(0, c), input.substring_char(c + 1, n)))
}

/// Reads endpoint text: text with a letter is refused as a place name; other text is
/// split by `split_coordinates`.
pub fn parse_location_text(input: &str) -> (r: Result<(&str, &str), LocationError>)
    ensures
        (exists|i: int| 0 <= i < input@.len() && #[trigger] is_alphabetic(input@[i])) ==> r
            == Err::<(&str, &str), LocationError>(LocationError::PlaceName),
        !(exists|i: int| 0 <= i < input@.len() && #[trigger] is_alphabetic(input@[i])) ==> match (
            r,
            spec_split_coordinates(input@),
        ) {
            (Ok((lat, lon)), Ok((a, b))) => lat@ == a && lon@ == b,
            (Err(e), Err(f)) => e == f,
            _ => false,
        },
{
    let n = input.unicode_len();
    let mut i: usize = 0;
    while i < n
        invariant
            n == input@.len(),
            i <= n,
            forall|j: int| 0 <= j < i ==> !is_alphabetic(#[trigger] input@[j]),
        decreases n - i,
    {
        if char_is_alphabetic(input.get_char(i)) {
            return Err(LocationError::PlaceName);
        }
        i = i + 1;
    }
    split_coordinates(input)
}

} // verus!
