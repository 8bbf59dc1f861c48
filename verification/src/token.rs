//! Validation of untrusted search text.
//!
//! A [`SearchToken`] is the only value the rest of the core will
//! interpolate into a store query. Its invariant — every character is
//! ASCII alphanumeric or ASCII whitespace — is the entire injection
//! defense: there is no separate escaping layer, so the character
//! class must not be widened.

use vstd::prelude::*;

use crate::errors::SearchError;

verus! {

/// A character of raw search text is safe exactly when it is ASCII
/// alphanumeric (`0-9`, `A-Z`, `a-z`) or ASCII whitespace (space,
/// tab, line feed, form feed, carriage return).
pub open spec fn is_safe_char(c: char) -> bool {
    let u = c as u32;
    (48 <= u && u <= 57) || (65 <= u && u <= 90) || (97 <= u && u <= 122) || u == 32 || u == 9
        || u == 10 || u == 12 || u == 13
}

/// Every character of the text is safe.
pub open spec fn all_safe(s: Seq<char>) -> bool {
    forall|i: int| 0 <= i < s.len() ==> is_safe_char(s[i])
}

/// Runtime check mirroring [`is_safe_char`].
pub fn safe_char(c: char) -> (b: bool)
    ensures
        b == is_safe_char(c),
{
    let u = c as u32;
    (48 <= u && u <= 57) || (65 <= u && u <= 90) || (97 <= u && u <= 122) || u == 32 || u == 9
        || u == 10 || u == 12 || u == 13
}

/// Search text validated at the system boundary. Immutable; the text
/// is exactly the raw input that passed validation (no repair, no
/// truncation, no escaping).
#[derive(Debug)]
pub struct SearchToken {
    text: String,
}

impl View for SearchToken {
    type V = Seq<char>;

    closed spec fn view(&self) -> Seq<char> {
        self.text@
    }
}

impl SearchToken {
    #[verifier::type_invariant]
    spec fn type_inv(self) -> bool {
        all_safe(self.text@)
    }

    /// Validate raw search text. Accepts the input if and only if
    /// every character is ASCII alphanumeric or ASCII whitespace; the
    /// accepted token carries the identical text. Any other input is
    /// rejected whole, with the client-error condition.
    pub fn make(raw: String) -> (r: Result<SearchToken, SearchError>)
        ensures
            r is Ok <==> all_safe(raw@),
            r matches Ok(t) ==> t@ == raw@,
            r matches Err(e) ==> e == SearchError::RejectedInput,
    {
        let n = raw.as_str().unicode_len();
        let mut i: usize = 0;
        while i < n
            invariant
                i <= n,
                n == raw@.len(),
                forall|j: int| 0 <= j < i ==> is_safe_char(raw@[j]),
            decreases n - i,
        {
            if !safe_char(raw.as_str().get_char(i)) {
                return Err(SearchError::RejectedInput);
            }
            i += 1;
        }
        Ok(SearchToken { text: raw })
    }

    /// The validated text, unchanged from the raw input.
    pub fn as_str(&self) -> (r: &str)
        ensures
            r@ == self@,
            all_safe(self@),
    {
        proof {
            use_type_invariant(self);
        }
        self.text.as_str()
    }
}

} // verus!
