use crate::text::{byte_len, dec_digits, push_u64, utf8_len, IntoText};
use vstd::prelude::*;
use vstd::string::*;

verus! {

/// Longest identity accepted, in bytes.
pub const MAX_IDENTITY_LEN: usize = 128;

/// The characters an identity may hold: `[a-zA-Z0-9_-]`.
pub open spec fn is_identity_char(c: char) -> bool {
    ||| '0' <= c && c <= '9'
    ||| 'A' <= c && c <= 'Z'
    ||| 'a' <= c && c <= 'z'
    ||| c == '_'
    ||| c == '-'
}

pub open spec fn all_identity_chars(s: Seq<char>) -> bool {
    forall|i: int| 0 <= i < s.len() ==> is_identity_char(s[i])
}

/// What `Identity::new` answers for a text: emptiness is checked first,
/// then the length in bytes, then the characters.
pub open spec fn identity_check(s: Seq<char>) -> Result<(), IdentityError> {
    if s.len() == 0 {
        Err(IdentityError::Empty)
    } else if utf8_len(s) > MAX_IDENTITY_LEN {
        Err(IdentityError::TooLong(utf8_len(s) as usize))
    } else if !all_identity_chars(s) {
        Err(IdentityError::InvalidCharacters)
    } else {
        Ok(())
    }
}

/// A valid identity: 1 to 128 characters, each of `[a-zA-Z0-9_-]`.
pub open spec fn is_valid_identity(s: Seq<char>) -> bool {
    1 <= s.len() <= MAX_IDENTITY_LEN && all_identity_chars(s)
}

proof fn lemma_identity_chars_ascii(s: Seq<char>)
    requires
        all_identity_chars(s),
    ensures
        utf8_len(s) == s.len(),
{
    assert(vstd::utf8::is_ascii_chars(s));
    vstd::utf8::is_ascii_chars_encode_utf8(s);
}

/// The check passes exactly on valid identities.
pub proof fn lemma_identity_check_ok(s: Seq<char>)
    ensures
        identity_check(s) is Ok <==> is_valid_identity(s),
{
    if all_identity_chars(s) {
        lemma_identity_chars_ascii(s);
    }
}

/// Identity for a cron job callback: 1 to 128 characters, each of
/// `[a-zA-Z0-9_-]`.
#[derive(Debug, PartialEq, Eq, Hash)]
pub struct Identity(String);

impl View for Identity {
    type V = Seq<char>;

    closed spec fn view(&self) -> Seq<char> {
        self.0@
    }
}

impl Identity {
    #[verifier::type_invariant]
    closed spec fn inv(self) -> bool {
        is_valid_identity(self.0@)
    }

    /// Creates an identity when the text is valid; otherwise says why not.
    pub fn new<T: IntoText>(s: T) -> (r: Result<Self, IdentityError>)
        ensures
            match r {
                Ok(id) => identity_check(s.text()) is Ok && id@ == s.text(),
                Err(e) => identity_check(s.text()) == Err::<(), IdentityError>(e),
            },
    {
        let s = s.into_text();
        if s.as_str().is_empty() {
            return Err(IdentityError::Empty);
        }
        let n = byte_len(s.as_str());
        if n > MAX_IDENTITY_LEN {
            return Err(IdentityError::TooLong(n));
        }
        let mut ok = true;
        for c in it: s.as_str().chars()
            invariant
                it.seq() == s@,
                ok == (forall|k: int| 0 <= k < it.index() ==> is_identity_char(it.seq()[k])),
        {
            let good = ('0' <= c && c <= '9') || ('A' <= c && c <= 'Z') || ('a' <= c && c <= 'z')
                || c == '_' || c == '-';
            ok = ok && good;
        }
        if !ok {
            return Err(IdentityError::InvalidCharacters);
        }
        proof {
            lemma_identity_chars_ascii(s@);
        }
        Ok(Identity(s))
    }

    /// The identity as a string slice.
    pub fn as_str(&self) -> (r: &str)
        ensures
            r@ == self@,
            is_valid_identity(self@),
    {
        proof {
            use_type_invariant(self);
        }
        self.0.as_str()
    }

    /// Consumes the identity and returns the inner `String`.
    pub fn into_string(self) -> (r: String)
        ensures
            r@ == self@,
            is_valid_identity(self@),
    {
        proof {
            use_type_invariant(&self);
        }
        self.0
    }
}

impl AsRef<str> for Identity {
    fn as_ref(&self) -> (r: &str)
        ensures
            r@ == self@,
    {
        self.as_str()
    }
}

impl Clone for Identity {
    fn clone(&self) -> (r: Self)
        ensures
            r@ == self@,
            is_valid_identity(self@),
    {
        proof {
            use_type_invariant(self);
        }
        Identity(self.0.clone())
    }
}

/// Why a text is not an identity.
#[derive(Debug, Clone, Copy, PartialEq, Eq, Structural)]
pub enum IdentityError {
    Empty,
    TooLong(usize),
    InvalidCharacters,
}

/// The message that describes an identity error.
pub open spec fn identity_error_text(e: IdentityError) -> Seq<char> {
    match e {
        IdentityError::Empty => "Identity cannot be empty"@,
        IdentityError::TooLong(n) => "Identity is too long: "@ + dec_digits(n as nat)
            + " characters (max 128)"@,
        IdentityError::InvalidCharacters =>
            "Identity contains invalid characters (only a-zA-Z0-9_- allowed)"@,
    }
}

impl IdentityError {
    /// The message that describes this error.
    pub fn to_string(&self) -> (r: String)
        ensures
            r@ == identity_error_text(*self),
    {
        match self {
            IdentityError::Empty => String::from_str("Identity cannot be empty"),
            IdentityError::TooLong(n) => {
                let mut s = String::from_str("Identity is too long: ");
                push_u64(&mut s, *n as u64);
                s.append(" characters (max 128)");
                s
            },
            IdentityError::InvalidCharacters => String::from_str(
                "Identity contains invalid characters (only a-zA-Z0-9_- allowed)",
            ),
        }
    }
}

/// What a record becomes when a callback arrives at `timestamp`: the
/// timestamp is replaced and the count goes up by one, stopping at
/// `u64::MAX`.
pub open spec fn record_after(r: CallbackRecord, timestamp: i64) -> CallbackRecord {
    CallbackRecord {
        last_callback_ts: timestamp,
        callback_count: if r.callback_count == u64::MAX {
            u64::MAX
        } else {
            (r.callback_count + 1) as u64
        },
    }
}

/// A callback sets the time to the callback's and counts one more
/// callback; only a count already at `u64::MAX` stays there.
pub proof fn lemma_record_after_counts(r: CallbackRecord, timestamp: i64)
    ensures
        record_after(r, timestamp).last_callback_ts == timestamp,
        r.callback_count < u64::MAX ==> record_after(r, timestamp).callback_count == r.callback_count
            + 1,
        r.callback_count == u64::MAX ==> record_after(r, timestamp).callback_count == u64::MAX,
        first_record(timestamp).last_callback_ts == timestamp,
        first_record(timestamp).callback_count == 1,
{
}

/// The record of an identity's first callback.
pub open spec fn first_record(timestamp: i64) -> CallbackRecord {
    CallbackRecord { last_callback_ts: timestamp, callback_count: 1 }
}

/// Record of callback data for one identity.
#[derive(Debug, Clone, Copy, PartialEq, Eq, Structural)]
pub struct CallbackRecord {
    /// UTC Unix timestamp of the last callback.
    pub last_callback_ts: i64,
    /// Total number of callbacks received for this identity.
    pub callback_count: u64,
}

impl CallbackRecord {
    /// A record of one callback at `timestamp`.
    pub fn new(timestamp: i64) -> (r: Self)
        ensures
            r == first_record(timestamp),
            r.last_callback_ts == timestamp,
            r.callback_count == 1,
    {
        CallbackRecord { last_callback_ts: timestamp, callback_count: 1 }
    }

    /// Takes a new callback at `timestamp` into the record.
    pub fn record_callback(&mut self, timestamp: i64)
        ensures
            *final(self) == record_after(*old(self), timestamp),
            final(self).last_callback_ts == timestamp,
            old(self).callback_count < u64::MAX ==> final(self).callback_count
                == old(self).callback_count + 1,
            old(self).callback_count == u64::MAX ==> final(self).callback_count == u64::MAX,
    {
        self.last_callback_ts = timestamp;
        self.callback_count = self.callback_count.saturating_add(1);
    }
}

} // verus!
