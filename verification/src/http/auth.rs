use crate::text::{chars_of, chars_start_with, starts_with, string_from_chars};
use vstd::prelude::*;
use vstd::string::*;

verus! {

/// Compares two strings in full: every byte of the longer one is looked
/// at, whatever the lengths and wherever they differ, so that the time
/// taken tells nothing of where a difference lies. True exactly when the
/// strings are equal.
pub fn secure_compare(a: &str, b: &str) -> (r: bool)
    ensures
        r == (a@ == b@),
{
    let x = a.as_bytes();
    let y = b.as_bytes();
    let lx = x.len();
    let ly = y.len();
    let n = if lx < ly {
        ly
    } else {
        lx
    };
    let mut acc: u8 = if lx == ly {
        0
    } else {
        1
    };
    let mut i: usize = 0;
    proof {
        assert(x@.take(0) =~= y@.take(0));
    }
    while i < n
        invariant
            x@ == a.spec_bytes(),
            y@ == b.spec_bytes(),
            lx == x@.len(),
            ly == y@.len(),
            n == (if lx < ly { ly } else { lx }),
            i <= n,
            (acc == 0) == (lx == ly && x@.take(i as int) == y@.take(i as int)),
        decreases n - i,
    {
        let p: u8 = if i < lx {
            x[i]
        } else {
            0
        };
        let q: u8 = if i < ly {
            y[i]
        } else {
            0
        };
        let ghost prev = acc;
        acc = acc | (p ^ q);
        assert(((prev | (p ^ q)) == 0u8) == (prev == 0u8 && p == q)) by (bit_vector);
        proof {
            if lx == ly {
                if x@.take(i as int) == y@.take(i as int) && p == q {
                    assert(x@.take(i + 1) =~= x@.take(i as int).push(p));
                    assert(y@.take(i + 1) =~= y@.take(i as int).push(q));
                }
                if x@.take(i + 1) == y@.take(i + 1) {
                    assert(x@.take(i + 1)[i as int] == p);
                    assert(y@.take(i + 1)[i as int] == q);
                    assert(x@.take(i as int) =~= x@.take(i + 1).take(i as int));
                    assert(y@.take(i as int) =~= y@.take(i + 1).take(i as int));
                }
            }
        }
        i = i + 1;
    }
    proof {
        if lx == ly {
            assert(x@.take(i as int) =~= x@);
            assert(y@.take(i as int) =~= y@);
        }
        if x@ == y@ {
            vstd::utf8::encode_utf8_decode_utf8(a@);
            vstd::utf8::encode_utf8_decode_utf8(b@);
        }
    }
    acc == 0
}

/// The scheme that introduces a bearer token in an `Authorization` header.
pub open spec fn bearer_scheme() -> Seq<char> {
    "Bearer "@
}

/// Whether a request with the given `Authorization` header passes: always
/// when no token is configured; otherwise the header must be `Bearer `
/// followed by exactly the token.
pub open spec fn authorizes(token: Option<Seq<char>>, header: Option<Seq<char>>) -> bool {
    match token {
        None => true,
        Some(t) => header == Some(bearer_scheme() + t),
    }
}

/// Bearer token authentication. Without a token, every request passes.
#[derive(Clone, Debug)]
pub struct AuthMiddleware {
    token: Option<String>,
}

/// The token, as plain characters.
pub open spec fn token_view(token: Option<String>) -> Option<Seq<char>> {
    match token {
        None => None,
        Some(t) => Some(t@),
    }
}

impl AuthMiddleware {
    /// Authentication with `token`; `None` disables it.
    pub fn new(token: Option<String>) -> (r: Self)
        ensures
            r.token() == token_view(token),
    {
        AuthMiddleware { token }
    }

    /// The configured token.
    pub closed spec fn token(&self) -> Option<Seq<char>> {
        token_view(self.token)
    }

    /// Whether a token is configured.
    pub fn is_enabled(&self) -> (b: bool)
        ensures
            b == self.token() is Some,
    {
        self.token.is_some()
    }

    /// Whether a request whose `Authorization` header reads `authorization`
    /// (`None` when it is missing or not visible ASCII) may pass.
    pub fn authorizes(&self, authorization: Option<&str>) -> (b: bool)
        ensures
            b == authorizes(
                self.token(),
                match authorization {
                    None => None,
                    Some(h) => Some(h@),
                },
            ),
    {
        match &self.token {
            None => true,
            Some(expected) => match authorization {
                None => false,
                Some(header) => {
                    let h = chars_of(header);
                    let scheme = chars_of("Bearer ");
                    if !chars_start_with(&h, &scheme) {
                        proof {
                            if h@ == bearer_scheme() + expected@ {
                                assert(h@.subrange(0, scheme@.len() as int) =~= scheme@);
                            }
                        }
                        return false;
                    }
                    let mut rest: Vec<char> = Vec::new();
                    let mut i: usize = scheme.len();
                    while i < h.len()
                        invariant
                            scheme@ == bearer_scheme(),
                            scheme@.len() <= i <= h@.len(),
                            rest@ == h@.subrange(scheme@.len() as int, i as int),
                        decreases h.len() - i,
                    {
                        rest.push(h[i]);
                        i = i + 1;
                        proof {
                            assert(rest@ =~= h@.subrange(scheme@.len() as int, i as int));
                        }
                    }
                    let provided = string_from_chars(&rest);
                    let r = secure_compare(provided.as_str(), expected.as_str());
                    proof {
                        let hh = h@;
                        let t = expected@;
                        let n = bearer_scheme().len() as int;
                        assert(hh.subrange(0, n) =~= bearer_scheme());
                        if r {
                            assert(hh =~= bearer_scheme() + t);
                        }
                        if hh == bearer_scheme() + t {
                            assert(hh.subrange(n, hh.len() as int) =~= t);
                        }
                    }
                    r
                },
            },
        }
    }
}

/// A request that presents the configured token after `Bearer ` passes.
pub proof fn lemma_bearer_token_passes(token: Seq<char>)
    ensures
        authorizes(Some(token), Some(bearer_scheme() + token)),
{
}

/// With a configured token, a request that presents any other token after
/// `Bearer ` is refused.
pub proof fn lemma_other_token_refused(token: Seq<char>, other: Seq<char>)
    requires
        other != token,
    ensures
        !authorizes(Some(token), Some(bearer_scheme() + other)),
{
    if bearer_scheme() + other == bearer_scheme() + token {
        let n = bearer_scheme().len() as int;
        assert(other =~= (bearer_scheme() + other).subrange(n, n + other.len()));
        assert(token =~= (bearer_scheme() + token).subrange(n, n + token.len()));
    }
}

/// Without a configured token, every request passes, with or without a
/// header.
pub proof fn lemma_open_without_token(header: Option<Seq<char>>)
    ensures
        authorizes(None, header),
{
}

/// With a configured token, a request without the header, or whose header
/// does not start with `Bearer `, is refused.
pub proof fn lemma_refused_without_bearer(token: Seq<char>, header: Option<Seq<char>>)
    requires
        match header {
            None => true,
            Some(h) => !starts_with(h, bearer_scheme()),
        },
    ensures
        !authorizes(Some(token), header),
{
    if let Some(h) = header {
        let n = bearer_scheme().len() as int;
        if h == bearer_scheme() + token {
            assert(h.subrange(0, n) =~= bearer_scheme());
        }
    }
}

} // verus!
