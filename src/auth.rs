use crate::error::{AppError, AuthFailure};
use crate::permission::contains_text;
use crate::token::{Claims, verify_outcome};
use vstd::prelude::*;
use vstd::std_specs::iter::IteratorSpec;
use vstd::string::*;
use vstd::utf8::*;

verus! {

/// What happens to a request.
#[derive(Debug, Clone, Copy, PartialEq, Eq, Structural)]
pub enum Decision {
    /// The request goes on to the handlers, carrying the verified subject id, if any.
    Forward { subject_id: Option<i64> },
    /// The request is refused for good.
    Reject(AppError),
}

/// Whether a character is white space in the sense of Unicode's `White_Space` property,
/// which is what `char::is_whitespace` and `str::split_whitespace` go by.
pub open spec fn is_white(c: char) -> bool {
    ('\t' <= c && c <= '\r') || c == ' ' || c == '\u{85}' || c == '\u{a0}' || c == '\u{1680}'
        || ('\u{2000}' <= c && c <= '\u{200a}') || c == '\u{2028}' || c == '\u{2029}' || c
        == '\u{202f}' || c == '\u{205f}' || c == '\u{3000}'
}

/// The words of a text: its maximal runs of characters that are not white space, in order.
pub open spec fn words(s: Seq<char>) -> Seq<Seq<char>>
    decreases s.len(),
{
    if s.len() == 0 {
        Seq::empty()
    } else {
        let w = words(s.drop_last());
        let c = s.last();
        if is_white(c) {
            w
        } else if s.len() >= 2 && !is_white(s[s.len() - 2]) {
            w.update(w.len() - 1, w.last().push(c))
        } else {
            w.push(seq![c])
        }
    }
}

/// The credential scheme.
pub open spec fn bearer_scheme() -> Seq<char> {
    seq!['B', 'e', 'a', 'r', 'e', 'r']
}

/// The token of an authorization header of the form `Bearer <token>`: exactly two words, the
/// first of them the scheme.
pub open spec fn bearer_value(h: Seq<char>) -> Option<Seq<char>> {
    if words(h).len() == 2 && words(h)[0] == bearer_scheme() {
        Some(words(h)[1])
    } else {
        None
    }
}

/// What becomes of a request for `path` with the authorization header `header`, at time
/// `now`, under `secret`. Requests for the login path pass untouched.
pub open spec fn decision(
    secret: Seq<u8>,
    login_path: Seq<char>,
    path: Seq<char>,
    header: Option<Seq<char>>,
    now: u64,
) -> Decision {
    if path == login_path {
        Decision::Forward { subject_id: None }
    } else {
        match header {
            None => Decision::Reject(AppError::AuthenticationError(AuthFailure::EmptyCredential)),
            Some(h) => if h.len() == 0 {
                Decision::Reject(AppError::AuthenticationError(AuthFailure::EmptyCredential))
            } else {
                match bearer_value(h) {
                    None => Decision::Reject(AppError::AuthenticationError(AuthFailure::BadFormat)),
                    Some(t) => match verify_outcome(secret, encode_utf8(t), now) {
                        Err(e) => Decision::Reject(
                            AppError::AuthenticationError(AuthFailure::Token(e)),
                        ),
                        Ok(c) => if c.permissions.contains(path) {
                            Decision::Forward { subject_id: Some(c.subject_id) }
                        } else {
                            Decision::Reject(AppError::AuthorizationError)
                        },
                    },
                }
            },
        }
    }
}

/// Whether a character is white space.
pub fn is_whitespace(c: char) -> (r: bool)
    ensures
        r == is_white(c),
{
    ('\t' <= c && c <= '\r') || c == ' ' || c == '\u{85}' || c == '\u{a0}' || c == '\u{1680}'
        || ('\u{2000}' <= c && c <= '\u{200a}') || c == '\u{2028}' || c == '\u{2029}' || c
        == '\u{202f}' || c == '\u{205f}' || c == '\u{3000}'
}

/// The characters of a text.
fn chars_of(s: &str) -> (r: Vec<char>)
    ensures
        r@ == s@,
{
    broadcast use vstd::string::group_string_axioms;

    let mut it = s.chars();
    let mut out: Vec<char> = Vec::new();
    loop
        invariant
            it.obeys_prophetic_iter_laws(),
            it.decrease() is Some,
            out@ + it.remaining() == s@,
        ensures
            out@ == s@,
        decreases it.decrease()->0,
    {
        match it.next() {
            Some(c) => {
                out.push(c);
            },
            None => {
                assert(it.remaining().len() == 0);
                assert(out@ + it.remaining() =~= out@);
                break ;
            },
        }
    }
    out
}

/// The text that a list of spans marks out of `c`.
pub open spec fn span_texts(c: Seq<char>, spans: Seq<(usize, usize)>) -> Seq<Seq<char>> {
    spans.map_values(|p: (usize, usize)| c.subrange(p.0 as int, p.1 as int))
}

/// The start and end of each word of `c`.
fn word_spans(c: &Vec<char>) -> (r: Vec<(usize, usize)>)
    ensures
        span_texts(c@, r@) == words(c@),
        forall|k: int| 0 <= k < r@.len() ==> #[trigger] r@[k].0 <= r@[k].1 <= c@.len(),
{
    let mut spans: Vec<(usize, usize)> = Vec::new();
    let mut start: usize = 0;
    let mut in_word = false;
    let mut i: usize = 0;
    while i < c.len()
        invariant
            i <= c@.len(),
            in_word == (i > 0 && !is_white(c@[i - 1])),
            in_word ==> start < i,
            forall|k: int| 0 <= k < spans@.len() ==> #[trigger] spans@[k].0 <= spans@[k].1 <= i,
            words(c@.subrange(0, i as int)) == span_texts(c@, spans@) + if in_word {
                seq![c@.subrange(start as int, i as int)]
            } else {
                Seq::empty()
            },
        decreases c@.len() - i,
    {
        let ghost p = c@.subrange(0, i + 1);
        let ghost s0 = spans@;
        assert(p.drop_last() =~= c@.subrange(0, i as int));
        assert(p.last() == c@[i as int]);
        if i > 0 {
            assert(p[p.len() - 2] == c@[i - 1]);
        }
        if is_whitespace(c[i]) {
            if in_word {
                spans.push((start, i));
                in_word = false;
                assert forall|k: int| 0 <= k < spans@.len() implies #[trigger] spans@[k].0
                    <= spans@[k].1 <= i + 1 by {
                    if k < s0.len() {
                        assert(spans@[k] == s0[k]);
                    }
                }
                assert(span_texts(c@, spans@) =~= span_texts(c@, s0).push(
                    c@.subrange(start as int, i as int),
                ));
            }
        } else {
            if in_word {
                assert(c@.subrange(start as int, i as int).push(c@[i as int]) =~= c@.subrange(
                    start as int,
                    i + 1,
                ));
            } else {
                start = i;
                in_word = true;
                assert(seq![c@[i as int]] =~= c@.subrange(i as int, i + 1));
            }
        }
        i = i + 1;
        assert(words(c@.subrange(0, i as int)) =~= span_texts(c@, spans@) + if in_word {
            seq![c@.subrange(start as int, i as int)]
        } else {
            Seq::empty()
        });
    }
    assert(c@.subrange(0, i as int) =~= c@);
    if in_word {
        let ghost s0 = spans@;
        spans.push((start, i));
        assert(span_texts(c@, spans@) =~= span_texts(c@, s0).push(
            c@.subrange(start as int, i as int),
        ));
        assert forall|k: int| 0 <= k < spans@.len() implies #[trigger] spans@[k].0 <= spans@[k].1
            <= c@.len() by {
            if k < s0.len() {
                assert(spans@[k] == s0[k]);
            }
        }
    } else {
        assert(span_texts(c@, spans@) =~= span_texts(c@, spans@) + Seq::<Seq<char>>::empty());
    }
    spans
}

/// The token of a `Bearer <token>` header, if the header has that form.
fn bearer_token<'a>(h: &'a str) -> (r: Option<&'a str>)
    ensures
        match r {
            Some(t) => bearer_value(h@) == Some(t@),
            None => bearer_value(h@) is None,
        },
{
    let c = chars_of(h);
    let spans = word_spans(&c);
    if spans.len() != 2 {
        return None;
    }
    let (a, b) = spans[0];
    assert(span_texts(c@, spans@)[0] == c@.subrange(a as int, b as int));
    let scheme = ['B', 'e', 'a', 'r', 'e', 'r'];
    if b - a != 6 {
        assert(c@.subrange(a as int, b as int).len() != bearer_scheme().len());
        return None;
    }
    let mut k: usize = 0;
    while k < 6
        invariant
            k <= 6,
            b - a == 6,
            a <= b <= c@.len(),
            scheme@ == bearer_scheme(),
            words(h@).len() == 2,
            words(h@)[0] == c@.subrange(a as int, b as int),
            forall|j: int| 0 <= j < k ==> c@[a + j] == bearer_scheme()[j],
        decreases 6 - k,
    {
        if c[a + k] != scheme[k] {
            assert(c@.subrange(a as int, b as int)[k as int] != bearer_scheme()[k as int]);
            return None;
        }
        k = k + 1;
    }
    assert(c@.subrange(a as int, b as int) =~= bearer_scheme());
    let (x, y) = spans[1];
    assert(span_texts(c@, spans@)[1] == c@.subrange(x as int, y as int));
    Some(h.substring_char(x, y))
}

/// The authorization settings: the secret that tokens are signed with, and the path that is
/// let through without a credential.
pub struct Auth {
    pub secret: String,
    pub login_path: String,
}

/// The per-request gatekeeper in front of a service.
pub struct AuthMiddleware<S> {
    pub service: S,
    pub auth: Auth,
}

impl Auth {
    /// Settings that sign with `secret` and let `login_path` through.
    pub fn new(secret: String, login_path: String) -> (r: Auth)
        ensures
            r.secret@ == secret@,
            r.login_path@ == login_path@,
    {
        Auth { secret, login_path }
    }

    /// Puts the gatekeeper in front of `service`.
    pub fn new_transform<S>(&self, service: S) -> (r: AuthMiddleware<S>)
        ensures
            r.service == service,
            r.auth.secret@ == self.secret@,
            r.auth.login_path@ == self.login_path@,
    {
        AuthMiddleware {
            service,
            auth: Auth { secret: self.secret.clone(), login_path: self.login_path.clone() },
        }
    }
}

impl<S> AuthMiddleware<S> {
    /// Decides a request for `path` carrying the `Authorization` header `authorization`, at
    /// time `now` (seconds since the epoch).
    pub fn call(&self, path: &str, authorization: Option<&str>, now: u64) -> (r: Decision)
        ensures
            r == decision(
                encode_utf8(self.auth.secret@),
                self.auth.login_path@,
                path@,
                match authorization {
                    Some(h) => Some(h@),
                    None => None,
                },
                now,
            ),
    {
        let path_text = path.to_owned();
        if path_text == self.auth.login_path {
            return Decision::Forward { subject_id: None };
        }
        let header = match authorization {
            Some(h) => h,
            None => {
                return Decision::Reject(AppError::AuthenticationError(AuthFailure::EmptyCredential));
            },
        };
        if header.unicode_len() == 0 {
            return Decision::Reject(AppError::AuthenticationError(AuthFailure::EmptyCredential));
        }
        let token = match bearer_token(header) {
            Some(t) => t,
            None => {
                return Decision::Reject(AppError::AuthenticationError(AuthFailure::BadFormat));
            },
        };
        let claims = match Claims::verify(self.auth.secret.as_str(), token, now) {
            Ok(c) => c,
            Err(e) => {
                return Decision::Reject(AppError::AuthenticationError(AuthFailure::Token(e)));
            },
        };
        if contains_text(&claims.permissions, &path_text) {
            Decision::Forward { subject_id: Some(claims.subject_id) }
        } else {
            Decision::Reject(AppError::AuthorizationError)
        }
    }
}

} // verus!
