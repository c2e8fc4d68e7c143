use vstd::prelude::*;
use crate::text::{is_blank, str_is_blank, str_eq};

verus! {

/// An absolute URL as the `url` crate renders it: its scheme and its
/// canonical string form.
pub struct AbsUrl {
    pub scheme: String,
    pub text: String,
}

/// What `url::Url::parse` makes of a string: `None` when it does not parse
/// as an absolute URL, otherwise the scheme and the canonical serialization.
pub uninterp spec fn parse_url_spec(s: Seq<char>) -> Option<(Seq<char>, Seq<char>)>;

/// What resolving a relative reference against a base URL yields: `None`
/// when the base does not parse or the join fails, otherwise the scheme and
/// canonical serialization of the resolved URL.
pub uninterp spec fn join_url_spec(base: Seq<char>, rel: Seq<char>) -> Option<(Seq<char>, Seq<char>)>;

/// Relies on `url::Url::parse`, `Url::scheme` and `Url::as_str`: whether a
/// string parses, and the scheme and canonical text of the parsed URL, are
/// functions of the string alone.  The canonical serialization of a parsed
/// URL always holds at least its scheme and a colon, so it is never empty.
#[verifier::external_body]
fn parse_abs_url(s: &str) -> (r: Option<AbsUrl>)
    ensures
        r is Some <==> parse_url_spec(s@) is Some,
        r matches Some(u) ==> Some((u.scheme@, u.text@)) == parse_url_spec(s@),
        r matches Some(u) ==> u.text@.len() > 0,
{
    match url::Url::parse(s) {
        Ok(u) => {
            let scheme = u.scheme().to_owned();
            let text = u.as_str().to_owned();
            Some(AbsUrl { scheme, text })
        },
        Err(_) => None,
    }
}

/// Relies on `url::Url::parse` and `Url::join`: resolving a relative
/// reference against a base URL given by its canonical text is a function of
/// the two strings alone.  The canonical serialization of a resolved URL
/// always holds at least its scheme and a colon, so it is never empty.
#[verifier::external_body]
fn join_abs_url(base: &str, rel: &str) -> (r: Option<AbsUrl>)
    ensures
        r is Some <==> join_url_spec(base@, rel@) is Some,
        r matches Some(u) ==> Some((u.scheme@, u.text@)) == join_url_spec(base@, rel@),
        r matches Some(u) ==> u.text@.len() > 0,
{
    match url::Url::parse(base) {
        Ok(b) => match b.join(rel) {
            Ok(u) => {
                let scheme = u.scheme().to_owned();
                let text = u.as_str().to_owned();
                Some(AbsUrl { scheme, text })
            },
            Err(_) => None,
        },
        Err(_) => None,
    }
}

/// Only these schemes are accepted for stories and for opening.
pub open spec fn scheme_ok(scheme: Seq<char>) -> bool {
    scheme == "http"@ || scheme == "https"@
}

fn scheme_is_ok(scheme: &str) -> (r: bool)
    ensures
        r == scheme_ok(scheme@),
{
    str_eq(scheme, "http") || str_eq(scheme, "https")
}

pub open spec fn opt_str_view(s: Option<&str>) -> Option<Seq<char>> {
    match s {
        Some(t) => Some(t@),
        None => None,
    }
}

pub open spec fn opt_string_view(s: Option<String>) -> Option<Seq<char>> {
    match s {
        Some(t) => Some(t@),
        None => None,
    }
}

/// Where a raw candidate link ends up: nothing if it is blank; its canonical
/// absolute form if it parses as an absolute URL, else the result of
/// resolving it against the base when one is available; and only a link
/// whose scheme is `http` or `https` survives.
pub open spec fn normalize_spec(c: Seq<char>, base: Option<Seq<char>>) -> Option<Seq<char>> {
    if is_blank(c) {
        None
    } else {
        let parts = if parse_url_spec(c) is Some {
            parse_url_spec(c)
        } else {
            match base {
                Some(b) => join_url_spec(b, c),
                None => None,
            }
        };
        match parts {
            Some(p) => if scheme_ok(p.0) {
                Some(p.1)
            } else {
                None
            },
            None => None,
        }
    }
}

/// Resolves and validates one raw candidate link.
pub fn normalize_link(candidate: &str, base: Option<&str>) -> (r: Option<String>)
    ensures
        opt_string_view(r) == normalize_spec(candidate@, opt_str_view(base)),
        r matches Some(l) ==> l@.len() > 0,
{
    if str_is_blank(candidate) {
        return None;
    }
    let resolved: Option<AbsUrl> = match parse_abs_url(candidate) {
        Some(u) => Some(u),
        None => match base {
            Some(b) => join_abs_url(b, candidate),
            None => None,
        },
    };
    match resolved {
        Some(u) => {
            if scheme_is_ok(u.scheme.as_str()) {
                Some(u.text)
            } else {
                None
            }
        },
        None => None,
    }
}

/// The canonical text of a remote source's own URL, used as the base for
/// resolving relative entry links; nothing when the source URL does not
/// parse.
pub open spec fn base_of(url: Seq<char>) -> Option<Seq<char>> {
    match parse_url_spec(url) {
        Some(p) => Some(p.1),
        None => None,
    }
}

pub fn resolve_base(url: &str) -> (r: Option<String>)
    ensures
        opt_string_view(r) == base_of(url@),
{
    match parse_abs_url(url) {
        Some(u) => Some(u.text),
        None => None,
    }
}

/// Whether a link may be handed to the system opener: it must parse as an
/// absolute URL with an `http` or `https` scheme.
pub fn open_url_allowed(url: &str) -> (r: bool)
    ensures
        r == match parse_url_spec(url@) {
            Some(p) => scheme_ok(p.0),
            None => false,
        },
{
    match parse_abs_url(url) {
        Some(u) => scheme_is_ok(u.scheme.as_str()),
        None => false,
    }
}

} // verus!
