use vstd::prelude::*;

use crate::errors::SdkError;
use crate::models::text_view;
use crate::text::{chars_of, string_of};

verus! {

pub const DEFAULT_REQUEST_TIMEOUT_SECS: u64 = 60;

pub const DEFAULT_CONNECT_TIMEOUT_SECS: u64 = 10;

pub const DEFAULT_MAX_RETRIES: u32 = 2;

pub const DEFAULT_RETRY_BACKOFF_MS: u64 = 250;

/// `s` without its trailing slashes.
pub open spec fn without_trailing_slashes(s: Seq<char>) -> Seq<char>
    decreases s.len(),
{
    if s.len() > 0 && s.last() == '/' {
        without_trailing_slashes(s.drop_last())
    } else {
        s
    }
}

fn trim_slashes(s: &str) -> (r: String)
    ensures
        r@ == without_trailing_slashes(s@),
{
    let mut cs = chars_of(s);
    while cs.len() > 0 && cs[cs.len() - 1] == '/'
        invariant
            without_trailing_slashes(cs@) == without_trailing_slashes(s@),
        decreases cs@.len(),
    {
        cs.pop();
    }
    proof {
        if cs@.len() > 0 {
            assert(without_trailing_slashes(cs@) == cs@);
        }
    }
    string_of(&cs)
}

/// The chat completions endpoint under `base_url`.
pub fn build_chat_completions_url(base_url: &str) -> (r: String)
    ensures
        r@ == without_trailing_slashes(base_url@) + "/chat/completions"@,
{
    let mut url = trim_slashes(base_url);
    url.append("/chat/completions");
    url
}

/// The embeddings endpoint under `base_url`.
pub fn build_embeddings_url(base_url: &str) -> (r: String)
    ensures
        r@ == without_trailing_slashes(base_url@) + "/embeddings"@,
{
    let mut url = trim_slashes(base_url);
    url.append("/embeddings");
    url
}

/// Picks the API key and the base URL of a provider: an explicit key before
/// the one from the environment, and the default base URL where none is
/// given, without trailing slashes.
pub fn resolve_provider_values(
    api_key: Option<String>,
    base_url: Option<String>,
    env_api_key: Option<String>,
) -> (r: Result<(String, String), SdkError>)
    ensures
        ({
            let base = match base_url {
                Some(b) => b@,
                None => "https://openrouter.ai/api/v1"@,
            };
            match r {
                Ok((key, url)) => url@ == without_trailing_slashes(base) && match api_key {
                    Some(k) => key@ == k@,
                    None => env_api_key matches Some(k) && key@ == k@,
                },
                Err(e) => api_key is None && env_api_key is None && e is Value && e.message()
                    == "No api_key provided and OPENROUTER_API_KEY environment variable is not set."@,
            }
        }),
{
    let url = match &base_url {
        Some(b) => trim_slashes(b.as_str()),
        None => trim_slashes("https://openrouter.ai/api/v1"),
    };
    let key = match api_key {
        Some(k) => k,
        None => match env_api_key {
            Some(k) => k,
            None => {
                return Err(
                    SdkError::value(
                        "No api_key provided and OPENROUTER_API_KEY environment variable is not set.",
                    ),
                );
            },
        },
    };
    Ok((key, url))
}

pub open spec fn is_digit(c: char) -> bool {
    48 <= (c as u32) && (c as u32) <= 57
}

/// The value of a run of decimal digits.
pub open spec fn digits_value(s: Seq<char>) -> nat
    decreases s.len(),
{
    if s.len() == 0 {
        0
    } else {
        digits_value(s.drop_last()) * 10 + ((s.last() as u32) - 48) as nat
    }
}

/// The number that `s` writes as an optional `+` and one or more decimal
/// digits, the form that the `FromStr` of the unsigned integers accepts.
pub open spec fn unsigned_text(s: Seq<char>) -> Option<nat> {
    let d = if s.len() > 0 && s[0] == '+' {
        s.drop_first()
    } else {
        s
    };
    if d.len() > 0 && forall|i: int| 0 <= i < d.len() ==> is_digit(#[trigger] d[i]) {
        Some(digits_value(d))
    } else {
        None
    }
}

/// Relies on the `FromStr` of `u64`: an optional `+` and decimal digits
/// whose value fits.
#[verifier::external_body]
fn parse_u64(s: &str) -> (r: Option<u64>)
    ensures
        r is Some <==> (unsigned_text(s@) is Some && unsigned_text(s@)->0 <= u64::MAX),
        r is Some ==> r->0 == unsigned_text(s@)->0,
{
    s.parse::<u64>().ok()
}

/// Relies on the `FromStr` of `u32`: an optional `+` and decimal digits
/// whose value fits.
#[verifier::external_body]
fn parse_u32(s: &str) -> (r: Option<u32>)
    ensures
        r is Some <==> (unsigned_text(s@) is Some && unsigned_text(s@)->0 <= u32::MAX),
        r is Some ==> r->0 == unsigned_text(s@)->0,
{
    s.parse::<u32>().ok()
}

/// Runtime settings of a provider.
#[derive(Clone, Debug)]
pub struct RuntimeConfig {
    pub request_timeout_secs: u64,
    pub connect_timeout_secs: u64,
    pub max_retries: u32,
    pub retry_backoff_ms: u64,
}

/// A positive setting: the default where it is not set, else its value
/// where that is a positive `u64`.
pub open spec fn positive_setting(value: Option<Seq<char>>, default: u64) -> Option<u64> {
    match value {
        None => Some(default),
        Some(raw) => match unsigned_text(raw) {
            Some(n) => if 0 < n && n <= u64::MAX {
                Some(n as u64)
            } else {
                None
            },
            None => None,
        },
    }
}

/// A count setting: the default where it is not set, else its value where
/// that is a `u32`.
pub open spec fn count_setting(value: Option<Seq<char>>, default: u32) -> Option<u32> {
    match value {
        None => Some(default),
        Some(raw) => match unsigned_text(raw) {
            Some(n) => if n <= u32::MAX {
                Some(n as u32)
            } else {
                None
            },
            None => None,
        },
    }
}

fn message3(a: &str, b: &str, c: &str) -> (r: String)
    ensures
        r@ == a@ + b@ + c@,
        has_infix(r@, a@),
{
    let mut m = a.to_string();
    m.append(b);
    m.append(c);
    assert(m@.subrange(0, 0 + a@.len() as int) =~= a@);
    m
}

fn with_suffix(m: String, tail: &str) -> (r: String)
    ensures
        r@ == m@ + tail@,
        forall|p: Seq<char>| has_infix(m@, p) ==> has_infix(r@, p),
{
    let mut r = m;
    r.append(tail);
    assert forall|p: Seq<char>| has_infix(m@, p) implies has_infix(r@, p) by {
        let i = choose|i: int| 0 <= i && i + p.len() <= m@.len() && #[trigger] m@.subrange(i, i + p.len()) == p;
        assert(r@.subrange(i, i + p.len()) =~= m@.subrange(i, i + p.len()));
    }
    r
}

fn parse_positive_u64_env(value: Option<String>, name: &str, default: u64) -> (r: Result<
    u64,
    SdkError,
>)
    ensures
        match r {
            Ok(n) => positive_setting(text_view(value), default) == Some(n),
            Err(e) => positive_setting(text_view(value), default) is None && e is Value && has_infix(
                e.message(),
                name@,
            ) && match value {
                Some(raw) => if unsigned_text(raw@) is Some && unsigned_text(raw@)->0 == 0 {
                    e.message() == name@ + " must be greater than zero."@
                } else {
                    e.message() == name@ + " must be a positive integer, got '"@ + raw@ + "'."@
                },
                None => false,
            },
        },
{
    match value {
        None => Ok(default),
        Some(raw) => match parse_u64(raw.as_str()) {
            None => {
                let m = message3(name, " must be a positive integer, got '", raw.as_str());
                Err(SdkError::Value(with_suffix(m, "'.")))
            },
            Some(n) => {
                if n == 0 {
                    let m = message3(name, " must be greater than zero.", "");
                    proof {
                        reveal_strlit("");
                        assert(m@ =~= name@ + " must be greater than zero."@);
                    }
                    Err(SdkError::Value(m))
                } else {
                    Ok(n)
                }
            },
        },
    }
}

fn parse_u32_env(value: Option<String>, name: &str, default: u32) -> (r: Result<u32, SdkError>)
    ensures
        match r {
            Ok(n) => count_setting(text_view(value), default) == Some(n),
            Err(e) => count_setting(text_view(value), default) is None && e is Value && has_infix(
                e.message(),
                name@,
            ) && match value {
                Some(raw) => e.message() == name@ + " must be a non-negative integer, got '"@
                    + raw@ + "'."@,
                None => false,
            },
        },
{
    match value {
        None => Ok(default),
        Some(raw) => match parse_u32(raw.as_str()) {
            None => {
                let m = message3(name, " must be a non-negative integer, got '", raw.as_str());
                Err(SdkError::Value(with_suffix(m, "'.")))
            },
            Some(n) => Ok(n),
        },
    }
}

/// Reads the runtime settings from their environment values: the request
/// and connect timeouts in seconds and the retry backoff in milliseconds
/// must be positive, the retry count a `u32`; an unset value takes its
/// default. The first invalid setting, in that order, gives the error,
/// which names its variable.
pub fn resolve_runtime_config(
    request_timeout_env: Option<String>,
    connect_timeout_env: Option<String>,
    max_retries_env: Option<String>,
    retry_backoff_env: Option<String>,
) -> (r: Result<RuntimeConfig, SdkError>)
    ensures
        ({
            let rt = positive_setting(text_view(request_timeout_env), 60);
            let ct = positive_setting(text_view(connect_timeout_env), 10);
            let bo = positive_setting(text_view(retry_backoff_env), 250);
            let mr = count_setting(text_view(max_retries_env), 2);
            match r {
                Ok(c) => rt == Some(c.request_timeout_secs) && ct == Some(c.connect_timeout_secs)
                    && bo == Some(c.retry_backoff_ms) && mr == Some(c.max_retries),
                Err(e) => e is Value && if rt is None {
                    has_infix(e.message(), "RUSTY_AGENT_REQUEST_TIMEOUT_SECS"@)
                } else if ct is None {
                    has_infix(e.message(), "RUSTY_AGENT_CONNECT_TIMEOUT_SECS"@)
                } else if bo is None {
                    has_infix(e.message(), "RUSTY_AGENT_RETRY_BACKOFF_MS"@)
                } else {
                    mr is None && has_infix(e.message(), "RUSTY_AGENT_MAX_RETRIES"@)
                },
            }
        }),
{
    let request_timeout_secs = match parse_positive_u64_env(
        request_timeout_env,
        "RUSTY_AGENT_REQUEST_TIMEOUT_SECS",
        DEFAULT_REQUEST_TIMEOUT_SECS,
    ) {
        Ok(v) => v,
        Err(e) => {
            return Err(e);
        },
    };
    let connect_timeout_secs = match parse_positive_u64_env(
        connect_timeout_env,
        "RUSTY_AGENT_CONNECT_TIMEOUT_SECS",
        DEFAULT_CONNECT_TIMEOUT_SECS,
    ) {
        Ok(v) => v,
        Err(e) => {
            return Err(e);
        },
    };
    let retry_backoff_ms = match parse_positive_u64_env(
        retry_backoff_env,
        "RUSTY_AGENT_RETRY_BACKOFF_MS",
        DEFAULT_RETRY_BACKOFF_MS,
    ) {
        Ok(v) => v,
        Err(e) => {
            return Err(e);
        },
    };
    let max_retries = match parse_u32_env(
        max_retries_env,
        "RUSTY_AGENT_MAX_RETRIES",
        DEFAULT_MAX_RETRIES,
    ) {
        Ok(v) => v,
        Err(e) => {
            return Err(e);
        },
    };
    Ok(RuntimeConfig { request_timeout_secs, connect_timeout_secs, max_retries, retry_backoff_ms })
}

/// Whether `p` occurs in `s`.
pub open spec fn has_infix(s: Seq<char>, p: Seq<char>) -> bool {
    exists|i: int| 0 <= i && i + p.len() <= s.len() && #[trigger] s.subrange(i, i + p.len()) == p
}

} // verus!
