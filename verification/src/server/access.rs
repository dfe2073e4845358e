//! The key that requests to `/v1/*` need: as a bearer token, or among the protocols that a
//! WebSocket client offers.
use crate::server::error::{detail, ApiError, ApiFault};
use crate::server::settings::chars_of;
use crate::text::{
    characters, has_prefix, same_text, string_of, strip_start, text_in, trim, trim_text,
};
use vstd::prelude::*;
use vstd::string::*;

verus! {

/// How a request stands to the configured key.
pub enum Access {
    Granted,
    Missing,
    Wrong,
}

/// Where the first comma is: the end where there is none.
pub open spec fn comma(text: Seq<char>) -> nat
    decreases text.len(),
{
    if text.len() == 0 || text[0] == ',' {
        0
    } else {
        1 + comma(text.drop_first())
    }
}

/// What a protocol that carries a key starts with.
pub open spec fn key_protocol() -> Seq<char> {
    "openai-insecure-api-key."@
}

/// The key in a list of protocols: in the first that carries one.
pub open spec fn protocol_key(list: Seq<char>) -> Option<Seq<char>>
    decreases list.len(),
{
    let n = comma(list);
    let item = trim(list.take(n as int));
    if has_prefix(item, key_protocol()) {
        Some(item.skip(key_protocol().len() as int))
    } else if n < list.len() {
        protocol_key(list.skip(n as int + 1))
    } else {
        None
    }
}

/// What a request offers: its authorization, else the key among its protocols.
pub open spec fn offered(
    authorization: Option<Seq<char>>,
    protocols: Option<Seq<char>>,
) -> Option<Seq<char>> {
    match (authorization, protocols) {
        (Some(header), _) => Some(header),
        (None, Some(list)) => match protocol_key(list) {
            Some(key) => Some("Bearer "@ + key),
            None => None,
        },
        (None, None) => None,
    }
}

/// The key in a list of protocols.
pub fn find_key(list: &str) -> (r: Option<String>)
    ensures
        text_in(r) == protocol_key(list@),
{
    let chars: Vec<char> = characters(list);
    let size: usize = chars.len();
    let mut from: usize = 0;
    assert(chars@.skip(0) =~= chars@);
    loop
        invariant
            chars@ == list@,
            size == chars@.len(),
            from <= size,
            protocol_key(list@) == protocol_key(chars@.skip(from as int)),
        decreases size - from,
    {
        let ghost rest = chars@.skip(from as int);
        let mut to: usize = from;
        assert(rest.skip(0) =~= rest);
        while to < size && chars[to] != ','
            invariant
                chars@ == list@,
                size == chars@.len(),
                from <= to <= size,
                rest == chars@.skip(from as int),
                comma(rest) == (to - from) + comma(rest.skip(to - from)),
            decreases size - to,
        {
            assert(rest.skip(to - from)[0] == chars@[to as int]);
            assert(rest.skip(to - from).drop_first() =~= rest.skip(to + 1 - from));
            to += 1;
        }
        proof {
            if to < size {
                assert(rest.skip(to - from)[0] == chars@[to as int]);
            }
            assert(comma(rest) == to - from);
            assert(chars@.subrange(from as int, to as int) =~= rest.take(to - from));
        }
        let item: String = trim_text(string_of(&chars, from, to).as_str());
        match strip_start(item.as_str(), "openai-insecure-api-key.") {
            Some(key) => {
                return Some(key);
            },
            None => {},
        }
        if to == size {
            return None;
        }
        assert(rest.skip(to - from + 1) =~= chars@.skip(to + 1));
        from = to + 1;
    }
}

/// Paths under `/v1/` need the key, where one is configured, as `Bearer <key>`.
pub open spec fn access(
    path: Seq<char>,
    authorization: Option<Seq<char>>,
    key: Option<Seq<char>>,
) -> Access {
    if key is None || !has_prefix(path, "/v1/"@) {
        Access::Granted
    } else {
        match authorization {
            None => Access::Missing,
            Some(header) => if header == "Bearer "@ + key->Some_0 {
                Access::Granted
            } else {
                Access::Wrong
            },
        }
    }
}

/// The answer to a request without the key.
pub open spec fn refusal(access: Access) -> Option<ApiFault> {
    match access {
        Access::Granted => None,
        Access::Missing => Some(
            ApiFault { status: 403, body: detail("authentication_error"@, "Missing API key"@) },
        ),
        Access::Wrong => Some(
            ApiFault { status: 401, body: detail("authentication_error"@, "Invalid API key"@) },
        ),
    }
}

/// Whether a request to `path` may go on.
pub fn authorize(
    path: &str,
    authorization: Option<&str>,
    protocols: Option<&str>,
    key: Option<&str>,
) -> (r: Result<(), ApiError>)
    ensures
        ({
            let shown = offered(chars_of(authorization), chars_of(protocols));
            let refused = refusal(access(path@, shown, chars_of(key)));
            match r {
                Ok(_) => refused is None,
                Err(e) => refused == Some(e@),
            }
        }),
{
    let expected: &str = match key {
        None => {
            return Ok(());
        },
        Some(k) => k,
    };
    if strip_start(path, "/v1/").is_none() {
        return Ok(());
    }
    let wanted: String = "Bearer ".to_owned().concat(expected);
    let granted: bool = match (authorization, protocols) {
        (Some(header), _) => same_text(header, wanted.as_str()),
        (None, Some(list)) => match find_key(list) {
            Some(found) => same_text(
                "Bearer ".to_owned().concat(found.as_str()).as_str(),
                wanted.as_str(),
            ),
            None => {
                return Err(ApiError::new(403, "authentication_error", "Missing API key"));
            },
        },
        (None, None) => {
            return Err(ApiError::new(403, "authentication_error", "Missing API key"));
        },
    };
    if granted {
        Ok(())
    } else {
        Err(ApiError::new(401, "authentication_error", "Invalid API key"))
    }
}

/// A request to a path outside `/v1/`, such as a health check, needs no key.
pub proof fn law_other_paths_need_no_key(
    path: Seq<char>,
    shown: Option<Seq<char>>,
    key: Option<Seq<char>>,
)
    requires
        !has_prefix(path, "/v1/"@),
    ensures
        access(path, shown, key) is Granted,
{
}

/// With a key, a request under `/v1/` is served only where it carries that key, as a bearer token
/// or, without one, among its protocols.
pub proof fn law_keys_guard_the_api(
    path: Seq<char>,
    authorization: Option<Seq<char>>,
    protocols: Option<Seq<char>>,
    key: Seq<char>,
)
    requires
        has_prefix(path, "/v1/"@),
    ensures
        refusal(access(path, offered(authorization, protocols), Some(key))) is None <==> {
            ||| authorization == Some("Bearer "@ + key)
            ||| authorization is None && protocols is Some && protocol_key(protocols->Some_0)
                == Some(key)
        },
{
    if authorization is None && protocols is Some {
        if let Some(found) = protocol_key(protocols->Some_0) {
            let start = "Bearer "@;
            assert((start + found).skip(start.len() as int) =~= found);
            assert((start + key).skip(start.len() as int) =~= key);
        }
    }
}

} // verus!
