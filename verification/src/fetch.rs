//! Request headers and URL resolution.

use std::str::FromStr;

use reqwest::header::{HeaderMap, HeaderName, HeaderValue};
use vstd::prelude::*;

use crate::text;
use crate::text::{chars_of, trimmed};

verus! {

/// reqwest's header map.
#[verifier::external_type_specification]
#[verifier::external_body]
#[verifier::reject_recursive_types(T)]
pub struct ExHeaderMap<T>(reqwest::header::HeaderMap<T>);

/// reqwest's header value.
#[verifier::external_type_specification]
#[verifier::external_body]
pub struct ExHeaderValue(reqwest::header::HeaderValue);

/// What a header map holds: for each name, in lower case, its values in order.
pub uninterp spec fn header_entries(map: HeaderMap<HeaderValue>) -> Map<Seq<char>, Seq<Seq<u8>>>;

/// What an empty header map holds.
pub open spec fn no_entries() -> Map<Seq<char>, Seq<Seq<u8>>> {
    Map::empty()
}

/// A character that may stand in a header name.
pub open spec fn is_name_char(c: char) -> bool {
    ||| '0' <= c <= '9'
    ||| 'a' <= c <= 'z'
    ||| 'A' <= c <= 'Z'
    ||| c == '!'
    ||| '#' <= c <= '\''
    ||| c == '*'
    ||| c == '+'
    ||| c == '-'
    ||| c == '.'
    ||| c == '^'
    ||| c == '_'
    ||| c == '`'
    ||| c == '|'
    ||| c == '~'
}

/// A text that is a header name.
pub open spec fn is_header_name(s: Seq<char>) -> bool {
    0 < s.len() <= 65535 && forall|i: int| 0 <= i < s.len() ==> is_name_char(#[trigger] s[i])
}

/// A character, in lower case if it is an ASCII letter.
pub open spec fn lower_char(c: char) -> char {
    if 'A' <= c <= 'Z' {
        (c as int + 32) as char
    } else {
        c
    }
}

/// A text with its ASCII letters in lower case.
pub open spec fn lower(s: Seq<char>) -> Seq<char> {
    Seq::new(s.len(), |i: int| lower_char(s[i]))
}

/// A text that is a header value: no ASCII control character but the tab.
pub open spec fn is_header_value(s: Seq<char>) -> bool {
    forall|i: int| 0 <= i < s.len() ==> ((#[trigger] s[i]) >= ' ' && s[i] != '\u{7f}') || s[i] == '\t'
}

/// Bytes that are all visible ASCII, space or tab.
pub open spec fn is_visible(b: Seq<u8>) -> bool {
    forall|i: int| 0 <= i < b.len() ==> 32 <= (#[trigger] b[i]) < 127 || b[i] == 9
}

/// ASCII bytes as text.
pub open spec fn ascii_text(b: Seq<u8>) -> Seq<char> {
    Seq::new(b.len(), |i: int| b[i] as char)
}

/// `HeaderMap::new`: an empty map.
#[verifier::external_body]
fn empty_headers() -> (r: HeaderMap<HeaderValue>)
    ensures
        header_entries(r) == no_entries(),
{
    HeaderMap::new()
}

/// `HeaderName::from_str`: a text of token characters, not empty and not longer
/// than 65535, is a name; its letters turn to lower case.
#[verifier::external_body]
fn header_name(s: &str) -> (r: Option<String>)
    ensures
        match r {
            Some(name) => is_header_name(s@) && name@ == lower(s@),
            None => !is_header_name(s@),
        },
{
    HeaderName::from_str(s).ok().map(|n| n.as_str().to_string())
}

/// `HeaderValue::from_str`: a text without ASCII control characters, the tab
/// aside, is a value, byte for byte.
#[verifier::external_body]
fn header_value(s: &str) -> (r: Option<Vec<u8>>)
    ensures
        match r {
            Some(value) => is_header_value(s@) && value@ == vstd::utf8::encode_utf8(s@),
            None => !is_header_value(s@),
        },
{
    HeaderValue::from_str(s).ok().map(|v| v.as_bytes().to_vec())
}

/// `HeaderMap::try_insert`: the name then has the one value, and the other names
/// keep theirs. The map may refuse another entry, but not while it has fewer than
/// 6554 names. Whether a larger map does depends on how its names hash.
#[verifier::external_body]
fn insert_header(map: &mut HeaderMap<HeaderValue>, name: &str, value: &[u8]) -> (inserted: bool)
    requires
        is_header_name(name@),
        exists|s: Seq<char>| #[trigger] is_header_value(s) && value@ == vstd::utf8::encode_utf8(s),
    ensures
        inserted ==> header_entries(*final(map)) == header_entries(*old(map)).insert(
            lower(name@),
            seq![value@],
        ),
        !inserted ==> header_entries(*old(map)).dom().len() >= 6554,
{
    let name = HeaderName::from_str(name).unwrap();
    let value = HeaderValue::from_bytes(value).unwrap();
    map.try_insert(name, value).is_ok()
}

/// The text of a header in a map, where it has a value that is text.
pub open spec fn header_text(
    entries: Map<Seq<char>, Seq<Seq<u8>>>,
    name: Seq<char>,
) -> Option<Seq<char>> {
    if is_header_name(name) && entries.contains_key(lower(name)) && is_visible(
        entries[lower(name)][0],
    ) {
        Some(ascii_text(entries[lower(name)][0]))
    } else {
        None
    }
}

/// `HeaderMap::get`, the first value of a name, and `HeaderValue::to_str`, the
/// value as text if it is all visible ASCII, space or tab.
#[verifier::external_body]
pub(crate) fn response_header(map: &HeaderMap<HeaderValue>, name: &str) -> (r: Option<String>)
    ensures
        text::optional(r) == header_text(header_entries(*map), name@),
{
    map.get(name).and_then(|v| v.to_str().ok()).map(str::to_string)
}

// ---------------------------------------------------------------------------
// Request headers
// ---------------------------------------------------------------------------

/// The default `User-Agent`.
pub const USER_AGENT_VALUE: &'static str = "hls-probe/0.1.0";

/// What is wrong with a header that the user gave.
#[derive(Debug, Clone, Copy, PartialEq, Eq, Structural)]
pub enum HeaderFault {
    MissingColon,
    InvalidName,
    InvalidValue,
    /// The header map takes no more names.
    TooManyNames,
}

/// A header that cannot be sent, as the user wrote it.
#[derive(Debug, Clone)]
pub struct HeaderError {
    pub fault: HeaderFault,
    pub raw: String,
}

/// The message for a header that cannot be sent.
pub open spec fn header_message(fault: HeaderFault, raw: Seq<char>) -> Seq<char> {
    match fault {
        HeaderFault::MissingColon => "invalid header '"@ + raw + "': expected 'Name: value'"@,
        HeaderFault::InvalidName => "invalid header name in '"@ + raw + "'"@,
        HeaderFault::InvalidValue => "invalid header value in '"@ + raw + "'"@,
        HeaderFault::TooManyNames => "too many header names at '"@ + raw + "'"@,
    }
}

impl HeaderError {
    /// The message for the user.
    pub fn message(&self) -> (r: String)
        ensures
            r@ == header_message(self.fault, self.raw@),
    {
        let mut s = match self.fault {
            HeaderFault::MissingColon => "invalid header '".to_owned(),
            HeaderFault::InvalidName => "invalid header name in '".to_owned(),
            HeaderFault::InvalidValue => "invalid header value in '".to_owned(),
            HeaderFault::TooManyNames => "too many header names at '".to_owned(),
        };
        s.append(self.raw.as_str());
        match self.fault {
            HeaderFault::MissingColon => s.append("': expected 'Name: value'"),
            _ => s.append("'"),
        }
        s
    }
}

/// The first colon in the text; its length if there is none.
pub open spec fn first_colon(s: Seq<char>) -> nat
    decreases s.len(),
{
    if s.len() == 0 || s[0] == ':' {
        0
    } else {
        1 + first_colon(s.drop_first())
    }
}

/// The name and the value of a header written `Name: value`.
pub open spec fn split_header(raw: Seq<char>) -> Result<(Seq<char>, Seq<u8>), HeaderFault> {
    let colon = first_colon(raw) as int;
    if colon >= raw.len() {
        Err(HeaderFault::MissingColon)
    } else {
        let name = text::trim(raw.subrange(0, colon));
        let value = text::trim(raw.subrange(colon + 1, raw.len() as int));
        if !is_header_name(name) {
            Err(HeaderFault::InvalidName)
        } else if !is_header_value(value) {
            Err(HeaderFault::InvalidValue)
        } else {
            Ok((lower(name), vstd::utf8::encode_utf8(value)))
        }
    }
}

/// The headers that are sent, after the first `n` that the user gave: the
/// default `User-Agent`, and each of those in place of what its name had. Or the
/// first that cannot be sent, and why.
pub open spec fn request_headers(extra: Seq<Seq<char>>, n: nat) -> Result<
    Map<Seq<char>, Seq<Seq<u8>>>,
    (HeaderFault, Seq<char>),
>
    decreases n,
{
    if n == 0 {
        Ok(no_entries().insert("user-agent"@, seq![vstd::utf8::encode_utf8(USER_AGENT_VALUE@)]))
    } else {
        match request_headers(extra, (n - 1) as nat) {
            Err(e) => Err(e),
            Ok(map) => match split_header(extra[n - 1]) {
                Ok((name, value)) => Ok(map.insert(name, seq![value])),
                Err(fault) => Err((fault, extra[n - 1])),
            },
        }
    }
}

/// Once a header cannot be sent, no later one matters.
proof fn lemma_first_fault(extra: Seq<Seq<char>>, n: nat, m: nat)
    requires
        n <= m,
        request_headers(extra, n) is Err,
    ensures
        request_headers(extra, m) == request_headers(extra, n),
    decreases m,
{
    if n < m {
        lemma_first_fault(extra, n, (m - 1) as nat);
    }
}

/// Splits a header written `Name: value`.
fn parse_header(raw: &String) -> (r: Result<(String, Vec<u8>), HeaderFault>)
    ensures
        match r {
            Ok((name, value)) => {
                &&& split_header(raw@) == Ok::<(Seq<char>, Seq<u8>), HeaderFault>(
                    (name@, value@),
                )
                &&& is_header_name(name@)
                &&& lower(name@) == name@
                &&& exists|s: Seq<char>| #[trigger]
                    is_header_value(s) && value@ == vstd::utf8::encode_utf8(s)
            },
            Err(e) => split_header(raw@) == Err::<(Seq<char>, Seq<u8>), HeaderFault>(e),
        },
{
    let chars = chars_of(raw.as_str());
    let mut colon: usize = 0;
    assert(chars@.skip(0) =~= chars@);
    while colon < chars.len() && chars[colon] != ':'
        invariant
            colon <= chars.len(),
            first_colon(chars@) == colon + first_colon(chars@.skip(colon as int)),
        decreases chars.len() - colon,
    {
        assert(chars@.skip(colon as int)[0] == chars@[colon as int]);
        assert(chars@.skip(colon as int).drop_first() =~= chars@.skip(colon + 1));
        colon = colon + 1;
    }
    assert(first_colon(chars@) == colon) by {
        if colon < chars.len() {
            assert(chars@.skip(colon as int)[0] == chars@[colon as int]);
        }
    }
    if colon == chars.len() {
        return Err(HeaderFault::MissingColon);
    }
    let name = trimmed(&chars, 0, colon);
    let value = trimmed(&chars, colon + 1, chars.len());
    match header_name(name.as_str()) {
        None => Err(HeaderFault::InvalidName),
        Some(lowered) => match header_value(value.as_str()) {
            None => Err(HeaderFault::InvalidValue),
            Some(bytes) => {
                proof {
                    assert(is_header_value(value@));
                    assert forall|i: int| 0 <= i < lowered@.len() implies is_name_char(
                        #[trigger] lowered@[i],
                    ) by {
                        assert(is_name_char(name@[i]));
                    }
                    assert(lower(lowered@) =~= lowered@);
                }
                Ok((lowered, bytes))
            },
        },
    }
}

/// Header `k` can be sent, but the map that it goes into has so many names that it
/// may be full.
pub open spec fn is_crowded(extra: Seq<Seq<char>>, k: int) -> bool {
    &&& split_header(extra[k]) is Ok
    &&& request_headers(extra, k as nat) is Ok
    &&& (request_headers(extra, k as nat)->Ok_0).dom().len() >= 6554
}

/// Parse curl-style "Name: value" strings into a header map. A user-supplied
/// User-Agent replaces the default one. Names beyond what the map can hold are an
/// error; that needs thousands of different ones.
pub fn parse_headers(extra: &[String]) -> (r: Result<HeaderMap<HeaderValue>, HeaderError>)
    ensures
        match r {
            Ok(map) => request_headers(text::texts(extra@), extra@.len()) == Ok::<
                Map<Seq<char>, Seq<Seq<u8>>>,
                (HeaderFault, Seq<char>),
            >(header_entries(map)),
            Err(e) => if e.fault == HeaderFault::TooManyNames {
                exists|k: int|
                    0 <= k < extra@.len() && #[trigger] is_crowded(text::texts(extra@), k)
                        && e.raw@ == extra@[k]@
            } else {
                request_headers(text::texts(extra@), extra@.len()) == Err::<
                    Map<Seq<char>, Seq<Seq<u8>>>,
                    (HeaderFault, Seq<char>),
                >((e.fault, e.raw@))
            },
        },
{
    let ghost texts = text::texts(extra@);
    let mut map = empty_headers();
    proof {
        reveal_strlit("user-agent");
        reveal_strlit("hls-probe/0.1.0");
        assert(is_header_name("user-agent"@));
        assert(lower("user-agent"@) =~= "user-agent"@);
        assert(is_header_value(USER_AGENT_VALUE@));
    }
    let inserted = insert_header(&mut map, "user-agent", USER_AGENT_VALUE.as_bytes());
    assert(inserted);
    let mut i: usize = 0;
    while i < extra.len()
        invariant
            i <= extra.len(),
            texts == text::texts(extra@),
            request_headers(texts, i as nat) == Ok::<
                Map<Seq<char>, Seq<Seq<u8>>>,
                (HeaderFault, Seq<char>),
            >(header_entries(map)),
        decreases extra.len() - i,
    {
        assert(texts[i as int] == extra[i as int]@);
        match parse_header(&extra[i]) {
            Ok((name, value)) => {
                if !insert_header(&mut map, name.as_str(), value.as_slice()) {
                    assert(is_crowded(texts, i as int));
                    return Err(
                        HeaderError { fault: HeaderFault::TooManyNames, raw: extra[i].clone() },
                    );
                }
            },
            Err(fault) => {
                proof {
                    lemma_first_fault(texts, (i + 1) as nat, extra@.len());
                }
                return Err(HeaderError { fault, raw: extra[i].clone() });
            },
        }
        i = i + 1;
    }
    Ok(map)
}

/// Headers depend only on those up to them.
proof fn lemma_same_prefix(a: Seq<Seq<char>>, b: Seq<Seq<char>>, n: nat)
    requires
        n <= a.len(),
        n <= b.len(),
        forall|i: int| 0 <= i < n ==> a[i] == b[i],
    ensures
        request_headers(a, n) == request_headers(b, n),
    decreases n,
{
    if n > 0 {
        lemma_same_prefix(a, b, (n - 1) as nat);
    }
}

/// One more header sets exactly its name, in place of any earlier value, and
/// leaves every other header alone. It is refused if it cannot be sent, and what
/// was refused before stays refused.
pub proof fn one_more_header_sets_its_name(extra: Seq<Seq<char>>, raw: Seq<char>)
    ensures
        request_headers(extra.push(raw), extra.len() + 1) == match request_headers(
            extra,
            extra.len(),
        ) {
            Err(e) => Err(e),
            Ok(map) => match split_header(raw) {
                Ok((name, value)) => Ok(map.insert(name, seq![value])),
                Err(fault) => Err((fault, raw)),
            },
        },
{
    lemma_same_prefix(extra.push(raw), extra, extra.len());
}

/// There is at most one name more than the user gave headers, so 6553 of them are
/// never too many, whatever their names.
pub proof fn few_headers_are_never_crowded(extra: Seq<Seq<char>>, n: nat)
    requires
        n <= extra.len(),
        request_headers(extra, n) is Ok,
    ensures
        (request_headers(extra, n)->Ok_0).dom().finite(),
        (request_headers(extra, n)->Ok_0).dom().len() <= n + 1,
        forall|k: int| 0 <= k < n && n <= 6553 ==> !#[trigger] is_crowded(extra, k),
    decreases n,
{
    if n > 0 {
        few_headers_are_never_crowded(extra, (n - 1) as nat);
    }
}

/// The name in a header that can be sent.
pub open spec fn name_of(raw: Seq<char>) -> Seq<char> {
    (split_header(raw)->Ok_0).0
}

/// The value in a header that can be sent.
pub open spec fn value_of(raw: Seq<char>) -> Seq<u8> {
    (split_header(raw)->Ok_0).1
}

/// Headers are refused exactly if one of them cannot be sent, and the first such
/// is the one to blame.
pub proof fn first_bad_header_is_blamed(extra: Seq<Seq<char>>, n: nat)
    requires
        n <= extra.len(),
    ensures
        request_headers(extra, n) is Err <==> exists|i: int|
            0 <= i < n && split_header(#[trigger] extra[i]) is Err,
        request_headers(extra, n) matches Err(e) ==> exists|i: int|
            {
                &&& 0 <= i < n
                &&& e == (split_header(#[trigger] extra[i])->Err_0, extra[i])
                &&& split_header(extra[i]) is Err
                &&& forall|j: int| 0 <= j < i ==> split_header(#[trigger] extra[j]) is Ok
            },
    decreases n,
{
    if n > 0 {
        first_bad_header_is_blamed(extra, (n - 1) as nat);
        if request_headers(extra, (n - 1) as nat) is Ok && split_header(extra[n - 1]) is Err {
            assert forall|j: int| 0 <= j < n - 1 implies split_header(#[trigger] extra[j]) is Ok by {
                assert(!(split_header(extra[j]) is Err));
            }
        }
    }
}

/// A header that the user gave is sent, unless a later one has the same name; so
/// a `User-Agent` that the user gave replaces the default one.
pub proof fn last_header_wins(extra: Seq<Seq<char>>, n: nat, i: int)
    requires
        0 <= i < n <= extra.len(),
        request_headers(extra, n) is Ok,
        forall|j: int| i < j < n ==> name_of(#[trigger] extra[j]) != name_of(extra[i]),
    ensures
        request_headers(extra, n)->Ok_0.contains_key(name_of(extra[i])),
        request_headers(extra, n)->Ok_0[name_of(extra[i])] == seq![value_of(extra[i])],
    decreases n,
{
    if i < n - 1 {
        assert(name_of(extra[n - 1]) != name_of(extra[i]));
        last_header_wins(extra, (n - 1) as nat, i);
    }
}

/// Without a `User-Agent` from the user the default one is sent.
pub proof fn default_user_agent_is_sent(extra: Seq<Seq<char>>, n: nat)
    requires
        n <= extra.len(),
        request_headers(extra, n) is Ok,
        forall|j: int| 0 <= j < n ==> name_of(#[trigger] extra[j]) != "user-agent"@,
    ensures
        request_headers(extra, n)->Ok_0.contains_key("user-agent"@),
        request_headers(extra, n)->Ok_0["user-agent"@] == seq![
            vstd::utf8::encode_utf8(USER_AGENT_VALUE@),
        ],
    decreases n,
{
    if n > 0 {
        assert(name_of(extra[n - 1]) != "user-agent"@);
        default_user_agent_is_sent(extra, (n - 1) as nat);
    }
}

/// Nothing else is sent: every header is the `User-Agent` or has a name that the
/// user gave.
pub proof fn no_other_header_is_sent(extra: Seq<Seq<char>>, n: nat, name: Seq<char>)
    requires
        n <= extra.len(),
        request_headers(extra, n) is Ok,
        request_headers(extra, n)->Ok_0.contains_key(name),
    ensures
        name == "user-agent"@ || exists|i: int| 0 <= i < n && name_of(#[trigger] extra[i]) == name,
    decreases n,
{
    if n > 0 && name != name_of(extra[n - 1]) {
        no_other_header_is_sent(extra, (n - 1) as nat, name);
    }
}

proof fn lemma_first_colon(s: Seq<char>, colon: int)
    requires
        0 <= colon < s.len(),
        s[colon] == ':',
        forall|k: int| 0 <= k < colon ==> #[trigger] s[k] != ':',
    ensures
        first_colon(s) == colon,
    decreases s.len(),
{
    if colon > 0 {
        let rest = s.drop_first();
        assert(s[0] != ':');
        assert forall|k: int| 0 <= k < colon - 1 implies #[trigger] rest[k] != ':' by {
            assert(rest[k] == s[k + 1]);
        }
        lemma_first_colon(rest, colon - 1);
    }
}

proof fn lemma_no_colon(s: Seq<char>)
    ensures
        first_colon(s) <= s.len(),
        first_colon(s) == s.len() <==> forall|k: int| 0 <= k < s.len() ==> #[trigger] s[k] != ':',
    decreases s.len(),
{
    if s.len() > 0 && s[0] != ':' {
        let rest = s.drop_first();
        lemma_no_colon(rest);
        if first_colon(s) == s.len() {
            assert forall|k: int| 0 <= k < s.len() implies #[trigger] s[k] != ':' by {
                if k > 0 {
                    assert(rest[k - 1] == s[k]);
                }
            }
        }
        if forall|k: int| 0 <= k < s.len() ==> #[trigger] s[k] != ':' {
            assert forall|k: int| 0 <= k < rest.len() implies #[trigger] rest[k] != ':' by {
                assert(rest[k] == s[k + 1]);
            }
        }
    }
}

/// A header lacks a colon exactly if none of its characters is one.
pub proof fn header_without_colon_is_refused(raw: Seq<char>)
    ensures
        split_header(raw) == Err::<(Seq<char>, Seq<u8>), HeaderFault>(HeaderFault::MissingColon)
            <==> forall|k: int| 0 <= k < raw.len() ==> #[trigger] raw[k] != ':',
{
    lemma_no_colon(raw);
}

/// A header is split at its first colon, later ones belong to the value, and white
/// space around either part is dropped: what was put together from a name and a
/// value comes apart into just these, the name in lower case.
pub proof fn written_header_comes_apart(
    spaces: (Seq<char>, Seq<char>, Seq<char>, Seq<char>),
    name: Seq<char>,
    value: Seq<char>,
)
    requires
        forall|k: int| 0 <= k < spaces.0.len() ==> text::is_space(#[trigger] spaces.0[k]),
        forall|k: int| 0 <= k < spaces.1.len() ==> text::is_space(#[trigger] spaces.1[k]),
        forall|k: int| 0 <= k < spaces.2.len() ==> text::is_space(#[trigger] spaces.2[k]),
        forall|k: int| 0 <= k < spaces.3.len() ==> text::is_space(#[trigger] spaces.3[k]),
        is_header_name(name),
        value.len() > 0,
        !text::is_space(value[0]),
        !text::is_space(value.last()),
    ensures
        ({
            let raw = spaces.0 + name + spaces.1 + seq![':'] + (spaces.2 + value + spaces.3);
            &&& is_header_value(value) ==> split_header(raw) == Ok::<
                (Seq<char>, Seq<u8>),
                HeaderFault,
            >((lower(name), vstd::utf8::encode_utf8(value)))
            &&& !is_header_value(value) ==> split_header(raw) == Err::<
                (Seq<char>, Seq<u8>),
                HeaderFault,
            >(HeaderFault::InvalidValue)
        }),
{
    let left = spaces.0 + name + spaces.1;
    let right = spaces.2 + value + spaces.3;
    let raw = left + seq![':'] + right;
    let colon = left.len() as int;
    assert forall|k: int| 0 <= k < name.len() implies !text::is_space(#[trigger] name[k])
        && name[k] != ':' by {
        assert(is_name_char(name[k]));
    }
    assert(raw[colon] == ':');
    assert forall|k: int| 0 <= k < colon implies #[trigger] raw[k] != ':' by {
        if k < spaces.0.len() {
            assert(raw[k] == spaces.0[k]);
            assert(text::is_space(spaces.0[k]));
        } else if k < spaces.0.len() + name.len() {
            assert(raw[k] == name[k - spaces.0.len()]);
        } else {
            assert(raw[k] == spaces.1[k - spaces.0.len() - name.len()]);
            assert(text::is_space(spaces.1[k - spaces.0.len() - name.len()]));
        }
    }
    lemma_first_colon(raw, colon);
    assert(raw.subrange(0, colon) =~= left);
    assert(raw.subrange(colon + 1, raw.len() as int) =~= right);
    assert(!text::is_space(name[0]) && !text::is_space(name[name.len() - 1]));
    text::padding_is_trimmed(spaces.0, name, spaces.1);
    text::padding_is_trimmed(spaces.2, value, spaces.3);
}

// ---------------------------------------------------------------------------
// URLs
// ---------------------------------------------------------------------------

/// What `Url::join` makes of a base and a reference, both as text: the text of
/// the URL, or that of the error.
pub uninterp spec fn joined(base: Seq<char>, uri: Seq<char>) -> Result<Seq<char>, Seq<char>>;

/// `Url::join` on the URL that `base` is the text of.
#[verifier::external_body]
fn join_url(base: &str, uri: &str) -> (r: Result<String, String>)
    ensures
        match r {
            Ok(url) => joined(base@, uri@) == Ok::<Seq<char>, Seq<char>>(url@),
            Err(e) => joined(base@, uri@) == Err::<Seq<char>, Seq<char>>(e@),
        },
{
    match url::Url::parse(base).and_then(|b| b.join(uri)) {
        Ok(url) => Ok(url.to_string()),
        Err(e) => Err(e.to_string()),
    }
}

/// A URI that cannot be resolved: what was tried, and the cause.
#[derive(Debug, Clone)]
pub struct ResolveError {
    pub message: String,
    pub cause: String,
}

/// What [`resolve`] was trying to do.
pub open spec fn resolve_message(base: Seq<char>, uri: Seq<char>) -> Seq<char> {
    "resolving '"@ + uri + "' against "@ + base
}

/// `r` is what a joined URL, or the text of an error, is to the caller.
pub open spec fn is_resolution(
    r: Result<String, ResolveError>,
    base: Seq<char>,
    uri: Seq<char>,
    join: Result<Seq<char>, Seq<char>>,
) -> bool {
    match (r, join) {
        (Ok(url), Ok(joined)) => url@ == joined,
        (Err(e), Err(cause)) => e.cause@ == cause && e.message@ == resolve_message(base, uri),
        _ => false,
    }
}

/// A joined URL, or an error that says what was tried and why it failed.
pub fn resolution(base: &str, uri: &str, join: Result<String, String>) -> (r: Result<
    String,
    ResolveError,
>)
    ensures
        is_resolution(
            r,
            base@,
            uri@,
            match join {
                Ok(url) => Ok(url@),
                Err(e) => Err(e@),
            },
        ),
{
    match join {
        Ok(url) => Ok(url),
        Err(cause) => {
            let mut message = "resolving '".to_owned();
            message.append(uri);
            message.append("' against ");
            message.append(base);
            Err(ResolveError { message, cause })
        },
    }
}

/// Resolve a possibly relative playlist URI against the URL it was found in.
pub fn resolve(base: &str, uri: &str) -> (r: Result<String, ResolveError>)
    ensures
        is_resolution(r, base@, uri@, joined(base@, uri@)),
{
    resolution(base, uri, join_url(base, uri))
}

/// The message on a header quotes it whole, and differs with what is wrong with it.
pub proof fn header_message_quotes_the_header(raw: Seq<char>)
    ensures
        header_message(HeaderFault::MissingColon, raw) == "invalid header '"@ + raw
            + "': expected 'Name: value'"@,
        header_message(HeaderFault::InvalidName, raw) == "invalid header name in '"@ + raw + "'"@,
        header_message(HeaderFault::InvalidValue, raw) == "invalid header value in '"@ + raw + "'"@,
{
}

/// A resolved URL is what joining the two gives, and its failure names both.
pub proof fn resolution_keeps_the_outcome(
    r: Result<String, ResolveError>,
    base: Seq<char>,
    uri: Seq<char>,
    join: Result<Seq<char>, Seq<char>>,
)
    requires
        is_resolution(r, base, uri, join),
    ensures
        r is Ok <==> join is Ok,
        r matches Ok(url) ==> join == Ok::<Seq<char>, Seq<char>>(url@),
        r matches Err(e) ==> join == Err::<Seq<char>, Seq<char>>(e.cause@) && e.message@
            == "resolving '"@ + uri + "' against "@ + base,
{
}

} // verus!
