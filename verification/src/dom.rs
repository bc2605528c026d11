//! Browser-facing decisions: DOM errors, keyboard keys, and the address of
//! the game's WebSocket.

pub mod input;

use vstd::prelude::*;

verus! {

/// What went wrong while talking to the browser.
#[derive(Clone, Debug)]
pub enum DomError {
    ElementNotFound(String),
    DocumentMissing,
    WindowMissing,
    LocationMissing,
    BaseUriMissing,
    UnknownProtocol,
    CaughtException,
    ImageError,
    WebSocketError,
}

/// The message for a DOM error.
pub open spec fn dom_error_text(e: DomError) -> Seq<char> {
    match e {
        DomError::ElementNotFound(id) => "Element `"@ + id@ + "` not found"@,
        DomError::DocumentMissing => "Global `window.document` missing"@,
        DomError::WindowMissing => "Global `window` missing"@,
        DomError::LocationMissing => "Global `location` missing"@,
        DomError::BaseUriMissing => "Base URI missing"@,
        DomError::UnknownProtocol => "Unknown protocol"@,
        DomError::CaughtException => "Caught exception"@,
        DomError::ImageError => "Image load failed"@,
        DomError::WebSocketError => "WebSocket connection failed"@,
    }
}

impl DomError {
    /// The message that describes the error.
    pub fn message(&self) -> (r: String)
        ensures
            r@ == dom_error_text(*self),
    {
        match self {
            DomError::ElementNotFound(id) => {
                let mut t = String::from_str("Element `");
                t.append(id.as_str());
                t.append("` not found");
                t
            },
            DomError::DocumentMissing => String::from_str("Global `window.document` missing"),
            DomError::WindowMissing => String::from_str("Global `window` missing"),
            DomError::LocationMissing => String::from_str("Global `location` missing"),
            DomError::BaseUriMissing => String::from_str("Base URI missing"),
            DomError::UnknownProtocol => String::from_str("Unknown protocol"),
            DomError::CaughtException => String::from_str("Caught exception"),
            DomError::ImageError => String::from_str("Image load failed"),
            DomError::WebSocketError => String::from_str("WebSocket connection failed"),
        }
    }
}

/// The base URI of the document, from what the browser reported: whether
/// there is a window, whether it has a document, and what the document
/// gave as its base URI (an exception, nothing, or the URI).
pub fn get_base_uri(has_window: bool, has_document: bool, base_uri: Result<Option<String>, DomError>) -> (r:
    Result<String, DomError>)
    ensures
        !has_window ==> r == Err::<String, DomError>(DomError::WindowMissing),
        has_window && !has_document ==> r == Err::<String, DomError>(DomError::DocumentMissing),
        has_window && has_document ==> r == match base_uri {
            Err(e) => Err(e),
            Ok(None) => Err(DomError::BaseUriMissing),
            Ok(Some(uri)) => Ok(uri),
        },
{
    if !has_window {
        return Err(DomError::WindowMissing);
    }
    if !has_document {
        return Err(DomError::DocumentMissing);
    }
    match base_uri {
        Err(e) => Err(e),
        Ok(None) => Err(DomError::BaseUriMissing),
        Ok(Some(uri)) => Ok(uri),
    }
}

/// A keyboard key, by the name the browser gives it.
#[derive(Clone, Debug, PartialEq, Eq, Hash)]
pub struct Key(String);

/// `char::to_string`: the text made of the one character `c`.
#[verifier::external_body]
fn char_to_string(c: char) -> (r: String)
    ensures
        r@ == seq![c],
{
    c.to_string()
}

impl View for Key {
    type V = Seq<char>;

    closed spec fn view(&self) -> Seq<char> {
        self.0@
    }
}

impl Key {
    /// The key that types the character `ch`.
    pub fn ch(ch: char) -> (r: Key)
        ensures
            r@ == seq![ch],
    {
        Key(char_to_string(ch))
    }

    /// The key with the given name.
    pub fn named(name: &str) -> (r: Key)
        ensures
            r@ == name@,
    {
        Key(String::from_str(name))
    }

    /// The name of the key, as the `String` it is kept in.
    pub(crate) fn name_string(&self) -> (r: &String)
        ensures
            r@ == self@,
    {
        &self.0
    }

    /// A key with the same name.
    pub(crate) fn clone_key(&self) -> (r: Key)
        ensures
            r@ == self@,
    {
        Key(self.0.clone())
    }

    /// The name of the key.
    pub fn name(&self) -> (r: &str)
        ensures
            r@ == self@,
    {
        self.0.as_str()
    }
}

/// `s` begins with `prefix`.
pub open spec fn has_prefix(s: Seq<char>, prefix: Seq<char>) -> bool {
    s.len() >= prefix.len() && s.subrange(0, prefix.len() as int) == prefix
}

/// The address with the scheme `http:` made `ws:` and `https:` made
/// `wss:`; others are left alone.
pub open spec fn ws_scheme(u: Seq<char>) -> Seq<char> {
    if has_prefix(u, "http:"@) {
        "ws"@ + u.subrange(4, u.len() as int)
    } else if has_prefix(u, "https:"@) {
        "wss"@ + u.subrange(5, u.len() as int)
    } else {
        u
    }
}

/// The position just after the last `/` of `u`, or 0 if it has none.
pub open spec fn after_last_slash(u: Seq<char>) -> int {
    if exists|i: int| 0 <= i < u.len() && u[i] == '/' {
        (choose|i: int| 0 <= i < u.len() && u[i] == '/' && forall|k: int| i < k < u.len() ==> u[k] != '/') + 1
    } else {
        0
    }
}

/// The WebSocket address for `rel_uri` next to the page at `base_uri`: the
/// base with its scheme made a WebSocket scheme and its last path segment
/// replaced by `rel_uri`.
pub open spec fn websocket_uri_of(base_uri: Seq<char>, rel_uri: Seq<char>) -> Seq<char> {
    let u = ws_scheme(base_uri);
    u.subrange(0, after_last_slash(u)) + rel_uri
}

fn starts_with(s: &str, prefix: &str) -> (r: bool)
    ensures
        r == has_prefix(s@, prefix@),
{
    let n = s.unicode_len();
    let m = prefix.unicode_len();
    if n < m {
        return false;
    }
    let mut i: usize = 0;
    while i < m
        invariant
            n == s@.len(),
            m == prefix@.len(),
            m <= n,
            i <= m,
            forall|k: int| 0 <= k < i ==> s@[k] == prefix@[k],
        decreases m - i,
    {
        if s.get_char(i) != prefix.get_char(i) {
            assert(s@.subrange(0, m as int)[i as int] != prefix@[i as int]);
            return false;
        }
        i += 1;
    }
    assert(s@.subrange(0, m as int) =~= prefix@);
    true
}

/// The WebSocket address for `rel_uri` next to the page at `base_uri`.
/// `rel_uri` must be relative: it must not start with `/` nor hold `:`.
pub fn websocket_uri(base_uri: &str, rel_uri: &str) -> (r: String)
    requires
        rel_uri@.len() > 0 ==> rel_uri@[0] != '/',
        forall|i: int| 0 <= i < rel_uri@.len() ==> rel_uri@[i] != ':',
    ensures
        r@ == websocket_uri_of(base_uri@, rel_uri@),
{
    let n = base_uri.unicode_len();
    proof {
        reveal_strlit("http:");
        reveal_strlit("https:");
    }
    let mut uri = if starts_with(base_uri, "http:") {
        let mut u = String::from_str("ws");
        u.append(base_uri.substring_char(4, n));
        u
    } else if starts_with(base_uri, "https:") {
        let mut u = String::from_str("wss");
        u.append(base_uri.substring_char(5, n));
        u
    } else {
        String::from_str(base_uri)
    };
    let ghost u = uri@;
    assert(u == ws_scheme(base_uri@));
    let len = uri.as_str().unicode_len();
    let mut pos: usize = len;
    while pos > 0 && uri.as_str().get_char(pos - 1) != '/'
        invariant
            pos <= len,
            len == u.len(),
            uri@ == u,
            forall|k: int| pos <= k < len ==> u[k] != '/',
        decreases pos,
    {
        pos -= 1;
    }
    proof {
        if pos > 0 {
            let i = (pos - 1) as int;
            assert(u[i] == '/');
            let j = choose|j: int| 0 <= j < u.len() && u[j] == '/' && forall|k: int| j < k < u.len() ==> u[k] != '/';
            if j < i {
                assert(u[i] != '/');
            }
            if i < j {
                assert(u[j] != '/');
            }
            assert(after_last_slash(u) == pos);
        } else {
            if exists|i: int| 0 <= i < u.len() && u[i] == '/' {
                let i = choose|i: int| 0 <= i < u.len() && u[i] == '/';
                assert(u[i] != '/');
            }
            assert(after_last_slash(u) == 0);
        }
    }
    let mut r = String::from_str(uri.as_str().substring_char(0, pos));
    r.append(rel_uri);
    r
}

} // verus!
