use vstd::prelude::*;
use vstd::slice::slice_to_vec;
use vstd::string::*;
use vstd::utf8::*;

use crate::error::ClawserError;

verus! {

/// The byte sequence holds a NUL byte, which a C string cannot carry
/// (`CString::new` refuses it).
pub open spec fn has_nul(b: Seq<u8>) -> bool {
    b.contains(0u8)
}

/// Whether `s` holds a NUL byte, so that it cannot be handed to the engine.
pub fn contains_nul(s: &str) -> (res: bool)
    ensures
        res == has_nul(s.spec_bytes()),
{
    let b = s.as_bytes();
    let mut i: usize = 0;
    while i < b.len()
        invariant
            i <= b@.len(),
            b@ == s.spec_bytes(),
            forall|k: int| 0 <= k < i ==> b@[k] != 0u8,
        decreases b@.len() - i,
    {
        if b[i] == 0u8 {
            assert(b@[i as int] == 0u8);
            return true;
        }
        i = i + 1;
    }
    assert(!b@.contains(0u8));
    false
}

/// The message of the argument error that a request with these method and
/// URL bytes meets, if any: the method is checked first.
pub open spec fn request_args_error(method: Seq<u8>, url: Seq<u8>) -> Option<Seq<char>> {
    if has_nul(method) {
        Some("method contains null byte"@)
    } else if has_nul(url) {
        Some("url contains null byte"@)
    } else {
        None
    }
}

/// The result of checking an argument: `Ok` when there is no message,
/// an `InvalidArgument` with exactly the message otherwise.
pub open spec fn argument_check(res: Result<(), ClawserError>, msg: Option<Seq<char>>) -> bool {
    match msg {
        None => res is Ok,
        Some(m) => res matches Err(ClawserError::InvalidArgument(e)) && e@ == m,
    }
}

/// Checks the method and URL of a new request before they reach the engine.
pub fn check_request_args(method: &str, url: &str) -> (res: Result<(), ClawserError>)
    ensures
        argument_check(res, request_args_error(method.spec_bytes(), url.spec_bytes())),
{
    if contains_nul(method) {
        return Err(ClawserError::InvalidArgument("method contains null byte".to_owned()));
    }
    if contains_nul(url) {
        return Err(ClawserError::InvalidArgument("url contains null byte".to_owned()));
    }
    Ok(())
}

/// The message of the argument error for a configuration path (already
/// known to be UTF-8), if any.
pub open spec fn config_path_error(path: Seq<u8>) -> Option<Seq<char>> {
    if has_nul(path) {
        Some("path contains null byte"@)
    } else {
        None
    }
}

/// Checks a configuration file path before it reaches the engine.
pub fn check_config_path(path: &str) -> (res: Result<(), ClawserError>)
    ensures
        argument_check(res, config_path_error(path.spec_bytes())),
{
    if contains_nul(path) {
        return Err(ClawserError::InvalidArgument("path contains null byte".to_owned()));
    }
    Ok(())
}

/// A NUL byte is a byte equal to zero, and nothing else counts as one.
pub proof fn lemma_has_nul_iff_zero_byte(b: Seq<u8>)
    ensures
        has_nul(b) <==> exists|i: int| 0 <= i < b.len() && b[i] == 0u8,
{
    if has_nul(b) {
        let i = choose|i: int| 0 <= i < b.len() && b[i] == 0u8;
        assert(b[i] == 0u8);
    }
    if exists|i: int| 0 <= i < b.len() && b[i] == 0u8 {
        let i = choose|i: int| 0 <= i < b.len() && b[i] == 0u8;
        assert(b.contains(0u8)) by {
            assert(b[i] == 0u8);
        }
    }
}

proof fn lemma_encode_scalar_zero(c: char)
    ensures
        encode_scalar(c as u32).contains(0u8) <==> c == '\0',
{
    let v = c as u32;
    char_is_scalar(c);
    let e = encode_scalar(v);
    if has_width_1_encoding(v) {
        assert((v & 0x7F) as u8 == 0 <==> v == 0) by (bit_vector)
            requires
                v <= 0x7F,
        ;
        if e.contains(0u8) {
            let i = choose|i: int| 0 <= i < e.len() && e[i] == 0u8;
            assert(i == 0);
        }
        if c == '\0' {
            assert(e[0] == 0u8);
        }
    } else {
        assert(forall|x: u8| #![trigger (0xC0u8 | x)] (0xC0u8 | x) != 0) by (bit_vector);
        assert(forall|x: u8| #![trigger (0xE0u8 | x)] (0xE0u8 | x) != 0) by (bit_vector);
        assert(forall|x: u8| #![trigger (0xF0u8 | x)] (0xF0u8 | x) != 0) by (bit_vector);
        assert(forall|x: u8| #![trigger (0x80u8 | x)] (0x80u8 | x) != 0) by (bit_vector);
        assert(v != 0);
        assert(c != '\0');
        assert forall|i: int| 0 <= i < e.len() implies e[i] != 0u8 by {
            if has_width_2_encoding(v) {
                assert(e[0] == leading_byte_width_2(v));
                assert(e[1] == last_continuation_byte(v));
            } else if has_width_3_encoding(v) {
                assert(e[0] == leading_byte_width_3(v));
                assert(e[1] == second_last_continuation_byte(v));
                assert(e[2] == last_continuation_byte(v));
            } else {
                assert(e[0] == leading_byte_width_4(v));
                assert(e[1] == third_last_continuation_byte(v));
                assert(e[2] == second_last_continuation_byte(v));
                assert(e[3] == last_continuation_byte(v));
            }
        }
    }
}

/// The UTF-8 bytes of a string hold a NUL byte exactly when the string
/// holds the character U+0000: no other character, ASCII or not, is
/// encoded with a zero byte.
pub proof fn lemma_nul_byte_iff_nul_char(s: Seq<char>)
    ensures
        has_nul(encode_utf8(s)) <==> s.contains('\0'),
    decreases s.len(),
{
    if s.len() == 0 {
        assert(!encode_utf8(s).contains(0u8));
    } else {
        let head = encode_scalar(s[0] as u32);
        let rest = s.drop_first();
        let tail = encode_utf8(rest);
        lemma_nul_byte_iff_nul_char(rest);
        lemma_encode_scalar_zero(s[0]);
        assert(encode_utf8(s) == head + tail);
        if (head + tail).contains(0u8) {
            let i = choose|i: int| 0 <= i < (head + tail).len() && (head + tail)[i] == 0u8;
            if i < head.len() {
                assert(head[i] == 0u8);
                assert(head.contains(0u8));
            } else {
                assert(tail[i - head.len()] == 0u8);
                assert(tail.contains(0u8));
            }
        }
        if head.contains(0u8) {
            let i = choose|i: int| 0 <= i < head.len() && head[i] == 0u8;
            assert((head + tail)[i] == 0u8);
        }
        if tail.contains(0u8) {
            let i = choose|i: int| 0 <= i < tail.len() && tail[i] == 0u8;
            assert((head + tail)[head.len() + i] == 0u8);
        }
        if s.contains('\0') {
            let i = choose|i: int| 0 <= i < s.len() && s[i] == '\0';
            if i > 0 {
                assert(rest[i - 1] == '\0');
            }
        }
        if rest.contains('\0') {
            let i = choose|i: int| 0 <= i < rest.len() && rest[i] == '\0';
            assert(s[i + 1] == '\0');
        }
    }
}

/// The method and URL of a request are refused only for a zero byte, the
/// method's first, whatever else they hold and however long they are.
pub proof fn lemma_request_args_refused_only_for_nul(method: Seq<u8>, url: Seq<u8>)
    ensures
        (forall|i: int| 0 <= i < method.len() ==> method[i] != 0u8) && (forall|i: int|
            0 <= i < url.len() ==> url[i] != 0u8) ==> request_args_error(method, url) is None,
        (exists|i: int| 0 <= i < method.len() && method[i] == 0u8) ==> request_args_error(
            method,
            url,
        ) == Some("method contains null byte"@),
        (forall|i: int| 0 <= i < method.len() ==> method[i] != 0u8) && (exists|i: int|
            0 <= i < url.len() && url[i] == 0u8) ==> request_args_error(method, url) == Some(
            "url contains null byte"@,
        ),
{
    lemma_has_nul_iff_zero_byte(method);
    lemma_has_nul_iff_zero_byte(url);
}

/// A request whose method and URL hold no U+0000 character passes the
/// check, whatever characters they hold.
pub proof fn lemma_request_args_accept_text_without_nul(method: Seq<char>, url: Seq<char>)
    requires
        !method.contains('\0'),
        !url.contains('\0'),
    ensures
        request_args_error(encode_utf8(method), encode_utf8(url)) is None,
{
    lemma_nul_byte_iff_nul_char(method);
    lemma_nul_byte_iff_nul_char(url);
}

/// A configuration path is refused only for a zero byte, with the message
/// "path contains null byte"; any other path is accepted.
pub proof fn lemma_config_path_refused_only_for_nul(path: Seq<u8>)
    ensures
        (forall|i: int| 0 <= i < path.len() ==> path[i] != 0u8) ==> config_path_error(path) is None,
        (exists|i: int| 0 <= i < path.len() && path[i] == 0u8) ==> config_path_error(path) == Some(
            "path contains null byte"@,
        ),
{
    lemma_has_nul_iff_zero_byte(path);
}

/// A configuration path with no U+0000 character passes the check.
pub proof fn lemma_config_path_accepts_text_without_nul(path: Seq<char>)
    requires
        !path.contains('\0'),
    ensures
        config_path_error(encode_utf8(path)) is None,
{
    lemma_nul_byte_iff_nul_char(path);
}

/// One setting that a request builder hands to the engine.
pub enum RequestOp {
    /// Set a header to a value.
    Header(String, String),
    /// Set the request body.
    Body(Vec<u8>),
    /// Set the largest number of redirects to follow.
    MaxRedirects(i32),
    /// Set the timeout in milliseconds.
    TimeoutMs(u32),
}

/// What a [`RequestOp`] holds, as values.
pub enum RequestOpView {
    Header(Seq<char>, Seq<char>),
    Body(Seq<u8>),
    MaxRedirects(i32),
    TimeoutMs(u32),
}

impl View for RequestOp {
    type V = RequestOpView;

    open spec fn view(&self) -> RequestOpView {
        match self {
            RequestOp::Header(n, v) => RequestOpView::Header(n@, v@),
            RequestOp::Body(b) => RequestOpView::Body(b@),
            RequestOp::MaxRedirects(n) => RequestOpView::MaxRedirects(*n),
            RequestOp::TimeoutMs(ms) => RequestOpView::TimeoutMs(*ms),
        }
    }
}

/// The settings of a request under construction, in the order they were
/// made; they are handed to the engine in that order when it is sent.
pub struct RequestBuilder {
    ops: Vec<RequestOp>,
}

/// The views of a list of settings.
pub open spec fn ops_view(ops: Seq<RequestOp>) -> Seq<RequestOpView> {
    ops.map_values(|o: RequestOp| o@)
}

/// A string with these characters can be handed to the engine as a C string.
pub open spec fn c_string_ok(s: Seq<char>) -> bool {
    !has_nul(encode_utf8(s))
}

/// Every header among the settings can be handed to the engine: neither its
/// name nor its value holds a NUL byte.
pub open spec fn headers_c_string_ok(ops: Seq<RequestOpView>) -> bool {
    forall|i: int|
        0 <= i < ops.len() ==> (#[trigger] ops[i] matches RequestOpView::Header(n, v) ==> c_string_ok(n)
            && c_string_ok(v))
}

impl RequestBuilder {
    #[verifier::type_invariant]
    spec fn headers_are_c_strings(&self) -> bool {
        headers_c_string_ok(ops_view(self.ops@))
    }
}

impl View for RequestBuilder {
    type V = Seq<RequestOpView>;

    closed spec fn view(&self) -> Seq<RequestOpView> {
        ops_view(self.ops@)
    }
}

proof fn lemma_ops_view_push(ops: Seq<RequestOp>, op: RequestOp)
    ensures
        ops_view(ops.push(op)) == ops_view(ops).push(op@),
{
    assert(ops_view(ops.push(op)) =~= ops_view(ops).push(op@));
}

proof fn lemma_ascii_literal_no_nul(s: &str)
    requires
        forall|i: int| 0 <= i < s@.len() ==> '\u{1}' <= #[trigger] s@[i] <= '\u{7f}',
    ensures
        !has_nul(s.spec_bytes()),
{
    let c = s@;
    assert(is_ascii_chars(c));
    is_ascii_chars_encode_utf8(c);
    if s.spec_bytes().contains(0u8) {
        let k = choose|k: int| 0 <= k < s.spec_bytes().len() && s.spec_bytes()[k] == 0u8;
        assert(c[k] as u8 == s.spec_bytes()[k]);
        assert('\u{1}' <= c[k]);
    }
}

impl RequestBuilder {
    /// A builder with no settings yet.
    pub fn new() -> (res: Self)
        ensures
            res@ == Seq::<RequestOpView>::empty(),
    {
        let r = RequestBuilder { ops: Vec::new() };
        assert(r@ =~= Seq::<RequestOpView>::empty());
        r
    }

    /// Adds a header. A name or value holding a NUL byte cannot be handed
    /// to the engine; the header is then left out and the builder is
    /// returned unchanged.
    pub fn header(self, name: &str, value: &str) -> (res: Self)
        ensures
            !has_nul(name.spec_bytes()) && !has_nul(value.spec_bytes()) ==> res@ == self@.push(
                RequestOpView::Header(name@, value@),
            ),
            has_nul(name.spec_bytes()) || has_nul(value.spec_bytes()) ==> res@ == self@,
    {
        proof {
            use_type_invariant(&self);
        }
        let mut ops = self.ops;
        if !contains_nul(name) && !contains_nul(value) {
            let op = RequestOp::Header(name.to_owned(), value.to_owned());
            proof {
                lemma_ops_view_push(ops@, op);
            }
            ops.push(op);
        }
        RequestBuilder { ops }
    }

    /// Sets the request body to a copy of `data`.
    pub fn body(self, data: &[u8]) -> (res: Self)
        ensures
            res@ == self@.push(RequestOpView::Body(data@)),
    {
        proof {
            use_type_invariant(&self);
        }
        let mut ops = self.ops;
        let op = RequestOp::Body(slice_to_vec(data));
        proof {
            lemma_ops_view_push(ops@, op);
        }
        ops.push(op);
        RequestBuilder { ops }
    }

    /// Sets a JSON body: the header `Content-Type: application/json`, then
    /// the UTF-8 bytes of `body` as the body.
    pub fn json(self, body: &str) -> (res: Self)
        ensures
            res@ == self@.push(RequestOpView::Header("Content-Type"@, "application/json"@)).push(
                RequestOpView::Body(body.spec_bytes()),
            ),
    {
        proof {
            reveal_strlit("Content-Type");
            reveal_strlit("application/json");
            lemma_ascii_literal_no_nul("Content-Type");
            lemma_ascii_literal_no_nul("application/json");
        }
        self.header("Content-Type", "application/json").body(body.as_bytes())
    }

    /// Sets the largest number of redirects to follow.
    pub fn max_redirects(self, n: i32) -> (res: Self)
        ensures
            res@ == self@.push(RequestOpView::MaxRedirects(n)),
    {
        proof {
            use_type_invariant(&self);
        }
        let mut ops = self.ops;
        let op = RequestOp::MaxRedirects(n);
        proof {
            lemma_ops_view_push(ops@, op);
        }
        ops.push(op);
        RequestBuilder { ops }
    }

    /// Sets the timeout in milliseconds.
    pub fn timeout_ms(self, ms: u32) -> (res: Self)
        ensures
            res@ == self@.push(RequestOpView::TimeoutMs(ms)),
    {
        proof {
            use_type_invariant(&self);
        }
        let mut ops = self.ops;
        let op = RequestOp::TimeoutMs(ms);
        proof {
            lemma_ops_view_push(ops@, op);
        }
        ops.push(op);
        RequestBuilder { ops }
    }

    /// The settings made, in order. No header among them holds a NUL byte.
    pub fn into_ops(self) -> (res: Vec<RequestOp>)
        ensures
            ops_view(res@) == self@,
            headers_c_string_ok(ops_view(res@)),
    {
        proof {
            use_type_invariant(&self);
        }
        self.ops
    }
}

} // verus!
