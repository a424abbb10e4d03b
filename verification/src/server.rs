//! How errors are answered over HTTP.

use crate::model::AppError;
use crate::text;
use vstd::prelude::*;
use vstd::string::*;

verus! {

pub const CONFLICT: u16 = 409;

pub const UNPROCESSABLE: u16 = 422;

pub const NOT_FOUND: u16 = 404;

pub const INTERNAL_ERROR: u16 = 500;

/// Whether a code stands for input that is refused.
pub open spec fn is_refusal(code: Seq<char>) -> bool {
    ||| code == "singular_covariance"@
    ||| code == "unit_error"@
    ||| code == "bad_window"@
    ||| code == "bad_kind"@
    ||| code == "bad_time"@
    ||| code == "bad_device"@
    ||| code == "bad_pose"@
}

/// The status that an error is answered with.
pub open spec fn status_for(code: Seq<char>) -> u16 {
    if code == "cycle_detected"@ {
        CONFLICT
    } else if is_refusal(code) {
        UNPROCESSABLE
    } else if code == "not_found"@ {
        NOT_FOUND
    } else {
        INTERNAL_ERROR
    }
}

/// The status that an error is answered with.
pub fn status_of(e: &AppError) -> (r: u16)
    ensures
        r == status_for(e.code@),
{
    let code = e.code;
    if text::same(code, "cycle_detected") {
        CONFLICT
    } else if text::same(code, "singular_covariance") || text::same(code, "unit_error")
        || text::same(code, "bad_window") || text::same(code, "bad_kind") || text::same(
        code,
        "bad_time",
    ) || text::same(code, "bad_device") || text::same(code, "bad_pose") {
        UNPROCESSABLE
    } else if text::same(code, "not_found") {
        NOT_FOUND
    } else {
        INTERNAL_ERROR
    }
}

/// A character inside a JSON string: quotes, backslashes and control characters are
/// escaped, every other character stands for itself.
pub open spec fn json_char(c: char) -> Seq<char> {
    if c == '"' {
        seq!['\\', '"']
    } else if c == '\\' {
        seq!['\\', '\\']
    } else if c as int == 0x08 {
        seq!['\\', 'b']
    } else if c as int == 0x09 {
        seq!['\\', 't']
    } else if c as int == 0x0a {
        seq!['\\', 'n']
    } else if c as int == 0x0c {
        seq!['\\', 'f']
    } else if c as int == 0x0d {
        seq!['\\', 'r']
    } else if (c as int) < 0x20 {
        seq!['\\', 'u', '0', '0'] + text::hex_padded(c as nat, 2)
    } else {
        seq![c]
    }
}

/// The inside of the JSON string for a text.
pub open spec fn json_inside(s: Seq<char>) -> Seq<char>
    decreases s.len(),
{
    if s.len() == 0 {
        Seq::empty()
    } else {
        json_inside(s.drop_last()) + json_char(s.last())
    }
}

/// The JSON string for a text.
pub open spec fn json_text(s: Seq<char>) -> Seq<char> {
    seq!['"'] + json_inside(s) + seq!['"']
}

/// Renders a text as JSON with the `Display` form of `serde_json::Value::String`, which
/// is compact JSON: the text in quotes, with quotes, backslashes and control characters
/// escaped, the latter by their short escapes where there are such.
#[verifier::external_body]
fn json_string(s: &str) -> (r: String)
    ensures
        r@ == json_text(s@),
{
    serde_json::Value::String(s.to_owned()).to_string()
}

/// The JSON object that tells an error's code and message.
pub open spec fn body_for(code: Seq<char>, message: Seq<char>) -> Seq<char> {
    "{\"code\":"@ + json_text(code) + ",\"message\":"@ + json_text(message) + "}"@
}

/// The JSON body that an error is answered with.
pub fn error_body(e: &AppError) -> (r: String)
    ensures
        r@ == body_for(e.code@, e.message@),
{
    let mut s = "{\"code\":".to_owned();
    let code = json_string(e.code);
    s.append(code.as_str());
    s.append(",\"message\":");
    let message = json_string(e.message.as_str());
    s.append(message.as_str());
    s.append("}");
    s
}

/// A loop is answered with 409, refused input with 422, what is not found with 404, and
/// every other error with 500.
pub proof fn law_status_of_an_error(code: Seq<char>)
    ensures
        status_for(code) == 409 <==> code == "cycle_detected"@,
        status_for(code) == 404 <==> code == "not_found"@,
        status_for(code) == 422 <==> code == "singular_covariance"@ || code == "unit_error"@ || code
            == "bad_window"@ || code == "bad_kind"@ || code == "bad_time"@ || code
            == "bad_device"@ || code == "bad_pose"@,
        status_for(code) == 409 || status_for(code) == 404 || status_for(code) == 422
            || status_for(code) == 500,
{
    reveal_strlit("cycle_detected");
    reveal_strlit("not_found");
    reveal_strlit("singular_covariance");
    reveal_strlit("unit_error");
    reveal_strlit("bad_window");
    reveal_strlit("bad_kind");
    reveal_strlit("bad_time");
    reveal_strlit("bad_device");
    reveal_strlit("bad_pose");
    let first = code[0];
}

/// Whether a character stands for itself inside a JSON string.
pub open spec fn is_plain(c: char) -> bool {
    c != '"' && c != '\\' && c as int >= 0x20
}

/// A text without quotes, backslashes and control characters is told as it is.
pub proof fn law_plain_text_stays(s: Seq<char>)
    requires
        forall|i: int| 0 <= i < s.len() ==> is_plain(#[trigger] s[i]),
    ensures
        json_inside(s) == s,
    decreases s.len(),
{
    if s.len() > 0 {
        let t = s.drop_last();
        assert forall|i: int| 0 <= i < t.len() implies is_plain(#[trigger] t[i]) by {
            assert(t[i] == s[i]);
        }
        law_plain_text_stays(t);
        assert(is_plain(s[s.len() - 1]));
        assert(json_inside(s) =~= s);
    } else {
        assert(json_inside(s) =~= s);
    }
}

/// A text is escaped piece by piece; a quote or a backslash gets a backslash before it.
pub proof fn law_text_is_escaped_piece_by_piece(a: Seq<char>, b: Seq<char>)
    ensures
        json_inside(a + b) == json_inside(a) + json_inside(b),
        json_inside(a.push('"')) == json_inside(a) + seq!['\\', '"'],
        json_inside(a.push('\\')) == json_inside(a) + seq!['\\', '\\'],
        json_inside(a.push('\n')) == json_inside(a) + seq!['\\', 'n'],
    decreases b.len(),
{
    assert(a.push('"').drop_last() =~= a);
    assert(a.push('\\').drop_last() =~= a);
    assert(a.push('\n').drop_last() =~= a);
    if b.len() == 0 {
        assert(a + b =~= a);
        assert(json_inside(a) + json_inside(b) =~= json_inside(a));
    } else {
        law_text_is_escaped_piece_by_piece(a, b.drop_last());
        assert((a + b).drop_last() =~= a + b.drop_last());
        assert(json_inside(a + b) =~= json_inside(a) + json_inside(b));
    }
}

/// The body of an error tells its code under `code` and its message under `message`, in
/// this order, each between quotes.
pub proof fn law_body_of_an_error(code: Seq<char>, message: Seq<char>)
    requires
        forall|i: int| 0 <= i < code.len() ==> is_plain(#[trigger] code[i]),
        forall|i: int| 0 <= i < message.len() ==> is_plain(#[trigger] message[i]),
    ensures
        body_for(code, message) == "{\"code\":\""@ + code + "\",\"message\":\""@ + message
            + "\"}"@,
{
    law_plain_text_stays(code);
    law_plain_text_stays(message);
    reveal_strlit("{\"code\":\"");
    reveal_strlit("{\"code\":");
    reveal_strlit("\",\"message\":\"");
    reveal_strlit(",\"message\":");
    reveal_strlit("\"}");
    reveal_strlit("}");
    assert("{\"code\":\""@ =~= "{\"code\":"@ + seq!['"']);
    assert("\",\"message\":\""@ =~= seq!['"'] + ",\"message\":"@ + seq!['"']);
    assert("\"}"@ =~= seq!['"'] + "}"@);
    assert(body_for(code, message) =~= "{\"code\":\""@ + code + "\",\"message\":\""@ + message
        + "\"}"@);
}

} // verus!
