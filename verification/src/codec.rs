//! The envelope codec: a structural decoder for the wire payload of one
//! text frame, and the matching encoder.
//!
//! The wire payload is a record in a brace-and-bracket notation: an object
//! `{ "key": value, ... }` whose known fields are `targetAppID` (a string,
//! required), `message` (an object with the required string fields `title`
//! and `content`), and `dataPayload` (an array of objects with the required
//! string fields `key` and `value`). Unknown fields are ignored, duplicate
//! fields are rejected, field names are case-sensitive and exact, and both
//! optional fields resolve to absent when omitted.
//!
//! The grammar is stated as spec functions over character sequences in a
//! consume-a-suffix style; the executable decoder and encoder are verified
//! against them, and the round-trip law (decoding an encoded envelope gives
//! it back) is proved of the grammar itself.

use vstd::prelude::*;
use vstd::string::StrSliceExecFns;
use vstd::string::StringExecFns;
use crate::envelope::DataModel;
use crate::envelope::MessageModel;
use crate::envelope::NotificationData;
use crate::envelope::NotificationMessage;
use crate::envelope::NotificationPayload;
use crate::envelope::PayloadModel;
use crate::envelope::str_eq;

verus! {

// ---------------------------------------------------------------------
// Spec-level grammar: characters and strings
// ---------------------------------------------------------------------

/// Insignificant whitespace between tokens.
pub open spec fn is_ws(c: char) -> bool {
    c == ' ' || c == '\t' || c == '\n' || c == '\r'
}

/// The input with its leading whitespace removed.
pub open spec fn skip_ws(s: Seq<char>) -> Seq<char>
    decreases s.len(),
{
    if s.len() > 0 && is_ws(s.first()) {
        skip_ws(s.drop_first())
    } else {
        s
    }
}

/// The character denoted by a single-character escape, or `None` when the
/// escape is not recognised.
pub open spec fn unescape(c: char) -> Option<char> {
    if c == '"' {
        Some('"')
    } else if c == '\\' {
        Some('\\')
    } else if c == '/' {
        Some('/')
    } else if c == 'n' {
        Some('\n')
    } else if c == 't' {
        Some('\t')
    } else if c == 'r' {
        Some('\r')
    } else if c == 'b' {
        Some('\u{0008}')
    } else if c == 'f' {
        Some('\u{000C}')
    } else {
        None
    }
}

/// Body of a quoted string, after the opening quote: the accumulated
/// characters up to the closing quote, and the rest of the input after it.
pub open spec fn parse_string_body(s: Seq<char>, acc: Seq<char>) -> Option<(Seq<char>, Seq<char>)>
    decreases s.len(),
{
    if s.len() == 0 {
        None
    } else if s.first() == '"' {
        Some((acc, s.drop_first()))
    } else if s.first() == '\\' {
        if s.len() < 2 {
            None
        } else {
            match unescape(s[1]) {
                Some(c) => parse_string_body(s.skip(2), acc.push(c)),
                None => None,
            }
        }
    } else {
        parse_string_body(s.drop_first(), acc.push(s.first()))
    }
}

/// A quoted string token: its unescaped characters and the rest of the
/// input after the closing quote.
pub open spec fn parse_string(s: Seq<char>) -> Option<(Seq<char>, Seq<char>)> {
    if s.len() > 0 && s.first() == '"' {
        parse_string_body(s.drop_first(), Seq::empty())
    } else {
        None
    }
}

// ---------------------------------------------------------------------
// Spec-level grammar: skipping values of unknown fields
// ---------------------------------------------------------------------

/// Characters a number token may be made of; the token is read leniently,
/// as a run of such characters.
pub open spec fn is_number_char(c: char) -> bool {
    ('0' <= c && c <= '9') || c == '-' || c == '+' || c == '.' || c == 'e' || c == 'E'
}

/// The input with a leading run of number characters removed.
pub open spec fn skip_number(s: Seq<char>) -> Seq<char>
    decreases s.len(),
{
    if s.len() > 0 && is_number_char(s.first()) {
        skip_number(s.drop_first())
    } else {
        s
    }
}

/// Skip one value of any shape (the value of an unknown field): the rest
/// of the input after it, or `None` when no value can be read.
///
/// The recursive calls guard on input lengths; parsing only ever consumes,
/// so the guards never reject, and they make termination evident.
pub open spec fn skip_value(s: Seq<char>) -> Option<Seq<char>>
    decreases s.len(), 0int,
{
    if s.len() == 0 {
        None
    } else if s.first() == '"' {
        match parse_string(s) {
            Some((v, rest)) => Some(rest),
            None => None,
        }
    } else if s.first() == '{' {
        skip_object_members(s.drop_first(), true)
    } else if s.first() == '[' {
        skip_array_elems(s.drop_first(), true)
    } else if is_number_char(s.first()) {
        Some(skip_number(s))
    } else if s.first() == 't' {
        if s.len() >= 4 && s[1] == 'r' && s[2] == 'u' && s[3] == 'e' {
            Some(s.skip(4))
        } else {
            None
        }
    } else if s.first() == 'f' {
        if s.len() >= 5 && s[1] == 'a' && s[2] == 'l' && s[3] == 's' && s[4] == 'e' {
            Some(s.skip(5))
        } else {
            None
        }
    } else if s.first() == 'n' {
        if s.len() >= 4 && s[1] == 'u' && s[2] == 'l' && s[3] == 'l' {
            Some(s.skip(4))
        } else {
            None
        }
    } else {
        None
    }
}

/// Skip the members of an object being skipped, after its opening brace
/// (or after a comma, when `first` is false).
pub open spec fn skip_object_members(s: Seq<char>, first: bool) -> Option<Seq<char>>
    decreases s.len(), 1int,
{
    let t = skip_ws(s);
    if t.len() == 0 {
        None
    } else if first && t.first() == '}' {
        Some(t.drop_first())
    } else {
        match parse_string(t) {
            Some((k, r1)) => {
                let t1 = skip_ws(r1);
                if t1.len() > 0 && t1.first() == ':' {
                    let t2 = skip_ws(t1.drop_first());
                    if t2.len() <= s.len() {
                        match skip_value(t2) {
                            Some(r2) => {
                                let t3 = skip_ws(r2);
                                if t3.len() == 0 {
                                    None
                                } else if t3.first() == '}' {
                                    Some(t3.drop_first())
                                } else if t3.first() == ',' && t3.drop_first().len() < s.len() {
                                    skip_object_members(t3.drop_first(), false)
                                } else {
                                    None
                                }
                            },
                            None => None,
                        }
                    } else {
                        None
                    }
                } else {
                    None
                }
            },
            None => None,
        }
    }
}

/// Skip the elements of an array being skipped, after its opening bracket
/// (or after a comma, when `first` is false).
pub open spec fn skip_array_elems(s: Seq<char>, first: bool) -> Option<Seq<char>>
    decreases s.len(), 1int,
{
    let t = skip_ws(s);
    if t.len() == 0 {
        None
    } else if first && t.first() == ']' {
        Some(t.drop_first())
    } else if t.len() <= s.len() {
        match skip_value(t) {
            Some(r1) => {
                let t1 = skip_ws(r1);
                if t1.len() == 0 {
                    None
                } else if t1.first() == ']' {
                    Some(t1.drop_first())
                } else if t1.first() == ',' && t1.drop_first().len() < s.len() {
                    skip_array_elems(t1.drop_first(), false)
                } else {
                    None
                }
            },
            None => None,
        }
    } else {
        None
    }
}

// ---------------------------------------------------------------------
// Spec-level grammar: the envelope and its parts
// ---------------------------------------------------------------------

/// Fields of an envelope gathered so far while reading its members.
pub ghost struct EnvelopeFields {
    pub target: Option<Seq<char>>,
    pub message: Option<MessageModel>,
    pub payload: Option<Seq<PayloadModel>>,
}

/// No field seen yet.
pub open spec fn empty_fields() -> EnvelopeFields {
    EnvelopeFields { target: None, message: None, payload: None }
}

/// Fields of a direct-shape object gathered so far.
pub ghost struct MessageFields {
    pub title: Option<Seq<char>>,
    pub content: Option<Seq<char>>,
}

/// Fields of one keyed entry gathered so far.
pub ghost struct EntryFields {
    pub key: Option<Seq<char>>,
    pub value: Option<Seq<char>>,
}

/// Read the members of a direct-shape object, after its opening brace (or
/// after a comma): `title` and `content` are required strings, a duplicate
/// of either is an error, and unknown members are skipped.
pub open spec fn parse_message_members(s: Seq<char>, acc: MessageFields) -> Option<
    (MessageModel, Seq<char>),
>
    decreases s.len(), 1int,
{
    let t = skip_ws(s);
    if t.len() == 0 {
        None
    } else if t.first() == '}' && acc.title is None && acc.content is None {
        None  // an empty object misses both required fields
    } else {
        match parse_string(t) {
            Some((k, r1)) => {
                let t1 = skip_ws(r1);
                if t1.len() > 0 && t1.first() == ':' {
                    let t2 = skip_ws(t1.drop_first());
                    if t2.len() <= s.len() {
                        match parse_message_value(t2, acc, k) {
                            Some((acc2, r2)) => {
                                let t3 = skip_ws(r2);
                                if t3.len() == 0 {
                                    None
                                } else if t3.first() == '}' {
                                    match (acc2.title, acc2.content) {
                                        (Some(title), Some(content)) => Some(
                                            (MessageModel { title, content }, t3.drop_first()),
                                        ),
                                        _ => None,
                                    }
                                } else if t3.first() == ',' && t3.drop_first().len() < s.len() {
                                    parse_message_members(t3.drop_first(), acc2)
                                } else {
                                    None
                                }
                            },
                            None => None,
                        }
                    } else {
                        None
                    }
                } else {
                    None
                }
            },
            None => None,
        }
    }
}

/// Read the value of one member of a direct-shape object.
pub open spec fn parse_message_value(s: Seq<char>, acc: MessageFields, k: Seq<char>) -> Option<
    (MessageFields, Seq<char>),
>
    decreases s.len(), 0int,
{
    if k == "title"@ {
        if acc.title is Some {
            None
        } else {
            match parse_string(s) {
                Some((v, rest)) => Some(
                    (MessageFields { title: Some(v), content: acc.content }, rest),
                ),
                None => None,
            }
        }
    } else if k == "content"@ {
        if acc.content is Some {
            None
        } else {
            match parse_string(s) {
                Some((v, rest)) => Some(
                    (MessageFields { title: acc.title, content: Some(v) }, rest),
                ),
                None => None,
            }
        }
    } else {
        match skip_value(s) {
            Some(rest) => Some((acc, rest)),
            None => None,
        }
    }
}

/// A direct-shape object: an opening brace, then its members.
pub open spec fn parse_message_obj(s: Seq<char>) -> Option<(MessageModel, Seq<char>)>
    decreases s.len(), 2int,
{
    if s.len() > 0 && s.first() == '{' {
        parse_message_members(s.drop_first(), MessageFields { title: None, content: None })
    } else {
        None
    }
}

/// Read the members of one keyed entry, after its opening brace (or after
/// a comma): `key` and `value` are required strings, duplicates are an
/// error, unknown members are skipped.
pub open spec fn parse_entry_members(s: Seq<char>, acc: EntryFields) -> Option<
    (PayloadModel, Seq<char>),
>
    decreases s.len(), 1int,
{
    let t = skip_ws(s);
    if t.len() == 0 {
        None
    } else if t.first() == '}' && acc.key is None && acc.value is None {
        None  // an empty object misses both required fields
    } else {
        match parse_string(t) {
            Some((k, r1)) => {
                let t1 = skip_ws(r1);
                if t1.len() > 0 && t1.first() == ':' {
                    let t2 = skip_ws(t1.drop_first());
                    if t2.len() <= s.len() {
                        match parse_entry_value(t2, acc, k) {
                            Some((acc2, r2)) => {
                                let t3 = skip_ws(r2);
                                if t3.len() == 0 {
                                    None
                                } else if t3.first() == '}' {
                                    match (acc2.key, acc2.value) {
                                        (Some(key), Some(value)) => Some(
                                            (PayloadModel { key, value }, t3.drop_first()),
                                        ),
                                        _ => None,
                                    }
                                } else if t3.first() == ',' && t3.drop_first().len() < s.len() {
                                    parse_entry_members(t3.drop_first(), acc2)
                                } else {
                                    None
                                }
                            },
                            None => None,
                        }
                    } else {
                        None
                    }
                } else {
                    None
                }
            },
            None => None,
        }
    }
}

/// Read the value of one member of a keyed entry.
pub open spec fn parse_entry_value(s: Seq<char>, acc: EntryFields, k: Seq<char>) -> Option<
    (EntryFields, Seq<char>),
>
    decreases s.len(), 0int,
{
    if k == "key"@ {
        if acc.key is Some {
            None
        } else {
            match parse_string(s) {
                Some((v, rest)) => Some((EntryFields { key: Some(v), value: acc.value }, rest)),
                None => None,
            }
        }
    } else if k == "value"@ {
        if acc.value is Some {
            None
        } else {
            match parse_string(s) {
                Some((v, rest)) => Some((EntryFields { key: acc.key, value: Some(v) }, rest)),
                None => None,
            }
        }
    } else {
        match skip_value(s) {
            Some(rest) => Some((acc, rest)),
            None => None,
        }
    }
}

/// One keyed entry: an opening brace, then its members.
pub open spec fn parse_entry_obj(s: Seq<char>) -> Option<(PayloadModel, Seq<char>)>
    decreases s.len(), 2int,
{
    if s.len() > 0 && s.first() == '{' {
        parse_entry_members(s.drop_first(), EntryFields { key: None, value: None })
    } else {
        None
    }
}

/// Read the elements of the keyed-payload array, after its opening bracket
/// (or after a comma), keeping their order.
pub open spec fn parse_entry_elems(s: Seq<char>, acc: Seq<PayloadModel>, first: bool) -> Option<
    (Seq<PayloadModel>, Seq<char>),
>
    decreases s.len(), 3int,
{
    let t = skip_ws(s);
    if t.len() == 0 {
        None
    } else if first && t.first() == ']' {
        Some((acc, t.drop_first()))
    } else if t.len() <= s.len() {
        match parse_entry_obj(t) {
            Some((e, r1)) => {
                let t1 = skip_ws(r1);
                if t1.len() == 0 {
                    None
                } else if t1.first() == ']' {
                    Some((acc.push(e), t1.drop_first()))
                } else if t1.first() == ',' && t1.drop_first().len() < s.len() {
                    parse_entry_elems(t1.drop_first(), acc.push(e), false)
                } else {
                    None
                }
            },
            None => None,
        }
    } else {
        None
    }
}

/// The keyed-payload array: an opening bracket, then its elements.
pub open spec fn parse_entries(s: Seq<char>) -> Option<(Seq<PayloadModel>, Seq<char>)>
    decreases s.len(), 4int,
{
    if s.len() > 0 && s.first() == '[' {
        parse_entry_elems(s.drop_first(), Seq::empty(), true)
    } else {
        None
    }
}

/// Read the value of one member of the envelope object and record it:
/// `targetAppID` is a string, `message` a direct-shape object,
/// `dataPayload` the keyed-payload array; a duplicate of a known field is
/// an error, and an unknown field's value is skipped.
pub open spec fn parse_env_value(s: Seq<char>, acc: EnvelopeFields, k: Seq<char>) -> Option<
    (EnvelopeFields, Seq<char>),
>
    decreases s.len(), 5int,
{
    if k == "targetAppID"@ {
        if acc.target is Some {
            None
        } else {
            match parse_string(s) {
                Some((v, rest)) => Some(
                    (
                        EnvelopeFields {
                            target: Some(v),
                            message: acc.message,
                            payload: acc.payload,
                        },
                        rest,
                    ),
                ),
                None => None,
            }
        }
    } else if k == "message"@ {
        if acc.message is Some {
            None
        } else {
            match parse_message_obj(s) {
                Some((m, rest)) => Some(
                    (
                        EnvelopeFields {
                            target: acc.target,
                            message: Some(m),
                            payload: acc.payload,
                        },
                        rest,
                    ),
                ),
                None => None,
            }
        }
    } else if k == "dataPayload"@ {
        if acc.payload is Some {
            None
        } else {
            match parse_entries(s) {
                Some((es, rest)) => Some(
                    (
                        EnvelopeFields {
                            target: acc.target,
                            message: acc.message,
                            payload: Some(es),
                        },
                        rest,
                    ),
                ),
                None => None,
            }
        }
    } else {
        match skip_value(s) {
            Some(rest) => Some((acc, rest)),
            None => None,
        }
    }
}

/// Read the members of the envelope object, after its opening brace (or
/// after a comma, when `first` is false).
pub open spec fn parse_env_members(s: Seq<char>, acc: EnvelopeFields, first: bool) -> Option<
    (EnvelopeFields, Seq<char>),
>
    decreases s.len(), 6int,
{
    let t = skip_ws(s);
    if t.len() == 0 {
        None
    } else if first && t.first() == '}' {
        Some((acc, t.drop_first()))
    } else {
        match parse_string(t) {
            Some((k, r1)) => {
                let t1 = skip_ws(r1);
                if t1.len() > 0 && t1.first() == ':' {
                    let t2 = skip_ws(t1.drop_first());
                    if t2.len() <= s.len() {
                        match parse_env_value(t2, acc, k) {
                            Some((acc2, r2)) => {
                                let t3 = skip_ws(r2);
                                if t3.len() == 0 {
                                    None
                                } else if t3.first() == '}' {
                                    Some((acc2, t3.drop_first()))
                                } else if t3.first() == ',' && t3.drop_first().len() < s.len() {
                                    parse_env_members(t3.drop_first(), acc2, false)
                                } else {
                                    None
                                }
                            },
                            None => None,
                        }
                    } else {
                        None
                    }
                } else {
                    None
                }
            },
            None => None,
        }
    }
}

/// Decode one whole text payload: an envelope object with nothing but
/// whitespace around it, whose required `targetAppID` field is present.
/// Any other input decodes to `None`.
pub open spec fn decode_spec(s: Seq<char>) -> Option<DataModel> {
    let t = skip_ws(s);
    if t.len() > 0 && t.first() == '{' {
        match parse_env_members(t.drop_first(), empty_fields(), true) {
            Some((f, rest)) => {
                if skip_ws(rest).len() == 0 {
                    match f.target {
                        Some(target) => Some(
                            DataModel {
                                target_app_id: target,
                                message: f.message,
                                data_payload: f.payload,
                            },
                        ),
                        None => None,
                    }
                } else {
                    None
                }
            },
            None => None,
        }
    } else {
        None
    }
}

// ---------------------------------------------------------------------
// Spec-level printer
// ---------------------------------------------------------------------

/// The escape sequence a character is written as inside a quoted string:
/// quotes and backslashes are escaped, every other character stands as is.
pub open spec fn escape_char(c: char) -> Seq<char> {
    if c == '"' {
        seq!['\\', '"']
    } else if c == '\\' {
        seq!['\\', '\\']
    } else {
        seq![c]
    }
}

/// A string's characters with escapes applied.
pub open spec fn escape(s: Seq<char>) -> Seq<char>
    decreases s.len(),
{
    if s.len() == 0 {
        Seq::empty()
    } else {
        escape_char(s.first()) + escape(s.drop_first())
    }
}

/// A quoted string token.
pub open spec fn print_string(s: Seq<char>) -> Seq<char> {
    seq!['"'] + escape(s) + seq!['"']
}

/// A printed direct-shape object.
pub open spec fn print_message(m: MessageModel) -> Seq<char> {
    seq!['{'] + print_string("title"@) + seq![':'] + print_string(m.title) + seq![',']
        + print_string("content"@) + seq![':'] + print_string(m.content) + seq!['}']
}

/// One printed keyed entry.
pub open spec fn print_entry(e: PayloadModel) -> Seq<char> {
    seq!['{'] + print_string("key"@) + seq![':'] + print_string(e.key) + seq![','] + print_string(
        "value"@,
    ) + seq![':'] + print_string(e.value) + seq!['}']
}

/// The printed elements of the keyed-payload array, comma-separated.
pub open spec fn print_elems(es: Seq<PayloadModel>) -> Seq<char>
    decreases es.len(),
{
    if es.len() == 0 {
        Seq::empty()
    } else if es.len() == 1 {
        print_entry(es.first())
    } else {
        print_entry(es.first()) + seq![','] + print_elems(es.drop_first())
    }
}

/// The printed keyed-payload array.
pub open spec fn print_entries(es: Seq<PayloadModel>) -> Seq<char> {
    seq!['['] + print_elems(es) + seq![']']
}

/// The printed form of a whole envelope: the required field first, then
/// each optional field that is present, in a fixed order.
pub open spec fn print_data(d: DataModel) -> Seq<char> {
    seq!['{'] + print_string("targetAppID"@) + seq![':'] + print_string(d.target_app_id) + (
    match d.message {
        Some(m) => seq![','] + print_string("message"@) + seq![':'] + print_message(m),
        None => Seq::empty(),
    }) + (match d.data_payload {
        Some(es) => seq![','] + print_string("dataPayload"@) + seq![':'] + print_entries(es),
        None => Seq::empty(),
    }) + seq!['}']
}

// ---------------------------------------------------------------------
// Executable decoder
// ---------------------------------------------------------------------

/// Relies on String::push: appends the character to the end of the string.
#[verifier::external_body]
fn push_char(s: &mut String, c: char)
    ensures
        final(s)@ == old(s)@.push(c),
{
    s.push(c);
}

fn str_to_chars(s: &str) -> (r: Vec<char>)
    ensures
        r@ == s@,
{
    let n = s.unicode_len();
    let mut r: Vec<char> = Vec::new();
    let mut i: usize = 0;
    while i < n
        invariant
            n == s@.len(),
            i <= n,
            r@ == s@.take(i as int),
        decreases n - i,
    {
        let c = s.get_char(i);
        r.push(c);
        proof {
            assert(r@ =~= s@.take(i as int + 1));
        }
        i += 1;
    }
    proof {
        assert(s@.take(n as int) =~= s@);
    }
    r
}

fn is_ws_exec(c: char) -> (r: bool)
    ensures
        r == is_ws(c),
{
    c == ' ' || c == '\t' || c == '\n' || c == '\r'
}

fn is_number_char_exec(c: char) -> (r: bool)
    ensures
        r == is_number_char(c),
{
    ('0' <= c && c <= '9') || c == '-' || c == '+' || c == '.' || c == 'e' || c == 'E'
}

fn unescape_exec(c: char) -> (r: Option<char>)
    ensures
        r == unescape(c),
{
    if c == '"' {
        Some('"')
    } else if c == '\\' {
        Some('\\')
    } else if c == '/' {
        Some('/')
    } else if c == 'n' {
        Some('\n')
    } else if c == 't' {
        Some('\t')
    } else if c == 'r' {
        Some('\r')
    } else if c == 'b' {
        Some('\u{0008}')
    } else if c == 'f' {
        Some('\u{000C}')
    } else {
        None
    }
}

fn skip_ws_exec(v: &Vec<char>, i: usize) -> (j: usize)
    requires
        i <= v.len(),
    ensures
        i <= j <= v.len(),
        skip_ws(v@.skip(i as int)) == v@.skip(j as int),
{
    let mut j = i;
    while j < v.len() && is_ws_exec(v[j])
        invariant
            i <= j <= v.len(),
            skip_ws(v@.skip(i as int)) == skip_ws(v@.skip(j as int)),
        decreases v.len() - j,
    {
        proof {
            assert(v@.skip(j as int).first() == v@[j as int]);
            assert(v@.skip(j as int).drop_first() =~= v@.skip(j as int + 1));
        }
        j += 1;
    }
    proof {
        if j < v.len() {
            assert(v@.skip(j as int).first() == v@[j as int]);
        }
        assert(skip_ws(v@.skip(j as int)) == v@.skip(j as int));
    }
    j
}

fn skip_number_exec(v: &Vec<char>, i: usize) -> (j: usize)
    requires
        i <= v.len(),
    ensures
        i <= j <= v.len(),
        skip_number(v@.skip(i as int)) == v@.skip(j as int),
{
    let mut j = i;
    while j < v.len() && is_number_char_exec(v[j])
        invariant
            i <= j <= v.len(),
            skip_number(v@.skip(i as int)) == skip_number(v@.skip(j as int)),
        decreases v.len() - j,
    {
        proof {
            assert(v@.skip(j as int).first() == v@[j as int]);
            assert(v@.skip(j as int).drop_first() =~= v@.skip(j as int + 1));
        }
        j += 1;
    }
    proof {
        if j < v.len() {
            assert(v@.skip(j as int).first() == v@[j as int]);
        }
        assert(skip_number(v@.skip(j as int)) == v@.skip(j as int));
    }
    j
}

fn parse_string_exec(v: &Vec<char>, i: usize) -> (r: Option<(String, usize)>)
    requires
        i <= v.len(),
    ensures
        match r {
            Some(p) => i + 2 <= p.1 <= v.len() && parse_string(v@.skip(i as int)) == Some(
                (p.0@, v@.skip(p.1 as int)),
            ),
            None => parse_string(v@.skip(i as int)) is None,
        },
{
    if i >= v.len() || v[i] != '"' {
        proof {
            if i < v.len() {
                assert(v@.skip(i as int).first() == v@[i as int]);
            }
        }
        return None;
    }
    proof {
        assert(v@.skip(i as int).first() == v@[i as int]);
        assert(v@.skip(i as int).drop_first() =~= v@.skip(i as int + 1));
    }
    let mut acc = String::new();
    let mut j: usize = i + 1;
    loop
        invariant
            i + 1 <= j <= v.len(),
            parse_string(v@.skip(i as int)) == parse_string_body(v@.skip(j as int), acc@),
        decreases v.len() - j,
    {
        if j >= v.len() {
            return None;
        }
        let c = v[j];
        proof {
            assert(v@.skip(j as int).first() == v@[j as int]);
        }
        if c == '"' {
            proof {
                assert(v@.skip(j as int).drop_first() =~= v@.skip(j as int + 1));
            }
            return Some((acc, j + 1));
        } else if c == '\\' {
            if j + 1 >= v.len() {
                return None;
            }
            let e = v[j + 1];
            proof {
                assert(v@.skip(j as int)[1] == v@[j as int + 1]);
            }
            match unescape_exec(e) {
                Some(u) => {
                    proof {
                        assert(v@.skip(j as int).skip(2) =~= v@.skip(j as int + 2));
                    }
                    push_char(&mut acc, u);
                    j += 2;
                },
                None => {
                    return None;
                },
            }
        } else {
            proof {
                assert(v@.skip(j as int).drop_first() =~= v@.skip(j as int + 1));
            }
            push_char(&mut acc, c);
            j += 1;
        }
    }
}

fn skip_value_exec(v: &Vec<char>, i: usize) -> (r: Option<usize>)
    requires
        i <= v.len(),
    ensures
        match r {
            Some(j) => i <= j <= v.len() && skip_value(v@.skip(i as int)) == Some(
                v@.skip(j as int),
            ),
            None => skip_value(v@.skip(i as int)) is None,
        },
    decreases v.len() - i, 0int,
{
    if i >= v.len() {
        return None;
    }
    let c = v[i];
    proof {
        assert(v@.skip(i as int).first() == v@[i as int]);
    }
    if c == '"' {
        match parse_string_exec(v, i) {
            Some(p) => Some(p.1),
            None => None,
        }
    } else if c == '{' {
        proof {
            assert(v@.skip(i as int).drop_first() =~= v@.skip(i as int + 1));
        }
        skip_object_members_exec(v, i + 1, true)
    } else if c == '[' {
        proof {
            assert(v@.skip(i as int).drop_first() =~= v@.skip(i as int + 1));
        }
        skip_array_elems_exec(v, i + 1, true)
    } else if is_number_char_exec(c) {
        Some(skip_number_exec(v, i))
    } else if c == 't' {
        if v.len() - i >= 4 && v[i + 1] == 'r' && v[i + 2] == 'u' && v[i + 3] == 'e' {
            proof {
                assert(v@.skip(i as int)[1] == v@[i as int + 1]);
                assert(v@.skip(i as int)[2] == v@[i as int + 2]);
                assert(v@.skip(i as int)[3] == v@[i as int + 3]);
                assert(v@.skip(i as int).skip(4) =~= v@.skip(i as int + 4));
            }
            Some(i + 4)
        } else {
            proof {
                if v.len() - i >= 4 {
                    assert(v@.skip(i as int)[1] == v@[i as int + 1]);
                    assert(v@.skip(i as int)[2] == v@[i as int + 2]);
                    assert(v@.skip(i as int)[3] == v@[i as int + 3]);
                }
            }
            None
        }
    } else if c == 'f' {
        if v.len() - i >= 5 && v[i + 1] == 'a' && v[i + 2] == 'l' && v[i + 3] == 's' && v[i + 4]
            == 'e' {
            proof {
                assert(v@.skip(i as int)[1] == v@[i as int + 1]);
                assert(v@.skip(i as int)[2] == v@[i as int + 2]);
                assert(v@.skip(i as int)[3] == v@[i as int + 3]);
                assert(v@.skip(i as int)[4] == v@[i as int + 4]);
                assert(v@.skip(i as int).skip(5) =~= v@.skip(i as int + 5));
            }
            Some(i + 5)
        } else {
            proof {
                if v.len() - i >= 5 {
                    assert(v@.skip(i as int)[1] == v@[i as int + 1]);
                    assert(v@.skip(i as int)[2] == v@[i as int + 2]);
                    assert(v@.skip(i as int)[3] == v@[i as int + 3]);
                    assert(v@.skip(i as int)[4] == v@[i as int + 4]);
                }
            }
            None
        }
    } else if c == 'n' {
        if v.len() - i >= 4 && v[i + 1] == 'u' && v[i + 2] == 'l' && v[i + 3] == 'l' {
            proof {
                assert(v@.skip(i as int)[1] == v@[i as int + 1]);
                assert(v@.skip(i as int)[2] == v@[i as int + 2]);
                assert(v@.skip(i as int)[3] == v@[i as int + 3]);
                assert(v@.skip(i as int).skip(4) =~= v@.skip(i as int + 4));
            }
            Some(i + 4)
        } else {
            proof {
                if v.len() - i >= 4 {
                    assert(v@.skip(i as int)[1] == v@[i as int + 1]);
                    assert(v@.skip(i as int)[2] == v@[i as int + 2]);
                    assert(v@.skip(i as int)[3] == v@[i as int + 3]);
                }
            }
            None
        }
    } else {
        None
    }
}

fn skip_object_members_exec(v: &Vec<char>, i: usize, first: bool) -> (r: Option<usize>)
    requires
        i <= v.len(),
    ensures
        match r {
            Some(j) => i <= j <= v.len() && skip_object_members(v@.skip(i as int), first) == Some(
                v@.skip(j as int),
            ),
            None => skip_object_members(v@.skip(i as int), first) is None,
        },
    decreases v.len() - i, 1int,
{
    let t = skip_ws_exec(v, i);
    if t >= v.len() {
        return None;
    }
    proof {
        assert(v@.skip(t as int).first() == v@[t as int]);
    }
    if first && v[t] == '}' {
        proof {
            assert(v@.skip(t as int).drop_first() =~= v@.skip(t as int + 1));
        }
        return Some(t + 1);
    }
    match parse_string_exec(v, t) {
        Some(p) => {
            let r1 = p.1;
            let t1 = skip_ws_exec(v, r1);
            if t1 >= v.len() {
                return None;
            }
            proof {
                assert(v@.skip(t1 as int).first() == v@[t1 as int]);
            }
            if v[t1] != ':' {
                return None;
            }
            proof {
                assert(v@.skip(t1 as int).drop_first() =~= v@.skip(t1 as int + 1));
            }
            let t2 = skip_ws_exec(v, t1 + 1);
            match skip_value_exec(v, t2) {
                Some(r2) => {
                    let t3 = skip_ws_exec(v, r2);
                    if t3 >= v.len() {
                        return None;
                    }
                    proof {
                        assert(v@.skip(t3 as int).first() == v@[t3 as int]);
                    }
                    if v[t3] == '}' {
                        proof {
                            assert(v@.skip(t3 as int).drop_first() =~= v@.skip(t3 as int + 1));
                        }
                        return Some(t3 + 1);
                    }
                    if v[t3] == ',' {
                        proof {
                            assert(v@.skip(t3 as int).drop_first() =~= v@.skip(t3 as int + 1));
                        }
                        return skip_object_members_exec(v, t3 + 1, false);
                    }
                    None
                },
                None => None,
            }
        },
        None => None,
    }
}

fn skip_array_elems_exec(v: &Vec<char>, i: usize, first: bool) -> (r: Option<usize>)
    requires
        i <= v.len(),
    ensures
        match r {
            Some(j) => i <= j <= v.len() && skip_array_elems(v@.skip(i as int), first) == Some(
                v@.skip(j as int),
            ),
            None => skip_array_elems(v@.skip(i as int), first) is None,
        },
    decreases v.len() - i, 1int,
{
    let t = skip_ws_exec(v, i);
    if t >= v.len() {
        return None;
    }
    proof {
        assert(v@.skip(t as int).first() == v@[t as int]);
    }
    if first && v[t] == ']' {
        proof {
            assert(v@.skip(t as int).drop_first() =~= v@.skip(t as int + 1));
        }
        return Some(t + 1);
    }
    match skip_value_exec(v, t) {
        Some(r1) => {
            let t1 = skip_ws_exec(v, r1);
            if t1 >= v.len() {
                return None;
            }
            proof {
                assert(v@.skip(t1 as int).first() == v@[t1 as int]);
            }
            if v[t1] == ']' {
                proof {
                    assert(v@.skip(t1 as int).drop_first() =~= v@.skip(t1 as int + 1));
                }
                return Some(t1 + 1);
            }
            if v[t1] == ',' {
                proof {
                    assert(v@.skip(t1 as int).drop_first() =~= v@.skip(t1 as int + 1));
                }
                return skip_array_elems_exec(v, t1 + 1, false);
            }
            None
        },
        None => None,
    }
}

struct MsgFields {
    title: Option<String>,
    content: Option<String>,
}

impl View for MsgFields {
    type V = MessageFields;

    closed spec fn view(&self) -> MessageFields {
        MessageFields {
            title: match self.title {
                Some(t) => Some(t@),
                None => None,
            },
            content: match self.content {
                Some(c) => Some(c@),
                None => None,
            },
        }
    }
}

struct EntFields {
    key: Option<String>,
    value: Option<String>,
}

impl View for EntFields {
    type V = EntryFields;

    closed spec fn view(&self) -> EntryFields {
        EntryFields {
            key: match self.key {
                Some(k) => Some(k@),
                None => None,
            },
            value: match self.value {
                Some(v) => Some(v@),
                None => None,
            },
        }
    }
}

struct EnvFields {
    target: Option<String>,
    message: Option<NotificationMessage>,
    payload: Option<Vec<NotificationPayload>>,
}

impl View for EnvFields {
    type V = EnvelopeFields;

    closed spec fn view(&self) -> EnvelopeFields {
        EnvelopeFields {
            target: match self.target {
                Some(t) => Some(t@),
                None => None,
            },
            message: match self.message {
                Some(m) => Some(m@),
                None => None,
            },
            payload: match self.payload {
                Some(p) => Some(p.deep_view()),
                None => None,
            },
        }
    }
}

fn parse_message_value_exec(v: &Vec<char>, i: usize, acc: MsgFields, k: String) -> (r: Option<
    (MsgFields, usize),
>)
    requires
        i <= v.len(),
    ensures
        match r {
            Some(p) => i <= p.1 <= v.len() && parse_message_value(v@.skip(i as int), acc@, k@)
                == Some((p.0@, v@.skip(p.1 as int))),
            None => parse_message_value(v@.skip(i as int), acc@, k@) is None,
        },
{
    if str_eq(k.as_str(), "title") {
        if acc.title.is_some() {
            return None;
        }
        match parse_string_exec(v, i) {
            Some(p) => Some((MsgFields { title: Some(p.0), content: acc.content }, p.1)),
            None => None,
        }
    } else if str_eq(k.as_str(), "content") {
        if acc.content.is_some() {
            return None;
        }
        match parse_string_exec(v, i) {
            Some(p) => Some((MsgFields { title: acc.title, content: Some(p.0) }, p.1)),
            None => None,
        }
    } else {
        match skip_value_exec(v, i) {
            Some(j) => Some((acc, j)),
            None => None,
        }
    }
}

fn parse_message_members_exec(v: &Vec<char>, i: usize, acc: MsgFields) -> (r: Option<
    (NotificationMessage, usize),
>)
    requires
        i <= v.len(),
    ensures
        match r {
            Some(p) => i <= p.1 <= v.len() && parse_message_members(v@.skip(i as int), acc@)
                == Some((p.0@, v@.skip(p.1 as int))),
            None => parse_message_members(v@.skip(i as int), acc@) is None,
        },
    decreases v.len() - i,
{
    let t = skip_ws_exec(v, i);
    if t >= v.len() {
        return None;
    }
    proof {
        assert(v@.skip(t as int).first() == v@[t as int]);
    }
    if v[t] == '}' && acc.title.is_none() && acc.content.is_none() {
        return None;
    }
    match parse_string_exec(v, t) {
        Some(kp) => {
            let t1 = skip_ws_exec(v, kp.1);
            if t1 >= v.len() {
                return None;
            }
            proof {
                assert(v@.skip(t1 as int).first() == v@[t1 as int]);
            }
            if v[t1] != ':' {
                return None;
            }
            proof {
                assert(v@.skip(t1 as int).drop_first() =~= v@.skip(t1 as int + 1));
            }
            let t2 = skip_ws_exec(v, t1 + 1);
            match parse_message_value_exec(v, t2, acc, kp.0) {
                Some(ap) => {
                    let acc2 = ap.0;
                    let t3 = skip_ws_exec(v, ap.1);
                    if t3 >= v.len() {
                        return None;
                    }
                    proof {
                        assert(v@.skip(t3 as int).first() == v@[t3 as int]);
                    }
                    if v[t3] == '}' {
                        proof {
                            assert(v@.skip(t3 as int).drop_first() =~= v@.skip(t3 as int + 1));
                        }
                        match (acc2.title, acc2.content) {
                            (Some(title), Some(content)) => {
                                return Some((NotificationMessage { title, content }, t3 + 1));
                            },
                            _ => {
                                return None;
                            },
                        }
                    }
                    if v[t3] == ',' {
                        proof {
                            assert(v@.skip(t3 as int).drop_first() =~= v@.skip(t3 as int + 1));
                        }
                        return parse_message_members_exec(v, t3 + 1, acc2);
                    }
                    None
                },
                None => None,
            }
        },
        None => None,
    }
}

fn parse_message_obj_exec(v: &Vec<char>, i: usize) -> (r: Option<(NotificationMessage, usize)>)
    requires
        i <= v.len(),
    ensures
        match r {
            Some(p) => i <= p.1 <= v.len() && parse_message_obj(v@.skip(i as int)) == Some(
                (p.0@, v@.skip(p.1 as int)),
            ),
            None => parse_message_obj(v@.skip(i as int)) is None,
        },
{
    if i >= v.len() {
        return None;
    }
    proof {
        assert(v@.skip(i as int).first() == v@[i as int]);
    }
    if v[i] != '{' {
        return None;
    }
    proof {
        assert(v@.skip(i as int).drop_first() =~= v@.skip(i as int + 1));
    }
    parse_message_members_exec(v, i + 1, MsgFields { title: None, content: None })
}

fn parse_entry_value_exec(v: &Vec<char>, i: usize, acc: EntFields, k: String) -> (r: Option<
    (EntFields, usize),
>)
    requires
        i <= v.len(),
    ensures
        match r {
            Some(p) => i <= p.1 <= v.len() && parse_entry_value(v@.skip(i as int), acc@, k@)
                == Some((p.0@, v@.skip(p.1 as int))),
            None => parse_entry_value(v@.skip(i as int), acc@, k@) is None,
        },
{
    if str_eq(k.as_str(), "key") {
        if acc.key.is_some() {
            return None;
        }
        match parse_string_exec(v, i) {
            Some(p) => Some((EntFields { key: Some(p.0), value: acc.value }, p.1)),
            None => None,
        }
    } else if str_eq(k.as_str(), "value") {
        if acc.value.is_some() {
            return None;
        }
        match parse_string_exec(v, i) {
            Some(p) => Some((EntFields { key: acc.key, value: Some(p.0) }, p.1)),
            None => None,
        }
    } else {
        match skip_value_exec(v, i) {
            Some(j) => Some((acc, j)),
            None => None,
        }
    }
}

fn parse_entry_members_exec(v: &Vec<char>, i: usize, acc: EntFields) -> (r: Option<
    (NotificationPayload, usize),
>)
    requires
        i <= v.len(),
    ensures
        match r {
            Some(p) => i <= p.1 <= v.len() && parse_entry_members(v@.skip(i as int), acc@) == Some(
                (p.0@, v@.skip(p.1 as int)),
            ),
            None => parse_entry_members(v@.skip(i as int), acc@) is None,
        },
    decreases v.len() - i,
{
    let t = skip_ws_exec(v, i);
    if t >= v.len() {
        return None;
    }
    proof {
        assert(v@.skip(t as int).first() == v@[t as int]);
    }
    if v[t] == '}' && acc.key.is_none() && acc.value.is_none() {
        return None;
    }
    match parse_string_exec(v, t) {
        Some(kp) => {
            let t1 = skip_ws_exec(v, kp.1);
            if t1 >= v.len() {
                return None;
            }
            proof {
                assert(v@.skip(t1 as int).first() == v@[t1 as int]);
            }
            if v[t1] != ':' {
                return None;
            }
            proof {
                assert(v@.skip(t1 as int).drop_first() =~= v@.skip(t1 as int + 1));
            }
            let t2 = skip_ws_exec(v, t1 + 1);
            match parse_entry_value_exec(v, t2, acc, kp.0) {
                Some(ap) => {
                    let acc2 = ap.0;
                    let t3 = skip_ws_exec(v, ap.1);
                    if t3 >= v.len() {
                        return None;
                    }
                    proof {
                        assert(v@.skip(t3 as int).first() == v@[t3 as int]);
                    }
                    if v[t3] == '}' {
                        proof {
                            assert(v@.skip(t3 as int).drop_first() =~= v@.skip(t3 as int + 1));
                        }
                        match (acc2.key, acc2.value) {
                            (Some(key), Some(value)) => {
                                return Some((NotificationPayload { key, value }, t3 + 1));
                            },
                            _ => {
                                return None;
                            },
                        }
                    }
                    if v[t3] == ',' {
                        proof {
                            assert(v@.skip(t3 as int).drop_first() =~= v@.skip(t3 as int + 1));
                        }
                        return parse_entry_members_exec(v, t3 + 1, acc2);
                    }
                    None
                },
                None => None,
            }
        },
        None => None,
    }
}

fn parse_entry_obj_exec(v: &Vec<char>, i: usize) -> (r: Option<(NotificationPayload, usize)>)
    requires
        i <= v.len(),
    ensures
        match r {
            Some(p) => i <= p.1 <= v.len() && parse_entry_obj(v@.skip(i as int)) == Some(
                (p.0@, v@.skip(p.1 as int)),
            ),
            None => parse_entry_obj(v@.skip(i as int)) is None,
        },
{
    if i >= v.len() {
        return None;
    }
    proof {
        assert(v@.skip(i as int).first() == v@[i as int]);
    }
    if v[i] != '{' {
        return None;
    }
    proof {
        assert(v@.skip(i as int).drop_first() =~= v@.skip(i as int + 1));
    }
    parse_entry_members_exec(v, i + 1, EntFields { key: None, value: None })
}

fn parse_entry_elems_exec(v: &Vec<char>, i: usize, acc: Vec<NotificationPayload>, first: bool) -> (r:
    Option<(Vec<NotificationPayload>, usize)>)
    requires
        i <= v.len(),
    ensures
        match r {
            Some(p) => i <= p.1 <= v.len() && parse_entry_elems(
                v@.skip(i as int),
                acc.deep_view(),
                first,
            ) == Some((p.0.deep_view(), v@.skip(p.1 as int))),
            None => parse_entry_elems(v@.skip(i as int), acc.deep_view(), first) is None,
        },
    decreases v.len() - i,
{
    let t = skip_ws_exec(v, i);
    if t >= v.len() {
        return None;
    }
    proof {
        assert(v@.skip(t as int).first() == v@[t as int]);
    }
    if first && v[t] == ']' {
        proof {
            assert(v@.skip(t as int).drop_first() =~= v@.skip(t as int + 1));
        }
        return Some((acc, t + 1));
    }
    match parse_entry_obj_exec(v, t) {
        Some(ep) => {
            let mut acc2 = acc;
            let ghost acc_old = acc2.deep_view();
            acc2.push(ep.0);
            proof {
                assert(acc2.deep_view() =~= acc_old.push(ep.0@));
            }
            let t1 = skip_ws_exec(v, ep.1);
            if t1 >= v.len() {
                return None;
            }
            proof {
                assert(v@.skip(t1 as int).first() == v@[t1 as int]);
            }
            if v[t1] == ']' {
                proof {
                    assert(v@.skip(t1 as int).drop_first() =~= v@.skip(t1 as int + 1));
                }
                return Some((acc2, t1 + 1));
            }
            if v[t1] == ',' {
                proof {
                    assert(v@.skip(t1 as int).drop_first() =~= v@.skip(t1 as int + 1));
                }
                return parse_entry_elems_exec(v, t1 + 1, acc2, false);
            }
            None
        },
        None => None,
    }
}

fn parse_entries_exec(v: &Vec<char>, i: usize) -> (r: Option<(Vec<NotificationPayload>, usize)>)
    requires
        i <= v.len(),
    ensures
        match r {
            Some(p) => i <= p.1 <= v.len() && parse_entries(v@.skip(i as int)) == Some(
                (p.0.deep_view(), v@.skip(p.1 as int)),
            ),
            None => parse_entries(v@.skip(i as int)) is None,
        },
{
    if i >= v.len() {
        return None;
    }
    proof {
        assert(v@.skip(i as int).first() == v@[i as int]);
    }
    if v[i] != '[' {
        return None;
    }
    proof {
        assert(v@.skip(i as int).drop_first() =~= v@.skip(i as int + 1));
    }
    let empty: Vec<NotificationPayload> = Vec::new();
    proof {
        assert(empty.deep_view() =~= Seq::<PayloadModel>::empty());
    }
    parse_entry_elems_exec(v, i + 1, empty, true)
}

fn parse_env_value_exec(v: &Vec<char>, i: usize, acc: EnvFields, k: String) -> (r: Option<
    (EnvFields, usize),
>)
    requires
        i <= v.len(),
    ensures
        match r {
            Some(p) => i <= p.1 <= v.len() && parse_env_value(v@.skip(i as int), acc@, k@) == Some(
                (p.0@, v@.skip(p.1 as int)),
            ),
            None => parse_env_value(v@.skip(i as int), acc@, k@) is None,
        },
{
    if str_eq(k.as_str(), "targetAppID") {
        if acc.target.is_some() {
            return None;
        }
        match parse_string_exec(v, i) {
            Some(p) => Some(
                (
                    EnvFields { target: Some(p.0), message: acc.message, payload: acc.payload },
                    p.1,
                ),
            ),
            None => None,
        }
    } else if str_eq(k.as_str(), "message") {
        if acc.message.is_some() {
            return None;
        }
        match parse_message_obj_exec(v, i) {
            Some(p) => Some(
                (
                    EnvFields { target: acc.target, message: Some(p.0), payload: acc.payload },
                    p.1,
                ),
            ),
            None => None,
        }
    } else if str_eq(k.as_str(), "dataPayload") {
        if acc.payload.is_some() {
            return None;
        }
        match parse_entries_exec(v, i) {
            Some(p) => Some(
                (
                    EnvFields { target: acc.target, message: acc.message, payload: Some(p.0) },
                    p.1,
                ),
            ),
            None => None,
        }
    } else {
        match skip_value_exec(v, i) {
            Some(j) => Some((acc, j)),
            None => None,
        }
    }
}

fn parse_env_members_exec(v: &Vec<char>, i: usize, acc: EnvFields, first: bool) -> (r: Option<
    (EnvFields, usize),
>)
    requires
        i <= v.len(),
    ensures
        match r {
            Some(p) => i <= p.1 <= v.len() && parse_env_members(v@.skip(i as int), acc@, first)
                == Some((p.0@, v@.skip(p.1 as int))),
            None => parse_env_members(v@.skip(i as int), acc@, first) is None,
        },
    decreases v.len() - i,
{
    let t = skip_ws_exec(v, i);
    if t >= v.len() {
        return None;
    }
    proof {
        assert(v@.skip(t as int).first() == v@[t as int]);
    }
    if first && v[t] == '}' {
        proof {
            assert(v@.skip(t as int).drop_first() =~= v@.skip(t as int + 1));
        }
        return Some((acc, t + 1));
    }
    match parse_string_exec(v, t) {
        Some(kp) => {
            let t1 = skip_ws_exec(v, kp.1);
            if t1 >= v.len() {
                return None;
            }
            proof {
                assert(v@.skip(t1 as int).first() == v@[t1 as int]);
            }
            if v[t1] != ':' {
                return None;
            }
            proof {
                assert(v@.skip(t1 as int).drop_first() =~= v@.skip(t1 as int + 1));
            }
            let t2 = skip_ws_exec(v, t1 + 1);
            match parse_env_value_exec(v, t2, acc, kp.0) {
                Some(ap) => {
                    let acc2 = ap.0;
                    let t3 = skip_ws_exec(v, ap.1);
                    if t3 >= v.len() {
                        return None;
                    }
                    proof {
                        assert(v@.skip(t3 as int).first() == v@[t3 as int]);
                    }
                    if v[t3] == '}' {
                        proof {
                            assert(v@.skip(t3 as int).drop_first() =~= v@.skip(t3 as int + 1));
                        }
                        return Some((acc2, t3 + 1));
                    }
                    if v[t3] == ',' {
                        proof {
                            assert(v@.skip(t3 as int).drop_first() =~= v@.skip(t3 as int + 1));
                        }
                        return parse_env_members_exec(v, t3 + 1, acc2, false);
                    }
                    None
                },
                None => None,
            }
        },
        None => None,
    }
}

/// Decode one raw text payload into an envelope: exactly the decoding the
/// grammar of `decode_spec` gives, so the result is a function of the input
/// alone. Any malformed input yields `None` and nothing else happens.
pub fn decode_envelope(s: &str) -> (r: Option<NotificationData>)
    ensures
        match r {
            Some(d) => decode_spec(s@) == Some(d@),
            None => decode_spec(s@) is None,
        },
{
    let v = str_to_chars(s);
    proof {
        assert(v@.skip(0) =~= s@);
    }
    let t = skip_ws_exec(&v, 0);
    if t >= v.len() {
        return None;
    }
    proof {
        assert(v@.skip(t as int).first() == v@[t as int]);
    }
    if v[t] != '{' {
        return None;
    }
    proof {
        assert(v@.skip(t as int).drop_first() =~= v@.skip(t as int + 1));
    }
    match parse_env_members_exec(
        &v,
        t + 1,
        EnvFields { target: None, message: None, payload: None },
        true,
    ) {
        Some(p) => {
            let j = p.1;
            let e = skip_ws_exec(&v, j);
            if e < v.len() {
                return None;
            }
            proof {
                assert(v@.skip(e as int).len() == 0);
            }
            let EnvFields { target, message, payload } = p.0;
            match target {
                Some(target_app_id) => Some(
                    NotificationData { target_app_id, message, data_payload: payload },
                ),
                None => None,
            }
        },
        None => None,
    }
}

// ---------------------------------------------------------------------
// Executable encoder
// ---------------------------------------------------------------------

/// Escaping distributes over concatenation.
proof fn lemma_escape_append(a: Seq<char>, b: Seq<char>)
    ensures
        escape(a + b) == escape(a) + escape(b),
    decreases a.len(),
{
    if a.len() == 0 {
        assert(a + b =~= b);
        assert(escape(a) + escape(b) =~= escape(b));
    } else {
        assert((a + b).first() == a.first());
        assert((a + b).drop_first() =~= a.drop_first() + b);
        lemma_escape_append(a.drop_first(), b);
        assert(escape(a + b) =~= escape(a) + escape(b));
    }
}

/// Escaping one more character extends the escaped prefix.
proof fn lemma_escape_take_succ(s: Seq<char>, i: int)
    requires
        0 <= i < s.len(),
    ensures
        escape(s.take(i + 1)) == escape(s.take(i)) + escape_char(s[i]),
{
    assert(s.take(i + 1) =~= s.take(i) + seq![s[i]]);
    lemma_escape_append(s.take(i), seq![s[i]]);
    assert(seq![s[i]].len() == 1);
    assert(seq![s[i]].first() == s[i]);
    assert(seq![s[i]].drop_first() =~= Seq::<char>::empty());
    assert(escape(seq![s[i]]) == escape_char(s[i]) + escape(Seq::<char>::empty()));
    assert(escape_char(s[i]) + Seq::<char>::empty() =~= escape_char(s[i]));
}

/// The quoted, escaped form of one string.
fn quote_string(s: &str) -> (r: String)
    ensures
        r@ == print_string(s@),
{
    let mut out = String::new();
    push_char(&mut out, '"');
    proof {
        assert(escape(s@.take(0)) =~= Seq::<char>::empty());
        assert(out@ =~= seq!['"'] + escape(s@.take(0)));
    }
    let n = s.unicode_len();
    let mut i: usize = 0;
    while i < n
        invariant
            n == s@.len(),
            i <= n,
            out@ == seq!['"'] + escape(s@.take(i as int)),
        decreases n - i,
    {
        let c = s.get_char(i);
        proof {
            lemma_escape_take_succ(s@, i as int);
        }
        if c == '"' {
            push_char(&mut out, '\\');
            push_char(&mut out, '"');
        } else if c == '\\' {
            push_char(&mut out, '\\');
            push_char(&mut out, '\\');
        } else {
            push_char(&mut out, c);
        }
        proof {
            assert(out@ =~= seq!['"'] + escape(s@.take(i as int + 1)));
        }
        i += 1;
    }
    push_char(&mut out, '"');
    proof {
        assert(s@.take(n as int) =~= s@);
        assert(out@ =~= print_string(s@));
    }
    out
}

/// One printed keyed entry.
fn encode_entry(e: &NotificationPayload) -> (r: String)
    ensures
        r@ == print_entry(e@),
{
    let mut out = String::new();
    push_char(&mut out, '{');
    let qk = quote_string("key");
    out.append(qk.as_str());
    push_char(&mut out, ':');
    let k = quote_string(e.key.as_str());
    out.append(k.as_str());
    push_char(&mut out, ',');
    let qv = quote_string("value");
    out.append(qv.as_str());
    push_char(&mut out, ':');
    let v = quote_string(e.value.as_str());
    out.append(v.as_str());
    push_char(&mut out, '}');
    proof {
        assert(out@ =~= print_entry(e@));
    }
    out
}

/// The printed elements of the keyed-payload array from position `i` on.
fn encode_elems(es: &Vec<NotificationPayload>, i: usize) -> (r: String)
    requires
        i <= es.len(),
    ensures
        r@ == print_elems(es.deep_view().skip(i as int)),
    decreases es.len() - i,
{
    if i >= es.len() {
        proof {
            assert(es.deep_view().skip(i as int) =~= Seq::<PayloadModel>::empty());
        }
        return String::new();
    }
    let mut out = encode_entry(&es[i]);
    proof {
        assert(es.deep_view().skip(i as int).first() == es.deep_view()[i as int]);
    }
    if i + 1 < es.len() {
        push_char(&mut out, ',');
        let rest = encode_elems(es, i + 1);
        out.append(rest.as_str());
        proof {
            assert(es.deep_view().skip(i as int).drop_first() =~= es.deep_view().skip(
                i as int + 1,
            ));
            assert(out@ =~= print_elems(es.deep_view().skip(i as int)));
        }
    } else {
        proof {
            assert(es.deep_view().skip(i as int).len() == 1);
        }
    }
    out
}

/// The printed direct-shape object.
fn encode_message(m: &NotificationMessage) -> (r: String)
    ensures
        r@ == print_message(m@),
{
    let mut out = String::new();
    push_char(&mut out, '{');
    let qt = quote_string("title");
    out.append(qt.as_str());
    push_char(&mut out, ':');
    let t = quote_string(m.title.as_str());
    out.append(t.as_str());
    push_char(&mut out, ',');
    let qc = quote_string("content");
    out.append(qc.as_str());
    push_char(&mut out, ':');
    let c = quote_string(m.content.as_str());
    out.append(c.as_str());
    push_char(&mut out, '}');
    proof {
        assert(out@ =~= print_message(m@));
    }
    out
}

/// Encode an envelope as one text payload, in the printed form of
/// `print_data`: the required field first, then each optional field that
/// is present, in a fixed order, with no insignificant whitespace.
pub fn encode_envelope(data: &NotificationData) -> (r: String)
    ensures
        r@ == print_data(data@),
{
    let mut out = String::new();
    push_char(&mut out, '{');
    let qt = quote_string("targetAppID");
    out.append(qt.as_str());
    push_char(&mut out, ':');
    let tv = quote_string(data.target_app_id.as_str());
    out.append(tv.as_str());
    proof {
        assert(out@ =~= seq!['{'] + print_string("targetAppID"@) + seq![':'] + print_string(
            data.target_app_id@,
        ));
    }
    let ghost head: Seq<char> = out@;
    let ghost msg_part: Seq<char> = match data@.message {
        Some(m) => seq![','] + print_string("message"@) + seq![':'] + print_message(m),
        None => Seq::empty(),
    };
    if let Some(m) = &data.message {
        push_char(&mut out, ',');
        let qm = quote_string("message");
        out.append(qm.as_str());
        push_char(&mut out, ':');
        let mv = encode_message(m);
        out.append(mv.as_str());
        proof {
            assert(out@ =~= head + msg_part);
        }
    } else {
        proof {
            assert(out@ =~= head + msg_part);
        }
    }
    let ghost head2: Seq<char> = out@;
    let ghost pay_part: Seq<char> = match data@.data_payload {
        Some(es) => seq![','] + print_string("dataPayload"@) + seq![':'] + print_entries(es),
        None => Seq::empty(),
    };
    if let Some(es) = &data.data_payload {
        push_char(&mut out, ',');
        let qp = quote_string("dataPayload");
        out.append(qp.as_str());
        push_char(&mut out, ':');
        push_char(&mut out, '[');
        proof {
            assert(es.deep_view().skip(0) =~= es.deep_view());
        }
        let ev = encode_elems(es, 0);
        out.append(ev.as_str());
        push_char(&mut out, ']');
        proof {
            assert(out@ =~= head2 + pay_part);
        }
    } else {
        proof {
            assert(out@ =~= head2 + pay_part);
        }
    }
    push_char(&mut out, '}');
    proof {
        assert(out@ =~= head + msg_part + pay_part + seq!['}']);
        assert(print_data(data@) == head + msg_part + pay_part + seq!['}']);
    }
    out
}

// ---------------------------------------------------------------------
// The round-trip law: decoding an encoded envelope gives it back
// ---------------------------------------------------------------------

proof fn lemma_skip_ws_id(s: Seq<char>)
    requires
        s.len() == 0 || !is_ws(s.first()),
    ensures
        skip_ws(s) == s,
{
}

proof fn lemma_parse_string_body_print(v: Seq<char>, acc: Seq<char>, rest: Seq<char>)
    ensures
        parse_string_body(escape(v) + seq!['"'] + rest, acc) == Some((acc + v, rest)),
    decreases v.len(),
{
    let s = escape(v) + seq!['"'] + rest;
    if v.len() == 0 {
        assert(escape(v) =~= Seq::<char>::empty());
        assert(s =~= seq!['"'] + rest);
        assert(s.first() == '"');
        assert(s.drop_first() =~= rest);
        assert(acc + v =~= acc);
    } else {
        let c = v.first();
        let e_rest = escape(v.drop_first()) + seq!['"'] + rest;
        assert(escape(v) == escape_char(c) + escape(v.drop_first()));
        if c == '"' {
            assert(s =~= seq!['\\', '"'] + e_rest);
            assert(s.first() == '\\');
            assert(s.len() >= 2);
            assert(s[1] == '"');
            assert(s.skip(2) =~= e_rest);
            lemma_parse_string_body_print(v.drop_first(), acc.push('"'), rest);
            assert(acc.push('"') + v.drop_first() =~= acc + v);
        } else if c == '\\' {
            assert(s =~= seq!['\\', '\\'] + e_rest);
            assert(s.first() == '\\');
            assert(s.len() >= 2);
            assert(s[1] == '\\');
            assert(s.skip(2) =~= e_rest);
            lemma_parse_string_body_print(v.drop_first(), acc.push('\\'), rest);
            assert(acc.push('\\') + v.drop_first() =~= acc + v);
        } else {
            assert(s =~= seq![c] + e_rest);
            assert(s.first() == c);
            assert(s.drop_first() =~= e_rest);
            lemma_parse_string_body_print(v.drop_first(), acc.push(c), rest);
            assert(acc.push(c) + v.drop_first() =~= acc + v);
        }
    }
}

proof fn lemma_parse_string_print(v: Seq<char>, rest: Seq<char>)
    ensures
        parse_string(print_string(v) + rest) == Some((v, rest)),
{
    let s = print_string(v) + rest;
    assert(s =~= seq!['"'] + (escape(v) + seq!['"'] + rest));
    assert(s.first() == '"');
    assert(s.drop_first() =~= escape(v) + seq!['"'] + rest);
    lemma_parse_string_body_print(v, Seq::empty(), rest);
    assert(Seq::<char>::empty() + v =~= v);
}

proof fn lemma_parse_message_print(m: MessageModel, rest: Seq<char>)
    ensures
        parse_message_obj(print_message(m) + rest) == Some((m, rest)),
{
    let s = print_message(m) + rest;
    let s1 = print_string("title"@) + (seq![':'] + print_string(m.title) + seq![','] + print_string(
        "content"@,
    ) + seq![':'] + print_string(m.content) + seq!['}'] + rest);
    assert(s =~= seq!['{'] + s1);
    assert(s.first() == '{');
    assert(s.drop_first() =~= s1);
    let acc0 = MessageFields { title: None, content: None };
    // first member: "title"
    lemma_skip_ws_id(s1);
    lemma_parse_string_print(
        "title"@,
        seq![':'] + print_string(m.title) + seq![','] + print_string("content"@) + seq![':']
            + print_string(m.content) + seq!['}'] + rest,
    );
    let r1 = seq![':'] + print_string(m.title) + seq![','] + print_string("content"@) + seq![':']
        + print_string(m.content) + seq!['}'] + rest;
    lemma_skip_ws_id(r1);
    assert(r1.first() == ':');
    let t2 = print_string(m.title) + (seq![','] + print_string("content"@) + seq![':']
        + print_string(m.content) + seq!['}'] + rest);
    assert(r1.drop_first() =~= t2);
    lemma_skip_ws_id(t2);
    assert(t2.len() <= s1.len());
    lemma_parse_string_print(
        m.title,
        seq![','] + print_string("content"@) + seq![':'] + print_string(m.content) + seq!['}']
            + rest,
    );
    let acc1 = MessageFields { title: Some(m.title), content: None };
    assert(parse_message_value(t2, acc0, "title"@) == Some(
        (acc1, seq![','] + print_string("content"@) + seq![':'] + print_string(m.content)
            + seq!['}'] + rest),
    ));
    let t3 = seq![','] + print_string("content"@) + seq![':'] + print_string(m.content) + seq!['}']
        + rest;
    lemma_skip_ws_id(t3);
    assert(t3.first() == ',');
    let s2 = print_string("content"@) + (seq![':'] + print_string(m.content) + seq!['}'] + rest);
    assert(t3.drop_first() =~= s2);
    assert(t3.drop_first().len() < s1.len());
    // second member: "content"
    lemma_skip_ws_id(s2);
    lemma_parse_string_print("content"@, seq![':'] + print_string(m.content) + seq!['}'] + rest);
    let r2 = seq![':'] + print_string(m.content) + seq!['}'] + rest;
    lemma_skip_ws_id(r2);
    assert(r2.first() == ':');
    let t4 = print_string(m.content) + (seq!['}'] + rest);
    assert(r2.drop_first() =~= t4);
    lemma_skip_ws_id(t4);
    assert(t4.len() <= s2.len());
    reveal_strlit("title");
    reveal_strlit("content");
    assert("content"@ != "title"@);
    lemma_parse_string_print(m.content, seq!['}'] + rest);
    let acc2 = MessageFields { title: Some(m.title), content: Some(m.content) };
    assert(parse_message_value(t4, acc1, "content"@) == Some((acc2, seq!['}'] + rest)));
    let t5 = seq!['}'] + rest;
    lemma_skip_ws_id(t5);
    assert(t5.first() == '}');
    assert(t5.drop_first() =~= rest);
    assert(parse_message_members(s2, acc1) == Some((m, rest)));
    assert(parse_message_members(s1, acc0) == Some((m, rest)));
}

proof fn lemma_parse_entry_print(e: PayloadModel, rest: Seq<char>)
    ensures
        parse_entry_obj(print_entry(e) + rest) == Some((e, rest)),
{
    let s = print_entry(e) + rest;
    let s1 = print_string("key"@) + (seq![':'] + print_string(e.key) + seq![','] + print_string(
        "value"@,
    ) + seq![':'] + print_string(e.value) + seq!['}'] + rest);
    assert(s =~= seq!['{'] + s1);
    assert(s.first() == '{');
    assert(s.drop_first() =~= s1);
    let acc0 = EntryFields { key: None, value: None };
    // first member: "key"
    lemma_skip_ws_id(s1);
    lemma_parse_string_print(
        "key"@,
        seq![':'] + print_string(e.key) + seq![','] + print_string("value"@) + seq![':']
            + print_string(e.value) + seq!['}'] + rest,
    );
    let r1 = seq![':'] + print_string(e.key) + seq![','] + print_string("value"@) + seq![':']
        + print_string(e.value) + seq!['}'] + rest;
    lemma_skip_ws_id(r1);
    assert(r1.first() == ':');
    let t2 = print_string(e.key) + (seq![','] + print_string("value"@) + seq![':'] + print_string(
        e.value,
    ) + seq!['}'] + rest);
    assert(r1.drop_first() =~= t2);
    lemma_skip_ws_id(t2);
    assert(t2.len() <= s1.len());
    lemma_parse_string_print(
        e.key,
        seq![','] + print_string("value"@) + seq![':'] + print_string(e.value) + seq!['}'] + rest,
    );
    let acc1 = EntryFields { key: Some(e.key), value: None };
    assert(parse_entry_value(t2, acc0, "key"@) == Some(
        (acc1, seq![','] + print_string("value"@) + seq![':'] + print_string(e.value) + seq!['}']
            + rest),
    ));
    let t3 = seq![','] + print_string("value"@) + seq![':'] + print_string(e.value) + seq!['}']
        + rest;
    lemma_skip_ws_id(t3);
    assert(t3.first() == ',');
    let s2 = print_string("value"@) + (seq![':'] + print_string(e.value) + seq!['}'] + rest);
    assert(t3.drop_first() =~= s2);
    assert(t3.drop_first().len() < s1.len());
    // second member: "value"
    lemma_skip_ws_id(s2);
    lemma_parse_string_print("value"@, seq![':'] + print_string(e.value) + seq!['}'] + rest);
    let r2 = seq![':'] + print_string(e.value) + seq!['}'] + rest;
    lemma_skip_ws_id(r2);
    assert(r2.first() == ':');
    let t4 = print_string(e.value) + (seq!['}'] + rest);
    assert(r2.drop_first() =~= t4);
    lemma_skip_ws_id(t4);
    assert(t4.len() <= s2.len());
    reveal_strlit("key");
    reveal_strlit("value");
    assert("value"@ != "key"@);
    lemma_parse_string_print(e.value, seq!['}'] + rest);
    let acc2 = EntryFields { key: Some(e.key), value: Some(e.value) };
    assert(parse_entry_value(t4, acc1, "value"@) == Some((acc2, seq!['}'] + rest)));
    let t5 = seq!['}'] + rest;
    lemma_skip_ws_id(t5);
    assert(t5.first() == '}');
    assert(t5.drop_first() =~= rest);
    assert(parse_entry_members(s2, acc1) == Some((e, rest)));
    assert(parse_entry_members(s1, acc0) == Some((e, rest)));
}

proof fn lemma_parse_elems_print(
    es: Seq<PayloadModel>,
    acc: Seq<PayloadModel>,
    rest: Seq<char>,
    first: bool,
)
    requires
        first || es.len() > 0,
    ensures
        parse_entry_elems(print_elems(es) + seq![']'] + rest, acc, first) == Some(
            (acc + es, rest),
        ),
    decreases es.len(),
{
    let s = print_elems(es) + seq![']'] + rest;
    if es.len() == 0 {
        assert(print_elems(es) =~= Seq::<char>::empty());
        assert(s =~= seq![']'] + rest);
        lemma_skip_ws_id(s);
        assert(s.first() == ']');
        assert(s.drop_first() =~= rest);
        assert(acc + es =~= acc);
    } else if es.len() == 1 {
        assert(s =~= print_entry(es.first()) + (seq![']'] + rest));
        lemma_skip_ws_id(s);
        lemma_parse_entry_print(es.first(), seq![']'] + rest);
        assert(s.first() == '{');
        let t1 = seq![']'] + rest;
        lemma_skip_ws_id(t1);
        assert(t1.first() == ']');
        assert(t1.drop_first() =~= rest);
        assert(acc.push(es.first()) =~= acc + es);
    } else {
        assert(s =~= print_entry(es.first()) + (seq![','] + print_elems(es.drop_first())
            + seq![']'] + rest));
        lemma_skip_ws_id(s);
        lemma_parse_entry_print(
            es.first(),
            seq![','] + print_elems(es.drop_first()) + seq![']'] + rest,
        );
        assert(s.first() == '{');
        let t1 = seq![','] + print_elems(es.drop_first()) + seq![']'] + rest;
        lemma_skip_ws_id(t1);
        assert(t1.first() == ',');
        assert(t1.drop_first() =~= print_elems(es.drop_first()) + seq![']'] + rest);
        assert(t1.drop_first().len() < s.len());
        lemma_parse_elems_print(es.drop_first(), acc.push(es.first()), rest, false);
        assert(acc.push(es.first()) + es.drop_first() =~= acc + es);
    }
}

proof fn lemma_parse_entries_print(es: Seq<PayloadModel>, rest: Seq<char>)
    ensures
        parse_entries(print_entries(es) + rest) == Some((es, rest)),
{
    let s = print_entries(es) + rest;
    assert(s =~= seq!['['] + (print_elems(es) + seq![']'] + rest));
    assert(s.first() == '[');
    assert(s.drop_first() =~= print_elems(es) + seq![']'] + rest);
    lemma_parse_elems_print(es, Seq::empty(), rest, true);
    assert(Seq::<PayloadModel>::empty() + es =~= es);
}

proof fn lemma_members_payload(es: Seq<PayloadModel>, acc: EnvelopeFields)
    requires
        acc.payload is None,
    ensures
        parse_env_members(
            print_string("dataPayload"@) + seq![':'] + print_entries(es) + seq!['}'],
            acc,
            false,
        ) == Some(
            (
                EnvelopeFields { target: acc.target, message: acc.message, payload: Some(es) },
                Seq::<char>::empty(),
            ),
        ),
{
    reveal_strlit("targetAppID");
    reveal_strlit("message");
    reveal_strlit("dataPayload");
    assert(("dataPayload"@)[0] != ("targetAppID"@)[0]);
    assert("dataPayload"@ != "targetAppID"@);
    assert("dataPayload"@ != "message"@);
    let s = print_string("dataPayload"@) + seq![':'] + print_entries(es) + seq!['}'];
    assert(s =~= print_string("dataPayload"@) + (seq![':'] + print_entries(es) + seq!['}']));
    lemma_skip_ws_id(s);
    assert(s.first() == '"');
    lemma_parse_string_print("dataPayload"@, seq![':'] + print_entries(es) + seq!['}']);
    let r1 = seq![':'] + print_entries(es) + seq!['}'];
    lemma_skip_ws_id(r1);
    assert(r1.first() == ':');
    let t2 = print_entries(es) + seq!['}'];
    assert(r1.drop_first() =~= t2);
    lemma_skip_ws_id(t2);
    assert(t2.len() <= s.len());
    lemma_parse_entries_print(es, seq!['}']);
    let acc2 = EnvelopeFields { target: acc.target, message: acc.message, payload: Some(es) };
    assert(parse_env_value(t2, acc, "dataPayload"@) == Some((acc2, seq!['}'])));
    let t3 = seq!['}'];
    lemma_skip_ws_id(t3);
    assert(t3.first() == '}');
    assert(t3.drop_first() =~= Seq::<char>::empty());
}

proof fn lemma_members_message(
    m: MessageModel,
    pay: Option<Seq<PayloadModel>>,
    acc: EnvelopeFields,
)
    requires
        acc.message is None,
        acc.payload is None,
    ensures
        parse_env_members(
            print_string("message"@) + seq![':'] + print_message(m) + (match pay {
                Some(es) => seq![','] + print_string("dataPayload"@) + seq![':'] + print_entries(
                    es,
                ),
                None => Seq::empty(),
            }) + seq!['}'],
            acc,
            false,
        ) == Some(
            (
                EnvelopeFields { target: acc.target, message: Some(m), payload: pay },
                Seq::<char>::empty(),
            ),
        ),
{
    reveal_strlit("targetAppID");
    reveal_strlit("message");
    assert(("message"@).len() != ("targetAppID"@).len());
    assert("message"@ != "targetAppID"@);
    let pay_part: Seq<char> = match pay {
        Some(es) => seq![','] + print_string("dataPayload"@) + seq![':'] + print_entries(es),
        None => Seq::empty(),
    };
    let s = print_string("message"@) + seq![':'] + print_message(m) + pay_part + seq!['}'];
    assert(s =~= print_string("message"@) + (seq![':'] + print_message(m) + pay_part + seq!['}']));
    lemma_skip_ws_id(s);
    assert(s.first() == '"');
    lemma_parse_string_print("message"@, seq![':'] + print_message(m) + pay_part + seq!['}']);
    let r1 = seq![':'] + print_message(m) + pay_part + seq!['}'];
    lemma_skip_ws_id(r1);
    assert(r1.first() == ':');
    let t2 = print_message(m) + (pay_part + seq!['}']);
    assert(r1.drop_first() =~= t2);
    assert(t2.first() == '{');
    lemma_skip_ws_id(t2);
    assert(t2.len() <= s.len());
    lemma_parse_message_print(m, pay_part + seq!['}']);
    let acc2 = EnvelopeFields { target: acc.target, message: Some(m), payload: acc.payload };
    assert(parse_env_value(t2, acc, "message"@) == Some((acc2, pay_part + seq!['}'])));
    let t3 = pay_part + seq!['}'];
    match pay {
        Some(es) => {
            assert(t3 =~= seq![','] + (print_string("dataPayload"@) + seq![':'] + print_entries(es)
                + seq!['}']));
            lemma_skip_ws_id(t3);
            assert(t3.first() == ',');
            assert(t3.drop_first() =~= print_string("dataPayload"@) + seq![':'] + print_entries(es)
                + seq!['}']);
            assert(t3.drop_first().len() < s.len());
            lemma_members_payload(es, acc2);
        },
        None => {
            assert(t3 =~= seq!['}']);
            lemma_skip_ws_id(t3);
            assert(t3.first() == '}');
            assert(t3.drop_first() =~= Seq::<char>::empty());
        },
    }
}

/// The round-trip law of the codec: the printed form of any envelope
/// decodes back to that envelope, field for field.
#[verifier::rlimit(100)]
pub proof fn lemma_encode_decode_round_trip(d: DataModel)
    ensures
        decode_spec(print_data(d)) == Some(d),
{
    let msg_part: Seq<char> = match d.message {
        Some(m) => seq![','] + print_string("message"@) + seq![':'] + print_message(m),
        None => Seq::empty(),
    };
    let pay_part: Seq<char> = match d.data_payload {
        Some(es) => seq![','] + print_string("dataPayload"@) + seq![':'] + print_entries(es),
        None => Seq::empty(),
    };
    let s = print_data(d);
    let s1 = print_string("targetAppID"@) + (seq![':'] + print_string(d.target_app_id) + msg_part
        + pay_part + seq!['}']);
    assert(s =~= seq!['{'] + s1);
    lemma_skip_ws_id(s);
    assert(s.first() == '{');
    assert(s.drop_first() =~= s1);
    // the required member: "targetAppID"
    lemma_skip_ws_id(s1);
    assert(s1.first() == '"');
    lemma_parse_string_print(
        "targetAppID"@,
        seq![':'] + print_string(d.target_app_id) + msg_part + pay_part + seq!['}'],
    );
    let r1 = seq![':'] + print_string(d.target_app_id) + msg_part + pay_part + seq!['}'];
    lemma_skip_ws_id(r1);
    assert(r1.first() == ':');
    let t2 = print_string(d.target_app_id) + (msg_part + pay_part + seq!['}']);
    assert(r1.drop_first() =~= t2);
    lemma_skip_ws_id(t2);
    assert(t2.len() <= s1.len());
    lemma_parse_string_print(d.target_app_id, msg_part + pay_part + seq!['}']);
    let acc1 = EnvelopeFields {
        target: Some(d.target_app_id),
        message: None,
        payload: None,
    };
    assert(parse_env_value(t2, empty_fields(), "targetAppID"@) == Some(
        (acc1, msg_part + pay_part + seq!['}']),
    ));
    let t3 = msg_part + pay_part + seq!['}'];
    let f = EnvelopeFields {
        target: Some(d.target_app_id),
        message: d.message,
        payload: d.data_payload,
    };
    match d.message {
        Some(m) => {
            assert(t3 =~= seq![','] + (print_string("message"@) + seq![':'] + print_message(m)
                + pay_part + seq!['}']));
            lemma_skip_ws_id(t3);
            assert(t3.first() == ',');
            assert(t3.drop_first() =~= print_string("message"@) + seq![':'] + print_message(m)
                + pay_part + seq!['}']);
            assert(t3.drop_first().len() < s1.len());
            lemma_members_message(m, d.data_payload, acc1);
            assert(parse_env_members(s1, empty_fields(), true) == Some((f, Seq::<char>::empty())));
        },
        None => {
            match d.data_payload {
                Some(es) => {
                    assert(t3 =~= seq![','] + (print_string("dataPayload"@) + seq![':']
                        + print_entries(es) + seq!['}']));
                    lemma_skip_ws_id(t3);
                    assert(t3.first() == ',');
                    assert(t3.drop_first() =~= print_string("dataPayload"@) + seq![':']
                        + print_entries(es) + seq!['}']);
                    assert(t3.drop_first().len() < s1.len());
                    lemma_members_payload(es, acc1);
                    assert(parse_env_members(s1, empty_fields(), true) == Some(
                        (f, Seq::<char>::empty()),
                    ));
                },
                None => {
                    assert(t3 =~= seq!['}']);
                    lemma_skip_ws_id(t3);
                    assert(t3.first() == '}');
                    assert(t3.drop_first() =~= Seq::<char>::empty());
                    assert(parse_env_members(s1, empty_fields(), true) == Some(
                        (f, Seq::<char>::empty()),
                    ));
                },
            }
        },
    }
    assert(skip_ws(Seq::<char>::empty()).len() == 0);
    assert(decode_spec(s) == Some(
        DataModel {
            target_app_id: d.target_app_id,
            message: d.message,
            data_payload: d.data_payload,
        },
    ));
    assert(DataModel {
        target_app_id: d.target_app_id,
        message: d.message,
        data_payload: d.data_payload,
    } == d);
}

/// Decoding is a function of the input text alone: equal inputs decode
/// equally.
pub proof fn lemma_decode_deterministic(a: Seq<char>, b: Seq<char>)
    requires
        a == b,
    ensures
        decode_spec(a) == decode_spec(b),
{
}

} // verus!
