//! From text to a parsed tree, through the `json` crate.

use vstd::prelude::*;
use vstd::string::StringSliceAdditionalSpecFns;
use crate::document::{load_error, load_ok, loaded, query_shapes, service_lines, shapes_of};
use crate::model::{ModelError, Service};
use crate::report::{ReportLine, lines_view, report_of};
use crate::tree::Node;

verus! {

#[verifier::external_type_specification]
#[verifier::external_body]
pub struct ExJsonValue(json::JsonValue);

/// The longest run of ASCII digits that the parser is handed. The parser
/// lowers a 16-bit exponent, from zero or above, at most once per digit of a
/// fraction; a longer run of fraction digits could overflow it.
pub const MAX_DIGIT_RUN: u64 = 32767;

/// The number of ASCII digit bytes that end `b`.
pub open spec fn trailing_digits(b: Seq<u8>) -> nat
    decreases b.len(),
{
    if b.len() == 0 {
        0
    } else if 48u8 <= b.last() && b.last() <= 57u8 {
        1 + trailing_digits(b.drop_last())
    } else {
        0
    }
}

/// No run of ASCII digit bytes in `b` is longer than `MAX_DIGIT_RUN`.
pub open spec fn digit_runs_short(b: Seq<u8>) -> bool
    decreases b.len(),
{
    b.len() == 0 || (trailing_digits(b) <= MAX_DIGIT_RUN && digit_runs_short(b.drop_last()))
}

/// What `json::parse` makes of a text, as a tree; `None` where it rejects the text.
pub uninterp spec fn json_tree(text: Seq<char>) -> Option<Node>;

/// Relies on `json::JsonValue`'s variants: strings become `Str`, objects
/// `Object` with their entries in the parser's order, all else `Other`.
#[verifier::external_body]
fn node_of(v: &json::JsonValue) -> Node {
    match v {
        json::JsonValue::Short(s) => Node::Str(s.as_str().to_owned()),
        json::JsonValue::String(s) => Node::Str(s.clone()),
        json::JsonValue::Object(o) => Node::Object(o.iter().map(|(k, x)| (k.to_owned(), node_of(x))).collect()),
        _ => Node::Other,
    }
}

/// Relies on `json::parse`: what it returns depends on the text alone. Its
/// 16-bit exponent can overflow, and panic, on a fraction with more digits
/// than `MAX_DIGIT_RUN`.
#[verifier::external_body]
fn parse_tree(text: &str) -> (r: Option<Node>)
    requires
        digit_runs_short(text.spec_bytes()),
    ensures
        r == json_tree(text@),
{
    json::parse(text).ok().map(|v| node_of(&v))
}

/// Whether no run of ASCII digits in `text` is longer than `MAX_DIGIT_RUN`.
pub fn digit_runs_ok(text: &str) -> (r: bool)
    ensures
        r == digit_runs_short(text.spec_bytes()),
{
    let b = text.as_bytes();
    let ghost s = b@;
    let mut run: u64 = 0;
    let mut i: usize = 0;
    assert(s.take(0) =~= Seq::<u8>::empty());
    while i < b.len()
        invariant
            s == b@,
            s == text.spec_bytes(),
            i <= s.len(),
            run == trailing_digits(s.take(i as int)),
            digit_runs_short(s.take(i as int)),
        decreases s.len() - i,
    {
        let ghost t = s.take(i + 1);
        assert(t.drop_last() =~= s.take(i as int));
        if 48u8 <= b[i] && b[i] <= 57u8 {
            if run == MAX_DIGIT_RUN {
                assert(trailing_digits(t) == MAX_DIGIT_RUN + 1);
                proof {
                    assert(!digit_runs_short(t));
                    if digit_runs_short(s) {
                        lemma_digit_runs_prefix(s, i + 1);
                    }
                }
                return false;
            }
            run = run + 1;
        } else {
            run = 0;
        }
        i = i + 1;
    }
    assert(s.take(i as int) =~= s);
    true
}

/// Short digit runs in a sequence mean short runs in each of its prefixes.
proof fn lemma_digit_runs_prefix(s: Seq<u8>, n: int)
    requires
        digit_runs_short(s),
        0 <= n <= s.len(),
    ensures
        digit_runs_short(s.take(n)),
    decreases s.len(),
{
    if n < s.len() {
        lemma_digit_runs_prefix(s.drop_last(), n);
        assert(s.drop_last().take(n) =~= s.take(n));
    } else {
        assert(s.take(n) =~= s);
    }
}

/// Parses a document into a tree.
pub fn parse_document(text: &str) -> (r: Result<Node, ModelError>)
    requires
        digit_runs_short(text.spec_bytes()),
    ensures
        r is Ok <==> json_tree(text@) is Some,
        r matches Ok(t) ==> json_tree(text@) == Some(t),
        r matches Err(e) ==> e is ParseError,
{
    match parse_tree(text) {
        Some(t) => Ok(t),
        None => Err(ModelError::ParseError),
    }
}

/// The report of a document given as text: `ParseError` where the parser
/// rejects the text, else what `query_shapes` gives on the parsed tree.
pub fn query_document(text: &str) -> (r: Result<Vec<ReportLine>, ModelError>)
    requires
        digit_runs_short(text.spec_bytes()),
    ensures
        r matches Err(ModelError::ParseError) <==> json_tree(text@) is None,
        json_tree(text@) matches Some(t) ==> (r is Ok <==> load_ok(shapes_of(t))),
        r matches Ok(lines) ==> json_tree(text@) matches Some(t) && exists|svc: Service| {
            &&& loaded(svc, shapes_of(t))
            &&& #[trigger] lines_view(lines@) == service_lines(shapes_of(t)) + report_of(svc)
        },
        r matches Err(e) ==> (json_tree(text@) matches Some(t) ==> load_error(shapes_of(t), e)),
{
    match parse_document(text) {
        Ok(doc) => query_shapes(&doc),
        Err(e) => Err(e),
    }
}

} // verus!
