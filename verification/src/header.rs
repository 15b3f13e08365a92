//! Header fields: the lines between the start line and the body.

use crate::ascii::{
    all_in_class, bytes_eq_ignore_case, bytes_in_class, decimal_value, eq_ignore_case, find_byte,
    in_class, is_decimal, is_token, is_trimmed, lemma_find_byte_at, lemma_trim_is_trimmed,
    position_of, trim, trim_start, trimmed, ByteClass, COLON, CR, LF, SP,
};
use vstd::prelude::*;
use vstd::slice::{slice_subrange, slice_to_vec};
use vstd::string::StringSliceAdditionalSpecFns;

verus! {

/// One header field.
#[derive(Clone, Debug, PartialEq, Eq)]
pub struct Header {
    pub name: Vec<u8>,
    pub value: Vec<u8>,
}

/// A header field as a pair of byte strings.
pub struct HeaderView {
    pub name: Seq<u8>,
    pub value: Seq<u8>,
}

impl View for Header {
    type V = HeaderView;

    open spec fn view(&self) -> HeaderView {
        HeaderView { name: self.name@, value: self.value@ }
    }
}

/// The fields of a header list, each as a pair of byte strings.
pub open spec fn header_views(headers: Seq<Header>) -> Seq<HeaderView> {
    headers.map_values(|h: Header| h@)
}

/// The field that a line holds: a token, a colon, and a value that is kept
/// without the blanks around it. `None` where the line has no such shape.
pub open spec fn header_of_line(line: Seq<u8>) -> Option<HeaderView> {
    match find_byte(line, COLON, 0) {
        None => None,
        Some(colon) => {
            let name = line.subrange(0, colon);
            let value = trim(line.subrange(colon + 1, line.len() as int));
            if is_token(name) && all_in_class(ByteClass::Field, value) {
                Some(HeaderView { name, value })
            } else {
                None
            }
        },
    }
}

/// A field that a header line can carry as it is: the name is a token, and
/// the value holds no control character and no blank at either end.
pub open spec fn is_field(h: HeaderView) -> bool {
    is_token(h.name) && all_in_class(ByteClass::Field, h.value) && is_trimmed(h.value)
}

/// The line that carries a field, with its line end.
pub open spec fn line_of_header(h: HeaderView) -> Seq<u8> {
    h.name + seq![COLON, SP] + h.value + seq![CR, LF]
}

/// The lines of a header list, in order.
pub open spec fn lines_of_headers(headers: Seq<HeaderView>) -> Seq<u8>
    decreases headers.len(),
{
    if headers.len() == 0 {
        Seq::empty()
    } else {
        lines_of_headers(headers.drop_last()) + line_of_header(headers.last())
    }
}

/// The value of the first field called `name`, whatever the case of its letters.
pub open spec fn find_header(headers: Seq<HeaderView>, name: Seq<u8>) -> Option<Seq<u8>>
    decreases headers.len(),
{
    if headers.len() == 0 {
        None
    } else if eq_ignore_case(headers[0].name, name) {
        Some(headers[0].value)
    } else {
        find_header(headers.drop_first(), name)
    }
}

/// The name of the field that announces a body.
pub open spec fn content_length_name() -> Seq<u8> {
    "Content-Length".spec_bytes()
}

/// What a header list says of the body's length.
pub enum BodyLength {
    /// No `Content-Length` field: there is no body.
    Absent,
    /// The first `Content-Length` field is no decimal numeral.
    Invalid,
    /// The body has this many bytes.
    Length(nat),
}

/// What `headers` say of the body's length: the first `Content-Length`
/// field counts.
pub open spec fn declared_length(headers: Seq<HeaderView>) -> BodyLength {
    match find_header(headers, content_length_name()) {
        None => BodyLength::Absent,
        Some(value) => if is_decimal(value) {
            BodyLength::Length(decimal_value(value))
        } else {
            BodyLength::Invalid
        },
    }
}

impl Header {
    /// A field with copies of the given name and value.
    pub fn new(name: &[u8], value: &[u8]) -> (h: Header)
        ensures
            h@ == (HeaderView { name: name@, value: value@ }),
    {
        Header { name: slice_to_vec(name), value: slice_to_vec(value) }
    }

    /// Reads one header line, given without its line end.
    pub fn parse(line: &[u8]) -> (r: Option<Header>)
        ensures
            match r {
                Some(h) => header_of_line(line@) == Some(h@),
                None => header_of_line(line@) is None,
            },
    {
        let end = line.len();
        let colon = match position_of(line, COLON, 0) {
            Some(c) => c,
            None => { return None; },
        };
        let name = slice_subrange(line, 0, colon);
        let value = trimmed(slice_subrange(line, colon + 1, end));
        if name.len() > 0 && bytes_in_class(ByteClass::Token, name) && bytes_in_class(
            ByteClass::Field,
            value,
        ) {
            Some(Header::new(name, value))
        } else {
            None
        }
    }

    /// Appends the field's line to `out`.
    pub fn write_to(&self, out: &mut Vec<u8>)
        ensures
            final(out)@ == old(out)@ + line_of_header(self@),
    {
        out.extend_from_slice(self.name.as_slice());
        out.push(COLON);
        out.push(SP);
        out.extend_from_slice(self.value.as_slice());
        out.push(CR);
        out.push(LF);
        assert(out@ =~= old(out)@ + line_of_header(self@));
    }
}

/// The value of the first field called `name`, whatever the case of its letters.
pub fn lookup<'a>(headers: &'a Vec<Header>, name: &[u8]) -> (r: Option<&'a Vec<u8>>)
    ensures
        match r {
            Some(v) => find_header(header_views(headers@), name@) == Some(v@),
            None => find_header(header_views(headers@), name@) is None,
        },
{
    let ghost all = header_views(headers@);
    let mut i: usize = 0;
    assert(all.subrange(0, all.len() as int) =~= all);
    while i < headers.len()
        invariant
            i <= headers@.len(),
            all == header_views(headers@),
            find_header(all, name@) == find_header(all.subrange(i as int, all.len() as int), name@),
        decreases headers@.len() - i,
    {
        let ghost rest = all.subrange(i as int, all.len() as int);
        assert(rest[0] == headers@[i as int]@);
        if bytes_eq_ignore_case(headers[i].name.as_slice(), name) {
            return Some(&headers[i].value);
        }
        assert(rest.drop_first() =~= all.subrange(i + 1, all.len() as int));
        i += 1;
    }
    None
}

/// The lines of a header list start with the line of its first field.
pub proof fn lemma_lines_of_headers_front(headers: Seq<HeaderView>)
    requires
        headers.len() > 0,
    ensures
        lines_of_headers(headers) == line_of_header(headers[0]) + lines_of_headers(
            headers.drop_first(),
        ),
    decreases headers.len(),
{
    let rest = headers.drop_first();
    if headers.len() == 1 {
        assert(headers.drop_last() =~= Seq::empty());
        assert(rest =~= Seq::empty());
        assert(lines_of_headers(rest) =~= Seq::empty());
        assert(lines_of_headers(headers.drop_last()) =~= Seq::empty());
        assert(Seq::<u8>::empty() + line_of_header(headers[0]) =~= line_of_header(headers[0])
            + Seq::<u8>::empty());
    } else {
        lemma_lines_of_headers_front(headers.drop_last());
        assert(headers.drop_last().drop_first() =~= rest.drop_last());
        assert(headers.drop_last()[0] == headers[0]);
        assert(rest.last() == headers.last());
        assert(lines_of_headers(rest) == lines_of_headers(rest.drop_last()) + line_of_header(
            rest.last(),
        ));
        assert((line_of_header(headers[0]) + lines_of_headers(rest.drop_last())) + line_of_header(
            headers.last(),
        ) =~= line_of_header(headers[0]) + (lines_of_headers(rest.drop_last()) + line_of_header(
            rest.last(),
        )));
    }
}

/// The line that is written for a field is read as that field.
pub proof fn lemma_written_line_is_read(h: HeaderView)
    requires
        is_field(h),
    ensures
        header_of_line(h.name + seq![COLON, SP] + h.value) == Some(h),
{
    let line = h.name + seq![COLON, SP] + h.value;
    let colon = h.name.len() as int;
    assert forall|k: int| 0 <= k < colon implies line[k] != COLON by {
        assert(in_class(ByteClass::Token, h.name[k]));
    }
    lemma_find_byte_at(line, COLON, 0, colon);
    assert(line.subrange(0, colon) =~= h.name);
    let tail = line.subrange(colon + 1, line.len() as int);
    assert(tail =~= seq![SP] + h.value);
    assert(tail.drop_first() =~= h.value);
    assert(trim_start(tail) == trim_start(h.value));
}

/// Whatever is read from a header line is a field.
pub proof fn lemma_read_line_is_field(line: Seq<u8>)
    ensures
        header_of_line(line) matches Some(h) ==> is_field(h),
{
    match find_byte(line, COLON, 0) {
        Some(colon) => {
            lemma_trim_is_trimmed(line.subrange(colon + 1, line.len() as int));
        },
        None => {},
    }
}

} // verus!
