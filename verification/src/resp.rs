//! The RESP wire codec: a cursor-based parser from bytes to protocol
//! values, and the serializer back to bytes.
//!
//! Every parsing step is specified against a mathematical parser over the
//! byte sequence (`spec_parse_value` and its helpers), so the exact cursor
//! movement and error of each input is pinned down.

use crate::resp_result::{RESPError, RESPLength, RESPResult};
use crate::text::{dec_bytes, int_body, int_text_val, valid_int_text};
use vstd::prelude::*;
use vstd::slice::{slice_index_get, slice_subrange, slice_to_vec};
use vstd::string::StrSliceExecFns;
use vstd::utf8::{decode_utf8, encode_scalar, encode_utf8, valid_utf8};

verus! {

broadcast use vstd::std_specs::vec::group_vec_axioms;

/// A protocol value of the wire format.
#[derive(Debug, PartialEq)]
pub enum RESP {
    Array(Vec<RESP>),
    BulkString(String),
    Null,
    SimpleString(String),
}

/// The mathematical shape of a protocol value: arrays as sequences, text as
/// character sequences.
pub enum RespData {
    Array(Seq<RespData>),
    BulkString(Seq<char>),
    Null,
    SimpleString(Seq<char>),
}

impl DeepView for RESP {
    type V = RespData;

    open spec fn deep_view(&self) -> RespData
        decreases self,
    {
        match self {
            RESP::Array(items) => RespData::Array(seq_deep_view(items@)),
            RESP::BulkString(s) => RespData::BulkString(s@),
            RESP::Null => RespData::Null,
            RESP::SimpleString(s) => RespData::SimpleString(s@),
        }
    }
}

/// The element-wise view of a sequence of protocol values.
pub open spec fn seq_deep_view(items: Seq<RESP>) -> Seq<RespData>
    decreases items,
{
    if items.len() == 0 {
        Seq::empty()
    } else {
        seq![items[0].deep_view()] + seq_deep_view(items.drop_first())
    }
}

/// `seq_deep_view` maps the view over the sequence, element by element.
pub proof fn lemma_seq_deep_view(items: Seq<RESP>)
    ensures
        seq_deep_view(items).len() == items.len(),
        forall|i: int| 0 <= i < items.len() ==> seq_deep_view(items)[i] == items[i].deep_view(),
    decreases items.len(),
{
    if items.len() > 0 {
        lemma_seq_deep_view(items.drop_first());
        assert forall|i: int| 0 <= i < items.len() implies seq_deep_view(items)[i] == items[
            i
        ].deep_view() by {
            if i > 0 {
                assert(seq_deep_view(items) == seq![items[0].deep_view()] + seq_deep_view(
                    items.drop_first(),
                ));
                assert(seq![items[0].deep_view()].len() == 1);
                assert(seq_deep_view(items)[i] == seq_deep_view(items.drop_first())[i - 1]);
                assert(items.drop_first()[i - 1] == items[i]);
            }
        }
    }
}

// --- the specification-level parser ---

/// The position of the first `\n` at or after `k` that directly follows a
/// `\r`, if any.
pub open spec fn spec_find_crlf(buffer: Seq<u8>, k: int) -> Option<int>
    decreases buffer.len() - k,
{
    if k >= buffer.len() {
        None
    } else if buffer[k] == 10u8 && buffer[k - 1] == 13u8 {
        Some(k)
    } else {
        spec_find_crlf(buffer, k + 1)
    }
}

/// Reading a line at cursor `i`: the bytes strictly before the terminating
/// `\r\n`, and the cursor moved past the `\n`. On failure the cursor is
/// moved to where the scan gave up.
pub open spec fn spec_take_line(buffer: Seq<u8>, i: int) -> Result<(Seq<u8>, int), (
    RESPError,
    int,
)> {
    if i >= buffer.len() {
        Err((RESPError::OutOfBounds(i as usize), i))
    } else if buffer.len() - i < 2 {
        Err((RESPError::OutOfBounds(buffer.len() as usize), buffer.len() as int))
    } else {
        match spec_find_crlf(buffer, i + 1) {
            Some(k) => Ok((buffer.subrange(i, k - 1), k + 1)),
            None => Err((RESPError::OutOfBounds(buffer.len() as usize), buffer.len() as int)),
        }
    }
}

/// Reading a line and decoding it as UTF-8 text.
pub open spec fn spec_take_line_text(buffer: Seq<u8>, i: int) -> Result<(Seq<char>, int), (
    RESPError,
    int,
)> {
    match spec_take_line(buffer, i) {
        Err(e) => Err(e),
        Ok((line, j)) => if valid_utf8(line) {
            Ok((decode_utf8(line), j))
        } else {
            Err((RESPError::FromUtf8, j))
        },
    }
}

/// Reading a line and interpreting it as a signed length.
pub open spec fn spec_take_length(buffer: Seq<u8>, i: int) -> Result<(int, int), (
    RESPError,
    int,
)> {
    match spec_take_line_text(buffer, i) {
        Err(e) => Err(e),
        Ok((text, j)) => if valid_int_text(text) && i64::MIN <= int_text_val(text) <= i64::MAX {
            Ok((int_text_val(text), j))
        } else {
            Err((RESPError::ParseInt, j))
        },
    }
}

/// Reading exactly `length` raw bytes at cursor `i`.
pub open spec fn spec_take_bytes(buffer: Seq<u8>, i: int, length: int) -> Result<(Seq<u8>, int), (
    RESPError,
    int,
)> {
    if i + length > buffer.len() {
        Err((RESPError::OutOfBounds(buffer.len() as usize), i))
    } else {
        Ok((buffer.subrange(i, i + length), i + length))
    }
}

/// Parsing a simple string at `i`: the `+` tag, then one line of text.
pub open spec fn spec_parse_simple(buffer: Seq<u8>, i: int) -> Result<(RespData, int), (
    RESPError,
    int,
)> {
    if i >= buffer.len() || buffer[i] != 43u8 {
        Err((RESPError::WrongType, i))
    } else {
        match spec_take_line_text(buffer, i + 1) {
            Err(e) => Err(e),
            Ok((text, j)) => Ok((RespData::SimpleString(text), j)),
        }
    }
}

/// Parsing a bulk string at `i`: the `$` tag, a signed length line, then
/// either the null sentinel, or that many raw bytes and a two-byte
/// terminator that is stepped over without being inspected.
pub open spec fn spec_parse_bulk(buffer: Seq<u8>, i: int) -> Result<(RespData, int), (
    RESPError,
    int,
)> {
    if i >= buffer.len() || buffer[i] != 36u8 {
        Err((RESPError::WrongType, i))
    } else {
        match spec_take_length(buffer, i + 1) {
            Err(e) => Err(e),
            Ok((n, j)) => if n == -1 {
                Ok((RespData::Null, j))
            } else if n < -1 {
                Err((RESPError::IncorrectLength(n as i64), j))
            } else {
                match spec_take_bytes(buffer, j, n) {
                    Err(e) => Err(e),
                    Ok((bs, j2)) => if valid_utf8(bs) {
                        Ok((RespData::BulkString(decode_utf8(bs)), j2 + 2))
                    } else {
                        Err((RESPError::FromUtf8, j2))
                    },
                }
            },
        }
    }
}

/// Parsing any value at `i`, dispatching on the tag byte; an unknown tag or
/// the end of the buffer fails with `Unknown` and leaves the cursor alone.
pub open spec fn spec_parse_value(buffer: Seq<u8>, i: int) -> Result<(RespData, int), (
    RESPError,
    int,
)>
    decreases buffer.len() - i, 1int, 0int,
{
    if i >= buffer.len() {
        Err((RESPError::Unknown, i))
    } else if buffer[i] == 43u8 {
        spec_parse_simple(buffer, i)
    } else if buffer[i] == 36u8 {
        spec_parse_bulk(buffer, i)
    } else if buffer[i] == 42u8 {
        spec_parse_array(buffer, i)
    } else {
        Err((RESPError::Unknown, i))
    }
}

/// Parsing an array at `i`: the `*` tag, a signed count line, then exactly
/// that many values back to back.
pub open spec fn spec_parse_array(buffer: Seq<u8>, i: int) -> Result<(RespData, int), (
    RESPError,
    int,
)>
    decreases buffer.len() - i, 0int, 0int,
{
    if i >= buffer.len() || buffer[i] != 42u8 {
        Err((RESPError::WrongType, i))
    } else {
        match spec_take_length(buffer, i + 1) {
            Err(e) => Err(e),
            Ok((n, j)) => if n < 0 {
                Err((RESPError::IncorrectLength(n as i64), j))
            } else if j <= i || j > buffer.len() {
                // a length line always lands forward of `i` and inside the
                // buffer; never taken
                Err((RESPError::Unknown, j))
            } else {
                match spec_parse_elems(buffer, j, n) {
                    Err(e) => Err(e),
                    Ok((items, j2)) => Ok((RespData::Array(items), j2)),
                }
            },
        }
    }
}

/// Parsing `n` values back to back starting at `j`.
pub open spec fn spec_parse_elems(buffer: Seq<u8>, j: int, n: int) -> Result<
    (Seq<RespData>, int),
    (RESPError, int),
>
    decreases buffer.len() - j, 2int, n,
{
    if n <= 0 {
        Ok((Seq::empty(), j))
    } else {
        match spec_parse_value(buffer, j) {
            Err(e) => Err(e),
            Ok((v, j2)) => if j2 < j {
                // a value parse never moves the cursor backwards; never taken
                Err((RESPError::Unknown, j))
            } else if j2 > buffer.len() {
                // the cursor may overshoot the end by a skipped bulk-string
                // terminator; any further element then fails at once
                if n - 1 <= 0 {
                    Ok((seq![v] + Seq::empty(), j2))
                } else {
                    Err((RESPError::Unknown, j2))
                }
            } else {
                match spec_parse_elems(buffer, j2, n - 1) {
                    Err(e) => Err(e),
                    Ok((vs, j3)) => Ok((seq![v] + vs, j3)),
                }
            },
        }
    }
}

// --- bounds of the specification parser ---

/// A successful scan lands at or after its start and inside the buffer.
pub proof fn lemma_find_crlf_bounds(buffer: Seq<u8>, k0: int)
    ensures
        spec_find_crlf(buffer, k0) matches Some(k) ==> k0 <= k < buffer.len(),
    decreases buffer.len() - k0,
{
    if k0 >= buffer.len() {
    } else if buffer[k0] == 10u8 && buffer[k0 - 1] == 13u8 {
    } else {
        lemma_find_crlf_bounds(buffer, k0 + 1);
    }
}

/// A successfully taken line moves the cursor forward by at least its two
/// terminator bytes, and never past the end of the buffer.
pub proof fn lemma_take_line_bounds(buffer: Seq<u8>, i: int)
    ensures
        spec_take_line(buffer, i) matches Ok((line, j)) ==> i + 2 <= j <= buffer.len() && line
            == buffer.subrange(i, j - 2),
{
    lemma_find_crlf_bounds(buffer, i + 1);
}

/// A successfully read length line moves the cursor forward, and never past
/// the end of the buffer.
pub proof fn lemma_take_length_bounds(buffer: Seq<u8>, i: int)
    ensures
        spec_take_length(buffer, i) matches Ok((n, j)) ==> i + 2 <= j <= buffer.len(),
{
    lemma_take_line_bounds(buffer, i);
}

/// Cursor monotonicity: every successful parse strictly advances the
/// cursor, by exactly the bytes consumed (the new position is pinned by
/// `spec_parse_value`, terminators included); a run of element parses
/// never moves it backwards.
pub proof fn lemma_parse_value_advances(buffer: Seq<u8>, i: int)
    ensures
        spec_parse_value(buffer, i) matches Ok((v, j)) ==> i < j,
    decreases buffer.len() - i, 1int, 0int,
{
    if i < buffer.len() && buffer[i] == 43u8 {
        lemma_take_line_bounds(buffer, i + 1);
    } else if i < buffer.len() && buffer[i] == 36u8 {
        lemma_take_length_bounds(buffer, i + 1);
    } else if i < buffer.len() && buffer[i] == 42u8 {
        lemma_take_length_bounds(buffer, i + 1);
        match spec_take_length(buffer, i + 1) {
            Ok((n, j)) => {
                if n >= 0 && j > i && j <= buffer.len() {
                    lemma_parse_elems_advances(buffer, j, n);
                }
            },
            _ => {},
        }
    }
}

/// See [`lemma_parse_value_advances`].
pub proof fn lemma_parse_elems_advances(buffer: Seq<u8>, j: int, n: int)
    ensures
        spec_parse_elems(buffer, j, n) matches Ok((vs, j3)) ==> j <= j3,
    decreases buffer.len() - j, 2int, n,
{
    if n > 0 {
        lemma_parse_value_advances(buffer, j);
        match spec_parse_value(buffer, j) {
            Ok((v, j2)) => {
                if j <= j2 <= buffer.len() {
                    lemma_parse_elems_advances(buffer, j2, n - 1);
                }
            },
            _ => {},
        }
    }
}

/// A successful parse leaves the cursor at most two bytes past the end of
/// the buffer (a skipped bulk-string terminator may overshoot).
pub proof fn lemma_parse_value_upper(buffer: Seq<u8>, i: int)
    ensures
        spec_parse_value(buffer, i) matches Ok((v, j)) ==> j <= buffer.len() + 2,
    decreases buffer.len() - i, 1int, 0int,
{
    if i < buffer.len() && buffer[i] == 43u8 {
        lemma_take_line_bounds(buffer, i + 1);
    } else if i < buffer.len() && buffer[i] == 36u8 {
        lemma_take_length_bounds(buffer, i + 1);
    } else if i < buffer.len() && buffer[i] == 42u8 {
        lemma_take_length_bounds(buffer, i + 1);
        match spec_take_length(buffer, i + 1) {
            Ok((n, j)) => {
                if n >= 0 && j > i && j <= buffer.len() {
                    lemma_parse_elems_upper(buffer, j, n);
                }
            },
            _ => {},
        }
    }
}

/// See [`lemma_parse_value_upper`].
pub proof fn lemma_parse_elems_upper(buffer: Seq<u8>, j: int, n: int)
    requires
        j <= buffer.len() + 2,
    ensures
        spec_parse_elems(buffer, j, n) matches Ok((vs, j3)) ==> j3 <= buffer.len() + 2,
    decreases buffer.len() - j, 2int, n,
{
    if n > 0 {
        lemma_parse_value_upper(buffer, j);
        match spec_parse_value(buffer, j) {
            Ok((v, j2)) => {
                if j <= j2 <= buffer.len() {
                    lemma_parse_elems_upper(buffer, j2, n - 1);
                }
            },
            _ => {},
        }
    }
}

/// Pushing one value onto a sequence extends its element-wise view by that
/// value's view.
pub proof fn lemma_seq_deep_view_push(items: Seq<RESP>, x: RESP)
    ensures
        seq_deep_view(items.push(x)) == seq_deep_view(items) + seq![x.deep_view()],
{
    lemma_seq_deep_view(items.push(x));
    lemma_seq_deep_view(items);
    assert(seq_deep_view(items.push(x)) =~= seq_deep_view(items) + seq![x.deep_view()]);
}

// --- extraction primitives ---

/// Copies `length` bytes out of `buffer` at the cursor, advancing it.
pub fn binary_extract_bytes(buffer: &[u8], index: &mut usize, length: usize) -> (r: RESPResult<
    Vec<u8>,
>)
    ensures
        ({
            let step = spec_take_bytes(buffer@, *old(index) as int, length as int);
            match r {
                Ok(v) => step matches Ok((bs, j)) && v@ == bs && *final(index) == j,
                Err(e) => step matches Err((e2, j)) && e == e2 && *final(index) == j,
            }
        }),
{
    if *index > buffer.len() || length > buffer.len() - *index {
        return Err(RESPError::OutOfBounds(buffer.len()));
    }
    let output = slice_to_vec(slice_subrange(buffer, *index, *index + length));
    *index = *index + length;
    Ok(output)
}

/// Scans for the first `\r\n` and returns the bytes strictly before it,
/// advancing the cursor past the `\n`; on failure the cursor marks where
/// the scan gave up.
pub fn binary_extract_line(buffer: &[u8], index: &mut usize) -> (r: RESPResult<Vec<u8>>)
    ensures
        ({
            let step = spec_take_line(buffer@, *old(index) as int);
            match r {
                Ok(v) => step matches Ok((bs, j)) && v@ == bs && *final(index) == j,
                Err(e) => step matches Err((e2, j)) && e == e2 && *final(index) == j,
            }
        }),
{
    if *index >= buffer.len() {
        return Err(RESPError::OutOfBounds(*index));
    }
    if buffer.len() - *index < 2 {
        *index = buffer.len();
        return Err(RESPError::OutOfBounds(buffer.len()));
    }
    let start = *index;
    let mut k: usize = start + 1;
    let mut found: bool = false;
    while k < buffer.len()
        invariant_except_break
            start + 1 <= k,
            k <= buffer@.len(),
            !found,
            spec_find_crlf(buffer@, start + 1) == spec_find_crlf(buffer@, k as int),
        ensures
            found ==> start + 1 <= k < buffer@.len() && spec_find_crlf(buffer@, start + 1)
                == Some(k as int),
            !found ==> spec_find_crlf(buffer@, start + 1) is None,
        decreases buffer@.len() - k,
    {
        if *slice_index_get(buffer, k) == 10 && *slice_index_get(buffer, k - 1) == 13 {
            found = true;
            break;
        }
        k = k + 1;
    }
    if !found {
        *index = buffer.len();
        return Err(RESPError::OutOfBounds(buffer.len()));
    }
    let output = slice_to_vec(slice_subrange(buffer, start, k - 1));
    *index = k + 1;
    Ok(output)
}

/// Relies on `String::from_utf8`: it returns `Ok` exactly on valid UTF-8
/// input and decodes it to the characters the bytes encode; the function is
/// documented as the inverse of `String::into_bytes`.
#[verifier::external_body]
fn string_from_utf8(bytes: Vec<u8>) -> (r: Option<String>)
    ensures
        match r {
            Some(s) => valid_utf8(bytes@) && s@ == decode_utf8(bytes@),
            None => !valid_utf8(bytes@),
        },
{
    String::from_utf8(bytes).ok()
}

/// Extracts a line and decodes it as UTF-8 text.
pub fn binary_extract_line_as_string(buffer: &[u8], index: &mut usize) -> (r: RESPResult<String>)
    ensures
        ({
            let step = spec_take_line_text(buffer@, *old(index) as int);
            match r {
                Ok(s) => step matches Ok((text, j)) && s@ == text && *final(index) == j,
                Err(e) => step matches Err((e2, j)) && e == e2 && *final(index) == j,
            }
        }),
{
    let line = binary_extract_line(buffer, index)?;
    match string_from_utf8(line) {
        Some(s) => Ok(s),
        None => Err(RESPError::FromUtf8),
    }
}

/// Checks that the byte at the cursor is the given type tag and steps over
/// it; on a mismatch the cursor does not move.
pub fn resp_remove_type(value: char, buffer: &[u8], index: &mut usize) -> (r: RESPResult<()>)
    ensures
        ({
            let i = *old(index) as int;
            match r {
                Ok(_) => i < buffer@.len() && buffer@[i] == value as u8 && *final(index) == i + 1,
                Err(e) => (i >= buffer@.len() || buffer@[i] != value as u8) && e
                    == RESPError::WrongType && *final(index) == i,
            }
        }),
{
    if *index >= buffer.len() {
        return Err(RESPError::WrongType);
    }
    if *slice_index_get(buffer, *index) != value as u8 {
        return Err(RESPError::WrongType);
    }
    *index = *index + 1;
    Ok(())
}

/// Extracts a line and reads it as a signed decimal length.
pub fn resp_extract_length(buffer: &[u8], index: &mut usize) -> (r: RESPResult<RESPLength>)
    ensures
        ({
            let step = spec_take_length(buffer@, *old(index) as int);
            match r {
                Ok(n) => step matches Ok((v, j)) && n == v && *final(index) == j,
                Err(e) => step matches Err((e2, j)) && e == e2 && *final(index) == j,
            }
        }),
{
    let line = binary_extract_line_as_string(buffer, index)?;
    match crate::text::parse_i64_str(line.as_str()) {
        Some(n) => Ok(n),
        None => Err(RESPError::ParseInt),
    }
}

// --- the serializer ---

/// The wire bytes of a protocol value, the exact inverse textual form of
/// the parser.
pub open spec fn spec_serialize(v: RespData) -> Seq<u8>
    decreases v,
{
    match v {
        RespData::SimpleString(s) => seq![43u8] + encode_utf8(s) + seq![13u8, 10u8],
        RespData::Null => seq![36u8, 45u8, 49u8, 13u8, 10u8],
        RespData::BulkString(s) => seq![36u8] + dec_bytes(encode_utf8(s).len()) + seq![13u8, 10u8]
            + encode_utf8(s) + seq![13u8, 10u8],
        RespData::Array(items) => seq![42u8] + dec_bytes(items.len()) + seq![13u8, 10u8]
            + spec_serialize_items(items),
    }
}

/// The concatenated wire bytes of a run of protocol values.
pub open spec fn spec_serialize_items(items: Seq<RespData>) -> Seq<u8>
    decreases items,
{
    if items.len() == 0 {
        Seq::empty()
    } else {
        spec_serialize(items[0]) + spec_serialize_items(items.drop_first())
    }
}

/// Serializing one more value appends its bytes.
pub proof fn lemma_serialize_items_push(items: Seq<RespData>, x: RespData)
    ensures
        spec_serialize_items(items.push(x)) == spec_serialize_items(items) + spec_serialize(x),
    decreases items.len(),
{
    if items.len() == 0 {
        assert(items.push(x).drop_first() =~= Seq::<RespData>::empty());
        assert(items.push(x)[0] == x);
        assert(spec_serialize_items(items.push(x)) == spec_serialize(x) + spec_serialize_items(
            Seq::<RespData>::empty(),
        ));
        assert(spec_serialize_items(Seq::<RespData>::empty()) == Seq::<u8>::empty());
        assert(items =~= Seq::<RespData>::empty());
        assert(spec_serialize_items(items.push(x)) =~= spec_serialize_items(items)
            + spec_serialize(x));
    } else {
        assert(items.push(x).drop_first() =~= items.drop_first().push(x));
        lemma_serialize_items_push(items.drop_first(), x);
        assert(items.push(x)[0] == items[0]);
        assert(spec_serialize_items(items.push(x)) == spec_serialize(items[0])
            + spec_serialize_items(items.drop_first().push(x)));
        assert(spec_serialize_items(items.push(x)) =~= spec_serialize_items(items)
            + spec_serialize(x));
    }
}

impl RESP {
    /// Appends the wire form of this value to `out`.
    #[verifier::loop_isolation(false)]
    pub fn serialize_into(&self, out: &mut Vec<u8>)
        ensures
            final(out)@ == old(out)@ + spec_serialize(self.deep_view()),
        decreases self,
    {
        match self {
            RESP::SimpleString(s) => {
                out.push(43);
                let mut bs = s.as_str().as_bytes_vec();
                out.append(&mut bs);
                out.push(13);
                out.push(10);
                proof {
                    assert(final(out)@ =~= old(out)@ + spec_serialize(self.deep_view()));
                }
            },
            RESP::Null => {
                out.push(36);
                out.push(45);
                out.push(49);
                out.push(13);
                out.push(10);
                proof {
                    assert(final(out)@ =~= old(out)@ + spec_serialize(self.deep_view()));
                }
            },
            RESP::BulkString(s) => {
                out.push(36);
                let mut bs = s.as_str().as_bytes_vec();
                crate::text::push_decimal(bs.len(), out);
                out.push(13);
                out.push(10);
                out.append(&mut bs);
                out.push(13);
                out.push(10);
                proof {
                    assert(final(out)@ =~= old(out)@ + spec_serialize(self.deep_view()));
                }
            },
            RESP::Array(items) => {
                out.push(42);
                crate::text::push_decimal(items.len(), out);
                out.push(13);
                out.push(10);
                let ghost header = old(out)@ + seq![42u8] + dec_bytes(items@.len()) + seq![
                    13u8,
                    10u8,
                ];
                proof {
                    lemma_seq_deep_view(items@);
                    assert(out@ =~= header);
                }
                let count = items.len();
                let mut i: usize = 0;
                while i < count
                    invariant
                        i <= count,
                        count == items@.len(),
                        seq_deep_view(items@).len() == items@.len(),
                        forall|k: int|
                            0 <= k < items@.len() ==> seq_deep_view(items@)[k] == items@[
                                k
                            ].deep_view(),
                        out@ == header + spec_serialize_items(seq_deep_view(items@).take(i as int)),
                    decreases count - i,
                {
                    let elem = &items[i];
                    proof {
                        assert(decreases_to!(*self => self->Array_0));
                        assert(decreases_to!(self->Array_0 => self->Array_0@[i as int]));
                        assert(decreases_to!(*self => items@[i as int]));
                    }
                    elem.serialize_into(out);
                    proof {
                        assert(seq_deep_view(items@).take(i + 1) =~= seq_deep_view(
                            items@,
                        ).take(i as int).push(items@[i as int].deep_view()));
                        lemma_serialize_items_push(
                            seq_deep_view(items@).take(i as int),
                            items@[i as int].deep_view(),
                        );
                        assert(out@ =~= header + spec_serialize_items(
                            seq_deep_view(items@).take(i + 1),
                        ));
                    }
                    i = i + 1;
                }
                proof {
                    assert(seq_deep_view(items@).take(count as int) =~= seq_deep_view(items@));
                    assert(final(out)@ =~= old(out)@ + spec_serialize(self.deep_view()));
                }
            },
        }
    }

    /// The wire form of this value.
    pub fn serialize(&self) -> (out: Vec<u8>)
        ensures
            out@ == spec_serialize(self.deep_view()),
    {
        let mut out: Vec<u8> = Vec::new();
        self.serialize_into(&mut out);
        out
    }
}

// --- the round trip from a value to bytes and back ---

/// A value whose wire form parses back to itself: simple strings carry no
/// control characters (the data model forbids them), and declared lengths
/// fit the signed length type.
pub open spec fn resp_wf(v: RespData) -> bool
    decreases v,
{
    match v {
        RespData::SimpleString(s) => forall|i: int|
            0 <= i < s.len() ==> #[trigger] s[i] != '\r' && s[i] != '\n',
        RespData::BulkString(s) => encode_utf8(s).len() <= i64::MAX,
        RespData::Null => true,
        RespData::Array(items) => items.len() <= i64::MAX && resp_wf_items(items),
    }
}

/// See [`resp_wf`].
pub open spec fn resp_wf_items(items: Seq<RespData>) -> bool
    decreases items,
{
    items.len() == 0 || (resp_wf(items[0]) && resp_wf_items(items.drop_first()))
}

/// When the bytes in `[k0, k)` hold no `\n` and a `\r\n` ends at `k`, the
/// scan finds exactly `k`.
proof fn lemma_find_crlf_exact(buffer: Seq<u8>, k0: int, k: int)
    requires
        0 <= k0 <= k < buffer.len(),
        forall|m: int| k0 <= m < k ==> #[trigger] buffer[m] != 10u8,
        buffer[k] == 10u8,
        buffer[k - 1] == 13u8,
    ensures
        spec_find_crlf(buffer, k0) == Some(k),
    decreases k - k0,
{
    if k0 < k {
        lemma_find_crlf_exact(buffer, k0 + 1, k);
    }
}

/// Taking a line over known content: the content comes back and the cursor
/// lands just past the terminator.
proof fn lemma_take_line_exact(buffer: Seq<u8>, i: int, content: Seq<u8>)
    requires
        0 <= i,
        i + content.len() + 2 <= buffer.len(),
        buffer.subrange(i, i + content.len()) == content,
        buffer[i + content.len()] == 13u8,
        buffer[i + content.len() + 1] == 10u8,
        forall|m: int| 0 <= m < content.len() ==> #[trigger] content[m] != 10u8,
    ensures
        spec_take_line(buffer, i) == Ok::<(Seq<u8>, int), (RESPError, int)>(
            (content, i + content.len() + 2),
        ),
{
    let k = i + content.len() + 1;
    assert forall|m: int| i + 1 <= m < k implies #[trigger] buffer[m] != 10u8 by {
        if m < i + content.len() {
            assert(buffer[m] == content[m - i]);
        }
    }
    lemma_find_crlf_exact(buffer, i + 1, k);
    assert(buffer.subrange(i, k - 1) =~= content);
}

/// The UTF-8 encoding of a character other than `\r` and `\n` holds
/// neither a `\r` byte nor a `\n` byte.
proof fn lemma_encode_scalar_no_crlf(c: char)
    requires
        c != '\r',
        c != '\n',
    ensures
        forall|m: int|
            0 <= m < encode_scalar(c as u32).len() ==> #[trigger] encode_scalar(c as u32)[m]
                != 10u8 && encode_scalar(c as u32)[m] != 13u8,
{
    let sc = c as u32;
    vstd::utf8::char_is_scalar(c);
    if vstd::utf8::has_width_1_encoding(sc) {
        assert((sc & 0x7F) == sc) by (bit_vector)
            requires
                sc <= 0x7F,
        ;
        if sc == 10 {
            vstd::utf8::char_u32_cast(c, sc);
            vstd::utf8::char_u32_cast('\n', 10);
            assert(false);
        }
        if sc == 13 {
            vstd::utf8::char_u32_cast(c, sc);
            vstd::utf8::char_u32_cast('\r', 13);
            assert(false);
        }
    } else {
        let b2 = ((sc >> 6) & 0x1F) as u8;
        let b3 = ((sc >> 12) & 0x0F) as u8;
        let b4 = ((sc >> 18) & 0x7) as u8;
        let c1 = (sc & 0x3F) as u8;
        let c2 = ((sc >> 6) & 0x3F) as u8;
        let c3 = ((sc >> 12) & 0x3F) as u8;
        assert(0xC0u8 | b2 >= 0x80u8) by (bit_vector);
        assert(0xE0u8 | b3 >= 0x80u8) by (bit_vector);
        assert(0xF0u8 | b4 >= 0x80u8) by (bit_vector);
        assert(0x80u8 | c1 >= 0x80u8) by (bit_vector);
        assert(0x80u8 | c2 >= 0x80u8) by (bit_vector);
        assert(0x80u8 | c3 >= 0x80u8) by (bit_vector);
    }
}

/// The UTF-8 encoding of text free of `\r` and `\n` holds neither byte.
proof fn lemma_encode_no_crlf(s: Seq<char>)
    requires
        forall|i: int| 0 <= i < s.len() ==> #[trigger] s[i] != '\r' && s[i] != '\n',
    ensures
        forall|m: int|
            0 <= m < encode_utf8(s).len() ==> #[trigger] encode_utf8(s)[m] != 10u8 && encode_utf8(
                s,
            )[m] != 13u8,
    decreases s.len(),
{
    if s.len() > 0 {
        lemma_encode_scalar_no_crlf(s[0]);
        lemma_encode_no_crlf(s.drop_first());
        let head = encode_scalar(s[0] as u32);
        let tail = encode_utf8(s.drop_first());
        assert forall|m: int|
            0 <= m < encode_utf8(s).len() implies #[trigger] encode_utf8(s)[m] != 10u8
            && encode_utf8(s)[m] != 13u8 by {
            assert(encode_utf8(s) == head + tail);
            if m < head.len() {
                assert(encode_utf8(s)[m] == head[m]);
            } else {
                assert(encode_utf8(s)[m] == tail[m - head.len()]);
            }
        }
    }
}

/// A serialized well-formed value, placed anywhere in a buffer, parses
/// back to exactly that value, with the cursor landing right past its
/// bytes.
pub proof fn lemma_parse_serialized(v: RespData, buffer: Seq<u8>, i: int)
    requires
        resp_wf(v),
        0 <= i,
        i + spec_serialize(v).len() <= buffer.len(),
        buffer.subrange(i, i + spec_serialize(v).len() as int) == spec_serialize(v),
    ensures
        spec_parse_value(buffer, i) == Ok::<(RespData, int), (RESPError, int)>(
            (v, i + spec_serialize(v).len()),
        ),
    decreases v,
{
    let ser = spec_serialize(v);
    assert forall|x: int| 0 <= x < ser.len() implies buffer[i + x] == ser[x] by {
        assert(buffer.subrange(i, i + ser.len() as int)[x] == buffer[i + x]);
    }
    match v {
        RespData::SimpleString(s) => {
            let sb = encode_utf8(s);
            assert(ser == seq![43u8] + sb + seq![13u8, 10u8]);
            assert(seq![43u8].len() == 1);
            assert(ser.len() == 1 + sb.len() + 2);
            assert(buffer[i] == 43u8) by {
                assert(ser[0] == 43u8);
            }
            lemma_encode_no_crlf(s);
            assert(buffer.subrange(i + 1, i + 1 + sb.len()) =~= sb) by {
                assert forall|x: int| 0 <= x < sb.len() implies buffer[i + 1 + x] == sb[x] by {
                    assert(ser[1 + x] == sb[x]);
                }
            }
            assert(buffer[i + 1 + sb.len()] == 13u8) by {
                assert(ser[1 + sb.len() as int] == 13u8);
            }
            assert(buffer[i + 1 + sb.len() + 1] == 10u8) by {
                assert(ser[1 + sb.len() as int + 1] == 10u8);
            }
            lemma_take_line_exact(buffer, i + 1, sb);
            vstd::utf8::encode_utf8_valid_utf8(s);
            vstd::utf8::encode_utf8_decode_utf8(s);
        },
        RespData::Null => {
            assert(ser == seq![36u8, 45u8, 49u8, 13u8, 10u8]);
            assert(buffer[i] == 36u8) by {
                assert(ser[0] == 36u8);
            }
            assert(buffer[i + 1] == 45u8) by {
                assert(ser[1] == 45u8);
            }
            assert(buffer[i + 2] == 49u8) by {
                assert(ser[2] == 49u8);
            }
            assert(buffer[i + 3] == 13u8) by {
                assert(ser[3] == 13u8);
            }
            assert(buffer[i + 4] == 10u8) by {
                assert(ser[4] == 10u8);
            }
            let content = seq![45u8, 49u8];
            assert(buffer.subrange(i + 1, i + 3) =~= content);
            lemma_take_line_exact(buffer, i + 1, content);
            let cs = seq!['-', '1'];
            assert(vstd::utf8::is_ascii_chars(cs));
            vstd::utf8::is_ascii_chars_encode_utf8(cs);
            assert(encode_utf8(cs) =~= content);
            vstd::utf8::encode_utf8_valid_utf8(cs);
            vstd::utf8::encode_utf8_decode_utf8(cs);
            assert(int_body(cs) =~= seq!['1']);
            assert(seq!['1'].drop_last() =~= Seq::<char>::empty());
            assert(crate::text::digits_val(Seq::<char>::empty()) == 0);
            assert(crate::text::digits_val(seq!['1']) == 1);
            assert(int_text_val(cs) == -1);
            assert(valid_int_text(cs));
        },
        RespData::BulkString(s) => {
            let sb = encode_utf8(s);
            let n = sb.len() as int;
            let db = crate::text::dec_bytes(n as nat);
            let dl = db.len() as int;
            assert(ser == seq![36u8] + db + seq![13u8, 10u8] + sb + seq![13u8, 10u8]);
            crate::text::lemma_dec_bytes_digits(n as nat);
            assert(ser.len() == 1 + dl + 2 + n + 2);
            assert(buffer[i] == 36u8) by {
                assert(ser[0] == 36u8);
            }
            assert(buffer.subrange(i + 1, i + 1 + dl) =~= db) by {
                assert forall|x: int| 0 <= x < dl implies buffer[i + 1 + x] == db[x] by {
                    assert(ser[1 + x] == db[x]);
                }
            }
            assert(buffer[i + 1 + dl] == 13u8) by {
                assert(ser[1 + dl] == 13u8);
            }
            assert(buffer[i + 1 + dl + 1] == 10u8) by {
                assert(ser[1 + dl + 1] == 10u8);
            }
            lemma_take_line_exact(buffer, i + 1, db);
            crate::text::lemma_dec_chars_bytes(n as nat);
            crate::text::lemma_dec_chars_val(n as nat);
            vstd::utf8::encode_utf8_valid_utf8(crate::text::dec_chars(n as nat));
            vstd::utf8::encode_utf8_decode_utf8(crate::text::dec_chars(n as nat));
            let j = i + 1 + dl + 2;
            assert(spec_take_length(buffer, i + 1) == Ok::<(int, int), (RESPError, int)>((n, j)));
            assert(buffer.subrange(j, j + n) =~= sb) by {
                assert forall|x: int| 0 <= x < n implies buffer[j + x] == sb[x] by {
                    assert(ser[1 + dl + 2 + x] == sb[x]);
                }
            }
            vstd::utf8::encode_utf8_valid_utf8(s);
            vstd::utf8::encode_utf8_decode_utf8(s);
            assert(spec_take_bytes(buffer, j, n) == Ok::<(Seq<u8>, int), (RESPError, int)>(
                (buffer.subrange(j, j + n), j + n),
            ));
        },
        RespData::Array(items) => {
            let cnt = items.len() as int;
            let db = crate::text::dec_bytes(cnt as nat);
            let dl = db.len() as int;
            let body = spec_serialize_items(items);
            assert(ser == seq![42u8] + db + seq![13u8, 10u8] + body);
            crate::text::lemma_dec_bytes_digits(cnt as nat);
            assert(ser.len() == 1 + dl + 2 + body.len());
            assert(buffer[i] == 42u8) by {
                assert(ser[0] == 42u8);
            }
            assert(buffer.subrange(i + 1, i + 1 + dl) =~= db) by {
                assert forall|x: int| 0 <= x < dl implies buffer[i + 1 + x] == db[x] by {
                    assert(ser[1 + x] == db[x]);
                }
            }
            assert(buffer[i + 1 + dl] == 13u8) by {
                assert(ser[1 + dl] == 13u8);
            }
            assert(buffer[i + 1 + dl + 1] == 10u8) by {
                assert(ser[1 + dl + 1] == 10u8);
            }
            lemma_take_line_exact(buffer, i + 1, db);
            crate::text::lemma_dec_chars_bytes(cnt as nat);
            crate::text::lemma_dec_chars_val(cnt as nat);
            vstd::utf8::encode_utf8_valid_utf8(crate::text::dec_chars(cnt as nat));
            vstd::utf8::encode_utf8_decode_utf8(crate::text::dec_chars(cnt as nat));
            let j = i + 1 + dl + 2;
            assert(spec_take_length(buffer, i + 1) == Ok::<(int, int), (RESPError, int)>(
                (cnt, j),
            ));
            assert(buffer.subrange(j, j + body.len()) =~= body) by {
                assert forall|x: int| 0 <= x < body.len() implies buffer[j + x] == body[x] by {
                    assert(ser[1 + dl + 2 + x] == body[x]);
                }
            }
            lemma_parse_serialized_items(items, buffer, j);
        },
    }
}

/// See [`lemma_parse_serialized`]: a serialized run of values parses back
/// element by element.
pub proof fn lemma_parse_serialized_items(items: Seq<RespData>, buffer: Seq<u8>, j: int)
    requires
        resp_wf_items(items),
        0 <= j,
        j + spec_serialize_items(items).len() <= buffer.len(),
        buffer.subrange(j, j + spec_serialize_items(items).len() as int) == spec_serialize_items(
            items,
        ),
    ensures
        spec_parse_elems(buffer, j, items.len() as int) == Ok::<(Seq<RespData>, int), (
            RESPError,
            int,
        )>((items, j + spec_serialize_items(items).len())),
    decreases items,
{
    if items.len() == 0 {
        assert(items =~= Seq::<RespData>::empty());
    } else {
        let s0 = spec_serialize(items[0]);
        let rest = spec_serialize_items(items.drop_first());
        let total = spec_serialize_items(items);
        assert(total == s0 + rest);
        assert forall|x: int| 0 <= x < total.len() implies buffer[j + x] == total[x] by {
            assert(buffer.subrange(j, j + total.len() as int)[x] == buffer[j + x]);
        }
        assert(buffer.subrange(j, j + s0.len()) =~= s0) by {
            assert forall|x: int| 0 <= x < s0.len() implies buffer[j + x] == s0[x] by {
                assert(total[x] == s0[x]);
            }
        }
        lemma_parse_serialized(items[0], buffer, j);
        let j2 = j + s0.len();
        assert(buffer.subrange(j2, j2 + rest.len()) =~= rest) by {
            assert forall|x: int| 0 <= x < rest.len() implies buffer[j2 + x] == rest[x] by {
                assert(total[s0.len() + x] == rest[x]);
            }
        }
        lemma_parse_serialized_items(items.drop_first(), buffer, j2);
        assert(seq![items[0]] + items.drop_first() =~= items);
    }
}

/// The round trip: a well-formed protocol value, serialized and parsed
/// again, comes back unchanged, the cursor having moved by exactly its
/// wire length.
pub proof fn lemma_serialize_parse_round_trip(v: RespData)
    requires
        resp_wf(v),
    ensures
        spec_parse_value(spec_serialize(v), 0) == Ok::<(RespData, int), (RESPError, int)>(
            (v, spec_serialize(v).len() as int),
        ),
{
    assert(spec_serialize(v).subrange(0, spec_serialize(v).len() as int) =~= spec_serialize(v));
    lemma_parse_serialized(v, spec_serialize(v), 0);
}

// --- the executable parser ---

/// Parses `+VALUE\r\n` at the cursor into a simple string.
pub fn parse_simple_string(buffer: &[u8], index: &mut usize) -> (r: RESPResult<RESP>)
    ensures
        ({
            let step = spec_parse_simple(buffer@, *old(index) as int);
            match r {
                Ok(v) => step matches Ok((d, j)) && v.deep_view() == d && *final(index) == j,
                Err(e) => step matches Err((e2, j)) && e == e2 && *final(index) == j,
            }
        }),
{
    resp_remove_type('+', buffer, index)?;
    let line = binary_extract_line_as_string(buffer, index)?;
    Ok(RESP::SimpleString(line))
}

/// Parses `$<len>\r\n<data>\r\n` (or the `$-1\r\n` null sentinel) at the
/// cursor into a bulk string.
pub fn parse_bulk_string(buffer: &[u8], index: &mut usize) -> (r: RESPResult<RESP>)
    requires
        buffer@.len() + 2 <= usize::MAX,
    ensures
        ({
            let step = spec_parse_bulk(buffer@, *old(index) as int);
            match r {
                Ok(v) => step matches Ok((d, j)) && v.deep_view() == d && *final(index) == j,
                Err(e) => step matches Err((e2, j)) && e == e2 && *final(index) == j,
            }
        }),
{
    resp_remove_type('$', buffer, index)?;
    let length = resp_extract_length(buffer, index)?;
    if length == -1 {
        return Ok(RESP::Null);
    }
    if length < -1 {
        return Err(RESPError::IncorrectLength(length));
    }
    proof {
        lemma_take_length_bounds(buffer@, *old(index) as int + 1);
    }
    if (length as u64) > (buffer.len() - *index) as u64 {
        return Err(RESPError::OutOfBounds(buffer.len()));
    }
    let bytes = binary_extract_bytes(buffer, index, length as usize)?;
    let data = match string_from_utf8(bytes) {
        Some(s) => s,
        None => {
            return Err(RESPError::FromUtf8);
        },
    };
    *index = *index + 2;
    Ok(RESP::BulkString(data))
}

/// Parses `*<count>\r\n` followed by `count` values at the cursor into an
/// array.
#[verifier::rlimit(30)]
pub fn parse_array(buffer: &[u8], index: &mut usize) -> (r: RESPResult<RESP>)
    requires
        buffer@.len() + 2 <= usize::MAX,
    ensures
        ({
            let step = spec_parse_array(buffer@, *old(index) as int);
            match r {
                Ok(v) => step matches Ok((d, j)) && v.deep_view() == d && *final(index) == j,
                Err(e) => step matches Err((e2, j)) && e == e2 && *final(index) == j,
            }
        }),
    decreases buffer@.len() - *index,
{
    let ghost entry_i = *index as int;
    resp_remove_type('*', buffer, index)?;
    let length = resp_extract_length(buffer, index)?;
    if length < 0 {
        return Err(RESPError::IncorrectLength(length));
    }
    proof {
        lemma_take_length_bounds(buffer@, entry_i + 1);
    }
    let ghost j0 = *index as int;
    let mut data: Vec<RESP> = Vec::new();
    let mut m: i64 = 0;
    while m < length
        invariant
            0 <= m <= length,
            buffer@.len() + 2 <= usize::MAX,
            entry_i == *old(index) as int,
            entry_i < j0 <= buffer@.len(),
            buffer@[entry_i] == 42u8,
            spec_take_length(buffer@, entry_i + 1) == Ok::<(int, int), (RESPError, int)>(
                (length as int, j0),
            ),
            j0 <= *index <= buffer@.len() + 2,
            data@.len() == m,
            ({
                let rest = spec_parse_elems(buffer@, *index as int, length - m);
                let whole = spec_parse_elems(buffer@, j0, length as int);
                match rest {
                    Ok((vs, j3)) => whole == Ok::<(Seq<RespData>, int), (RESPError, int)>(
                        (seq_deep_view(data@) + vs, j3),
                    ),
                    Err(e) => whole == Err::<(Seq<RespData>, int), (RESPError, int)>(e),
                }
            }),
        decreases length - m,
    {
        if *index >= buffer.len() {
            proof {
                let cur = *index as int;
                assert(spec_parse_value(buffer@, cur) == Err::<(RespData, int), (RESPError, int)>(
                    (RESPError::Unknown, cur),
                ));
                assert(spec_parse_elems(buffer@, cur, length - m) == Err::<
                    (Seq<RespData>, int),
                    (RESPError, int),
                >((RESPError::Unknown, cur)));
                assert(spec_parse_array(buffer@, entry_i) == Err::<
                    (RespData, int),
                    (RESPError, int),
                >((RESPError::Unknown, cur)));
            }
            return Err(RESPError::Unknown);
        }
        let ghost cur = *index as int;
        let tag = *slice_index_get(buffer, *index);
        let parsed = if tag == 43 {
            parse_simple_string(buffer, index)
        } else if tag == 36 {
            parse_bulk_string(buffer, index)
        } else if tag == 42 {
            proof {
                assert(buffer@.len() - *index < buffer@.len() - entry_i);
            }
            parse_array(buffer, index)
        } else {
            return Err(RESPError::Unknown);
        };
        let elem = match parsed {
            Ok(v) => v,
            Err(e) => {
                return Err(e);
            },
        };
        let ghost old_data = data@;
        data.push(elem);
        m = m + 1;
        proof {
            lemma_parse_value_advances(buffer@, cur);
            lemma_parse_value_upper(buffer@, cur);
            lemma_seq_deep_view_push(old_data, elem);
            let v = elem.deep_view();
            let j2 = *index as int;
            let nrem = length - m + 1;
            assert(spec_parse_value(buffer@, cur) == Ok::<(RespData, int), (RESPError, int)>(
                (v, j2),
            ));
            assert(cur < j2);
            assert(data@ == old_data.push(elem));
            assert(seq_deep_view(data@) == seq_deep_view(old_data) + seq![v]);
            if j2 > buffer@.len() {
                if nrem - 1 <= 0 {
                    assert(spec_parse_elems(buffer@, cur, nrem) == Ok::<
                        (Seq<RespData>, int),
                        (RESPError, int),
                    >((seq![v] + Seq::empty(), j2)));
                    assert(spec_parse_elems(buffer@, j2, length - m) == Ok::<
                        (Seq<RespData>, int),
                        (RESPError, int),
                    >((Seq::empty(), j2)));
                    assert((seq_deep_view(old_data) + seq![v]) + Seq::<RespData>::empty()
                        =~= seq_deep_view(old_data) + (seq![v] + Seq::<RespData>::empty()));
                } else {
                    assert(spec_parse_elems(buffer@, cur, nrem) == Err::<
                        (Seq<RespData>, int),
                        (RESPError, int),
                    >((RESPError::Unknown, j2)));
                    assert(spec_parse_value(buffer@, j2) == Err::<(RespData, int), (
                        RESPError,
                        int,
                    )>((RESPError::Unknown, j2)));
                    assert(spec_parse_elems(buffer@, j2, length - m) == Err::<
                        (Seq<RespData>, int),
                        (RESPError, int),
                    >((RESPError::Unknown, j2)));
                }
            } else {
                match spec_parse_elems(buffer@, j2, nrem - 1) {
                    Ok((vs, j3)) => {
                        assert(spec_parse_elems(buffer@, cur, nrem) == Ok::<
                            (Seq<RespData>, int),
                            (RESPError, int),
                        >((seq![v] + vs, j3)));
                        assert((seq_deep_view(old_data) + seq![v]) + vs =~= seq_deep_view(old_data)
                            + (seq![v] + vs));
                    },
                    Err(e) => {
                        assert(spec_parse_elems(buffer@, cur, nrem) == Err::<
                            (Seq<RespData>, int),
                            (RESPError, int),
                        >(e));
                    },
                }
            }
        }
    }
    proof {
        assert(seq_deep_view(data@) + Seq::<RespData>::empty() =~= seq_deep_view(data@));
    }
    Ok(RESP::Array(data))
}

/// Parses whichever value begins at the cursor, dispatching on its tag.
pub fn bytes_to_resp(buffer: &[u8], index: &mut usize) -> (r: RESPResult<RESP>)
    requires
        buffer@.len() + 2 <= usize::MAX,
    ensures
        ({
            let step = spec_parse_value(buffer@, *old(index) as int);
            match r {
                Ok(v) => step matches Ok((d, j)) && v.deep_view() == d && *final(index) == j,
                Err(e) => step matches Err((e2, j)) && e == e2 && *final(index) == j,
            }
        }),
{
    if *index >= buffer.len() {
        return Err(RESPError::Unknown);
    }
    let tag = *slice_index_get(buffer, *index);
    if tag == 43 {
        parse_simple_string(buffer, index)
    } else if tag == 36 {
        parse_bulk_string(buffer, index)
    } else if tag == 42 {
        parse_array(buffer, index)
    } else {
        Err(RESPError::Unknown)
    }
}

} // verus!
