//! The RESP wire protocol: the five frame types, a byte-level decoder and
//! encoder, and proofs that decoding inverts encoding and that the encoding
//! is injective.

use vstd::prelude::*;
use crate::bytes::{
    all_digits, dec_rep_int, dec_rep_nat, digits_val, int_line_neg, int_line_val, int_line_wf,
    is_digit, lemma_dec_rep_nat, lemma_int_line_of_dec_rep, lemma_region_byte, lemma_sub_region,
    parse_int_line, render_dec,
};

verus! {

/// One RESP frame, as it travels between client and server.
#[derive(Debug, PartialEq, Eq)]
pub enum RespValue {
    SimpleString(Vec<u8>),
    Error(Vec<u8>),
    Integer(i64),
    BulkString(Option<Vec<u8>>),
    Array(Vec<RespValue>),
}

/// The mathematical shape of a RESP frame.
pub enum RespModel {
    Simple(Seq<u8>),
    Error(Seq<u8>),
    Integer(i64),
    Bulk(Option<Seq<u8>>),
    Array(Seq<RespModel>),
}

/// Abstraction of an executable frame into its model.
pub open spec fn resp_model(v: RespValue) -> RespModel
    decreases v,
{
    match v {
        RespValue::SimpleString(s) => RespModel::Simple(s@),
        RespValue::Error(s) => RespModel::Error(s@),
        RespValue::Integer(i) => RespModel::Integer(i),
        RespValue::BulkString(b) => RespModel::Bulk(
            match b {
                Option::Some(x) => Option::Some(x@),
                Option::None => Option::None,
            },
        ),
        RespValue::Array(items) => RespModel::Array(resp_models(items@)),
    }
}

pub open spec fn resp_models(items: Seq<RespValue>) -> Seq<RespModel>
    decreases items,
{
    if items.len() == 0 {
        Seq::empty()
    } else {
        seq![resp_model(items[0])] + resp_models(items.drop_first())
    }
}

pub proof fn lemma_resp_models_len(items: Seq<RespValue>)
    ensures
        resp_models(items).len() == items.len(),
    decreases items,
{
    if items.len() > 0 {
        lemma_resp_models_len(items.drop_first());
    }
}

pub proof fn lemma_resp_models_push(items: Seq<RespValue>, x: RespValue)
    ensures
        resp_models(items.push(x)) == resp_models(items) + seq![resp_model(x)],
    decreases items,
{
    let p = items.push(x);
    if items.len() == 0 {
        assert(p[0] == x);
        assert(p.drop_first() =~= Seq::<RespValue>::empty());
        assert(resp_models(p) == seq![resp_model(x)] + resp_models(p.drop_first()));
        assert(resp_models(p) =~= resp_models(items) + seq![resp_model(x)]);
    } else {
        assert(p[0] == items[0]);
        assert(p.drop_first() =~= items.drop_first().push(x));
        lemma_resp_models_push(items.drop_first(), x);
        assert(resp_models(p) == seq![resp_model(items[0])] + (resp_models(items.drop_first())
            + seq![resp_model(x)]));
        assert(resp_models(items) == seq![resp_model(items[0])] + resp_models(items.drop_first()));
        assert(resp_models(p) =~= resp_models(items) + seq![resp_model(x)]);
    }
}

pub proof fn lemma_resp_models_index(items: Seq<RespValue>, j: int)
    requires
        0 <= j < items.len(),
    ensures
        resp_models(items).len() == items.len(),
        resp_models(items)[j] == resp_model(items[j]),
    decreases items,
{
    lemma_resp_models_len(items);
    if j > 0 {
        lemma_resp_models_index(items.drop_first(), j - 1);
    }
}

// ---------------------------------------------------------------------------
// UTF-8 well-formedness of a byte sequence.
// ---------------------------------------------------------------------------

/// A UTF-8 continuation byte.
pub open spec fn is_cont(b: u8) -> bool {
    0x80 <= b && b <= 0xBF
}

/// Well-formed UTF-8, byte for byte as RFC 3629 lays the sequences out.
pub open spec fn is_utf8(s: Seq<u8>) -> bool
    decreases s.len(),
{
    if s.len() == 0 {
        true
    } else {
        let b0 = s[0];
        if b0 < 0x80 {
            is_utf8(s.skip(1))
        } else if 0xC2 <= b0 && b0 <= 0xDF {
            if s.len() < 2 {
                false
            } else {
                is_cont(s[1]) && is_utf8(s.skip(2))
            }
        } else if 0xE0 <= b0 && b0 <= 0xEF {
            if s.len() < 3 {
                false
            } else {
                (if b0 == 0xE0 {
                    0xA0 <= s[1] && s[1] <= 0xBF
                } else if b0 == 0xED {
                    0x80 <= s[1] && s[1] <= 0x9F
                } else {
                    is_cont(s[1])
                }) && is_cont(s[2]) && is_utf8(s.skip(3))
            }
        } else if 0xF0 <= b0 && b0 <= 0xF4 {
            if s.len() < 4 {
                false
            } else {
                (if b0 == 0xF0 {
                    0x90 <= s[1] && s[1] <= 0xBF
                } else if b0 == 0xF4 {
                    0x80 <= s[1] && s[1] <= 0x8F
                } else {
                    is_cont(s[1])
                }) && is_cont(s[2]) && is_cont(s[3]) && is_utf8(s.skip(4))
            }
        } else {
            false
        }
    }
}

/// Pure ASCII is well-formed UTF-8.
pub proof fn lemma_ascii_is_utf8(s: Seq<u8>)
    requires
        forall|i: int| 0 <= i < s.len() ==> s[i] < 0x80,
    ensures
        is_utf8(s),
    decreases s.len(),
{
    if s.len() > 0 {
        lemma_ascii_is_utf8(s.skip(1));
    }
}

/// Checks a byte sequence for UTF-8 well-formedness.
#[verifier::loop_isolation(false)]
pub fn is_utf8_exec(s: &Vec<u8>) -> (r: bool)
    ensures
        r == is_utf8(s@),
{
    let n = s.len();
    let mut i: usize = 0;
    proof {
        assert(s@.skip(0) =~= s@);
    }
    while i < n
        invariant
            i <= n,
            is_utf8(s@) == is_utf8(s@.skip(i as int)),
        decreases n - i,
    {
        let ghost tail = s@.skip(i as int);
        let b0 = s[i];
        assert(tail[0] == b0);
        let step: usize;
        if b0 < 0x80 {
            step = 1;
        } else if 0xC2 <= b0 && b0 <= 0xDF {
            if n - i < 2 || !(0x80 <= s[i + 1] && s[i + 1] <= 0xBF) {
                return false;
            }
            step = 2;
        } else if 0xE0 <= b0 && b0 <= 0xEF {
            if n - i < 3 {
                return false;
            }
            let b1 = s[i + 1];
            let ok1 = if b0 == 0xE0 {
                0xA0 <= b1 && b1 <= 0xBF
            } else if b0 == 0xED {
                0x80 <= b1 && b1 <= 0x9F
            } else {
                0x80 <= b1 && b1 <= 0xBF
            };
            if !ok1 || !(0x80 <= s[i + 2] && s[i + 2] <= 0xBF) {
                return false;
            }
            step = 3;
        } else if 0xF0 <= b0 && b0 <= 0xF4 {
            if n - i < 4 {
                return false;
            }
            let b1 = s[i + 1];
            let ok1 = if b0 == 0xF0 {
                0x90 <= b1 && b1 <= 0xBF
            } else if b0 == 0xF4 {
                0x80 <= b1 && b1 <= 0x8F
            } else {
                0x80 <= b1 && b1 <= 0xBF
            };
            if !ok1 || !(0x80 <= s[i + 2] && s[i + 2] <= 0xBF) || !(0x80 <= s[i + 3] && s[i + 3]
                <= 0xBF) {
                return false;
            }
            step = 4;
        } else {
            return false;
        }
        proof {
            assert(tail.skip(step as int) =~= s@.skip(i + step));
            assert(forall|j: int| 0 <= j < tail.len() ==> tail[j] == s@[i + j]);
        }
        i = i + step;
    }
    proof {
        assert(s@.skip(n as int) =~= Seq::<u8>::empty());
    }
    true
}

/// The characters that a well-formed UTF-8 byte string decodes to.
pub uninterp spec fn utf8_chars(b: Seq<u8>) -> Seq<char>;

/// Relies on `String::from_utf8`: it succeeds exactly on well-formed UTF-8
/// (the byte shapes `is_utf8` lays out), and decodes those bytes'
/// characters.
#[verifier::external_body]
fn bytes_to_string(bytes: Vec<u8>) -> (r: Option<String>)
    ensures
        r is Some <==> is_utf8(bytes@),
        r matches Option::Some(s) ==> s@ == utf8_chars(bytes@),
{
    String::from_utf8(bytes).ok()
}

/// The text of a bulk string: its UTF-8 decoding, or the empty string when
/// it is null or not UTF-8.
pub fn convert_bulk_string_to_string(bulk_string: Option<Vec<u8>>) -> (r: String)
    ensures
        match bulk_string {
            Option::Some(b) => if is_utf8(b@) {
                r@ == utf8_chars(b@)
            } else {
                r@ == Seq::<char>::empty()
            },
            Option::None => r@ == Seq::<char>::empty(),
        },
{
    match bulk_string {
        Option::Some(bytes) => match bytes_to_string(bytes) {
            Option::Some(s) => s,
            Option::None => String::new(),
        },
        Option::None => String::new(),
    }
}

// ---------------------------------------------------------------------------
// Canonical encoding.
// ---------------------------------------------------------------------------

pub open spec fn crlf() -> Seq<u8> {
    seq![13u8, 10u8]
}

/// No line feed anywhere: the content fits on one protocol line.
pub open spec fn no_lf(s: Seq<u8>) -> bool {
    forall|i: int| 0 <= i < s.len() ==> s[i] != 10
}

/// The canonical wire encoding of a frame.
pub open spec fn enc(m: RespModel) -> Seq<u8>
    decreases m,
{
    match m {
        RespModel::Simple(t) => seq![43u8] + t + crlf(),
        RespModel::Error(t) => seq![45u8] + t + crlf(),
        RespModel::Integer(x) => seq![58u8] + dec_rep_int(x as int) + crlf(),
        RespModel::Bulk(Option::None) => seq![36u8, 45u8, 49u8, 13u8, 10u8],
        RespModel::Bulk(Option::Some(b)) => seq![36u8] + dec_rep_nat(b.len()) + crlf() + b
            + crlf(),
        RespModel::Array(items) => seq![42u8] + dec_rep_nat(items.len()) + crlf() + enc_list(
            items,
        ),
    }
}

pub open spec fn enc_list(items: Seq<RespModel>) -> Seq<u8>
    decreases items,
{
    if items.len() == 0 {
        Seq::empty()
    } else {
        enc(items[0]) + enc_list(items.drop_first())
    }
}

pub proof fn lemma_enc_list_push(items: Seq<RespModel>, x: RespModel)
    ensures
        enc_list(items.push(x)) == enc_list(items) + enc(x),
    decreases items,
{
    let p = items.push(x);
    if items.len() == 0 {
        assert(p[0] == x);
        assert(p.drop_first() =~= Seq::<RespModel>::empty());
        assert(enc_list(p) == enc(x) + enc_list(p.drop_first()));
        assert(enc_list(p) =~= enc_list(items) + enc(x));
    } else {
        assert(p[0] == items[0]);
        assert(p.drop_first() =~= items.drop_first().push(x));
        lemma_enc_list_push(items.drop_first(), x);
        assert(enc_list(p) == enc(items[0]) + (enc_list(items.drop_first()) + enc(x)));
        assert(enc_list(items) == enc(items[0]) + enc_list(items.drop_first()));
        assert(enc_list(p) =~= enc_list(items) + enc(x));
    }
}

/// Frames whose encoding the decoder reads back exactly: line payloads are
/// UTF-8 and fit on one line, and lengths fit the wire's integer ranges.
pub open spec fn resp_wf(m: RespModel) -> bool
    decreases m,
{
    match m {
        RespModel::Simple(t) => is_utf8(t) && no_lf(t),
        RespModel::Error(t) => is_utf8(t) && no_lf(t),
        RespModel::Integer(_) => true,
        RespModel::Bulk(Option::None) => true,
        RespModel::Bulk(Option::Some(b)) => b.len() <= 0x7fffffff,
        RespModel::Array(items) => items.len() <= usize::MAX && (forall|j: int|
            0 <= j < items.len() ==> resp_wf(#[trigger] items[j])),
    }
}

// ---------------------------------------------------------------------------
// Decoding.
// ---------------------------------------------------------------------------

/// Why a buffer does not (yet) hold one well-formed frame at the position
/// read. `NeedMore` means the buffer ends inside a frame: more input may
/// complete it, end of input means the peer hung up mid-frame.
#[derive(Clone, Copy, Debug, PartialEq, Eq, Structural)]
pub enum DecodeError {
    NeedMore,
    IncompleteData,
    UnrecognizedType,
    ParseIntError,
    Utf8Error,
}

/// Index of the first line feed at or after `i`.
pub open spec fn find_lf(s: Seq<u8>, i: int) -> Option<int>
    decreases s.len() - i,
{
    if i < 0 || i >= s.len() {
        Option::None
    } else if s[i] == 10 {
        Option::Some(i)
    } else {
        find_lf(s, i + 1)
    }
}

pub proof fn lemma_find_lf_props(s: Seq<u8>, i: int)
    requires
        0 <= i,
    ensures
        match find_lf(s, i) {
            Option::Some(j) => i <= j < s.len() && s[j] == 10 && (forall|t: int|
                i <= t < j ==> s[t] != 10),
            Option::None => forall|t: int| i <= t < s.len() ==> s[t] != 10,
        },
    decreases s.len() - i,
{
    if i < s.len() && s[i] != 10 {
        lemma_find_lf_props(s, i + 1);
    }
}

pub proof fn lemma_find_lf_at(s: Seq<u8>, a: int, b: int)
    requires
        0 <= a <= b < s.len(),
        forall|t: int| a <= t < b ==> s[t] != 10,
        s[b] == 10,
    ensures
        find_lf(s, a) == Option::Some(b),
    decreases b - a,
{
    if a < b {
        lemma_find_lf_at(s, a + 1, b);
    }
}

/// One protocol line after a tag byte: the bytes strictly between `i` and
/// the next `\r\n`, and the index just past the line feed.
pub open spec fn read_line(s: Seq<u8>, i: int) -> Result<(Seq<u8>, int), DecodeError> {
    match find_lf(s, i) {
        Option::None => Result::Err(DecodeError::NeedMore),
        Option::Some(j) => if j >= i + 1 && s[j - 1] == 13 {
            Result::Ok((s.subrange(i, j - 1), j + 1))
        } else {
            Result::Err(DecodeError::IncompleteData)
        },
    }
}

/// One frame decoded from `s` at `i`: the model and the index just past the
/// frame.
pub open spec fn dec_val(s: Seq<u8>, i: int) -> Result<(RespModel, int), DecodeError>
    decreases s.len() - i, 1int,
{
    if i < 0 || i >= s.len() {
        Result::Err(DecodeError::NeedMore)
    } else {
        let tag = s[i];
        if tag == 43 || tag == 45 {
            match read_line(s, i + 1) {
                Result::Err(e) => Result::Err(e),
                Result::Ok((content, next)) => if !is_utf8(content) {
                    Result::Err(DecodeError::Utf8Error)
                } else if tag == 43 {
                    Result::Ok((RespModel::Simple(content), next))
                } else {
                    Result::Ok((RespModel::Error(content), next))
                },
            }
        } else if tag == 58 {
            match read_line(s, i + 1) {
                Result::Err(e) => Result::Err(e),
                Result::Ok((content, next)) => if !is_utf8(content) {
                    Result::Err(DecodeError::Utf8Error)
                } else if !(int_line_wf(content) && -0x8000000000000000 <= int_line_val(content)
                    <= 0x7fffffffffffffff) {
                    Result::Err(DecodeError::ParseIntError)
                } else {
                    Result::Ok((RespModel::Integer(int_line_val(content) as i64), next))
                },
            }
        } else if tag == 36 {
            match read_line(s, i + 1) {
                Result::Err(e) => Result::Err(e),
                Result::Ok((content, next)) => if !is_utf8(content) {
                    Result::Err(DecodeError::Utf8Error)
                } else if !(int_line_wf(content) && -0x80000000 <= int_line_val(content)
                    <= 0x7fffffff) {
                    Result::Err(DecodeError::ParseIntError)
                } else {
                    let l = int_line_val(content);
                    if l == -1 {
                        Result::Ok((RespModel::Bulk(Option::None), next))
                    } else if l < 0 {
                        Result::Err(DecodeError::ParseIntError)
                    } else if next + l + 2 > s.len() {
                        Result::Err(DecodeError::NeedMore)
                    } else if s[next + l] == 13 && s[next + l + 1] == 10 {
                        Result::Ok(
                            (RespModel::Bulk(Option::Some(s.subrange(next, next + l))), next + l
                                + 2),
                        )
                    } else {
                        Result::Err(DecodeError::IncompleteData)
                    }
                },
            }
        } else if tag == 42 {
            match read_line(s, i + 1) {
                Result::Err(e) => Result::Err(e),
                Result::Ok((content, next)) => if !is_utf8(content) {
                    Result::Err(DecodeError::Utf8Error)
                } else if !(int_line_wf(content) && !int_line_neg(content) && int_line_val(content)
                    <= usize::MAX as int) {
                    Result::Err(DecodeError::ParseIntError)
                } else {
                    let n = int_line_val(content);
                    // The guard is for the termination measure only: `next`
                    // always lies in this range (`lemma_read_line_bounds`).
                    let start = if i + 1 <= next <= s.len() {
                        next
                    } else {
                        i + 1
                    };
                    match dec_list(s, start, n as nat) {
                        Result::Err(e) => Result::Err(e),
                        Result::Ok((items, end)) => Result::Ok((RespModel::Array(items), end)),
                    }
                },
            }
        } else {
            Result::Err(DecodeError::UnrecognizedType)
        }
    }
}

/// `n` frames decoded one after the other from `s` at `i`.
pub open spec fn dec_list(s: Seq<u8>, i: int, n: nat) -> Result<(Seq<RespModel>, int), DecodeError>
    decreases s.len() - i, 2int,
{
    if n == 0 {
        Result::Ok((Seq::empty(), i))
    } else if i < 0 || i >= s.len() {
        Result::Err(DecodeError::NeedMore)
    } else {
        match dec_val(s, i) {
            Result::Err(e) => Result::Err(e),
            Result::Ok((m, k)) => {
                // The guard is for the termination measure only: `k` always
                // lies in this range (`lemma_dec_val_bounds`).
                let k2 = if i + 1 <= k <= s.len() {
                    k
                } else {
                    i + 1
                };
                match dec_list(s, k2, (n - 1) as nat) {
                    Result::Err(e) => Result::Err(e),
                    Result::Ok((ms, end)) => Result::Ok((seq![m] + ms, end)),
                }
            },
        }
    }
}

pub proof fn lemma_read_line_bounds(s: Seq<u8>, i: int)
    requires
        0 <= i,
    ensures
        read_line(s, i) matches Result::Ok((content, next)) ==> i < next <= s.len() && content
            == s.subrange(i, next - 2) && content.len() == next - 2 - i,
{
    lemma_find_lf_props(s, i);
}

pub proof fn lemma_dec_val_bounds(s: Seq<u8>, i: int)
    requires
        0 <= i,
    ensures
        dec_val(s, i) matches Result::Ok((m, k)) ==> i < k <= s.len(),
    decreases s.len() - i, 1int,
{
    if 0 <= i < s.len() {
        lemma_read_line_bounds(s, i + 1);
        if s[i] == 42 {
            match read_line(s, i + 1) {
                Result::Err(e) => {},
                Result::Ok((content, next)) => {
                    let n = int_line_val(content);
                    if int_line_wf(content) && !int_line_neg(content) && n <= usize::MAX as int
                        && is_utf8(content) {
                        let start = if i + 1 <= next <= s.len() {
                            next
                        } else {
                            i + 1
                        };
                        lemma_dec_list_bounds(s, start, n as nat);
                    }
                },
            }
        }
    }
}

/// What the executable decoder returned, lifted to the model level.
pub open spec fn dec_result_model(r: Result<(RespValue, usize), DecodeError>) -> Result<
    (RespModel, int),
    DecodeError,
> {
    match r {
        Result::Ok((v, next)) => Result::Ok((resp_model(v), next as int)),
        Result::Err(e) => Result::Err(e),
    }
}

/// A list decode continued after an already-decoded prefix.
pub open spec fn dec_cont(
    prefix: Seq<RespModel>,
    r: Result<(Seq<RespModel>, int), DecodeError>,
) -> Result<(Seq<RespModel>, int), DecodeError> {
    match r {
        Result::Ok((ms, end)) => Result::Ok((prefix + ms, end)),
        Result::Err(e) => Result::Err(e),
    }
}

pub proof fn lemma_dec_cont_empty(r: Result<(Seq<RespModel>, int), DecodeError>)
    ensures
        dec_cont(Seq::empty(), r) == r,
{
    match r {
        Result::Ok((ms, end)) => {
            assert(Seq::empty() + ms =~= ms);
        },
        Result::Err(e) => {},
    }
}

pub proof fn lemma_dec_cont_compose(
    front: Seq<RespModel>,
    mid: Seq<RespModel>,
    r: Result<(Seq<RespModel>, int), DecodeError>,
)
    ensures
        dec_cont(front, dec_cont(mid, r)) == dec_cont(front + mid, r),
{
    match r {
        Result::Ok((ms, end)) => {
            assert(front + (mid + ms) =~= (front + mid) + ms);
        },
        Result::Err(e) => {},
    }
}

pub proof fn lemma_dec_list_bounds(s: Seq<u8>, i: int, n: nat)
    requires
        0 <= i <= s.len(),
    ensures
        dec_list(s, i, n) matches Result::Ok((ms, end)) ==> i <= end <= s.len() && ms.len() == n,
    decreases s.len() - i, 2int,
{
    if n == 0 {
    } else if 0 <= i < s.len() {
        lemma_dec_val_bounds(s, i);
        match dec_val(s, i) {
            Result::Err(e) => {},
            Result::Ok((m, k)) => {
                let k2 = if i + 1 <= k <= s.len() {
                    k
                } else {
                    i + 1
                };
                lemma_dec_list_bounds(s, k2, (n - 1) as nat);
            },
        }
    }
}

// ---------------------------------------------------------------------------
// Round trip: decoding inverts encoding.
// ---------------------------------------------------------------------------

proof fn lemma_read_line_of(s: Seq<u8>, i: int, content: Seq<u8>)
    requires
        0 <= i,
        no_lf(content),
        i + content.len() + 2 <= s.len(),
        s.subrange(i, i + content.len() + 2) == content + crlf(),
    ensures
        read_line(s, i) == Result::Ok::<(Seq<u8>, int), DecodeError>(
            (content, i + content.len() + 2),
        ),
{
    let cl = content.len() as int;
    let region = content + crlf();
    lemma_region_byte(s, i, region, cl);
    lemma_region_byte(s, i, region, cl + 1);
    assert(s[i + cl] == 13);
    assert(s[i + cl + 1] == 10);
    assert(forall|t: int| i <= t < i + cl + 1 ==> s[t] != 10) by {
        assert(forall|t: int|
            i <= t < i + cl ==> #[trigger] s[t] == s.subrange(i, i + cl + 2)[t - i]);
    }
    lemma_find_lf_at(s, i, i + cl + 1);
    lemma_sub_region(s, i, region, 0, cl);
    assert(region.subrange(0, cl) =~= content);
    assert(s.subrange(i + 0, i + cl) == s.subrange(i, i + cl));
}

pub proof fn lemma_dec_of_enc(m: RespModel, s: Seq<u8>, i: int)
    requires
        resp_wf(m),
        0 <= i,
        i + enc(m).len() <= s.len(),
        s.subrange(i, i + enc(m).len()) == enc(m),
    ensures
        dec_val(s, i) == Result::Ok::<(RespModel, int), DecodeError>((m, i + enc(m).len())),
    decreases m,
{
    let e = enc(m);
    let el = e.len() as int;
    lemma_region_byte(s, i, e, 0);
    match m {
        RespModel::Simple(t) => {
            assert(s[i] == 43);
            let tl = t.len() as int;
            lemma_sub_region(s, i, e, 1, 1 + tl + 2);
            assert(e.subrange(1, 1 + tl + 2) =~= t + crlf());
            lemma_read_line_of(s, i + 1, t);
        },
        RespModel::Error(t) => {
            assert(s[i] == 45);
            let tl = t.len() as int;
            lemma_sub_region(s, i, e, 1, 1 + tl + 2);
            assert(e.subrange(1, 1 + tl + 2) =~= t + crlf());
            lemma_read_line_of(s, i + 1, t);
        },
        RespModel::Integer(x) => {
            assert(s[i] == 58);
            let d = dec_rep_int(x as int);
            lemma_int_line_of_dec_rep(x as int);
            if x < 0 {
                lemma_dec_rep_nat((-(x as int)) as nat);
            } else {
                lemma_dec_rep_nat(x as nat);
            }
            assert(no_lf(d));
            assert(forall|t: int| 0 <= t < d.len() ==> d[t] < 0x80);
            lemma_ascii_is_utf8(d);
            let dl = d.len() as int;
            lemma_sub_region(s, i, e, 1, 1 + dl + 2);
            assert(e.subrange(1, 1 + dl + 2) =~= d + crlf());
            lemma_read_line_of(s, i + 1, d);
            assert(int_line_val(d) as i64 == x);
        },
        RespModel::Bulk(Option::None) => {
            assert(s[i] == 36);
            let d = seq![45u8, 49u8];
            lemma_sub_region(s, i, e, 1, 5);
            assert(e.subrange(1, 5) =~= d + crlf());
            lemma_read_line_of(s, i + 1, d);
            lemma_ascii_is_utf8(d);
            assert(d.skip(1) =~= seq![49u8]);
            assert(all_digits(seq![49u8]));
            assert(int_line_wf(d));
            assert(digits_val(seq![49u8]) == 1) by {
                assert(seq![49u8].drop_last() =~= Seq::<u8>::empty());
                assert(seq![49u8].last() == 49u8);
                assert(digits_val(Seq::<u8>::empty()) == 0);
            }
            assert(int_line_val(d) == -1);
        },
        RespModel::Bulk(Option::Some(b)) => {
            assert(s[i] == 36);
            let d = dec_rep_nat(b.len());
            lemma_dec_rep_nat(b.len());
            assert(no_lf(d));
            assert(forall|t: int| 0 <= t < d.len() ==> d[t] < 0x80);
            lemma_ascii_is_utf8(d);
            let dl = d.len() as int;
            lemma_sub_region(s, i, e, 1, 1 + dl + 2);
            assert(e.subrange(1, 1 + dl + 2) =~= d + crlf());
            lemma_read_line_of(s, i + 1, d);
            assert(is_digit(d[0]));
            assert(int_line_wf(d));
            assert(int_line_val(d) == b.len());
            let next = i + 1 + dl + 2;
            let l = b.len() as int;
            assert(next + l + 2 <= s.len());
            lemma_sub_region(s, i, e, 1 + dl + 2, 1 + dl + 2 + l);
            assert(e.subrange(1 + dl + 2, 1 + dl + 2 + l) =~= b);
            assert(s.subrange(next, next + l) == b);
            lemma_region_byte(s, i, e, el - 2);
            lemma_region_byte(s, i, e, el - 1);
            assert(e[el - 2] == 13 && e[el - 1] == 10);
            assert(s[next + l] == 13 && s[next + l + 1] == 10);
        },
        RespModel::Array(items) => {
            assert(s[i] == 42);
            let d = dec_rep_nat(items.len());
            lemma_dec_rep_nat(items.len());
            assert(no_lf(d));
            assert(forall|t: int| 0 <= t < d.len() ==> d[t] < 0x80);
            lemma_ascii_is_utf8(d);
            let dl = d.len() as int;
            lemma_sub_region(s, i, e, 1, 1 + dl + 2);
            assert(e.subrange(1, 1 + dl + 2) =~= d + crlf());
            lemma_read_line_of(s, i + 1, d);
            assert(is_digit(d[0]));
            assert(int_line_wf(d));
            assert(!int_line_neg(d));
            assert(int_line_val(d) == items.len());
            let next = i + 1 + dl + 2;
            let tail = enc_list(items);
            lemma_sub_region(s, i, e, 1 + dl + 2, el);
            assert(e.subrange(1 + dl + 2, el) =~= tail);
            assert(s.subrange(next, next + tail.len()) == tail);
            lemma_dec_of_enc_list(items, s, next);
        },
    }
}

pub proof fn lemma_dec_of_enc_list(items: Seq<RespModel>, s: Seq<u8>, i: int)
    requires
        forall|j: int| 0 <= j < items.len() ==> resp_wf(#[trigger] items[j]),
        0 <= i,
        i + enc_list(items).len() <= s.len(),
        s.subrange(i, i + enc_list(items).len()) == enc_list(items),
    ensures
        dec_list(s, i, items.len() as nat) == Result::Ok::<(Seq<RespModel>, int), DecodeError>(
            (items, i + enc_list(items).len()),
        ),
    decreases items,
{
    if items.len() == 0 {
        assert(items =~= Seq::<RespModel>::empty());
    } else {
        let m0 = items[0];
        let rest = items.drop_first();
        let e0 = enc(m0);
        let er = enc_list(rest);
        let e = enc_list(items);
        assert(e == e0 + er);
        lemma_sub_region(s, i, e, 0, e0.len() as int);
        assert(e.subrange(0, e0.len() as int) =~= e0);
        assert(s.subrange(i + 0, i + e0.len()) == s.subrange(i, i + e0.len()));
        assert(resp_wf(m0));
        lemma_dec_of_enc(m0, s, i);
        let k = i + e0.len();
        assert(e0.len() >= 1);
        lemma_sub_region(s, i, e, e0.len() as int, e.len() as int);
        assert(e.subrange(e0.len() as int, e.len() as int) =~= er);
        assert(forall|j: int| 0 <= j < rest.len() ==> resp_wf(#[trigger] rest[j])) by {
            assert(forall|j: int| 0 <= j < rest.len() ==> rest[j] == items[j + 1]);
        }
        lemma_dec_of_enc_list(rest, s, k);
        assert(seq![m0] + rest =~= items);
    }
}

/// Law: decoding inverts encoding. For every well-formed frame model `m`,
/// the specification decoder reads `enc(m)` back as exactly `m`, consuming
/// the whole encoding.
pub proof fn lemma_decode_encode(m: RespModel)
    requires
        resp_wf(m),
    ensures
        dec_val(enc(m), 0) == Result::Ok::<(RespModel, int), DecodeError>(
            (m, enc(m).len() as int),
        ),
{
    assert(enc(m).subrange(0, enc(m).len() as int) =~= enc(m));
    lemma_dec_of_enc(m, enc(m), 0);
}

/// Law: the canonical encoding is injective on well-formed frame models.
pub proof fn lemma_encode_injective(m1: RespModel, m2: RespModel)
    requires
        resp_wf(m1),
        resp_wf(m2),
        enc(m1) == enc(m2),
    ensures
        m1 == m2,
{
    lemma_decode_encode(m1);
    lemma_decode_encode(m2);
}

// ---------------------------------------------------------------------------
// Executable codec.
// ---------------------------------------------------------------------------

/// Append all of `src` to `out`.
#[verifier::loop_isolation(false)]
pub(crate) fn append_bytes(out: &mut Vec<u8>, src: &Vec<u8>)
    ensures
        final(out)@ == old(out)@ + src@,
{
    let m = src.len();
    let mut idx: usize = 0;
    proof {
        assert(out@ =~= old(out)@ + src@.subrange(0, 0));
    }
    while idx < m
        invariant
            idx <= m,
            out@ == old(out)@ + src@.subrange(0, idx as int),
        decreases m - idx,
    {
        out.push(src[idx]);
        proof {
            assert(out@ =~= old(out)@ + src@.subrange(0, idx + 1));
        }
        idx = idx + 1;
    }
    proof {
        assert(src@.subrange(0, m as int) =~= src@);
    }
}

/// Copy of the bytes of `s` in `[a, b)`.
pub(crate) fn copy_range(s: &Vec<u8>, a: usize, b: usize) -> (r: Vec<u8>)
    requires
        a <= b <= s@.len(),
    ensures
        r@ == s@.subrange(a as int, b as int),
{
    let sl = vstd::slice::slice_subrange(s.as_slice(), a, b);
    vstd::slice::slice_to_vec(sl)
}

/// Read one protocol line starting at `pos`: the bytes before the next
/// `\r\n` and the index just past it.
#[verifier::loop_isolation(false)]
fn read_line_exec(s: &Vec<u8>, pos: usize) -> (r: Result<(Vec<u8>, usize), DecodeError>)
    requires
        pos <= s@.len(),
    ensures
        match r {
            Result::Ok((content, next)) => read_line(s@, pos as int) == Result::Ok::<
                (Seq<u8>, int),
                DecodeError,
            >((content@, next as int)) && pos < next <= s@.len(),
            Result::Err(e) => read_line(s@, pos as int) == Result::Err::<
                (Seq<u8>, int),
                DecodeError,
            >(e),
        },
{
    let n = s.len();
    let mut j: usize = pos;
    while j < n && s[j] != 10
        invariant
            pos <= j <= n,
            forall|t: int| pos <= t < j ==> s@[t] != 10,
        decreases n - j,
    {
        j = j + 1;
    }
    if j >= n {
        proof {
            lemma_find_lf_props(s@, pos as int);
            match find_lf(s@, pos as int) {
                Option::Some(lf) => {
                    assert(s@[lf] != 10);
                },
                Option::None => {},
            }
        }
        return Result::Err(DecodeError::NeedMore);
    }
    proof {
        lemma_find_lf_at(s@, pos as int, j as int);
    }
    if j == pos {
        return Result::Err(DecodeError::IncompleteData);
    }
    if s[j - 1] != 13 {
        return Result::Err(DecodeError::IncompleteData);
    }
    let content = copy_range(s, pos, j - 1);
    Result::Ok((content, j + 1))
}

/// The stateless RESP codec.
pub struct RespCodec;

impl RespCodec {
    pub fn new() -> (r: Self) {
        RespCodec
    }

    /// Append the canonical encoding of `data` to `out`.
    #[verifier::loop_isolation(false)]
    #[verifier::rlimit(60)]
    pub fn encode(&mut self, out: &mut Vec<u8>, data: &RespValue)
        ensures
            final(out)@ == old(out)@ + enc(resp_model(*data)),
        decreases *data,
    {
        match data {
            RespValue::SimpleString(t) => {
                out.push(43);
                append_bytes(out, t);
                out.push(13);
                out.push(10);
                proof {
                    assert(out@ =~= old(out)@ + enc(resp_model(*data)));
                }
            },
            RespValue::Error(t) => {
                out.push(45);
                append_bytes(out, t);
                out.push(13);
                out.push(10);
                proof {
                    assert(out@ =~= old(out)@ + enc(resp_model(*data)));
                }
            },
            RespValue::Integer(x) => {
                out.push(58);
                let xv = *x;
                if xv < 0 {
                    out.push(45);
                    let mag = (-(xv as i128)) as u128;
                    render_dec(mag, out);
                } else {
                    render_dec(xv as u128, out);
                }
                out.push(13);
                out.push(10);
                proof {
                    assert(out@ =~= old(out)@ + enc(resp_model(*data)));
                }
            },
            RespValue::BulkString(ob) => {
                match ob {
                    Option::None => {
                        out.push(36);
                        out.push(45);
                        out.push(49);
                        out.push(13);
                        out.push(10);
                        proof {
                            assert(out@ =~= old(out)@ + enc(resp_model(*data)));
                        }
                    },
                    Option::Some(b) => {
                        out.push(36);
                        render_dec(b.len() as u128, out);
                        out.push(13);
                        out.push(10);
                        append_bytes(out, b);
                        out.push(13);
                        out.push(10);
                        proof {
                            assert(out@ =~= old(out)@ + enc(resp_model(*data)));
                        }
                    },
                }
            },
            RespValue::Array(items) => {
                out.push(42);
                render_dec(items.len() as u128, out);
                out.push(13);
                out.push(10);
                let ghost hdr = out@;
                proof {
                    assert(items@.subrange(0, 0) =~= Seq::<RespValue>::empty());
                    assert(out@ =~= hdr + enc_list(resp_models(items@.subrange(0, 0))));
                }
                let m = items.len();
                let mut idx: usize = 0;
                while idx < m
                    invariant
                        idx <= m,
                        out@ == hdr + enc_list(resp_models(items@.subrange(0, idx as int))),
                    decreases m - idx,
                {
                    let ghost pre = items@.subrange(0, idx as int);
                    self.encode(out, &items[idx]);
                    proof {
                        assert(items@.subrange(0, idx + 1) =~= pre.push(items@[idx as int]));
                        lemma_resp_models_push(pre, items@[idx as int]);
                        assert(resp_models(pre.push(items@[idx as int])) =~= resp_models(pre).push(
                            resp_model(items@[idx as int]),
                        ));
                        lemma_enc_list_push(resp_models(pre), resp_model(items@[idx as int]));
                        assert(out@ =~= hdr + enc_list(
                            resp_models(items@.subrange(0, idx + 1)),
                        ));
                    }
                    idx = idx + 1;
                }
                proof {
                    assert(items@.subrange(0, m as int) =~= items@);
                    lemma_resp_models_len(items@);
                    assert(out@ =~= old(out)@ + enc(resp_model(*data)));
                }
            },
        }
    }

    /// Decode one frame from `input` at `from`. On success, the frame and
    /// the index just past it; the result agrees exactly with the
    /// specification decoder `dec_val`.
    #[verifier::loop_isolation(false)]
    pub fn decode(&mut self, input: &Vec<u8>, from: usize) -> (r: Result<
        (RespValue, usize),
        DecodeError,
    >)
        ensures
            dec_result_model(r) == dec_val(input@, from as int),
            r matches Result::Ok((v, next)) ==> from < next <= input@.len(),
        decreases input@.len() - from,
    {
        let n = input.len();
        if from >= n {
            return Result::Err(DecodeError::NeedMore);
        }
        let tag = input[from];
        if tag == 43 || tag == 45 {
            match read_line_exec(input, from + 1) {
                Result::Err(e) => Result::Err(e),
                Result::Ok((content, next)) => {
                    if !is_utf8_exec(&content) {
                        return Result::Err(DecodeError::Utf8Error);
                    }
                    if tag == 43 {
                        Result::Ok((RespValue::SimpleString(content), next))
                    } else {
                        Result::Ok((RespValue::Error(content), next))
                    }
                },
            }
        } else if tag == 58 {
            match read_line_exec(input, from + 1) {
                Result::Err(e) => Result::Err(e),
                Result::Ok((content, next)) => {
                    if !is_utf8_exec(&content) {
                        return Result::Err(DecodeError::Utf8Error);
                    }
                    let (wf, neg, acc) = parse_int_line(&content);
                    let in_range: bool = if neg {
                        acc <= 0x8000000000000000
                    } else {
                        acc <= 0x7fffffffffffffff
                    };
                    if !wf || !in_range {
                        return Result::Err(DecodeError::ParseIntError);
                    }
                    let v: i64 = if neg {
                        (-(acc as i128)) as i64
                    } else {
                        acc as i64
                    };
                    proof {
                        assert(v as int == int_line_val(content@));
                    }
                    Result::Ok((RespValue::Integer(v), next))
                },
            }
        } else if tag == 36 {
            match read_line_exec(input, from + 1) {
                Result::Err(e) => Result::Err(e),
                Result::Ok((content, next)) => {
                    if !is_utf8_exec(&content) {
                        return Result::Err(DecodeError::Utf8Error);
                    }
                    let (wf, neg, acc) = parse_int_line(&content);
                    let in_range: bool = if neg {
                        acc <= 0x80000000
                    } else {
                        acc <= 0x7fffffff
                    };
                    if !wf || !in_range {
                        return Result::Err(DecodeError::ParseIntError);
                    }
                    let l: i64 = if neg {
                        (-(acc as i128)) as i64
                    } else {
                        acc as i64
                    };
                    proof {
                        assert(l as int == int_line_val(content@));
                    }
                    if l == -1 {
                        return Result::Ok((RespValue::BulkString(Option::None), next));
                    }
                    if l < 0 {
                        return Result::Err(DecodeError::ParseIntError);
                    }
                    let lb = l as usize;
                    let rem = n - next;
                    if lb > rem || rem - lb < 2 {
                        return Result::Err(DecodeError::NeedMore);
                    }
                    if input[next + lb] == 13 && input[next + lb + 1] == 10 {
                        let body = copy_range(input, next, next + lb);
                        Result::Ok((RespValue::BulkString(Option::Some(body)), next + lb + 2))
                    } else {
                        Result::Err(DecodeError::IncompleteData)
                    }
                },
            }
        } else if tag == 42 {
            match read_line_exec(input, from + 1) {
                Result::Err(e) => Result::Err(e),
                Result::Ok((content, next)) => {
                    if !is_utf8_exec(&content) {
                        return Result::Err(DecodeError::Utf8Error);
                    }
                    let (wf, neg, acc) = parse_int_line(&content);
                    if !wf || neg || acc > usize::MAX as u128 {
                        return Result::Err(DecodeError::ParseIntError);
                    }
                    let count = acc as usize;
                    proof {
                        assert(count as int == int_line_val(content@));
                    }
                    let mut items: Vec<RespValue> = Vec::new();
                    let mut pos = next;
                    let mut k: usize = 0;
                    proof {
                        lemma_dec_cont_empty(dec_list(input@, next as int, count as nat));
                        assert(resp_models(items@) =~= Seq::<RespModel>::empty());
                    }
                    while k < count
                        invariant
                            k <= count,
                            items@.len() == k,
                            from < pos <= n,
                            dec_list(input@, next as int, count as nat) == dec_cont(
                                resp_models(items@),
                                dec_list(input@, pos as int, (count - k) as nat),
                            ),
                        decreases count - k,
                    {
                        match self.decode(input, pos) {
                            Result::Err(e) => {
                                return Result::Err(e);
                            },
                            Result::Ok((v, nx)) => {
                                proof {
                                    lemma_dec_val_bounds(input@, pos as int);
                                    let m = resp_model(v);
                                    let rest = dec_list(input@, nx as int, (count - k - 1) as nat);
                                    assert(dec_list(input@, pos as int, (count - k) as nat)
                                        == dec_cont(seq![m], rest));
                                    lemma_dec_cont_compose(resp_models(items@), seq![m], rest);
                                    lemma_resp_models_push(items@, v);
                                    assert(resp_models(items@) + seq![m] =~= resp_models(
                                        items@.push(v),
                                    ));
                                }
                                items.push(v);
                                pos = nx;
                                k = k + 1;
                            },
                        }
                    }
                    proof {
                        assert(dec_list(input@, pos as int, 0) == Result::Ok::<
                            (Seq<RespModel>, int),
                            DecodeError,
                        >((Seq::empty(), pos as int)));
                        assert(resp_models(items@) + Seq::<RespModel>::empty() =~= resp_models(
                            items@,
                        ));
                    }
                    Result::Ok((RespValue::Array(items), pos))
                },
            }
        } else {
            Result::Err(DecodeError::UnrecognizedType)
        }
    }
}

} // verus!
