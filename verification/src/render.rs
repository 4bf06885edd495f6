use vstd::prelude::*;

use crate::codec::extend_bytes;
use crate::error::Error;
use crate::protocol::Response;
use crate::storage::{all_digits, decimal_value, is_digit};
use vstd::utf8::valid_utf8;

verus! {

/// Checks `bytes` with `std::str::from_utf8`.
///
/// Trusted: the answer is taken to be whether the bytes are well-formed UTF-8 as the
/// standard defines it (`vstd::utf8::valid_utf8`: no overlong encoding, no surrogate, no
/// value beyond U+10FFFF), which is what the documentation of `from_utf8` checks.
#[verifier::external_body]
fn utf8_valid(bytes: &[u8]) -> (b: bool)
    ensures
        b == valid_utf8(bytes@),
{
    std::str::from_utf8(bytes).is_ok()
}

/// The lower-case hexadecimal digit of `n`, for `n` below 16.
pub open spec fn hex_digit(n: u8) -> u8 {
    if n < 10 {
        (0x30 + n) as u8
    } else {
        (0x57 + n) as u8
    }
}

/// The lower-case hexadecimal spelling of `s`, two digits per byte.
pub open spec fn hex_of(s: Seq<u8>) -> Seq<u8>
    decreases s.len(),
{
    if s.len() == 0 {
        Seq::empty()
    } else {
        hex_of(s.drop_last()) + seq![hex_digit(s.last() / 16), hex_digit(s.last() % 16)]
    }
}

/// The hexadecimal spelling of `s` has two digits for each byte, the high half first, each
/// `0`-`9` or `a`-`f`.
pub proof fn lemma_hex_of_digits(s: Seq<u8>)
    ensures
        hex_of(s).len() == 2 * s.len(),
        forall|i: int|
            0 <= i < s.len() ==> {
                &&& #[trigger] hex_of(s)[2 * i] == (if s[i] / 16 < 10 {
                    0x30 + s[i] / 16
                } else {
                    0x57 + s[i] / 16
                })
                &&& hex_of(s)[2 * i + 1] == (if s[i] % 16 < 10 {
                    0x30 + s[i] % 16
                } else {
                    0x57 + s[i] % 16
                })
            },
    decreases s.len(),
{
    if s.len() > 0 {
        let f = s.drop_last();
        lemma_hex_of_digits(f);
        assert forall|i: int| 0 <= i < s.len() implies {
            &&& #[trigger] hex_of(s)[2 * i] == (if s[i] / 16 < 10 {
                0x30 + s[i] / 16
            } else {
                0x57 + s[i] / 16
            })
            &&& hex_of(s)[2 * i + 1] == (if s[i] % 16 < 10 {
                0x30 + s[i] % 16
            } else {
                0x57 + s[i] % 16
            })
        } by {
            if i < f.len() {
                assert(s[i] == f[i]);
                assert(hex_of(f)[2 * i] == (if f[i] / 16 < 10 {
                    0x30 + f[i] / 16
                } else {
                    0x57 + f[i] / 16
                }));
            }
        }
    }
}

/// How a value is shown: as it is when it is text, else in hexadecimal.
pub open spec fn rendered(s: Seq<u8>, utf8: bool) -> Seq<u8> {
    if utf8 {
        s
    } else {
        hex_of(s)
    }
}

/// The decimal spelling of `n`.
pub open spec fn decimal_of(n: nat) -> Seq<u8>
    decreases n,
{
    if n < 10 {
        seq![(0x30 + n) as u8]
    } else {
        decimal_of(n / 10).push((0x30 + n % 10) as u8)
    }
}

/// The decimal spelling of a number is a run of digits, with no leading zero, that reads
/// back as the number.
pub proof fn lemma_decimal_of(n: nat)
    ensures
        decimal_of(n).len() > 0,
        all_digits(decimal_of(n)),
        decimal_value(decimal_of(n)) == n,
        decimal_of(n)[0] == 0x30 ==> n == 0,
    decreases n,
{
    let d = decimal_of(n);
    if n < 10 {
        assert(d.drop_last() =~= Seq::<u8>::empty());
        assert(d.last() == 0x30 + n);
        assert(decimal_value(d) == decimal_value(d.drop_last()) * 10 + (d.last() - 0x30) as nat);
        assert(decimal_value(Seq::<u8>::empty()) == 0);
    } else {
        lemma_decimal_of(n / 10);
        let f = decimal_of(n / 10);
        assert(d.drop_last() =~= f);
        assert(d.last() == 0x30 + n % 10);
        assert(decimal_value(d) == decimal_value(d.drop_last()) * 10 + (d.last() - 0x30) as nat);
        assert(decimal_value(f) == n / 10);
        assert(d[0] == f[0]);
        assert forall|i: int| 0 <= i < d.len() implies is_digit(#[trigger] d[i]) by {
            if i < f.len() {
                assert(d[i] == f[i]);
            }
        }
        assert(n == (n / 10) * 10 + n % 10) by (nonlinear_arith);
    }
}

/// The bytes `ok`.
pub open spec fn ok_text() -> Seq<u8> {
    seq![0x6fu8, 0x6bu8]
}

/// The bytes `not found`.
pub open spec fn not_found_text() -> Seq<u8> {
    seq![0x6eu8, 0x6fu8, 0x74u8, 0x20u8, 0x66u8, 0x6fu8, 0x75u8, 0x6eu8, 0x64u8]
}

/// The line that answers a response, or the error that a refusal becomes, when values
/// that are text are shown as they are: `utf8` tells whether the value of a `Value`
/// response is text.
pub open spec fn response_line(response: Response, utf8: bool) -> Result<Seq<u8>, Seq<char>> {
    match response {
        Response::Done => Ok(ok_text()),
        Response::Value(Some(v)) => Ok(rendered(v@, utf8)),
        Response::Value(None) => Ok(not_found_text()),
        Response::Stats { keys } => Ok(decimal_of(keys as nat)),
        Response::Error(m) => Err(m@),
    }
}

/// Whether an executable answer is the one that `response_line` describes.
pub open spec fn answered_as(r: Result<Vec<u8>, Error>, line: Result<Seq<u8>, Seq<char>>) -> bool {
    match line {
        Ok(l) => r matches Ok(v) && v@ == l,
        Err(m) => r matches Err(Error::Invalid(s)) && s@ == m,
    }
}

/// The lower-case hexadecimal spelling of `bytes`.
pub fn hex_bytes(bytes: &[u8]) -> (out: Vec<u8>)
    ensures
        out@ == hex_of(bytes@),
        ({
            &&& out@.len() == 2 * bytes@.len()
            &&& forall|i: int|
                0 <= i < bytes@.len() ==> {
                    &&& #[trigger] out@[2 * i] == (if bytes@[i] / 16 < 10 {
                        0x30 + bytes@[i] / 16
                    } else {
                        0x57 + bytes@[i] / 16
                    })
                    &&& out@[2 * i + 1] == (if bytes@[i] % 16 < 10 {
                        0x30 + bytes@[i] % 16
                    } else {
                        0x57 + bytes@[i] % 16
                    })
                }
        }),
{
    proof {
        lemma_hex_of_digits(bytes@);
    }
    let mut out: Vec<u8> = Vec::new();
    let mut i: usize = 0;
    while i < bytes.len()
        invariant
            i <= bytes@.len(),
            out@ == hex_of(bytes@.subrange(0, i as int)),
        decreases bytes@.len() - i,
    {
        let b = bytes[i];
        let hi = b / 16;
        let lo = b % 16;
        out.push(if hi < 10 { 0x30 + hi } else { 0x57 + hi });
        out.push(if lo < 10 { 0x30 + lo } else { 0x57 + lo });
        assert(bytes@.subrange(0, i + 1).drop_last() =~= bytes@.subrange(0, i as int));
        assert(out@ =~= hex_of(bytes@.subrange(0, i + 1)));
        i = i + 1;
    }
    assert(bytes@.subrange(0, i as int) =~= bytes@);
    out
}

/// The decimal spelling of `n`.
pub fn decimal_bytes(n: usize) -> (out: Vec<u8>)
    ensures
        out@ == decimal_of(n as nat),
        out@.len() > 0,
        forall|i: int| 0 <= i < out@.len() ==> 0x30 <= #[trigger] out@[i] <= 0x39,
        decimal_value(out@) == n,
        out@[0] == 0x30 ==> n == 0,
    decreases n,
{
    proof {
        lemma_decimal_of(n as nat);
    }
    if n < 10 {
        let mut out: Vec<u8> = Vec::new();
        out.push(0x30 + n as u8);
        assert(out@ =~= decimal_of(n as nat));
        out
    } else {
        let mut out = decimal_bytes(n / 10);
        out.push(0x30 + (n % 10) as u8);
        out
    }
}

/// How a value is shown, given whether it is text: as it is, else in hexadecimal.
pub fn render_with(bytes: &[u8], utf8: bool) -> (out: Vec<u8>)
    ensures
        out@ == rendered(bytes@, utf8),
        utf8 ==> out@ == bytes@,
        !utf8 ==> ({
            &&& out@.len() == 2 * bytes@.len()
            &&& forall|i: int|
                0 <= i < bytes@.len() ==> {
                    &&& #[trigger] out@[2 * i] == (if bytes@[i] / 16 < 10 {
                        0x30 + bytes@[i] / 16
                    } else {
                        0x57 + bytes@[i] / 16
                    })
                    &&& out@[2 * i + 1] == (if bytes@[i] % 16 < 10 {
                        0x30 + bytes@[i] % 16
                    } else {
                        0x57 + bytes@[i] % 16
                    })
                }
        }),
{
    proof {
        lemma_hex_of_digits(bytes@);
    }
    if utf8 {
        let mut out: Vec<u8> = Vec::new();
        extend_bytes(&mut out, bytes);
        assert(out@ =~= bytes@);
        out
    } else {
        hex_bytes(bytes)
    }
}

/// How a value is shown: as it is when it is valid UTF-8, else in hexadecimal.
pub fn render_bytes(bytes: &[u8]) -> (out: Vec<u8>)
    ensures
        out@ == rendered(bytes@, valid_utf8(bytes@)),
        valid_utf8(bytes@) ==> out@ == bytes@,
        !valid_utf8(bytes@) ==> ({
            &&& out@.len() == 2 * bytes@.len()
            &&& forall|i: int|
                0 <= i < bytes@.len() ==> {
                    &&& #[trigger] out@[2 * i] == (if bytes@[i] / 16 < 10 {
                        0x30 + bytes@[i] / 16
                    } else {
                        0x57 + bytes@[i] / 16
                    })
                    &&& out@[2 * i + 1] == (if bytes@[i] % 16 < 10 {
                        0x30 + bytes@[i] % 16
                    } else {
                        0x57 + bytes@[i] % 16
                    })
                }
        }),
{
    let utf8 = utf8_valid(bytes);
    let out = render_with(bytes, utf8);
    proof {
        if !utf8 {
            assert forall|i: int| 0 <= i < bytes@.len() implies {
                &&& #[trigger] out@[2 * i] == (if bytes@[i] / 16 < 10 {
                    0x30 + bytes@[i] / 16
                } else {
                    0x57 + bytes@[i] / 16
                })
                &&& out@[2 * i + 1] == (if bytes@[i] % 16 < 10 {
                    0x30 + bytes@[i] % 16
                } else {
                    0x57 + bytes@[i] % 16
                })
            } by {
                assert(out@[2 * i] == out@[2 * i]);
            }
        }
    }
    out
}

/// The line that answers `response`, given whether the value it carries, if any, is text;
/// a refusal becomes an error with its message.
pub fn response_text_with(response: Response, utf8: bool) -> (r: Result<Vec<u8>, Error>)
    ensures
        answered_as(r, response_line(response, utf8)),
{
    match response {
        Response::Done => {
            let mut out: Vec<u8> = Vec::new();
            out.push(0x6f);
            out.push(0x6b);
            assert(out@ =~= ok_text());
            Ok(out)
        },
        Response::Value(Some(v)) => Ok(render_with(v.as_slice(), utf8)),
        Response::Value(None) => {
            let mut out: Vec<u8> = Vec::new();
            out.push(0x6e);
            out.push(0x6f);
            out.push(0x74);
            out.push(0x20);
            out.push(0x66);
            out.push(0x6f);
            out.push(0x75);
            out.push(0x6e);
            out.push(0x64);
            assert(out@ =~= not_found_text());
            Ok(out)
        },
        Response::Stats { keys } => Ok(decimal_bytes(keys)),
        Response::Error(message) => Err(Error::Invalid(message)),
    }
}

/// The line that answers `response`: `ok`, the value (as it is when it is valid UTF-8,
/// else in hexadecimal), `not found`, or the number of keys; a refusal becomes an error
/// with its message.
pub fn response_text(response: Response) -> (r: Result<Vec<u8>, Error>)
    ensures
        answered_as(
            r,
            response_line(
                response,
                match response {
                    Response::Value(Some(v)) => valid_utf8(v@),
                    _ => true,
                },
            ),
        ),
        match response {
            Response::Value(Some(v)) => {
                &&& valid_utf8(v@) ==> (r matches Ok(o) && o@ == v@)
                &&& !valid_utf8(v@) ==> (r matches Ok(o) && o@.len() == 2 * v@.len())
            },
            Response::Done => r matches Ok(o) && o@ == seq![0x6fu8, 0x6bu8],
            Response::Error(m) => r matches Err(Error::Invalid(e)) && e@ == m@,
            _ => true,
        },
{
    proof {
        if response is Value && response->Value_0 is Some {
            lemma_hex_of_digits(response->Value_0->0@);
        }
    }
    let utf8 = match &response {
        Response::Value(Some(v)) => utf8_valid(v.as_slice()),
        _ => true,
    };
    response_text_with(response, utf8)
}

} // verus!
