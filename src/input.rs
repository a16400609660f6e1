use base64::Engine;
use vstd::prelude::*;
use vstd::string::StringSliceAdditionalSpecFns;

verus! {

/// The value of an ASCII hexadecimal digit, of either case.
pub open spec fn hex_digit(c: u8) -> Option<u8> {
    if 48 <= c <= 57 {
        Some((c - 48) as u8)
    } else if 65 <= c <= 70 {
        Some((c - 55) as u8)
    } else if 97 <= c <= 102 {
        Some((c - 87) as u8)
    } else {
        None
    }
}

/// The bytes that a string of hexadecimal digit pairs spells, or `None`
/// when its length is odd or it holds a character that is not a digit.
pub open spec fn hex_decoded(s: Seq<u8>) -> Option<Seq<u8>> {
    if s.len() % 2 == 0 && forall|i: int| 0 <= i < s.len() ==> #[trigger] hex_digit(s[i]) is Some {
        Some(
            Seq::new(
                s.len() / 2,
                |i: int| (hex_digit(s[2 * i])->0 * 16 + hex_digit(s[2 * i + 1])->0) as u8,
            ),
        )
    } else {
        None
    }
}

/// What the standard padded base64 decoding gives for `s`: the bytes, or
/// `None` when `s` is not valid base64.
pub uninterp spec fn base64_decoded(s: Seq<u8>) -> Option<Seq<u8>>;

/// Relies on `hex::decode`: it accepts an even number of hexadecimal digits
/// of either case and yields one byte per pair, high digit first; any other
/// input is an error.
#[verifier::external_body]
fn hex_decode(s: &[u8]) -> (r: Option<Vec<u8>>)
    ensures
        match hex_decoded(s@) {
            Some(b) => r matches Some(v) && v@ == b,
            None => r is None,
        },
{
    hex::decode(s).ok()
}

/// Relies on `base64::engine::general_purpose::STANDARD.decode`, whose
/// result depends on the input bytes alone.
#[verifier::external_body]
fn base64_decode(s: &[u8]) -> (r: Option<Vec<u8>>)
    ensures
        match base64_decoded(s@) {
            Some(b) => r matches Some(v) && v@ == b,
            None => r is None,
        },
{
    base64::engine::general_purpose::STANDARD.decode(s).ok()
}

/// The index of the first newline at or after `i`, or the length of `s`.
pub open spec fn next_newline(s: Seq<u8>, i: int) -> int
    decreases s.len() - i,
{
    if i < 0 || i >= s.len() {
        s.len() as int
    } else if s[i] == 10 {
        i
    } else {
        next_newline(s, i + 1)
    }
}

/// Whether a line is a PEM boundary such as `-----BEGIN CERTIFICATE-----`.
pub open spec fn is_boundary(line: Seq<u8>) -> bool {
    line.len() >= 5 && line.take(5) == seq![45u8, 45u8, 45u8, 45u8, 45u8]
}

/// The lines of `s` from index `start` on, each without its line ending
/// (a newline, or a carriage return and a newline), boundary lines left
/// out, joined with nothing between them.
pub open spec fn pem_body_from(s: Seq<u8>, start: int) -> Seq<u8>
    decreases s.len() - start,
{
    if start < 0 || start >= s.len() {
        Seq::empty()
    } else {
        let end = next_newline(s, start);
        proof {
            lemma_next_newline_bounds(s, start);
        }
        let raw = s.subrange(start, end);
        let line = if end < s.len() && raw.len() > 0 && raw.last() == 13 {
            raw.drop_last()
        } else {
            raw
        };
        (if is_boundary(line) {
            Seq::empty()
        } else {
            line
        }) + if end < s.len() {
            pem_body_from(s, end + 1)
        } else {
            Seq::empty()
        }
    }
}

pub proof fn lemma_next_newline_bounds(s: Seq<u8>, i: int)
    requires
        0 <= i <= s.len(),
    ensures
        i <= next_newline(s, i) <= s.len(),
        next_newline(s, i) < s.len() ==> s[next_newline(s, i)] == 10,
        forall|j: int| i <= j < next_newline(s, i) ==> s[j] != 10,
    decreases s.len() - i,
{
    if i < s.len() && s[i] != 10 {
        lemma_next_newline_bounds(s, i + 1);
    }
}

fn find_newline(s: &[u8], i: usize) -> (r: usize)
    requires
        i <= s@.len(),
    ensures
        r == next_newline(s@, i as int),
{
    let mut j = i;
    while j < s.len() && s[j] != 10
        invariant
            i <= j <= s@.len(),
            next_newline(s@, i as int) == next_newline(s@, j as int),
        decreases s@.len() - j,
    {
        j = j + 1;
    }
    j
}

fn starts_with_boundary(s: &[u8], start: usize, end: usize) -> (r: bool)
    requires
        start <= end <= s@.len(),
    ensures
        r == is_boundary(s@.subrange(start as int, end as int)),
{
    if end - start < 5 {
        return false;
    }
    let mut k: usize = 0;
    while k < 5
        invariant
            k <= 5,
            end - start >= 5,
            start <= end <= s@.len(),
            forall|m: int| 0 <= m < k ==> #[trigger] s@.subrange(start as int, end as int)[m] == 45u8,
        decreases 5 - k,
    {
        if s[start + k] != 45 {
            assert(s@.subrange(start as int, end as int).take(5)[k as int] != 45u8);
            return false;
        }
        k = k + 1;
    }
    assert(s@.subrange(start as int, end as int).take(5) =~= seq![45u8, 45u8, 45u8, 45u8, 45u8]);
    true
}

/// Removes PEM boundary lines and all line endings from pasted text.
pub fn strip_pem(s: &[u8]) -> (r: Vec<u8>)
    ensures
        r@ == pem_body_from(s@, 0),
{
    let mut out: Vec<u8> = Vec::new();
    let mut start: usize = 0;
    while start < s.len()
        invariant
            start <= s@.len(),
            pem_body_from(s@, 0) == out@ + pem_body_from(s@, start as int),
        decreases s@.len() - start,
    {
        let end = find_newline(s, start);
        proof {
            lemma_next_newline_bounds(s@, start as int);
        }
        let mut line_end = end;
        if end < s.len() && end > start && s[end - 1] == 13 {
            line_end = end - 1;
        }
        let ghost line = s@.subrange(start as int, line_end as int);
        assert(line == if end < s@.len() && s@.subrange(start as int, end as int).len() > 0
            && s@.subrange(start as int, end as int).last() == 13 {
            s@.subrange(start as int, end as int).drop_last()
        } else {
            s@.subrange(start as int, end as int)
        });
        let ghost before = out@;
        if !starts_with_boundary(s, start, line_end) {
            let mut k = start;
            while k < line_end
                invariant
                    start <= k <= line_end <= s@.len(),
                    out@ == before + s@.subrange(start as int, k as int),
                decreases line_end - k,
            {
                out.push(s[k]);
                k = k + 1;
                assert(out@ =~= before + s@.subrange(start as int, k as int));
            }
        } else {
            assert(out@ =~= before + Seq::<u8>::empty());
        }
        if end < s.len() {
            assert(pem_body_from(s@, 0) == out@ + pem_body_from(s@, end + 1));
            start = end + 1;
        } else {
            assert(pem_body_from(s@, 0) == out@ + pem_body_from(s@, end as int));
            start = end;
        }
    }
    assert(out@ + pem_body_from(s@, start as int) =~= out@);
    out
}

/// The bytes that pasted text stands for: after PEM boundary lines and
/// line endings are removed, the text read as hexadecimal, else as base64.
pub open spec fn decoded_input(text: Seq<u8>) -> Option<Seq<u8>> {
    let body = pem_body_from(text, 0);
    match hex_decoded(body) {
        Some(b) => Some(b),
        None => base64_decoded(body),
    }
}

/// Turns pasted text (hexadecimal, base64, or PEM-wrapped base64) into
/// bytes.
pub fn try_decode_input(input: &str) -> (r: Result<Vec<u8>, ()>)
    ensures
        match decoded_input(input.spec_bytes()) {
            Some(b) => r matches Ok(v) && v@ == b,
            None => r is Err,
        },
{
    let cleaned = strip_pem(input.as_bytes());
    match hex_decode(cleaned.as_slice()) {
        Some(bytes) => Ok(bytes),
        None => match base64_decode(cleaned.as_slice()) {
            Some(bytes) => Ok(bytes),
            None => Err(()),
        },
    }
}

} // verus!
