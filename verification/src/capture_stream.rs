//! Splitting the collector's output into bounded lines. A line longer than
//! the bound is rejected whole: its tail never becomes a record of its own.
use vstd::prelude::*;
use crate::text::owned;

verus! {

/// Name for what `std::str::from_utf8` makes of bytes: the text, or the
/// `Utf8Error` message.
pub uninterp spec fn utf8_result(bytes: Seq<u8>) -> Result<Seq<char>, Seq<char>>;

/// Calls `std::str::from_utf8`. Claimed: the result is `utf8_result` of the
/// bytes; it is `Ok` exactly for valid UTF-8, as std documents, and then
/// holds the decoded text. The wording of the error is left unstated.
#[verifier::external_body]
fn utf8_text(bytes: &[u8]) -> (r: Result<String, String>)
    ensures
        match r {
            Ok(s) => utf8_result(bytes@) == Ok::<Seq<char>, Seq<char>>(s@) && s@ == vstd::utf8::decode_utf8(bytes@),
            Err(m) => utf8_result(bytes@) == Err::<Seq<char>, Seq<char>>(m@),
        },
        r is Ok <==> vstd::utf8::valid_utf8(bytes@),
{
    match std::str::from_utf8(bytes) {
        Ok(s) => Ok(s.to_string()),
        Err(e) => Err(e.to_string()),
    }
}

/// Position of the first `b` in `s`.
pub open spec fn first_byte(s: Seq<u8>, b: u8) -> Option<int>
    decreases s.len(),
{
    if s.len() == 0 {
        None
    } else if s[0] == b {
        Some(0)
    } else {
        match first_byte(s.skip(1), b) {
            Some(i) => Some(i + 1),
            None => None,
        }
    }
}

proof fn lemma_first_byte_is(s: Seq<u8>, b: u8, k: Option<int>)
    requires
        match k {
            Some(k) => 0 <= k < s.len() && s[k] == b && forall|j: int| 0 <= j < k ==> #[trigger] s[j] != b,
            None => forall|j: int| 0 <= j < s.len() ==> #[trigger] s[j] != b,
        },
    ensures
        first_byte(s, b) == k,
    decreases s.len(),
{
    if s.len() > 0 && s[0] != b {
        let t = s.skip(1);
        let kt = match k { Some(k) => Some(k - 1), None => None::<int> };
        match k {
            Some(k) => {
                assert forall|j: int| 0 <= j < k - 1 implies #[trigger] t[j] != b by { assert(t[j] == s[j + 1]); }
                assert(t[k - 1] == s[k]);
            },
            None => {
                assert forall|j: int| 0 <= j < t.len() implies #[trigger] t[j] != b by { assert(t[j] == s[j + 1]); }
            },
        }
        lemma_first_byte_is(t, b, kt);
    }
}

/// The bytes of the next line, its newline included.
pub open spec fn piece_len(s: Seq<u8>) -> int {
    match first_byte(s, 10) {
        Some(k) => k + 1,
        None => s.len() as int,
    }
}

/// A line without its trailing carriage returns and newlines.
pub open spec fn strip_eol(b: Seq<u8>) -> Seq<u8>
    decreases b.len(),
{
    if b.len() > 0 && (b.last() == 10 || b.last() == 13) { strip_eol(b.drop_last()) } else { b }
}

/// Why a line was rejected.
#[derive(Debug)]
pub enum LineError {
    /// Longer than the bound; the rest of it was skipped.
    TooLong,
    /// Not UTF-8; the decoder's message.
    Invalid(String),
}

pub open spec fn line_error_text(e: LineError) -> Seq<char> {
    match e {
        LineError::TooLong => "collector line exceeded bounded buffer; raw tail rejected"@,
        LineError::Invalid(m) => m@,
    }
}

impl LineError {
    pub fn message(&self) -> (r: String)
        ensures
            r@ == line_error_text(*self),
    {
        match self {
            LineError::TooLong => owned("collector line exceeded bounded buffer; raw tail rejected"),
            LineError::Invalid(m) => m.clone(),
        }
    }
}

/// The lines of `s`, each at most `limit` bytes with its newline; a longer
/// one is an error in its place. `Err(None)` stands for an over-long line,
/// `Err(Some(m))` for invalid UTF-8.
pub open spec fn bounded_lines_of(s: Seq<u8>, limit: nat) -> Seq<Result<Seq<char>, Option<Seq<char>>>>
    decreases s.len(),
{
    if s.len() == 0 {
        seq![]
    } else {
        let p = piece_len(s);
        let item = if p > limit {
            Err(None)
        } else {
            match utf8_result(strip_eol(s.take(p))) {
                Ok(t) => Ok(t),
                Err(m) => Err(Some(m)),
            }
        };
        if 0 < p <= s.len() { seq![item] + bounded_lines_of(s.skip(p), limit) } else { seq![] }
    }
}

pub open spec fn line_view(r: Result<String, LineError>) -> Result<Seq<char>, Option<Seq<char>>> {
    match r {
        Ok(s) => Ok(s@),
        Err(LineError::TooLong) => Err(None),
        Err(LineError::Invalid(m)) => Err(Some(m@)),
    }
}

pub open spec fn lines_view(v: Seq<Result<String, LineError>>) -> Seq<Result<Seq<char>, Option<Seq<char>>>> {
    v.map_values(|r: Result<String, LineError>| line_view(r))
}

/// Splits collector output into lines of at most `limit` bytes.
pub fn bounded_lines(input: &[u8], limit: usize) -> (r: Vec<Result<String, LineError>>)
    ensures
        lines_view(r@) == bounded_lines_of(input@, limit as nat),
{
    let n = input.len();
    let mut out: Vec<Result<String, LineError>> = Vec::new();
    let mut pos: usize = 0;
    proof {
        assert(input@.skip(0) == input@);
        assert(lines_view(out@) + bounded_lines_of(input@, limit as nat) == bounded_lines_of(input@, limit as nat));
    }
    while pos < n
        invariant
            n == input@.len(),
            pos <= n,
            lines_view(out@) + bounded_lines_of(input@.skip(pos as int), limit as nat) == bounded_lines_of(input@, limit as nat),
        decreases n - pos,
    {
        let ghost rest = input@.skip(pos as int);
        let mut i: usize = pos;
        while i < n && input[i] != 10
            invariant
                pos <= i <= n,
                n == input@.len(),
                forall|j: int| pos <= j < i ==> #[trigger] input@[j] != 10,
            decreases n - i,
        {
            i += 1;
        }
        proof {
            if i < n {
                assert forall|j: int| 0 <= j < i - pos implies #[trigger] rest[j] != 10 by { assert(rest[j] == input@[pos + j]); }
                assert(rest[i - pos] == input@[i as int]);
                lemma_first_byte_is(rest, 10, Some(i - pos));
            } else {
                assert forall|j: int| 0 <= j < rest.len() implies #[trigger] rest[j] != 10 by { assert(rest[j] == input@[pos + j]); }
                lemma_first_byte_is(rest, 10, None);
            }
        }
        let end: usize = if i < n { i + 1 } else { n };
        let p = end - pos;
        let item: Result<String, LineError> = if p > limit {
            Err(LineError::TooLong)
        } else {
            let mut stop = end;
            while stop > pos && (input[stop - 1] == 10 || input[stop - 1] == 13)
                invariant
                    pos <= stop <= end <= n,
                    n == input@.len(),
                    strip_eol(input@.subrange(pos as int, end as int)) == strip_eol(input@.subrange(pos as int, stop as int)),
                decreases stop,
            {
                assert(input@.subrange(pos as int, stop as int).drop_last() == input@.subrange(pos as int, stop - 1));
                stop -= 1;
            }
            proof {
                let t = input@.subrange(pos as int, stop as int);
                if stop > pos {
                    assert(t.last() == input@[stop - 1]);
                }
                assert(strip_eol(t) == t);
                assert(rest.take(p as int) == input@.subrange(pos as int, end as int));
            }
            let line = crate::text::slice_bytes(input, pos, stop);
            match utf8_text(line.as_slice()) {
                Ok(s) => Ok(s),
                Err(m) => Err(LineError::Invalid(m)),
            }
        };
        proof {
            assert(rest.skip(p as int) == input@.skip(end as int));
            assert(lines_view(out@.push(item)) == lines_view(out@).push(line_view(item)));
        }
        out.push(item);
        pos = end;
    }
    proof {
        assert(input@.skip(pos as int) == Seq::<u8>::empty());
    }
    out
}

} // verus!
