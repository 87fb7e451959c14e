//! Privacy redaction of diagnostic details: a detail keeps its words, except
//! that every word naming a file path becomes `<redacted-path>`.
use vstd::prelude::*;
use crate::adb::join_space;
use crate::text::{chars_contain, chars_start_with, contains, push_str, split_words, starts_with, str_chars,
    string_from_chars, words_of, chars_of};

verus! {

/// Whether a word names a path: an Android data or storage path, an
/// absolute path, or a drive-letter path (an ASCII first character, `:`
/// second, and a slash or backslash somewhere).
pub open spec fn names_path(t: Seq<char>) -> bool {
    ||| contains(t, "/data/"@)
    ||| contains(t, "/storage/"@)
    ||| starts_with(t, "/"@)
    ||| (t.len() >= 2 && (t[0] as u32) < 0x80 && t[1] == ':' && (contains(t, "\\"@) || contains(t, "/"@)))
}

pub open spec fn redact_word(t: Seq<char>) -> Seq<char> {
    if names_path(t) { "<redacted-path>"@ } else { t }
}

/// The detail's words, redacted, joined by single spaces.
pub open spec fn redacted(detail: Seq<char>) -> Seq<char> {
    join_space(words_of(detail).map_values(|t: Seq<char>| redact_word(t)))
}

fn word_names_path(t: &Vec<char>) -> (r: bool)
    ensures
        r == names_path(t@),
{
    let data = str_chars("/data/");
    let storage = str_chars("/storage/");
    let slash = str_chars("/");
    let backslash = str_chars("\\");
    if chars_contain(t.as_slice(), data.as_slice()) || chars_contain(t.as_slice(), storage.as_slice())
        || chars_start_with(t.as_slice(), "/") {
        return true;
    }
    t.len() >= 2 && (t[0] as u32) < 0x80 && t[1] == ':'
        && (chars_contain(t.as_slice(), backslash.as_slice()) || chars_contain(t.as_slice(), slash.as_slice()))
}

/// The detail with every path-naming word replaced by `<redacted-path>`;
/// whitespace runs collapse to single spaces.
pub fn redact_detail(detail: &str) -> (r: String)
    ensures
        r@ == redacted(detail@),
{
    let chars = str_chars(detail);
    let words = split_words(chars.as_slice());
    let ghost ws = chars_of(words@);
    let ghost parts = ws.map_values(|t: Seq<char>| redact_word(t));
    let mut out: Vec<char> = Vec::new();
    let mut i: usize = 0;
    while i < words.len()
        invariant
            i <= words@.len(),
            ws == chars_of(words@),
            ws == words_of(detail@),
            parts == ws.map_values(|t: Seq<char>| redact_word(t)),
            out@ == join_space(parts.take(i as int)),
        decreases words.len() - i,
    {
        if i > 0 {
            out.push(' ');
        }
        if word_names_path(&words[i]) {
            push_str(&mut out, "<redacted-path>");
        } else {
            let w = &words[i];
            let mut j: usize = 0;
            let ghost before = out@;
            while j < w.len()
                invariant
                    j <= w@.len(),
                    out@ == before + w@.take(j as int),
                decreases w.len() - j,
            {
                out.push(w[j]);
                j += 1;
                assert(out@ =~= before + w@.take(j as int));
            }
            assert(w@.take(w@.len() as int) =~= w@);
        }
        proof {
            let t = parts.take(i + 1);
            assert(t.drop_last() =~= parts.take(i as int));
            assert(ws[i as int] == words@[i as int]@);
            assert(t.last() == redact_word(ws[i as int]));
            if i == 0 {
                assert(parts.take(0) =~= Seq::<Seq<char>>::empty());
            }
        }
        i += 1;
    }
    proof { assert(parts.take(parts.len() as int) =~= parts); }
    string_from_chars(out.as_slice())
}

/// A detail's text after redaction, when it has one.
pub fn sanitize_detail(detail: Option<String>) -> (r: Option<String>)
    ensures
        match detail {
            Some(d) => r matches Some(t) && t@ == redacted(d@),
            None => r is None,
        },
{
    match detail {
        Some(d) => Some(redact_detail(d.as_str())),
        None => None,
    }
}

/// Redaction leaves no word that names a path: every word of the detail
/// comes out either unchanged, when it names none, or as the marker, which
/// names none either.
pub proof fn law_redaction_leaves_no_path(detail: Seq<char>)
    ensures
        forall|i: int| 0 <= i < words_of(detail).len() ==> !#[trigger] names_path(redact_word(words_of(detail)[i])),
{
    let marker = "<redacted-path>"@;
    reveal_strlit("<redacted-path>");
    reveal_strlit("/data/");
    reveal_strlit("/storage/");
    reveal_strlit("/");
    assert forall|k: int| 0 <= k < marker.len() implies #[trigger] marker[k] != '/' by {}
    assert(!contains(marker, "/data/"@)) by {
        if contains(marker, "/data/"@) {
            let i = choose|i: int| 0 <= i && i + 6 <= marker.len() && #[trigger] marker.subrange(i, i + 6) == "/data/"@;
            assert(marker.subrange(i, i + 6)[0] == marker[i]);
        }
    }
    assert(!contains(marker, "/storage/"@)) by {
        if contains(marker, "/storage/"@) {
            let i = choose|i: int| 0 <= i && i + 9 <= marker.len() && #[trigger] marker.subrange(i, i + 9) == "/storage/"@;
            assert(marker.subrange(i, i + 9)[0] == marker[i]);
        }
    }
    assert(!starts_with(marker, "/"@)) by {
        assert(marker.take(1)[0] == marker[0]);
    }
    assert(!names_path(marker));
}

} // verus!
