//! The boot image's kernel command line: `<S>`/`<E>` markers around a
//! whitespace-collapsed command line, and the split of its bytes over the
//! header's `cmdline` and `extra_cmdline` fields.

use vstd::prelude::*;
use vstd::string::{StrSliceExecFns, StringExecFns};

use crate::assembler::{pad_to, push_bytes};
use crate::boot_header::{CMDLINE_FIELDS_SIZE, CMDLINE_FIELD_SIZE};
use crate::cmdline::{text_len, zeros};
use crate::codecs::spec_utf8_lossy;
use vstd::utf8::{decode_utf8, valid_utf8};

verus! {

/// Bytes available for the command line: 511 + 1023.
pub const CMDLINE_CAPACITY: usize = 1534;

/// The characters `split_ascii_whitespace` splits at.
pub open spec fn is_ascii_ws(c: char) -> bool {
    c == ' ' || c == '\t' || c == '\n' || c == '\x0C' || c == '\r'
}

/// Collapsing `s` from index `i`, with `out` collapsed so far and
/// `in_token` telling whether the last character seen was part of a word.
pub open spec fn collapse_from(s: Seq<char>, i: int, out: Seq<char>, in_token: bool) -> Seq<char>
    decreases s.len() - i,
{
    if i < 0 || i >= s.len() {
        out
    } else if is_ascii_ws(s[i]) {
        collapse_from(s, i + 1, out, false)
    } else if !in_token && out.len() > 0 {
        collapse_from(s, i + 1, out.push(' ').push(s[i]), true)
    } else {
        collapse_from(s, i + 1, out.push(s[i]), true)
    }
}

/// The words of `s`, split at ASCII whitespace and joined by single spaces.
pub open spec fn collapse(s: Seq<char>) -> Seq<char> {
    collapse_from(s, 0, Seq::empty(), false)
}

/// `<S> `, the marker a marked command line starts with.
pub open spec fn start_marker() -> Seq<char> {
    seq!['<', 'S', '>', ' ']
}

/// ` <E>`, the marker a marked command line ends with.
pub open spec fn end_marker() -> Seq<char> {
    seq![' ', '<', 'E', '>']
}

/// `<S> <E>`, the marked empty command line.
pub open spec fn empty_marked() -> Seq<char> {
    seq!['<', 'S', '>', ' ', '<', 'E', '>']
}

/// `text` already carries both markers.
pub open spec fn is_marked(text: Seq<char>) -> bool {
    text == empty_marked() || (text.len() >= 4 && text.subrange(0, 4) == start_marker() && text.subrange(
        text.len() - 4,
        text.len() as int,
    ) == end_marker())
}

/// What `wrap_cmdline_markers` makes of `cmdline`.
pub open spec fn spec_wrap_cmdline_markers(cmdline: Seq<char>) -> Seq<char> {
    let collapsed = collapse(cmdline);
    if is_marked(collapsed) {
        collapsed
    } else if collapsed.len() == 0 {
        empty_marked()
    } else {
        start_marker() + collapsed + end_marker()
    }
}

/// Whether `c` is ASCII whitespace.
fn is_ascii_whitespace_char(c: char) -> (ws: bool)
    ensures
        ws == is_ascii_ws(c),
{
    c == ' ' || c == '\t' || c == '\n' || c == '\x0C' || c == '\r'
}

/// The words of `input` joined by single spaces.
pub fn collapse_whitespace(input: &str) -> (collapsed: String)
    ensures
        collapsed@ == collapse(input@),
{
    let n = input.unicode_len();
    let mut out = String::new();
    let mut started = false;
    let mut in_token = false;
    let mut i: usize = 0;
    proof {
        reveal_strlit(" ");
    }
    while i < n
        invariant
            n == input@.len(),
            i <= n,
            started == (out@.len() > 0),
            collapse_from(input@, i as int, out@, in_token) == collapse(input@),
            " "@ == seq![' '],
        decreases n - i,
    {
        let c = input.get_char(i);
        let ghost before = out@;
        if is_ascii_whitespace_char(c) {
            in_token = false;
        } else {
            let spaced = !in_token && started;
            if spaced {
                out.append(" ");
            }
            out.append(input.substring_char(i, i + 1));
            proof {
                if spaced {
                    assert(out@ =~= before.push(' ').push(c));
                } else {
                    assert(out@ =~= before.push(c));
                }
            }
            in_token = true;
            started = true;
        }
        i += 1;
    }
    out
}

/// Whether the first and last four characters of `text` are the markers.
fn has_markers(text: &str) -> (marked: bool)
    ensures
        marked == is_marked(text@),
{
    let n = text.unicode_len();
    if n < 4 {
        proof {
            if text@ == empty_marked() {
                assert(text@.len() == 7);
            }
        }
        return false;
    }
    let marked = text.get_char(0) == '<' && text.get_char(1) == 'S' && text.get_char(2) == '>' && text.get_char(3)
        == ' ' && text.get_char(n - 4) == ' ' && text.get_char(n - 3) == '<' && text.get_char(n - 2) == 'E'
        && text.get_char(n - 1) == '>';
    proof {
        let s = text@;
        if marked {
            assert(s.subrange(0, 4) =~= start_marker());
            assert(s.subrange(s.len() - 4, s.len() as int) =~= end_marker());
        } else {
            if s.subrange(0, 4) == start_marker() && s.subrange(s.len() - 4, s.len() as int) == end_marker() {
                assert(s[0] == s.subrange(0, 4)[0]);
                assert(s[1] == s.subrange(0, 4)[1]);
                assert(s[2] == s.subrange(0, 4)[2]);
                assert(s[3] == s.subrange(0, 4)[3]);
                assert(s[n - 4] == s.subrange(s.len() - 4, s.len() as int)[0]);
                assert(s[n - 3] == s.subrange(s.len() - 4, s.len() as int)[1]);
                assert(s[n - 2] == s.subrange(s.len() - 4, s.len() as int)[2]);
                assert(s[n - 1] == s.subrange(s.len() - 4, s.len() as int)[3]);
            }
            if s == empty_marked() {
                assert(s.subrange(0, 4) =~= start_marker());
                assert(s.subrange(s.len() - 4, s.len() as int) =~= end_marker());
            }
        }
    }
    marked
}

/// `"<S> {cmdline} <E>"`, idempotent and whitespace-collapsed.
pub fn wrap_cmdline_markers(cmdline: &str) -> (wrapped: String)
    ensures
        wrapped@ == spec_wrap_cmdline_markers(cmdline@),
{
    let collapsed = collapse_whitespace(cmdline);
    if has_markers(collapsed.as_str()) {
        return collapsed;
    }
    proof {
        reveal_strlit("<S> <E>");
        reveal_strlit("<S> ");
        reveal_strlit(" <E>");
    }
    if collapsed.as_str().unicode_len() == 0 {
        let empty = String::from_str("<S> <E>");
        assert(empty@ =~= empty_marked());
        return empty;
    }
    let mut out = String::from_str("<S> ");
    out.append(collapsed.as_str());
    out.append(" <E>");
    assert(out@ =~= start_marker() + collapse(cmdline@) + end_marker());
    out
}

/// The header's two command line fields holding `content`: up to 511
/// bytes in the first, the rest in the second, each NUL-padded.
pub open spec fn spec_cmdline_fields(content: Seq<u8>) -> Seq<u8> {
    let head = if content.len() < CMDLINE_FIELD_SIZE - 1 { content.len() as int } else { CMDLINE_FIELD_SIZE - 1 };
    content.subrange(0, head) + zeros(CMDLINE_FIELD_SIZE - head) + content.subrange(head, content.len() as int)
        + zeros(CMDLINE_FIELDS_SIZE - CMDLINE_FIELD_SIZE - (content.len() - head))
}

/// The text of one NUL-terminated command line field: the UTF-8 decoding
/// of the bytes before the NUL, or their lossy decoding when they are not
/// UTF-8.
pub closed spec fn field_text(field: Seq<u8>) -> Seq<char> {
    let bytes = field.subrange(0, text_len(field, 0));
    if valid_utf8(bytes) {
        decode_utf8(bytes)
    } else {
        spec_utf8_lossy(bytes)
    }
}

/// What `field_text` is.
pub proof fn lemma_field_text(field: Seq<u8>)
    ensures
        field_text(field) == (if valid_utf8(field.subrange(0, text_len(field, 0))) {
            decode_utf8(field.subrange(0, text_len(field, 0)))
        } else {
            spec_utf8_lossy(field.subrange(0, text_len(field, 0)))
        }),
{
}

/// Splits a command line over the `cmdline` and `extra_cmdline` fields,
/// each kept NUL-terminated.
pub fn cmdline_fields(content: &[u8]) -> (fields: Vec<u8>)
    requires
        content@.len() <= CMDLINE_CAPACITY,
    ensures
        fields@ == spec_cmdline_fields(content@),
        fields@.len() == CMDLINE_FIELDS_SIZE,
{
    let head = if content.len() < CMDLINE_FIELD_SIZE - 1 { content.len() } else { CMDLINE_FIELD_SIZE - 1 };
    let mut fields: Vec<u8> = Vec::with_capacity(CMDLINE_FIELDS_SIZE);
    push_bytes(&mut fields, &content[0..head]);
    pad_to(&mut fields, CMDLINE_FIELD_SIZE);
    push_bytes(&mut fields, &content[head..content.len()]);
    pad_to(&mut fields, CMDLINE_FIELDS_SIZE);
    fields
}


/// `text` is collapsed: each whitespace character in it is a single space
/// between two words.
pub open spec fn is_collapsed(text: Seq<char>) -> bool {
    forall|k: int|
        0 <= k < text.len() && is_ascii_ws(#[trigger] text[k]) ==> text[k] == ' ' && 0 < k < text.len() - 1
            && !is_ascii_ws(text[k - 1]) && !is_ascii_ws(text[k + 1])
}

proof fn lemma_collapse_from_is_collapsed(s: Seq<char>, i: int, out: Seq<char>, in_token: bool)
    requires
        is_collapsed(out),
        out.len() > 0 ==> !is_ascii_ws(out.last()),
    ensures
        is_collapsed(collapse_from(s, i, out, in_token)),
    decreases s.len() - i,
{
    if i < 0 || i >= s.len() {
    } else if is_ascii_ws(s[i]) {
        lemma_collapse_from_is_collapsed(s, i + 1, out, false);
    } else if !in_token && out.len() > 0 {
        let next = out.push(' ').push(s[i]);
        assert forall|k: int| 0 <= k < next.len() && is_ascii_ws(#[trigger] next[k]) implies next[k] == ' ' && 0 < k
            < next.len() - 1 && !is_ascii_ws(next[k - 1]) && !is_ascii_ws(next[k + 1]) by {
            if k < out.len() {
                assert(next[k] == out[k]);
                if k + 1 < out.len() {
                    assert(next[k + 1] == out[k + 1]);
                }
                assert(next[k - 1] == out[k - 1]);
            }
        }
        lemma_collapse_from_is_collapsed(s, i + 1, next, true);
    } else {
        let next = out.push(s[i]);
        assert forall|k: int| 0 <= k < next.len() && is_ascii_ws(#[trigger] next[k]) implies next[k] == ' ' && 0 < k
            < next.len() - 1 && !is_ascii_ws(next[k - 1]) && !is_ascii_ws(next[k + 1]) by {
            if k < out.len() {
                assert(next[k] == out[k]);
                if k + 1 < out.len() {
                    assert(next[k + 1] == out[k + 1]);
                }
                assert(next[k - 1] == out[k - 1]);
            }
        }
        lemma_collapse_from_is_collapsed(s, i + 1, next, true);
    }
}

proof fn lemma_collapse_from_keeps(t: Seq<char>, i: int, out: Seq<char>, in_token: bool)
    requires
        is_collapsed(t),
        0 <= i <= t.len(),
        (i == 0 && out.len() == 0 && !in_token) || (i > 0 && !is_ascii_ws(t[i - 1]) && in_token && out == t.subrange(
            0,
            i,
        )) || (i > 1 && t[i - 1] == ' ' && !in_token && out == t.subrange(0, i - 1)),
    ensures
        collapse_from(t, i, out, in_token) == t,
    decreases t.len() - i,
{
    if i >= t.len() {
        if i > 0 && t[i - 1] == ' ' {
            assert(is_ascii_ws(t[i - 1]));
        }
        if i == 0 {
            assert(out =~= t);
        } else {
            assert(out =~= t);
        }
    } else if is_ascii_ws(t[i]) {
        assert(t[i] == ' ');
        lemma_collapse_from_keeps(t, i + 1, out, false);
    } else if !in_token && out.len() > 0 {
        assert(out.push(' ').push(t[i]) =~= t.subrange(0, i + 1));
        lemma_collapse_from_keeps(t, i + 1, out.push(' ').push(t[i]), true);
    } else {
        assert(out.push(t[i]) =~= t.subrange(0, i + 1));
        lemma_collapse_from_keeps(t, i + 1, out.push(t[i]), true);
    }
}

/// Collapsing a collapsed command line changes nothing.
pub proof fn lemma_collapse_of_collapsed(text: Seq<char>)
    requires
        is_collapsed(text),
    ensures
        collapse(text) == text,
{
    lemma_collapse_from_keeps(text, 0, Seq::empty(), false);
}

/// What collapsing gives is collapsed.
pub proof fn lemma_collapse_is_collapsed(text: Seq<char>)
    ensures
        is_collapsed(collapse(text)),
{
    lemma_collapse_from_is_collapsed(text, 0, Seq::empty(), false);
}

/// Wrapping a command line in markers a second time changes nothing.
pub proof fn lemma_wrap_cmdline_markers_idempotent(cmdline: Seq<char>)
    ensures
        spec_wrap_cmdline_markers(spec_wrap_cmdline_markers(cmdline)) == spec_wrap_cmdline_markers(cmdline),
{
    let c = collapse(cmdline);
    lemma_collapse_is_collapsed(cmdline);
    let r = spec_wrap_cmdline_markers(cmdline);
    if is_marked(c) {
    } else if c.len() == 0 {
        let e = empty_marked();
        assert forall|k: int| 0 <= k < e.len() && is_ascii_ws(#[trigger] e[k]) implies e[k] == ' ' && 0 < k < e.len()
            - 1 && !is_ascii_ws(e[k - 1]) && !is_ascii_ws(e[k + 1]) by {
            assert(k == 3);
        }
    } else {
        let n = c.len() as int;
        assert(!is_ascii_ws(c[0])) by {
            if is_ascii_ws(c[0]) {
                assert(0 < 0);
            }
        }
        assert(!is_ascii_ws(c[n - 1])) by {
            if is_ascii_ws(c[n - 1]) {
                assert(n - 1 < n - 1);
            }
        }
        assert forall|k: int| 0 <= k < r.len() && is_ascii_ws(#[trigger] r[k]) implies r[k] == ' ' && 0 < k < r.len()
            - 1 && !is_ascii_ws(r[k - 1]) && !is_ascii_ws(r[k + 1]) by {
            if 4 <= k < 4 + n {
                assert(r[k] == c[k - 4]);
                if 4 < k {
                    assert(r[k - 1] == c[k - 5]);
                }
                if k < 3 + n {
                    assert(r[k + 1] == c[k - 3]);
                }
            } else if k == 3 {
                assert(r[4] == c[0]);
            } else if k == 4 + n {
                assert(r[k - 1] == c[n - 1]);
            }
        }
        assert(r.subrange(0, 4) =~= start_marker());
        assert(r.subrange(r.len() - 4, r.len() as int) =~= end_marker());
    }
    lemma_collapse_of_collapsed(r);
}

} // verus!
