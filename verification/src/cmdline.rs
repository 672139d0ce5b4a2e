//! Filtering of the kernel command line that the bootloader hands over in
//! `/chosen/bootargs`: only what the user placed between the `<S>` and `<E>`
//! markers survives, plus the bootloader's `androidboot.*` arguments.

use vstd::prelude::*;

verus! {

/// `<S>`, the token that opens the user's command line.
pub const CMDLINE_START: [u8; 3] = [60, 83, 62];
/// `<E>`, the token that closes it.
pub const CMDLINE_END: [u8; 3] = [60, 69, 62];
/// `androidboot.`, the prefix of the bootloader arguments that are kept.
pub const ANDROIDBOOT_PREFIX: [u8; 12] = [97, 110, 100, 114, 111, 105, 100, 98, 111, 111, 116, 46];

/// Space, tab, newline or carriage return.
pub open spec fn is_space(byte: u8) -> bool {
    byte == 32 || byte == 9 || byte == 10 || byte == 13
}

/// The index of the first NUL at or after `pos`, or the length.
pub open spec fn text_len(value: Seq<u8>, pos: int) -> int
    decreases value.len() - pos,
{
    if pos >= value.len() || value[pos] == 0 {
        pos
    } else {
        text_len(value, pos + 1)
    }
}

/// The first position at or after `pos` that is not a space, or `end`.
pub open spec fn skip_spaces(value: Seq<u8>, pos: int, end: int) -> int
    decreases end - pos,
{
    if pos < end && is_space(value[pos]) {
        skip_spaces(value, pos + 1, end)
    } else {
        pos
    }
}

/// `end` moved back over the spaces just before it.
pub open spec fn trim_end(value: Seq<u8>, end: int) -> int
    decreases end,
{
    if end > 0 && is_space(value[end - 1]) {
        trim_end(value, end - 1)
    } else {
        end
    }
}

/// Where a token that has reached `pos` ends: at the first space outside
/// double quotes, or at `len`.
pub open spec fn token_end(value: Seq<u8>, pos: int, len: int, in_quote: bool) -> int
    decreases len - pos,
{
    if pos >= len {
        pos
    } else if value[pos] == 34 {
        token_end(value, pos + 1, len, !in_quote)
    } else if is_space(value[pos]) && !in_quote {
        pos
    } else {
        token_end(value, pos + 1, len, in_quote)
    }
}

/// The next token of `value[..len]` at or after `pos`, as `(start, end)`.
pub open spec fn spec_next_token(value: Seq<u8>, len: int, pos: int) -> Option<(int, int)> {
    let start = skip_spaces(value, pos, len);
    if start >= len {
        None
    } else {
        Some((start, token_end(value, start, len, false)))
    }
}

proof fn lemma_skip_spaces(value: Seq<u8>, pos: int, end: int)
    requires
        0 <= pos,
        end <= value.len(),
    ensures
        pos <= skip_spaces(value, pos, end),
        pos < end ==> skip_spaces(value, pos, end) <= end,
        skip_spaces(value, pos, end) < end ==> !is_space(value[skip_spaces(value, pos, end)]),
        pos < end && is_space(value[pos]) ==> pos < skip_spaces(value, pos, end),
    decreases end - pos,
{
    if pos < end && is_space(value[pos]) {
        lemma_skip_spaces(value, pos + 1, end);
    }
}

proof fn lemma_token_end(value: Seq<u8>, pos: int, len: int, in_quote: bool)
    requires
        0 <= pos <= len,
        len <= value.len(),
    ensures
        pos <= token_end(value, pos, len, in_quote) <= len,
        token_end(value, pos, len, in_quote) < len ==> is_space(value[token_end(value, pos, len, in_quote)]),
    decreases len - pos,
{
    if pos < len {
        if value[pos] == 34 {
            lemma_token_end(value, pos + 1, len, !in_quote);
        } else if !(is_space(value[pos]) && !in_quote) {
            lemma_token_end(value, pos + 1, len, in_quote);
        }
    }
}

/// A token is never empty, and when it stops short of `len` it stops at a
/// space.
proof fn lemma_next_token(value: Seq<u8>, len: int, pos: int)
    requires
        0 <= pos,
        len <= value.len(),
    ensures
        spec_next_token(value, len, pos) matches Some((s, e)) ==> {
            &&& pos <= s < e <= len
            &&& e < len ==> is_space(value[e])
            &&& pos < len && is_space(value[pos]) ==> pos < s
        },
{
    lemma_skip_spaces(value, pos, len);
    let s = skip_spaces(value, pos, len);
    if s < len {
        lemma_token_end(value, s, len, false);
        lemma_token_end(value, s + 1, len, value[s] == 34);
    }
}

/// Tokenization reads nothing before `pos` and nothing at or after `len`.
proof fn lemma_next_token_frame(a: Seq<u8>, b: Seq<u8>, len: int, pos: int)
    requires
        0 <= pos,
        len <= a.len(),
        len <= b.len(),
        forall|i: int| pos <= i < len ==> a[i] == b[i],
    ensures
        spec_next_token(a, len, pos) == spec_next_token(b, len, pos),
{
    lemma_skip_frame(a, b, pos, len);
    let s = skip_spaces(a, pos, len);
    lemma_skip_spaces(a, pos, len);
    if s < len {
        lemma_token_end_frame(a, b, s, len, false);
    }
}

proof fn lemma_skip_frame(a: Seq<u8>, b: Seq<u8>, pos: int, end: int)
    requires
        0 <= pos,
        end <= a.len(),
        end <= b.len(),
        forall|i: int| pos <= i < end ==> a[i] == b[i],
    ensures
        skip_spaces(a, pos, end) == skip_spaces(b, pos, end),
    decreases end - pos,
{
    if pos < end && is_space(a[pos]) {
        lemma_skip_frame(a, b, pos + 1, end);
    }
}

proof fn lemma_token_end_frame(a: Seq<u8>, b: Seq<u8>, pos: int, len: int, in_quote: bool)
    requires
        0 <= pos,
        len <= a.len(),
        len <= b.len(),
        forall|i: int| pos <= i < len ==> a[i] == b[i],
    ensures
        token_end(a, pos, len, in_quote) == token_end(b, pos, len, in_quote),
    decreases len - pos,
{
    if pos < len {
        if a[pos] == 34 {
            lemma_token_end_frame(a, b, pos + 1, len, !in_quote);
        } else if !(is_space(a[pos]) && !in_quote) {
            lemma_token_end_frame(a, b, pos + 1, len, in_quote);
        }
    }
}

/// The first `<E>` token of `value[..len]` at or after `pos`.
pub open spec fn find_end_marker(value: Seq<u8>, len: int, pos: int) -> Option<(int, int)>
    decreases len - pos,
{
    match spec_next_token(value, len, pos) {
        None => None,
        Some((start, end)) => if value.subrange(start, end) == CMDLINE_END@ {
            Some((start, end))
        } else if end <= pos || end > len {
            None
        } else {
            find_end_marker(value, len, end)
        },
    }
}

/// The first `<S>` token of `value[..len]` at or after `pos`, paired with
/// the first `<E>` token after it; `None` when either is missing.
pub open spec fn find_markers(value: Seq<u8>, len: int, pos: int) -> Option<((int, int), (int, int))>
    decreases len - pos,
{
    match spec_next_token(value, len, pos) {
        None => None,
        Some((start, end)) => if value.subrange(start, end) == CMDLINE_START@ {
            match find_end_marker(value, len, end) {
                None => None,
                Some(end_marker) => Some(((start, end), end_marker)),
            }
        } else if end <= pos || end > len {
            None
        } else {
            find_markers(value, len, end)
        },
    }
}

/// What `find_cmdline_markers` returns.
pub open spec fn spec_find_cmdline_markers(value: Seq<u8>) -> Option<((int, int), (int, int))> {
    find_markers(value, value.len() as int, 0)
}

/// A token of the command line: `value[start..end]`, with the position to
/// continue scanning from.
#[derive(Clone, Copy)]
pub struct Token {
    pub start: usize,
    pub end: usize,
    pub next: usize,
}

/// Whether `byte` separates command-line arguments.
pub fn is_ascii_space(byte: u8) -> (space: bool)
    ensures
        space == is_space(byte),
{
    byte == 32 || byte == 9 || byte == 10 || byte == 13
}

/// The length of the text before the first NUL, or the whole length.
pub fn nul_terminated_len(value: &[u8]) -> (len: usize)
    ensures
        len == text_len(value@, 0),
        len <= value@.len(),
        forall|i: int| 0 <= i < len ==> value@[i] != 0,
{
    let mut len: usize = 0;
    while len < value.len() && value[len] != 0
        invariant
            len <= value@.len(),
            text_len(value@, len as int) == text_len(value@, 0),
            forall|i: int| 0 <= i < len ==> value@[i] != 0,
        decreases value@.len() - len,
    {
        len += 1;
    }
    len
}

/// Advances `start` over spaces, stopping at `end`.
pub fn skip_ascii_space(value: &[u8], start: usize, end: usize) -> (pos: usize)
    requires
        end <= value@.len(),
    ensures
        pos == skip_spaces(value@, start as int, end as int),
{
    let mut start = start;
    let ghost first = start;
    while start < end && is_ascii_space(value[start])
        invariant
            end <= value@.len(),
            skip_spaces(value@, start as int, end as int) == skip_spaces(value@, first as int, end as int),
        decreases end - start,
    {
        start += 1;
    }
    start
}

/// Moves `end` back over the spaces just before it.
pub fn trim_ascii_space_end(value: &[u8], end: usize) -> (trimmed: usize)
    requires
        end <= value@.len(),
    ensures
        trimmed == trim_end(value@, end as int),
{
    let mut end = end;
    let ghost last = end;
    while end > 0 && is_ascii_space(value[end - 1])
        invariant
            end <= value@.len(),
            trim_end(value@, end as int) == trim_end(value@, last as int),
        decreases end,
    {
        end -= 1;
    }
    end
}

/// The next argument of `value[..len]` at or after `pos`. Spaces inside
/// double quotes do not end an argument.
pub fn next_token(value: &[u8], len: usize, pos: usize) -> (token: Option<Token>)
    requires
        len <= value@.len(),
    ensures
        match spec_next_token(value@, len as int, pos as int) {
            None => token is None,
            Some((s, e)) => token matches Some(t) && t.start == s && t.end == e && t.next == e,
        },
{
    let mut pos = pos;
    let ghost first = pos;
    while pos < len && is_ascii_space(value[pos])
        invariant
            len <= value@.len(),
            skip_spaces(value@, pos as int, len as int) == skip_spaces(value@, first as int, len as int),
        decreases len - pos,
    {
        pos += 1;
    }
    if pos >= len {
        return None;
    }
    let start = pos;
    let mut in_quote = false;
    while pos < len
        invariant
            len <= value@.len(),
            start <= pos <= len,
            token_end(value@, pos as int, len as int, in_quote) == token_end(value@, start as int, len as int, false),
        ensures
            pos == token_end(value@, start as int, len as int, false),
        decreases len - pos,
    {
        let byte = value[pos];
        if byte == 34 {
            in_quote = !in_quote;
        } else if is_ascii_space(byte) && !in_quote {
            break;
        }
        pos += 1;
    }
    Some(Token { start, end: pos, next: pos })
}

/// Finds the first `<S>` argument and the first `<E>` argument after it.
pub fn find_cmdline_markers(value: &[u8]) -> (markers: Option<(Token, Token)>)
    ensures
        match spec_find_cmdline_markers(value@) {
            None => markers is None,
            Some((s, e)) => markers matches Some((ts, te)) && ts.start == s.0 && ts.end == s.1 && ts.next == s.1
                && te.start == e.0 && te.end == e.1 && te.next == e.1,
        },
{
    let len = value.len();
    let mut pos: usize = 0;
    loop
        invariant
            len == value@.len(),
            find_markers(value@, len as int, pos as int) == spec_find_cmdline_markers(value@),
        decreases len - pos,
    {
        let token = match next_token(value, len, pos) {
            Some(token) => token,
            None => return None,
        };
        proof {
            lemma_next_token(value@, len as int, pos as int);
        }
        if value[token.start] == 60 && token.end - token.start == 3 && value[token.start + 1] == 83
            && value[token.start + 2] == 62 {
            proof {
                assert(value@.subrange(token.start as int, token.end as int) =~= CMDLINE_START@);
            }
            let mut end_pos = token.next;
            loop
                invariant
                    len == value@.len(),
                    token.next <= end_pos,
                    find_end_marker(value@, len as int, end_pos as int) == find_end_marker(value@, len as int, token.next as int),
                    value@.subrange(token.start as int, token.end as int) == CMDLINE_START@,
                    find_markers(value@, len as int, pos as int) == spec_find_cmdline_markers(value@),
                    spec_next_token(value@, len as int, pos as int) == Some((token.start as int, token.end as int)),
                    token.next == token.end,
                decreases len - end_pos,
            {
                let end = match next_token(value, len, end_pos) {
                    Some(end) => end,
                    None => return None,
                };
                proof {
                    lemma_next_token(value@, len as int, end_pos as int);
                }
                if value[end.start] == 60 && end.end - end.start == 3 && value[end.start + 1] == 69
                    && value[end.start + 2] == 62 {
                    proof {
                        assert(value@.subrange(end.start as int, end.end as int) =~= CMDLINE_END@);
                    }
                    return Some((token, end));
                }
                proof {
                    let sub = value@.subrange(end.start as int, end.end as int);
                    if sub == CMDLINE_END@ {
                        assert(sub.len() == 3);
                        assert(sub[0] == 60u8 && sub[1] == 69u8 && sub[2] == 62u8);
                    }
                }
                end_pos = end.next;
            }
        }
        proof {
            let sub = value@.subrange(token.start as int, token.end as int);
            if sub == CMDLINE_START@ {
                assert(sub.len() == 3);
                assert(sub[0] == 60u8 && sub[1] == 83u8 && sub[2] == 62u8);
            }
        }
        pos = token.next;
    }
}

/// `piece` appended to `text`, separated by one space unless `text` is empty.
pub open spec fn append_piece(text: Seq<u8>, piece: Seq<u8>) -> Seq<u8> {
    if text.len() == 0 {
        piece
    } else {
        text + seq![32u8] + piece
    }
}

/// `pieces` appended to `text` one after the other, space separated.
pub open spec fn append_pieces(text: Seq<u8>, pieces: Seq<Seq<u8>>) -> Seq<u8>
    decreases pieces.len(),
{
    if pieces.len() == 0 {
        text
    } else {
        append_pieces(append_piece(text, pieces[0]), pieces.drop_first())
    }
}

/// `pieces` joined by single spaces.
pub open spec fn join_with_spaces(pieces: Seq<Seq<u8>>) -> Seq<u8> {
    append_pieces(Seq::empty(), pieces)
}

proof fn lemma_append_pieces_concat(text: Seq<u8>, a: Seq<Seq<u8>>, b: Seq<Seq<u8>>)
    ensures
        append_pieces(text, a + b) == append_pieces(append_pieces(text, a), b),
    decreases a.len(),
{
    if a.len() > 0 {
        assert((a + b).drop_first() =~= a.drop_first() + b);
        assert((a + b)[0] == a[0]);
        lemma_append_pieces_concat(append_piece(text, a[0]), a.drop_first(), b);
    } else {
        assert(a + b =~= b);
    }
}

/// Whether `token` starts with `androidboot.`.
pub open spec fn is_androidboot(token: Seq<u8>) -> bool {
    token.len() >= 12 && token.subrange(0, 12) == ANDROIDBOOT_PREFIX@
}

/// The `androidboot.*` arguments of `value[..len]` at or after `pos`, in
/// order.
pub open spec fn androidboot_tokens(value: Seq<u8>, len: int, pos: int) -> Seq<Seq<u8>>
    decreases len - pos,
{
    match spec_next_token(value, len, pos) {
        None => Seq::empty(),
        Some((start, end)) => if end <= pos || end > len {
            Seq::empty()
        } else {
            let rest = androidboot_tokens(value, len, end);
            if is_androidboot(value.subrange(start, end)) {
                seq![value.subrange(start, end)] + rest
            } else {
                rest
            }
        },
    }
}

/// Every token of `value[..len]` at or after `pos`, in order.
pub open spec fn tokens(value: Seq<u8>, len: int, pos: int) -> Seq<Seq<u8>>
    decreases len - pos,
{
    match spec_next_token(value, len, pos) {
        None => Seq::empty(),
        Some((start, end)) => if end <= pos || end > len {
            Seq::empty()
        } else {
            seq![value.subrange(start, end)] + tokens(value, len, end)
        },
    }
}

/// The `androidboot.*` arguments are exactly the tokens that start with
/// `androidboot.`, every one of them, in order.
pub proof fn lemma_androidboot_tokens_filter(value: Seq<u8>, len: int, pos: int)
    ensures
        androidboot_tokens(value, len, pos) == tokens(value, len, pos).filter(|t: Seq<u8>| is_androidboot(t)),
    decreases len - pos,
{
    let pred = |t: Seq<u8>| is_androidboot(t);
    match spec_next_token(value, len, pos) {
        None => {
            reveal(Seq::filter);
        },
        Some((start, end)) => if end <= pos || end > len {
            reveal(Seq::filter);
        } else {
            let t = value.subrange(start, end);
            lemma_androidboot_tokens_filter(value, len, end);
            Seq::filter_distributes_over_add(seq![t], tokens(value, len, end), pred);
            reveal_with_fuel(Seq::filter, 2);
            assert(seq![t].drop_last() =~= Seq::<Seq<u8>>::empty());
            if is_androidboot(t) {
                assert(seq![t].filter(pred) =~= seq![t]);
            } else {
                assert(seq![t].filter(pred) =~= Seq::<Seq<u8>>::empty());
                assert(Seq::<Seq<u8>>::empty() + tokens(value, len, end).filter(pred) =~= tokens(value, len, end).filter(
                    pred,
                ));
            }
        },
    }
}

/// A marked command line is rewritten to every `androidboot.*` token
/// before `<S>`, in order, then the marked text, then every
/// `androidboot.*` token after `<E>`, in order.
pub proof fn lemma_filter_keeps_every_androidboot_token(value: Seq<u8>)
    ensures
        ({
            let len = text_len(value, 0);
            spec_find_cmdline_markers(value.subrange(0, len)) matches Some((start_marker, end_marker)) ==> {
                let real_start = skip_spaces(value, start_marker.1, end_marker.0);
                let real_end = trim_end(value, end_marker.0);
                let marked = if real_start < real_end {
                    seq![value.subrange(real_start, real_end)]
                } else {
                    Seq::empty()
                };
                filtered_pieces(value) == Some(
                    tokens(value, start_marker.0, 0).filter(|t: Seq<u8>| is_androidboot(t)) + marked + tokens(
                        value,
                        len,
                        end_marker.1,
                    ).filter(|t: Seq<u8>| is_androidboot(t)),
                )
            }
        }),
{
    let len = text_len(value, 0);
    if let Some((start_marker, end_marker)) = spec_find_cmdline_markers(value.subrange(0, len)) {
        lemma_androidboot_tokens_filter(value, start_marker.0, 0);
        lemma_androidboot_tokens_filter(value, len, end_marker.1);
    }
}

/// The arguments a marked command line is rewritten to: the bootloader's
/// `androidboot.*` arguments before `<S>`, the text between `<S>` and `<E>`
/// without its surrounding spaces, and the `androidboot.*` arguments after
/// `<E>`. `None` when the text before the first NUL lacks either marker.
pub open spec fn filtered_pieces(value: Seq<u8>) -> Option<Seq<Seq<u8>>> {
    let len = text_len(value, 0);
    match spec_find_cmdline_markers(value.subrange(0, len)) {
        None => None,
        Some((start_marker, end_marker)) => {
            let before = androidboot_tokens(value, start_marker.0, 0);
            let real_start = skip_spaces(value, start_marker.1, end_marker.0);
            let real_end = trim_end(value, end_marker.0);
            let marked = if real_start < real_end {
                seq![value.subrange(real_start, real_end)]
            } else {
                Seq::empty()
            };
            let after = androidboot_tokens(value, len, end_marker.1);
            Some(before + marked + after)
        },
    }
}

/// `n` zero bytes.
pub open spec fn zeros(n: int) -> Seq<u8> {
    Seq::new(n as nat, |i: int| 0u8)
}

/// What `filter_cmdline_in_place` leaves in `value`: the filtered arguments
/// joined by spaces, then zeros to the end; `None` when nothing is marked.
pub open spec fn spec_filter_cmdline(value: Seq<u8>) -> Option<Seq<u8>> {
    match filtered_pieces(value) {
        None => None,
        Some(pieces) => {
            let text = join_with_spaces(pieces);
            Some(text + zeros(value.len() - text.len()))
        },
    }
}

/// Copies `value[start..end]` to `*out`, after a separating space when
/// something was written before. The copy never overtakes what it reads.
fn append_range(value: &mut [u8], out: &mut usize, start: usize, end: usize)
    requires
        end <= old(value)@.len(),
        *old(out) <= start,
        *old(out) == 0 || *old(out) < start,
    ensures
        final(value)@.len() == old(value)@.len(),
        start >= end ==> final(value)@ == old(value)@ && *final(out) == *old(out),
        start < end ==> {
            &&& *final(out) == append_piece(old(value)@.subrange(0, *old(out) as int), old(value)@.subrange(start as int, end as int)).len()
            &&& *final(out) <= end
            &&& final(value)@.subrange(0, *final(out) as int) == append_piece(
                old(value)@.subrange(0, *old(out) as int),
                old(value)@.subrange(start as int, end as int),
            )
            &&& forall|i: int| *final(out) <= i < final(value)@.len() ==> final(value)@[i] == old(value)@[i]
        },
{
    if start >= end {
        return;
    }
    let ghost before = value@;
    let ghost first = *out;
    if *out != 0 {
        value[*out] = 32;
        *out += 1;
    }
    let ghost base = *out;
    let mut read = start;
    while read < end
        invariant
            value@.len() == before.len(),
            end <= value@.len(),
            start <= read <= end,
            *out == base + (read - start),
            *out <= read,
            base <= start,
            first == 0 ==> base == first,
            first != 0 ==> base == first + 1,
            forall|i: int| 0 <= i < first ==> value@[i] == before[i],
            first != 0 ==> value@[first as int] == 32u8,
            forall|i: int| base <= i < *out ==> value@[i] == before[start + (i - base)],
            forall|i: int| *out <= i < value@.len() ==> value@[i] == before[i],
        decreases end - read,
    {
        value[*out] = value[read];
        *out += 1;
        read += 1;
    }
    proof {
        let piece = before.subrange(start as int, end as int);
        let text = before.subrange(0, first as int);
        assert(value@.subrange(0, *out as int) =~= append_piece(text, piece));
    }
}

/// Whether `value[start..end]` begins with `androidboot.`.
fn starts_with_androidboot(value: &[u8], start: usize, end: usize) -> (matches: bool)
    requires
        start <= end <= value@.len(),
    ensures
        matches == is_androidboot(value@.subrange(start as int, end as int)),
{
    if end - start < 12 {
        return false;
    }
    let mut i: usize = 0;
    while i < 12
        invariant
            start + 12 <= end <= value@.len(),
            i <= 12,
            forall|j: int| 0 <= j < i ==> value@[start + j] == ANDROIDBOOT_PREFIX@[j],
        decreases 12 - i,
    {
        if value[start + i] != ANDROIDBOOT_PREFIX[i] {
            proof {
                let token = value@.subrange(start as int, end as int);
                if is_androidboot(token) {
                    assert(token.subrange(0, 12)[i as int] == ANDROIDBOOT_PREFIX@[i as int]);
                }
            }
            return false;
        }
        i += 1;
    }
    proof {
        assert(value@.subrange(start as int, end as int).subrange(0, 12) =~= ANDROIDBOOT_PREFIX@);
    }
    true
}

/// Appends the `androidboot.*` arguments of `value[start..end]` at `*out`.
fn append_filtered_androidboot(value: &mut [u8], out: &mut usize, start: usize, end: usize)
    requires
        start <= end <= old(value)@.len(),
        *old(out) <= start,
        *old(out) == 0 || *old(out) < start,
    ensures
        final(value)@.len() == old(value)@.len(),
        *final(out) <= end,
        final(value)@.subrange(0, *final(out) as int) == append_pieces(
            old(value)@.subrange(0, *old(out) as int),
            androidboot_tokens(old(value)@, end as int, start as int),
        ),
        forall|i: int| *final(out) <= i < final(value)@.len() ==> final(value)@[i] == old(value)@[i],
{
    let ghost orig = value@;
    let ghost text = orig.subrange(0, *out as int);
    let mut pos = start;
    loop
        invariant
            orig == old(value)@,
            text == old(value)@.subrange(0, *old(out) as int),
            start <= pos <= end <= orig.len(),
            value@.len() == orig.len(),
            *out <= pos,
            *out == 0 || *out < pos || pos >= end || is_space(orig[pos as int]),
            forall|i: int| *out <= i < orig.len() ==> value@[i] == orig[i],
            append_pieces(value@.subrange(0, *out as int), androidboot_tokens(orig, end as int, pos as int))
                == append_pieces(text, androidboot_tokens(orig, end as int, start as int)),
        decreases end - pos,
    {
        proof {
            lemma_next_token_frame(value@, orig, end as int, pos as int);
            lemma_next_token(orig, end as int, pos as int);
        }
        let token = match next_token(value, end, pos) {
            Some(token) => token,
            None => {
                proof {
                    assert(androidboot_tokens(orig, end as int, pos as int) =~= Seq::<Seq<u8>>::empty());
                }
                return;
            },
        };
        let ghost piece = orig.subrange(token.start as int, token.end as int);
        let ghost rest = androidboot_tokens(orig, end as int, token.end as int);
        proof {
            assert(value@.subrange(token.start as int, token.end as int) =~= piece);
        }
        if starts_with_androidboot(value, token.start, token.end) {
            let ghost written = value@.subrange(0, *out as int);
            append_range(value, out, token.start, token.end);
            proof {
                assert(androidboot_tokens(orig, end as int, pos as int) == seq![piece] + rest);
                assert((seq![piece] + rest)[0] == piece);
                assert((seq![piece] + rest).drop_first() =~= rest);
            }
        } else {
            proof {
                assert(androidboot_tokens(orig, end as int, pos as int) == rest);
            }
        }
        pos = token.next;
    }
}

proof fn lemma_find_end_marker(value: Seq<u8>, len: int, pos: int)
    requires
        0 <= pos,
        len <= value.len(),
    ensures
        find_end_marker(value, len, pos) matches Some((s, e)) ==> pos <= s && s + 3 == e && e <= len
            && value.subrange(s, e) == CMDLINE_END@,
    decreases len - pos,
{
    lemma_next_token(value, len, pos);
    if let Some((s, e)) = spec_next_token(value, len, pos) {
        if value.subrange(s, e) == CMDLINE_END@ {
            assert(value.subrange(s, e).len() == 3);
        } else if !(e <= pos || e > len) {
            lemma_find_end_marker(value, len, e);
        }
    }
}

/// The markers come in order, `<S>` first, and both lie inside the text.
proof fn lemma_find_markers(value: Seq<u8>, len: int, pos: int)
    requires
        0 <= pos,
        len <= value.len(),
    ensures
        find_markers(value, len, pos) matches Some((sm, em)) ==> {
            &&& pos <= sm.0 && sm.0 + 3 == sm.1 && sm.1 <= em.0 && em.0 + 3 == em.1 && em.1 <= len
            &&& value.subrange(sm.0, sm.1) == CMDLINE_START@
            &&& value.subrange(em.0, em.1) == CMDLINE_END@
        },
    decreases len - pos,
{
    lemma_next_token(value, len, pos);
    if let Some((s, e)) = spec_next_token(value, len, pos) {
        if value.subrange(s, e) == CMDLINE_START@ {
            assert(value.subrange(s, e).len() == 3);
            lemma_find_end_marker(value, len, e);
        } else if !(e <= pos || e > len) {
            lemma_find_markers(value, len, e);
        }
    }
}

/// Moving back over spaces stops at a non-space byte and reads nothing
/// below it.
proof fn lemma_trim_end_frame(a: Seq<u8>, b: Seq<u8>, stop: int, end: int)
    requires
        0 <= stop < end,
        end <= a.len(),
        end <= b.len(),
        !is_space(a[stop]),
        forall|i: int| stop <= i < end ==> a[i] == b[i],
    ensures
        trim_end(a, end) == trim_end(b, end),
        stop < trim_end(a, end) <= end,
    decreases end,
{
    if is_space(a[end - 1]) {
        lemma_trim_end_frame(a, b, stop, end - 1);
    }
}

/// Keeps only what lies between the `<S>` and `<E>` markers, plus the
/// `androidboot.*` arguments outside them, and zeroes the rest of the
/// buffer. Returns whether the command line was marked, and leaves it
/// untouched when it was not.
pub fn filter_cmdline_in_place(value: &mut [u8]) -> (changed: bool)
    ensures
        final(value)@.len() == old(value)@.len(),
        changed == spec_filter_cmdline(old(value)@) is Some,
        match spec_filter_cmdline(old(value)@) {
            Some(filtered) => final(value)@ == filtered,
            None => final(value)@ == old(value)@,
        },
{
    let ghost orig = value@;
    let text_len = nul_terminated_len(value);
    let (start_marker, end_marker) = match find_cmdline_markers(&value[0..text_len]) {
        Some(markers) => markers,
        None => return false,
    };
    let ghost text = orig.subrange(0, text_len as int);
    proof {
        lemma_find_markers(text, text_len as int, 0);
        assert(text.subrange(start_marker.start as int, start_marker.end as int)
            =~= orig.subrange(start_marker.start as int, start_marker.end as int));
        assert(orig.subrange(start_marker.start as int, start_marker.end as int)[2] == 62u8);
    }
    let mut out: usize = 0;
    append_filtered_androidboot(value, &mut out, 0, start_marker.start);
    let ghost before = androidboot_tokens(orig, start_marker.start as int, 0);
    proof {
        assert(orig.subrange(0, 0) =~= Seq::<u8>::empty());
        lemma_skip_frame(value@, orig, start_marker.next as int, end_marker.start as int);
        lemma_trim_end_frame(orig, value@, start_marker.start + 2, end_marker.start as int);
    }
    let real_start = skip_ascii_space(value, start_marker.next, end_marker.start);
    let real_end = trim_ascii_space_end(value, end_marker.start);
    let ghost marked = if real_start < real_end {
        seq![orig.subrange(real_start as int, real_end as int)]
    } else {
        Seq::<Seq<u8>>::empty()
    };
    let ghost after_before = value@.subrange(0, out as int);
    proof {
        lemma_skip_spaces(orig, start_marker.next as int, end_marker.start as int);
        if real_start < real_end {
            assert(value@.subrange(real_start as int, real_end as int) =~= orig.subrange(real_start as int, real_end as int));
        }
    }
    append_range(value, &mut out, real_start, real_end);
    proof {
        reveal_with_fuel(append_pieces, 2);
        if real_start < real_end {
            assert(marked[0] == orig.subrange(real_start as int, real_end as int));
            assert(marked.drop_first() =~= Seq::<Seq<u8>>::empty());
        }
        assert(value@.subrange(0, out as int) == append_pieces(after_before, marked));
    }
    let ghost after_marked = value@.subrange(0, out as int);
    let ghost mid_value = value@;
    append_filtered_androidboot(value, &mut out, end_marker.next, text_len);
    let ghost after = androidboot_tokens(orig, text_len as int, end_marker.next as int);
    proof {
        lemma_next_token_frame_tokens(mid_value, orig, text_len as int, end_marker.next as int);
        lemma_append_pieces_concat(Seq::empty(), before, marked);
        lemma_append_pieces_concat(Seq::empty(), before + marked, after);
        assert(value@.subrange(0, out as int) == join_with_spaces(before + marked + after));
    }
    let ghost joined = value@.subrange(0, out as int);
    let len = value.len();
    let mut pos = out;
    while pos < len
        invariant
            out <= pos <= len,
            len == value@.len(),
            value@.subrange(0, out as int) == joined,
            forall|i: int| out <= i < pos ==> value@[i] == 0u8,
        decreases len - pos,
    {
        value[pos] = 0;
        pos += 1;
    }
    proof {
        assert(value@ =~= joined + zeros(len - joined.len()));
    }
    true
}

/// `value` with every byte after the first NUL zeroed.
pub open spec fn spec_clean_string_tail(value: Seq<u8>) -> Seq<u8> {
    let len = text_len(value, 0);
    Seq::new(value.len(), |i: int| if i > len { 0u8 } else { value[i] })
}

/// Zeroes whatever follows the string's terminating NUL.
pub fn clean_string_tail(value: &mut [u8])
    ensures
        final(value)@ == spec_clean_string_tail(old(value)@),
{
    let terminator = nul_terminated_len(value);
    let len = value.len();
    let mut pos = terminator.saturating_add(1);
    let ghost orig = value@;
    while pos < len
        invariant
            len == value@.len(),
            orig == old(value)@,
            terminator == text_len(orig, 0),
            orig.len() == len,
            terminator < pos || pos == usize::MAX,
            forall|i: int| 0 <= i < value@.len() ==> value@[i] == if i > terminator && i < pos {
                0u8
            } else {
                orig[i]
            },
        decreases len - pos,
    {
        assert(terminator < pos);
        value[pos] = 0;
        pos += 1;
    }
    assert(value@ =~= spec_clean_string_tail(orig));
}

/// The `androidboot.*` arguments of a region read only that region.
proof fn lemma_next_token_frame_tokens(a: Seq<u8>, b: Seq<u8>, len: int, pos: int)
    requires
        0 <= pos,
        len <= a.len(),
        len <= b.len(),
        forall|i: int| pos <= i < len ==> a[i] == b[i],
    ensures
        androidboot_tokens(a, len, pos) == androidboot_tokens(b, len, pos),
    decreases len - pos,
{
    lemma_next_token_frame(a, b, len, pos);
    lemma_next_token(a, len, pos);
    if let Some((s, e)) = spec_next_token(a, len, pos) {
        if !(e <= pos || e > len) {
            lemma_next_token_frame_tokens(a, b, len, e);
            assert(a.subrange(s, e) =~= b.subrange(s, e));
        }
    }
}

} // verus!
