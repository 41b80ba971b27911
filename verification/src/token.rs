//! The header tokenizer.
//!
//! A NetPBM header is a run of tokens separated by white space and by
//! comments, which start at `#` and run to the end of the line. The
//! tokenizer walks the bytes once, from the front, and reports with the
//! tokens how many bytes it walked over: the samples of a binary image
//! start right there.

use crate::text::{bytes_to_text, lossy_text};
use vstd::prelude::*;
use vstd::utf8::{decode_utf8, valid_utf8};

verus! {

/// The byte that opens a comment.
pub const HASH: u8 = 35;

/// The byte that closes a comment.
pub const LINE_FEED: u8 = 10;

/// The most tokens a header has: magic, width, height, maximum value.
pub const HEADER_TOKENS: usize = 4;

/// White space between tokens: space, tab, carriage return, line feed.
pub open spec fn is_space(b: u8) -> bool {
    b == 32 || b == 9 || b == 13 || b == 10
}

/// A byte that can stand inside a token.
pub open spec fn is_token_byte(b: u8) -> bool {
    !is_space(b) && b != HASH
}

/// Where the line that holds position `pos` ends: just past the next line
/// feed at or after `pos`, or at the end of `s` where there is none.
pub open spec fn line_end(s: Seq<u8>, pos: int) -> int
    decreases s.len() - pos,
{
    if pos >= s.len() {
        s.len() as int
    } else if s[pos] == LINE_FEED {
        pos + 1
    } else {
        line_end(s, pos + 1)
    }
}

/// Where the next token starts: the first position at or after `pos` that
/// is neither white space nor inside a comment, or the end of `s`.
pub open spec fn token_start(s: Seq<u8>, pos: int) -> int
    decreases s.len() - pos,
{
    if pos >= s.len() {
        s.len() as int
    } else if is_space(s[pos]) {
        token_start(s, pos + 1)
    } else if s[pos] == HASH {
        proof {
            lemma_line_end_bounds(s, pos + 1);
        }
        token_start(s, line_end(s, pos + 1))
    } else {
        pos
    }
}

/// Where the token that holds position `pos` ends: the first position at
/// or after `pos` that holds white space or `#`, or the end of `s`.
pub open spec fn token_end(s: Seq<u8>, pos: int) -> int
    decreases s.len() - pos,
{
    if pos >= s.len() {
        s.len() as int
    } else if !is_token_byte(s[pos]) {
        pos
    } else {
        token_end(s, pos + 1)
    }
}

/// The position reached once the byte that ended a token at `end` has been
/// taken: one white-space byte, or a whole comment up to and with its line
/// feed. A token that the end of `s` cut short leaves nothing to take.
pub open spec fn after_token(s: Seq<u8>, end: int) -> int {
    if end >= s.len() {
        s.len() as int
    } else if s[end] == HASH {
        line_end(s, end + 1)
    } else {
        end + 1
    }
}

/// What a scan yields: the tokens in the order met, and the position
/// reached.
pub ghost struct Scan {
    pub tokens: Seq<Seq<u8>>,
    pub consumed: int,
}

/// The scan of `s` from `pos` for at most `limit` tokens.
///
/// The scan stops right behind the byte that ended the last token asked
/// for. Where `s` ends first, the tokens found so far are the result and
/// all of `s` counts as consumed.
pub open spec fn scan_tokens(s: Seq<u8>, pos: int, limit: nat) -> Scan
    decreases limit,
{
    if limit == 0 {
        Scan { tokens: Seq::empty(), consumed: pos }
    } else {
        let start = token_start(s, pos);
        if start >= s.len() {
            Scan { tokens: Seq::empty(), consumed: s.len() as int }
        } else {
            let end = token_end(s, start);
            let rest = scan_tokens(s, after_token(s, end), (limit - 1) as nat);
            Scan { tokens: seq![s.subrange(start, end)] + rest.tokens, consumed: rest.consumed }
        }
    }
}

/// The tokens of a header: the scan of `s` from its first byte for at most
/// four tokens.
pub open spec fn header_scan(s: Seq<u8>) -> Scan {
    scan_tokens(s, 0, HEADER_TOKENS as nat)
}

/// The byte strings that a vector of tokens holds.
pub open spec fn token_bytes(tokens: Seq<Vec<u8>>) -> Seq<Seq<u8>> {
    Seq::new(tokens.len(), |i: int| tokens[i]@)
}

/// A line ends at or after the position asked for, and inside `s`.
pub proof fn lemma_line_end_bounds(s: Seq<u8>, pos: int)
    ensures
        pos <= s.len() ==> pos <= line_end(s, pos) <= s.len(),
        pos < s.len() ==> pos < line_end(s, pos),
    decreases s.len() - pos,
{
    if pos < s.len() && s[pos] != LINE_FEED {
        lemma_line_end_bounds(s, pos + 1);
    }
}

/// A token starts at or after the position asked for, on a token byte
/// unless `s` has run out.
pub proof fn lemma_token_start_bounds(s: Seq<u8>, pos: int)
    requires
        0 <= pos <= s.len(),
    ensures
        pos <= token_start(s, pos) <= s.len(),
        token_start(s, pos) < s.len() ==> is_token_byte(s[token_start(s, pos)]),
    decreases s.len() - pos,
{
    if pos < s.len() {
        if is_space(s[pos]) {
            lemma_token_start_bounds(s, pos + 1);
        } else if s[pos] == HASH {
            lemma_line_end_bounds(s, pos + 1);
            lemma_token_start_bounds(s, line_end(s, pos + 1));
        }
    }
}

/// A token ends at or after the position asked for; every byte up to its
/// end is a token byte, and the byte at its end, if any, is none.
pub proof fn lemma_token_end_bounds(s: Seq<u8>, pos: int)
    requires
        0 <= pos <= s.len(),
    ensures
        pos <= token_end(s, pos) <= s.len(),
        forall|i: int| pos <= i < token_end(s, pos) ==> is_token_byte(#[trigger] s[i]),
        token_end(s, pos) < s.len() ==> !is_token_byte(s[token_end(s, pos)]),
        pos < s.len() && is_token_byte(s[pos]) ==> pos < token_end(s, pos),
    decreases s.len() - pos,
{
    if pos < s.len() && is_token_byte(s[pos]) {
        lemma_token_end_bounds(s, pos + 1);
    }
}

/// The byte after a token's end is taken, and no more than `s` holds.
pub proof fn lemma_after_token_bounds(s: Seq<u8>, end: int)
    requires
        0 <= end <= s.len(),
    ensures
        end <= after_token(s, end) <= s.len(),
        end < s.len() ==> end < after_token(s, end),
{
    lemma_line_end_bounds(s, end + 1);
}

/// What holds of every scan: it yields no more tokens than asked for, it
/// moves forward and stays inside `s`, every token is non-empty and made
/// of token bytes alone, and a scan that yields fewer tokens than asked
/// for has consumed all of `s`.
pub proof fn lemma_scan_tokens_shape(s: Seq<u8>, pos: int, limit: nat)
    requires
        0 <= pos <= s.len(),
    ensures
        scan_tokens(s, pos, limit).tokens.len() <= limit,
        pos <= scan_tokens(s, pos, limit).consumed <= s.len(),
        scan_tokens(s, pos, limit).tokens.len() < limit ==> scan_tokens(s, pos, limit).consumed
            == s.len(),
        forall|k: int|
            0 <= k < scan_tokens(s, pos, limit).tokens.len() ==> {
                let token = #[trigger] scan_tokens(s, pos, limit).tokens[k];
                &&& token.len() > 0
                &&& forall|i: int| 0 <= i < token.len() ==> is_token_byte(#[trigger] token[i])
            },
    decreases limit,
{
    if limit > 0 {
        lemma_token_start_bounds(s, pos);
        let start = token_start(s, pos);
        if start < s.len() {
            lemma_token_end_bounds(s, start);
            let end = token_end(s, start);
            lemma_after_token_bounds(s, end);
            let rest = scan_tokens(s, after_token(s, end), (limit - 1) as nat);
            lemma_scan_tokens_shape(s, after_token(s, end), (limit - 1) as nat);
            let all = scan_tokens(s, pos, limit).tokens;
            assert forall|k: int| 0 <= k < all.len() implies {
                let token = #[trigger] all[k];
                &&& token.len() > 0
                &&& forall|i: int| 0 <= i < token.len() ==> is_token_byte(#[trigger] token[i])
            } by {
                if k > 0 {
                    assert(all[k] == rest.tokens[k - 1]);
                }
            }
        }
    }
}

/// A scan for `n + m` tokens is a scan for `n` tokens followed, from where
/// it stopped, by a scan for `m`; unless the first one ran out of bytes.
pub proof fn lemma_scan_tokens_split(s: Seq<u8>, pos: int, n: nat, m: nat)
    requires
        0 <= pos <= s.len(),
    ensures
        ({
            let first = scan_tokens(s, pos, n);
            let second = scan_tokens(s, first.consumed, m);
            scan_tokens(s, pos, n + m) == if first.tokens.len() == n {
                Scan { tokens: first.tokens + second.tokens, consumed: second.consumed }
            } else {
                first
            }
        }),
    decreases n,
{
    let first = scan_tokens(s, pos, n);
    let second = scan_tokens(s, first.consumed, m);
    if n == 0 {
        assert(first.tokens + second.tokens =~= second.tokens);
    } else {
        lemma_token_start_bounds(s, pos);
        let start = token_start(s, pos);
        if start < s.len() {
            lemma_token_end_bounds(s, start);
            let end = token_end(s, start);
            lemma_after_token_bounds(s, end);
            let next = after_token(s, end);
            lemma_scan_tokens_split(s, next, (n - 1) as nat, m);
            let rest = scan_tokens(s, next, (n - 1) as nat);
            let head = seq![s.subrange(start, end)];
            assert((head + rest.tokens) + second.tokens =~= head + (rest.tokens + second.tokens));
        }
    }
}

/// A run of token bytes that stops before a byte that is none, or at the
/// end of `s`, is a token from wherever in it one starts.
pub proof fn lemma_token_end_of_run(s: Seq<u8>, pos: int, end: int)
    requires
        0 <= pos <= end <= s.len(),
        forall|i: int| pos <= i < end ==> is_token_byte(#[trigger] s[i]),
        end < s.len() ==> !is_token_byte(s[end]),
    ensures
        token_end(s, pos) == end,
    decreases end - pos,
{
    if pos < end {
        lemma_token_end_of_run(s, pos + 1, end);
    }
}

/// A scan that starts on a word which white space follows yields that word
/// first, and goes on right behind the white-space byte.
pub proof fn lemma_scan_word(s: Seq<u8>, pos: int, end: int, limit: nat)
    requires
        0 <= pos < end < s.len(),
        forall|i: int| pos <= i < end ==> is_token_byte(#[trigger] s[i]),
        is_space(s[end]),
        limit > 0,
    ensures
        scan_tokens(s, pos, limit) == (Scan {
            tokens: seq![s.subrange(pos, end)] + scan_tokens(
                s,
                end + 1,
                (limit - 1) as nat,
            ).tokens,
            consumed: scan_tokens(s, end + 1, (limit - 1) as nat).consumed,
        }),
{
    lemma_token_end_of_run(s, pos, end);
    assert(is_token_byte(s[pos]));
}

/// A scan that starts on white space starts as well one byte further on.
pub proof fn lemma_scan_space(s: Seq<u8>, pos: int, limit: nat)
    requires
        0 <= pos < s.len(),
        is_space(s[pos]),
        limit > 0,
    ensures
        scan_tokens(s, pos, limit) == scan_tokens(s, pos + 1, limit),
{
}

/// Skips to the end of the line that holds `pos`.
fn skip_line(source: &[u8], pos: usize) -> (next: usize)
    requires
        pos <= source.len(),
    ensures
        next == line_end(source@, pos as int),
        pos <= next <= source.len(),
{
    let mut at: usize = pos;
    while at < source.len() && source[at] != LINE_FEED
        invariant
            pos <= at <= source.len(),
            line_end(source@, pos as int) == line_end(source@, at as int),
        decreases source.len() - at,
    {
        at += 1;
    }
    if at < source.len() {
        at += 1;
    }
    at
}

/// Whether `b` is white space between tokens.
fn byte_is_space(b: u8) -> (yes: bool)
    ensures
        yes == is_space(b),
{
    b == 32 || b == 9 || b == 13 || b == 10
}

/// Skips white space and comments from `pos` on.
fn skip_blank(source: &[u8], pos: usize) -> (start: usize)
    requires
        pos <= source.len(),
    ensures
        start == token_start(source@, pos as int),
        pos <= start <= source.len(),
        start < source.len() ==> is_token_byte(source@[start as int]),
{
    let mut at: usize = pos;
    while at < source.len() && (byte_is_space(source[at]) || source[at] == HASH)
        invariant
            pos <= at <= source.len(),
            token_start(source@, pos as int) == token_start(source@, at as int),
        decreases source.len() - at,
    {
        if source[at] == HASH {
            proof {
                lemma_line_end_bounds(source@, at + 1);
            }
            at = skip_line(source, at + 1);
        } else {
            at += 1;
        }
    }
    at
}

/// Finds the end of the token that starts at `start`.
fn skip_token(source: &[u8], start: usize) -> (end: usize)
    requires
        start <= source.len(),
    ensures
        end == token_end(source@, start as int),
        start <= end <= source.len(),
{
    let mut at: usize = start;
    while at < source.len() && !byte_is_space(source[at]) && source[at] != HASH
        invariant
            start <= at <= source.len(),
            token_end(source@, start as int) == token_end(source@, at as int),
        decreases source.len() - at,
    {
        at += 1;
    }
    at
}

/// Copies the bytes of `source` from `from` up to `to`.
fn copy_range(source: &[u8], from: usize, to: usize) -> (bytes: Vec<u8>)
    requires
        from <= to <= source.len(),
    ensures
        bytes@ == source@.subrange(from as int, to as int),
{
    let mut bytes: Vec<u8> = Vec::new();
    let mut at: usize = from;
    while at < to
        invariant
            from <= at <= to <= source.len(),
            bytes@ == source@.subrange(from as int, at as int),
        decreases to - at,
    {
        bytes.push(source[at]);
        at += 1;
        assert(bytes@ =~= source@.subrange(from as int, at as int));
    }
    bytes
}

/// Scans `source` from `pos` for at most `limit` tokens and returns them
/// with the position reached.
pub fn read_tokens(source: &[u8], pos: usize, limit: usize) -> (found: (Vec<Vec<u8>>, usize))
    requires
        pos <= source.len(),
    ensures
        token_bytes(found.0@) == scan_tokens(source@, pos as int, limit as nat).tokens,
        found.1 == scan_tokens(source@, pos as int, limit as nat).consumed,
        pos <= found.1 <= source.len(),
        found.0.len() <= limit,
{
    let ghost whole = scan_tokens(source@, pos as int, limit as nat);
    let mut tokens: Vec<Vec<u8>> = Vec::new();
    let mut at: usize = pos;
    proof {
        lemma_scan_tokens_shape(source@, pos as int, limit as nat);
        assert(token_bytes(tokens@) + whole.tokens =~= whole.tokens);
    }
    while tokens.len() < limit
        invariant
            pos <= at <= source.len(),
            tokens.len() <= limit,
            whole == scan_tokens(source@, pos as int, limit as nat),
            whole.tokens == token_bytes(tokens@) + scan_tokens(
                source@,
                at as int,
                (limit - tokens.len()) as nat,
            ).tokens,
            whole.consumed == scan_tokens(
                source@,
                at as int,
                (limit - tokens.len()) as nat,
            ).consumed,
        decreases limit - tokens.len(),
    {
        let ghost before = token_bytes(tokens@);
        let start: usize = skip_blank(source, at);
        if start >= source.len() {
            proof {
                assert(before + Seq::<Seq<u8>>::empty() =~= before);
            }
            return (tokens, source.len());
        }
        let end: usize = skip_token(source, start);
        let token: Vec<u8> = copy_range(source, start, end);
        let next: usize = if end >= source.len() {
            end
        } else if source[end] == HASH {
            skip_line(source, end + 1)
        } else {
            end + 1
        };
        proof {
            lemma_after_token_bounds(source@, end as int);
            let rest = scan_tokens(source@, next as int, (limit - tokens.len() - 1) as nat);
            let head = seq![source@.subrange(start as int, end as int)];
            assert(token_bytes(tokens@.push(token)) =~= before + head);
            assert((before + head) + rest.tokens =~= before + (head + rest.tokens));
        }
        tokens.push(token);
        at = next;
    }
    proof {
        assert(token_bytes(tokens@) + Seq::<Seq<u8>>::empty() =~= token_bytes(tokens@));
    }
    (tokens, at)
}

/// Reads the header of `source`: at most four tokens, as text, and the
/// number of bytes they took with all that stands between and right behind
/// them. The samples of the image start at that offset.
///
/// A source that ends early gives fewer tokens; that is no failure here.
pub fn netpbm_get_token(source: &[u8]) -> (found: (Vec<String>, usize))
    ensures
        found.0.len() == header_scan(source@).tokens.len(),
        forall|i: int|
            0 <= i < found.0.len() ==> (#[trigger] found.0[i])@ == lossy_text(
                header_scan(source@).tokens[i],
            ),
        forall|i: int|
            0 <= i < found.0.len() && valid_utf8(header_scan(source@).tokens[i]) ==> (
            #[trigger] found.0[i])@ == decode_utf8(header_scan(source@).tokens[i]),
        found.1 == header_scan(source@).consumed,
        found.0.len() <= 4,
        found.1 <= source.len(),
{
    let (raw, consumed) = read_tokens(source, 0, HEADER_TOKENS);
    let ghost scan = header_scan(source@);
    let mut tokens: Vec<String> = Vec::new();
    let mut i: usize = 0;
    while i < raw.len()
        invariant
            i <= raw.len(),
            tokens.len() == i,
            token_bytes(raw@) == scan.tokens,
            forall|k: int| 0 <= k < i ==> (#[trigger] tokens[k])@ == lossy_text(scan.tokens[k]),
            forall|k: int|
                0 <= k < i && valid_utf8(scan.tokens[k]) ==> (#[trigger] tokens[k])@
                    == decode_utf8(scan.tokens[k]),
        decreases raw.len() - i,
    {
        assert(token_bytes(raw@)[i as int] == raw[i as int]@);
        let text: String = bytes_to_text(raw[i].as_slice());
        tokens.push(text);
        i += 1;
    }
    assert(token_bytes(raw@).len() == raw.len());
    (tokens, consumed)
}

} // verus!
