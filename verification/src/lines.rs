//! Line classification: the rules that decide where one card ends and the next
//! begins. A "line" is its content including its terminator, so card text is a
//! contiguous byte range and emission is a plain concatenation.

use vstd::prelude::*;
use crate::bytes::{find_byte, first_index_of, lemma_first_index_of};

verus! {

pub open spec fn spec_is_space(b: u8) -> bool {
    b == 32u8 || b == 9u8
}

pub fn is_space(b: u8) -> (r: bool)
    ensures
        r == spec_is_space(b),
{
    b == 32u8 || b == 9u8
}

/// Index just past the end of the line starting at `from`: past its `\n`, or
/// the end of the input for a final line with no terminator.
pub open spec fn spec_line_end(s: Seq<u8>, from: int) -> int {
    match first_index_of(s, 10u8, from) {
        Some(i) => i + 1,
        None => s.len() as int,
    }
}

/// A line that starts inside the input ends after it starts and inside it,
/// and holds no `\n` but possibly its last byte.
pub proof fn lemma_line_end(s: Seq<u8>, from: int)
    requires
        0 <= from <= s.len(),
    ensures
        from <= spec_line_end(s, from) <= s.len(),
        from < s.len() ==> from < spec_line_end(s, from),
        forall|j: int| from <= j < spec_line_end(s, from) - 1 ==> s[j] != 10u8,
        spec_line_end(s, from) < s.len() ==> s[spec_line_end(s, from) - 1] == 10u8,
{
    lemma_first_index_of(s, 10u8, from);
}

pub fn line_end(src: &[u8], from: usize) -> (r: usize)
    requires
        from <= src@.len(),
    ensures
        r == spec_line_end(src@, from as int),
        from <= r <= src@.len(),
        from < src@.len() ==> from < r,
{
    proof {
        assert(src@.subrange(0, src@.len() as int) =~= src@);
        lemma_line_end(src@, from as int);
    }
    match find_byte(src, 10u8, from, src.len()) {
        Some(i) => i + 1,
        None => src.len(),
    }
}

/// Length of a line once its `\n` and then its `\r` are removed.
pub open spec fn spec_strip_len(l: Seq<u8>) -> int {
    let e1 = if l.len() > 0 && l[l.len() - 1] == 10u8 {
        l.len() - 1
    } else {
        l.len() as int
    };
    if e1 > 0 && l[e1 - 1] == 13u8 {
        e1 - 1
    } else {
        e1
    }
}

pub open spec fn spec_strip_eol(l: Seq<u8>) -> Seq<u8> {
    l.subrange(0, spec_strip_len(l))
}

/// The line's bytes with its `\r\n` / `\n` terminator removed.
pub fn strip_eol(line: &[u8]) -> (r: &[u8])
    ensures
        r@ == spec_strip_eol(line@),
{
    let mut end = line.len();
    if end > 0 && line[end - 1] == 10u8 {
        end = end - 1;
    }
    if end > 0 && line[end - 1] == 13u8 {
        end = end - 1;
    }
    vstd::slice::slice_subrange(line, 0, end)
}

/// Every byte of the line before its terminator is a space or tab.
pub open spec fn spec_is_blank(l: Seq<u8>) -> bool {
    forall|i: int| 0 <= i < spec_strip_len(l) ==> spec_is_space(#[trigger] l[i])
}

/// A blank line: empty or all whitespace. Blank lines delimit the blocks.
pub fn is_blank(line: &[u8]) -> (r: bool)
    ensures
        r == spec_is_blank(line@),
{
    let body = strip_eol(line);
    let mut i: usize = 0;
    while i < body.len()
        invariant
            body@ == spec_strip_eol(line@),
            i <= body@.len(),
            forall|j: int| 0 <= j < i ==> spec_is_space(#[trigger] line@[j]),
        decreases body@.len() - i,
    {
        if !is_space(body[i]) {
            assert(body@[i as int] == line@[i as int]);
            return false;
        }
        assert(body@[i as int] == line@[i as int]);
        i = i + 1;
    }
    true
}

/// Index of the first byte at or after `from` that is neither space nor tab.
pub open spec fn first_nonblank(body: Seq<u8>, from: int) -> Option<int>
    decreases body.len() - from,
{
    if from < 0 || from >= body.len() {
        None
    } else if !spec_is_space(body[from]) {
        Some(from)
    } else {
        first_nonblank(body, from + 1)
    }
}

pub proof fn lemma_first_nonblank(body: Seq<u8>, from: int)
    requires
        0 <= from <= body.len(),
    ensures
        match first_nonblank(body, from) {
            Some(i) => from <= i < body.len() && !spec_is_space(body[i]) && forall|j: int|
                from <= j < i ==> spec_is_space(#[trigger] body[j]),
            None => forall|j: int| from <= j < body.len() ==> spec_is_space(#[trigger] body[j]),
        },
    decreases body.len() - from,
{
    if from < body.len() && spec_is_space(body[from]) {
        lemma_first_nonblank(body, from + 1);
    }
}

pub proof fn lemma_first_nonblank_unique(body: Seq<u8>, from: int, i: int)
    requires
        0 <= from <= i < body.len(),
        !spec_is_space(body[i]),
        forall|j: int| from <= j < i ==> spec_is_space(#[trigger] body[j]),
    ensures
        first_nonblank(body, from) == Some(i),
    decreases i - from,
{
    if from < i {
        assert(spec_is_space(body[from]));
        lemma_first_nonblank_unique(body, from + 1, i);
    }
}

/// The 1-based column reached after the first `n` bytes, a space advancing one
/// column and a tab advancing to the next multiple of 8 (plus one).
pub open spec fn column_after(body: Seq<u8>, n: int) -> int
    decreases n,
{
    if n <= 0 {
        1
    } else {
        let c = column_after(body, n - 1);
        if body[n - 1] == 9u8 {
            (c - 1) / 8 * 8 + 9
        } else {
            c + 1
        }
    }
}

/// The first non-blank byte's column and index.
pub open spec fn spec_first_content_column(body: Seq<u8>) -> Option<(int, int)> {
    match first_nonblank(body, 0) {
        Some(i) => Some((column_after(body, i), i)),
        None => None,
    }
}

/// A column past 5, as the line rules see it: every column beyond 5 reads
/// as 6.
pub open spec fn capped_column(c: int) -> int {
    if c > 5 {
        6
    } else {
        c
    }
}

pub proof fn lemma_column_after_pos(body: Seq<u8>, n: int)
    requires
        0 <= n <= body.len(),
    ensures
        column_after(body, n) >= 1,
    decreases n,
{
    if n > 0 {
        lemma_column_after_pos(body, n - 1);
    }
}

/// Locate the first non-blank byte of a line and its 1-based column,
/// expanding tabs to the next multiple of 8 the way MCNP does; a column past
/// 5 comes back as 6, which is all the line rules tell apart.
fn first_content_column(body: &[u8]) -> (r: Option<(usize, usize)>)
    ensures
        match spec_first_content_column(body@) {
            Some((c, i)) => r == Some((capped_column(c) as usize, i as usize)) && 1 <= c && 0 <= i
                < body@.len(),
            None => r is None,
        },
{
    let mut col: usize = 1;
    let mut i: usize = 0;
    while i < body.len()
        invariant
            i <= body@.len(),
            col == capped_column(column_after(body@, i as int)),
            forall|j: int| 0 <= j < i ==> spec_is_space(#[trigger] body@[j]),
        decreases body@.len() - i,
    {
        let b = body[i];
        proof {
            lemma_column_after_pos(body@, i as int);
        }
        if b == 32u8 {
            col = if col >= 6 {
                6
            } else {
                col + 1
            };
        } else if b == 9u8 {
            col = 6;
        } else {
            proof {
                lemma_first_nonblank_unique(body@, 0, i as int);
                lemma_column_after_pos(body@, i as int);
            }
            return Some((col, i));
        }
        i = i + 1;
    }
    proof {
        lemma_first_nonblank(body@, 0);
        if first_nonblank(body@, 0) is Some {
            let k = first_nonblank(body@, 0)->0;
            assert(spec_is_space(body@[k]));
        }
    }
    None
}

/// A full-line comment: the first non-blank byte falls within columns 1-5 and
/// is `c`/`C`, followed by whitespace or the end of the line.
pub open spec fn spec_is_comment_line(line: Seq<u8>) -> bool {
    let body = spec_strip_eol(line);
    match spec_first_content_column(body) {
        Some((col, i)) => col <= 5 && (body[i] == 99u8 || body[i] == 67u8) && (i + 1
            == body.len() || spec_is_space(body[i + 1])),
        None => false,
    }
}

/// A full-line `c` comment (see [`spec_is_comment_line`]).
pub fn is_comment_line(line: &[u8]) -> (r: bool)
    ensures
        r == spec_is_comment_line(line@),
{
    let body = strip_eol(line);
    proof {
        lemma_first_nonblank(body@, 0);
    }
    match first_content_column(body) {
        None => false,
        Some((col, i)) => {
            if col > 5 {
                return false;
            }
            if body[i] != 99u8 && body[i] != 67u8 {
                return false;
            }
            if i + 1 < body.len() {
                is_space(body[i + 1])
            } else {
                true
            }
        },
    }
}

/// A continuation by the blank-column mechanism: content starting past column 5.
pub open spec fn spec_is_blank_col_continuation(line: Seq<u8>) -> bool {
    match spec_first_content_column(spec_strip_eol(line)) {
        Some((col, _)) => col > 5,
        None => false,
    }
}

/// A non-blank line whose content starts beyond column 5.
pub fn is_blank_col_continuation(line: &[u8]) -> (r: bool)
    ensures
        r == spec_is_blank_col_continuation(line@),
{
    match first_content_column(strip_eol(line)) {
        Some((col, _)) => col > 5,
        None => false,
    }
}

/// Index of the last byte before `to` that is neither space nor tab.
pub open spec fn last_nonspace_before(s: Seq<u8>, to: int) -> Option<int>
    decreases to,
{
    if to <= 0 || to > s.len() {
        None
    } else if !spec_is_space(s[to - 1]) {
        Some(to - 1)
    } else {
        last_nonspace_before(s, to - 1)
    }
}

/// The content ends in `&` once any `$` inline comment and trailing blanks are cut.
pub open spec fn spec_ends_with_ampersand(line: Seq<u8>) -> bool {
    let body = spec_strip_eol(line);
    let cut = match first_index_of(body, 36u8, 0) {
        Some(i) => i,
        None => body.len() as int,
    };
    match last_nonspace_before(body, cut) {
        Some(j) => body[j] == 38u8,
        None => false,
    }
}

/// Whether a content line ends with the `&` continuation marker, read past any
/// `$` inline comment.
pub fn ends_with_ampersand(line: &[u8]) -> (r: bool)
    ensures
        r == spec_ends_with_ampersand(line@),
{
    let body = strip_eol(line);
    proof {
        assert(body@.subrange(0, body@.len() as int) =~= body@);
        lemma_first_index_of(body@, 36u8, 0);
    }
    let mut end = match find_byte(body, 36u8, 0, body.len()) {
        Some(i) => i,
        None => body.len(),
    };
    let ghost cut = end as int;
    assert(cut == (match first_index_of(body@, 36u8, 0) {
        Some(i) => i,
        None => body@.len() as int,
    }));
    proof {
        assert(cut <= body@.len());
    }
    while end > 0
        invariant
            end <= cut <= body@.len(),
            body@ == spec_strip_eol(line@),
            cut == (match first_index_of(body@, 36u8, 0) {
                Some(i) => i,
                None => body@.len() as int,
            }),
            last_nonspace_before(body@, cut) == last_nonspace_before(body@, end as int),
        decreases end,
    {
        if is_space(body[end - 1]) {
            end = end - 1;
        } else {
            assert(last_nonspace_before(body@, end as int) == Some(end - 1));
            return body[end - 1] == 38u8;
        }
    }
    false
}

/// The byte-order mark a file may start with.
pub open spec fn has_bom(s: Seq<u8>) -> bool {
    s.len() >= 3 && s[0] == 0xEFu8 && s[1] == 0xBBu8 && s[2] == 0xBFu8
}

pub open spec fn without_bom(s: Seq<u8>) -> Seq<u8> {
    if has_bom(s) {
        s.subrange(3, s.len() as int)
    } else {
        s
    }
}

pub open spec fn ascii_lower(b: u8) -> u8 {
    if 65u8 <= b <= 90u8 {
        (b + 32) as u8
    } else {
        b
    }
}

/// `MESSAGE:` in upper case.
pub open spec fn message_tag() -> Seq<u8> {
    seq![77u8, 69u8, 83u8, 83u8, 65u8, 71u8, 69u8, 58u8]
}

/// The file opens (after any BOM, and leading blanks) with `MESSAGE:`, in any case.
pub open spec fn spec_starts_with_message(src: Seq<u8>) -> bool {
    let s = without_bom(src);
    let body = spec_strip_eol(s.subrange(0, spec_line_end(s, 0)));
    match first_nonblank(body, 0) {
        Some(i) => body.len() - i >= 8 && forall|k: int|
            0 <= k < 8 ==> ascii_lower(#[trigger] body[i + k]) == ascii_lower(message_tag()[k]),
        None => false,
    }
}

pub fn to_lower(b: u8) -> (r: u8)
    ensures
        r == ascii_lower(b),
{
    if 65u8 <= b && b <= 90u8 {
        b + 32
    } else {
        b
    }
}

/// Does the file open with a `MESSAGE:` block? Checked after any BOM.
pub fn starts_with_message(src: &[u8]) -> (r: bool)
    ensures
        r == spec_starts_with_message(src@),
{
    let s = if src.len() >= 3 && src[0] == 0xEFu8 && src[1] == 0xBBu8 && src[2] == 0xBFu8 {
        vstd::slice::slice_subrange(src, 3, src.len())
    } else {
        src
    };
    assert(s@ == without_bom(src@));
    let end = line_end(s, 0);
    let line = vstd::slice::slice_subrange(s, 0, end);
    let body = strip_eol(line);
    let mut i: usize = 0;
    while i < body.len() && is_space(body[i])
        invariant
            i <= body@.len(),
            forall|j: int| 0 <= j < i ==> spec_is_space(#[trigger] body@[j]),
        decreases body@.len() - i,
    {
        i = i + 1;
    }
    if i == body.len() {
        proof {
            lemma_first_nonblank(body@, 0);
            if first_nonblank(body@, 0) is Some {
                let k = first_nonblank(body@, 0)->0;
                assert(spec_is_space(body@[k]));
            }
        }
        return false;
    }
    proof {
        lemma_first_nonblank_unique(body@, 0, i as int);
    }
    if body.len() - i < 8 {
        return false;
    }
    assert(i + 8 <= body@.len());
    let tag: [u8; 8] = [77u8, 69u8, 83u8, 83u8, 65u8, 71u8, 69u8, 58u8];
    assert(tag@ == message_tag());
    let mut k: usize = 0;
    let n = body.len();
    while k < 8
        invariant
            n == body@.len(),
            i + 8 <= n,
            body@ == spec_strip_eol(line@),
            line@ == s@.subrange(0, spec_line_end(s@, 0)),
            s@ == without_bom(src@),
            first_nonblank(body@, 0) == Some(i as int),
            tag@ == message_tag(),
            k <= 8,
            forall|m: int| 0 <= m < k ==> ascii_lower(#[trigger] body@[i + m]) == ascii_lower(message_tag()[m]),
        decreases 8 - k,
    {
        let at = i + k;
        if to_lower(body[at]) != to_lower(tag[k]) {
            return false;
        }
        k = k + 1;
    }
    true
}

/// Blank lines from `pos` on, as `(start, end)` pairs, in order.
pub open spec fn blank_lines_from(s: Seq<u8>, pos: int) -> Seq<(usize, usize)>
    decreases s.len() - pos,
{
    if pos < 0 || pos >= s.len() {
        Seq::empty()
    } else {
        proof {
            lemma_line_end(s, pos);
        }
        let e = spec_line_end(s, pos);
        let rest = if pos < e {
            blank_lines_from(s, e)
        } else {
            Seq::empty()
        };
        if spec_is_blank(s.subrange(pos, e)) {
            seq![(pos as usize, e as usize)] + rest
        } else {
            rest
        }
    }
}

/// The blank lines from `pos` on lie in order inside `[pos, len]`, each a whole
/// non-empty line.
pub proof fn lemma_blank_lines_from(s: Seq<u8>, pos: int)
    requires
        0 <= pos <= s.len() <= usize::MAX,
    ensures
        forall|k: int|
            0 <= k < blank_lines_from(s, pos).len() ==> pos <= (#[trigger] blank_lines_from(
                s,
                pos,
            )[k]).0 < blank_lines_from(s, pos)[k].1 <= s.len(),
        forall|k: int|
            0 <= k < blank_lines_from(s, pos).len() - 1 ==> (#[trigger] blank_lines_from(
                s,
                pos,
            )[k]).1 <= blank_lines_from(s, pos)[k + 1].0,
    decreases s.len() - pos,
{
    if pos < s.len() {
        lemma_line_end(s, pos);
        let e = spec_line_end(s, pos);
        lemma_blank_lines_from(s, e);
        let rest = blank_lines_from(s, e);
        if spec_is_blank(s.subrange(pos, e)) {
            let all = seq![(pos as usize, e as usize)] + rest;
            assert(blank_lines_from(s, pos) == all);
            assert forall|k: int| 0 <= k < all.len() implies pos <= (#[trigger] all[k]).0 < all[k].1
                <= s.len() by {
                if k > 0 {
                    assert(all[k] == rest[k - 1]);
                }
            }
            assert forall|k: int| 0 <= k < all.len() - 1 implies (#[trigger] all[k]).1 <= all[k
                + 1].0 by {
                if k > 0 {
                    assert(all[k] == rest[k - 1]);
                }
                assert(all[k + 1] == rest[k]);
            }
        }
    }
}

/// Byte offsets of every blank line in `src`, as `(start, end)` pairs.
pub fn find_blank_lines(src: &[u8]) -> (r: Vec<(usize, usize)>)
    ensures
        r@ == blank_lines_from(src@, 0),
{
    let mut out: Vec<(usize, usize)> = Vec::new();
    let mut pos: usize = 0;
    while pos < src.len()
        invariant
            pos <= src@.len(),
            out@ + blank_lines_from(src@, pos as int) == blank_lines_from(src@, 0),
        decreases src@.len() - pos,
    {
        let end = line_end(src, pos);
        let line = vstd::slice::slice_subrange(src, pos, end);
        let ghost before = out@;
        if is_blank(line) {
            out.push((pos, end));
            assert(before + blank_lines_from(src@, pos as int) == before + (seq![(pos, end)]
                + blank_lines_from(src@, end as int)));
            assert(out@ + blank_lines_from(src@, end as int) =~= before + (seq![(pos, end)]
                + blank_lines_from(src@, end as int)));
        }
        pos = end;
    }
    assert(out@ + blank_lines_from(src@, pos as int) =~= out@);
    out
}

} // verus!
