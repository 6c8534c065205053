//! Lines of an OBJ mesh file. A line is split into whitespace-separated
//! tokens; `v x y z` gives a vertex, `f a b c` a triangle. A face token such
//! as `7`, `7/2` or `7/2/5` names its vertex by the 1-based number before the
//! first `/`; the loader stores it as a 0-based index.

use vstd::prelude::*;
use vstd::slice::slice_subrange;

verus! {

/// The part of `s` before its first `/` (all of `s` when it has none).
pub open spec fn before_slash(s: Seq<u8>) -> Seq<u8>
    decreases s.len(),
{
    if s.len() == 0 {
        s
    } else if s[0] == 0x2fu8 {
        Seq::empty()
    } else {
        seq![s[0]] + before_slash(s.drop_first())
    }
}

/// `t` without one leading `+` sign.
pub open spec fn without_plus(t: Seq<u8>) -> Seq<u8> {
    if t.len() > 0 && t[0] == 0x2bu8 { t.drop_first() } else { t }
}

pub open spec fn is_digit(c: u8) -> bool {
    0x30u8 <= c <= 0x39u8
}

pub open spec fn all_digits(d: Seq<u8>) -> bool {
    forall|i: int| 0 <= i < d.len() ==> is_digit(#[trigger] d[i])
}

/// The number written in decimal by the digits `d` (0 for no digits).
pub open spec fn decimal_value(d: Seq<u8>) -> nat
    decreases d.len(),
{
    if d.len() == 0 {
        0
    } else {
        decimal_value(d.drop_last()) * 10 + (d.last() - 0x30u8) as nat
    }
}

/// The number that the standard unsigned parser reads from `t`: an optional
/// `+` followed by at least one decimal digit, with a value that fits in
/// `usize`; `None` for any other text.
pub open spec fn parsed_usize(t: Seq<u8>) -> Option<nat> {
    let d = without_plus(t);
    if d.len() > 0 && all_digits(d) && decimal_value(d) <= usize::MAX {
        Some(decimal_value(d))
    } else {
        None
    }
}

/// The 0-based vertex index that a face token names: the number before its
/// first `/`, less one. `None` when there is no such number or it is 0.
pub open spec fn face_index_of(token: Seq<u8>) -> Option<nat> {
    match parsed_usize(before_slash(token)) {
        Some(n) => if n >= 1 { Some((n - 1) as nat) } else { None },
        None => None,
    }
}

/// `s` holds no `/`.
pub open spec fn no_slash(s: Seq<u8>) -> bool {
    forall|i: int| 0 <= i < s.len() ==> #[trigger] s[i] != 0x2fu8
}

/// Text without a `/`, followed by anything, is cut at the `/` that follows it.
proof fn lemma_before_slash_prefix(t: Seq<u8>, rest: Seq<u8>)
    requires
        no_slash(t),
    ensures
        before_slash(t + rest) == t + before_slash(rest),
    decreases t.len(),
{
    if t.len() > 0 {
        assert((t + rest).drop_first() =~= t.drop_first() + rest);
        lemma_before_slash_prefix(t.drop_first(), rest);
        assert(t =~= seq![t[0]] + t.drop_first());
        assert(seq![t[0]] + (t.drop_first() + before_slash(rest)) =~= t + before_slash(rest));
    } else {
        assert(t + rest =~= rest);
        assert(t + before_slash(rest) =~= before_slash(rest));
    }
}

/// Whatever follows the first `/` of a face token is ignored: the token
/// `t/rest` names the same vertex as `t`.
pub proof fn lemma_face_index_ignores_after_slash(t: Seq<u8>, rest: Seq<u8>)
    requires
        no_slash(t),
    ensures
        face_index_of(t + seq![0x2fu8] + rest) == face_index_of(t),
{
    lemma_before_slash_prefix(t, seq![0x2fu8] + rest);
    assert(t + seq![0x2fu8] + rest =~= t + (seq![0x2fu8] + rest));
    assert(before_slash(seq![0x2fu8] + rest) =~= Seq::<u8>::empty());
    lemma_before_slash_prefix(t, Seq::empty());
    assert(t + Seq::<u8>::empty() =~= t);
    assert(before_slash(Seq::<u8>::empty()) =~= Seq::<u8>::empty());
    assert(t + before_slash(seq![0x2fu8] + rest) =~= t);
}

/// Text without a `/` is a whole face number: nothing is cut from it.
proof fn lemma_before_slash_whole(t: Seq<u8>)
    requires
        no_slash(t),
    ensures
        before_slash(t) == t,
{
    lemma_before_slash_prefix(t, Seq::empty());
    assert(t + Seq::<u8>::empty() =~= t);
    assert(t + before_slash(Seq::<u8>::empty()) =~= t);
}

/// The token made of the single digit `c` names the `c`-th vertex, that is
/// index `c - 1`; the digit 0 names no vertex.
pub proof fn lemma_face_index_single_digit(c: u8)
    requires
        is_digit(c),
    ensures
        face_index_of(seq![c]) == (if c == 0x30u8 { None } else { Some((c - 0x31u8) as nat) }),
{
    let s = seq![c];
    lemma_before_slash_whole(s);
    assert(without_plus(s) == s);
    assert(s.drop_last() =~= Seq::<u8>::empty());
    assert(decimal_value(Seq::<u8>::empty()) == 0);
    assert(decimal_value(s) == (c - 0x30u8) as nat);
    assert(all_digits(s));
}

/// Writing one more digit `c` after a face number `n + 1` gives the number
/// `10 * (n + 1) + c`.
pub proof fn lemma_face_index_next_digit(d: Seq<u8>, c: u8, n: nat)
    requires
        no_slash(d),
        d.len() > 0,
        d[0] != 0x2bu8,
        is_digit(c),
        face_index_of(d) == Some(n),
        10 * (n + 1) + (c - 0x30u8) <= usize::MAX,
    ensures
        face_index_of(d.push(c)) == Some((10 * (n + 1) + (c - 0x30u8) - 1) as nat),
{
    let e = d.push(c);
    lemma_before_slash_whole(d);
    assert(without_plus(d) == d);
    assert(parsed_usize(d) is Some);
    assert(all_digits(d));
    assert(decimal_value(d) == n + 1);
    assert(no_slash(e)) by {
        assert forall|i: int| 0 <= i < e.len() implies #[trigger] e[i] != 0x2fu8 by {
            if i < d.len() {
                assert(e[i] == d[i]);
            }
        }
    }
    lemma_before_slash_whole(e);
    assert(e[0] == d[0]);
    assert(without_plus(e) == e);
    assert(e.drop_last() =~= d);
    assert(decimal_value(e) == decimal_value(d) * 10 + (c - 0x30u8) as nat);
    assert(all_digits(e)) by {
        assert forall|i: int| 0 <= i < e.len() implies is_digit(#[trigger] e[i]) by {
            if i < d.len() {
                assert(e[i] == d[i]);
            }
        }
    }
}

/// A longer run of digits is worth at least as much as its prefix.
proof fn lemma_decimal_prefix_monotone(d: Seq<u8>, j: int, k: int)
    requires
        0 <= j <= k <= d.len(),
        all_digits(d),
    ensures
        decimal_value(d.take(j)) <= decimal_value(d.take(k)),
    decreases k - j,
{
    if j < k {
        lemma_decimal_prefix_monotone(d, j, k - 1);
        assert(d.take(k).drop_last() =~= d.take(k - 1));
    }
}

/// Reads the 0-based vertex index named by an OBJ face token; `None` when the
/// token does not name one (the loader rejects such a face).
pub fn parse_face_index(token: &[u8]) -> (index: Option<usize>)
    ensures
        match index {
            Some(i) => face_index_of(token@) == Some(i as nat),
            None => face_index_of(token@) is None,
        },
{
    let ghost t = token@;
    // The number ends at the first '/'.
    let mut end: usize = 0;
    proof {
        assert(t.skip(0) =~= t);
        assert(t.take(0) + before_slash(t) =~= before_slash(t));
    }
    while end < token.len() && token[end] != 0x2fu8
        invariant
            end <= token@.len(),
            t == token@,
            forall|i: int| 0 <= i < end ==> token@[i] != 0x2fu8,
            before_slash(t) == t.take(end as int) + before_slash(t.skip(end as int)),
        decreases token@.len() - end,
    {
        proof {
            let rest = t.skip(end as int);
            assert(rest.drop_first() =~= t.skip(end as int + 1));
            assert(t.take(end as int) + seq![rest[0]] =~= t.take(end as int + 1));
            assert(before_slash(rest) == seq![rest[0]] + before_slash(rest.drop_first()));
            assert(t.take(end as int) + (seq![rest[0]] + before_slash(rest.drop_first()))
                =~= t.take(end as int + 1) + before_slash(t.skip(end as int + 1)));
        }
        end = end + 1;
    }
    proof {
        let rest = t.skip(end as int);
        if end < t.len() {
            assert(rest[0] == 0x2fu8);
        } else {
            assert(rest.len() == 0);
        }
        assert(before_slash(rest) =~= Seq::<u8>::empty());
        assert(before_slash(t) =~= t.take(end as int));
    }
    // An optional leading '+'.
    let mut start: usize = 0;
    if end > 0 && token[0] == 0x2bu8 {
        start = 1;
    }
    let ghost d = t.subrange(start as int, end as int);
    proof {
        assert(d =~= without_plus(t.take(end as int)));
    }
    if start == end {
        return None;
    }
    let mut value: usize = 0;
    let mut i: usize = start;
    while i < end
        invariant
            start <= i <= end <= t.len(),
            t == token@,
            d == t.subrange(start as int, end as int),
            d == without_plus(t.take(end as int)),
            before_slash(t) == t.take(end as int),
            d.len() > 0,
            forall|j: int| start <= j < i ==> is_digit(#[trigger] t[j]),
            value == decimal_value(d.take(i - start)),
        decreases end - i,
    {
        let c = token[i];
        if c < 0x30u8 || c > 0x39u8 {
            proof {
                assert(!is_digit(d[i - start]));
            }
            return None;
        }
        proof {
            assert(d.take(i - start + 1).drop_last() =~= d.take(i - start));
        }
        let digit = (c - 0x30u8) as usize;
        match value.checked_mul(10) {
            Some(v) => match v.checked_add(digit) {
                Some(w) => {
                    value = w;
                }
                None => {
                    proof {
                        overflow_means_rejected(d, (i - start + 1) as int);
                    }
                    return None;
                }
            },
            None => {
                proof {
                    overflow_means_rejected(d, (i - start + 1) as int);
                }
                return None;
            }
        }
        i = i + 1;
    }
    proof {
        assert(d.take(end - start) =~= d);
        assert(all_digits(d));
    }
    if value == 0 {
        None
    } else {
        Some(value - 1)
    }
}

/// A digit prefix whose value exceeds `usize` makes the whole number either
/// not a digit run or too large.
proof fn overflow_means_rejected(d: Seq<u8>, k: int)
    requires
        0 < k <= d.len(),
        decimal_value(d.take(k)) > usize::MAX,
    ensures
        !(all_digits(d) && decimal_value(d) <= usize::MAX),
{
    if all_digits(d) {
        lemma_decimal_prefix_monotone(d, k, d.len() as int);
        assert(d.take(d.len() as int) =~= d);
    }
}

/// The byte at position `j` of `s`, or -1 past either end.
pub open spec fn byte_at(s: Seq<u8>, j: int) -> int {
    if 0 <= j < s.len() { s[j] as int } else { -1 }
}

/// Length in bytes of the whitespace character that starts at position `i`
/// of the UTF-8 text `s`, or 0 when none starts there. Whitespace is the
/// Unicode White_Space set that `char::is_whitespace` uses: tab to carriage
/// return, space, U+0085, U+00A0, U+1680, U+2000 to U+200A, U+2028, U+2029,
/// U+202F, U+205F and U+3000.
pub open spec fn whitespace_at(s: Seq<u8>, i: int) -> int {
    let b0 = byte_at(s, i);
    let b1 = byte_at(s, i + 1);
    let b2 = byte_at(s, i + 2);
    if b0 == 0x20 || (0x09 <= b0 <= 0x0d) {
        1
    } else if b0 == 0xc2 && (b1 == 0x85 || b1 == 0xa0) {
        2
    } else if b0 == 0xe1 && b1 == 0x9a && b2 == 0x80 {
        3
    } else if b0 == 0xe2 && b1 == 0x80 && ((0x80 <= b2 <= 0x8a) || b2 == 0xa8 || b2 == 0xa9 || b2 == 0xaf) {
        3
    } else if b0 == 0xe2 && b1 == 0x81 && b2 == 0x9f {
        3
    } else if b0 == 0xe3 && b1 == 0x80 && b2 == 0x80 {
        3
    } else {
        0
    }
}

/// The tokens of `s` from position `i` on, as `(start, end)` byte ranges:
/// the maximal runs without whitespace. `open` is the start of a token that
/// began before `i` and is still running.
pub open spec fn tokens_from(s: Seq<u8>, i: int, open: Option<int>) -> Seq<(int, int)>
    decreases s.len() - i,
{
    if i >= s.len() {
        match open {
            Some(a) => seq![(a, s.len() as int)],
            None => Seq::empty(),
        }
    } else if whitespace_at(s, i) > 0 {
        let rest = tokens_from(s, i + whitespace_at(s, i), None);
        match open {
            Some(a) => seq![(a, i)] + rest,
            None => rest,
        }
    } else {
        tokens_from(s, i + 1, if open is Some { open } else { Some(i) })
    }
}

/// The whitespace-separated tokens of the line `s`, as byte ranges.
pub open spec fn tokens(s: Seq<u8>) -> Seq<(int, int)> {
    tokens_from(s, 0, None)
}

/// The bytes `start..end` of a line.
#[derive(Clone, Copy, Debug, PartialEq, Eq, Structural)]
pub struct Span {
    pub start: usize,
    pub end: usize,
}

/// The span of the token `t`.
pub open spec fn span_of(t: (int, int)) -> Span {
    Span { start: t.0 as usize, end: t.1 as usize }
}

/// `t` is a token of `s`: a non-empty range of the line in which no
/// whitespace character starts, ending at whitespace or at the end of the line.
pub open spec fn is_token(s: Seq<u8>, t: (int, int)) -> bool {
    &&& 0 <= t.0 < t.1 <= s.len()
    &&& forall|j: int| t.0 <= j < t.1 ==> #[trigger] whitespace_at(s, j) == 0
    &&& t.1 == s.len() || whitespace_at(s, t.1) > 0
}

proof fn lemma_tokens_from_sound(s: Seq<u8>, i: int, open: Option<int>)
    requires
        0 <= i <= s.len(),
        open matches Some(a) ==> 0 <= a < i && forall|j: int| a <= j < i ==> #[trigger] whitespace_at(s, j) == 0,
    ensures
        ({
            let r = tokens_from(s, i, open);
            &&& forall|k: int| 0 <= k < r.len() ==> is_token(s, #[trigger] r[k])
            &&& forall|k: int, l: int| 0 <= k < l < r.len() ==> #[trigger] r[k].1 < #[trigger] r[l].0
            &&& forall|k: int| 0 <= k < r.len() ==> (match open {
                Some(a) => a,
                None => i,
            }) <= #[trigger] r[k].0
        }),
    decreases s.len() - i,
{
    let r = tokens_from(s, i, open);
    if i >= s.len() {
        if let Some(a) = open {
            assert(r == seq![(a, s.len() as int)]);
            assert(is_token(s, r[0]));
        } else {
            assert(r.len() == 0);
        }
    } else {
        let w = whitespace_at(s, i);
        if w > 0 {
            assert(i + w <= s.len());
            lemma_tokens_from_sound(s, i + w, None);
            let rest = tokens_from(s, i + w, None);
            if let Some(a) = open {
                assert(r == seq![(a, i)] + rest);
                assert(is_token(s, (a, i)));
                assert forall|k: int| 0 <= k < r.len() implies is_token(s, #[trigger] r[k]) by {
                    if k > 0 {
                        assert(r[k] == rest[k - 1]);
                    }
                }
                assert forall|k: int, l: int| 0 <= k < l < r.len() implies #[trigger] r[k].1 < #[trigger] r[l].0 by {
                    assert(r[l] == rest[l - 1]);
                    if k > 0 {
                        assert(r[k] == rest[k - 1]);
                    }
                }
                assert forall|k: int| 0 <= k < r.len() implies a <= #[trigger] r[k].0 by {
                    if k > 0 {
                        assert(r[k] == rest[k - 1]);
                    }
                }
            } else {
                assert(r == rest);
            }
        } else {
            let open2 = if open is Some { open } else { Some(i) };
            lemma_tokens_from_sound(s, i + 1, open2);
            assert(r == tokens_from(s, i + 1, open2));
        }
    }
}

/// The tokens of a line are tokens in the sense of `is_token`, in order of
/// position and separated by whitespace.
pub proof fn lemma_tokens_sound(s: Seq<u8>)
    ensures
        forall|k: int| 0 <= k < tokens(s).len() ==> is_token(s, #[trigger] tokens(s)[k]),
        forall|k: int, l: int| 0 <= k < l < tokens(s).len() ==> #[trigger] tokens(s)[k].1 < #[trigger] tokens(s)[l].0,
{
    lemma_tokens_from_sound(s, 0, None);
}

/// What one line of an OBJ file says.
#[derive(Clone, Copy, Debug, PartialEq, Eq, Structural)]
pub enum ObjLine {
    /// A vertex: the byte ranges of its x, y and z coordinate tokens.
    Vertex(Span, Span, Span),
    /// A triangle: the 0-based indices of its three vertices.
    Face(usize, usize, usize),
    /// A blank line, or one the mesh does not use.
    Other,
    /// A `v` or `f` line that the loader cannot take: fewer than three
    /// operands, a face token that names no vertex, or a vertex not yet read.
    Malformed,
}

/// The token `t` of `s` is the single letter `c`.
pub open spec fn token_is(s: Seq<u8>, t: (int, int), c: u8) -> bool {
    t.1 == t.0 + 1 && s[t.0] == c
}

/// The vertex index named by the face token `t` of `s`, when it names one
/// of the first `vertex_count` vertices.
pub open spec fn face_vertex(s: Seq<u8>, t: (int, int), vertex_count: int) -> Option<nat> {
    match face_index_of(s.subrange(t.0, t.1)) {
        Some(i) => if i < vertex_count { Some(i) } else { None },
        None => None,
    }
}

/// The meaning of the OBJ line `s` when `vertex_count` vertices have been
/// read before it. Tokens after the third operand are ignored.
pub open spec fn obj_line_of(s: Seq<u8>, vertex_count: int) -> ObjLine {
    let t = tokens(s);
    if t.len() == 0 {
        ObjLine::Other
    } else if token_is(s, t[0], 0x76u8) {
        if t.len() >= 4 {
            ObjLine::Vertex(span_of(t[1]), span_of(t[2]), span_of(t[3]))
        } else {
            ObjLine::Malformed
        }
    } else if token_is(s, t[0], 0x66u8) {
        if t.len() >= 4 && face_vertex(s, t[1], vertex_count) is Some && face_vertex(s, t[2], vertex_count) is Some
            && face_vertex(s, t[3], vertex_count) is Some {
            ObjLine::Face(
                face_vertex(s, t[1], vertex_count).unwrap() as usize,
                face_vertex(s, t[2], vertex_count).unwrap() as usize,
                face_vertex(s, t[3], vertex_count).unwrap() as usize,
            )
        } else {
            ObjLine::Malformed
        }
    } else {
        ObjLine::Other
    }
}

/// A face that a line gives only names vertices already read.
pub proof fn lemma_face_in_range(s: Seq<u8>, vertex_count: int)
    requires
        0 <= vertex_count <= usize::MAX,
    ensures
        obj_line_of(s, vertex_count) matches ObjLine::Face(a, b, c) ==> a < vertex_count && b < vertex_count
            && c < vertex_count,
{
}

/// Length of the whitespace character at position `i` of `line`, 0 if none.
fn whitespace_len(line: &[u8], i: usize) -> (n: usize)
    requires
        i < line@.len(),
    ensures
        n == whitespace_at(line@, i as int),
        i + n <= line@.len(),
{
    let len = line.len();
    let b0 = line[i] as i32;
    let b1: i32 = if len - i > 1 { line[i + 1] as i32 } else { -1 };
    let b2: i32 = if len - i > 2 { line[i + 2] as i32 } else { -1 };
    if b0 == 0x20 || (0x09 <= b0 && b0 <= 0x0d) {
        1
    } else if b0 == 0xc2 && (b1 == 0x85 || b1 == 0xa0) {
        2
    } else if b0 == 0xe1 && b1 == 0x9a && b2 == 0x80 {
        3
    } else if b0 == 0xe2 && b1 == 0x80 && ((0x80 <= b2 && b2 <= 0x8a) || b2 == 0xa8 || b2 == 0xa9 || b2 == 0xaf) {
        3
    } else if b0 == 0xe2 && b1 == 0x81 && b2 == 0x9f {
        3
    } else if b0 == 0xe3 && b1 == 0x80 && b2 == 0x80 {
        3
    } else {
        0
    }
}

/// The token that is still running, as an integer position.
spec fn open_at(cur: Option<usize>) -> Option<int> {
    match cur {
        Some(a) => Some(a as int),
        None => None,
    }
}

/// Splits `line` into its whitespace-separated tokens.
fn split_tokens(line: &[u8]) -> (toks: Vec<Span>)
    ensures
        toks@.len() == tokens(line@).len(),
        forall|j: int| 0 <= j < toks@.len() ==> #[trigger] toks@[j] == span_of(tokens(line@)[j]),
        forall|j: int| 0 <= j < toks@.len() ==> (#[trigger] toks@[j]).start as int == tokens(line@)[j].0
            && toks@[j].end as int == tokens(line@)[j].1,
        forall|j: int| 0 <= j < toks@.len() ==> {
            &&& 0 <= #[trigger] tokens(line@)[j].0 < tokens(line@)[j].1 <= line@.len()
        },
{
    let ghost s = line@;
    let len = line.len();
    let mut toks: Vec<Span> = Vec::new();
    let mut cur: Option<usize> = None;
    let mut i: usize = 0;
    let ghost mut done: Seq<(int, int)> = Seq::empty();
    proof {
        assert(done + tokens_from(s, 0, None) =~= tokens(s));
    }
    while i < len
        invariant
            s == line@,
            len == s.len(),
            i <= len,
            done + tokens_from(s, i as int, open_at(cur)) == tokens(s),
            toks@.len() == done.len(),
            forall|j: int| 0 <= j < done.len() ==> #[trigger] toks@[j] == span_of(done[j]),
            forall|j: int| 0 <= j < done.len() ==> 0 <= #[trigger] done[j].0 < done[j].1 <= i,
            cur matches Some(a) ==> a < i,
        decreases len - i,
    {
        let w = whitespace_len(line, i);
        if w > 0 {
            let ghost rest = tokens_from(s, i + w, None);
            if let Some(a) = cur {
                proof {
                    assert(done.push((a as int, i as int)) + rest =~= done + (seq![(a as int, i as int)] + rest));
                    done = done.push((a as int, i as int));
                }
                toks.push(Span { start: a, end: i });
            } else {
                assert(done + rest =~= done + tokens_from(s, i as int, open_at(cur)));
            }
            cur = None;
            i = i + w;
        } else {
            if cur.is_none() {
                cur = Some(i);
            }
            i = i + 1;
        }
    }
    if let Some(a) = cur {
        proof {
            assert(done.push((a as int, len as int)) =~= done + tokens_from(s, i as int, open_at(cur)));
            done = done.push((a as int, len as int));
        }
        toks.push(Span { start: a, end: len });
    } else {
        assert(done =~= done + tokens_from(s, i as int, open_at(cur)));
    }
    toks
}

/// The vertex index named by the face token `t` of `line`, when it names one
/// of the first `vertex_count` vertices.
fn face_vertex_in(line: &[u8], t: Span, vertex_count: usize) -> (index: Option<usize>)
    requires
        t.start <= t.end <= line@.len(),
    ensures
        match index {
            Some(i) => face_vertex(line@, (t.start as int, t.end as int), vertex_count as int) == Some(i as nat),
            None => face_vertex(line@, (t.start as int, t.end as int), vertex_count as int) is None,
        },
{
    let token = slice_subrange(line, t.start, t.end);
    match parse_face_index(token) {
        Some(i) => if i < vertex_count { Some(i) } else { None },
        None => None,
    }
}

/// Reads one line of an OBJ file, `vertex_count` vertices having been read
/// before it.
pub fn parse_obj_line(line: &[u8], vertex_count: usize) -> (r: ObjLine)
    ensures
        r == obj_line_of(line@, vertex_count as int),
{
    let toks = split_tokens(line);
    let ghost t = tokens(line@);
    if toks.len() == 0 {
        return ObjLine::Other;
    }
    let t0 = toks[0];
    proof {
        assert(toks@[0] == span_of(t[0]));
        assert(0 <= t[0].0 < t[0].1 <= line@.len());
        assert(t0.start as int == t[0].0 && t0.end as int == t[0].1);
    }
    if t0.end - t0.start == 1 && line[t0.start] == 0x76u8 {
        if toks.len() >= 4 {
            proof {
                assert(toks@[1] == span_of(t[1]));
                assert(toks@[2] == span_of(t[2]));
                assert(toks@[3] == span_of(t[3]));
            }
            ObjLine::Vertex(toks[1], toks[2], toks[3])
        } else {
            ObjLine::Malformed
        }
    } else if t0.end - t0.start == 1 && line[t0.start] == 0x66u8 {
        if toks.len() < 4 {
            return ObjLine::Malformed;
        }
        proof {
            assert(toks@[1] == span_of(t[1]) && 0 <= t[1].0 < t[1].1 <= line@.len());
            assert(toks@[2] == span_of(t[2]) && 0 <= t[2].0 < t[2].1 <= line@.len());
            assert(toks@[3] == span_of(t[3]) && 0 <= t[3].0 < t[3].1 <= line@.len());
        }
        let a = face_vertex_in(line, toks[1], vertex_count);
        let b = face_vertex_in(line, toks[2], vertex_count);
        let c = face_vertex_in(line, toks[3], vertex_count);
        match (a, b, c) {
            (Some(a), Some(b), Some(c)) => ObjLine::Face(a, b, c),
            _ => ObjLine::Malformed,
        }
    } else {
        ObjLine::Other
    }
}

} // verus!
