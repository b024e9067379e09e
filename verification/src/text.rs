//! Character-level text utilities: word counting, the token estimate used by
//! the segmenter, trimming, splitting and joining.
//!
//! All specifications are stated over `Seq<char>` views of strings.

use vstd::prelude::*;

verus! {

/// Whitespace characters recognized by this library: the Unicode
/// `White_Space` set, as `str::split_whitespace` and `str::trim` use it.
pub open spec fn is_ws_char(c: char) -> bool {
    let u = c as u32;
    u == 0x09 || u == 0x0A || u == 0x0B || u == 0x0C || u == 0x0D || u == 0x20 || u == 0x85
        || u == 0xA0 || u == 0x1680 || (0x2000 <= u && u <= 0x200A) || u == 0x2028 || u == 0x2029
        || u == 0x202F || u == 0x205F || u == 0x3000
}

/// Executable test for `is_ws_char`.
pub fn ws_char(c: char) -> (r: bool)
    ensures
        r == is_ws_char(c),
{
    let u = c as u32;
    u == 0x09 || u == 0x0A || u == 0x0B || u == 0x0C || u == 0x0D || u == 0x20 || u == 0x85
        || u == 0xA0 || u == 0x1680 || (0x2000 <= u && u <= 0x200A) || u == 0x2028 || u == 0x2029
        || u == 0x202F || u == 0x205F || u == 0x3000
}

/// The UTF-8 byte length of a text: what `str::len` measures of a string
/// with this character sequence.
pub open spec fn utf8_len(s: Seq<char>) -> nat {
    vstd::utf8::encode_utf8(s).len()
}

/// UTF-8 byte length adds up over concatenation.
pub proof fn lemma_utf8_len_concat(a: Seq<char>, b: Seq<char>)
    ensures
        utf8_len(a + b) == utf8_len(a) + utf8_len(b),
    decreases a.len(),
{
    if a.len() == 0 {
        assert(a + b =~= b);
    } else {
        assert((a + b).drop_first() =~= a.drop_first() + b);
        assert((a + b)[0] == a[0]);
        lemma_utf8_len_concat(a.drop_first(), b);
    }
}

/// A contiguous part of a text is no longer, in UTF-8 bytes, than the text.
pub proof fn lemma_utf8_len_subrange(s: Seq<char>, from: int, to: int)
    requires
        0 <= from <= to <= s.len(),
    ensures
        utf8_len(s.subrange(from, to)) <= utf8_len(s),
{
    assert(s =~= s.subrange(0, from) + s.subrange(from, to) + s.subrange(to, s.len() as int));
    lemma_utf8_len_concat(s.subrange(0, from) + s.subrange(from, to), s.subrange(to, s.len() as int));
    lemma_utf8_len_concat(s.subrange(0, from), s.subrange(from, to));
}

/// An ASCII character occupies one UTF-8 byte.
pub proof fn lemma_utf8_len_ascii_char(c: char)
    requires
        (c as u32) < 0x80,
    ensures
        utf8_len(seq![c]) == 1,
{
    assert(seq![c].drop_first() =~= Seq::<char>::empty());
    assert(vstd::utf8::encode_utf8(Seq::<char>::empty()) =~= Seq::<u8>::empty());
    assert(vstd::utf8::has_width_1_encoding(c as u32));
}

/// Number of words (maximal runs of non-whitespace characters) remaining in
/// `s`, given whether the character just before `s` was whitespace (or `s` is
/// at the start of the text).
pub open spec fn count_words_from(s: Seq<char>, prev_ws: bool) -> nat
    decreases s.len(),
{
    if s.len() == 0 {
        0
    } else {
        (if prev_ws && !is_ws_char(s[0]) {
            1nat
        } else {
            0nat
        }) + count_words_from(s.subrange(1, s.len() as int), is_ws_char(s[0]))
    }
}

/// Number of words in `s`.
pub open spec fn count_words(s: Seq<char>) -> nat {
    count_words_from(s, true)
}

/// The token estimate used throughout segmentation:
/// `ceil(words / 0.75)`, that is `ceil(4 * words / 3)`.
pub open spec fn token_estimate(s: Seq<char>) -> nat {
    (4 * count_words(s) + 2) / 3
}

/// The whitespace state after scanning `a` starting from state `prev_ws`.
pub open spec fn ws_state_after(a: Seq<char>, prev_ws: bool) -> bool {
    if a.len() == 0 {
        prev_ws
    } else {
        is_ws_char(a.last())
    }
}

/// Word counting splits over concatenation, threading the whitespace state.
pub proof fn lemma_count_words_concat(a: Seq<char>, b: Seq<char>, prev_ws: bool)
    ensures
        count_words_from(a + b, prev_ws) == count_words_from(a, prev_ws) + count_words_from(
            b,
            ws_state_after(a, prev_ws),
        ),
    decreases a.len(),
{
    if a.len() == 0 {
        assert(a + b =~= b);
    } else {
        assert((a + b).subrange(1, (a + b).len() as int) =~= a.subrange(1, a.len() as int) + b);
        assert((a + b)[0] == a[0]);
        lemma_count_words_concat(a.subrange(1, a.len() as int), b, is_ws_char(a[0]));
        if a.len() == 1 {
            assert(ws_state_after(a.subrange(1, a.len() as int), is_ws_char(a[0]))
                == ws_state_after(a, prev_ws));
        } else {
            assert(a.subrange(1, a.len() as int).last() == a.last());
        }
    }
}

/// Counts the words of `text`.
pub fn count_words_exec(text: &str) -> (w: usize)
    ensures
        w == count_words(text@),
        2 * w <= text@.len() + 1,
{
    let n = text.unicode_len();
    let mut i: usize = 0;
    let mut words: usize = 0;
    let mut prev_ws: bool = true;
    proof {
        assert(text@.subrange(0, n as int) =~= text@);
    }
    while i < n
        invariant
            n == text@.len(),
            i <= n,
            count_words(text@) == words + count_words_from(
                text@.subrange(i as int, n as int),
                prev_ws,
            ),
            2 * words <= i + if prev_ws { 0int } else { 1int },
        decreases n - i,
    {
        let c = text.get_char(i);
        let ws = ws_char(c);
        proof {
            let rest = text@.subrange(i as int, n as int);
            assert(rest[0] == text@[i as int]);
            assert(rest.subrange(1, rest.len() as int) =~= text@.subrange(i + 1, n as int));
        }
        if prev_ws && !ws {
            words = words + 1;
        }
        prev_ws = ws;
        i = i + 1;
    }
    proof {
        assert(text@.subrange(n as int, n as int) =~= Seq::<char>::empty());
    }
    words
}

/// Token estimate from a word count: `ceil(4 * words / 3)`.
pub fn tokens_of_words(words: usize) -> (t: usize)
    requires
        4 * words + 2 <= 3 * usize::MAX,
    ensures
        t == (4 * words + 2) / 3,
{
    let third = words / 3;
    let extra: usize = if words % 3 == 0 {
        0
    } else {
        1
    };
    proof {
        assert(words + words / 3 + 1 <= usize::MAX);
        assert(words + (words / 3 + extra) == (4 * words + 2) / 3);
    }
    words + third + extra
}

/// The first `max_chars` characters of `text` (all of it when shorter): the
/// hard safety cap applied to a chunk before it is persisted or embedded.
pub fn truncate_chars(text: &str, max_chars: usize) -> (r: String)
    ensures
        r@ == if text@.len() <= max_chars {
            text@
        } else {
            text@.subrange(0, max_chars as int)
        },
{
    let n = text.unicode_len();
    if n <= max_chars {
        proof {
            assert(text@.subrange(0, n as int) =~= text@);
        }
        String::from_str(text.substring_char(0, n))
    } else {
        String::from_str(text.substring_char(0, max_chars))
    }
}

/// Estimated token count of `text`: `ceil(word_count / 0.75)`.
pub fn estimate_tokens(text: &str) -> (t: usize)
    ensures
        t == token_estimate(text@),
{
    let n = text.unicode_len();
    let words = count_words_exec(text);
    proof {
        assert(4 * words + 2 <= 3 * usize::MAX);
    }
    tokens_of_words(words)
}

/// Leading whitespace removed.
pub open spec fn trim_start_spec(s: Seq<char>) -> Seq<char>
    decreases s.len(),
{
    if s.len() > 0 && is_ws_char(s[0]) {
        trim_start_spec(s.subrange(1, s.len() as int))
    } else {
        s
    }
}

/// Trailing whitespace removed.
pub open spec fn trim_end_spec(s: Seq<char>) -> Seq<char>
    decreases s.len(),
{
    if s.len() > 0 && is_ws_char(s.last()) {
        trim_end_spec(s.subrange(0, s.len() - 1))
    } else {
        s
    }
}

/// Leading and trailing whitespace removed.
pub open spec fn trim_spec(s: Seq<char>) -> Seq<char> {
    trim_end_spec(trim_start_spec(s))
}

pub proof fn lemma_trim_start_first(s: Seq<char>)
    ensures
        trim_start_spec(s).len() > 0 ==> !is_ws_char(trim_start_spec(s)[0]),
    decreases s.len(),
{
    if s.len() > 0 && is_ws_char(s[0]) {
        lemma_trim_start_first(s.subrange(1, s.len() as int));
    }
}

pub proof fn lemma_trim_end_prefix(s: Seq<char>)
    ensures
        trim_end_spec(s).len() <= s.len(),
        trim_end_spec(s) == s.subrange(0, trim_end_spec(s).len() as int),
        trim_end_spec(s).len() > 0 ==> !is_ws_char(trim_end_spec(s).last()),
    decreases s.len(),
{
    if s.len() > 0 && is_ws_char(s.last()) {
        let pre = s.subrange(0, s.len() - 1);
        lemma_trim_end_prefix(pre);
        assert(pre.subrange(0, trim_end_spec(pre).len() as int) =~= s.subrange(
            0,
            trim_end_spec(pre).len() as int,
        ));
    } else {
        assert(s.subrange(0, s.len() as int) =~= s);
    }
}

/// A non-empty trimmed text neither starts nor ends with whitespace.
pub proof fn lemma_trim_props(s: Seq<char>)
    ensures
        trim_spec(s).len() > 0 ==> !is_ws_char(trim_spec(s)[0]),
        trim_spec(s).len() > 0 ==> !is_ws_char(trim_spec(s).last()),
{
    lemma_trim_start_first(s);
    lemma_trim_end_prefix(trim_start_spec(s));
}

/// Trims `text`, as `str::trim` does on the whitespace set of `is_ws_char`.
pub fn trim_str(text: &str) -> (r: String)
    ensures
        r@ == trim_spec(text@),
{
    let n = text.unicode_len();
    let mut i: usize = 0;
    proof {
        assert(text@.subrange(0, n as int) =~= text@);
    }
    while i < n && ws_char(text.get_char(i))
        invariant
            n == text@.len(),
            i <= n,
            trim_start_spec(text@) == trim_start_spec(text@.subrange(i as int, n as int)),
        decreases n - i,
    {
        proof {
            let rest = text@.subrange(i as int, n as int);
            assert(rest.subrange(1, rest.len() as int) =~= text@.subrange(i + 1, n as int));
        }
        i = i + 1;
    }
    proof {
        assert(text@.subrange(0, n as int) =~= text@);
    }
    if i == n {
        proof {
            assert(text@.subrange(i as int, n as int) =~= Seq::<char>::empty());
        }
        return String::new();
    }
    // text@[i] is not whitespace, so the trimmed-start suffix is text@[i..].
    proof {
        let rest = text@.subrange(i as int, n as int);
        assert(!is_ws_char(rest[0]));
        assert(trim_start_spec(rest) == rest);
    }
    let mut j: usize = n;
    while j > i && ws_char(text.get_char(j - 1))
        invariant
            n == text@.len(),
            i <= j <= n,
            !is_ws_char(text@[i as int]),
            trim_start_spec(text@) == text@.subrange(i as int, n as int),
            trim_end_spec(text@.subrange(i as int, n as int)) == trim_end_spec(
                text@.subrange(i as int, j as int),
            ),
        decreases j,
    {
        proof {
            let cur = text@.subrange(i as int, j as int);
            assert(cur.last() == text@[j - 1]);
            assert(cur.subrange(0, cur.len() - 1) =~= text@.subrange(i as int, j - 1));
        }
        j = j - 1;
    }
    proof {
        let cur = text@.subrange(i as int, j as int);
        if j > i {
            assert(cur.last() == text@[j - 1]);
            assert(!is_ws_char(cur.last()));
        } else {
            assert(j == i);
            assert(cur.len() == 0);
        }
        assert(trim_end_spec(cur) == cur);
    }
    String::from_str(text.substring_char(i, j))
}

/// The raw segments of `s` split on the two-character separator `"\n\n"`,
/// scanning left to right over non-overlapping occurrences.
pub open spec fn split_nn_loop(s: Seq<char>, i: int, start: int, acc: Seq<Seq<char>>) -> Seq<
    Seq<char>,
>
    decreases s.len() - i,
{
    if i + 1 >= s.len() {
        acc.push(s.subrange(start, s.len() as int))
    } else if s[i] == '\n' && s[i + 1] == '\n' {
        split_nn_loop(s, i + 2, i + 2, acc.push(s.subrange(start, i)))
    } else {
        split_nn_loop(s, i + 1, start, acc)
    }
}

/// The segments of `s` between blank-line (`"\n\n"`) boundaries, untrimmed.
pub open spec fn raw_paragraphs(s: Seq<char>) -> Seq<Seq<char>> {
    split_nn_loop(s, 0, 0, Seq::empty())
}

/// Each segment trimmed; empty results dropped.
pub open spec fn keep_trimmed(parts: Seq<Seq<char>>) -> Seq<Seq<char>>
    decreases parts.len(),
{
    if parts.len() == 0 {
        Seq::empty()
    } else {
        let pre = keep_trimmed(parts.drop_last());
        let t = trim_spec(parts.last());
        if t.len() > 0 {
            pre.push(t)
        } else {
            pre
        }
    }
}

/// The paragraphs of a text: blank-line-separated segments, trimmed, with
/// empty ones dropped.
pub open spec fn paragraphs(s: Seq<char>) -> Seq<Seq<char>> {
    keep_trimmed(raw_paragraphs(s))
}

/// Every paragraph is non-empty and starts and ends with non-whitespace.
pub proof fn lemma_keep_trimmed_props(parts: Seq<Seq<char>>)
    ensures
        forall|k: int|
            0 <= k < keep_trimmed(parts).len() ==> {
                let p = #[trigger] keep_trimmed(parts)[k];
                p.len() > 0 && !is_ws_char(p[0]) && !is_ws_char(p.last())
            },
    decreases parts.len(),
{
    if parts.len() > 0 {
        lemma_keep_trimmed_props(parts.drop_last());
        lemma_trim_props(parts.last());
        let pre = keep_trimmed(parts.drop_last());
        assert forall|k: int| 0 <= k < keep_trimmed(parts).len() implies {
            let p = #[trigger] keep_trimmed(parts)[k];
            p.len() > 0 && !is_ws_char(p[0]) && !is_ws_char(p.last())
        } by {
            if k < pre.len() {
                assert(keep_trimmed(parts)[k] == pre[k]);
            }
        }
    }
}

/// Splits `text` into paragraphs: the executable counterpart of
/// [`paragraphs`].
pub fn split_paragraphs(text: &str) -> (r: Vec<String>)
    ensures
        r@.map_values(|p: String| p@) == paragraphs(text@),
{
    let n = text.unicode_len();
    let mut i: usize = 0;
    let mut start: usize = 0;
    let mut r: Vec<String> = Vec::new();
    let ghost mut raw: Seq<Seq<char>> = Seq::empty();
    while n > 0 && i < n - 1
        invariant
            n == text@.len(),
            start <= i,
            i <= n,
            split_nn_loop(text@, i as int, start as int, raw) == raw_paragraphs(text@),
            r@.map_values(|p: String| p@) == keep_trimmed(raw),
        decreases n - i,
    {
        if text.get_char(i) == '\n' && text.get_char(i + 1) == '\n' {
            let seg = text.substring_char(start, i);
            let t = trim_str(seg);
            proof {
                let raw2 = raw.push(text@.subrange(start as int, i as int));
                assert(raw2.drop_last() =~= raw);
                assert(raw2.last() == text@.subrange(start as int, i as int));
            }
            if !t.as_str().is_empty() {
                r.push(t);
                proof {
                    assert(r@.map_values(|p: String| p@) =~= keep_trimmed(raw).push(
                        trim_spec(text@.subrange(start as int, i as int)),
                    ));
                }
            }
            proof {
                raw = raw.push(text@.subrange(start as int, i as int));
            }
            start = i + 2;
            i = i + 2;
        } else {
            i = i + 1;
        }
    }
    let seg = text.substring_char(start, n);
    let t = trim_str(seg);
    proof {
        let raw2 = raw.push(text@.subrange(start as int, n as int));
        assert(raw2.drop_last() =~= raw);
        assert(raw2.last() == text@.subrange(start as int, n as int));
        assert(raw_paragraphs(text@) == raw2);
    }
    if !t.as_str().is_empty() {
        r.push(t);
        proof {
            assert(r@.map_values(|p: String| p@) =~= keep_trimmed(raw).push(
                trim_spec(text@.subrange(start as int, n as int)),
            ));
        }
    }
    r
}

/// The parts joined with `sep` between consecutive parts.
pub open spec fn join_with(parts: Seq<Seq<char>>, sep: Seq<char>) -> Seq<char>
    decreases parts.len(),
{
    if parts.len() == 0 {
        Seq::empty()
    } else if parts.len() == 1 {
        parts[0]
    } else {
        parts[0] + sep + join_with(parts.subrange(1, parts.len() as int), sep)
    }
}

pub proof fn lemma_join_push(parts: Seq<Seq<char>>, x: Seq<char>, sep: Seq<char>)
    requires
        parts.len() >= 1,
    ensures
        join_with(parts.push(x), sep) == join_with(parts, sep) + sep + x,
    decreases parts.len(),
{
    if parts.len() == 1 {
        assert(parts.push(x)[0] == parts[0]);
        assert(parts.push(x).subrange(1, 2) =~= seq![x]);
        assert(join_with(seq![x], sep) == x);
        assert(join_with(parts, sep) == parts[0]);
        assert(join_with(parts.push(x), sep) == parts[0] + sep + x);
    } else {
        let rest = parts.subrange(1, parts.len() as int);
        lemma_join_push(rest, x, sep);
        assert(parts.push(x).subrange(1, parts.push(x).len() as int) =~= rest.push(x));
        assert((parts[0] + sep + (join_with(rest, sep) + sep + x)) =~= (parts[0] + sep + join_with(
            rest,
            sep,
        )) + sep + x);
    }
}

/// Joins `parts[from..to]` with `sep` between consecutive parts.
pub fn join_range(parts: &Vec<String>, from: usize, to: usize, sep: &str) -> (r: String)
    requires
        from <= to <= parts@.len(),
    ensures
        r@ == join_with(parts@.map_values(|p: String| p@).subrange(from as int, to as int), sep@),
{
    let ghost views = parts@.map_values(|p: String| p@);
    let mut r = String::new();
    let mut i: usize = from;
    proof {
        assert(views.subrange(from as int, from as int) =~= Seq::<Seq<char>>::empty());
    }
    while i < to
        invariant
            from <= i <= to <= parts@.len(),
            views == parts@.map_values(|p: String| p@),
            r@ == join_with(views.subrange(from as int, i as int), sep@),
        decreases to - i,
    {
        if i > from {
            r.append(sep);
        }
        r.append(parts[i].as_str());
        proof {
            assert(views.subrange(from as int, i + 1) =~= views.subrange(
                from as int,
                i as int,
            ).push(views[i as int]));
            if i > from {
                lemma_join_push(views.subrange(from as int, i as int), views[i as int], sep@);
            } else {
                assert(join_with(seq![views[i as int]], sep@) == views[i as int]);
                assert(views.subrange(from as int, i + 1) =~= seq![views[i as int]]);
            }
        }
        i = i + 1;
    }
    r
}

/// Joins all the parts with `sep`: the executable counterpart of [`join_with`].
pub fn join_strings(parts: &Vec<String>, sep: &str) -> (r: String)
    ensures
        r@ == join_with(parts@.map_values(|p: String| p@), sep@),
{
    let r = join_range(parts, 0, parts.len(), sep);
    proof {
        let views = parts@.map_values(|p: String| p@);
        assert(views.subrange(0, views.len() as int) =~= views);
    }
    r
}

/// A trailing carriage return removed (for `"\r\n"` line endings).
pub open spec fn strip_cr(t: Seq<char>) -> Seq<char> {
    if t.len() > 0 && t.last() == '\r' {
        t.subrange(0, t.len() - 1)
    } else {
        t
    }
}

/// The lines of `s`: split at `'\n'`, a preceding `'\r'` dropped; a final
/// line ending produces no empty last line.
pub open spec fn lines_loop(s: Seq<char>, i: int, start: int, acc: Seq<Seq<char>>) -> Seq<Seq<char>>
    decreases s.len() - i,
{
    if i >= s.len() {
        if start < i {
            acc.push(s.subrange(start, s.len() as int))
        } else {
            acc
        }
    } else if s[i] == '\n' {
        lines_loop(s, i + 1, i + 1, acc.push(strip_cr(s.subrange(start, i))))
    } else {
        lines_loop(s, i + 1, start, acc)
    }
}

/// The lines of `s`.
pub open spec fn lines_of(s: Seq<char>) -> Seq<Seq<char>> {
    lines_loop(s, 0, 0, Seq::empty())
}

/// Splits `text` into lines: the executable counterpart of [`lines_of`].
pub fn lines_exec(text: &str) -> (r: Vec<String>)
    ensures
        r@.map_values(|p: String| p@) == lines_of(text@),
{
    let n = text.unicode_len();
    let mut i: usize = 0;
    let mut start: usize = 0;
    let mut r: Vec<String> = Vec::new();
    proof {
        assert(r@.map_values(|p: String| p@) =~= Seq::<Seq<char>>::empty());
    }
    while i < n
        invariant
            n == text@.len(),
            start <= i <= n,
            lines_loop(text@, i as int, start as int, r@.map_values(|p: String| p@)) == lines_of(
                text@,
            ),
        decreases n - i,
    {
        if text.get_char(i) == '\n' {
            let end = if i > start && text.get_char(i - 1) == '\r' {
                i - 1
            } else {
                i
            };
            let line = String::from_str(text.substring_char(start, end));
            let ghost pre = r@.map_values(|p: String| p@);
            proof {
                let seg = text@.subrange(start as int, i as int);
                if i > start && text@[i - 1] == '\r' {
                    assert(seg.last() == text@[i - 1]);
                    assert(strip_cr(seg) =~= text@.subrange(start as int, end as int));
                } else {
                    assert(strip_cr(seg) == seg);
                }
            }
            r.push(line);
            proof {
                assert(r@.map_values(|p: String| p@) =~= pre.push(
                    strip_cr(text@.subrange(start as int, i as int)),
                ));
            }
            start = i + 1;
            i = i + 1;
        } else {
            i = i + 1;
        }
    }
    if start < n {
        let line = String::from_str(text.substring_char(start, n));
        let ghost pre = r@.map_values(|p: String| p@);
        r.push(line);
        proof {
            assert(r@.map_values(|p: String| p@) =~= pre.push(
                text@.subrange(start as int, n as int),
            ));
        }
    }
    r
}

/// `s` with every `"-\n"` pair removed, scanning left to right over
/// non-overlapping occurrences.
pub open spec fn dehyphen_loop(s: Seq<char>, i: int, start: int, acc: Seq<char>) -> Seq<char>
    decreases s.len() - i,
{
    if i + 1 >= s.len() {
        acc + s.subrange(start, s.len() as int)
    } else if s[i] == '-' && s[i + 1] == '\n' {
        dehyphen_loop(s, i + 2, i + 2, acc + s.subrange(start, i))
    } else {
        dehyphen_loop(s, i + 1, start, acc)
    }
}

/// `s` with hyphenated line breaks (`"-\n"`) removed.
pub open spec fn remove_hyphen_breaks(s: Seq<char>) -> Seq<char> {
    dehyphen_loop(s, 0, 0, Seq::empty())
}

/// Removes hyphenated line breaks: the executable counterpart of
/// [`remove_hyphen_breaks`].
pub fn remove_hyphen_breaks_exec(text: &str) -> (r: String)
    ensures
        r@ == remove_hyphen_breaks(text@),
{
    let n = text.unicode_len();
    let mut i: usize = 0;
    let mut start: usize = 0;
    let mut r = String::new();
    while n > 0 && i < n - 1
        invariant
            n == text@.len(),
            start <= i <= n,
            dehyphen_loop(text@, i as int, start as int, r@) == remove_hyphen_breaks(text@),
        decreases n - i,
    {
        if text.get_char(i) == '-' && text.get_char(i + 1) == '\n' {
            r.append(text.substring_char(start, i));
            start = i + 2;
            i = i + 2;
        } else {
            i = i + 1;
        }
    }
    r.append(text.substring_char(start, n));
    r
}

/// `needle` occurs as a contiguous subsequence of `hay`.
pub open spec fn contains_seq(hay: Seq<char>, needle: Seq<char>) -> bool {
    exists|k: int|
        0 <= k <= hay.len() - needle.len() && #[trigger] hay.subrange(k, k + needle.len())
            == needle
}

/// Substring search: the executable counterpart of [`contains_seq`].
pub fn contains_sub(hay: &str, needle: &str) -> (r: bool)
    ensures
        r == contains_seq(hay@, needle@),
{
    let hn = hay.unicode_len();
    let nn = needle.unicode_len();
    if nn > hn {
        return false;
    }
    let mut k: usize = 0;
    while k <= hn - nn
        invariant
            hn == hay@.len(),
            nn == needle@.len(),
            nn <= hn,
            k <= hn - nn + 1,
            forall|kk: int|
                0 <= kk < k ==> #[trigger] hay@.subrange(kk, kk + nn as int) != needle@,
        decreases hn - nn - k + 1,
    {
        let mut j: usize = 0;
        while j < nn && hay.get_char(k + j) == needle.get_char(j)
            invariant
                hn == hay@.len(),
                nn == needle@.len(),
                k + nn <= hn,
                j <= nn,
                forall|jj: int| 0 <= jj < j ==> hay@[k + jj] == needle@[jj],
            decreases nn - j,
        {
            j = j + 1;
        }
        if j == nn {
            proof {
                assert(hay@.subrange(k as int, k + nn as int) =~= needle@);
            }
            return true;
        }
        proof {
            assert(hay@.subrange(k as int, k + nn as int)[j as int] != needle@[j as int]);
        }
        k = k + 1;
    }
    proof {
        if contains_seq(hay@, needle@) {
            let w = choose|w: int|
                0 <= w <= hay@.len() - needle@.len() && #[trigger] hay@.subrange(
                    w,
                    w + needle@.len(),
                ) == needle@;
            assert(hay@.subrange(w, w + nn as int) != needle@);
        }
    }
    false
}

/// Character-for-character string equality.
pub fn str_eq_str(a: &str, b: &str) -> (r: bool)
    ensures
        r == (a@ == b@),
{
    let an = a.unicode_len();
    let bn = b.unicode_len();
    if an != bn {
        proof {
            assert(a@ != b@);
        }
        return false;
    }
    let mut i: usize = 0;
    while i < an
        invariant
            an == a@.len() == b@.len(),
            i <= an,
            forall|j: int| 0 <= j < i ==> a@[j] == b@[j],
        decreases an - i,
    {
        if a.get_char(i) != b.get_char(i) {
            proof {
                assert(a@[i as int] != b@[i as int]);
            }
            return false;
        }
        i = i + 1;
    }
    proof {
        assert(a@ =~= b@);
    }
    true
}

/// `s` begins with `prefix`.
pub open spec fn starts_with_seq(s: Seq<char>, prefix: Seq<char>) -> bool {
    prefix.len() <= s.len() && s.subrange(0, prefix.len() as int) == prefix
}

/// Prefix test: the executable counterpart of [`starts_with_seq`].
pub fn starts_with_str(s: &str, prefix: &str) -> (r: bool)
    ensures
        r == starts_with_seq(s@, prefix@),
{
    let n = s.unicode_len();
    let pn = prefix.unicode_len();
    if pn > n {
        return false;
    }
    let mut i: usize = 0;
    while i < pn
        invariant
            n == s@.len(),
            pn == prefix@.len(),
            pn <= n,
            i <= pn,
            forall|j: int| 0 <= j < i ==> s@[j] == prefix@[j],
        decreases pn - i,
    {
        if s.get_char(i) != prefix.get_char(i) {
            proof {
                assert(s@.subrange(0, pn as int)[i as int] != prefix@[i as int]);
            }
            return false;
        }
        i = i + 1;
    }
    proof {
        assert(s@.subrange(0, pn as int) =~= prefix@);
    }
    true
}

} // verus!
