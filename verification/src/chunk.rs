//! Length-bounded paragraph chunking without overlap.
//!
//! A simpler companion to the token-aware segmenter: paragraphs are appended
//! (each with a trailing newline) to a working chunk until adding the next
//! one would exceed `max_len` bytes; a finished working chunk is kept
//! only when longer than the minimum persisted size.

use vstd::prelude::*;

use crate::text::lemma_utf8_len_ascii_char;
use crate::text::lemma_utf8_len_concat;
use crate::text::lemma_utf8_len_subrange;
use crate::text::raw_paragraphs;
use crate::text::split_nn_loop;
use crate::text::utf8_len;

verus! {

/// Chunks of at most this many bytes are discarded before persisting.
pub const MIN_CHUNK_BYTES: usize = 200;

/// The chunking state machine over the raw paragraph list.
pub open spec fn cbp_loop(
    parts: Seq<Seq<char>>,
    max_len: nat,
    i: int,
    cur: Seq<char>,
    acc: Seq<Seq<char>>,
) -> Seq<Seq<char>>
    decreases parts.len() - i,
{
    if i >= parts.len() {
        if utf8_len(cur) > MIN_CHUNK_BYTES {
            acc.push(cur)
        } else {
            acc
        }
    } else {
        let p = parts[i];
        let acc1 = if utf8_len(cur) + utf8_len(p) > max_len && utf8_len(cur) > MIN_CHUNK_BYTES {
            acc.push(cur)
        } else {
            acc
        };
        let cur1 = if utf8_len(cur) + utf8_len(p) > max_len {
            Seq::<char>::empty()
        } else {
            cur
        };
        cbp_loop(parts, max_len, i + 1, cur1 + p + seq!['\n'], acc1)
    }
}

/// The chunks of `text` under the plain length-bounded rule.
pub open spec fn chunk_by_paragraph_spec(text: Seq<char>, max_len: nat) -> Seq<Seq<char>> {
    cbp_loop(raw_paragraphs(text), max_len, 0, Seq::empty(), Seq::empty())
}

/// Splits `text` on blank lines and packs the paragraphs into chunks of at
/// most `max_len` bytes (a paragraph longer than `max_len` stands alone);
/// chunks of at most [`MIN_CHUNK_BYTES`] bytes are dropped. Lengths are
/// UTF-8 byte lengths, as `str::len` measures them.
pub fn chunk_by_paragraph(text: &str, max_len: usize) -> (chunks: Vec<String>)
    requires
        max_len < usize::MAX,
        utf8_len(text@) + 2 <= usize::MAX,
    ensures
        chunks@.map_values(|c: String| c@) == chunk_by_paragraph_spec(text@, max_len as nat),
{
    let n = text.unicode_len();
    let mut i: usize = 0;
    let mut start: usize = 0;
    let mut parts: Vec<String> = Vec::new();
    let ghost mut raw: Seq<Seq<char>> = Seq::empty();
    while n > 0 && i < n - 1
        invariant
            n == text@.len(),
            start <= i <= n,
            split_nn_loop(text@, i as int, start as int, raw) == raw_paragraphs(text@),
            parts@.map_values(|p: String| p@) == raw,
            forall|k: int| 0 <= k < raw.len() ==> utf8_len(#[trigger] raw[k]) <= utf8_len(text@),
        decreases n - i,
    {
        if text.get_char(i) == '\n' && text.get_char(i + 1) == '\n' {
            let seg = String::from_str(text.substring_char(start, i));
            let ghost pre = parts@.map_values(|p: String| p@);
            parts.push(seg);
            proof {
                raw = raw.push(text@.subrange(start as int, i as int));
                assert(parts@.map_values(|p: String| p@) =~= pre.push(
                    text@.subrange(start as int, i as int),
                ));
                lemma_utf8_len_subrange(text@, start as int, i as int);
            }
            start = i + 2;
            i = i + 2;
        } else {
            i = i + 1;
        }
    }
    let last_seg = String::from_str(text.substring_char(start, n));
    let ghost pre_parts = parts@.map_values(|p: String| p@);
    parts.push(last_seg);
    proof {
        raw = raw.push(text@.subrange(start as int, n as int));
        assert(parts@.map_values(|p: String| p@) =~= pre_parts.push(
            text@.subrange(start as int, n as int),
        ));
        assert(raw == raw_paragraphs(text@));
        lemma_utf8_len_subrange(text@, start as int, n as int);
        assert(forall|k: int|
            0 <= k < raw.len() ==> utf8_len(#[trigger] raw[k]) <= utf8_len(text@));
    }
    let ghost pviews = parts@.map_values(|p: String| p@);
    let mut chunks: Vec<String> = Vec::new();
    let mut cur = String::new();
    let mut cur_bytes: usize = 0;
    let mut j: usize = 0;
    proof {
        assert(chunks@.map_values(|c: String| c@) =~= Seq::<Seq<char>>::empty());
        reveal_strlit("\n");
        assert("\n"@ =~= seq!['\n']);
        assert(utf8_len(Seq::<char>::empty()) == 0);
    }
    while j < parts.len()
        invariant
            max_len < usize::MAX,
            n == text@.len(),
            utf8_len(text@) + 2 <= usize::MAX,
            "\n"@ == seq!['\n'],
            pviews == parts@.map_values(|p: String| p@),
            j <= pviews.len(),
            cur_bytes == utf8_len(cur@),
            // Every part is a subrange of the text, so its byte length is
            // bounded by the text's.
            forall|k: int|
                0 <= k < pviews.len() ==> utf8_len(#[trigger] pviews[k]) <= utf8_len(text@),
            cur_bytes <= max_len + utf8_len(text@) + 1,
            cbp_loop(pviews, max_len as nat, j as int, cur@, chunks@.map_values(|c: String| c@))
                == chunk_by_paragraph_spec(text@, max_len as nat),
        decreases pviews.len() - j,
    {
        let p = &parts[j];
        let plen = p.as_str().len();
        proof {
            assert(plen == utf8_len(pviews[j as int]));
        }
        let overflowing = plen > max_len || cur_bytes > max_len - plen;
        if overflowing {
            if cur_bytes > MIN_CHUNK_BYTES {
                let ghost pre = chunks@.map_values(|c: String| c@);
                let done = cur;
                chunks.push(done);
                proof {
                    assert(chunks@.map_values(|c: String| c@) =~= pre.push(cur@));
                }
            }
            cur = String::new();
            cur_bytes = 0;
            proof {
                assert(utf8_len(Seq::<char>::empty()) == 0);
            }
        }
        let ghost pre_cur = cur@;
        cur.append(p.as_str());
        cur.append("\n");
        proof {
            lemma_utf8_len_concat(pre_cur, pviews[j as int]);
            lemma_utf8_len_concat(pre_cur + pviews[j as int], "\n"@);
            lemma_utf8_len_ascii_char('\n');
            assert("\n"@ =~= seq!['\n']);
        }
        cur_bytes = cur_bytes + plen + 1;
        j = j + 1;
    }
    if cur_bytes > MIN_CHUNK_BYTES {
        let ghost pre = chunks@.map_values(|c: String| c@);
        chunks.push(cur);
        proof {
            assert(chunks@.map_values(|c: String| c@) =~= pre.push(cur@));
        }
    }
    chunks
}

} // verus!
