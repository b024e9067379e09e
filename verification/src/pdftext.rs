//! Cleanup and chapter splitting for text extracted from a PDF book.

use vstd::prelude::*;

use crate::text::join_strings;
use crate::text::join_with;
use crate::text::lines_exec;
use crate::text::lines_of;
use crate::text::remove_hyphen_breaks;
use crate::text::remove_hyphen_breaks_exec;
use crate::text::starts_with_seq;
use crate::text::starts_with_str;
use crate::text::utf8_len;

verus! {

/// Lines of at most this many bytes are treated as extraction noise.
pub const MIN_LINE_BYTES: usize = 30;

/// The lines longer than [`MIN_LINE_BYTES`] (in UTF-8 bytes, as `str::len`
/// measures it), in order.
pub open spec fn keep_long(ls: Seq<Seq<char>>) -> Seq<Seq<char>>
    decreases ls.len(),
{
    if ls.len() == 0 {
        Seq::empty()
    } else {
        let pre = keep_long(ls.drop_last());
        if utf8_len(ls.last()) > MIN_LINE_BYTES {
            pre.push(ls.last())
        } else {
            pre
        }
    }
}

/// Cleaned PDF text: short lines dropped, the rest re-joined with newlines,
/// hyphenated line breaks (`"-\n"`) removed.
pub open spec fn clean_pdf_text_spec(text: Seq<char>) -> Seq<char> {
    remove_hyphen_breaks(join_with(keep_long(lines_of(text)), seq!['\n']))
}

/// Cleans raw PDF-extracted text: the executable counterpart of
/// [`clean_pdf_text_spec`].
pub fn clean_pdf_text(text: &str) -> (r: String)
    ensures
        r@ == clean_pdf_text_spec(text@),
{
    let lines = lines_exec(text);
    let ghost lviews = lines@.map_values(|p: String| p@);
    let mut kept: Vec<String> = Vec::new();
    let mut i: usize = 0;
    proof {
        assert(kept@.map_values(|p: String| p@) =~= Seq::<Seq<char>>::empty());
        assert(keep_long(lviews.take(0)) =~= Seq::<Seq<char>>::empty());
    }
    while i < lines.len()
        invariant
            lviews == lines@.map_values(|p: String| p@),
            i <= lviews.len(),
            kept@.map_values(|p: String| p@) == keep_long(lviews.take(i as int)),
        decreases lviews.len() - i,
    {
        proof {
            assert(lviews.take(i + 1).drop_last() =~= lviews.take(i as int));
            assert(lviews.take(i + 1).last() == lviews[i as int]);
        }
        let line_bytes = lines[i].as_str().as_bytes().len();
        proof {
            assert(line_bytes == utf8_len(lviews[i as int]));
        }
        if line_bytes > MIN_LINE_BYTES {
            let ghost pre = kept@.map_values(|p: String| p@);
            kept.push(lines[i].clone());
            proof {
                assert(kept@.map_values(|p: String| p@) =~= pre.push(lviews[i as int]));
            }
        }
        i = i + 1;
    }
    proof {
        assert(lviews.take(lviews.len() as int) =~= lviews);
        reveal_strlit("\n");
        assert("\n"@ =~= seq!['\n']);
    }
    let joined = join_strings(&kept, "\n");
    remove_hyphen_breaks_exec(joined.as_str())
}

/// One chapter of a book: its heading line and its accumulated body text.
pub struct Chapter {
    pub title: String,
    pub content: String,
}

/// The mathematical content of a chapter.
pub open spec fn chapter_model(c: Chapter) -> (Seq<char>, Seq<char>) {
    (c.title@, c.content@)
}

/// The chapter-splitting state machine over the lines: a line starting with
/// `"CHAPTER "` or `"Chapter "` opens a new chapter titled by that line; any
/// other line (with a newline) extends the current chapter's content.
pub open spec fn chapters_loop(
    ls: Seq<Seq<char>>,
    i: int,
    title: Seq<char>,
    cur: Seq<char>,
    acc: Seq<(Seq<char>, Seq<char>)>,
) -> Seq<(Seq<char>, Seq<char>)>
    decreases ls.len() - i,
{
    if i >= ls.len() {
        if cur.len() > 0 {
            acc.push((title, cur))
        } else {
            acc
        }
    } else {
        let line = ls[i];
        if starts_with_seq(line, "CHAPTER "@) || starts_with_seq(line, "Chapter "@) {
            let acc1 = if cur.len() > 0 {
                acc.push((title, cur))
            } else {
                acc
            };
            chapters_loop(ls, i + 1, line, Seq::empty(), acc1)
        } else {
            chapters_loop(ls, i + 1, title, cur + line + seq!['\n'], acc)
        }
    }
}

/// The chapters of `text`, split on heading lines.
pub open spec fn split_pdf_chapters_spec(text: Seq<char>) -> Seq<(Seq<char>, Seq<char>)> {
    chapters_loop(lines_of(text), 0, "Chapter"@, Seq::empty(), Seq::empty())
}

/// Splits cleaned book text into chapters on heading lines: the executable
/// counterpart of [`split_pdf_chapters_spec`].
pub fn split_pdf_chapters(text: &str) -> (r: Vec<Chapter>)
    ensures
        r@.map_values(|c: Chapter| chapter_model(c)) == split_pdf_chapters_spec(text@),
{
    let lines = lines_exec(text);
    let ghost lviews = lines@.map_values(|p: String| p@);
    let mut chapters: Vec<Chapter> = Vec::new();
    let mut current = String::new();
    let mut title = String::from_str("Chapter");
    let mut i: usize = 0;
    proof {
        assert(chapters@.map_values(|c: Chapter| chapter_model(c)) =~= Seq::<(
            Seq<char>,
            Seq<char>,
        )>::empty());
        reveal_strlit("\n");
        assert("\n"@ =~= seq!['\n']);
    }
    while i < lines.len()
        invariant
            "\n"@ == seq!['\n'],
            lviews == lines@.map_values(|p: String| p@),
            i <= lviews.len(),
            chapters_loop(
                lviews,
                i as int,
                title@,
                current@,
                chapters@.map_values(|c: Chapter| chapter_model(c)),
            ) == split_pdf_chapters_spec(text@),
        decreases lviews.len() - i,
    {
        let line = &lines[i];
        proof {
            assert(lviews[i as int] == lines@[i as int]@);
        }
        if starts_with_str(line.as_str(), "CHAPTER ") || starts_with_str(line.as_str(), "Chapter ") {
            if !current.as_str().is_empty() {
                let ghost pre = chapters@.map_values(|c: Chapter| chapter_model(c));
                chapters.push(Chapter { title: title.clone(), content: current.clone() });
                proof {
                    assert(chapters@.map_values(|c: Chapter| chapter_model(c)) =~= pre.push(
                        (title@, current@),
                    ));
                }
                current = String::new();
            }
            title = line.clone();
        } else {
            current.append(line.as_str());
            current.append("\n");
        }
        proof {
            if current@.len() == 0 {
                assert(current@ =~= Seq::<char>::empty());
            }
        }
        i = i + 1;
    }
    if !current.as_str().is_empty() {
        let ghost pre = chapters@.map_values(|c: Chapter| chapter_model(c));
        let ghost t = title@;
        let ghost c = current@;
        chapters.push(Chapter { title, content: current });
        proof {
            assert(chapters@.map_values(|c2: Chapter| chapter_model(c2)) =~= pre.push((t, c)));
        }
    }
    chapters
}

} // verus!
