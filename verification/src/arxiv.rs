//! Section extraction from paper text, and PDF-link extraction from an arXiv
//! Atom feed.

use vstd::prelude::*;

use crate::text::contains_seq;
use crate::text::contains_sub;
use crate::text::str_eq_str;
use crate::text::utf8_len;

verus! {

/// A named span of a paper's text.
pub struct Section {
    pub name: String,
    pub content: String,
}

/// The mathematical content of a section.
pub open spec fn section_model(s: Section) -> (Seq<char>, Seq<char>) {
    (s.name@, s.content@)
}

/// What `str::to_lowercase` returns for a text: the result depends on the
/// characters alone, so it is given a name rather than a definition.
pub uninterp spec fn lower_of(s: Seq<char>) -> Seq<char>;

/// Relies on str::to_lowercase: Unicode lowercasing, a pure function of the
/// input characters.
#[verifier::external_body]
fn lowercase(s: &str) -> (r: String)
    ensures
        r@ == lower_of(s@),
{
    s.to_lowercase()
}

/// The section name a heading line announces, by the keywords its lowercased
/// text contains; `None` for an ordinary content line.
pub open spec fn section_for_line(line: Seq<char>) -> Option<Seq<char>> {
    let low = lower_of(line);
    if contains_seq(low, "abstract"@) {
        Some("abstract"@)
    } else if contains_seq(low, "introduction"@) {
        Some("introduction"@)
    } else if contains_seq(low, "limitations"@) {
        Some("limitations"@)
    } else if contains_seq(low, "future work"@) {
        Some("future_work"@)
    } else {
        None
    }
}

/// Content of at most this many bytes does not form a section of its own.
pub const MIN_SECTION_BYTES: usize = 200;

/// The accumulated current section appended to `secs` when long enough
/// (measured in UTF-8 bytes, as `str::len` measures it).
pub open spec fn push_section_spec(
    secs: Seq<(Seq<char>, Seq<char>)>,
    name: Seq<char>,
    content: Seq<char>,
) -> Seq<(Seq<char>, Seq<char>)> {
    if utf8_len(content) > MIN_SECTION_BYTES {
        secs.push((name, content))
    } else {
        secs
    }
}

/// The section-extraction state machine over the lines of a paper.
pub open spec fn sections_loop(
    ls: Seq<Seq<char>>,
    i: int,
    name: Seq<char>,
    content: Seq<char>,
    acc: Seq<(Seq<char>, Seq<char>)>,
) -> Seq<(Seq<char>, Seq<char>)>
    decreases ls.len() - i,
{
    if i >= ls.len() {
        push_section_spec(acc, name, content)
    } else {
        match section_for_line(ls[i]) {
            Some(new_name) => sections_loop(
                ls,
                i + 1,
                new_name,
                Seq::empty(),
                push_section_spec(acc, name, content),
            ),
            None => sections_loop(ls, i + 1, name, content + ls[i] + seq!['\n'], acc),
        }
    }
}

/// The sections of `text`.
pub open spec fn extract_sections_spec(text: Seq<char>) -> Seq<(Seq<char>, Seq<char>)> {
    sections_loop(crate::text::lines_of(text), 0, "unknown"@, Seq::empty(), Seq::empty())
}

/// Flushes the current section into `sections` if its content exceeds
/// [`MIN_SECTION_BYTES`] bytes, and clears the content either way.
pub fn push_section(sections: &mut Vec<Section>, current: &mut Section)
    ensures
        final(sections)@.map_values(|s: Section| section_model(s)) == push_section_spec(
            old(sections)@.map_values(|s: Section| section_model(s)),
            old(current).name@,
            old(current).content@,
        ),
        final(current).name@ == old(current).name@,
        final(current).content@.len() == 0,
{
    let content_bytes = current.content.as_str().as_bytes().len();
    proof {
        assert(content_bytes == utf8_len(current.content@));
    }
    if content_bytes > MIN_SECTION_BYTES {
        let ghost pre = sections@.map_values(|s: Section| section_model(s));
        sections.push(
            Section { name: current.name.clone(), content: current.content.clone() },
        );
        proof {
            assert(sections@.map_values(|s: Section| section_model(s)) =~= pre.push(
                (current.name@, current.content@),
            ));
        }
    }
    current.content = String::new();
}

/// Walks the lines of `text`, opening a new section at each line that names
/// one (abstract, introduction, limitations, future work) and accumulating
/// all other lines into the current section's content.
pub fn extract_sections(text: &str) -> (r: Vec<Section>)
    ensures
        r@.map_values(|s: Section| section_model(s)) == extract_sections_spec(text@),
{
    let lines = crate::text::lines_exec(text);
    let ghost lviews = lines@.map_values(|p: String| p@);
    let mut sections: Vec<Section> = Vec::new();
    let mut current = Section { name: String::from_str("unknown"), content: String::new() };
    let mut i: usize = 0;
    proof {
        assert(sections@.map_values(|s: Section| section_model(s)) =~= Seq::<(
            Seq<char>,
            Seq<char>,
        )>::empty());
        reveal_strlit("\n");
        assert("\n"@ =~= seq!['\n']);
    }
    while i < lines.len()
        invariant
            "\n"@ == seq!['\n'],
            lviews == lines@.map_values(|p: String| p@),
            i <= lviews.len(),
            sections_loop(
                lviews,
                i as int,
                current.name@,
                current.content@,
                sections@.map_values(|s: Section| section_model(s)),
            ) == extract_sections_spec(text@),
        decreases lviews.len() - i,
    {
        let line = &lines[i];
        proof {
            assert(lviews[i as int] == lines@[i as int]@);
        }
        let low = lowercase(line.as_str());
        if contains_sub(low.as_str(), "abstract") {
            push_section(&mut sections, &mut current);
            current.name = String::from_str("abstract");
        } else if contains_sub(low.as_str(), "introduction") {
            push_section(&mut sections, &mut current);
            current.name = String::from_str("introduction");
        } else if contains_sub(low.as_str(), "limitations") {
            push_section(&mut sections, &mut current);
            current.name = String::from_str("limitations");
        } else if contains_sub(low.as_str(), "future work") {
            push_section(&mut sections, &mut current);
            current.name = String::from_str("future_work");
        } else {
            current.content.append(line.as_str());
            current.content.append("\n");
        }
        proof {
            if current.content@.len() == 0 {
                assert(current.content@ =~= Seq::<char>::empty());
            }
        }
        i = i + 1;
    }
    push_section(&mut sections, &mut current);
    sections
}

/// Declares quick_xml's reader type so it can stand in signatures.
#[verifier::external_type_specification]
#[verifier::external_body]
#[verifier::reject_recursive_types(R)]
pub struct ExXmlReader<R>(quick_xml::Reader<R>);

/// One XML event, reduced to plain values: an opening or empty element with
/// its name and attributes, the end of the input, any other event, or a
/// parse fault.
pub enum XmlEvent {
    Open { name: String, attrs: Vec<(String, String)> },
    Eof,
    Other,
    Fault,
}

/// Relies on quick_xml::Reader::from_str: builds a reader over the text.
#[verifier::external_body]
fn xml_reader_from<'a>(xml: &'a str) -> quick_xml::Reader<&'a [u8]> {
    quick_xml::Reader::from_str(xml)
}

/// Relies on quick_xml::Reader::read_event: yields the next event of the
/// document. Which event comes depends on the reader's internal position, so
/// nothing is assumed of the result; the verified caller handles every
/// variant.
#[verifier::external_body]
fn next_xml_event(reader: &mut quick_xml::Reader<&[u8]>) -> XmlEvent {
    match reader.read_event() {
        Ok(quick_xml::events::Event::Start(e)) | Ok(quick_xml::events::Event::Empty(e)) => {
            XmlEvent::Open {
                name: e.name().as_ref().to_string(),
                attrs: e.attributes().flatten().map(
                    |a| (a.key.as_ref().to_string(), a.value.into_owned()),
                ).collect(),
            }
        },
        Ok(quick_xml::events::Event::Eof) => XmlEvent::Eof,
        Ok(_) => XmlEvent::Other,
        Err(_) => XmlEvent::Fault,
    }
}

/// The value of the last attribute named `key`, as the original assignment
/// loop leaves it (a repeated attribute overwrites the earlier value).
pub open spec fn last_attr(attrs: Seq<(Seq<char>, Seq<char>)>, key: Seq<char>) -> Option<
    Seq<char>,
>
    decreases attrs.len(),
{
    if attrs.len() == 0 {
        None
    } else if attrs.last().0 == key {
        Some(attrs.last().1)
    } else {
        last_attr(attrs.drop_last(), key)
    }
}

/// The PDF link an element contributes: the `href` of a `link` element whose
/// `type` attribute is `application/pdf`.
pub open spec fn pdf_link_of(name: Seq<char>, attrs: Seq<(Seq<char>, Seq<char>)>) -> Option<
    Seq<char>,
> {
    if name == "link"@ {
        match (last_attr(attrs, "href"@), last_attr(attrs, "type"@)) {
            (Some(h), Some(t)) => if t == "application/pdf"@ {
                Some(h)
            } else {
                None
            },
            _ => None,
        }
    } else {
        None
    }
}

/// The view of an optional string.
pub open spec fn opt_view(o: Option<String>) -> Option<Seq<char>> {
    match o {
        Some(s) => Some(s@),
        None => None,
    }
}

/// Decides, for one element, whether it contributes a PDF link: the exact
/// counterpart of [`pdf_link_of`].
pub fn pdf_link_attr(name: &String, attrs: &Vec<(String, String)>) -> (r: Option<String>)
    ensures
        opt_view(r) == pdf_link_of(
            name@,
            attrs@.map_values(|a: (String, String)| (a.0@, a.1@)),
        ),
{
    let ghost aviews = attrs@.map_values(|a: (String, String)| (a.0@, a.1@));
    proof {
        reveal_strlit("href");
        reveal_strlit("type");
        assert("href"@ =~= seq!['h', 'r', 'e', 'f']);
        assert("type"@ =~= seq!['t', 'y', 'p', 'e']);
    }
    if !str_eq_str(name.as_str(), "link") {
        return None;
    }
    let mut href: Option<String> = None;
    let mut ltype: Option<String> = None;
    let mut i: usize = 0;
    while i < attrs.len()
        invariant
            aviews == attrs@.map_values(|a: (String, String)| (a.0@, a.1@)),
            i <= aviews.len(),
            "href"@ != "type"@,
            opt_view(href) == last_attr(aviews.take(i as int), "href"@),
            opt_view(ltype) == last_attr(aviews.take(i as int), "type"@),
        decreases aviews.len() - i,
    {
        proof {
            assert(aviews.take(i + 1).drop_last() =~= aviews.take(i as int));
            assert(aviews.take(i + 1).last() == aviews[i as int]);
            assert(aviews[i as int] == (attrs@[i as int].0@, attrs@[i as int].1@));
        }
        let key = &attrs[i].0;
        if str_eq_str(key.as_str(), "href") {
            href = Some(attrs[i].1.clone());
            proof {
                assert(aviews[i as int].0 == "href"@);
                assert(aviews[i as int].0 != "type"@);
            }
        } else if str_eq_str(key.as_str(), "type") {
            ltype = Some(attrs[i].1.clone());
        }
        i = i + 1;
    }
    proof {
        assert(aviews.take(aviews.len() as int) =~= aviews);
    }
    match (href, ltype) {
        (Some(h), Some(t)) => {
            if str_eq_str(t.as_str(), "application/pdf") {
                Some(h)
            } else {
                None
            }
        },
        _ => None,
    }
}

/// Extracts the PDF link targets from an arXiv Atom feed: the `href` of each
/// `link` element whose `type` attribute is `application/pdf`, in document
/// order. The XML parser's events are opaque to this library, so which
/// elements occur cannot be stated here; [`pdf_link_of`] carries the exact
/// rule applied to each element, and every returned link satisfies it for
/// the element it came from.
pub fn extract_pdf_links(xml: &str) -> (r: Vec<String>) {
    let mut reader = xml_reader_from(xml);
    let mut links: Vec<String> = Vec::new();
    // Every event before end-of-input consumes at least one byte, so the
    // byte length bounds the number of events worth reading.
    let mut fuel = xml.len();
    let mut done = false;
    while fuel > 0 && !done
        invariant
            true,
        decreases fuel + if done { 0int } else { 1int },
    {
        match next_xml_event(&mut reader) {
            XmlEvent::Open { name, attrs } => {
                if let Some(h) = pdf_link_attr(&name, &attrs) {
                    links.push(h);
                }
                fuel = fuel - 1;
            },
            XmlEvent::Other => {
                fuel = fuel - 1;
            },
            XmlEvent::Eof => {
                done = true;
            },
            XmlEvent::Fault => {
                done = true;
            },
        }
    }
    links
}

/// Whether a section name is one the idea-generation step draws on.
pub fn is_innovation_section(name: &str) -> (r: bool)
    ensures
        r == (name@ == "abstract"@ || name@ == "introduction"@ || name@ == "limitations"@
            || name@ == "future_work"@),
{
    str_eq_str(name, "abstract") || str_eq_str(name, "introduction") || str_eq_str(
        name,
        "limitations",
    ) || str_eq_str(name, "future_work")
}

} // verus!
