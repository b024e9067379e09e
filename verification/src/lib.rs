//! Core of a retrieval-augmented generation pipeline: token-aware paragraph
//! segmentation with overlap, an append-only embedding store, and
//! similarity-ranked, diversity-filtered retrieval.

pub mod store;
pub mod text;
pub mod segment;
pub mod retrieve;
pub mod chunk;
pub mod pdftext;
pub mod llm;
pub mod arxiv;

pub use store::VectorEntry;
pub use store::VectorStore;
pub use store::StoreCell;
pub use store::RagError;
pub use segment::chunk_by_paragraph_with_overlap;
pub use segment::build_overlap;
pub use text::estimate_tokens;
pub use text::split_paragraphs;
pub use text::truncate_chars;
pub use chunk::chunk_by_paragraph;
pub use pdftext::clean_pdf_text;
pub use pdftext::split_pdf_chapters;
pub use pdftext::Chapter;
pub use arxiv::Section;
pub use arxiv::extract_sections;
pub use arxiv::push_section;
pub use arxiv::is_innovation_section;
pub use llm::PromptCell;
pub use llm::load_model;
pub use retrieve::retrieve;
