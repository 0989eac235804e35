//! Editing EPUB sources in place, and reading Aozora Bunko texts.
//!
//! A book is an [`edit::EpubPackage`]: its zip members, in order, as bytes. The
//! operations change as little of it as they can and say what they changed.
//!
//! - `edit`, `archive`, `codec`: the package, the zip around it, bytes and text;
//!   `zip_repair` mends the central directory of a damaged archive.
//! - `markup`, `css`, `text`, `escaping`: tokens, tags, attributes and rules.
//! - `opf`, `package`, `manifest`, `metadata_edit`, `opf_meta`: the package
//!   document.
//! - `toc`, `toc_repair`, `toc_shape`, `nav_doc`: tables of contents.
//! - `spine_repair`, `split_doc`, `split`, `volume`, `series`, `reach`: the reading
//!   order, and books cut into volumes.
//! - `class_rename`, `unused_css`, `pretty`, `upgrade`, `image_extract`: the other
//!   operations on a whole book.
//! - `stylesheet`, `style_plan`, `restyle`, `unflatten_styles` and their kin: class
//!   names given back to a book whose styles were flattened.
//! - `aozora`: a text in Aozora Bunko notation made into XHTML.
//! - `tidy`, `plain_opf`: package documents whose markup is read piece by piece;
//!   `creators_read`, `manifest_read`, `spine_read`, `spine_agrees`, `version_read`,
//!   the modules whose names end in `read_back`, and `zip_repair_laws`: what is
//!   written is what is read; `restored_styles`: a restored book is no longer
//!   flattened; `pretty_twice`, `unused_cut`, `halves_joined`: re-indenting once and
//!   removing rules once is enough, and a document that was cut is put together again.
//! - `plain_css`, `written_opf`: stylesheets and package documents that are written
//!   plainly; `residuals_read`, `used_rules`, `renamed_rules`, `renamed_classes`,
//!   `pretty_rules`, `volume_read`, `closed_links`, `headings_read`, `links_read`,
//!   `fragments_kept`, `image_sizes`: what the operations are for, said of what they are
//!   given and what is read of their results.
pub mod aozora;
pub mod archive;
pub mod asin_read_back;
pub mod book_read_back;
pub mod class_rename;
pub mod closed_links;
pub mod codec;
pub mod creators_read;
pub mod creators_read_back;
pub mod css;
pub mod edit;
pub mod error;
pub mod escaping;
pub mod flattened;
pub mod fragments_kept;
pub mod fresh;
pub mod halves_joined;
pub mod headings_read;
pub mod image_extract;
pub mod image_sizes;
pub mod links_read;
pub mod manifest;
pub mod manifest_read;
pub mod markup;
pub mod metadata_edit;
pub mod metadata_read_back;
pub mod nav_doc;
pub mod ncx_read_back;
pub mod opf;
pub mod opf_meta;
pub mod opf_read_back;
pub mod package;
pub mod page_shape;
pub mod plain_css;
pub mod plain_opf;
pub mod pretty;
pub mod pretty_rules;
pub mod pretty_twice;
pub mod reach;
pub mod read_back;
pub mod reading;
pub mod reference_styles;
pub mod renamed_classes;
pub mod renamed_rules;
pub mod residuals;
pub mod residuals_read;
pub mod restored_styles;
pub mod restyle;
pub mod rewrite_styles;
pub mod series;
pub mod spine_agrees;
pub mod spine_read;
pub mod spine_read_back;
pub mod spine_repair;
pub mod split;
pub mod split_doc;
pub mod structure;
pub mod style_diff;
pub mod style_plan;
pub mod stylesheet;
pub mod text;
pub mod tidy;
pub mod toc;
pub mod toc_read_back;
pub mod toc_repair;
pub mod toc_shape;
pub mod unflatten_styles;
pub mod unused_css;
pub mod unused_cut;
pub mod used_rules;
pub mod upgrade;
pub mod version_read;
pub mod volume;
pub mod volume_number;
pub mod volume_read;
pub mod written_opf;
pub mod zip_repair;
pub mod zip_repair_laws;
