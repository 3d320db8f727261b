//! Merging of STEP (ISO 10303-21) part files under an assembly tree into one
//! AP203 file: an entry-level reader and writer for STEP text, the rewriting
//! of entry references, the search for root product definitions, and the
//! driver that emits the merged entry stream.

pub mod assembly;
pub mod buffered_iterator;
pub mod buffered_reader;
pub mod char_reader;
pub mod entry;
pub mod error;
pub mod lexer;
pub mod lexer_laws;
pub mod merge;
pub mod parser;
pub mod reader;
pub mod reader_laws;
pub mod root_nodes;
pub mod round_trip;
pub mod settled;
pub mod step_data;
pub mod template;
pub mod text;
pub mod utf8;
pub mod utils;
pub mod writer;

pub use assembly::{identity_matrix, Assembly, MetadataEntry, Node, Transform, Vector};
pub use buffered_iterator::{BufferedIterator, BufferedIteratorIter};
pub use buffered_reader::BufferedReader;
pub use char_reader::CharReader;
pub use entry::StepEntry;
pub use error::Error;
pub use lexer::{Token, Tokenizer};
pub use merge::references::ReferenceMap;
pub use merge::{merge_assembly_structure_to_step_with_resolver, StepMerger};
pub use parser::STEPParser;
pub use reader::{ReadEvent, ReaderState, STEPReader};
pub use root_nodes::FindRootNodes;
pub use step_data::StepData;
pub use utils::{get_ids_from_mechanical_part, NodeStepIds};
pub use writer::{write_step, StepWriter};

