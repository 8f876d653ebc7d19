pub mod bitread;
pub mod endian;
pub mod errors;
pub mod node;
pub mod reader;
pub mod text;
pub mod transforms;

pub use errors::{KError, KResult, Needed};
pub use node::{CustomDecoder, KStruct, KStructUnit, OptRc, SharedType, downcast, read_into, read_into_with_init};
pub use reader::{BytesReader, ReaderState, ReaderView};
pub use text::{decode_string, modulo, reverse_string};
