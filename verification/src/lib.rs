pub mod dtype;
pub mod error;
pub mod fielddata;
pub mod floattext;
pub mod io;
pub mod laws;
pub mod metadata;
pub mod numtext;
pub mod pointcloud;
pub mod utils;

pub use dtype::Dtype;
pub use error::{HeaderKey, InvariantKind, PcdError};
pub use fielddata::FieldData;
pub use metadata::{Encoding, FieldMeta, FieldSchema, Metadata, Viewpoint};
pub use pointcloud::{Field, PointCloud};
pub use utils::load_metadata;
