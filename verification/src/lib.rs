pub mod cathedral;
pub mod constraints;
pub mod corners;
pub mod element;
pub mod error;
pub mod extend;
pub mod footprint;
pub mod import;
pub mod intent;
pub mod joins;
pub mod library;
pub mod linalg;
pub mod material;
pub mod model;
pub mod objects;
pub mod order;
pub mod project;
pub mod polygon;
pub mod resolve;
pub mod roofs;
pub mod standards;
pub mod surfaces;
pub mod system;
pub mod text;
pub mod topology;
pub mod units;
pub mod wall;
