pub mod arrange;
pub mod dyadic;
pub mod binary32;
pub mod fold;
pub mod iv32;
pub mod poly;
pub mod root;
pub mod kinetic;
pub mod csg;
pub mod order;
pub mod events;
pub mod normal;
pub mod material;
pub mod certificate;
pub mod scheduler;
pub mod telemetry;
pub mod rebuild;
pub mod fixed_q;
pub mod coverage;
pub mod sweep;
pub mod frame;
pub mod raster;
pub mod display;
pub mod text;
pub mod conformance;
pub mod probe;
pub mod area_light;
pub mod light;
pub mod oracle;
pub mod quality;
