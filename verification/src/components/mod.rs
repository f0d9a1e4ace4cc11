pub mod material;
pub mod noise;
pub mod texture;
