//! Verified core of a demoscene effects engine for wall projection: the integer pixel
//! buffer, textures, the deterministic random number generator, display rotation, the
//! integer parts of the effects (maze, fire, snow, stains, pipes, noise hashes), the
//! calibration editor, the main loop's session decisions and the remote command language.

pub mod util;
pub mod pixel_buffer;
pub mod texture;
pub mod rotation;
pub mod procedural;
pub mod maze;
pub mod control;
pub mod noise;
pub mod test_pattern;
pub mod fire;
pub mod color;
pub mod session;
pub mod cursor;
pub mod regions;
pub mod region_names;
pub mod chyron;
pub mod scanline;
pub mod snow;
pub mod stain;
pub mod pipes;
pub mod calibration;
