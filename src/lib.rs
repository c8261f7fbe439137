//! A fixed-rate lossy image codec core: fixed-width bit fields inside 64-bit
//! words, one 32-bit big-endian codeword per 2x2 block of quantized
//! coefficients, the 2x2 cell layout of a raster, and trimming an image to
//! even dimensions.

pub mod bitpack;
pub mod block;
pub mod codeword;
pub mod pixel;
