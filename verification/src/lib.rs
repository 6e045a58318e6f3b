// A library that maps byte buffers onto square RGBA pixel grids and back,
// addressing each byte through a Hilbert space-filling curve.

pub mod codec;
pub mod hilbert;
