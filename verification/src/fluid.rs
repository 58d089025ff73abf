//! Integer logic of the spectral fluid solver on the periodic square:
//! wavenumber order, mode indexing, the two-thirds rule, the random-band
//! mode selection, the field generator's random stream and the choice of
//! time integrator.

pub mod fft;
pub mod field_gen;
pub mod integrators;
pub mod spectral;
