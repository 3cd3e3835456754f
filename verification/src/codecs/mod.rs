pub mod netpbm;
pub mod pbm;
pub mod pgm;
pub mod ppm;
pub mod pnm;
pub mod pam;
pub mod bmp;
