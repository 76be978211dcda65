pub mod error;
pub mod fermat;
pub mod number_theory;
pub mod rsa;
pub mod base64;
