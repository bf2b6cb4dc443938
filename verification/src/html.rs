pub mod redirect;
