pub mod typography_service;
pub mod startup;
