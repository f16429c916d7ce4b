pub mod a1_entity_mapping;
pub mod a2_init_atts;
pub mod derive_links1;
pub mod derive_links2;
pub mod derive_links3;
pub mod derive_links4;
pub mod derive_links5;
