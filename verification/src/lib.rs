pub mod allocation_laws;
pub mod basis;
pub mod bits;
pub mod circuit;
pub mod codec_laws;
pub mod columns;
pub mod development_allocation;
pub mod duplex;
pub mod duplex_regions;
pub mod duplex_union;
pub mod dyadic;
pub mod ext_laws;
pub mod ext_trace;
pub mod field;
pub mod fixed_shape;
pub mod geometry_laws;
pub mod integer_laws;
pub mod integer_program;
pub mod le_bytes;
pub mod merkle_shapes;
pub mod merkle_terms;
pub mod meta_draft;
pub mod meta_laws;
pub mod meta_pins;
pub mod meta_region;
pub mod mle_trace;
pub mod paged_spend;
pub mod paired_pins;
pub mod parent_close;
pub mod parent_geometry;
pub mod parent_laws;
pub mod parent_link;
pub mod path_roots;
pub mod patterns;
pub mod pin_bounds;
pub mod pin_laws;
pub mod protocol_laws;
pub mod recording;
pub mod recording_laws;
pub mod region_laws;
pub mod region_layout;
pub mod relation_terms;
pub mod request_binding;
pub mod retirement;
pub mod round_trace;
pub mod scheduled_allocation;
pub mod selected_allocation;
pub mod selected_region;
pub mod sidecar_purpose;
pub mod spine_union;
pub mod stream_laws;
pub mod trace;
pub mod tx_root;
pub mod union_terms;
pub mod walk_claims;
pub mod walk_discharge;
pub mod walk_laws;
pub mod walk_planes;
pub mod wiring_laws;
