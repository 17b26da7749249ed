//! The sizes of what the kernel leaf writes.

use ignis_core::leaf::{
    embedding_out_elems, gdn_state_elems, gqa_prefill_out_bytes, gqa_prefill_out_elems,
};

#[test]
fn gqa_prefill_geometry_pins_out_shape() {
    let elems = gqa_prefill_out_elems(4, 512, 8, 128);
    assert_eq!(elems, 2_097_152);
    assert_eq!(gqa_prefill_out_bytes(4, 512, 8, 128), 4_194_304);
}

#[test]
fn gdn_state_geometry_pins_state_shape() {
    assert_eq!(gdn_state_elems(8, 12, 64, 64), 393_216);
}

#[test]
fn embedding_geometry_pins_out_shape() {
    assert_eq!(embedding_out_elems(64, 5120), 327_680);
}
