//! Topologies, weights, the forward plan and what the backend decides.

use ignis_core::artifact::{
    fill, fill_layer, layer_routes, place_matrix, place_plane, place_vector, Found, HostTensor,
    Offer, Takes, TensorSlot,
};
use ignis_core::backend::{
    after_pass, batched_prefill_eligible, decode_graph_bytes, decode_graph_geom, decode_path,
    drawn_token, first_pass, AfterPass, DecodePath, GraphGeometry, PrefillPass,
};
use ignis_core::bf16::{bf16_ratio, bf16_to_f32, f32_to_bf16};
use ignis_core::forward::{
    host_matrix_of, kernel_result, matrix_of, plan_gemm, plan_layer, plan_stack, GatePair, GemmSlot,
    GemmSource, Pass, Plane, Span, Step,
};
use ignis_core::model::{LayerKind, ModelConfig};
use ignis_core::nvfp4::{dequant_nvfp4_to_bf16, nvfp4_e2m1, nvfp4_e4m3};
use ignis_core::sequence::SequenceState;
use ignis_core::types::ComputeError;
use ignis_core::weights::{
    Bf16Weight, HeadWeight, Nvfp4DevicePlane, Nvfp4Weight, W8Endpoints, Weights, WeightsGeometry,
};

#[test]
fn synthetic_weights_are_deterministic() {
    let cfg = ModelConfig::synthetic();
    let a = Weights::synthetic(&cfg, 7);
    let b = Weights::synthetic(&cfg, 7);
    assert_eq!(a.lm_head.dims(), b.lm_head.dims());
    assert_eq!(
        a.lm_head.as_nvfp4().unwrap().codes.len(),
        b.lm_head.as_nvfp4().unwrap().codes.len()
    );
    assert_eq!(a.embedding.len(), b.embedding.len());
    assert_eq!(a.embedding.len(), (cfg.vocab * cfg.hidden) as usize);
    assert_eq!(a.per_layer.len(), cfg.num_layers);
    assert_eq!(a.embedding, b.embedding);
    assert_eq!(a.lm_head.as_nvfp4().unwrap().codes, b.lm_head.as_nvfp4().unwrap().codes);
}

#[test]
fn qwen38_27b_config_is_the_real_topology() {
    let cfg = ModelConfig::qwen38_27b();
    assert_eq!(cfg.vocab, 248_320, "the real vocab (not the synthetic 256)");
    assert_eq!(cfg.hidden, 5120);
    assert_eq!(cfg.num_layers, 64);
    assert_eq!(cfg.num_q_heads, 24);
    assert_eq!(cfg.num_kv_heads, 4);
    assert_eq!(cfg.head_dim, 256);
    assert_eq!(cfg.ffn_intermediate, 17_408);
    assert_eq!(cfg.gdn_state_rows, 6144);
    assert_eq!(cfg.gdn_state_cols, 2048);
    assert_eq!(cfg.gdn_num_layers, 48);
    assert_eq!(cfg.block_size, 64);
    assert_eq!(cfg.gdn_q_width, 2048, "the GDN q part (the GDN q rows)");
    assert_eq!(cfg.gdn_z_width, 6144, "the GDN z (output) part");
    assert_eq!(cfg.gdn_ab_width, 96, "the GDN a / b projection (48 a + 48 b)");
    assert_eq!(cfg.rotary_dim, 64, "the GQA rotary dim (64 of 256)");
    assert_eq!(f64::from_bits(cfg.rope_theta_bits), 1e7, "the RoPE base (1e7)");
    assert_eq!(
        cfg.gdn_in_proj_m(),
        16_384,
        "the GDN in-projection (16 384 rows = q + k + v + z)"
    );
    assert_eq!(
        cfg.gdn_conv_channels(),
        10_240,
        "the GDN conv channels (10 240 = q + k + v)"
    );
    assert_eq!(cfg.gdn_readout_k(), 6144, "the GDN readout width (state_rows)");
    assert_eq!(cfg.rope_pairs(), 32, "the RoPE pair count (rotary_dim / 2)");
    let gqa = cfg.layer_kinds.iter().filter(|k| **k == LayerKind::Gqa).count();
    let gdn = cfg.layer_kinds.iter().filter(|k| **k == LayerKind::Gdn).count();
    assert_eq!(gqa, 16, "16 GQA (full-attention) layers");
    assert_eq!(gdn, 48, "48 GDN (linear-attention) layers");
    assert_eq!(cfg.layer_kinds.len(), cfg.num_layers);
    assert_eq!(cfg.gdn_state_dim(), 8194);
    assert_eq!(cfg.gdn_state_mat(), 6144 * 2048);
}

#[test]
fn synthetic_config_is_not_the_artifact_topology() {
    let real = ModelConfig::qwen38_27b();
    let synth = ModelConfig::synthetic();
    assert_ne!(
        real.vocab, synth.vocab,
        "the artifact path must use the real vocab (248 320), not the synthetic 256"
    );
    assert_ne!(real.num_layers, synth.num_layers);
}

#[test]
fn full_stack_synthetic_composition() {
    let cfg = ModelConfig::synthetic();
    let w = Weights::synthetic(&cfg, 1);
    let (gdn, gqa) = (&w.per_layer[0], &w.per_layer[1]);
    assert_eq!(gdn.kind, LayerKind::Gdn);
    assert_eq!(gqa.kind, LayerKind::Gqa);
    assert!(
        !gdn.gdn_conv.data.is_empty(),
        "the GDN layer carries the causal-conv weight (4 taps × the conv channels)"
    );
    assert_eq!(gdn.gdn_conv.m, 4, "the conv has 4 taps");
    assert_eq!(
        gdn.gdn_conv.k,
        cfg.gdn_conv_channels(),
        "the conv channels = the conv'd q / k / v part (the z rows bypass it)"
    );
    assert_eq!(
        gdn.gdn_ab.m,
        cfg.gdn_ab_width,
        "the a / b projection width (0 for the synthetic model)"
    );
    assert!(
        gdn.qk_norm[0].is_empty() && gdn.qk_norm[1].is_empty(),
        "the GDN layer has no q / k RMSNorm"
    );
    assert_eq!(gdn.gdn_index, 0, "the synthetic model's single GDN layer is index 0");
    assert!(
        gqa.gdn_conv.data.is_empty(),
        "the GQA layer has no causal conv (the GDN-only op)"
    );
    assert_eq!(gqa.gdn_ab.m, 0, "the GQA layer has no a / b projection");
    assert_eq!(
        gqa.qk_norm[0].len(),
        cfg.head_dim as usize,
        "the GQA q RMSNorm weight is [head_dim] (the per-head norm)"
    );
    assert_eq!(
        gqa.qk_norm[1].len(),
        cfg.head_dim as usize,
        "the GQA k RMSNorm weight is [head_dim] (the per-head norm)"
    );
    assert_eq!(cfg.rope_pairs(), 4);
    assert_eq!(
        (gdn.projection[0].m, gdn.projection[0].k),
        (cfg.gdn_in_proj_m(), cfg.hidden),
        "the GDN in-projection geometry (m = the feature rows, k = hidden)"
    );
    assert_eq!(
        (gdn.gdn_output.m, gdn.gdn_output.k),
        (cfg.hidden, cfg.gdn_readout_k()),
        "the GDN state readout geometry (m = hidden, k = the readout width)"
    );
    assert_eq!(
        (gqa.projection[0].m, gqa.projection[0].k),
        (cfg.gqa_width(), cfg.hidden),
        "the GQA q projection geometry (m = the q width, k = hidden)"
    );
    assert_eq!(
        (gqa.projection[1].m, gqa.projection[1].k),
        (cfg.gqa_kv_width(), cfg.hidden),
        "the GQA k projection geometry (m = the kv width, k = hidden)"
    );
    assert_eq!(
        (gqa.projection[3].m, gqa.projection[3].k),
        (cfg.hidden, cfg.gqa_width()),
        "the GQA output projection geometry (m = hidden, k = the q width)"
    );
    let real = ModelConfig::qwen38_27b();
    let g = WeightsGeometry::from_config(&real);
    let real_gdn = g.per_layer.iter().find(|l| l.kind == LayerKind::Gdn).unwrap();
    let real_gqa = g.per_layer.iter().find(|l| l.kind == LayerKind::Gqa).unwrap();
    assert_eq!(
        real_gdn.gdn_conv,
        (4, real.gdn_conv_channels()),
        "the 27B GDN conv geometry (4 taps × 10 240 channels)"
    );
    assert_eq!(
        real_gdn.gdn_ab,
        (real.gdn_ab_width, real.hidden),
        "the 27B GDN a / b projection geometry (96 × 5 120)"
    );
    assert_eq!(real_gqa.qk_norm, real.head_dim, "the 27B GQA q / k RMSNorm width (256)");
    assert_eq!(
        real_gdn.gdn_in_proj,
        (real.gdn_in_proj_m(), real.hidden),
        "the 27B GDN in-projection (16 384 × 5 120)"
    );
    assert_eq!(
        real_gdn.gdn_output,
        (real.hidden, real.gdn_readout_k()),
        "the 27B GDN state readout (5 120 × 6 144)"
    );
}

#[test]
fn gemm_pairs_follow_the_kernel_output_by_input_convention() {
    let cfg = ModelConfig {
        num_layers: 2,
        layer_kinds: vec![LayerKind::Gdn, LayerKind::Gqa],
        hidden: 96,
        vocab: 256,
        num_q_heads: 3,
        num_kv_heads: 1,
        head_dim: 16,
        gdn_state_rows: 24,
        gdn_state_cols: 16,
        gdn_num_layers: 1,
        gdn_q_width: 0,
        gdn_z_width: 0,
        gdn_ab_width: 0,
        rotary_dim: 8,
        rope_theta_bits: 1e7f64.to_bits(),
        ffn_intermediate: 32,
        block_size: 4,
        num_blocks: 8,
    };
    let w = Weights::synthetic(&cfg, 1);
    let (gdn, gqa) = (&w.per_layer[0], &w.per_layer[1]);
    assert_eq!(
        (gdn.projection[0].m, gdn.projection[0].k),
        (cfg.gdn_in_proj_m(), cfg.hidden),
        "the GDN input projection (m = output, k = input)"
    );
    assert_eq!(
        (gdn.gdn_output.m, gdn.gdn_output.k),
        (cfg.hidden, cfg.gdn_readout_k()),
        "the GDN state readout (m = output, k = input)"
    );
    assert_eq!(
        (gqa.projection[0].m, gqa.projection[0].k),
        (cfg.gqa_width(), cfg.hidden),
        "the q projection (m = output, k = input)"
    );
    assert_eq!(
        (gqa.projection[1].m, gqa.projection[1].k),
        (cfg.gqa_kv_width(), cfg.hidden),
        "the k projection (m = output, k = input)"
    );
    assert_eq!(
        (gqa.projection[2].m, gqa.projection[2].k),
        (cfg.gqa_kv_width(), cfg.hidden),
        "the v projection (m = output, k = input)"
    );
    assert_eq!(
        (gqa.projection[3].m, gqa.projection[3].k),
        (cfg.hidden, cfg.gqa_width()),
        "the attention-output projection (m = output, k = input)"
    );
    for lw in [gdn, gqa] {
        assert_eq!(
            (lw.ffn_gate.m, lw.ffn_gate.k),
            (cfg.ffn_intermediate, cfg.hidden),
            "the first ffn projection (m = output, k = input)"
        );
        assert_eq!(
            (lw.ffn_up.m, lw.ffn_up.k),
            (cfg.ffn_intermediate, cfg.hidden),
            "the ffn up projection (m = output, k = input)"
        );
        assert_eq!(
            (lw.ffn_down.m, lw.ffn_down.k),
            (cfg.hidden, cfg.ffn_intermediate),
            "the ffn down projection (m = output, k = input)"
        );
    }
    assert_eq!(
        w.lm_head.dims(),
        (cfg.vocab, cfg.hidden),
        "the lm_head (m = output, k = input)"
    );
    assert_eq!(
        gqa.projection[0].codes.len(),
        gqa.projection[0].m as usize * (gqa.projection[0].k as usize) / 2,
        "the codes plane is sized [m][k/2] to the weight's geometry"
    );
    assert_eq!(
        gqa.projection[0].scales.len(),
        gqa.projection[0].m as usize * (gqa.projection[0].k as usize) / 16,
        "the scales plane is sized [m][k/16] to the weight's geometry"
    );
    let g = WeightsGeometry::from_config(&cfg);
    let (gl, gw) = (&g.per_layer[0], &g.per_layer[1]);
    assert_eq!(gl.gdn_output, (cfg.hidden, cfg.gdn_readout_k()));
    assert_eq!(gl.projection[0], (cfg.gdn_in_proj_m(), cfg.hidden));
    assert_eq!(
        gl.gdn_conv,
        (4, cfg.gdn_conv_channels()),
        "the GDN causal-conv geometry (4 taps × the conv channels)"
    );
    assert_eq!(
        gl.gdn_ab,
        (0, 0),
        "no a / b projection (gdn_ab_width = 0) — (0, 0)"
    );
    assert_eq!(gl.qk_norm, 0, "the GDN layer has no q / k RMSNorm");
    assert_eq!(
        gl.gdn_conv_channels,
        cfg.gdn_conv_channels(),
        "the GDN conv channel count"
    );
    assert_eq!(
        gl.gdn_in_proj,
        (cfg.gdn_in_proj_m(), cfg.hidden),
        "the GDN input-projection (m, k)"
    );
    assert_eq!(
        gw.qk_norm,
        cfg.head_dim,
        "the GQA q / k RMSNorm weights are [head_dim] each"
    );
    assert_eq!(gw.gdn_conv, (0, 0), "the GQA layer has no GDN conv");
    assert_eq!(gw.gdn_conv_channels, 0, "the GQA layer has no conv");
    assert_eq!(gw.gdn_in_proj, (0, 0), "the GQA layer has no GDN in-proj");
    assert_eq!(
        gw.projection,
        [
            (cfg.gqa_width(), cfg.hidden),
            (cfg.gqa_kv_width(), cfg.hidden),
            (cfg.gqa_kv_width(), cfg.hidden),
            (cfg.hidden, cfg.gqa_width()),
        ],
        "the GQA projections (m = output, k = input)"
    );
    for lg in [gl, gw] {
        assert_eq!(
            (lg.ffn_gate, lg.ffn_up),
            (
                (cfg.ffn_intermediate, cfg.hidden),
                (cfg.ffn_intermediate, cfg.hidden)
            ),
            "the first two ffn projections (m = output, k = input)"
        );
        assert_eq!(
            lg.ffn_down,
            (cfg.hidden, cfg.ffn_intermediate),
            "the ffn down (m = output, k = input)"
        );
    }
    assert_eq!(g.lm_head, (cfg.vocab, cfg.hidden));
    assert_eq!(
        (gw.projection[0].0, gw.projection[0].1),
        (gqa.projection[0].m, gqa.projection[0].k),
        "the geometry + the synthetic content agree"
    );
    assert_eq!(
        (gl.gdn_output.0, gl.gdn_output.1),
        (gdn.gdn_output.m, gdn.gdn_output.k),
        "the geometry + the synthetic content agree"
    );
}

#[test]
fn weights_geometry_matches_27b_topology() {
    let cfg = ModelConfig::qwen38_27b();
    let g = WeightsGeometry::from_config(&cfg);
    assert_eq!(g.embedding, (248_320, 5_120), "the real embedding table dims");
    assert_eq!(g.lm_head, (cfg.vocab, cfg.hidden), "the logits GEMM (m, k)");
    assert_eq!(g.final_norm, cfg.hidden);
    assert_eq!(g.per_layer.len(), cfg.num_layers, "one geometry per layer");
    let gqa = g.per_layer.iter().filter(|l| l.kind == LayerKind::Gqa).count();
    let gdn = g.per_layer.iter().filter(|l| l.kind == LayerKind::Gdn).count();
    assert_eq!((gqa, gdn), (16, 48), "the 27B layer-kind mix");
    for lg in g.per_layer.iter().filter(|l| l.kind == LayerKind::Gdn) {
        assert_eq!(
            lg.gdn_output,
            (cfg.hidden, cfg.gdn_readout_k()),
            "the GDN state readout (m = hidden, k = the readout width state_rows)"
        );
        assert_eq!(
            lg.projection[0],
            (cfg.gdn_in_proj_m(), cfg.hidden),
            "the GDN input projection (m = the q/k/v/z feature rows, k = hidden)"
        );
        assert_eq!(lg.projection[1], (0, 0), "the unused GDN slots are (0, 0)");
        assert_eq!(
            lg.gdn_conv,
            (4, cfg.gdn_conv_channels()),
            "the GDN causal-conv geometry (4 taps × the conv channels)"
        );
        assert_eq!(
            lg.gdn_ab,
            (cfg.gdn_ab_width, cfg.hidden),
            "the GDN a / b projection (m = ab rows, k = hidden)"
        );
        assert_eq!(
            lg.gdn_conv_channels,
            cfg.gdn_conv_channels(),
            "the GDN conv channel count"
        );
        assert_eq!(
            lg.gdn_in_proj,
            (cfg.gdn_in_proj_m(), cfg.hidden),
            "the GDN in-projection (m, k)"
        );
    }
    for lg in g.per_layer.iter().filter(|l| l.kind == LayerKind::Gqa) {
        assert_eq!(lg.projection[3], (cfg.hidden, cfg.gqa_width()));
        assert_eq!(lg.ffn_gate, (cfg.ffn_intermediate, cfg.hidden));
        assert_eq!(lg.ffn_down, (cfg.hidden, cfg.ffn_intermediate));
        assert_eq!(lg.norm_in, cfg.hidden);
        assert_eq!(lg.qk_norm, cfg.head_dim, "the GQA q / k RMSNorm width (head_dim)");
        assert_eq!(lg.gdn_conv, (0, 0), "the GQA layer has no GDN conv");
        assert_eq!(lg.gdn_in_proj, (0, 0), "the GQA layer has no GDN in-proj");
    }
    let w = Weights::from_geometry(&cfg);
    assert_eq!(w.lm_head.dims(), (cfg.vocab, cfg.hidden));
    assert!(
        w.lm_head.as_nvfp4().unwrap().codes.is_empty(),
        "the GEMM planes are device-resident"
    );
    for lw in &w.per_layer {
        assert_eq!(lw.norm_in.len(), cfg.hidden as usize);
        assert_eq!(lw.norm_post.len(), cfg.hidden as usize);
    }
    assert_eq!(w.final_norm.len(), cfg.hidden as usize);
    assert!(w.final_norm.iter().all(|&w| w == 0x3F80), "the identity norms");
    let indexes: Vec<usize> = w
        .per_layer
        .iter()
        .filter(|l| l.kind == LayerKind::Gdn)
        .map(|l| l.gdn_index)
        .collect();
    assert_eq!(indexes, (0..48).collect::<Vec<_>>());
}

#[test]
fn from_geometry_weights_carry_real_geometry() {
    let cfg = ModelConfig::synthetic();
    let w = Weights::from_geometry(&cfg);
    assert_eq!(w.per_layer.len(), cfg.num_layers);
    for lw in &w.per_layer {
        match lw.kind {
            LayerKind::Gdn => {
                assert_eq!(
                    (lw.gdn_output.m, lw.gdn_output.k),
                    (cfg.hidden, cfg.gdn_readout_k())
                );
                assert_eq!(
                    (lw.projection[0].m, lw.projection[0].k),
                    (cfg.gdn_in_proj_m(), cfg.hidden),
                    "the GDN input projection (m = output, k = input)"
                );
                assert!(
                    lw.gdn_output.codes.is_empty(),
                    "the GEMM planes are device-resident"
                );
            }
            LayerKind::Gqa => {
                assert_eq!(
                    lw.projection[0].m,
                    cfg.gqa_width(),
                    "the q projection's m (the output rows)"
                );
                assert!(lw.projection[3].m > 0, "the output projection's m");
                assert!(lw.projection[3].codes.is_empty());
            }
        }
        assert_eq!(lw.ffn_gate.m, cfg.ffn_intermediate, "the output rows");
        assert_eq!(lw.ffn_gate.k, cfg.hidden, "the input dim");
        assert_eq!(lw.ffn_down.m, cfg.hidden, "the ffn down's m (output rows)");
        assert_eq!(
            lw.ffn_down.k,
            cfg.ffn_intermediate,
            "the ffn down's k (input dim)"
        );
        assert_eq!(lw.norm_in.len(), cfg.hidden as usize);
    }
    assert_eq!(w.lm_head.dims(), (cfg.vocab, cfg.hidden));
    assert!(w.embedding.is_empty());
}

#[test]
fn weights_with_w8_endpoints_carry_the_dequant_content() {
    let endpoints = W8Endpoints {
        embedding: vec![0x3F80; 4 * 8],
        embedding_shape: (4, 8),
        lm_head: vec![0x40C0; 8 * 16],
        lm_head_shape: (8, 16),
    };
    let cfg = ModelConfig::synthetic();
    let w = Weights::from_geometry(&cfg).with_w8_endpoints(endpoints);
    assert_eq!(w.embedding.len(), 4 * 8);
    assert!(
        w.embedding.iter().all(|&v| v == 0x3F80),
        "the W8 embedding content is carried (not a placeholder)"
    );
    match &w.lm_head {
        HeadWeight::DequantBf16 { data, m, k } => {
            assert_eq!(
                (*m, *k),
                (8, 16),
                "the lm_head (m, k) = the text/output_head shape [rows][cols]"
            );
            assert_eq!(data.len(), 8 * 16);
            assert!(
                data.iter().all(|&v| v == 0x40C0),
                "the W8 lm_head content is carried"
            );
        }
        other => panic!(
            "the lm_head must be the dequantized bf16 (the W8 endpoint), got {other:?}"
        ),
    }
    assert!(w.lm_head.as_nvfp4().is_none());
}

#[test]
fn a_placeholder_holds_nothing() {
    let w = Weights::placeholder(&ModelConfig::qwen38_27b());
    assert_eq!(w.per_layer.len(), 64);
    assert_eq!(w.lm_head.dims(), (0, 0));
    assert!(w.embedding.is_empty() && w.final_norm.is_empty());
    assert!(w.per_layer.iter().all(|l| l.norm_in.is_empty() && l.projection[0].m == 0));
    assert_eq!(w.per_layer[3].kind, LayerKind::Gqa);
    assert_eq!(w.per_layer[4].gdn_index, 3);
    assert_eq!(w.per_layer[7].gdn_index, 0);
}

fn narrow(v: f32) -> u16 {
    f32_to_bf16(v.to_bits())
}

#[test]
fn bf16_rounds_to_the_nearest_and_halves_to_even() {
    assert_eq!(f32_to_bf16(0x3f80_0000), 0x3f80);
    assert_eq!(f32_to_bf16(0x3f80_8000), 0x3f80, "a half goes to the even pattern");
    assert_eq!(f32_to_bf16(0x3f81_8000), 0x3f82);
    assert_eq!(f32_to_bf16(0x3f80_8001), 0x3f81);
    assert_eq!(f32_to_bf16(0xbf80_0000), 0xbf80);
    for bits in [0u16, 1, 0x3f80, 0x7f80, 0x8000, 0xc2f7] {
        assert_eq!(f32_to_bf16(bf16_to_f32(bits)), bits);
    }
}

#[test]
fn ratios_round_as_the_float_division_does() {
    for v in 0..31u64 {
        assert_eq!(bf16_ratio(v, 31), narrow(v as f32 / 31.0), "{v}/31");
    }
    for (num, den) in [(1u64, 3u64), (2, 3), (7, 8), (1, 1), (255, 1), (257, 1), (1_000_003, 7)] {
        assert_eq!(bf16_ratio(num, den), narrow(num as f32 / den as f32), "{num}/{den}");
    }
    assert_eq!(bf16_ratio(0, 5), 0);
}

#[test]
fn synthetic_content_is_what_its_formulas_say() {
    let cfg = ModelConfig::synthetic();
    let w = Weights::synthetic(&cfg, 5);
    for i in [0usize, 1, 2, 17, 4095, 16_383] {
        let v = ((i as u64).wrapping_mul(5).wrapping_add(1) % 31) as f32 / 31.0;
        assert_eq!(w.embedding[i], narrow(v), "embedding {i}");
    }
    let gdn = &w.per_layer[0];
    for i in [0usize, 1, 25, 95] {
        let (r, c) = ((i / 24) as u64, (i % 24) as u64);
        let v = (r * 7 + c * 3 + 13) % 16;
        assert_eq!(gdn.gdn_conv.data[i], narrow(v as f32 / 8.0 - 1.0), "conv {i}");
    }
    let q = &w.per_layer[1].projection[0];
    let (row, b) = (3usize, 4usize);
    let lo = (row * 3 + b + 5) % 8;
    let hi = (row * 5 + b) % 8;
    assert_eq!(q.codes[row * 32 + b], (lo | (hi << 4)) as u8);
    assert!(q.scales.iter().all(|&s| s == 0x38));
}

fn e2m1(code: u8) -> f32 {
    let mag = [0.0f32, 0.5, 1.0, 1.5, 2.0, 3.0, 4.0, 6.0][(code & 7) as usize];
    if code & 8 != 0 {
        -mag
    } else {
        mag
    }
}

fn e4m3(code: u8) -> f32 {
    let sign = if code & 0x80 != 0 { -1.0f32 } else { 1.0 };
    let exp = ((code >> 3) & 0x0F) as i32;
    let man = (code & 7) as f32;
    let mag = if exp == 0 {
        (man / 8.0) * 0.015625
    } else {
        (1.0 + man / 8.0) * 2.0f32.powi(exp - 7)
    };
    sign * mag
}

#[test]
fn the_codec_decodes_every_code_under_every_scale() {
    for code in 0..16u8 {
        assert_eq!(nvfp4_e2m1(code) as f32 / 2.0, e2m1(code).abs());
    }
    for scale in 0..=255u8 {
        assert_eq!(nvfp4_e4m3(scale) as f32 / 512.0, e4m3(scale).abs());
        let codes: Vec<u8> = (0..8u8).map(|n| (2 * n) | ((2 * n + 1) << 4)).collect();
        let w = Nvfp4Weight { codes, scales: vec![scale], m: 1, k: 16 };
        let out = dequant_nvfp4_to_bf16(&w);
        for c in 0..16u8 {
            assert_eq!(out[c as usize], narrow(e2m1(c) * e4m3(scale)), "code {c} scale {scale}");
        }
    }
    assert!(dequant_nvfp4_to_bf16(&Nvfp4Weight::empty()).is_empty());
}

#[test]
fn a_key_is_placed_in_every_head_of_its_slot() {
    let cfg = ModelConfig::synthetic();
    let mut state = SequenceState::new(&cfg, Some(5));
    assert_eq!(state.kv_cache.len(), 2 * 8 * 2 * 4 * 16);
    assert_eq!(state.gdn_state.len(), 16 * 8);
    assert_eq!(state.gdn_conv_state.len(), 24 * 3);
    assert_eq!(state.block_table, (0..8).collect::<Vec<i32>>());
    let k: Vec<u16> = (0..32).map(|n| 100 + n).collect();
    let v: Vec<u16> = (0..32).map(|n| 500 + n).collect();
    state.store_kv(&cfg, &k, &v);
    state.store_kv(&cfg, &v, &k);
    assert_eq!(state.kv_len, 2);
    let plane = 8 * 2 * 4 * 16;
    assert_eq!(state.kv_cache[0], 100, "head 0, first slot");
    assert_eq!(state.kv_cache[(4) * 16], 116, "head 1, first slot");
    assert_eq!(state.kv_cache[plane + 5], 505);
    assert_eq!(state.kv_cache[16], 500, "head 0, second slot");
    assert_eq!(state.kv_cache[32], 0, "the next slot is untouched");
    state.store_kv(&cfg, &k[..31], &v);
    assert_eq!(state.kv_len, 2, "a row of another width is ignored");
}

#[test]
fn the_token_that_reaches_the_cap_is_a_soft_stop() {
    let cfg = ModelConfig::synthetic();
    let mut state = SequenceState::new(&cfg, Some(3));
    assert_eq!(state.query_token(), 0);
    state.prefilled(&cfg, &[4, 5, 6]);
    assert_eq!((state.kv_len, state.query_token()), (3, 6));
    assert_eq!(state.drew(10, None), Some(10));
    assert_eq!(state.drew(11, None), Some(11));
    assert_eq!(state.drew(12, None), None);
    assert_eq!(state.query_token(), 12);
    let mut uncapped = SequenceState::new(&cfg, None);
    assert_eq!(uncapped.drew(1, Some(1)), None, "the job's cap serves where there is no other");
    state.seq_pos = 9;
    state.gdn_state[3] = 8;
    state.gdn_conv_state[1] = 8;
    state.reset_fresh();
    assert_eq!((state.kv_len, state.seq_pos, state.generated), (0, 0, 0));
    assert!(state.gdn_state.iter().chain(&state.gdn_conv_state).all(|&x| x == 0));
    let long: Vec<u32> = (0..40).collect();
    state.prefilled(&cfg, &long);
    assert_eq!(state.kv_len, 32, "as many keys as the cache has room for");
}

#[test]
fn a_layer_is_planned_step_by_step() {
    let cfg = ModelConfig::synthetic();
    let w = Weights::synthetic(&cfg, 1);
    let pass = Pass { tokens: 2, layer: 1, layers: 2, seq_pos: 0 };
    let steps = plan_layer(&cfg, &w.per_layer[1], &pass);
    let positions: Vec<u64> = steps
        .iter()
        .filter_map(|s| match s {
            Step::Rope { position, .. } => Some(*position),
            _ => None,
        })
        .collect();
    assert_eq!(positions, vec![1, 3], "each token rotates where one at a time it would have");
    assert_eq!(steps.iter().filter(|s| matches!(s, Step::Norm { .. })).count(), 4);
    assert_eq!(steps.iter().filter(|s| matches!(s, Step::AddDelta)).count(), 2);
    assert!(steps.contains(&Step::StoreKv { row: Span { start: 32, len: 32 } }));
    assert_eq!(steps.last(), Some(&Step::Advance { by: 2 }));
    let single = Pass { tokens: 1, layer: 1, layers: 2, seq_pos: 41 };
    assert!(plan_layer(&cfg, &w.per_layer[1], &single)
        .iter()
        .any(|s| matches!(s, Step::Rope { position: 41, .. })));
    let gdn = plan_layer(&cfg, &w.per_layer[0], &pass);
    assert!(gdn.iter().any(|s| matches!(
        s,
        Step::Conv { width: 24, stride: 24, state: Span { start: 0, len: 72 } }
    )));
    let recur: Vec<(Span, Span, Span)> = gdn
        .iter()
        .filter_map(|s| match s {
            Step::Recur { key, value, out, gates: None, gate: None, .. } => {
                Some((*key, *value, *out))
            }
            _ => None,
        })
        .collect();
    assert_eq!(recur.len(), 2);
    assert_eq!(
        recur[1],
        (
            Span { start: 24, len: 8 },
            Span { start: 32, len: 16 },
            Span { start: 16, len: 16 }
        )
    );
    assert!(!gdn.iter().any(|s| matches!(s, Step::Gemm { to: Plane::Gates, .. })));
}

#[test]
fn the_conv_takes_only_the_rows_it_covers() {
    let cfg = ModelConfig { gdn_z_width: 16, gdn_ab_width: 4, ..ModelConfig::synthetic() };
    let w = Weights::synthetic(&cfg, 1);
    let pass = Pass { tokens: 3, layer: 0, layers: 2, seq_pos: 0 };
    let steps = plan_layer(&cfg, &w.per_layer[0], &pass);
    assert!(steps.iter().any(|s| matches!(s, Step::Conv { width: 24, stride: 40, .. })));
    assert!(steps.iter().any(|s| matches!(
        s,
        Step::Recur {
            gates: Some(GatePair { gate: 8, beta: 10 }),
            gate: Some(Span { start: 104, len: 16 }),
            ..
        }
    )));
}

#[test]
fn a_gemm_reads_its_own_slots_weight() {
    let cfg = ModelConfig::synthetic();
    let weights = Weights::synthetic(&cfg, 1);
    let gqa = &weights.per_layer[1];
    assert!(matrix_of(gqa, GemmSlot::Query).is_none());
    assert!(matrix_of(gqa, GemmSlot::FfnUp).is_none());
    assert_eq!(matrix_of(gqa, GemmSlot::Gates).map(|w| w.m), Some(0));
    assert_eq!(host_matrix_of(gqa, GemmSlot::Key).m, 32);
    assert_eq!(host_matrix_of(gqa, GemmSlot::AttnOut).k, 64);
    let gdn = &weights.per_layer[0];
    assert_eq!(host_matrix_of(gdn, GemmSlot::GdnIn).m, 24);
    assert_eq!(host_matrix_of(gdn, GemmSlot::GdnOut).k, 16);
    assert_eq!(host_matrix_of(gdn, GemmSlot::FfnDown).k, 32);
}

#[test]
fn a_gemm_reads_the_plane_it_was_routed_to() {
    let cfg = ModelConfig::synthetic();
    let mut weights = Weights::synthetic(&cfg, 1);
    let mut lw = weights.per_layer.remove(1);
    let host = plan_gemm(&cfg, &lw, GemmSlot::Value);
    assert_eq!((host.source, host.row_off, host.m, host.k), (GemmSource::Host, 0, 32, 64));
    lw.qkv_bf16 = Bf16Weight { data: vec![0; 128 * 64], m: 128, k: 64 };
    let bf16 = plan_gemm(&cfg, &lw, GemmSlot::Value);
    assert_eq!((bf16.source, bf16.row_off, bf16.m), (GemmSource::Bf16, 96, 32));
    let plane = Nvfp4DevicePlane { codes: 16, scales: 32, m: 128, k: 64 };
    lw.dev.qkv = Some(plane);
    let device = plan_gemm(&cfg, &lw, GemmSlot::Key);
    assert_eq!((device.source, device.row_off), (GemmSource::Device(plane), 64));
    lw.dev.mlp_gate_up = Some(plane);
    assert_eq!(plan_gemm(&cfg, &lw, GemmSlot::FfnUp).row_off, 32);
    assert_eq!(plan_gemm(&cfg, &lw, GemmSlot::FfnGate).row_off, 0);
}

#[test]
fn a_prompt_runs_batched_once_and_eagerly_after_a_fault() {
    assert!(batched_prefill_eligible(2, 0));
    assert!(!batched_prefill_eligible(1, 0));
    assert!(!batched_prefill_eligible(9, 3));
    assert_eq!(first_pass(9, 0), PrefillPass::Batched);
    assert_eq!(first_pass(9, 1), PrefillPass::Eager);
    assert_eq!(after_pass(PrefillPass::Batched, Ok(())), AfterPass::Prefilled);
    assert_eq!(
        after_pass(PrefillPass::Batched, Err(ComputeError::Kernel(-1))),
        AfterPass::RunEagerly
    );
    assert_eq!(
        after_pass(PrefillPass::Batched, Err(ComputeError::Stopped)),
        AfterPass::Fail(ComputeError::Stopped)
    );
    assert_eq!(
        after_pass(PrefillPass::Eager, Err(ComputeError::Kernel(4))),
        AfterPass::Fail(ComputeError::Kernel(4))
    );
    assert_eq!(kernel_result(0), Ok(()));
    assert_eq!(kernel_result(3), Err(ComputeError::Kernel(3)));
}

#[test]
fn a_draw_past_the_vocabulary_is_a_fault() {
    assert_eq!(drawn_token(255, 256), Ok(255));
    assert_eq!(drawn_token(256, 256), Err(ComputeError::Kernel(-1)));
    assert_eq!(drawn_token(-1, 256), Err(ComputeError::Kernel(-1)));
}

#[test]
fn one_lane_replays_the_graph() {
    let graph = GraphGeometry::captured();
    assert_eq!(graph.batch, 1);
    assert_eq!(decode_path(1, Some(graph)), DecodePath::Graph);
    assert_eq!(decode_path(2, Some(graph)), DecodePath::Eager);
    assert_eq!(decode_path(1, None), DecodePath::Eager);
    let cfg = ModelConfig::qwen38_27b();
    assert_eq!(decode_graph_geom(&cfg).gdn_state_dim, 8194);
    assert_eq!(decode_graph_bytes(&cfg).embedding, 248_320 * 5_120 * 2);
    assert_eq!(decode_graph_bytes(&cfg).final_norm, 10_240);
}

#[test]
fn every_layer_names_the_tensors_that_fill_it() {
    let names: Vec<String> = layer_routes(3).into_iter().map(|r| r.name).collect();
    assert_eq!(
        names,
        vec![
            "text/layers/3/attention/query_key_gate_value",
            "text/layers/3/attention/output",
            "text/layers/3/attention/query_norm",
            "text/layers/3/attention/key_norm",
            "text/layers/3/input_norm",
            "text/layers/3/post_attention_norm",
            "text/layers/3/mlp/gate_up",
            "text/layers/3/mlp/down",
        ]
    );
    let routes = layer_routes(10);
    assert_eq!(routes[0].name, "text/layers/10/gdn/query_key_value_z");
    assert_eq!(routes[0].takes, Takes::Plane);
    assert_eq!(routes[1].name, "text/layers/10/gdn/output");
    assert_eq!(routes[1].takes, Takes::PlaneOrMatrix);
    assert_eq!(routes[2].name, "text/layers/10/gdn/convolution");
    assert_eq!(routes[3].name, "text/layers/10/gdn/a_b_projection");
    assert_eq!(routes[3].takes, Takes::Matrix);
    assert_eq!(routes[4].takes, Takes::Vector);
}

fn tensor(shape: Vec<u64>, data: Vec<u8>) -> HostTensor {
    HostTensor { is_bf16: true, shape, data }
}

#[test]
fn a_slot_takes_what_it_can_hold() {
    let fault = ComputeError::Kernel(-1);
    let matrix = tensor(vec![1, 2], vec![0x80, 0x3f, 0x00, 0x40]);
    assert_eq!(matrix.matrix().unwrap().data, vec![0x3f80, 0x4000]);
    assert_eq!(matrix.vector().err(), Some(fault));
    assert_eq!(tensor(vec![3], vec![1, 0, 2, 0, 3, 1]).vector(), Ok(vec![1, 2, 259]));
    assert_eq!(tensor(vec![1, 3], vec![0; 4]).matrix().err(), Some(fault), "too short");
    assert_eq!(tensor(vec![u64::MAX, 2], vec![0; 4]).matrix().err(), Some(fault));
    let quantized = HostTensor { is_bf16: false, shape: vec![1, 2], data: vec![0; 4] };
    assert_eq!(quantized.matrix().err(), Some(fault));
    let plane = Nvfp4DevicePlane { codes: 1, scales: 2, m: 3, k: 4 };
    assert!(matches!(
        fill(Takes::PlaneOrMatrix, Some(plane), Some(&matrix)),
        Ok(Found::Plane(p)) if p == plane
    ));
    assert!(matches!(
        fill(Takes::PlaneOrMatrix, None, Some(&matrix)),
        Ok(Found::Matrix(w)) if w.m == 1 && w.k == 2
    ));
    assert_eq!(fill(Takes::Plane, None, Some(&matrix)).err(), Some(fault));
    assert_eq!(fill(Takes::Matrix, Some(plane), None).err(), Some(fault));
    assert!(matches!(
        fill(Takes::Vector, None, Some(&tensor(vec![1], vec![7, 0]))),
        Ok(Found::Vector(v)) if v == vec![7]
    ));
}

#[test]
fn a_filled_slot_changes_nothing_else() {
    let cfg = ModelConfig::synthetic();
    let mut weights = Weights::from_geometry(&cfg);
    let lw = weights.per_layer.remove(1);
    let plane = Nvfp4DevicePlane { codes: 1, scales: 2, m: 3, k: 4 };
    let lw = place_plane(lw, TensorSlot::MlpDown, plane);
    assert_eq!(lw.dev.mlp_down, Some(plane));
    assert_eq!(lw.dev.qkv, None);
    let lw = place_matrix(lw, TensorSlot::AttnOut, Bf16Weight { data: vec![1], m: 1, k: 1 });
    assert_eq!(lw.attn_out_bf16.data, vec![1]);
    assert!(lw.qkv_bf16.data.is_empty());
    let lw = place_vector(lw, TensorSlot::KeyNorm, vec![9]);
    assert_eq!(lw.qk_norm[1], vec![9]);
    assert_eq!(lw.qk_norm[0].len(), 16);
    let lw = place_vector(lw, TensorSlot::NormPost, vec![8]);
    assert_eq!(lw.norm_post, vec![8]);
    assert_eq!(lw.norm_in.len(), 64);
}

#[test]
fn a_layer_is_filled_from_everything_its_routes_name() {
    let mut w = Weights::placeholder(&ModelConfig::qwen38_27b());
    let plane = |n: u64| Nvfp4DevicePlane { codes: n, scales: 2, m: 3, k: 4 };
    let offer = |k: usize| match k {
        0 => Offer { plane: Some(plane(1)), tensor: None },
        1 => Offer { plane: None, tensor: Some(tensor(vec![1, 2], vec![1, 0, 2, 0])) },
        2 => Offer { plane: None, tensor: Some(tensor(vec![1], vec![3, 0])) },
        3 => Offer { plane: None, tensor: Some(tensor(vec![1], vec![4, 0])) },
        4 => Offer { plane: None, tensor: Some(tensor(vec![1], vec![5, 0])) },
        5 => Offer { plane: None, tensor: Some(tensor(vec![1], vec![6, 1])) },
        6 => Offer { plane: Some(plane(7)), tensor: None },
        _ => Offer { plane: Some(plane(8)), tensor: None },
    };
    let attention = w.per_layer.remove(3);
    let kind = attention.kind;
    let offers: Vec<Offer> = (0..layer_routes(3).len()).map(offer).collect();
    let lw = fill_layer(3, attention, &offers).expect("every slot is served");
    assert_eq!(lw.kind, kind);
    assert_eq!(lw.dev.qkv, Some(plane(1)));
    assert_eq!(lw.dev.attn_out, None);
    assert_eq!((lw.attn_out_bf16.m, lw.attn_out_bf16.k), (1, 2));
    assert_eq!(lw.attn_out_bf16.data, vec![1, 2]);
    assert_eq!(lw.qk_norm, [vec![3], vec![4]]);
    assert_eq!((lw.norm_in, lw.norm_post), (vec![5], vec![262]));
    assert_eq!((lw.dev.mlp_gate_up, lw.dev.mlp_down), (Some(plane(7)), Some(plane(8))));
    assert_eq!(lw.dev.gdn_in, None, "no slot of the other kind is touched");
    let short: Vec<Offer> = (0..8)
        .map(|k| if k == 7 { Offer { plane: None, tensor: None } } else { offer(k) })
        .collect();
    assert_eq!(
        fill_layer(3, w.per_layer.remove(2), &short).err(),
        Some(ComputeError::Kernel(-1)),
        "one slot short"
    );
}

#[test]
fn a_stack_is_planned_layer_by_layer() {
    let cfg = ModelConfig::synthetic();
    let w = Weights::synthetic(&cfg, 3);
    let n = w.per_layer.len() as u64;
    let plan = plan_stack(&cfg, &w.per_layer, 2, 5).expect("a small stack can be counted");
    assert_eq!(plan.len() as u64, n);
    for (l, lw) in w.per_layer.iter().enumerate() {
        let pass = Pass { tokens: 2, layer: l as u64, layers: n, seq_pos: 5 + 2 * l as u64 };
        assert_eq!(plan[l], plan_layer(&cfg, lw, &pass), "layer {l}");
        assert_eq!(plan[l].last(), Some(&Step::Advance { by: 2 }));
    }
    assert!(plan_stack(&cfg, &w.per_layer, 1, u64::MAX - n + 1).is_none(), "past every position");
    assert!(plan_stack(&cfg, &w.per_layer, 1, u64::MAX - n).is_some());
}
