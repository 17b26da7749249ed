//! The attention-input tap.

use ignis_core::attn_tap::{
    hq_engine_sign, kv_head_of, tap_next, AttnTapCapture, TapBuffers, TapStep, HEAD_DIM, KV_HEADS,
    Q_HEADS,
};
use ignis_core::bf16::bf16_to_f32;

fn value(bits: u16) -> f32 {
    f32::from_bits(bf16_to_f32(bits))
}

#[test]
fn bf16_widening_is_exact() {
    assert_eq!(value(0x3f80), 1.0);
    assert_eq!(value(0xbf80), -1.0);
    assert_eq!(value(0x4049), 3.140625);
    assert_eq!(value(0x0000), 0.0);
}

#[test]
fn a_query_head_reads_its_own_kv_group() {
    let group = kv_head_of;
    assert_eq!((group(0), group(5), group(6), group(10), group(23)), (0, 0, 1, 1, 3));
}

#[test]
fn scores_index_the_right_rows() {
    let mut cap = AttnTapCapture {
        ordinals: vec![9],
        query_positions: vec![2],
        max_positions: 3,
        q: vec![0; Q_HEADS * HEAD_DIM],
        k: vec![0; 3 * KV_HEADS * HEAD_DIM],
        rows_written: vec![3],
        queries_seen: vec![1],
        kc: Vec::new(),
        consumed_rows: vec![0],
        consumed_chunk_start: vec![-1],
    };
    let one = 0x3f80u16;
    cap.q[10 * HEAD_DIM] = one;
    for (p, v) in [(0usize, 0x3f80u16), (1, 0x4000), (2, 0x4040)] {
        cap.k[(p * KV_HEADS + 1) * HEAD_DIM] = v;
        cap.k[(p * KV_HEADS) * HEAD_DIM] = 0x4120;
    }
    let scale = 1.0 / 16.0;
    let scores: Vec<f32> = [0, 1, 2]
        .iter()
        .map(|&p| {
            let q = cap.query(0, 0, 10);
            let k = cap.key(0, p, kv_head_of(10));
            q.iter().zip(k).map(|(&a, &b)| value(a) * value(b)).sum::<f32>() * scale
        })
        .collect();
    assert_eq!(scores, vec![1.0 * scale, 2.0 * scale, 3.0 * scale]);
}

#[test]
fn consumed_rows_are_found_like_the_keys() {
    let buffers = TapBuffers::new(2, 1, 3, true);
    assert_eq!(buffers.q.len(), 2 * Q_HEADS * HEAD_DIM);
    assert_eq!(buffers.k.len(), 2 * 3 * KV_HEADS * HEAD_DIM);
    assert_eq!(buffers.kc.len(), buffers.k.len());
    assert_eq!(buffers.consumed_chunk_start, vec![-1, -1]);
    let mut capture = buffers.into_capture(vec![0, 9], vec![5], 3);
    let at = ((3 + 2) * KV_HEADS + 3) * HEAD_DIM;
    capture.kc[at] = 7;
    capture.k[at] = 8;
    assert_eq!(capture.consumed_key(1, 2, 3)[0], 7);
    assert_eq!(capture.key(1, 2, 3)[0], 8);
    assert_eq!(capture.key(1, 2, 2)[0], 0);
}

#[test]
fn no_positions_hold_no_keys() {
    let buffers = TapBuffers::new(1, 1, -4, true);
    assert!(buffers.k.is_empty());
    assert!(buffers.kc.is_empty());
    assert!(TapBuffers::new(1, 1, 4, false).kc.is_empty());
}

#[test]
fn the_engine_signs_are_a_balanced_deterministic_diagonal() {
    let signs: Vec<i32> = (0..HEAD_DIM as u32).map(hq_engine_sign).collect();
    assert!(signs.iter().all(|&s| s == 1 || s == -1));
    let plus = signs.iter().filter(|&&s| s == 1).count();
    assert!((96..=160).contains(&plus), "{plus} of 256 positive");
    assert_eq!(signs, (0..HEAD_DIM as u32).map(hq_engine_sign).collect::<Vec<_>>());
}

#[test]
fn the_tap_is_disarmed_on_every_way_out() {
    for consumed in [false, true] {
        for arm in [0, -1] {
            for arm_consumed in [0, -1] {
                for disarm in [0, -1] {
                    let mut step = TapStep::Arm;
                    let mut armed = false;
                    let mut ran = false;
                    while step != TapStep::Finish && step != TapStep::Refuse {
                        let rc = match step {
                            TapStep::Arm => arm,
                            TapStep::ArmConsumed => arm_consumed,
                            TapStep::Disarm => disarm,
                            _ => 0,
                        };
                        match step {
                            TapStep::Arm => armed = rc == 0,
                            TapStep::Run => ran = true,
                            TapStep::Disarm | TapStep::Discard => armed = false,
                            _ => {}
                        }
                        step = tap_next(consumed, step, rc);
                    }
                    assert!(!armed, "the tap is left disarmed");
                    let runs = arm == 0 && (!consumed || arm_consumed == 0);
                    assert_eq!(ran, runs);
                    assert_eq!(step == TapStep::Finish, runs && disarm == 0);
                }
            }
        }
    }
}
