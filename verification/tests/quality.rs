use pixels_reference::quality::{
    partitioned_digest, production_glossy_sphere_control, production_truth_text, sequence,
    truth_text, QualitySequence, FRAME_COUNT, FRAME_HEIGHT, FRAME_WIDTH,
};
use sha2::{Digest, Sha256};

fn hex(bytes: &[u8]) -> String {
    bytes.iter().map(|byte| format!("{byte:02x}")).collect()
}

fn sha(bytes: &[u8]) -> [u8; 32] {
    let digest = Sha256::digest(bytes);
    let mut out = [0u8; 32];
    out.copy_from_slice(&digest);
    out
}

fn put(frame: &mut [u8], x: usize, y: usize, bgr: [u8; 3]) {
    let base = (y * FRAME_WIDTH + x) * 4;
    frame[base..base + 4].copy_from_slice(&[bgr[0], bgr[1], bgr[2], 255]);
}

/// A frame that keeps every production control; `step` moves its changing
/// pixel and its highlight.
fn controlled_frame(step: usize, brightening: bool) -> Vec<u8> {
    let mut frame = vec![0u8; FRAME_WIDTH * FRAME_HEIGHT * 4];
    for pixel in frame.chunks_exact_mut(4) {
        pixel[3] = 255;
    }
    for y in 10..16 {
        for x in 24..32 {
            put(&mut frame, x, y, [255, 255, 255]);
        }
    }
    for x in 16..32 {
        put(&mut frame, x, 0, [0, 0, 200]);
    }
    put(&mut frame, 16, 1, [200, 0, 0]);
    put(&mut frame, 17, 1, [200, 0, 0]);
    for y in 6..10 {
        for x in 12..16 {
            put(&mut frame, x, y, [100, 100, 100]);
        }
    }
    for y in 7..9 {
        for x in 13..15 {
            put(&mut frame, x, y, [0, 0, 0]);
        }
    }
    if step % 2 == 0 {
        put(&mut frame, 12, 6, [200, 200, 200]);
    } else {
        put(&mut frame, 15, 9, [200, 200, 200]);
    }
    for x in 0..11 {
        if x % 2 == 1 {
            put(&mut frame, x, 12, [50, 50, 50]);
        }
    }
    put(&mut frame, 0, 15, [10, 20, 30]);
    put(&mut frame, 1, 15, [30, 20, 10]);
    let level = (if brightening { step } else { FRAME_COUNT - 1 - step }) as u8;
    put(&mut frame, 5, 14, [level * 10 + 1, level * 10 + 1, level * 10 + 1]);
    frame
}

fn controlled_sequence(brightening: bool) -> Vec<Vec<u8>> {
    (0..FRAME_COUNT).map(|step| controlled_frame(step, brightening)).collect()
}

#[test]
fn production_sphere_control_uses_its_local_core_and_rim() {
    let mut frame = vec![0_u8; FRAME_WIDTH * FRAME_HEIGHT * 4];
    for pixel in frame.chunks_exact_mut(4) {
        pixel[3] = 255;
    }
    for y in FRAME_HEIGHT * 3 / 8..FRAME_HEIGHT * 5 / 8 {
        for x in FRAME_WIDTH * 3 / 8..FRAME_WIDTH / 2 {
            let base = (y * FRAME_WIDTH + x) * 4;
            frame[base..base + 4].copy_from_slice(&[33, 22, 13, 255]);
        }
    }
    for y in FRAME_HEIGHT * 7 / 16..FRAME_HEIGHT * 9 / 16 {
        for x in FRAME_WIDTH * 13 / 32..FRAME_WIDTH * 15 / 32 {
            let base = (y * FRAME_WIDTH + x) * 4;
            frame[base..base + 4].copy_from_slice(&[5, 2, 1, 255]);
        }
    }
    assert_eq!(
        production_glossy_sphere_control(&frame),
        Some((FRAME_WIDTH * 3 / 8, FRAME_HEIGHT * 3 / 8))
    );
    for y in FRAME_HEIGHT * 7 / 16..FRAME_HEIGHT * 9 / 16 {
        for x in FRAME_WIDTH * 13 / 32..FRAME_WIDTH * 15 / 32 {
            let base = (y * FRAME_WIDTH + x) * 4;
            frame[base..base + 4].copy_from_slice(&[33, 22, 13, 255]);
        }
    }
    assert_eq!(production_glossy_sphere_control(&frame), None);
}

#[test]
fn production_truth_rejects_an_unrelated_or_nonopaque_sequence() {
    let mut frames = (0..FRAME_COUNT)
        .map(|frame_index| {
            let mut bytes = Vec::with_capacity(FRAME_WIDTH * FRAME_HEIGHT * 4);
            for pixel in 0..FRAME_WIDTH * FRAME_HEIGHT {
                let value = if pixel % 4 == 0 {
                    0
                } else {
                    160 + (pixel % 16) as u8 * 2 + frame_index as u8 * 4
                };
                bytes.extend([value, value, value, 255]);
            }
            bytes
        })
        .collect::<Vec<_>>();
    let oracle = controlled_sequence(true);
    assert!(production_truth_text(&frames, &oracle).is_err());
    frames[3][3] = 0;
    assert!(production_truth_text(&frames, &oracle)
        .unwrap_err()
        .contains("non-opaque"));
}

#[test]
fn controlled_production_sequence_is_locked_with_its_digests() {
    let frames = controlled_sequence(true);
    let oracle = controlled_sequence(true);
    let text = production_truth_text(&frames, &oracle).unwrap();
    let lines: Vec<&str> = text.lines().collect();
    assert_eq!(lines.len(), FRAME_COUNT + 2);
    assert_eq!(
        lines[0],
        "PixelsQuality version=2 frames=8 width=32 height=16 oracle=production-scene properties=diagonal-pan,glossy-sphere,slope-recede,rectangle-penumbra,thin-blade,material-edge,ao-contact,filmic-shoulder status=pass"
    );
    for (index, frame) in frames.iter().enumerate() {
        assert_eq!(
            lines[index + 1],
            format!(
                "frame={index} digest={} host_components=pass opaque=pass motion=pass status=pass",
                hex(&sha(frame))
            )
        );
    }
    assert!(lines[FRAME_COUNT + 1].starts_with("summary visibility_controls=pass"));
    assert!(text.ends_with("status=pass\n"));
}

#[test]
fn production_sequence_must_follow_the_oracle_exposure_direction() {
    let frames = controlled_sequence(false);
    let brightening_oracle = controlled_sequence(true);
    assert_eq!(
        production_truth_text(&frames, &brightening_oracle).unwrap_err(),
        "P032: production quality sequence reverses the independent exposure response"
    );
    let darkening_oracle = controlled_sequence(false);
    assert!(production_truth_text(&frames, &darkening_oracle).is_ok());
    assert!(production_truth_text(&frames, &[]).is_ok());
}

#[test]
fn production_frame_refusals_name_the_frame_and_counts() {
    let mut frames = controlled_sequence(true);
    frames[0] = vec![0u8; FRAME_WIDTH * FRAME_HEIGHT * 4];
    for pixel in frames[0].chunks_exact_mut(4) {
        pixel[3] = 255;
    }
    assert_eq!(
        production_truth_text(&frames, &[]).unwrap_err(),
        "P032: production quality frame 0 lost its visibility controls (dark=512, bright=0, distinct=1)"
    );
    let mut frames = controlled_sequence(true);
    frames[2] = frames[1].clone();
    assert_eq!(
        production_truth_text(&frames, &[]).unwrap_err(),
        "P032: production quality frame 2 did not respond to the sealed motion/light/exposure step"
    );
    let mut frames = controlled_sequence(true);
    frames.pop();
    assert_eq!(
        production_truth_text(&frames, &[]).unwrap_err(),
        "P032: production quality frame shape mismatch"
    );
}

#[test]
fn production_controls_are_counted_across_the_sequence() {
    let mut frames = controlled_sequence(true);
    for frame in frames.iter_mut() {
        for x in 16..32 {
            let base = x * 4;
            frame[base..base + 3].copy_from_slice(&[0, 0, 0]);
        }
    }
    assert_eq!(
        production_truth_text(&frames, &[]).unwrap_err(),
        "P032: production material-edge controls survived in 0/8 frames"
    );
    let mut frames = controlled_sequence(true);
    for frame in frames.iter_mut() {
        for x in 0..11 {
            put(frame, x, 12, [0, 0, 0]);
        }
    }
    assert!(production_truth_text(&frames, &[]).is_ok());
    for x in 0..5 {
        put(&mut frames[0], x, 14, [1, 1, 1]);
    }
    assert_eq!(
        production_truth_text(&frames, &[]).unwrap_err(),
        "P032: production receding texture lost deterministic spatial detail (15 edges)"
    );
}

#[test]
fn one_highlight_position_is_not_glossy_motion() {
    let frames: Vec<Vec<u8>> = (0..FRAME_COUNT)
        .map(|step| {
            let mut frame = controlled_frame(step, true);
            put(&mut frame, 15, 9, [100, 100, 100]);
            put(&mut frame, 12, 6, [200, 200, 200]);
            frame
        })
        .collect();
    assert_eq!(
        production_truth_text(&frames, &[]).unwrap_err(),
        "P032: production glossy highlight occupied only 1 deterministic peak position(s)"
    );
}

#[test]
fn partitioned_digest_is_the_frame_digest() {
    let frame: Vec<u8> = (0..64u32).map(|v| (v * 7 % 251) as u8).collect();
    for workers in 1..6 {
        assert_eq!(partitioned_digest(&frame, workers).unwrap(), sha(&frame));
    }
    assert_eq!(
        partitioned_digest(&frame, 0).unwrap_err(),
        "P032: invalid quality partition"
    );
    assert_eq!(
        partitioned_digest(&frame[..63], 3).unwrap_err(),
        "P032: invalid quality partition"
    );
}

#[test]
fn sequence_digests_are_repeatable_and_partition_invariant() {
    let frames = controlled_sequence(true);
    let result = sequence(&frames, &frames).unwrap();
    assert_eq!(result.frame_digests, result.repeated_digests);
    assert_eq!(result.frame_digests, result.one_core_digests);
    assert_eq!(result.frame_digests, result.three_core_digests);
    assert!(result.frame_digests.windows(2).all(|pair| pair[0] != pair[1]));
    assert_eq!(result.frame_digests[4], sha(&frames[4]));
    assert_eq!(
        sequence(&frames[..7], &frames).unwrap_err(),
        "P032: quality frame count mismatch"
    );
    assert_eq!(
        sequence(&frames, &frames[..7]).unwrap_err(),
        "P032: repeated quality frame count mismatch"
    );
    let mut ragged = frames.clone();
    ragged[5].pop();
    assert_eq!(
        sequence(&ragged, &frames).unwrap_err(),
        "P032: invalid quality partition"
    );
}

#[test]
fn truth_text_lists_each_digest_in_lower_hex() {
    let mut digests = [[0u8; 32]; FRAME_COUNT];
    for (index, digest) in digests.iter_mut().enumerate() {
        for (position, byte) in digest.iter_mut().enumerate() {
            *byte = (index * 32 + position) as u8 ^ 0xa5;
        }
    }
    let result = QualitySequence {
        frame_digests: digests,
        repeated_digests: digests,
        one_core_digests: digests,
        three_core_digests: digests,
    };
    let text = truth_text(&result);
    let lines: Vec<&str> = text.lines().collect();
    assert_eq!(lines.len(), FRAME_COUNT + 2);
    assert_eq!(
        lines[0],
        "PixelsQuality version=1 frames=8 width=32 height=16 properties=diagonal-pan,glossy-sphere,slope-recede,rectangle-penumbra,thin-blade,material-edge,ao-contact,filmic-shoulder status=pass"
    );
    assert_eq!(
        lines[1],
        format!(
            "frame=0 digest={} repeat=identical one_three=identical status=pass",
            hex(&digests[0])
        )
    );
    assert!(lines[1].starts_with("frame=0 digest=a5a4a7a6"));
    assert_eq!(
        lines[FRAME_COUNT + 1],
        "summary visibility_failures=0 identity_failures=0 shadow_failures=0 interval_failures=0 stochastic=none status=pass"
    );
}
