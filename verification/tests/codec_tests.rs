use bin2png::codec::compute_edge;
use bin2png::codec::decode;
use bin2png::codec::encode;
use bin2png::codec::DecodeError;
use bin2png::hilbert::d2xy;

/// The byte at linear position `p` of a grid, as the decoder addresses
/// it: channel `p % 3` of the pixel at Hilbert distance `p / 3`.
fn byte_at(rgba: &[u8], edge: usize, p: usize) -> u8 {
    let (x, y) = d2xy(edge, p / 3);
    rgba[4 * (y * edge + x) + p % 3]
}

#[test]
fn framer_values() {
    assert_eq!(compute_edge(0), 2);
    assert_eq!(compute_edge(2), 2);
    assert_eq!(compute_edge(8), 4);
    assert_eq!(compute_edge(20), 4);
    assert_eq!(compute_edge(43), 4);
    assert_eq!(compute_edge(44), 8);
}

#[test]
fn framer_capacity_and_minimality() {
    for len in 0usize..500 {
        let edge = compute_edge(len);
        assert!(edge.is_power_of_two(), "len = {}", len);
        assert!(3 * edge * edge >= len + 4, "len = {}", len);
        let half = edge / 2;
        assert!(half * half < 1 + (len + 4) / 3, "len = {}", len);
    }
}

#[test]
fn two_byte_payload_grid() {
    let data = vec![0x41u8, 0x42];
    let g = encode(&data);
    assert_eq!(g.edge, 2);
    assert_eq!(
        g.rgba,
        vec![
            2, 0, 0, 255, // pixel (0, 0), Hilbert distance 0: framed bytes 0..3
            0, 0x41, 0x42, 255, // pixel (1, 0), distance 3: bytes 9..12 wrap to 3..6
            0, 0x41, 0x42, 255, // pixel (0, 1), distance 1: framed bytes 3..6
            2, 0, 0, 255, // pixel (1, 1), distance 2: bytes 6..9 wrap to 0..3
        ]
    );
    assert_eq!(decode(2, 2, &g.rgba), Ok(data));
}

#[test]
fn empty_payload_grid() {
    let data: Vec<u8> = vec![];
    let g = encode(&data);
    assert_eq!(g.edge, 2);
    assert_eq!(g.rgba, vec![0, 0, 0, 255, 0, 0, 0, 255, 0, 0, 0, 255, 0, 0, 0, 255]);
    assert_eq!(decode(2, 2, &g.rgba), Ok(vec![]));
}

#[test]
fn round_trip_various_buffers() {
    let mut buffers: Vec<Vec<u8>> = vec![
        vec![],
        vec![0],
        vec![255],
        vec![1, 2],
        vec![1, 2, 3],
        vec![1, 2, 3, 4],
        vec![1, 2, 3, 4, 5],
    ];
    buffers.push((0..=255u8).collect());
    buffers.push((0..1000u32).map(|i| (i * 7 % 251) as u8).collect());
    for data in buffers {
        let g = encode(&data);
        assert_eq!(decode(g.edge, g.edge, &g.rgba), Ok(data));
    }
}

#[test]
fn wraparound_repeats_the_framed_payload() {
    let data = vec![0x41u8, 0x42];
    let g = encode(&data);
    let framed_len = data.len() + 4;
    let capacity = 3 * g.edge * g.edge;
    for p in framed_len..capacity {
        assert_eq!(
            byte_at(&g.rgba, g.edge, p),
            byte_at(&g.rgba, g.edge, p % framed_len),
            "p = {}",
            p
        );
    }
}

#[test]
fn positions_hold_the_framed_bytes() {
    let data = vec![9u8, 8, 7, 6, 5];
    let mut framed = vec![5u8, 0, 0, 0];
    framed.extend_from_slice(&data);
    let g = encode(&data);
    let capacity = 3 * g.edge * g.edge;
    for p in 0..capacity {
        assert_eq!(byte_at(&g.rgba, g.edge, p), framed[p % framed.len()], "p = {}", p);
    }
}

#[test]
fn alpha_channels_are_opaque() {
    let data: Vec<u8> = (0..100u8).collect();
    let g = encode(&data);
    assert_eq!(g.rgba.len(), 4 * g.edge * g.edge);
    for pixel in 0..g.edge * g.edge {
        assert_eq!(g.rgba[4 * pixel + 3], 255);
    }
}

#[test]
fn non_square_grid_is_rejected() {
    let rgba = vec![0u8; 24];
    assert_eq!(decode(2, 3, &rgba), Err(DecodeError::NotSquare));
    assert_eq!(decode(3, 2, &rgba), Err(DecodeError::NotSquare));
}

#[test]
fn non_power_of_two_grid_is_rejected() {
    let rgba = vec![0u8; 36];
    assert_eq!(decode(3, 3, &rgba), Err(DecodeError::EdgeNotPowerOfTwo));
    let empty: Vec<u8> = vec![];
    assert_eq!(decode(0, 0, &empty), Err(DecodeError::EdgeNotPowerOfTwo));
}

#[test]
fn grid_too_small_for_the_prefix_is_rejected() {
    let rgba = vec![0u8, 0, 0, 255];
    assert_eq!(decode(1, 1, &rgba), Err(DecodeError::SizeOutOfRange));
}

#[test]
fn declared_size_overflow_is_rejected() {
    // A 2 by 2 grid holds 12 addressable bytes, so at most 8 payload
    // bytes after the prefix; a prefix declaring 9 must be rejected.
    let mut rgba = vec![0u8; 16];
    rgba[0] = 9;
    assert_eq!(decode(2, 2, &rgba), Err(DecodeError::SizeOutOfRange));
    // Declaring exactly 8 is still within capacity.
    rgba[0] = 8;
    assert_eq!(decode(2, 2, &rgba), Ok(vec![0u8; 8]));
}
