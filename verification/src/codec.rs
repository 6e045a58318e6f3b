// Framing, encoding and decoding: a byte buffer is framed with a 4-byte
// little-endian length prefix and laid out over the RGB channels of a
// square RGBA grid in Hilbert-curve order, wrapping cyclically to fill
// the grid's spare capacity.

use vstd::prelude::*;
use vstd::arithmetic::div_mod::lemma_div_denominator;
use vstd::arithmetic::div_mod::lemma_fundamental_div_mod;
use vstd::arithmetic::div_mod::lemma_fundamental_div_mod_converse_div;
use vstd::arithmetic::div_mod::lemma_fundamental_div_mod_converse_mod;
use vstd::arithmetic::div_mod::lemma_small_mod;
use crate::hilbert::d2xy;
use crate::hilbert::d2xy_spec;
use crate::hilbert::is_pow2;
use crate::hilbert::lemma_d2xy_range;
use crate::hilbert::lemma_xy2d_d2xy;
use crate::hilbert::xy2d;
use crate::hilbert::xy2d_spec;

verus! {

/// The 4-byte little-endian encoding of `len`.
pub open spec fn le32(len: nat) -> Seq<u8> {
    seq![
        (len % 256) as u8,
        ((len / 256) % 256) as u8,
        ((len / 65536) % 256) as u8,
        ((len / 16777216) % 256) as u8,
    ]
}

/// The value read back from 4 little-endian bytes.
pub open spec fn le32_val(b0: u8, b1: u8, b2: u8, b3: u8) -> nat {
    (b0 + 256 * b1 + 65536 * b2 + 16777216 * b3) as nat
}

/// The framed payload: the payload's length as a little-endian prefix,
/// then the payload itself.
pub open spec fn frame_spec(data: Seq<u8>) -> Seq<u8> {
    le32(data.len()) + data
}

/// Reading 4 little-endian bytes of a value below 2^32 restores the value.
pub proof fn lemma_le32_roundtrip(len: nat)
    requires
        len <= u32::MAX,
    ensures
        le32_val(le32(len)[0], le32(len)[1], le32(len)[2], le32(len)[3]) == len,
{
    let q1: nat = len / 256;
    let q2: nat = len / 65536;
    let q3: nat = len / 16777216;
    lemma_div_denominator(len as int, 256, 256);
    lemma_div_denominator(len as int, 65536, 256);
    assert(q1 / 256 == q2 && q2 / 256 == q3);
    lemma_fundamental_div_mod(len as int, 256);
    lemma_fundamental_div_mod(q1 as int, 256);
    lemma_fundamental_div_mod(q2 as int, 256);
    assert(q3 < 256);
    lemma_small_mod(q3, 256);
}

/// The smallest power of two at least `e` whose square reaches `p`,
/// found by doubling.
pub open spec fn grow_edge(e: nat, p: nat) -> nat
    decreases p - e,
    when 1 <= e
    via grow_edge_decreases
{
    if e * e >= p {
        e
    } else {
        grow_edge(2 * e, p)
    }
}

#[via_fn]
proof fn grow_edge_decreases(e: nat, p: nat) {
    if 1 <= e && e * e < p {
        assert(e <= e * e && 2 * e <= e * e + 1) by (nonlinear_arith)
            requires
                1 <= e,
        ;
    }
}

/// The side of the grid for a payload of `len` bytes: the smallest power
/// of two whose square holds one pixel more than the framed payload's
/// three-bytes-per-pixel count.
pub open spec fn edge_for(len: nat) -> nat {
    grow_edge(1, 1 + (len + 4) / 3)
}

proof fn lemma_grow_edge(e: nat, p: nat)
    requires
        is_pow2(e),
        1 <= p,
    ensures
        is_pow2(grow_edge(e, p)),
        grow_edge(e, p) >= e,
        grow_edge(e, p) * grow_edge(e, p) >= p,
        grow_edge(e, p) > e ==> (grow_edge(e, p) / 2) * (grow_edge(e, p) / 2) < p,
    decreases p - e,
{
    if e * e < p {
        assert(e <= e * e && 2 * e <= e * e + 1) by (nonlinear_arith)
            requires
                1 <= e,
        ;
        assert(is_pow2(2 * e));
        lemma_grow_edge(2 * e, p);
        let g: nat = grow_edge(e, p);
        assert(g == grow_edge(2 * e, p));
        if g == 2 * e {
            assert(g / 2 == e);
        }
    }
}

/// The grid side returned by the framer is a power of two, at least 2,
/// whose capacity of three bytes per pixel holds the framed payload; and
/// it is minimal: the next smaller power of two falls short of the pixel
/// count.
pub proof fn lemma_edge_for(len: nat)
    ensures
        is_pow2(edge_for(len)),
        edge_for(len) >= 2,
        3 * (edge_for(len) * edge_for(len)) >= len + 4 + 1,
        (edge_for(len) / 2) * (edge_for(len) / 2) < 1 + (len + 4) / 3,
{
    let p: nat = 1 + (len + 4) / 3;
    assert(p >= 2);
    lemma_grow_edge(1, p);
    let g: nat = edge_for(len);
    if g == 1 {
        assert(g * g == 1);
        assert(false);
    }
    lemma_fundamental_div_mod((len + 4) as int, 3);
    assert(3 * ((len + 4) / 3) >= len + 4 - 2);
    assert(3 * (g * g) >= 3 * p) by {
        assert(g * g >= p);
    }
}

/// A decoding failure: the reasons a pixel grid cannot carry a payload.
#[derive(Clone, Copy, Debug, PartialEq, Eq, Structural)]
pub enum DecodeError {
    /// The grid's width and height differ.
    NotSquare,
    /// The grid's side is not a power of two.
    EdgeNotPowerOfTwo,
    /// The prefix, or the payload length it declares, exceeds the grid's
    /// capacity.
    SizeOutOfRange,
}

/// A square RGBA pixel grid of side `edge`, stored row by row, 4 bytes
/// per pixel.
pub struct Grid {
    /// The side length of the grid, in pixels.
    pub edge: usize,
    /// The pixel bytes, `4 * edge * edge` of them.
    pub rgba: Vec<u8>,
}

/// Computes the grid side for a payload of `len` bytes by doubling a
/// power of two until its square reaches the required pixel count.
pub fn compute_edge(len: usize) -> (edge: usize)
    requires
        4 * (1 + ((len as int + 4) / 3)) <= usize::MAX as int,
    ensures
        edge as nat == edge_for(len as nat),
        2 <= edge,
        is_pow2(edge as nat),
{
    proof {
        lemma_edge_for(len as nat);
        lemma_fundamental_div_mod(len as int + 4, 3);
    }
    let framed_len = len + 4;
    let pixel_count = 1 + framed_len / 3;
    let mut edge: usize = 1;
    while edge * edge < pixel_count
        invariant
            1 <= edge,
            is_pow2(edge as nat),
            pixel_count as nat == 1 + ((len as nat) + 4) / 3,
            4 * (pixel_count as int) <= usize::MAX as int,
            (edge as int) * (edge as int) <= usize::MAX as int,
            grow_edge(edge as nat, pixel_count as nat) == edge_for(len as nat),
        decreases pixel_count - edge,
    {
        proof {
            assert(edge <= edge * edge && 2 * (edge as int) <= (edge as int) * (edge as int)
                + 1) by (nonlinear_arith)
                requires
                    1 <= edge as int,
            ;
            assert((2 * (edge as int)) * (2 * (edge as int)) == 4 * ((edge as int) * (edge
                as int))) by (nonlinear_arith);
            assert(is_pow2(2 * (edge as nat)));
        }
        edge = edge * 2;
    }
    edge
}

/// The byte the encoder stores at index `i` of the RGBA buffer for a
/// grid of side `edge`: alpha channels hold 255, and channel `c` of the
/// pixel at `(x, y)` holds the framed byte at `3 * xy2d(x, y) + c`,
/// reduced modulo the framed length.
pub open spec fn encoded_byte(data: Seq<u8>, edge: nat, i: nat) -> u8 {
    if i % 4 == 3 {
        255
    } else {
        let pid: nat = i / 4;
        let px: nat = pid % edge;
        let py: nat = pid / edge;
        let pos: nat = 3 * xy2d_spec(edge, px, py) + i % 4;
        frame_spec(data)[(pos % frame_spec(data).len()) as int]
    }
}

/// The full RGBA byte buffer the encoder produces, pixels row by row.
pub open spec fn encode_grid_bytes(data: Seq<u8>, edge: nat) -> Seq<u8> {
    Seq::new(4 * (edge * edge), |i: int| encoded_byte(data, edge, i as nat))
}

/// The byte at linear position `p` of a grid of side `edge`: channel
/// `p % 3` of the pixel at Hilbert distance `p / 3`.
pub open spec fn grid_byte(rgba: Seq<u8>, edge: nat, p: nat) -> u8 {
    let xy: (nat, nat) = d2xy_spec(edge, p / 3);
    rgba[(4 * (xy.1 * edge + xy.0) + p % 3) as int]
}

/// The payload length a grid declares in its 4-byte prefix.
pub open spec fn decoded_size(rgba: Seq<u8>, edge: nat) -> nat {
    le32_val(
        grid_byte(rgba, edge, 0),
        grid_byte(rgba, edge, 1),
        grid_byte(rgba, edge, 2),
        grid_byte(rgba, edge, 3),
    )
}

/// What decoding a grid of the given dimensions yields: a structural
/// error for a grid that is not square, whose side is not a power of
/// two, or whose declared payload does not fit its capacity; otherwise
/// the declared number of payload bytes, read in Hilbert order after
/// the prefix.
pub open spec fn decode_spec(width: nat, height: nat, rgba: Seq<u8>) -> Result<
    Seq<u8>,
    DecodeError,
> {
    if width != height {
        Err(DecodeError::NotSquare)
    } else if !is_pow2(height) {
        Err(DecodeError::EdgeNotPowerOfTwo)
    } else if 3 * (height * height) < 4 {
        Err(DecodeError::SizeOutOfRange)
    } else if decoded_size(rgba, height) + 4 > 3 * (height * height) {
        Err(DecodeError::SizeOutOfRange)
    } else {
        Ok(Seq::new(decoded_size(rgba, height), |j: int| grid_byte(rgba, height, (j + 4) as nat)))
    }
}

/// Whether the decoder's in-memory result agrees with its mathematical
/// counterpart.
pub open spec fn decode_matches(
    r: Result<Vec<u8>, DecodeError>,
    s: Result<Seq<u8>, DecodeError>,
) -> bool {
    match r {
        Ok(v) => s is Ok && v@ == s->Ok_0,
        Err(e) => s is Err && e == s->Err_0,
    }
}

/// Tests whether `n` is a power of two by repeated halving.
fn is_pow2_exec(n: usize) -> (r: bool)
    ensures
        r == is_pow2(n as nat),
{
    if n == 0 {
        return false;
    }
    let mut m = n;
    while m > 1
        invariant
            1 <= m,
            is_pow2(n as nat) == is_pow2(m as nat),
        decreases m,
    {
        if m % 2 == 1 {
            return false;
        }
        m = m / 2;
    }
    true
}

/// Encodes a byte buffer into the RGBA grid that carries it: the framed
/// payload is written along the Hilbert curve, three bytes per pixel,
/// repeated cyclically until the grid is full, with every alpha channel
/// set to 255.
pub fn encode(data: &Vec<u8>) -> (g: Grid)
    requires
        data.len() <= u32::MAX,
        16 * (1 + ((data.len() as int + 4) / 3)) <= usize::MAX as int,
    ensures
        g.edge as nat == edge_for(data.len() as nat),
        g.rgba@ == encode_grid_bytes(data@, g.edge as nat),
{
    let len = data.len();
    let mut framed: Vec<u8> = Vec::new();
    framed.push((len % 256) as u8);
    framed.push(((len / 256) % 256) as u8);
    framed.push(((len / 65536) % 256) as u8);
    framed.push(((len / 16777216) % 256) as u8);
    proof {
        assert(framed@ =~= le32(data@.len()) + data@.subrange(0, 0));
    }
    let mut i: usize = 0;
    while i < len
        invariant
            i <= len,
            len == data.len(),
            framed@ == le32(data@.len()) + data@.subrange(0, i as int),
        decreases len - i,
    {
        framed.push(data[i]);
        proof {
            assert(framed@ =~= le32(data@.len()) + data@.subrange(0, i as int + 1));
        }
        i = i + 1;
    }
    proof {
        assert(data@.subrange(0, data@.len() as int) =~= data@);
        assert(framed@ == frame_spec(data@));
    }
    let edge = compute_edge(len);
    proof {
        lemma_edge_for(len as nat);
        assert(edge as int == 2 * (edge as int / 2));
        assert((edge as int) * (edge as int) == 4 * ((edge as int / 2) * (edge as int
            / 2))) by (nonlinear_arith)
            requires
                edge as int == 2 * (edge as int / 2),
        ;
    }
    let flen = framed.len();
    let total = 4 * (edge * edge);
    let mut rgba: Vec<u8> = Vec::new();
    let mut elem: usize = 0;
    while elem < total
        invariant
            total == 4 * ((edge as int) * (edge as int)),
            is_pow2(edge as nat),
            2 <= edge,
            4 <= (edge as int) * (edge as int),
            edge as nat == edge_for(data@.len()),
            framed@ == frame_spec(data@),
            flen == framed.len(),
            flen == data.len() + 4,
            rgba@.len() == elem,
            elem <= total,
            forall|k: int|
                0 <= k < elem ==> rgba@[k] == encoded_byte(data@, edge as nat, k as nat),
        decreases total - elem,
    {
        let c = elem % 4;
        let b: u8 = if c == 3 {
            255
        } else {
            let pid = elem / 4;
            let px = pid % edge;
            let py = pid / edge;
            proof {
                assert((elem as int) / 4 < (edge as int) * (edge as int));
                lemma_fundamental_div_mod(pid as int, edge as int);
                assert((pid as int) / (edge as int) < edge as int) by (nonlinear_arith)
                    requires
                        pid as int == (edge as int) * ((pid as int) / (edge as int)) + (
                        pid as int) % (edge as int),
                        0 <= (pid as int) % (edge as int),
                        (pid as int) < (edge as int) * (edge as int),
                        1 <= edge as int,
                        0 <= (pid as int) / (edge as int),
                ;
            }
            let hd = xy2d(edge, px, py);
            let bi = 3 * hd + c;
            let v = framed[bi % flen];
            proof {
                assert(v == encoded_byte(data@, edge as nat, elem as nat));
            }
            v
        };
        rgba.push(b);
        proof {
            assert(b == encoded_byte(data@, edge as nat, elem as nat));
        }
        elem = elem + 1;
    }
    proof {
        assert(rgba@ =~= encode_grid_bytes(data@, edge as nat));
    }
    Grid { edge, rgba }
}

/// Reads the byte at linear position `p` of the grid: channel `p % 3`
/// of the pixel at Hilbert distance `p / 3`.
fn read_byte(edge: usize, rgba: &Vec<u8>, p: usize) -> (b: u8)
    requires
        is_pow2(edge as nat),
        rgba.len() == 4 * ((edge as int) * (edge as int)),
        (p as int) < 3 * ((edge as int) * (edge as int)),
    ensures
        b == grid_byte(rgba@, edge as nat, p as nat),
{
    let pix = p / 3;
    let c = p % 3;
    proof {
        assert((p as int) / 3 < (edge as int) * (edge as int));
        lemma_d2xy_range(edge as nat, (p as nat) / 3);
    }
    let xy = d2xy(edge, pix);
    let x = xy.0;
    let y = xy.1;
    proof {
        assert((y as int) * (edge as int) + (x as int) < (edge as int) * (edge
            as int)) by (nonlinear_arith)
            requires
                (x as int) < (edge as int),
                (y as int) < (edge as int),
                0 <= x as int,
                0 <= y as int,
        ;
    }
    rgba[4 * (y * edge + x) + c]
}

/// Decodes a pixel grid back into the byte buffer it carries: after the
/// structural checks, the 4-byte length prefix is read along the Hilbert
/// curve, then that many payload bytes.
pub fn decode(width: usize, height: usize, rgba: &Vec<u8>) -> (r: Result<Vec<u8>, DecodeError>)
    requires
        rgba.len() == 4 * ((width as int) * (height as int)),
    ensures
        decode_matches(r, decode_spec(width as nat, height as nat, rgba@)),
{
    if width != height {
        return Err(DecodeError::NotSquare);
    }
    let edge = height;
    if !is_pow2_exec(edge) {
        return Err(DecodeError::EdgeNotPowerOfTwo);
    }
    let cap = 3 * (edge * edge);
    if cap < 4 {
        return Err(DecodeError::SizeOutOfRange);
    }
    let b0 = read_byte(edge, rgba, 0);
    let b1 = read_byte(edge, rgba, 1);
    let b2 = read_byte(edge, rgba, 2);
    let b3 = read_byte(edge, rgba, 3);
    let size32: u32 = (b0 as u32) + 256 * (b1 as u32) + 65536 * (b2 as u32) + 16777216 * (b3
        as u32);
    let size: usize = size32 as usize;
    proof {
        assert(size as nat == decoded_size(rgba@, edge as nat));
    }
    if size > cap - 4 {
        return Err(DecodeError::SizeOutOfRange);
    }
    let mut out: Vec<u8> = Vec::new();
    let mut p: usize = 4;
    while p < 4 + size
        invariant
            4 <= p <= 4 + size,
            size + 4 <= cap,
            cap == 3 * ((edge as int) * (edge as int)),
            rgba.len() == 4 * ((edge as int) * (edge as int)),
            is_pow2(edge as nat),
            out@.len() == p - 4,
            forall|j: int|
                0 <= j < p - 4 ==> out@[j] == grid_byte(rgba@, edge as nat, (j + 4) as nat),
        decreases 4 + size - p,
    {
        let b = read_byte(edge, rgba, p);
        out.push(b);
        p = p + 1;
    }
    proof {
        assert(out@ =~= Seq::new(
            decoded_size(rgba@, edge as nat),
            |j: int| grid_byte(rgba@, edge as nat, (j + 4) as nat),
        ));
    }
    Ok(out)
}

/// Where each framed byte lands: position `p` of the grid the encoder
/// produces holds the framed byte at `p` reduced modulo the framed
/// length.
pub proof fn lemma_encoded_position(data: Seq<u8>, p: nat)
    requires
        p < 3 * (edge_for(data.len()) * edge_for(data.len())),
    ensures
        grid_byte(encode_grid_bytes(data, edge_for(data.len())), edge_for(data.len()), p)
            == frame_spec(data)[(p % frame_spec(data).len()) as int],
{
    let e: nat = edge_for(data.len());
    lemma_edge_for(data.len());
    let pix: nat = p / 3;
    let c: nat = p % 3;
    assert(pix < e * e);
    lemma_d2xy_range(e, pix);
    let xy: (nat, nat) = d2xy_spec(e, pix);
    let pid: nat = xy.1 * e + xy.0;
    assert(pid < e * e) by (nonlinear_arith)
        requires
            xy.0 < e,
            xy.1 < e,
            pid == xy.1 * e + xy.0,
    ;
    let i: nat = 4 * pid + c;
    assert(i / 4 == pid && i % 4 == c);
    lemma_fundamental_div_mod_converse_div(pid as int, e as int, xy.1 as int, xy.0 as int);
    lemma_fundamental_div_mod_converse_mod(pid as int, e as int, xy.1 as int, xy.0 as int);
    assert(pid / e == xy.1 && pid % e == xy.0);
    lemma_xy2d_d2xy(e, pix);
    assert(xy2d_spec(e, pid % e, pid / e) == pix);
    lemma_fundamental_div_mod(p as int, 3);
    assert(3 * pix + c == p);
    assert(encoded_byte(data, e, i) == frame_spec(data)[(p % frame_spec(data).len()) as int]);
    assert(grid_byte(encode_grid_bytes(data, e), e, p) == encoded_byte(data, e, i));
}

/// The wraparound law: past the framed payload's length, the encoder
/// stores at position `p` the same byte it stores at `p` reduced modulo
/// that length.
pub proof fn lemma_wraparound(data: Seq<u8>, p: nat)
    requires
        frame_spec(data).len() <= p,
        p < 3 * (edge_for(data.len()) * edge_for(data.len())),
    ensures
        grid_byte(encode_grid_bytes(data, edge_for(data.len())), edge_for(data.len()), p)
            == grid_byte(
            encode_grid_bytes(data, edge_for(data.len())),
            edge_for(data.len()),
            p % frame_spec(data).len(),
        ),
{
    let ll: nat = frame_spec(data).len();
    lemma_encoded_position(data, p);
    lemma_encoded_position(data, p % ll);
    lemma_small_mod(p % ll, ll);
}

/// The round trip: decoding the grid the encoder produces for any
/// payload yields exactly that payload.
pub proof fn lemma_round_trip(data: Seq<u8>)
    requires
        data.len() <= u32::MAX,
    ensures
        decode_spec(
            edge_for(data.len()),
            edge_for(data.len()),
            encode_grid_bytes(data, edge_for(data.len())),
        ) == Ok::<Seq<u8>, DecodeError>(data),
{
    let e: nat = edge_for(data.len());
    let enc: Seq<u8> = encode_grid_bytes(data, e);
    let ll: nat = frame_spec(data).len();
    lemma_edge_for(data.len());
    assert(ll == data.len() + 4);
    lemma_encoded_position(data, 0);
    lemma_encoded_position(data, 1);
    lemma_encoded_position(data, 2);
    lemma_encoded_position(data, 3);
    lemma_small_mod(0, ll);
    lemma_small_mod(1, ll);
    lemma_small_mod(2, ll);
    lemma_small_mod(3, ll);
    lemma_le32_roundtrip(data.len());
    assert(decoded_size(enc, e) == data.len());
    let out: Seq<u8> = Seq::new(decoded_size(enc, e), |j: int| grid_byte(enc, e, (j + 4) as nat));
    assert forall|j: int| 0 <= j < data.len() implies out[j] == data[j] by {
        lemma_encoded_position(data, (j + 4) as nat);
        lemma_small_mod((j + 4) as nat, ll);
        assert(frame_spec(data)[j + 4] == data[j]);
    }
    assert(out =~= data);
}

} // verus!

