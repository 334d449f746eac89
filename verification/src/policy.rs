//! The weight-file format of the learned networks: an eight-byte magic, three
//! little-endian `u32` dimensions, then the parameters as `f32`s. This module
//! checks the framing; decoding the floats is left to the caller.

use vstd::prelude::*;

use crate::encoding::{N_ACTIONS, OBS_SIZE};

verus! {

/// Bytes before the parameters: the magic and three dimensions.
pub const HEADER_LEN: usize = 20;
/// Output width of the value network.
pub const VALUE_OUT_DIM: usize = 1;

/// Why a weight file was refused.
#[derive(Debug, PartialEq, Eq, Structural)]
pub enum PolicyLoadError {
    BadMagic,
    /// The file length does not match the dimensions in the header.
    BadLength { expected: usize, actual: usize },
    /// The header's dimensions do not match this build's encoding.
    DimMismatch { obs_size: usize, n_actions: usize },
}

/// Which network a file holds.
#[derive(Clone, Copy, Debug, PartialEq, Eq, Structural)]
pub enum NetKind {
    /// Observation to action logits; magic `PGRLPOL1`.
    Policy,
    /// Observation to one value; magic `PGRLVAL1`.
    Value,
}

/// Dimensions of a network whose file passed every check.
#[derive(Clone, Copy, Debug, PartialEq, Eq, Structural)]
pub struct NetLayout {
    pub obs_size: usize,
    pub hidden: usize,
    pub out_dim: usize,
}

/// The magic of `kind`'s files, in ASCII.
pub open spec fn magic(kind: NetKind) -> Seq<u8> {
    match kind {
        NetKind::Policy => seq![80u8, 71u8, 82u8, 76u8, 80u8, 79u8, 76u8, 49u8],
        NetKind::Value => seq![80u8, 71u8, 82u8, 76u8, 86u8, 65u8, 76u8, 49u8],
    }
}

/// The output width `kind`'s header must declare.
pub open spec fn expected_out(kind: NetKind) -> int {
    match kind {
        NetKind::Policy => N_ACTIONS as int,
        NetKind::Value => VALUE_OUT_DIM as int,
    }
}

/// Header dimension `i` (0: observation, 1: hidden, 2: output), little endian.
pub open spec fn header_dim(bytes: Seq<u8>, i: int) -> int {
    let at = 8 + 4 * i;
    bytes[at] as int + bytes[at + 1] as int * 0x100 + bytes[at + 2] as int * 0x1_0000 + bytes[at + 3] as int * 0x100_0000
}

/// Parameters of a two-hidden-layer network: three weight matrices and
/// three bias vectors.
pub open spec fn param_count(obs: int, hidden: int, out: int) -> int {
    hidden * obs + hidden + hidden * hidden + hidden + out * hidden + out
}

/// The file length the header's dimensions call for.
pub open spec fn expected_len(obs: int, hidden: int, out: int) -> int {
    HEADER_LEN + 4 * param_count(obs, hidden, out)
}

/// What checking a `kind` file gives: a missing magic first, then foreign
/// dimensions, then a length that does not fit them (reported capped at
/// `usize::MAX`).
pub open spec fn layout_result(bytes: Seq<u8>, kind: NetKind) -> Result<NetLayout, PolicyLoadError> {
    if bytes.len() < HEADER_LEN || bytes.subrange(0, 8) != magic(kind) {
        Err(PolicyLoadError::BadMagic)
    } else {
        let obs = header_dim(bytes, 0);
        let hidden = header_dim(bytes, 1);
        let out = header_dim(bytes, 2);
        if obs != OBS_SIZE || out != expected_out(kind) {
            Err(PolicyLoadError::DimMismatch { obs_size: obs as usize, n_actions: out as usize })
        } else if bytes.len() != expected_len(obs, hidden, out) {
            let e = expected_len(obs, hidden, out);
            Err(PolicyLoadError::BadLength {
                expected: if e <= usize::MAX { e as usize } else { usize::MAX },
                actual: bytes.len() as usize,
            })
        } else {
            Ok(NetLayout { obs_size: obs as usize, hidden: hidden as usize, out_dim: out as usize })
        }
    }
}

fn magic_byte(kind: NetKind, i: usize) -> (r: u8)
    requires
        i < 8,
    ensures
        r == magic(kind)[i as int],
{
    let policy: [u8; 8] = [80u8, 71u8, 82u8, 76u8, 80u8, 79u8, 76u8, 49u8];
    let value: [u8; 8] = [80u8, 71u8, 82u8, 76u8, 86u8, 65u8, 76u8, 49u8];
    match kind {
        NetKind::Policy => {
            assert(policy@ =~= magic(kind));
            policy[i]
        },
        NetKind::Value => {
            assert(value@ =~= magic(kind));
            value[i]
        },
    }
}

fn read_dim(bytes: &[u8], i: usize) -> (r: u32)
    requires
        i < 3,
        bytes@.len() >= HEADER_LEN,
    ensures
        r == header_dim(bytes@, i as int),
{
    let at = 8 + 4 * i;
    let r = bytes[at] as u32 + bytes[at + 1] as u32 * 0x100 + bytes[at + 2] as u32 * 0x1_0000
        + bytes[at + 3] as u32 * 0x100_0000;
    r
}

/// Checks the framing of a `kind` weight file and returns its dimensions.
pub fn check_layout(bytes: &[u8], kind: NetKind) -> (r: Result<NetLayout, PolicyLoadError>)
    ensures
        r == layout_result(bytes@, kind),
{
    if bytes.len() < HEADER_LEN {
        return Err(PolicyLoadError::BadMagic);
    }
    let mut i: usize = 0;
    while i < 8
        invariant
            i <= 8,
            bytes@.len() >= HEADER_LEN,
            forall|j: int| 0 <= j < i ==> bytes@[j] == magic(kind)[j],
        decreases 8 - i,
    {
        if bytes[i] != magic_byte(kind, i) {
            proof {
                assert(bytes@.subrange(0, 8)[i as int] != magic(kind)[i as int]);
            }
            return Err(PolicyLoadError::BadMagic);
        }
        i = i + 1;
    }
    proof {
        assert(bytes@.subrange(0, 8) =~= magic(kind));
    }
    let obs = read_dim(bytes, 0) as usize;
    let hidden = read_dim(bytes, 1) as usize;
    let out = read_dim(bytes, 2) as usize;
    let want_out = match kind {
        NetKind::Policy => N_ACTIONS,
        NetKind::Value => VALUE_OUT_DIM,
    };
    if obs != OBS_SIZE || out != want_out {
        return Err(PolicyLoadError::DimMismatch { obs_size: obs, n_actions: out });
    }
    let o = obs as u128;
    let h = hidden as u128;
    let d = out as u128;
    proof {
        assert(h * o <= 0x1_0000_0000 * 0x1_0000_0000) by (nonlinear_arith)
            requires h < 0x1_0000_0000, o < 0x1_0000_0000;
        assert(h * h <= 0x1_0000_0000 * 0x1_0000_0000) by (nonlinear_arith)
            requires h < 0x1_0000_0000;
        assert(d * h <= 0x1_0000_0000 * 0x1_0000_0000) by (nonlinear_arith)
            requires h < 0x1_0000_0000, d < 0x1_0000_0000;
    }
    let params = h * o + h + h * h + h + d * h + d;
    let expected = HEADER_LEN as u128 + 4 * params;
    if bytes.len() as u128 != expected {
        let e = if expected <= usize::MAX as u128 { expected as usize } else { usize::MAX };
        return Err(PolicyLoadError::BadLength { expected: e, actual: bytes.len() });
    }
    Ok(NetLayout { obs_size: obs, hidden, out_dim: out })
}

} // verus!
