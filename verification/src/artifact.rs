//! Where a model's tensors go: which tensor of a container each slot of a
//! layer is filled from, and what may be found there.

use crate::text::{around, decimal};
use crate::types::ComputeError;
use crate::weights::{Bf16Weight, LayerWeights, Nvfp4DevicePlane};
use vstd::prelude::*;

verus! {

/// A slot of a layer that a tensor fills.
#[derive(Debug, Clone, Copy, PartialEq, Eq, Structural)]
pub enum TensorSlot {
    Qkv,
    AttnOut,
    QueryNorm,
    KeyNorm,
    GdnIn,
    GdnOut,
    GdnConv,
    GdnAb,
    NormIn,
    NormPost,
    MlpGateUp,
    MlpDown,
}

/// What a slot takes.
#[derive(Debug, Clone, Copy, PartialEq, Eq, Structural)]
pub enum Takes {
    /// A device-resident plane and nothing else.
    Plane,
    /// A device-resident plane, or an unquantized matrix where there is none.
    PlaneOrMatrix,
    Matrix,
    Vector,
}

/// A slot, the tensor that fills it and what it takes.
#[derive(Debug)]
pub struct Route {
    pub slot: TensorSlot,
    pub name: String,
    pub takes: Takes,
}

/// A tensor as it lies in its container.
#[derive(Debug)]
pub struct HostTensor {
    pub is_bf16: bool,
    pub shape: Vec<u64>,
    /// Little-endian.
    pub data: Vec<u8>,
}

/// What a slot is filled with.
#[derive(Debug)]
pub enum Found {
    Plane(Nvfp4DevicePlane),
    Matrix(Bf16Weight),
    Vector(Vec<u16>),
}

/// Whether layer `i` of the Qwen 3.8-27B stack attends.
pub open spec fn attends(i: int) -> bool {
    (i + 1) % 4 == 0
}

/// The slots of layer `i`, in the order they are filled.
pub open spec fn slots(i: int) -> Seq<TensorSlot> {
    (if attends(i) {
        seq![
            TensorSlot::Qkv,
            TensorSlot::AttnOut,
            TensorSlot::QueryNorm,
            TensorSlot::KeyNorm,
        ]
    } else {
        seq![TensorSlot::GdnIn, TensorSlot::GdnOut, TensorSlot::GdnConv, TensorSlot::GdnAb]
    }) + seq![
        TensorSlot::NormIn,
        TensorSlot::NormPost,
        TensorSlot::MlpGateUp,
        TensorSlot::MlpDown,
    ]
}

/// What a slot takes.
pub open spec fn takes_of(slot: TensorSlot) -> Takes {
    match slot {
        TensorSlot::Qkv | TensorSlot::AttnOut | TensorSlot::GdnOut => Takes::PlaneOrMatrix,
        TensorSlot::GdnIn | TensorSlot::MlpGateUp | TensorSlot::MlpDown => Takes::Plane,
        TensorSlot::GdnConv | TensorSlot::GdnAb => Takes::Matrix,
        _ => Takes::Vector,
    }
}

/// The name of the tensor that fills a slot, inside its layer.
pub open spec fn tensor_of(slot: TensorSlot) -> Seq<char> {
    match slot {
        TensorSlot::Qkv => "/attention/query_key_gate_value"@,
        TensorSlot::AttnOut => "/attention/output"@,
        TensorSlot::QueryNorm => "/attention/query_norm"@,
        TensorSlot::KeyNorm => "/attention/key_norm"@,
        TensorSlot::GdnIn => "/gdn/query_key_value_z"@,
        TensorSlot::GdnOut => "/gdn/output"@,
        TensorSlot::GdnConv => "/gdn/convolution"@,
        TensorSlot::GdnAb => "/gdn/a_b_projection"@,
        TensorSlot::NormIn => "/input_norm"@,
        TensorSlot::NormPost => "/post_attention_norm"@,
        TensorSlot::MlpGateUp => "/mlp/gate_up"@,
        TensorSlot::MlpDown => "/mlp/down"@,
    }
}

impl Route {
    /// The route of a slot of layer `layer`.
    pub open spec fn leads_to(self, layer: int, slot: TensorSlot) -> bool {
        &&& self.slot == slot
        &&& self.takes == takes_of(slot)
        &&& self.name@ == "text/layers/"@ + decimal(layer as nat) + tensor_of(slot)
    }

    /// The route of a slot of layer `layer`.
    pub fn new(layer: usize, slot: TensorSlot) -> (route: Route)
        ensures
            route.leads_to(layer as int, slot),
            ({
                let inside = "text/layers/"@ + decimal(layer as nat);
                match slot {
                    TensorSlot::Qkv => route.name@ == inside + "/attention/query_key_gate_value"@
                        && route.takes == Takes::PlaneOrMatrix,
                    TensorSlot::AttnOut => route.name@ == inside + "/attention/output"@
                        && route.takes == Takes::PlaneOrMatrix,
                    TensorSlot::QueryNorm => route.name@ == inside + "/attention/query_norm"@
                        && route.takes == Takes::Vector,
                    TensorSlot::KeyNorm => route.name@ == inside + "/attention/key_norm"@
                        && route.takes == Takes::Vector,
                    TensorSlot::GdnIn => route.name@ == inside + "/gdn/query_key_value_z"@
                        && route.takes == Takes::Plane,
                    TensorSlot::GdnOut => route.name@ == inside + "/gdn/output"@ && route.takes
                        == Takes::PlaneOrMatrix,
                    TensorSlot::GdnConv => route.name@ == inside + "/gdn/convolution"@
                        && route.takes == Takes::Matrix,
                    TensorSlot::GdnAb => route.name@ == inside + "/gdn/a_b_projection"@
                        && route.takes == Takes::Matrix,
                    TensorSlot::NormIn => route.name@ == inside + "/input_norm"@ && route.takes
                        == Takes::Vector,
                    TensorSlot::NormPost => route.name@ == inside + "/post_attention_norm"@
                        && route.takes == Takes::Vector,
                    TensorSlot::MlpGateUp => route.name@ == inside + "/mlp/gate_up"@
                        && route.takes == Takes::Plane,
                    TensorSlot::MlpDown => route.name@ == inside + "/mlp/down"@ && route.takes
                        == Takes::Plane,
                }
            }),
    {
        let tensor: &str = match slot {
            TensorSlot::Qkv => "/attention/query_key_gate_value",
            TensorSlot::AttnOut => "/attention/output",
            TensorSlot::QueryNorm => "/attention/query_norm",
            TensorSlot::KeyNorm => "/attention/key_norm",
            TensorSlot::GdnIn => "/gdn/query_key_value_z",
            TensorSlot::GdnOut => "/gdn/output",
            TensorSlot::GdnConv => "/gdn/convolution",
            TensorSlot::GdnAb => "/gdn/a_b_projection",
            TensorSlot::NormIn => "/input_norm",
            TensorSlot::NormPost => "/post_attention_norm",
            TensorSlot::MlpGateUp => "/mlp/gate_up",
            TensorSlot::MlpDown => "/mlp/down",
        };
        let takes = match slot {
            TensorSlot::Qkv | TensorSlot::AttnOut | TensorSlot::GdnOut => Takes::PlaneOrMatrix,
            TensorSlot::GdnIn | TensorSlot::MlpGateUp | TensorSlot::MlpDown => Takes::Plane,
            TensorSlot::GdnConv | TensorSlot::GdnAb => Takes::Matrix,
            _ => Takes::Vector,
        };
        Route { slot, name: around("text/layers/", layer as u64, tensor), takes }
    }
}

/// The routes of layer `layer`, in the order they are taken.
pub fn layer_routes(layer: usize) -> (routes: Vec<Route>)
    requires
        layer < usize::MAX,
    ensures
        routes@.len() == slots(layer as int).len(),
        forall|k: int|
            0 <= k < routes@.len() ==> (#[trigger] routes@[k]).leads_to(
                layer as int,
                slots(layer as int)[k],
            ),
{
    let mut routes: Vec<Route> = Vec::new();
    if (layer + 1) % 4 == 0 {
        routes.push(Route::new(layer, TensorSlot::Qkv));
        routes.push(Route::new(layer, TensorSlot::AttnOut));
        routes.push(Route::new(layer, TensorSlot::QueryNorm));
        routes.push(Route::new(layer, TensorSlot::KeyNorm));
    } else {
        routes.push(Route::new(layer, TensorSlot::GdnIn));
        routes.push(Route::new(layer, TensorSlot::GdnOut));
        routes.push(Route::new(layer, TensorSlot::GdnConv));
        routes.push(Route::new(layer, TensorSlot::GdnAb));
    }
    routes.push(Route::new(layer, TensorSlot::NormIn));
    routes.push(Route::new(layer, TensorSlot::NormPost));
    routes.push(Route::new(layer, TensorSlot::MlpGateUp));
    routes.push(Route::new(layer, TensorSlot::MlpDown));
    assert forall|k: int| 0 <= k < routes@.len() implies (#[trigger] routes@[k]).leads_to(
        layer as int,
        slots(layer as int)[k],
    ) by {
        assert(k == 0 || k == 1 || k == 2 || k == 3 || k == 4 || k == 5 || k == 6 || k == 7);
    }
    routes
}

/// The words of a little-endian buffer.
pub open spec fn words(data: Seq<u8>) -> Seq<u16> {
    Seq::new(data.len() / 2, |i: int| (data[2 * i] + 256 * data[2 * i + 1]) as u16)
}

/// Each word has its low byte first, and the words stand in the order of their
/// bytes.
pub proof fn words_have_their_low_byte_first(data: Seq<u8>, i: int)
    requires
        0 <= i < data.len() / 2,
    ensures
        words(data).len() == data.len() / 2,
        words(data)[i] % 256 == data[2 * i],
        words(data)[i] / 256 == data[2 * i + 1],
{
}

/// The layers that attend are every fourth, and a layer has eight slots: four of
/// its kind and four of every layer, each once.
pub proof fn a_layer_has_the_slots_of_its_kind(layer: int, slot: TensorSlot)
    requires
        0 <= layer,
    ensures
        attends(layer) <==> layer % 4 == 3,
        attends(layer) <==> crate::model::qwen_kind(layer) == crate::model::LayerKind::Gqa,
        slots(layer).len() == 8,
        slots(layer).contains(slot) <==> match slot {
            TensorSlot::Qkv | TensorSlot::AttnOut | TensorSlot::QueryNorm | TensorSlot::KeyNorm =>
                layer % 4 == 3,
            TensorSlot::GdnIn | TensorSlot::GdnOut | TensorSlot::GdnConv | TensorSlot::GdnAb =>
                layer % 4 != 3,
            _ => true,
        },
        forall|a: int, b: int|
            0 <= a < b < 8 ==> #[trigger] slots(layer)[a] != #[trigger] slots(layer)[b],
{
    let all = slots(layer);
    assert(all.len() == 8);
    assert(all[4] == TensorSlot::NormIn && all[5] == TensorSlot::NormPost && all[6]
        == TensorSlot::MlpGateUp && all[7] == TensorSlot::MlpDown);
    if attends(layer) {
        assert(all[0] == TensorSlot::Qkv && all[1] == TensorSlot::AttnOut && all[2]
            == TensorSlot::QueryNorm && all[3] == TensorSlot::KeyNorm);
    } else {
        assert(all[0] == TensorSlot::GdnIn && all[1] == TensorSlot::GdnOut && all[2]
            == TensorSlot::GdnConv && all[3] == TensorSlot::GdnAb);
    }
    assert forall|a: int, b: int| 0 <= a < b < 8 implies #[trigger] all[a] != #[trigger] all[b] by {
        slots_differ(layer, a, b);
    }
    if all.contains(slot) {
        let k = choose|k: int| 0 <= k < all.len() && all[k] == slot;
        assert(k == 0 || k == 1 || k == 2 || k == 3 || k == 4 || k == 5 || k == 6 || k == 7);
    }
}

/// The words of a little-endian buffer.
fn read_words(data: &Vec<u8>) -> (out: Vec<u16>)
    ensures
        out@ == words(data@),
{
    let n: usize = data.len() / 2;
    let mut out: Vec<u16> = Vec::new();
    let mut i: usize = 0;
    while i < n
        invariant
            i <= n,
            n == data.len() / 2,
            out@ == words(data@).take(i as int),
        decreases n - i,
    {
        let lo: u16 = data[2 * i] as u16;
        let hi: u16 = data[2 * i + 1] as u16;
        out.push(lo + 256 * hi);
        assert(out@ =~= words(data@).take(i + 1));
        i = i + 1;
    }
    assert(out@ =~= words(data@));
    out
}

impl HostTensor {
    /// A bf16 matrix, as large as its shape says.
    pub open spec fn is_matrix(self) -> bool {
        &&& self.is_bf16
        &&& self.shape@.len() == 2
        &&& self.data@.len() == 2 * (self.shape@[0] * self.shape@[1])
    }

    /// A bf16 vector, as long as its shape says.
    pub open spec fn is_vector(self) -> bool {
        &&& self.is_bf16
        &&& self.shape@.len() == 1
        &&& self.data@.len() == 2 * self.shape@[0]
    }

    /// The tensor as a bf16 matrix.
    pub fn matrix(&self) -> (matrix: Result<Bf16Weight, ComputeError>)
        ensures
            match matrix {
                Ok(w) => self.is_matrix() && w.m == self.shape@[0] && w.k == self.shape@[1]
                    && w.data@ == words(self.data@),
                Err(e) => !self.is_matrix() && e == ComputeError::Kernel(-1i32),
            },
            matrix is Ok <==> self.is_bf16 && self.shape@.len() == 2 && self.data@.len() == 2 * (
            self.shape@[0] * self.shape@[1]),
            matrix matches Ok(w) ==> w.data@.len() == w.m * w.k,
    {
        if !self.is_bf16 || self.shape.len() != 2 {
            return Err(ComputeError::Kernel(-1));
        }
        let m: u64 = self.shape[0];
        let k: u64 = self.shape[1];
        proof {
            assert(0 <= m * k <= u64::MAX * u64::MAX) by (nonlinear_arith)
                requires
                    0 <= m <= u64::MAX,
                    0 <= k <= u64::MAX,
            ;
        }
        let elements: u128 = m as u128 * k as u128;
        if self.data.len() % 2 != 0 || (self.data.len() / 2) as u128 != elements {
            return Err(ComputeError::Kernel(-1));
        }
        Ok(Bf16Weight { data: read_words(&self.data), m, k })
    }

    /// The tensor as a bf16 vector.
    pub fn vector(&self) -> (vector: Result<Vec<u16>, ComputeError>)
        ensures
            match vector {
                Ok(v) => self.is_vector() && v@ == words(self.data@),
                Err(e) => !self.is_vector() && e == ComputeError::Kernel(-1i32),
            },
            vector is Ok <==> self.is_bf16 && self.shape@.len() == 1 && self.data@.len() == 2
                * self.shape@[0],
            vector matches Ok(v) ==> v@.len() == self.shape@[0],
    {
        if !self.is_bf16 || self.shape.len() != 1 {
            return Err(ComputeError::Kernel(-1));
        }
        let n: u64 = self.shape[0];
        if self.data.len() as u128 != 2 * (n as u128) {
            return Err(ComputeError::Kernel(-1));
        }
        Ok(read_words(&self.data))
    }
}

/// Whether what lies under a slot's name can fill it: a plane wherever one is
/// taken, otherwise the tensor itself.
pub open spec fn fills(
    takes: Takes,
    plane: Option<Nvfp4DevicePlane>,
    tensor: Option<HostTensor>,
) -> bool {
    match takes {
        Takes::Plane => plane is Some,
        Takes::PlaneOrMatrix => plane is Some || (tensor matches Some(t) && t.is_matrix()),
        Takes::Matrix => tensor matches Some(t) && t.is_matrix(),
        Takes::Vector => tensor matches Some(t) && t.is_vector(),
    }
}

/// Choose what a slot is filled with, from what lies under its name.
pub fn fill(takes: Takes, plane: Option<Nvfp4DevicePlane>, tensor: Option<&HostTensor>) -> (found:
    Result<Found, ComputeError>)
    ensures
        found is Ok <==> fills(
            takes,
            plane,
            match tensor {
                Some(t) => Some(*t),
                None => None,
            },
        ),
        found matches Err(e) ==> e == ComputeError::Kernel(-1i32),
        // A plane is taken wherever one is offered and can be.
        plane is Some && (takes == Takes::Plane || takes == Takes::PlaneOrMatrix) ==> (
        found matches Ok(Found::Plane(p)) && plane == Some(p)),
        plane is None && takes == Takes::Plane ==> found is Err,
        tensor is None && (plane is None || takes == Takes::Matrix || takes == Takes::Vector)
            ==> found is Err,
        match found {
            Ok(Found::Plane(p)) => plane == Some(p) && (takes == Takes::Plane || takes
                == Takes::PlaneOrMatrix),
            Ok(Found::Matrix(w)) => (takes == Takes::Matrix || takes == Takes::PlaneOrMatrix
                && plane is None) && (tensor matches Some(t) && w.m == t.shape@[0] && w.k
                == t.shape@[1] && w.data@ == words(t.data@)),
            Ok(Found::Vector(v)) => takes == Takes::Vector && (tensor matches Some(t) && v@
                == words(t.data@)),
            Err(_) => true,
        },
{
    let planar: bool = takes == Takes::Plane || takes == Takes::PlaneOrMatrix;
    if planar {
        if let Some(p) = plane {
            return Ok(Found::Plane(p));
        }
    }
    if takes == Takes::Plane {
        return Err(ComputeError::Kernel(-1));
    }
    match tensor {
        None => Err(ComputeError::Kernel(-1)),
        Some(t) => if takes == Takes::Vector {
            match t.vector() {
                Ok(v) => Ok(Found::Vector(v)),
                Err(e) => Err(e),
            }
        } else {
            match t.matrix() {
                Ok(w) => Ok(Found::Matrix(w)),
                Err(e) => Err(e),
            }
        },
    }
}

/// The layer with a slot filled by a device plane.
pub open spec fn with_plane(lw: LayerWeights, slot: TensorSlot, p: Nvfp4DevicePlane) -> LayerWeights {
    let dev = lw.dev;
    LayerWeights {
        dev: match slot {
            TensorSlot::Qkv => crate::weights::LayerDeviceSlots { qkv: Some(p), ..dev },
            TensorSlot::AttnOut => crate::weights::LayerDeviceSlots { attn_out: Some(p), ..dev },
            TensorSlot::GdnIn => crate::weights::LayerDeviceSlots { gdn_in: Some(p), ..dev },
            TensorSlot::GdnOut => crate::weights::LayerDeviceSlots { gdn_out: Some(p), ..dev },
            TensorSlot::MlpGateUp => crate::weights::LayerDeviceSlots {
                mlp_gate_up: Some(p),
                ..dev
            },
            TensorSlot::MlpDown => crate::weights::LayerDeviceSlots { mlp_down: Some(p), ..dev },
            _ => dev,
        },
        ..lw
    }
}

/// The layer with a slot filled by a matrix.
pub open spec fn with_matrix(lw: LayerWeights, slot: TensorSlot, w: Bf16Weight) -> LayerWeights {
    match slot {
        TensorSlot::Qkv => LayerWeights { qkv_bf16: w, ..lw },
        TensorSlot::AttnOut => LayerWeights { attn_out_bf16: w, ..lw },
        TensorSlot::GdnOut => LayerWeights { gdn_out_bf16: w, ..lw },
        TensorSlot::GdnConv => LayerWeights { gdn_conv: w, ..lw },
        TensorSlot::GdnAb => LayerWeights { gdn_ab: w, ..lw },
        _ => lw,
    }
}

/// Fill a slot of a layer with a device plane.
pub fn place_plane(lw: LayerWeights, slot: TensorSlot, plane: Nvfp4DevicePlane) -> (filled:
    LayerWeights)
    ensures
        filled == with_plane(lw, slot, plane),
{
    let mut lw = lw;
    match slot {
        TensorSlot::Qkv => {
            lw.dev.qkv = Some(plane);
        },
        TensorSlot::AttnOut => {
            lw.dev.attn_out = Some(plane);
        },
        TensorSlot::GdnIn => {
            lw.dev.gdn_in = Some(plane);
        },
        TensorSlot::GdnOut => {
            lw.dev.gdn_out = Some(plane);
        },
        TensorSlot::MlpGateUp => {
            lw.dev.mlp_gate_up = Some(plane);
        },
        TensorSlot::MlpDown => {
            lw.dev.mlp_down = Some(plane);
        },
        _ => {},
    }
    lw
}

/// Fill a slot of a layer with a matrix.
pub fn place_matrix(lw: LayerWeights, slot: TensorSlot, matrix: Bf16Weight) -> (filled: LayerWeights)
    ensures
        filled == with_matrix(lw, slot, matrix),
{
    let mut lw = lw;
    match slot {
        TensorSlot::Qkv => {
            lw.qkv_bf16 = matrix;
        },
        TensorSlot::AttnOut => {
            lw.attn_out_bf16 = matrix;
        },
        TensorSlot::GdnOut => {
            lw.gdn_out_bf16 = matrix;
        },
        TensorSlot::GdnConv => {
            lw.gdn_conv = matrix;
        },
        TensorSlot::GdnAb => {
            lw.gdn_ab = matrix;
        },
        _ => {},
    }
    lw
}

/// Fill a slot of a layer with a vector.
pub fn place_vector(lw: LayerWeights, slot: TensorSlot, vector: Vec<u16>) -> (filled: LayerWeights)
    ensures
        match slot {
            TensorSlot::NormIn => filled == (LayerWeights { norm_in: vector, ..lw }),
            TensorSlot::NormPost => filled == (LayerWeights { norm_post: vector, ..lw }),
            TensorSlot::QueryNorm => filled.qk_norm@ == lw.qk_norm@.update(0, vector) && filled
                == (LayerWeights { qk_norm: filled.qk_norm, ..lw }),
            TensorSlot::KeyNorm => filled.qk_norm@ == lw.qk_norm@.update(1, vector) && filled == (
            LayerWeights { qk_norm: filled.qk_norm, ..lw }),
            _ => filled == lw,
        },
{
    let mut lw = lw;
    match slot {
        TensorSlot::NormIn => {
            lw.norm_in = vector;
        },
        TensorSlot::NormPost => {
            lw.norm_post = vector;
        },
        TensorSlot::QueryNorm => {
            lw.qk_norm[0] = vector;
        },
        TensorSlot::KeyNorm => {
            lw.qk_norm[1] = vector;
        },
        _ => {},
    }
    lw
}

/// What lies under a slot's name in a container.
#[derive(Debug)]
pub struct Offer {
    pub plane: Option<Nvfp4DevicePlane>,
    pub tensor: Option<HostTensor>,
}

impl Offer {
    /// Whether the slot can be filled from it.
    pub open spec fn serves(self, slot: TensorSlot) -> bool {
        fills(takes_of(slot), self.plane, self.tensor)
    }

    /// `w` is the tensor, read as a matrix.
    pub open spec fn is_read_as(self, w: Bf16Weight) -> bool {
        self.tensor matches Some(t) && w.m == t.shape@[0] && w.k == t.shape@[1] && w.data@ == words(
            t.data@,
        )
    }

    /// `values` is the tensor, read as a vector.
    pub open spec fn is_vector_of(self, values: Seq<u16>) -> bool {
        self.tensor matches Some(t) && values == words(t.data@)
    }

    /// The plane goes to the device, where there is one, and the tensor to the
    /// matrix otherwise; the other of the two stays.
    pub open spec fn goes_to(
        self,
        was_dev: Option<Nvfp4DevicePlane>,
        was: Bf16Weight,
        dev: Option<Nvfp4DevicePlane>,
        w: Bf16Weight,
    ) -> bool {
        if self.plane is Some {
            dev == self.plane && w == was
        } else {
            self.is_read_as(w) && dev == was_dev
        }
    }
}

/// Whether a slot that held what it does in `was` holds what was offered for
/// it.
pub open spec fn sits(was: LayerWeights, lw: LayerWeights, slot: TensorSlot, offer: Offer) -> bool {
    match slot {
        TensorSlot::Qkv => offer.goes_to(was.dev.qkv, was.qkv_bf16, lw.dev.qkv, lw.qkv_bf16),
        TensorSlot::AttnOut => offer.goes_to(
            was.dev.attn_out,
            was.attn_out_bf16,
            lw.dev.attn_out,
            lw.attn_out_bf16,
        ),
        TensorSlot::GdnOut => offer.goes_to(
            was.dev.gdn_out,
            was.gdn_out_bf16,
            lw.dev.gdn_out,
            lw.gdn_out_bf16,
        ),
        TensorSlot::GdnIn => lw.dev.gdn_in == offer.plane,
        TensorSlot::MlpGateUp => lw.dev.mlp_gate_up == offer.plane,
        TensorSlot::MlpDown => lw.dev.mlp_down == offer.plane,
        TensorSlot::GdnConv => offer.is_read_as(lw.gdn_conv),
        TensorSlot::GdnAb => offer.is_read_as(lw.gdn_ab),
        TensorSlot::NormIn => offer.is_vector_of(lw.norm_in@),
        TensorSlot::NormPost => offer.is_vector_of(lw.norm_post@),
        TensorSlot::QueryNorm => offer.is_vector_of(lw.qk_norm@[0]@),
        TensorSlot::KeyNorm => offer.is_vector_of(lw.qk_norm@[1]@),
    }
}

/// Whether a slot of two layers holds the same.
pub open spec fn slot_stands(a: LayerWeights, b: LayerWeights, slot: TensorSlot) -> bool {
    match slot {
        TensorSlot::Qkv => b.dev.qkv == a.dev.qkv && b.qkv_bf16 == a.qkv_bf16,
        TensorSlot::AttnOut => b.dev.attn_out == a.dev.attn_out && b.attn_out_bf16
            == a.attn_out_bf16,
        TensorSlot::GdnOut => b.dev.gdn_out == a.dev.gdn_out && b.gdn_out_bf16 == a.gdn_out_bf16,
        TensorSlot::GdnIn => b.dev.gdn_in == a.dev.gdn_in,
        TensorSlot::MlpGateUp => b.dev.mlp_gate_up == a.dev.mlp_gate_up,
        TensorSlot::MlpDown => b.dev.mlp_down == a.dev.mlp_down,
        TensorSlot::GdnConv => b.gdn_conv == a.gdn_conv,
        TensorSlot::GdnAb => b.gdn_ab == a.gdn_ab,
        TensorSlot::NormIn => b.norm_in == a.norm_in,
        TensorSlot::NormPost => b.norm_post == a.norm_post,
        TensorSlot::QueryNorm => b.qk_norm@[0] == a.qk_norm@[0],
        TensorSlot::KeyNorm => b.qk_norm@[1] == a.qk_norm@[1],
    }
}

/// Whether two layers differ in nothing but what their slots hold.
pub open spec fn differ_in_slots(a: LayerWeights, b: LayerWeights) -> bool {
    b == (LayerWeights {
        norm_in: b.norm_in,
        norm_post: b.norm_post,
        gdn_conv: b.gdn_conv,
        gdn_ab: b.gdn_ab,
        qk_norm: b.qk_norm,
        qkv_bf16: b.qkv_bf16,
        attn_out_bf16: b.attn_out_bf16,
        gdn_out_bf16: b.gdn_out_bf16,
        dev: b.dev,
        ..a
    })
}

/// Fill one slot of a layer from what was offered for it.
pub fn fill_slot(lw: LayerWeights, slot: TensorSlot, offer: &Offer) -> (filled: Result<
    LayerWeights,
    ComputeError,
>)
    ensures
        filled is Ok <==> offer.serves(slot),
        match filled {
            Ok(after) => sits(lw, after, slot, *offer) && differ_in_slots(lw, after) && forall|
                other: TensorSlot,
            |
                other != slot ==> #[trigger] slot_stands(lw, after, other),
            Err(e) => e == ComputeError::Kernel(-1i32),
        },
{
    let route_takes = match slot {
        TensorSlot::Qkv | TensorSlot::AttnOut | TensorSlot::GdnOut => Takes::PlaneOrMatrix,
        TensorSlot::GdnIn | TensorSlot::MlpGateUp | TensorSlot::MlpDown => Takes::Plane,
        TensorSlot::GdnConv | TensorSlot::GdnAb => Takes::Matrix,
        _ => Takes::Vector,
    };
    match fill(route_takes, offer.plane, offer.tensor.as_ref()) {
        Err(e) => Err(e),
        Ok(Found::Plane(plane)) => Ok(place_plane(lw, slot, plane)),
        Ok(Found::Matrix(matrix)) => Ok(place_matrix(lw, slot, matrix)),
        Ok(Found::Vector(vector)) => Ok(place_vector(lw, slot, vector)),
    }
}

/// Fill layer `layer` from what was offered for its routes, in their order.
/// Where one cannot be filled the layer is not.
pub fn fill_layer(layer: usize, lw: LayerWeights, offers: &Vec<Offer>) -> (filled: Result<
    LayerWeights,
    ComputeError,
>)
    requires
        layer < usize::MAX,
        offers@.len() == slots(layer as int).len(),
    ensures
        filled is Ok <==> forall|k: int|
            0 <= k < offers@.len() ==> (#[trigger] offers@[k]).serves(slots(layer as int)[k]),
        match filled {
            Ok(after) => differ_in_slots(lw, after) && (forall|k: int|
                0 <= k < offers@.len() ==> sits(
                    lw,
                    after,
                    slots(layer as int)[k],
                    #[trigger] offers@[k],
                )) && forall|other: TensorSlot|
                !slots(layer as int).contains(other) ==> #[trigger] slot_stands(lw, after, other),
            Err(e) => e == ComputeError::Kernel(-1i32),
        },
{
    let routes = layer_routes(layer);
    let ghost all = slots(layer as int);
    let ghost first = lw;
    let mut lw = lw;
    let mut n: usize = 0;
    while n < routes.len()
        invariant
            n <= routes@.len(),
            routes@.len() == all.len(),
            offers@.len() == all.len(),
            all == slots(layer as int),
            forall|k: int|
                0 <= k < routes@.len() ==> (#[trigger] routes@[k]).leads_to(layer as int, all[k]),
            differ_in_slots(first, lw),
            forall|k: int| 0 <= k < n ==> (#[trigger] offers@[k]).serves(all[k]),
            forall|k: int| 0 <= k < n ==> sits(first, lw, all[k], #[trigger] offers@[k]),
            forall|other: TensorSlot|
                !all.take(n as int).contains(other) ==> #[trigger] slot_stands(first, lw, other),
        decreases routes@.len() - n,
    {
        let ghost before = lw;
        let slot: TensorSlot = routes[n].slot;
        assert(routes@[n as int].leads_to(layer as int, all[n as int]));
        match fill_slot(lw, slot, &offers[n]) {
            Err(e) => {
                assert(!offers@[n as int].serves(all[n as int]));
                return Err(e);
            },
            Ok(next) => {
                lw = next;
            },
        }
        proof {
            assert(slot_stands(first, before, all[n as int])) by {
                let done = all.take(n as int);
                if done.contains(all[n as int]) {
                    let k = choose|k: int| 0 <= k < done.len() && done[k] == all[n as int];
                    slots_differ(layer as int, k, n as int);
                }
            }
            assert forall|k: int| 0 <= k < n implies sits(
                first,
                lw,
                all[k],
                #[trigger] offers@[k],
            ) by {
                assert(sits(first, before, all[k], offers@[k]));
                slots_differ(layer as int, k, n as int);
                assert(slot_stands(before, lw, all[k]));
            }
            assert forall|other: TensorSlot|
                !all.take(n + 1).contains(other) implies #[trigger] slot_stands(
                first,
                lw,
                other,
            ) by {
                assert(all.take(n + 1)[n as int] == all[n as int]);
                if all.take(n as int).contains(other) {
                    let k = choose|k: int| 0 <= k < n && all.take(n as int)[k] == other;
                    assert(all.take(n + 1)[k] == other);
                }
                assert(slot_stands(first, before, other));
                assert(slot_stands(before, lw, other));
            }
        }
        n = n + 1;
    }
    assert(all.take(n as int) =~= all);
    Ok(lw)
}

/// No slot is filled twice.
proof fn slots_differ(layer: int, a: int, b: int)
    requires
        0 <= a < b < slots(layer).len(),
    ensures
        slots(layer)[a] != slots(layer)[b],
{
    assert(slots(layer).len() == 8);
}

/// A slot is served by what it takes: the attention projections and the recurrent
/// output by a plane or, without one, an unquantized matrix; the other quantized
/// weights by a plane alone; the conv and the gates by a matrix; the norms by a
/// vector. A matrix or a vector is one whose data is as large as its shape says.
pub proof fn a_slot_is_served_by_what_it_takes(offer: Offer, slot: TensorSlot)
    ensures
        ({
            let plane = offer.plane is Some;
            let matrix = offer.tensor matches Some(t) && t.is_bf16 && t.shape@.len() == 2
                && t.data@.len() == 2 * (t.shape@[0] * t.shape@[1]);
            let vector = offer.tensor matches Some(t) && t.is_bf16 && t.shape@.len() == 1
                && t.data@.len() == 2 * t.shape@[0];
            offer.serves(slot) <==> match slot {
                TensorSlot::Qkv | TensorSlot::AttnOut | TensorSlot::GdnOut => plane || matrix,
                TensorSlot::GdnIn | TensorSlot::MlpGateUp | TensorSlot::MlpDown => plane,
                TensorSlot::GdnConv | TensorSlot::GdnAb => matrix,
                TensorSlot::QueryNorm
                | TensorSlot::KeyNorm
                | TensorSlot::NormIn
                | TensorSlot::NormPost => vector,
            }
        }),
{
}

} // verus!
