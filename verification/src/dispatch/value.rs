//! `(ValueKind, ValueKind)` and `(ValueKind, StreamKind)` entries of the
//! cross-rate table. Value edges are latched by concrete kernels, so the
//! table entry keeps no per-edge state.
use super::{
    CrossRateKernel, DefaultPolicy, DownDir, LatchPolicy, LinearPolicy, SincIirPolicy, SincPolicy, StreamKind, UpDir, ValueKind,
};
use vstd::prelude::*;

verus! {

impl CrossRateKernel<ValueKind, ValueKind, DefaultPolicy, 1, UpDir> for () {
    type State = ();
}

impl CrossRateKernel<ValueKind, ValueKind, DefaultPolicy, 2, UpDir> for () {
    type State = ();
}

impl CrossRateKernel<ValueKind, ValueKind, DefaultPolicy, 4, UpDir> for () {
    type State = ();
}

impl CrossRateKernel<ValueKind, ValueKind, DefaultPolicy, 8, UpDir> for () {
    type State = ();
}

impl CrossRateKernel<ValueKind, ValueKind, LatchPolicy, 1, UpDir> for () {
    type State = ();
}

impl CrossRateKernel<ValueKind, ValueKind, LatchPolicy, 2, UpDir> for () {
    type State = ();
}

impl CrossRateKernel<ValueKind, ValueKind, LatchPolicy, 4, UpDir> for () {
    type State = ();
}

impl CrossRateKernel<ValueKind, ValueKind, LatchPolicy, 8, UpDir> for () {
    type State = ();
}

impl CrossRateKernel<ValueKind, ValueKind, LinearPolicy, 1, UpDir> for () {
    type State = ();
}

impl CrossRateKernel<ValueKind, ValueKind, LinearPolicy, 2, UpDir> for () {
    type State = ();
}

impl CrossRateKernel<ValueKind, ValueKind, LinearPolicy, 4, UpDir> for () {
    type State = ();
}

impl CrossRateKernel<ValueKind, ValueKind, LinearPolicy, 8, UpDir> for () {
    type State = ();
}

impl CrossRateKernel<ValueKind, ValueKind, SincPolicy, 1, UpDir> for () {
    type State = ();
}

impl CrossRateKernel<ValueKind, ValueKind, SincPolicy, 2, UpDir> for () {
    type State = ();
}

impl CrossRateKernel<ValueKind, ValueKind, SincPolicy, 4, UpDir> for () {
    type State = ();
}

impl CrossRateKernel<ValueKind, ValueKind, SincPolicy, 8, UpDir> for () {
    type State = ();
}

impl CrossRateKernel<ValueKind, ValueKind, SincIirPolicy, 1, UpDir> for () {
    type State = ();
}

impl CrossRateKernel<ValueKind, ValueKind, SincIirPolicy, 2, UpDir> for () {
    type State = ();
}

impl CrossRateKernel<ValueKind, ValueKind, SincIirPolicy, 4, UpDir> for () {
    type State = ();
}

impl CrossRateKernel<ValueKind, ValueKind, SincIirPolicy, 8, UpDir> for () {
    type State = ();
}

impl CrossRateKernel<ValueKind, ValueKind, DefaultPolicy, 1, DownDir> for () {
    type State = ();
}

impl CrossRateKernel<ValueKind, ValueKind, DefaultPolicy, 2, DownDir> for () {
    type State = ();
}

impl CrossRateKernel<ValueKind, ValueKind, DefaultPolicy, 4, DownDir> for () {
    type State = ();
}

impl CrossRateKernel<ValueKind, ValueKind, DefaultPolicy, 8, DownDir> for () {
    type State = ();
}

impl CrossRateKernel<ValueKind, ValueKind, LatchPolicy, 1, DownDir> for () {
    type State = ();
}

impl CrossRateKernel<ValueKind, ValueKind, LatchPolicy, 2, DownDir> for () {
    type State = ();
}

impl CrossRateKernel<ValueKind, ValueKind, LatchPolicy, 4, DownDir> for () {
    type State = ();
}

impl CrossRateKernel<ValueKind, ValueKind, LatchPolicy, 8, DownDir> for () {
    type State = ();
}

impl CrossRateKernel<ValueKind, ValueKind, LinearPolicy, 1, DownDir> for () {
    type State = ();
}

impl CrossRateKernel<ValueKind, ValueKind, LinearPolicy, 2, DownDir> for () {
    type State = ();
}

impl CrossRateKernel<ValueKind, ValueKind, LinearPolicy, 4, DownDir> for () {
    type State = ();
}

impl CrossRateKernel<ValueKind, ValueKind, LinearPolicy, 8, DownDir> for () {
    type State = ();
}

impl CrossRateKernel<ValueKind, ValueKind, SincPolicy, 1, DownDir> for () {
    type State = ();
}

impl CrossRateKernel<ValueKind, ValueKind, SincPolicy, 2, DownDir> for () {
    type State = ();
}

impl CrossRateKernel<ValueKind, ValueKind, SincPolicy, 4, DownDir> for () {
    type State = ();
}

impl CrossRateKernel<ValueKind, ValueKind, SincPolicy, 8, DownDir> for () {
    type State = ();
}

impl CrossRateKernel<ValueKind, ValueKind, SincIirPolicy, 1, DownDir> for () {
    type State = ();
}

impl CrossRateKernel<ValueKind, ValueKind, SincIirPolicy, 2, DownDir> for () {
    type State = ();
}

impl CrossRateKernel<ValueKind, ValueKind, SincIirPolicy, 4, DownDir> for () {
    type State = ();
}

impl CrossRateKernel<ValueKind, ValueKind, SincIirPolicy, 8, DownDir> for () {
    type State = ();
}

impl CrossRateKernel<ValueKind, StreamKind, DefaultPolicy, 1, UpDir> for () {
    type State = ();
}

impl CrossRateKernel<ValueKind, StreamKind, DefaultPolicy, 2, UpDir> for () {
    type State = ();
}

impl CrossRateKernel<ValueKind, StreamKind, DefaultPolicy, 4, UpDir> for () {
    type State = ();
}

impl CrossRateKernel<ValueKind, StreamKind, DefaultPolicy, 8, UpDir> for () {
    type State = ();
}

impl CrossRateKernel<ValueKind, StreamKind, LatchPolicy, 1, UpDir> for () {
    type State = ();
}

impl CrossRateKernel<ValueKind, StreamKind, LatchPolicy, 2, UpDir> for () {
    type State = ();
}

impl CrossRateKernel<ValueKind, StreamKind, LatchPolicy, 4, UpDir> for () {
    type State = ();
}

impl CrossRateKernel<ValueKind, StreamKind, LatchPolicy, 8, UpDir> for () {
    type State = ();
}

impl CrossRateKernel<ValueKind, StreamKind, LinearPolicy, 1, UpDir> for () {
    type State = ();
}

impl CrossRateKernel<ValueKind, StreamKind, LinearPolicy, 2, UpDir> for () {
    type State = ();
}

impl CrossRateKernel<ValueKind, StreamKind, LinearPolicy, 4, UpDir> for () {
    type State = ();
}

impl CrossRateKernel<ValueKind, StreamKind, LinearPolicy, 8, UpDir> for () {
    type State = ();
}

impl CrossRateKernel<ValueKind, StreamKind, SincPolicy, 1, UpDir> for () {
    type State = ();
}

impl CrossRateKernel<ValueKind, StreamKind, SincPolicy, 2, UpDir> for () {
    type State = ();
}

impl CrossRateKernel<ValueKind, StreamKind, SincPolicy, 4, UpDir> for () {
    type State = ();
}

impl CrossRateKernel<ValueKind, StreamKind, SincPolicy, 8, UpDir> for () {
    type State = ();
}

impl CrossRateKernel<ValueKind, StreamKind, SincIirPolicy, 1, UpDir> for () {
    type State = ();
}

impl CrossRateKernel<ValueKind, StreamKind, SincIirPolicy, 2, UpDir> for () {
    type State = ();
}

impl CrossRateKernel<ValueKind, StreamKind, SincIirPolicy, 4, UpDir> for () {
    type State = ();
}

impl CrossRateKernel<ValueKind, StreamKind, SincIirPolicy, 8, UpDir> for () {
    type State = ();
}

impl CrossRateKernel<ValueKind, StreamKind, DefaultPolicy, 1, DownDir> for () {
    type State = ();
}

impl CrossRateKernel<ValueKind, StreamKind, DefaultPolicy, 2, DownDir> for () {
    type State = ();
}

impl CrossRateKernel<ValueKind, StreamKind, DefaultPolicy, 4, DownDir> for () {
    type State = ();
}

impl CrossRateKernel<ValueKind, StreamKind, DefaultPolicy, 8, DownDir> for () {
    type State = ();
}

impl CrossRateKernel<ValueKind, StreamKind, LatchPolicy, 1, DownDir> for () {
    type State = ();
}

impl CrossRateKernel<ValueKind, StreamKind, LatchPolicy, 2, DownDir> for () {
    type State = ();
}

impl CrossRateKernel<ValueKind, StreamKind, LatchPolicy, 4, DownDir> for () {
    type State = ();
}

impl CrossRateKernel<ValueKind, StreamKind, LatchPolicy, 8, DownDir> for () {
    type State = ();
}

impl CrossRateKernel<ValueKind, StreamKind, LinearPolicy, 1, DownDir> for () {
    type State = ();
}

impl CrossRateKernel<ValueKind, StreamKind, LinearPolicy, 2, DownDir> for () {
    type State = ();
}

impl CrossRateKernel<ValueKind, StreamKind, LinearPolicy, 4, DownDir> for () {
    type State = ();
}

impl CrossRateKernel<ValueKind, StreamKind, LinearPolicy, 8, DownDir> for () {
    type State = ();
}

impl CrossRateKernel<ValueKind, StreamKind, SincPolicy, 1, DownDir> for () {
    type State = ();
}

impl CrossRateKernel<ValueKind, StreamKind, SincPolicy, 2, DownDir> for () {
    type State = ();
}

impl CrossRateKernel<ValueKind, StreamKind, SincPolicy, 4, DownDir> for () {
    type State = ();
}

impl CrossRateKernel<ValueKind, StreamKind, SincPolicy, 8, DownDir> for () {
    type State = ();
}

impl CrossRateKernel<ValueKind, StreamKind, SincIirPolicy, 1, DownDir> for () {
    type State = ();
}

impl CrossRateKernel<ValueKind, StreamKind, SincIirPolicy, 2, DownDir> for () {
    type State = ();
}

impl CrossRateKernel<ValueKind, StreamKind, SincIirPolicy, 4, DownDir> for () {
    type State = ();
}

impl CrossRateKernel<ValueKind, StreamKind, SincIirPolicy, 8, DownDir> for () {
    type State = ();
}

} // verus!
